//! The parser: a state machine over two lookahead cells fed by the lexer,
//! building the abstract syntax tree by statement dispatch and
//! precedence-directed expression parsing.
//!
//! The mathematical model is a family of recursive spec functions
//! (`spec_parse_program`, `spec_parse_statement`, `spec_parse_expression`,
//! ...) over the token stream, each returning the parsed node together with
//! the number of tokens it consumes, or the error it stops on. Every parsing
//! method is proved to follow its spec function exactly on the stream of
//! tokens remaining in the parser.

pub mod expression;

use crate::ast::Expression;
use crate::ast::ExpressionStatement;
use crate::ast::Identifier;
use crate::ast::IntegerLiteral;
use crate::ast::LetStatement;
use crate::ast::Program;
use crate::ast::ReturnStatement;
use crate::ast::SpecExpr;
use crate::ast::SpecStmt;
use crate::ast::Statement;
use crate::lexer::lex_step;
use crate::lexer::lex_tokens;
use crate::lexer::Lexer;
use crate::lexer::token::SpecToken;
use crate::lexer::token::spec_token_show;
use crate::lexer::token::spec_token_type_name;
use crate::lexer::token::Token;
use crate::lexer::token::TokenType;
use crate::parser::expression::Precedence;
use vstd::prelude::*;
use vstd::string::StringExecFns;
use vstd::string::StrSliceExecFns;
use vstd::string::StringExecFnsIsAscii;
use vstd::utf8::is_ascii_chars;
use vstd::utf8::is_ascii_chars_encode_utf8;

verus! {

/// A syntax error: the token found where a specific one was required, a
/// token no expression can start with, or an integer literal whose value
/// does not fit.
#[derive(Debug, PartialEq)]
pub enum ParseError {
    UnexpectedToken { expected: TokenType, got: Token },
    NoPrefixParseFn { got: Token },
    MalformedIntegerLiteral { got: Token },
}

/// The mathematical value of a parse error.
pub enum SpecParseError {
    UnexpectedToken { expected: TokenType, got: SpecToken },
    NoPrefixParseFn { got: SpecToken },
    MalformedIntegerLiteral { got: SpecToken },
}

impl View for ParseError {
    type V = SpecParseError;

    open spec fn view(&self) -> SpecParseError {
        match self {
            ParseError::UnexpectedToken { expected, got } => SpecParseError::UnexpectedToken {
                expected: *expected,
                got: got@,
            },
            ParseError::NoPrefixParseFn { got } => SpecParseError::NoPrefixParseFn { got: got@ },
            ParseError::MalformedIntegerLiteral { got } => SpecParseError::MalformedIntegerLiteral {
                got: got@,
            },
        }
    }
}

/// The human-readable expectation-vs-actual message of a parse error.
pub open spec fn spec_error_message(e: SpecParseError) -> Seq<char> {
    match e {
        SpecParseError::UnexpectedToken { expected, got } => "expected "@ + spec_token_type_name(
            expected,
        ) + ", got "@ + spec_token_show(got),
        SpecParseError::NoPrefixParseFn { got } => "no prefix parse function for "@
            + spec_token_show(got),
        SpecParseError::MalformedIntegerLiteral { got } => "malformed integer literal "@
            + spec_token_show(got),
    }
}

impl ParseError {
    /// The human-readable message of this error.
    pub fn message(&self) -> (r: String)
        ensures
            r@ == spec_error_message(self@),
    {
        match self {
            ParseError::UnexpectedToken { expected, got } => {
                let mut r = "expected ".to_owned();
                r.append(expected.show().as_str());
                r.append(", got ");
                r.append(got.show().as_str());
                proof {
                    assert(r@ =~= spec_error_message(self@));
                }
                r
            },
            ParseError::NoPrefixParseFn { got } => {
                let mut r = "no prefix parse function for ".to_owned();
                r.append(got.show().as_str());
                proof {
                    assert(r@ =~= spec_error_message(self@));
                }
                r
            },
            ParseError::MalformedIntegerLiteral { got } => {
                let mut r = "malformed integer literal ".to_owned();
                r.append(got.show().as_str());
                proof {
                    assert(r@ =~= spec_error_message(self@));
                }
                r
            },
        }
    }
}

/// The token at index `i` of the stream, or the end-of-input token once the
/// stream is exhausted.
pub open spec fn tok_at(toks: Seq<SpecToken>, i: int) -> SpecToken {
    if 0 <= i < toks.len() {
        toks[i]
    } else {
        SpecToken { token_type: TokenType::Eof, literal: Seq::empty() }
    }
}

/// A decimal digit character.
pub open spec fn is_digit_char(c: char) -> bool {
    48 <= c as u32 && c as u32 <= 57
}

/// The value of a decimal digit character.
pub open spec fn digit_val(c: char) -> nat
    recommends
        is_digit_char(c),
{
    (c as u32 - 48) as nat
}

/// A non-empty run of decimal digit characters.
pub open spec fn all_digits(s: Seq<char>) -> bool {
    s.len() > 0 && forall|i: int| 0 <= i < s.len() ==> is_digit_char(#[trigger] s[i])
}

/// The value of a decimal digit run, most significant digit first.
pub open spec fn dec_val(s: Seq<char>) -> nat
    decreases s.len(),
{
    if s.len() == 0 {
        0
    } else {
        dec_val(s.drop_last()) * 10 + digit_val(s.last())
    }
}

/// The expression starting at the head of the stream: an identifier or
/// integer token alone, or a prefix operator applied to the expression
/// after it. Yields the expression and the number of tokens it occupies.
pub open spec fn spec_parse_expression(toks: Seq<SpecToken>) -> Result<
    (SpecExpr, int),
    SpecParseError,
>
    decreases toks.len(), 1int,
{
    let t = tok_at(toks, 0);
    match t.token_type {
        TokenType::Ident => Ok((SpecExpr::Id(t.literal), 1)),
        TokenType::Int => if all_digits(t.literal) && dec_val(t.literal) <= i64::MAX {
            Ok((SpecExpr::Integer(dec_val(t.literal) as int), 1))
        } else {
            Err(SpecParseError::MalformedIntegerLiteral { got: t })
        },
        TokenType::Bang => spec_parse_prefix(toks),
        TokenType::Dash => spec_parse_prefix(toks),
        _ => Err(SpecParseError::NoPrefixParseFn { got: t }),
    }
}

/// A prefix application: the head token as operator, applied to the
/// expression starting right after it.
pub open spec fn spec_parse_prefix(toks: Seq<SpecToken>) -> Result<
    (SpecExpr, int),
    SpecParseError,
>
    decreases toks.len(), 0int,
{
    let t = tok_at(toks, 0);
    if toks.len() == 0 {
        Err(SpecParseError::NoPrefixParseFn { got: t })
    } else {
        match spec_parse_expression(toks.skip(1)) {
            Ok((e, n)) => Ok(
                (SpecExpr::Prefix { operator: t.literal, right: Box::new(e) }, n + 1),
            ),
            Err(err) => Err(err),
        }
    }
}

/// A let statement: the `let` keyword, a name, `=`, a value expression, and
/// a mandatory terminating semicolon.
pub open spec fn spec_parse_let(toks: Seq<SpecToken>) -> Result<(SpecStmt, int), SpecParseError> {
    let t0 = tok_at(toks, 0);
    let t1 = tok_at(toks, 1);
    if !(t1.token_type is Ident) {
        Err(SpecParseError::UnexpectedToken { expected: TokenType::Ident, got: t1 })
    } else if !(tok_at(toks, 2).token_type is Assign) {
        Err(SpecParseError::UnexpectedToken { expected: TokenType::Assign, got: tok_at(toks, 2) })
    } else {
        match spec_parse_expression(toks.skip(3)) {
            Err(e) => Err(e),
            Ok((e, n)) => {
                let j = 3 + n;
                if tok_at(toks, j).token_type is Semicolon {
                    Ok((SpecStmt::Let { token: t0, name: t1.literal, value: e }, j + 1))
                } else {
                    Err(
                        SpecParseError::UnexpectedToken {
                            expected: TokenType::Semicolon,
                            got: tok_at(toks, j),
                        },
                    )
                }
            },
        }
    }
}

/// A return statement: the `return` keyword, a value expression, and an
/// optional trailing semicolon.
pub open spec fn spec_parse_return(toks: Seq<SpecToken>) -> Result<
    (SpecStmt, int),
    SpecParseError,
> {
    let t0 = tok_at(toks, 0);
    match spec_parse_expression(toks.skip(1)) {
        Err(e) => Err(e),
        Ok((e, n)) => {
            let j = 1 + n;
            if tok_at(toks, j).token_type is Semicolon {
                Ok((SpecStmt::Return { token: t0, value: e }, j + 1))
            } else {
                Ok((SpecStmt::Return { token: t0, value: e }, j))
            }
        },
    }
}

/// An expression statement: one expression, carrying the token under the
/// cursor after it is parsed, and an optional trailing semicolon.
pub open spec fn spec_parse_expr_stmt(toks: Seq<SpecToken>) -> Result<
    (SpecStmt, int),
    SpecParseError,
> {
    match spec_parse_expression(toks) {
        Err(e) => Err(e),
        Ok((e, n)) => {
            let t = tok_at(toks, n - 1);
            if tok_at(toks, n).token_type is Semicolon {
                Ok((SpecStmt::Expr { token: t, value: e }, n + 1))
            } else {
                Ok((SpecStmt::Expr { token: t, value: e }, n))
            }
        },
    }
}

/// The statement starting at the head of the stream, dispatched on its
/// first token.
pub open spec fn spec_parse_statement(toks: Seq<SpecToken>) -> Result<
    (SpecStmt, int),
    SpecParseError,
> {
    match tok_at(toks, 0).token_type {
        TokenType::Let => spec_parse_let(toks),
        TokenType::Return => spec_parse_return(toks),
        _ => spec_parse_expr_stmt(toks),
    }
}

/// A parsed expression occupies at least one and at most all of the
/// stream's tokens.
pub proof fn lemma_expr_consumes(toks: Seq<SpecToken>)
    ensures
        spec_parse_expression(toks) matches Ok((e, n)) ==> 1 <= n <= toks.len(),
    decreases toks.len(),
{
    if spec_parse_expression(toks) is Ok {
        let t = tok_at(toks, 0);
        if t.token_type is Bang || t.token_type is Dash {
            lemma_expr_consumes(toks.skip(1));
        }
    }
}

/// A parsed statement occupies at least one and at most all of the
/// stream's tokens.
pub proof fn lemma_statement_consumes(toks: Seq<SpecToken>)
    ensures
        spec_parse_statement(toks) matches Ok((s, n)) ==> 1 <= n <= toks.len(),
{
    match tok_at(toks, 0).token_type {
        TokenType::Let => {
            lemma_expr_consumes(toks.skip(3));
        },
        TokenType::Return => {
            lemma_expr_consumes(toks.skip(1));
        },
        _ => {
            lemma_expr_consumes(toks);
        },
    }
}

/// The program at the head of the stream: statements parsed one after the
/// other until the stream is exhausted, stopping on the first failure.
pub open spec fn spec_parse_program(toks: Seq<SpecToken>) -> Result<Seq<SpecStmt>, SpecParseError>
    decreases toks.len(),
        via spec_parse_program_decreases
{
    if toks.len() == 0 {
        Ok(Seq::empty())
    } else {
        match spec_parse_statement(toks) {
            Err(e) => Err(e),
            Ok((s, n)) => match spec_parse_program(toks.skip(n)) {
                Ok(rest) => Ok(seq![s] + rest),
                Err(e) => Err(e),
            },
        }
    }
}

#[via_fn]
proof fn spec_parse_program_decreases(toks: Seq<SpecToken>) {
    lemma_statement_consumes(toks);
}

/// The parser state: the lexer it owns and the two lookahead cells.
pub struct Parser {
    lexer: Lexer,
    current_token: Token,
    peek_token: Token,
}

impl Parser {
    /// The lexer is well-formed, and an end-of-input lookahead cell always
    /// carries the empty literal.
    pub closed spec fn wf(self) -> bool {
        &&& self.lexer.wf()
        &&& self.current_token@.token_type is Eof ==> self.current_token@.literal
            == Seq::<char>::empty()
        &&& self.peek_token@.token_type is Eof ==> self.peek_token@.literal
            == Seq::<char>::empty()
    }

    /// The token under the cursor.
    pub closed spec fn cur(self) -> SpecToken {
        self.current_token@
    }

    /// The token one past the cursor.
    pub closed spec fn peek_tok(self) -> SpecToken {
        self.peek_token@
    }

    /// The bytes the owned lexer scans.
    pub closed spec fn lex_in(self) -> Seq<u8> {
        self.lexer@.input
    }

    /// The owned lexer's cursor position.
    pub closed spec fn lex_pos(self) -> nat {
        self.lexer@.pos
    }

    /// The stream of tokens still in front of the parser, up to the first
    /// end-of-input token.
    pub closed spec fn toks(self) -> Seq<SpecToken> {
        if self.current_token@.token_type is Eof {
            Seq::empty()
        } else if self.peek_token@.token_type is Eof {
            seq![self.current_token@]
        } else {
            seq![self.current_token@, self.peek_token@] + lex_tokens(
                self.lexer@.input,
                self.lexer@.pos,
            )
        }
    }

    /// A parser over the given lexer, with both lookahead cells primed.
    pub fn new(lexer: Lexer) -> (parser: Parser)
        requires
            lexer.wf(),
        ensures
            parser.wf(),
            parser.toks() == lex_tokens(lexer@.input, lexer@.pos),
    {
        let ghost input = lexer@.input;
        let ghost pos0 = lexer@.pos;
        proof {
            lexer.lemma_wf_pos();
            crate::lexer::lemma_lex_step_advances(input, pos0);
            crate::lexer::lemma_lex_step_advances(input, lex_step(input, pos0).1);
        }
        let mut parser = Parser {
            lexer,
            current_token: Token::new(TokenType::Illegal, String::new()),
            peek_token: Token::new(TokenType::Illegal, String::new()),
        };
        parser.next_token();
        parser.next_token();
        proof {
            let (t0, p1) = lex_step(input, pos0);
            let (t1, p2) = lex_step(input, p1);
            if t0.token_type is Eof {
                assert(parser.toks() =~= lex_tokens(input, pos0));
            } else if t1.token_type is Eof {
                assert(lex_tokens(input, p1) =~= Seq::<SpecToken>::empty());
                assert(parser.toks() =~= lex_tokens(input, pos0));
            } else {
                assert(lex_tokens(input, p1) =~= seq![t1] + lex_tokens(input, p2));
                assert(parser.toks() =~= lex_tokens(input, pos0));
            }
        }
        parser
    }

    /// Shift the lookahead window one token forward: the peeked token moves
    /// under the cursor and a fresh token is pulled from the lexer.
    pub fn next_token(&mut self)
        requires
            old(self).wf(),
        ensures
            final(self).wf(),
            final(self).cur() == old(self).peek_tok(),
            final(self).lex_in() == old(self).lex_in(),
            final(self).peek_tok() == lex_step(old(self).lex_in(), old(self).lex_pos()).0,
            final(self).lex_pos() == lex_step(old(self).lex_in(), old(self).lex_pos()).1,
            old(self).cur().token_type !is Eof ==> final(self).toks() == old(
                self,
            ).toks().drop_first(),
    {
        self.current_token = self.peek_token.clone();
        self.peek_token = self.lexer.next_token();
        proof {
            old(self).lexer.lemma_wf_pos();
            crate::lexer::lemma_lex_step_advances(old(self).lex_in(), old(self).lex_pos());
            let c = old(self).cur();
            let p = old(self).peek_tok();
            let t = self.peek_token@;
            if c.token_type !is Eof {
                if p.token_type is Eof {
                    assert(self.toks() =~= old(self).toks().drop_first());
                } else {
                    if t.token_type is Eof {
                        assert(lex_tokens(old(self).lex_in(), old(self).lex_pos())
                            =~= Seq::<SpecToken>::empty());
                        assert(self.toks() =~= old(self).toks().drop_first());
                    } else {
                        assert(lex_tokens(old(self).lex_in(), old(self).lex_pos()) =~= seq![t]
                            + lex_tokens(self.lex_in(), self.lex_pos()));
                        assert(self.toks() =~= old(self).toks().drop_first());
                    }
                }
            }
        }
    }
}

/// When the stream is non-empty its head is the token under the cursor;
/// once it is empty the cursor holds the end-of-input token.
proof fn lemma_cur_is_head(p: Parser)
    requires
        p.wf(),
    ensures
        p.cur() == tok_at(p.toks(), 0),
{
}

/// Within a non-empty stream, the token one past the cursor is the second
/// stream element, or end-of-input when only one token remains.
proof fn lemma_peek_is_second(p: Parser)
    requires
        p.wf(),
        p.toks().len() > 0,
    ensures
        p.peek_tok() == tok_at(p.toks(), 1),
{
}

/// Reading at an offset into a suffix reads at the shifted offset.
proof fn lemma_tok_at_skip(toks: Seq<SpecToken>, k: int, i: int)
    requires
        0 <= k <= toks.len(),
        0 <= i,
    ensures
        tok_at(toks.skip(k), i) == tok_at(toks, k + i),
{
}

/// A decimal digit character lies in the ASCII range.
proof fn lemma_digit_char_ascii(c: char)
    requires
        is_digit_char(c),
    ensures
        '\0' <= c <= '\u{7f}',
{
}

/// The value of a digit run is at least the value of any of its prefixes.
proof fn lemma_dec_val_take_le(s: Seq<char>, k: int)
    requires
        0 <= k <= s.len(),
    ensures
        dec_val(s.take(k)) <= dec_val(s),
    decreases s.len() - k,
{
    if k == s.len() {
        assert(s.take(k) =~= s);
    } else {
        lemma_dec_val_take_le(s, k + 1);
        assert(s.take(k + 1).drop_last() =~= s.take(k));
        assert(s.take(k + 1).last() == s[k]);
        assert(dec_val(s.take(k + 1)) == dec_val(s.take(k)) * 10 + digit_val(s[k]));
    }
}

/// The value of `lit` as a decimal digit run, when `lit` is a non-empty
/// run of digits whose value fits an `i64`.
fn int_from_decimal(lit: &String) -> (r: Option<i64>)
    ensures
        (match r {
            Some(v) => all_digits(lit@) && dec_val(lit@) <= i64::MAX && v >= 0 && v as nat
                == dec_val(lit@),
            None => !(all_digits(lit@) && dec_val(lit@) <= i64::MAX),
        }),
{
    if !lit.is_ascii() {
        proof {
            if all_digits(lit@) {
                assert forall|i: int| 0 <= i < lit@.len() implies '\0' <= #[trigger] lit@[i]
                    <= '\u{7f}' by {
                    assert(is_digit_char(lit@[i]));
                    lemma_digit_char_ascii(lit@[i]);
                }
                assert(is_ascii_chars(lit@));
            }
        }
        return None;
    }
    let bytes = lit.as_str().as_bytes_vec();
    proof {
        is_ascii_chars_encode_utf8(lit@);
        assert(bytes@.len() == lit@.len());
    }
    if bytes.len() == 0 {
        return None;
    }
    let mut val: u64 = 0;
    let mut i: usize = 0;
    proof {
        assert(lit@.take(0) =~= Seq::<char>::empty());
    }
    while i < bytes.len()
        invariant
            is_ascii_chars(lit@),
            bytes@.len() == lit@.len(),
            0 < bytes@.len(),
            forall|j: int| 0 <= j < lit@.len() ==> #[trigger] bytes@[j] == lit@[j] as u8,
            i <= bytes@.len(),
            forall|j: int| 0 <= j < i ==> is_digit_char(#[trigger] lit@[j]),
            val as nat == dec_val(lit@.take(i as int)),
        decreases bytes@.len() - i,
    {
        let b = bytes[i];
        proof {
            assert('\0' <= lit@[i as int] <= '\u{7f}');
            assert(lit@[i as int] as u32 == b);
        }
        if b < 48 || b > 57 {
            proof {
                assert(!is_digit_char(lit@[i as int]));
            }
            return None;
        }
        let d = (b - 48) as u64;
        let ghost prefix = lit@.take(i as int);
        let ghost prefix1 = lit@.take(i as int + 1);
        proof {
            assert(prefix1.drop_last() =~= prefix);
            assert(prefix1.last() == lit@[i as int]);
            assert(dec_val(prefix1) == dec_val(prefix) * 10 + digit_val(lit@[i as int]));
            assert(digit_val(lit@[i as int]) == d as nat);
        }
        let step = match val.checked_mul(10) {
            Some(x) => x.checked_add(d),
            None => None,
        };
        match step {
            Some(y) => {
                val = y;
            },
            None => {
                proof {
                    assert(dec_val(prefix1) > u64::MAX);
                    lemma_dec_val_take_le(lit@, i as int + 1);
                    assert(dec_val(lit@) > i64::MAX);
                }
                return None;
            },
        }
        i = i + 1;
    }
    proof {
        assert(lit@.take(lit@.len() as int) =~= lit@);
        assert(val as nat == dec_val(lit@));
        assert(all_digits(lit@));
    }
    if val <= 0x7fff_ffff_ffff_ffff {
        Some(val as i64)
    } else {
        None
    }
}

/// The prefix behavior of an identifier token: the identifier expression
/// carrying the token's literal, consuming no further input.
pub fn parse_identifier(parser: &mut Parser) -> (r: Result<Expression, ParseError>)
    ensures
        *final(parser) == *old(parser),
        r matches Ok(e) && e@ == SpecExpr::Id(old(parser).cur().literal),
{
    Ok(Expression::Id(Identifier(parser.current_token.literal.clone())))
}

/// The prefix behavior of an integer token: the integer expression holding
/// the literal's decimal value, or a malformed-literal error when the
/// literal is not a digit run whose value fits.
pub fn parse_integer_literal(parser: &mut Parser) -> (r: Result<Expression, ParseError>)
    ensures
        *final(parser) == *old(parser),
        (match r {
            Ok(e) => all_digits(old(parser).cur().literal) && dec_val(old(parser).cur().literal)
                <= i64::MAX && e@ == SpecExpr::Integer(dec_val(old(parser).cur().literal) as int),
            Err(err) => !(all_digits(old(parser).cur().literal) && dec_val(
                old(parser).cur().literal,
            ) <= i64::MAX) && err@ == (SpecParseError::MalformedIntegerLiteral {
                got: old(parser).cur(),
            }),
        }),
{
    match int_from_decimal(&parser.current_token.literal) {
        Some(val) => Ok(Expression::Integer(IntegerLiteral(val))),
        None => Err(
            ParseError::MalformedIntegerLiteral { got: parser.current_token.clone() },
        ),
    }
}

/// The prefix behavior of a prefix operator token: capture the operator's
/// text, advance, and parse the operand at prefix precedence.
pub fn parse_prefix_expression(parser: &mut Parser) -> (r: Result<Expression, ParseError>)
    requires
        old(parser).wf(),
        old(parser).toks().len() > 0,
    ensures
        final(parser).wf(),
        (match r {
            Ok(e) => spec_parse_prefix(old(parser).toks()) matches Ok(p) && e@ == p.0
                && final(parser).toks() == old(parser).toks().skip(p.1 - 1),
            Err(err) => spec_parse_prefix(old(parser).toks()) matches Err(se) && se == err@,
        }),
    decreases old(parser).toks().len(), 0int,
{
    let ghost t_all = old(parser).toks();
    let operator = parser.current_token.literal.clone();
    proof {
        lemma_cur_is_head(*old(parser));
    }
    parser.next_token();
    proof {
        assert(parser.toks() =~= t_all.skip(1));
    }
    match parser.parse_expression(Precedence::Prefix) {
        Ok(right) => {
            proof {
                lemma_expr_consumes(t_all.skip(1));
                let n = spec_parse_expression(t_all.skip(1))->Ok_0.1;
                assert(parser.toks() =~= t_all.skip(n + 1 - 1));
            }
            Ok(Expression::Prefix { operator, right: Box::new(right) })
        },
        Err(e) => Err(e),
    }
}

impl Parser {
    /// Parse the expression starting at the cursor: dispatch to the prefix
    /// behavior registered for the current token's category, or fail naming
    /// the token no expression can start with.
    pub fn parse_expression(&mut self, precedence: Precedence) -> (r: Result<
        Expression,
        ParseError,
    >)
        requires
            old(self).wf(),
        ensures
            final(self).wf(),
            (match r {
                Ok(e) => spec_parse_expression(old(self).toks()) matches Ok(p) && e@ == p.0
                    && final(self).toks() == old(self).toks().skip(p.1 - 1),
                Err(err) => spec_parse_expression(old(self).toks()) matches Err(se) && se == err@,
            }),
        decreases old(self).toks().len(), 1int,
    {
        proof {
            lemma_cur_is_head(*old(self));
        }
        match self.current_token.token_type {
            TokenType::Ident => {
                let r = parse_identifier(self);
                proof {
                    assert(old(self).toks().skip(0) =~= old(self).toks());
                }
                r
            },
            TokenType::Int => {
                let r = parse_integer_literal(self);
                proof {
                    assert(old(self).toks().skip(0) =~= old(self).toks());
                }
                r
            },
            TokenType::Bang => parse_prefix_expression(self),
            TokenType::Dash => parse_prefix_expression(self),
            _ => Err(ParseError::NoPrefixParseFn { got: self.current_token.clone() }),
        }
    }

    /// Parse one let statement: the keyword, a name (else fail), `=` (else
    /// fail), the value expression, and a mandatory `;` (else fail).
    pub fn parse_let_statement(&mut self) -> (r: Result<Statement, ParseError>)
        requires
            old(self).wf(),
            old(self).toks().len() > 0,
        ensures
            final(self).wf(),
            (match r {
                Ok(stmt) => spec_parse_let(old(self).toks()) matches Ok(p) && stmt@ == p.0
                    && final(self).toks() == old(self).toks().skip(p.1 - 1),
                Err(err) => spec_parse_let(old(self).toks()) matches Err(se) && se == err@,
            }),
    {
        let ghost t_all = old(self).toks();
        let token = self.current_token.clone();
        proof {
            lemma_cur_is_head(*old(self));
        }
        self.next_token();
        proof {
            assert(self.toks() =~= t_all.skip(1));
            lemma_cur_is_head(*self);
            lemma_tok_at_skip(t_all, 1, 0);
        }
        if self.current_token.token_type != TokenType::Ident {
            return Err(
                ParseError::UnexpectedToken {
                    expected: TokenType::Ident,
                    got: self.current_token.clone(),
                },
            );
        }
        let name = Identifier(self.current_token.literal.clone());
        self.next_token();
        proof {
            assert(self.toks() =~= t_all.skip(2));
            lemma_cur_is_head(*self);
            lemma_tok_at_skip(t_all, 2, 0);
        }
        if self.current_token.token_type != TokenType::Assign {
            return Err(
                ParseError::UnexpectedToken {
                    expected: TokenType::Assign,
                    got: self.current_token.clone(),
                },
            );
        }
        self.next_token();
        proof {
            assert(self.toks() =~= t_all.skip(3));
        }
        let value = match self.parse_expression(Precedence::Lowest) {
            Ok(e) => e,
            Err(e) => {
                return Err(e);
            },
        };
        let ghost n = spec_parse_expression(t_all.skip(3))->Ok_0.1;
        proof {
            lemma_expr_consumes(t_all.skip(3));
            assert(self.toks() =~= t_all.skip(3 + n - 1));
            lemma_peek_is_second(*self);
            lemma_tok_at_skip(t_all, 3 + n - 1, 1);
        }
        let statement = Statement::Let(LetStatement { token, name, value });
        if self.peek_token.token_type == TokenType::Semicolon {
            self.next_token();
            proof {
                assert(self.toks() =~= t_all.skip(3 + n));
            }
            Ok(statement)
        } else {
            Err(
                ParseError::UnexpectedToken {
                    expected: TokenType::Semicolon,
                    got: self.peek_token.clone(),
                },
            )
        }
    }

    /// Parse one return statement: the keyword, the value expression, and
    /// an optional trailing `;`.
    pub fn parse_return_statement(&mut self) -> (r: Result<Statement, ParseError>)
        requires
            old(self).wf(),
            old(self).toks().len() > 0,
        ensures
            final(self).wf(),
            (match r {
                Ok(stmt) => spec_parse_return(old(self).toks()) matches Ok(p) && stmt@ == p.0
                    && final(self).toks() == old(self).toks().skip(p.1 - 1),
                Err(err) => spec_parse_return(old(self).toks()) matches Err(se) && se == err@,
            }),
    {
        let ghost t_all = old(self).toks();
        let token = self.current_token.clone();
        proof {
            lemma_cur_is_head(*old(self));
        }
        self.next_token();
        proof {
            assert(self.toks() =~= t_all.skip(1));
        }
        let return_value = match self.parse_expression(Precedence::Lowest) {
            Ok(e) => e,
            Err(e) => {
                return Err(e);
            },
        };
        let ghost n = spec_parse_expression(t_all.skip(1))->Ok_0.1;
        proof {
            lemma_expr_consumes(t_all.skip(1));
            assert(self.toks() =~= t_all.skip(1 + n - 1));
            lemma_peek_is_second(*self);
            lemma_tok_at_skip(t_all, 1 + n - 1, 1);
        }
        let statement = Statement::Return(ReturnStatement { token, return_value });
        if self.peek_token.token_type == TokenType::Semicolon {
            self.next_token();
            proof {
                assert(self.toks() =~= t_all.skip(1 + n));
            }
            Ok(statement)
        } else {
            Ok(statement)
        }
    }

    /// Parse one expression statement: the expression alone, carrying the
    /// token under the cursor after it, and an optional trailing `;`.
    pub fn parse_expression_statement(&mut self) -> (r: Result<Statement, ParseError>)
        requires
            old(self).wf(),
        ensures
            final(self).wf(),
            (match r {
                Ok(stmt) => spec_parse_expr_stmt(old(self).toks()) matches Ok(p) && stmt@ == p.0
                    && final(self).toks() == old(self).toks().skip(p.1 - 1),
                Err(err) => spec_parse_expr_stmt(old(self).toks()) matches Err(se) && se == err@,
            }),
    {
        let ghost t_all = old(self).toks();
        let expression = match self.parse_expression(Precedence::Lowest) {
            Ok(e) => e,
            Err(e) => {
                return Err(e);
            },
        };
        let ghost n = spec_parse_expression(t_all)->Ok_0.1;
        proof {
            lemma_expr_consumes(t_all);
            assert(self.toks() =~= t_all.skip(n - 1));
            lemma_cur_is_head(*self);
            lemma_tok_at_skip(t_all, n - 1, 0);
            lemma_peek_is_second(*self);
            lemma_tok_at_skip(t_all, n - 1, 1);
        }
        let statement = Statement::Expression(
            ExpressionStatement { token: self.current_token.clone(), expression },
        );
        if self.peek_token.token_type == TokenType::Semicolon {
            self.next_token();
            proof {
                assert(self.toks() =~= t_all.skip(n));
            }
            Ok(statement)
        } else {
            Ok(statement)
        }
    }

    /// Parse one statement, dispatching on the current token's category.
    pub fn parse_statement(&mut self) -> (r: Result<Statement, ParseError>)
        requires
            old(self).wf(),
        ensures
            final(self).wf(),
            (match r {
                Ok(stmt) => spec_parse_statement(old(self).toks()) matches Ok(p) && stmt@ == p.0
                    && final(self).toks() == old(self).toks().skip(p.1 - 1),
                Err(err) => spec_parse_statement(old(self).toks()) matches Err(se) && se == err@,
            }),
    {
        proof {
            lemma_cur_is_head(*old(self));
        }
        match self.current_token.token_type {
            TokenType::Let => self.parse_let_statement(),
            TokenType::Return => self.parse_return_statement(),
            _ => self.parse_expression_statement(),
        }
    }

    /// Parse the whole program: statements one after the other until
    /// end-of-input, stopping and failing on the first statement-level
    /// failure with nothing built so far.
    #[verifier::rlimit(50)]
    pub fn parse_program(&mut self) -> (r: Result<Program, ParseError>)
        requires
            old(self).wf(),
        ensures
            final(self).wf(),
            r is Ok ==> final(self).toks() == Seq::<SpecToken>::empty(),
            (match r {
                Ok(p) => spec_parse_program(old(self).toks()) matches Ok(ss) && p@ == ss,
                Err(err) => spec_parse_program(old(self).toks()) matches Err(se) && se == err@,
            }),
    {
        let ghost t_all = old(self).toks();
        let mut program = Program { statements: Vec::new() };
        proof {
            assert(program@ =~= Seq::<SpecStmt>::empty());
        }
        while self.current_token.token_type != TokenType::Eof
            invariant
                self.wf(),
                t_all == old(self).toks(),
                (match spec_parse_program(self.toks()) {
                    Ok(rest) => spec_parse_program(t_all) matches Ok(all) && all =~= program@
                        + rest,
                    Err(e) => spec_parse_program(t_all) matches Err(se) && se == e,
                }),
            decreases self.toks().len(),
        {
            let ghost t_i = self.toks();
            let ghost prog_i = program@;
            proof {
                assert(t_i.len() > 0);
            }
            let statement = match self.parse_statement() {
                Ok(s) => s,
                Err(e) => {
                    proof {
                        assert(spec_parse_statement(t_i) matches Err(se) && se == e@);
                        assert(spec_parse_program(t_i) matches Err(se) && se == e@);
                    }
                    return Err(e);
                },
            };
            program.statements.push(statement);
            let ghost n = spec_parse_statement(t_i)->Ok_0.1;
            proof {
                lemma_statement_consumes(t_i);
                assert(program@ =~= prog_i.push(statement@));
                assert(self.toks().len() > 0);
            }
            self.next_token();
            proof {
                assert(self.toks() =~= t_i.skip(n));
                match spec_parse_program(self.toks()) {
                    Ok(rest) => {
                        assert(spec_parse_program(t_i) matches Ok(r2) && r2 == seq![statement@]
                            + rest);
                        assert(prog_i + (seq![statement@] + rest) =~= program@ + rest);
                    },
                    Err(e) => {
                        assert(spec_parse_program(t_i) matches Err(se) && se == e);
                    },
                }
            }
        }
        proof {
            assert(self.toks() =~= Seq::<SpecToken>::empty());
            assert(program@ + Seq::<SpecStmt>::empty() =~= program@);
        }
        Ok(program)
    }
}

} // verus!
