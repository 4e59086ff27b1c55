//! Laws of the lexer, stated over its mathematical model: how
//! single-character tokens, two-character operators, keywords, identifiers
//! and integer literals are scanned.

use crate::ascii::ascii_seq;
use crate::ast::dec_digits;
use crate::ast::digit_char;
use crate::ast::render_expr;
use crate::ast::render_program;
use crate::ast::render_stmt;
use crate::ast::SpecExpr;
use crate::ast::SpecStmt;
use crate::lexer::is_digit_byte;
use crate::lexer::is_letter_byte;
use crate::lexer::is_ws_byte;
use crate::lexer::keyword_type;
use crate::lexer::lex_step;
use crate::lexer::lex_tokens;
use crate::lexer::num_end;
use crate::lexer::skip_ws_end;
use crate::lexer::word_end;
use crate::lexer::token::SpecToken;
use crate::lexer::token::TokenType;
use crate::parser::all_digits;
use crate::parser::dec_val;
use crate::parser::digit_val;
use crate::parser::is_digit_char;
use crate::parser::spec_parse_expression;
use crate::parser::spec_parse_let;
use crate::parser::spec_parse_program;
use crate::parser::spec_parse_return;
use crate::parser::spec_parse_statement;
use crate::parser::tok_at;
use vstd::prelude::*;

verus! {

/// The bytes scanned as one-character tokens: `= + - * / < > ( ) { } , ; !`.
pub open spec fn is_single_char_byte(b: u8) -> bool {
    b == 61 || b == 43 || b == 45 || b == 42 || b == 47 || b == 60 || b == 62 || b == 40 || b == 41
        || b == 123 || b == 125 || b == 44 || b == 59 || b == 33
}

/// The category of each one-character token byte.
pub open spec fn single_char_type(b: u8) -> TokenType
    recommends
        is_single_char_byte(b),
{
    if b == 61 {
        TokenType::Assign
    } else if b == 43 {
        TokenType::Plus
    } else if b == 45 {
        TokenType::Dash
    } else if b == 42 {
        TokenType::Asterisk
    } else if b == 47 {
        TokenType::ForwardSlash
    } else if b == 60 {
        TokenType::LesserThan
    } else if b == 62 {
        TokenType::GreaterThan
    } else if b == 40 {
        TokenType::Lparen
    } else if b == 41 {
        TokenType::Rparen
    } else if b == 123 {
        TokenType::Lbrace
    } else if b == 125 {
        TokenType::Rbrace
    } else if b == 44 {
        TokenType::Comma
    } else if b == 59 {
        TokenType::Semicolon
    } else {
        TokenType::Bang
    }
}

/// One lexing step on a one-character token byte, not followed by a second
/// `=` that would fuse it into a two-character operator, yields that byte's
/// token with the matched character as literal and advances by one byte.
proof fn lemma_single_char_step(input: Seq<u8>, pos: nat)
    requires
        pos < input.len(),
        is_single_char_byte(input[pos as int]),
        (input[pos as int] == 61 || input[pos as int] == 33) && pos + 1 < input.len()
            ==> input[pos as int + 1] != 61,
    ensures
        lex_step(input, pos).0.token_type == single_char_type(input[pos as int]),
        lex_step(input, pos).0.literal =~= seq![input[pos as int] as char],
        lex_step(input, pos).1 == pos + 1,
{
    let b = input[pos as int];
    assert(!is_ws_byte(b));
    assert(skip_ws_end(input, pos) == pos);
    reveal_strlit("=");
    reveal_strlit("+");
    reveal_strlit("-");
    reveal_strlit("*");
    reveal_strlit("/");
    reveal_strlit("<");
    reveal_strlit(">");
    reveal_strlit("(");
    reveal_strlit(")");
    reveal_strlit("{");
    reveal_strlit("}");
    reveal_strlit(",");
    reveal_strlit(";");
    reveal_strlit("!");
}

/// For any input consisting only of one-character token bytes, where no `=`
/// or `!` is directly followed by `=`, the lexer yields exactly those
/// tokens in order, each with the matched character as its literal,
/// followed by end-of-input.
pub proof fn lemma_single_char_tokens(input: Seq<u8>)
    requires
        forall|i: int| 0 <= i < input.len() ==> is_single_char_byte(#[trigger] input[i]),
        forall|i: int|
            0 <= i < input.len() - 1 ==> !((input[i] == 61 || input[i] == 33) && #[trigger] input[i + 1]
                == 61),
    ensures
        lex_tokens(input, 0).len() == input.len(),
        forall|i: int|
            0 <= i < input.len() ==> (#[trigger] lex_tokens(input, 0)[i]).token_type
                == single_char_type(input[i]),
        forall|i: int|
            0 <= i < input.len() ==> (#[trigger] lex_tokens(input, 0)[i]).literal
                == seq![input[i] as char],
        lex_step(input, input.len()).0.token_type is Eof,
{
    lemma_single_char_tokens_from(input, 0);
    assert forall|i: int|
        0 <= i < input.len() implies (#[trigger] lex_tokens(input, 0)[i]).token_type
        == single_char_type(input[i]) && lex_tokens(input, 0)[i].literal == seq![
        input[i] as char,
    ] by {
        assert((lex_tokens(input, 0)[i - 0]).token_type == single_char_type(input[i]));
        assert(lex_tokens(input, 0)[i - 0].literal == seq![input[i] as char]);
    }
}

/// The inductive core of `lemma_single_char_tokens`, from any position.
proof fn lemma_single_char_tokens_from(input: Seq<u8>, pos: nat)
    requires
        pos <= input.len(),
        forall|i: int| 0 <= i < input.len() ==> is_single_char_byte(#[trigger] input[i]),
        forall|i: int|
            0 <= i < input.len() - 1 ==> !((input[i] == 61 || input[i] == 33) && #[trigger] input[i + 1]
                == 61),
    ensures
        lex_tokens(input, pos).len() == input.len() - pos,
        forall|i: int|
            pos <= i < input.len() ==> (#[trigger] lex_tokens(input, pos)[i - pos]).token_type
                == single_char_type(input[i]),
        forall|i: int|
            pos <= i < input.len() ==> (#[trigger] lex_tokens(input, pos)[i - pos]).literal
                == seq![input[i] as char],
    decreases input.len() - pos,
{
    if pos < input.len() {
        lemma_single_char_step(input, pos);
        lemma_single_char_tokens_from(input, pos + 1);
        let (t, p2) = lex_step(input, pos);
        assert(lex_tokens(input, pos) =~= seq![t] + lex_tokens(input, pos + 1));
        assert forall|i: int|
            pos <= i < input.len() implies (#[trigger] lex_tokens(input, pos)[i - pos]).token_type
            == single_char_type(input[i]) && lex_tokens(input, pos)[i - pos].literal == seq![
            input[i] as char,
        ] by {
            if i > pos {
                assert(lex_tokens(input, pos)[i - pos] == lex_tokens(input, pos + 1)[i - (pos
                    + 1)]);
            }
        }
    }
}

/// `==` and `!=` are recognized exactly when both characters are present
/// contiguously: a lone `=` or `!` not directly followed by `=` yields the
/// Assign or Bang token instead.
pub proof fn lemma_two_char_operators(input: Seq<u8>, pos: nat)
    requires
        pos < input.len(),
        !is_ws_byte(input[pos as int]),
    ensures
        input[pos as int] == 61 && pos + 1 < input.len() && input[pos as int + 1] == 61 ==> {
            &&& lex_step(input, pos).0 == (SpecToken {
                token_type: TokenType::Equals,
                literal: "=="@,
            })
            &&& lex_step(input, pos).1 == pos + 2
        },
        input[pos as int] == 61 && !(pos + 1 < input.len() && input[pos as int + 1] == 61) ==> {
            &&& lex_step(input, pos).0 == (SpecToken {
                token_type: TokenType::Assign,
                literal: "="@,
            })
            &&& lex_step(input, pos).1 == pos + 1
        },
        input[pos as int] == 33 && pos + 1 < input.len() && input[pos as int + 1] == 61 ==> {
            &&& lex_step(input, pos).0 == (SpecToken {
                token_type: TokenType::NotEqual,
                literal: "!="@,
            })
            &&& lex_step(input, pos).1 == pos + 2
        },
        input[pos as int] == 33 && !(pos + 1 < input.len() && input[pos as int + 1] == 61) ==> {
            &&& lex_step(input, pos).0 == (SpecToken {
                token_type: TokenType::Bang,
                literal: "!"@,
            })
            &&& lex_step(input, pos).1 == pos + 1
        },
{
    assert(skip_ws_end(input, pos) == pos);
}

/// Every byte of the maximal letter run is a letter, and the run cannot be
/// extended to the right.
proof fn lemma_word_end_props(input: Seq<u8>, pos: nat)
    requires
        pos <= input.len(),
    ensures
        forall|i: int| pos <= i < word_end(input, pos) ==> is_letter_byte(#[trigger] input[i]),
        word_end(input, pos) < input.len() ==> !is_letter_byte(
            input[word_end(input, pos) as int],
        ),
    decreases input.len() - pos,
{
    if pos < input.len() && is_letter_byte(input[pos as int]) {
        lemma_word_end_props(input, pos + 1);
    }
}

/// Every byte of the maximal digit run is a digit, and the run cannot be
/// extended to the right.
proof fn lemma_num_end_props(input: Seq<u8>, pos: nat)
    requires
        pos <= input.len(),
    ensures
        forall|i: int| pos <= i < num_end(input, pos) ==> is_digit_byte(#[trigger] input[i]),
        num_end(input, pos) < input.len() ==> !is_digit_byte(input[num_end(input, pos) as int]),
    decreases input.len() - pos,
{
    if pos < input.len() && is_digit_byte(input[pos as int]) {
        lemma_num_end_props(input, pos + 1);
    }
}

/// On an ASCII letter or underscore the lexer scans the maximal run of
/// letters and underscores: each of the seven keyword spellings yields its
/// keyword token, and any other run yields an identifier token; either way
/// the literal is exactly the run's text.
pub proof fn lemma_keywords_and_identifiers(input: Seq<u8>, pos: nat)
    requires
        pos < input.len(),
        !is_ws_byte(input[pos as int]),
        is_letter_byte(input[pos as int]),
    ensures
        ({
            let e = word_end(input, pos);
            let text = ascii_seq(input.subrange(pos as int, e as int));
            &&& pos < e <= input.len()
            &&& forall|i: int| pos <= i < e ==> is_letter_byte(#[trigger] input[i])
            &&& (e < input.len() ==> !is_letter_byte(input[e as int]))
            &&& lex_step(input, pos).0 == (SpecToken { token_type: keyword_type(text), literal: text })
            &&& lex_step(input, pos).1 == e
            &&& (keyword_type(text) is Ident <==> (text != "let"@ && text != "fn"@ && text
                != "else"@ && text != "if"@ && text != "true"@ && text != "false"@ && text
                != "return"@))
        }),
{
    assert(skip_ws_end(input, pos) == pos);
    crate::lexer::lemma_word_end_bounds(input, pos);
    lemma_word_end_props(input, pos);
    assert(word_end(input, pos) == word_end(input, pos + 1));
    crate::lexer::lemma_word_end_bounds(input, pos + 1);
}

/// On a digit the lexer scans the maximal digit run and yields an integer
/// token whose literal is exactly that run, leading zeros preserved.
pub proof fn lemma_integer_literals(input: Seq<u8>, pos: nat)
    requires
        pos < input.len(),
        !is_ws_byte(input[pos as int]),
        is_digit_byte(input[pos as int]),
    ensures
        ({
            let e = num_end(input, pos);
            let text = ascii_seq(input.subrange(pos as int, e as int));
            &&& pos < e <= input.len()
            &&& forall|i: int| pos <= i < e ==> is_digit_byte(#[trigger] input[i])
            &&& (e < input.len() ==> !is_digit_byte(input[e as int]))
            &&& lex_step(input, pos).0 == (SpecToken { token_type: TokenType::Int, literal: text })
            &&& lex_step(input, pos).1 == e
            &&& text.len() == e - pos
            &&& forall|i: int| pos <= i < e ==> text[i - pos] == (#[trigger] input[i]) as char
        }),
{
    assert(skip_ws_end(input, pos) == pos);
    crate::lexer::lemma_num_end_bounds(input, pos);
    lemma_num_end_props(input, pos);
    assert(num_end(input, pos) == num_end(input, pos + 1));
    crate::lexer::lemma_num_end_bounds(input, pos + 1);
}


/// A character the lexer reads as part of an identifier: an ASCII letter
/// or underscore.
pub open spec fn is_letter_char(c: char) -> bool {
    (97 <= c as u32 && c as u32 <= 122) || (65 <= c as u32 && c as u32 <= 90) || c as u32 == 95
}

/// Identifier text as the lexer scans it: a non-empty run of ASCII
/// letters and underscores.
pub open spec fn is_ident_text(s: Seq<char>) -> bool {
    s.len() > 0 && (forall|i: int| 0 <= i < s.len() ==> is_letter_char(#[trigger] s[i]))
}

/// The bytes of an ASCII character sequence, one byte per character.
pub open spec fn char_bytes(s: Seq<char>) -> Seq<u8> {
    Seq::new(s.len(), |i: int| s[i] as u8)
}

/// Decimal digits render as a non-empty run of digit characters.
proof fn lemma_dec_digits_are_digits(n: nat)
    ensures
        dec_digits(n).len() > 0,
        forall|i: int| 0 <= i < dec_digits(n).len() ==> is_digit_char(#[trigger] dec_digits(n)[i]),
        all_digits(dec_digits(n)),
    decreases n,
{
    if n < 10 {
        assert(is_digit_char(digit_char(n)));
    } else {
        lemma_dec_digits_are_digits(n / 10);
        assert(is_digit_char(digit_char(n % 10)));
        assert forall|i: int| 0 <= i < dec_digits(n).len() implies is_digit_char(
            #[trigger] dec_digits(n)[i],
        ) by {
            if i < dec_digits(n / 10).len() {
                assert(dec_digits(n)[i] == dec_digits(n / 10)[i]);
            }
        }
    }
}

/// Reading back the decimal digits of `n` yields `n` again.
proof fn lemma_dec_val_dec_digits(n: nat)
    ensures
        dec_val(dec_digits(n)) == n,
    decreases n,
{
    if n < 10 {
        assert(dec_digits(n) =~= seq![digit_char(n)]);
        assert(dec_digits(n).drop_last() =~= Seq::<char>::empty());
        assert(dec_digits(n).last() == digit_char(n));
        assert(dec_val(Seq::<char>::empty()) == 0);
        assert(dec_val(dec_digits(n)) == dec_val(dec_digits(n).drop_last()) * 10 + digit_val(
            dec_digits(n).last(),
        ));
        assert(digit_val(digit_char(n)) == n);
    } else {
        lemma_dec_val_dec_digits(n / 10);
        let dd = dec_digits(n / 10);
        assert(dec_digits(n) == dd + seq![digit_char(n % 10)]);
        assert((dd + seq![digit_char(n % 10)]).drop_last() =~= dd);
        assert((dd + seq![digit_char(n % 10)]).last() == digit_char(n % 10));
        assert(digit_val(digit_char(n % 10)) == n % 10);
        assert(dec_val(dec_digits(n)) == dec_val(dd) * 10 + n % 10);
    }
}

/// The maximal letter run ends exactly where the letters stop.
proof fn lemma_word_end_exact(input: Seq<u8>, pos: nat, e: nat)
    requires
        pos <= e <= input.len(),
        forall|i: int| pos <= i < e ==> is_letter_byte(#[trigger] input[i]),
        e < input.len() ==> !is_letter_byte(input[e as int]),
    ensures
        word_end(input, pos) == e,
    decreases e - pos,
{
    if pos < e {
        lemma_word_end_exact(input, pos + 1, e);
    }
}

/// The maximal digit run ends exactly where the digits stop.
proof fn lemma_num_end_exact(input: Seq<u8>, pos: nat, e: nat)
    requires
        pos <= e <= input.len(),
        forall|i: int| pos <= i < e ==> is_digit_byte(#[trigger] input[i]),
        e < input.len() ==> !is_digit_byte(input[e as int]),
    ensures
        num_end(input, pos) == e,
    decreases e - pos,
{
    if pos < e {
        lemma_num_end_exact(input, pos + 1, e);
    }
}

/// Skipping whitespace lands on a non-whitespace byte or at the end, and
/// doing so again moves no further.
proof fn lemma_skip_ws_end_props(input: Seq<u8>, pos: nat)
    requires
        pos <= input.len(),
    ensures
        pos <= skip_ws_end(input, pos) <= input.len(),
        skip_ws_end(input, pos) < input.len() ==> !is_ws_byte(
            input[skip_ws_end(input, pos) as int],
        ),
        skip_ws_end(input, skip_ws_end(input, pos)) == skip_ws_end(input, pos),
    decreases input.len() - pos,
{
    if pos < input.len() && is_ws_byte(input[pos as int]) {
        lemma_skip_ws_end_props(input, pos + 1);
    }
}

/// A lexing step started on whitespace equals the step started where the
/// whitespace ends.
proof fn lemma_lex_step_skips_ws(input: Seq<u8>, pos: nat)
    requires
        pos <= input.len(),
    ensures
        lex_step(input, pos) == lex_step(input, skip_ws_end(input, pos)),
{
    lemma_skip_ws_end_props(input, pos);
}


/// Expression forms whose rendering the implemented grammar subset reads
/// back: identifiers that re-lex as one identifier token, and non-negative
/// integers.
pub open spec fn round_trip_value_ok(e: SpecExpr) -> bool {
    match e {
        SpecExpr::Id(s) => is_ident_text(s) && keyword_type(s) is Ident,
        SpecExpr::Integer(v) => 0 <= v <= i64::MAX,
        _ => false,
    }
}

/// The single token such an expression renders to.
pub open spec fn round_trip_value_token(e: SpecExpr) -> SpecToken {
    match e {
        SpecExpr::Id(s) => SpecToken { token_type: TokenType::Ident, literal: s },
        SpecExpr::Integer(v) => SpecToken {
            token_type: TokenType::Int,
            literal: dec_digits(v as nat),
        },
        _ => SpecToken { token_type: TokenType::Illegal, literal: Seq::empty() },
    }
}

/// Statement forms whose rendering the implemented grammar subset reads
/// back unchanged: let and return statements carrying their own keyword
/// token, over round-trippable values.
pub open spec fn round_trip_stmt_ok(s: SpecStmt) -> bool {
    match s {
        SpecStmt::Let { token, name, value } => {
            &&& token == (SpecToken { token_type: TokenType::Let, literal: "let"@ })
            &&& is_ident_text(name)
            &&& keyword_type(name) is Ident
            &&& round_trip_value_ok(value)
        },
        SpecStmt::Return { token, value } => {
            &&& token == (SpecToken { token_type: TokenType::Return, literal: "return"@ })
            &&& round_trip_value_ok(value)
        },
        SpecStmt::Expr { .. } => false,
    }
}

/// The tokens such a statement renders to.
pub open spec fn round_trip_stmt_tokens(s: SpecStmt) -> Seq<SpecToken> {
    match s {
        SpecStmt::Let { token, name, value } => seq![
            token,
            SpecToken { token_type: TokenType::Ident, literal: name },
            SpecToken { token_type: TokenType::Assign, literal: "="@ },
            round_trip_value_token(value),
            SpecToken { token_type: TokenType::Semicolon, literal: ";"@ },
        ],
        SpecStmt::Return { token, value } => seq![
            token,
            round_trip_value_token(value),
            SpecToken { token_type: TokenType::Semicolon, literal: ";"@ },
        ],
        SpecStmt::Expr { .. } => Seq::empty(),
    }
}

/// An ASCII character's byte cast carries its exact code point.
proof fn lemma_ascii_char_byte(c: char)
    requires
        (c as u32) < 128,
    ensures
        (c as u8) as u32 == c as u32,
{
    let c2 = (c as u8) as char;
    assert(c2 as u32 == c as u32);
}

/// An ASCII character survives the cast to a byte and back.
proof fn lemma_ascii_char_cast_roundtrip(c: char)
    requires
        (c as u32) < 128,
    ensures
        c == ((c as u8) as char),
{
    let c2 = (c as u8) as char;
    assert(c2 as u32 == c as u32);
    vstd::utf8::char_u32_cast(c, c as u32);
    vstd::utf8::char_u32_cast(c2, c2 as u32);
}

/// One lexing step over identifier text laid out at `pos` and delimited on
/// the right scans exactly that text.
proof fn lemma_lex_ident_at(input: Seq<u8>, pos: nat, text: Seq<char>)
    requires
        pos + text.len() <= input.len(),
        is_ident_text(text),
        forall|i: int| 0 <= i < text.len() ==> input[pos + i] == (#[trigger] text[i]) as u8,
        pos + text.len() < input.len() ==> !is_letter_byte(input[(pos + text.len()) as int]),
    ensures
        lex_step(input, pos).0 == (SpecToken { token_type: keyword_type(text), literal: text }),
        lex_step(input, pos).1 == pos + text.len(),
{
    assert forall|i: int| pos <= i < pos + text.len() implies is_letter_byte(
        #[trigger] input[i],
    ) by {
        assert(input[i] == text[i - pos] as u8);
        assert(is_letter_char(text[i - pos]));
        lemma_ascii_char_byte(text[i - pos]);
    }
    assert(input[pos as int] == text[0] as u8);
    lemma_ascii_char_byte(text[0]);
    assert(is_letter_byte(input[pos as int]));
    assert(!is_ws_byte(input[pos as int]));
    assert(skip_ws_end(input, pos) == pos);
    lemma_word_end_exact(input, pos, pos + text.len());
    assert forall|i: int|
        0 <= i < text.len() implies ascii_seq(
        input.subrange(pos as int, (pos + text.len()) as int),
    )[i] == text[i] by {
        assert(input[pos + i] == text[i] as u8);
        assert(is_letter_char(text[i]));
        lemma_ascii_char_cast_roundtrip(text[i]);
    }
    assert(ascii_seq(input.subrange(pos as int, (pos + text.len()) as int)) =~= text);
}

/// One lexing step over digit text laid out at `pos` and delimited on the
/// right scans exactly that text as an integer token.
proof fn lemma_lex_int_at(input: Seq<u8>, pos: nat, text: Seq<char>)
    requires
        pos + text.len() <= input.len(),
        all_digits(text),
        forall|i: int| 0 <= i < text.len() ==> input[pos + i] == (#[trigger] text[i]) as u8,
        pos + text.len() < input.len() ==> !is_digit_byte(input[(pos + text.len()) as int]),
    ensures
        lex_step(input, pos).0 == (SpecToken { token_type: TokenType::Int, literal: text }),
        lex_step(input, pos).1 == pos + text.len(),
{
    assert forall|i: int| pos <= i < pos + text.len() implies is_digit_byte(
        #[trigger] input[i],
    ) by {
        assert(input[i] == text[i - pos] as u8);
        assert(is_digit_char(text[i - pos]));
        lemma_ascii_char_byte(text[i - pos]);
    }
    assert(input[pos as int] == text[0] as u8);
    lemma_ascii_char_byte(text[0]);
    assert(is_digit_byte(input[pos as int]));
    assert(!is_ws_byte(input[pos as int]));
    assert(skip_ws_end(input, pos) == pos);
    lemma_num_end_exact(input, pos, pos + text.len());
    assert forall|i: int|
        0 <= i < text.len() implies ascii_seq(
        input.subrange(pos as int, (pos + text.len()) as int),
    )[i] == text[i] by {
        assert(input[pos + i] == text[i] as u8);
        assert(is_digit_char(text[i]));
        lemma_ascii_char_cast_roundtrip(text[i]);
    }
    assert(ascii_seq(input.subrange(pos as int, (pos + text.len()) as int)) =~= text);
}

/// The step that scans a round-trippable value laid out at `pos` and
/// followed by a semicolon.
proof fn lemma_lex_value_at(input: Seq<u8>, pos: nat, value: SpecExpr)
    requires
        round_trip_value_ok(value),
        pos + render_expr(value).len() < input.len(),
        forall|i: int|
            0 <= i < render_expr(value).len() ==> input[pos + i] == (#[trigger] render_expr(
                value,
            )[i]) as u8,
        input[(pos + render_expr(value).len()) as int] == 59,
    ensures
        lex_step(input, pos).0 == round_trip_value_token(value),
        lex_step(input, pos).1 == pos + render_expr(value).len(),
{
    match value {
        SpecExpr::Id(s2) => {
            lemma_lex_ident_at(input, pos, s2);
        },
        SpecExpr::Integer(v) => {
            lemma_dec_digits_are_digits(v as nat);
            assert(render_expr(value) == dec_digits(v as nat));
            lemma_lex_int_at(input, pos, dec_digits(v as nat));
        },
        _ => {
        },
    }
}


/// The rendering of a round-trippable statement, laid out at `pos`, lexes
/// to exactly that statement's tokens, after which scanning continues at
/// the first byte past the rendering.
#[verifier::rlimit(100)]
proof fn lemma_stmt_lex(input: Seq<u8>, pos: nat, s: SpecStmt)
    requires
        round_trip_stmt_ok(s),
        pos + render_stmt(s).len() <= input.len(),
        forall|i: int|
            0 <= i < render_stmt(s).len() ==> input[pos + i] == (#[trigger] render_stmt(s)[i]) as u8,
    ensures
        lex_tokens(input, pos) =~= round_trip_stmt_tokens(s) + lex_tokens(
            input,
            pos + render_stmt(s).len(),
        ),
{
    reveal_strlit("let");
    reveal_strlit("fn");
    reveal_strlit("else");
    reveal_strlit("if");
    reveal_strlit("true");
    reveal_strlit("false");
    reveal_strlit("return");
    reveal_strlit(" ");
    reveal_strlit(" = ");
    reveal_strlit(";");
    reveal_strlit("=");
    match s {
        SpecStmt::Let { token, name, value } => {
            let r = render_stmt(s);
            let vt = render_expr(value);
            let k = name.len() as int;
            let m = vt.len() as int;
            let r1 = token.literal + " "@;
            let r2 = r1 + name;
            let r3 = r2 + " = "@;
            let r4 = r3 + vt;
            assert(r == r4 + ";"@);
            assert(r.len() == 8 + k + m);
            let a1 = pos + 3;
            let a2 = pos + 4;
            let a3 = pos + 4 + name.len();
            let a4 = pos + 5 + name.len();
            let a5 = pos + 6 + name.len();
            let a6 = pos + 7 + name.len();
            let a7 = pos + 7 + name.len() + vt.len();
            let fin = pos + 8 + name.len() + vt.len();
            assert(r[0] == 'l' && r[1] == 'e' && r[2] == 't' && r[3] == ' ');
            assert(input[pos as int] == 108 && input[pos as int + 1] == 101 && input[pos as int
                + 2] == 116);
            assert(input[a1 as int] == 32);
            assert forall|i: int| 0 <= i < k implies input[a2 + i] == (#[trigger] name[i]) as u8 by {
                assert(r[4 + i] == name[i]);
                assert(input[pos + (4 + i)] == r[4 + i] as u8);
            }
            assert(r[4 + k] == ' ' && r[5 + k] == '=' && r[6 + k] == ' ');
            assert(input[a3 as int] == 32 && input[a4 as int] == 61 && input[a5 as int] == 32);
            assert forall|i: int| 0 <= i < m implies input[a6 + i] == (#[trigger] vt[i]) as u8 by {
                assert(r[7 + k + i] == vt[i]);
                assert(input[pos + (7 + k + i)] == r[7 + k + i] as u8);
            }
            assert(r[7 + k + m] == ';');
            assert(input[a7 as int] == 59);
            // the `let` keyword
            assert(is_ident_text("let"@));
            assert forall|i: int| 0 <= i < "let"@.len() implies input[pos + i] == (#[trigger] "let"@[i]) as u8 by {
                assert(r[i] == "let"@[i]);
            }
            lemma_lex_ident_at(input, pos, "let"@);
            assert(keyword_type("let"@) == TokenType::Let);
            assert(lex_step(input, pos).0 == token);
            assert(lex_step(input, pos).1 == a1);
            // the name
            lemma_ascii_char_byte(name[0]);
            assert(!is_ws_byte(input[a2 as int]));
            assert(skip_ws_end(input, a2) == a2);
            assert(skip_ws_end(input, a1) == a2);
            lemma_lex_step_skips_ws(input, a1);
            assert(!is_letter_byte(input[a3 as int]));
            lemma_lex_ident_at(input, a2, name);
            assert(lex_step(input, a1).0 == (SpecToken {
                token_type: TokenType::Ident,
                literal: name,
            }));
            assert(lex_step(input, a1).1 == a3);
            // the `=`
            assert(skip_ws_end(input, a4) == a4);
            assert(skip_ws_end(input, a3) == a4);
            lemma_lex_step_skips_ws(input, a3);
            assert(input[a4 as int + 1] == 32);
            assert(lex_step(input, a4).0 == (SpecToken {
                token_type: TokenType::Assign,
                literal: "="@,
            }));
            assert(lex_step(input, a4).1 == a5);
            assert(lex_step(input, a3) == lex_step(input, a4));
            // the value
            match value {
                SpecExpr::Id(s2) => {
                    lemma_ascii_char_byte(s2[0]);
                },
                SpecExpr::Integer(v) => {
                    lemma_dec_digits_are_digits(v as nat);
                    lemma_ascii_char_byte(vt[0]);
                },
                _ => {
                },
            }
            assert(!is_ws_byte(input[a6 as int]));
            assert(skip_ws_end(input, a6) == a6);
            assert(skip_ws_end(input, a5) == a6);
            lemma_lex_step_skips_ws(input, a5);
            lemma_lex_value_at(input, a6, value);
            assert(lex_step(input, a5).0 == round_trip_value_token(value));
            assert(lex_step(input, a5).1 == a7);
            // the `;`
            assert(skip_ws_end(input, a7) == a7);
            assert(lex_step(input, a7).0 == (SpecToken {
                token_type: TokenType::Semicolon,
                literal: ";"@,
            }));
            assert(lex_step(input, a7).1 == fin);
            // chain the five steps
            assert(lex_tokens(input, pos) =~= seq![lex_step(input, pos).0] + lex_tokens(
                input,
                a1,
            ));
            assert(lex_tokens(input, a1) =~= seq![lex_step(input, a1).0] + lex_tokens(input, a3));
            assert(lex_tokens(input, a3) =~= seq![lex_step(input, a3).0] + lex_tokens(input, a5));
            assert(lex_tokens(input, a5) =~= seq![lex_step(input, a5).0] + lex_tokens(input, a7));
            assert(lex_tokens(input, a7) =~= seq![lex_step(input, a7).0] + lex_tokens(input, fin));
            assert(lex_tokens(input, pos) =~= round_trip_stmt_tokens(s) + lex_tokens(input, fin));
        },
        SpecStmt::Return { token, value } => {
            let r = render_stmt(s);
            let vt = render_expr(value);
            let m = vt.len() as int;
            let r1 = token.literal + " "@;
            let r2 = r1 + vt;
            assert(r == r2 + ";"@);
            assert(r.len() == 8 + m);
            let b1 = pos + 6;
            let b2 = pos + 7;
            let b3 = pos + 7 + vt.len();
            let fin = pos + 8 + vt.len();
            assert(r[6] == ' ');
            assert(input[b1 as int] == 32);
            assert forall|i: int| 0 <= i < m implies input[b2 + i] == (#[trigger] vt[i]) as u8 by {
                assert(r[7 + i] == vt[i]);
                assert(input[pos + (7 + i)] == r[7 + i] as u8);
            }
            assert(r[7 + m] == ';');
            assert(input[b3 as int] == 59);
            // the `return` keyword
            assert(is_ident_text("return"@));
            assert forall|i: int| 0 <= i < "return"@.len() implies input[pos + i] == (#[trigger] "return"@[i]) as u8 by {
                assert(r[i] == "return"@[i]);
            }
            lemma_lex_ident_at(input, pos, "return"@);
            assert(keyword_type("return"@) == TokenType::Return);
            assert(lex_step(input, pos).0 == token);
            assert(lex_step(input, pos).1 == b1);
            // the value
            match value {
                SpecExpr::Id(s2) => {
                    lemma_ascii_char_byte(s2[0]);
                },
                SpecExpr::Integer(v) => {
                    lemma_dec_digits_are_digits(v as nat);
                    lemma_ascii_char_byte(vt[0]);
                },
                _ => {
                },
            }
            assert(!is_ws_byte(input[b2 as int]));
            assert(skip_ws_end(input, b2) == b2);
            assert(skip_ws_end(input, b1) == b2);
            lemma_lex_step_skips_ws(input, b1);
            lemma_lex_value_at(input, b2, value);
            assert(lex_step(input, b1).0 == round_trip_value_token(value));
            assert(lex_step(input, b1).1 == b3);
            // the `;`
            assert(skip_ws_end(input, b3) == b3);
            assert(lex_step(input, b3).0 == (SpecToken {
                token_type: TokenType::Semicolon,
                literal: ";"@,
            }));
            assert(lex_step(input, b3).1 == fin);
            // chain the three steps
            assert(lex_tokens(input, pos) =~= seq![lex_step(input, pos).0] + lex_tokens(
                input,
                b1,
            ));
            assert(lex_tokens(input, b1) =~= seq![lex_step(input, b1).0] + lex_tokens(input, b3));
            assert(lex_tokens(input, b3) =~= seq![lex_step(input, b3).0] + lex_tokens(input, fin));
            assert(lex_tokens(input, pos) =~= round_trip_stmt_tokens(s) + lex_tokens(input, fin));
        },
        SpecStmt::Expr { .. } => {
        },
    }
}


/// One round-trippable value parses back from its token.
proof fn lemma_value_parse(toks: Seq<SpecToken>, value: SpecExpr)
    requires
        round_trip_value_ok(value),
        toks.len() >= 1,
        toks[0] == round_trip_value_token(value),
    ensures
        spec_parse_expression(toks) == Ok::<(SpecExpr, int), crate::parser::SpecParseError>(
            (value, 1),
        ),
{
    match value {
        SpecExpr::Id(s2) => {
        },
        SpecExpr::Integer(v) => {
            lemma_dec_digits_are_digits(v as nat);
            lemma_dec_val_dec_digits(v as nat);
        },
        _ => {
        },
    }
}

/// The tokens of a round-trippable statement parse back to exactly that
/// statement, consuming exactly its tokens.
proof fn lemma_stmt_parse(toks: Seq<SpecToken>, s: SpecStmt)
    requires
        round_trip_stmt_ok(s),
        round_trip_stmt_tokens(s).len() <= toks.len(),
        toks.subrange(0, round_trip_stmt_tokens(s).len() as int) =~= round_trip_stmt_tokens(s),
    ensures
        spec_parse_statement(toks) == Ok::<(SpecStmt, int), crate::parser::SpecParseError>(
            (s, round_trip_stmt_tokens(s).len() as int),
        ),
{
    let st = round_trip_stmt_tokens(s);
    match s {
        SpecStmt::Let { token, name, value } => {
            assert(toks[0] == st[0] && toks[1] == st[1] && toks[2] == st[2] && toks[3] == st[3]
                && toks[4] == st[4]);
            assert(tok_at(toks, 0) == token);
            assert(tok_at(toks, 1) == (SpecToken { token_type: TokenType::Ident, literal: name }));
            assert(tok_at(toks, 2) == (SpecToken { token_type: TokenType::Assign, literal: "="@ }));
            assert(tok_at(toks, 4) == (SpecToken {
                token_type: TokenType::Semicolon,
                literal: ";"@,
            }));
            assert(toks.skip(3).len() >= 1 && toks.skip(3)[0] == round_trip_value_token(value));
            lemma_value_parse(toks.skip(3), value);
            assert(tok_at(toks, 4).token_type is Semicolon);
            assert(spec_parse_let(toks) == Ok::<(SpecStmt, int), crate::parser::SpecParseError>(
                (s, 5),
            ));
        },
        SpecStmt::Return { token, value } => {
            assert(toks[0] == st[0] && toks[1] == st[1] && toks[2] == st[2]);
            assert(tok_at(toks, 0) == token);
            assert(tok_at(toks, 2) == (SpecToken {
                token_type: TokenType::Semicolon,
                literal: ";"@,
            }));
            assert(toks.skip(1).len() >= 1 && toks.skip(1)[0] == round_trip_value_token(value));
            lemma_value_parse(toks.skip(1), value);
            assert(tok_at(toks, 2).token_type is Semicolon);
            assert(spec_parse_return(toks) == Ok::<(SpecStmt, int), crate::parser::SpecParseError>(
                (s, 3),
            ));
        },
        SpecStmt::Expr { .. } => {
        },
    }
}

/// The inductive core of the round-trip law, from any byte position.
proof fn lemma_round_trip_from(input: Seq<u8>, pos: nat, p: Seq<SpecStmt>)
    requires
        forall|i: int| 0 <= i < p.len() ==> round_trip_stmt_ok(#[trigger] p[i]),
        pos <= input.len(),
        input.skip(pos as int) =~= char_bytes(render_program(p)),
    ensures
        spec_parse_program(lex_tokens(input, pos)) == Ok::<
            Seq<SpecStmt>,
            crate::parser::SpecParseError,
        >(p),
    decreases p.len(),
{
    if p.len() == 0 {
        assert(char_bytes(render_program(p)).len() == 0);
        assert(pos == input.len());
        assert(skip_ws_end(input, pos) == pos);
        assert(lex_step(input, pos).0.token_type is Eof);
        assert(lex_tokens(input, pos) =~= Seq::<SpecToken>::empty());
        assert(p =~= Seq::<SpecStmt>::empty());
    } else {
        let s0 = p[0];
        let rest = p.drop_first();
        let r0 = render_stmt(s0);
        let ln = r0.len();
        assert(render_program(p) == r0 + render_program(rest));
        assert(input.skip(pos as int).len() == char_bytes(render_program(p)).len());
        assert(char_bytes(render_program(p)).len() == render_program(p).len());
        assert(input.skip(pos as int).len() == input.len() - pos);
        assert(input.len() - pos == render_program(p).len());
        assert(pos + ln <= input.len());
        assert forall|i: int| 0 <= i < ln implies input[pos + i] == (#[trigger] r0[i]) as u8 by {
            assert(input.skip(pos as int)[i] == char_bytes(render_program(p))[i]);
            assert(render_program(p)[i] == r0[i]);
        }
        lemma_stmt_lex(input, pos, s0);
        assert forall|i: int| 0 <= i < rest.len() implies round_trip_stmt_ok(
            #[trigger] rest[i],
        ) by {
            assert(rest[i] == p[i + 1]);
        }
        assert forall|i: int|
            0 <= i < input.len() - (pos + ln) implies input.skip((pos + ln) as int)[i]
            == char_bytes(render_program(rest))[i] by {
            assert(input.skip(pos as int)[ln + i] == char_bytes(render_program(p))[ln + i]);
            assert(render_program(p)[ln + i] == render_program(rest)[i]);
        }
        assert(input.skip((pos + ln) as int) =~= char_bytes(render_program(rest)));
        lemma_round_trip_from(input, pos + ln, rest);
        let st = round_trip_stmt_tokens(s0);
        let toks = lex_tokens(input, pos);
        assert(toks =~= st + lex_tokens(input, pos + ln));
        assert(toks.subrange(0, st.len() as int) =~= st);
        lemma_stmt_parse(toks, s0);
        assert(toks.skip(st.len() as int) =~= lex_tokens(input, pos + ln));
        assert(spec_parse_program(toks) == Ok::<Seq<SpecStmt>, crate::parser::SpecParseError>(
            seq![s0] + rest,
        ));
        assert(seq![s0] + rest =~= p);
    }
}

/// The round-trip law for the implemented grammar subset: a program of let
/// and return statements over identifier and integer expressions, rendered
/// to text and then lexed and parsed again, comes back as the same
/// program.
pub proof fn lemma_render_parse_round_trip(p: Seq<SpecStmt>)
    requires
        forall|i: int| 0 <= i < p.len() ==> round_trip_stmt_ok(#[trigger] p[i]),
    ensures
        spec_parse_program(lex_tokens(char_bytes(render_program(p)), 0)) == Ok::<
            Seq<SpecStmt>,
            crate::parser::SpecParseError,
        >(p),
{
    let input = char_bytes(render_program(p));
    assert(input.skip(0) =~= input);
    lemma_round_trip_from(input, 0, p);
}


/// Every character in the rendering of a round-trippable statement is
/// ASCII.
proof fn lemma_render_stmt_ascii(s: SpecStmt)
    requires
        round_trip_stmt_ok(s),
    ensures
        forall|i: int|
            0 <= i < render_stmt(s).len() ==> (#[trigger] render_stmt(s)[i] as u32) < 128,
{
    reveal_strlit("let");
    reveal_strlit("return");
    reveal_strlit(" ");
    reveal_strlit(" = ");
    reveal_strlit(";");
    match s {
        SpecStmt::Let { token, name, value } => {
            let vt = render_expr(value);
            let k = name.len() as int;
            let m = vt.len() as int;
            lemma_render_value_ascii(value);
            assert forall|i: int|
                0 <= i < render_stmt(s).len() implies (#[trigger] render_stmt(s)[i] as u32)
                < 128 by {
                let r = render_stmt(s);
                if i < 3 {
                    assert(r[i] == "let"@[i]);
                } else if i < 4 {
                    assert(r[i] == ' ');
                } else if i < 4 + k {
                    assert(r[i] == name[i - 4]);
                    assert(is_letter_char(name[i - 4]));
                } else if i < 7 + k {
                    assert(r[i] == " = "@[i - 4 - k]);
                } else if i < 7 + k + m {
                    assert(r[i] == vt[i - 7 - k]);
                } else {
                    assert(r[i] == ';');
                }
            }
        },
        SpecStmt::Return { token, value } => {
            let vt = render_expr(value);
            let m = vt.len() as int;
            lemma_render_value_ascii(value);
            assert forall|i: int|
                0 <= i < render_stmt(s).len() implies (#[trigger] render_stmt(s)[i] as u32)
                < 128 by {
                let r = render_stmt(s);
                if i < 6 {
                    assert(r[i] == "return"@[i]);
                } else if i < 7 {
                    assert(r[i] == ' ');
                } else if i < 7 + m {
                    assert(r[i] == vt[i - 7]);
                } else {
                    assert(r[i] == ';');
                }
            }
        },
        SpecStmt::Expr { .. } => {
        },
    }
}

/// Every character in the rendering of a round-trippable value is ASCII.
proof fn lemma_render_value_ascii(e: SpecExpr)
    requires
        round_trip_value_ok(e),
    ensures
        forall|i: int|
            0 <= i < render_expr(e).len() ==> (#[trigger] render_expr(e)[i] as u32) < 128,
{
    match e {
        SpecExpr::Id(s2) => {
        },
        SpecExpr::Integer(v) => {
            lemma_dec_digits_are_digits(v as nat);
            assert forall|i: int|
                0 <= i < render_expr(e).len() implies (#[trigger] render_expr(e)[i] as u32)
                < 128 by {
                assert(is_digit_char(dec_digits(v as nat)[i]));
            }
        },
        _ => {
        },
    }
}

/// The rendering of a round-trippable program is ASCII text, so its UTF-8
/// bytes are exactly one byte per character.
proof fn lemma_render_program_ascii(p: Seq<SpecStmt>)
    requires
        forall|i: int| 0 <= i < p.len() ==> round_trip_stmt_ok(#[trigger] p[i]),
    ensures
        vstd::utf8::is_ascii_chars(render_program(p)),
        vstd::utf8::encode_utf8(render_program(p)) =~= char_bytes(render_program(p)),
    decreases p.len(),
{
    if p.len() == 0 {
        assert(vstd::utf8::is_ascii_chars(render_program(p)));
    } else {
        let s0 = p[0];
        let rest = p.drop_first();
        let r0 = render_stmt(s0);
        assert forall|i: int| 0 <= i < rest.len() implies round_trip_stmt_ok(
            #[trigger] rest[i],
        ) by {
            assert(rest[i] == p[i + 1]);
        }
        lemma_render_stmt_ascii(s0);
        lemma_render_program_ascii(rest);
        assert(render_program(p) == r0 + render_program(rest));
        assert forall|i: int|
            0 <= i < render_program(p).len() implies '\0' <= #[trigger] render_program(p)[i]
            <= '\u{7f}' by {
            if i < r0.len() {
                assert(render_program(p)[i] == r0[i]);
                assert((r0[i] as u32) < 128);
                lemma_ascii_u32_char_bounds(r0[i]);
            } else {
                assert(render_program(p)[i] == render_program(rest)[i - r0.len()]);
            }
        }
    }
    vstd::utf8::is_ascii_chars_encode_utf8(render_program(p));
    assert(vstd::utf8::encode_utf8(render_program(p)) =~= char_bytes(render_program(p)));
}

/// Bounding a character's code point below 128 bounds the character
/// itself within the ASCII range.
proof fn lemma_ascii_u32_char_bounds(c: char)
    requires
        (c as u32) < 128,
    ensures
        '\0' <= c <= '\u{7f}',
{
    let c2 = (c as u8) as char;
    assert(c2 as u32 == c as u32);
    vstd::utf8::char_u32_cast(c, c as u32);
    vstd::utf8::char_u32_cast(c2, c2 as u32);
    assert(c == c2);
}

/// The round-trip law over the lexer's own byte encoding: rendering a
/// round-trippable program to UTF-8 text and lexing and parsing it again
/// yields the same program.
pub proof fn lemma_render_parse_round_trip_utf8(p: Seq<SpecStmt>)
    requires
        forall|i: int| 0 <= i < p.len() ==> round_trip_stmt_ok(#[trigger] p[i]),
    ensures
        spec_parse_program(lex_tokens(vstd::utf8::encode_utf8(render_program(p)), 0)) == Ok::<
            Seq<SpecStmt>,
            crate::parser::SpecParseError,
        >(p),
{
    lemma_render_program_ascii(p);
    lemma_render_parse_round_trip(p);
}

} // verus!
