//! The lexer: a single-pass, one-byte-lookahead scanner over the raw bytes of
//! the source text, producing one token per call.
//!
//! The mathematical model is `lex_step`, which maps a byte sequence and a
//! cursor position to the next token and the position after it, and
//! `lex_tokens`, the token stream it induces up to the first end-of-input
//! token. `Lexer::next_token` is proved to follow `lex_step` exactly.

pub mod token;

use crate::ascii::ascii_seq;
use crate::ascii::ascii_to_string;
use crate::ascii::byte_range;
use crate::lexer::token::SpecToken;
use crate::lexer::token::Token;
use crate::lexer::token::TokenType;
use vstd::prelude::*;
use vstd::string::StrSliceExecFns;
use vstd::utf8::encode_utf8;

verus! {

/// Whitespace skipped between tokens: space, tab, newline, carriage return.
pub open spec fn is_ws_byte(b: u8) -> bool {
    b == 32 || b == 9 || b == 10 || b == 13
}

/// Bytes that may continue an identifier: ASCII letters and underscore.
pub open spec fn is_letter_byte(b: u8) -> bool {
    (97 <= b && b <= 122) || (65 <= b && b <= 90) || b == 95
}

/// ASCII decimal digits.
pub open spec fn is_digit_byte(b: u8) -> bool {
    48 <= b && b <= 57
}

/// The first position at or after `pos` holding a non-whitespace byte, or the
/// end of the input.
pub open spec fn skip_ws_end(input: Seq<u8>, pos: nat) -> nat
    decreases input.len() - pos,
        when pos <= input.len()
{
    if pos < input.len() && is_ws_byte(input[pos as int]) {
        skip_ws_end(input, pos + 1)
    } else {
        pos
    }
}

/// The end of the maximal run of letter bytes starting at `pos`.
pub open spec fn word_end(input: Seq<u8>, pos: nat) -> nat
    decreases input.len() - pos,
        when pos <= input.len()
{
    if pos < input.len() && is_letter_byte(input[pos as int]) {
        word_end(input, pos + 1)
    } else {
        pos
    }
}

/// The end of the maximal run of digit bytes starting at `pos`.
pub open spec fn num_end(input: Seq<u8>, pos: nat) -> nat
    decreases input.len() - pos,
        when pos <= input.len()
{
    if pos < input.len() && is_digit_byte(input[pos as int]) {
        num_end(input, pos + 1)
    } else {
        pos
    }
}

/// The category of a maximal letter run: one of the fixed keywords, or a
/// generic identifier.
pub open spec fn keyword_type(text: Seq<char>) -> TokenType {
    if text == "let"@ {
        TokenType::Let
    } else if text == "fn"@ {
        TokenType::Function
    } else if text == "else"@ {
        TokenType::Else
    } else if text == "if"@ {
        TokenType::If
    } else if text == "true"@ {
        TokenType::True
    } else if text == "false"@ {
        TokenType::False
    } else if text == "return"@ {
        TokenType::Return
    } else {
        TokenType::Ident
    }
}

/// One step of the lexer: the token scanned at `pos` (after skipping
/// whitespace) and the cursor position after it.
pub open spec fn lex_step(input: Seq<u8>, pos: nat) -> (SpecToken, nat)
    recommends
        pos <= input.len(),
{
    let p = skip_ws_end(input, pos);
    if p >= input.len() {
        (SpecToken { token_type: TokenType::Eof, literal: Seq::<char>::empty() }, p)
    } else {
        let b = input[p as int];
        if b == 61 {
            if p + 1 < input.len() && input[p as int + 1] == 61 {
                (SpecToken { token_type: TokenType::Equals, literal: "=="@ }, p + 2)
            } else {
                (SpecToken { token_type: TokenType::Assign, literal: "="@ }, p + 1)
            }
        } else if b == 33 {
            if p + 1 < input.len() && input[p as int + 1] == 61 {
                (SpecToken { token_type: TokenType::NotEqual, literal: "!="@ }, p + 2)
            } else {
                (SpecToken { token_type: TokenType::Bang, literal: "!"@ }, p + 1)
            }
        } else if b == 43 {
            (SpecToken { token_type: TokenType::Plus, literal: "+"@ }, p + 1)
        } else if b == 45 {
            (SpecToken { token_type: TokenType::Dash, literal: "-"@ }, p + 1)
        } else if b == 42 {
            (SpecToken { token_type: TokenType::Asterisk, literal: "*"@ }, p + 1)
        } else if b == 47 {
            (SpecToken { token_type: TokenType::ForwardSlash, literal: "/"@ }, p + 1)
        } else if b == 60 {
            (SpecToken { token_type: TokenType::LesserThan, literal: "<"@ }, p + 1)
        } else if b == 62 {
            (SpecToken { token_type: TokenType::GreaterThan, literal: ">"@ }, p + 1)
        } else if b == 40 {
            (SpecToken { token_type: TokenType::Lparen, literal: "("@ }, p + 1)
        } else if b == 41 {
            (SpecToken { token_type: TokenType::Rparen, literal: ")"@ }, p + 1)
        } else if b == 123 {
            (SpecToken { token_type: TokenType::Lbrace, literal: "{"@ }, p + 1)
        } else if b == 125 {
            (SpecToken { token_type: TokenType::Rbrace, literal: "}"@ }, p + 1)
        } else if b == 44 {
            (SpecToken { token_type: TokenType::Comma, literal: ","@ }, p + 1)
        } else if b == 59 {
            (SpecToken { token_type: TokenType::Semicolon, literal: ";"@ }, p + 1)
        } else if is_letter_byte(b) {
            let e = word_end(input, p);
            let text = ascii_seq(input.subrange(p as int, e as int));
            (SpecToken { token_type: keyword_type(text), literal: text }, e)
        } else if is_digit_byte(b) {
            let e = num_end(input, p);
            let text = ascii_seq(input.subrange(p as int, e as int));
            (SpecToken { token_type: TokenType::Int, literal: text }, e)
        } else if b == 0 {
            (SpecToken { token_type: TokenType::Eof, literal: Seq::<char>::empty() }, p + 1)
        } else {
            (SpecToken { token_type: TokenType::Illegal, literal: Seq::<char>::empty() }, p + 1)
        }
    }
}

/// `skip_ws_end` stays between `pos` and the end of the input.
pub proof fn lemma_skip_ws_end_bounds(input: Seq<u8>, pos: nat)
    requires
        pos <= input.len(),
    ensures
        pos <= skip_ws_end(input, pos) <= input.len(),
    decreases input.len() - pos,
{
    if pos < input.len() && is_ws_byte(input[pos as int]) {
        lemma_skip_ws_end_bounds(input, pos + 1);
    }
}

/// `word_end` stays between `pos` and the end of the input.
pub proof fn lemma_word_end_bounds(input: Seq<u8>, pos: nat)
    requires
        pos <= input.len(),
    ensures
        pos <= word_end(input, pos) <= input.len(),
    decreases input.len() - pos,
{
    if pos < input.len() && is_letter_byte(input[pos as int]) {
        lemma_word_end_bounds(input, pos + 1);
    }
}

/// `num_end` stays between `pos` and the end of the input.
pub proof fn lemma_num_end_bounds(input: Seq<u8>, pos: nat)
    requires
        pos <= input.len(),
    ensures
        pos <= num_end(input, pos) <= input.len(),
    decreases input.len() - pos,
{
    if pos < input.len() && is_digit_byte(input[pos as int]) {
        lemma_num_end_bounds(input, pos + 1);
    }
}

/// A lexing step never moves the cursor backwards or past the end, and it
/// strictly advances whenever the token it yields is not end-of-input.
pub proof fn lemma_lex_step_advances(input: Seq<u8>, pos: nat)
    requires
        pos <= input.len(),
    ensures
        pos <= lex_step(input, pos).1 <= input.len(),
        lex_step(input, pos).0.token_type !is Eof ==> pos < lex_step(input, pos).1,
{
    lemma_skip_ws_end_bounds(input, pos);
    let p = skip_ws_end(input, pos);
    if p < input.len() {
        let b = input[p as int];
        if is_letter_byte(b) {
            lemma_word_end_bounds(input, p);
            assert(word_end(input, p) == word_end(input, p + 1) && p + 1 <= input.len());
            lemma_word_end_bounds(input, p + 1);
        } else if is_digit_byte(b) {
            lemma_num_end_bounds(input, p);
            assert(num_end(input, p) == num_end(input, p + 1) && p + 1 <= input.len());
            lemma_num_end_bounds(input, p + 1);
        }
    }
}

/// The token stream scanned from `pos`: every token up to, and not
/// including, the first end-of-input token.
pub open spec fn lex_tokens(input: Seq<u8>, pos: nat) -> Seq<SpecToken>
    decreases input.len() - pos,
        when pos <= input.len()
        via lex_tokens_decreases
{
    let (t, p2) = lex_step(input, pos);
    if t.token_type is Eof {
        Seq::empty()
    } else {
        seq![t] + lex_tokens(input, p2)
    }
}

#[via_fn]
proof fn lex_tokens_decreases(input: Seq<u8>, pos: nat) {
    lemma_lex_step_advances(input, pos);
}

/// The lexer state: the input as an owned byte buffer, the cursor, and the
/// byte under the cursor (or the 0 sentinel at end-of-input).
pub struct Lexer {
    input: Vec<u8>,
    current_position: usize,
    read_position: usize,
    ch: u8,
}

/// The abstract state of a lexer: the bytes it scans and the cursor position.
pub struct LexerModel {
    pub input: Seq<u8>,
    pub pos: nat,
}

impl View for Lexer {
    type V = LexerModel;

    closed spec fn view(&self) -> LexerModel {
        LexerModel { input: self.input@, pos: self.current_position as nat }
    }
}

impl Lexer {
    /// The cursor is inside the input with the read position one past it and
    /// the current byte under it, or at the end with the 0 sentinel.
    pub closed spec fn wf(self) -> bool {
        &&& self.current_position <= self.input@.len()
        &&& if (self.current_position as int) < self.input@.len() {
            self.read_position == self.current_position + 1 && self.ch
                == self.input@[self.current_position as int]
        } else {
            self.read_position == self.current_position && self.ch == 0
        }
    }

    /// A well-formed lexer's cursor never passes the end of its input.
    pub proof fn lemma_wf_pos(self)
        requires
            self.wf(),
        ensures
            self@.pos <= self@.input.len(),
    {
    }

    /// A lexer over the UTF-8 bytes of `input`, with the cursor on the first
    /// byte.
    pub fn new(input: String) -> (lexer: Lexer)
        ensures
            lexer.wf(),
            lexer@.input == encode_utf8(input@),
            lexer@.pos == 0,
    {
        let bytes = input.as_str().as_bytes_vec();
        let mut lexer = Lexer { input: bytes, current_position: 0, read_position: 0, ch: 0 };
        lexer.read_char();
        lexer
    }

    /// Advance the cursor by one byte, loading the next byte or the 0
    /// sentinel at end-of-input.
    fn read_char(&mut self)
        requires
            old(self).read_position <= old(self).input@.len(),
    ensures
            final(self).wf(),
            final(self)@.input == old(self)@.input,
            final(self)@.pos == old(self).read_position as nat,
    {
        if self.read_position >= self.input.len() {
            self.current_position = self.read_position;
            self.ch = 0;
        } else {
            self.ch = self.input[self.read_position];
            self.current_position = self.read_position;
            self.read_position = self.read_position + 1;
        }
    }

    /// The byte after the cursor, or the 0 sentinel past the end.
    fn lookahead(&mut self) -> (b: u8)
        ensures
            *final(self) == *old(self),
            b == (if old(self).read_position < old(self).input@.len() {
                old(self).input@[old(self).read_position as int]
            } else {
                0u8
            }),
    {
        if self.read_position >= self.input.len() {
            0
        } else {
            self.input[self.read_position]
        }
    }

    /// Move the cursor to the first non-whitespace byte at or after it.
    fn skip_whitespace(&mut self)
        requires
            old(self).wf(),
        ensures
            final(self).wf(),
            final(self)@.input == old(self)@.input,
            final(self)@.pos == skip_ws_end(old(self)@.input, old(self)@.pos),
    {
        while self.ch == 32 || self.ch == 9 || self.ch == 10 || self.ch == 13
            invariant
                self.wf(),
                self@.input == old(self)@.input,
                skip_ws_end(self@.input, self@.pos) == skip_ws_end(old(self)@.input, old(self)@.pos),
            decreases self@.input.len() - self@.pos,
        {
            proof {
                assert(self@.pos < self@.input.len());
            }
            self.read_char();
        }
    }

    /// Scan the maximal run of letter bytes starting at the cursor and
    /// return its text, leaving the cursor on the first byte after the run.
    fn read_ident(&mut self) -> (r: String)
        requires
            old(self).wf(),
        ensures
            final(self).wf(),
            final(self)@.input == old(self)@.input,
            final(self)@.pos == word_end(old(self)@.input, old(self)@.pos),
            r@ == ascii_seq(
                old(self)@.input.subrange(old(self)@.pos as int, final(self)@.pos as int),
            ),
    {
        let prev_position = self.current_position;
        while (97 <= self.ch && self.ch <= 122) || (65 <= self.ch && self.ch <= 90) || self.ch
            == 95
            invariant
                self.wf(),
                self@.input == old(self)@.input,
                prev_position == old(self)@.pos,
                prev_position <= self@.pos <= self@.input.len(),
                word_end(self@.input, self@.pos) == word_end(old(self)@.input, old(self)@.pos),
                forall|i: int|
                    prev_position <= i < self@.pos ==> is_letter_byte(self@.input[i]),
            decreases self@.input.len() - self@.pos,
        {
            proof {
                assert(self@.pos < self@.input.len());
            }
            self.read_char();
        }
        let bytes = byte_range(&self.input, prev_position, self.current_position);
        proof {
            assert(forall|i: int| 0 <= i < bytes@.len() ==> bytes@[i] < 128);
        }
        ascii_to_string(&bytes)
    }

    /// Scan the maximal run of digit bytes starting at the cursor and return
    /// its text, leaving the cursor on the first byte after the run.
    fn read_num(&mut self) -> (r: String)
        requires
            old(self).wf(),
        ensures
            final(self).wf(),
            final(self)@.input == old(self)@.input,
            final(self)@.pos == num_end(old(self)@.input, old(self)@.pos),
            r@ == ascii_seq(
                old(self)@.input.subrange(old(self)@.pos as int, final(self)@.pos as int),
            ),
    {
        let prev_position = self.current_position;
        while 48 <= self.ch && self.ch <= 57
            invariant
                self.wf(),
                self@.input == old(self)@.input,
                prev_position == old(self)@.pos,
                prev_position <= self@.pos <= self@.input.len(),
                num_end(self@.input, self@.pos) == num_end(old(self)@.input, old(self)@.pos),
                forall|i: int| prev_position <= i < self@.pos ==> is_digit_byte(self@.input[i]),
            decreases self@.input.len() - self@.pos,
        {
            proof {
                assert(self@.pos < self@.input.len());
            }
            self.read_char();
        }
        let bytes = byte_range(&self.input, prev_position, self.current_position);
        proof {
            assert(forall|i: int| 0 <= i < bytes@.len() ==> bytes@[i] < 128);
        }
        ascii_to_string(&bytes)
    }

    /// Scan and return the next token, advancing the cursor past it. Once
    /// end-of-input is reached, every further call returns the end-of-input
    /// token again.
    pub fn next_token(&mut self) -> (t: Token)
        requires
            old(self).wf(),
        ensures
            final(self).wf(),
            final(self)@.input == old(self)@.input,
            t@ == lex_step(old(self)@.input, old(self)@.pos).0,
            final(self)@.pos == lex_step(old(self)@.input, old(self)@.pos).1,
    {
        self.skip_whitespace();
        let ghost p = self@.pos;
        let tok: Token = match self.ch {
            61 => {
                if self.lookahead() == 61 {
                    self.read_char();
                    Token::new(TokenType::Equals, "==".to_owned())
                } else {
                    Token::new(TokenType::Assign, "=".to_owned())
                }
            },
            43 => Token::new(TokenType::Plus, "+".to_owned()),
            45 => Token::new(TokenType::Dash, "-".to_owned()),
            42 => Token::new(TokenType::Asterisk, "*".to_owned()),
            40 => Token::new(TokenType::Lparen, "(".to_owned()),
            41 => Token::new(TokenType::Rparen, ")".to_owned()),
            123 => Token::new(TokenType::Lbrace, "{".to_owned()),
            125 => Token::new(TokenType::Rbrace, "}".to_owned()),
            44 => Token::new(TokenType::Comma, ",".to_owned()),
            59 => Token::new(TokenType::Semicolon, ";".to_owned()),
            33 => {
                if self.lookahead() == 61 {
                    self.read_char();
                    Token::new(TokenType::NotEqual, "!=".to_owned())
                } else {
                    Token::new(TokenType::Bang, "!".to_owned())
                }
            },
            47 => Token::new(TokenType::ForwardSlash, "/".to_owned()),
            60 => Token::new(TokenType::LesserThan, "<".to_owned()),
            62 => Token::new(TokenType::GreaterThan, ">".to_owned()),
            65..=90 | 95 | 97..=122 => {
                let id = self.read_ident();
                return if id == "let".to_owned() {
                    Token::new(TokenType::Let, id)
                } else if id == "fn".to_owned() {
                    Token::new(TokenType::Function, id)
                } else if id == "else".to_owned() {
                    Token::new(TokenType::Else, id)
                } else if id == "if".to_owned() {
                    Token::new(TokenType::If, id)
                } else if id == "true".to_owned() {
                    Token::new(TokenType::True, id)
                } else if id == "false".to_owned() {
                    Token::new(TokenType::False, id)
                } else if id == "return".to_owned() {
                    Token::new(TokenType::Return, id)
                } else {
                    Token::new(TokenType::Ident, id)
                };
            },
            48..=57 => {
                return Token::new(TokenType::Int, self.read_num());
            },
            0 => Token::new(TokenType::Eof, String::new()),
            _ => Token::new(TokenType::Illegal, String::new()),
        };
        self.read_char();
        tok
    }

    /// The lazy sequence view, made finite: scan and return every token up
    /// to, and not including, the end-of-input token. The lexer is left at
    /// end-of-input and can only be restarted by reconstruction.
    pub fn tokens(&mut self) -> (r: Vec<Token>)
        requires
            old(self).wf(),
        ensures
            final(self).wf(),
            final(self)@.input == old(self)@.input,
            r@.len() == lex_tokens(old(self)@.input, old(self)@.pos).len(),
            forall|i: int|
                0 <= i < r@.len() ==> (#[trigger] r@[i])@ == lex_tokens(
                    old(self)@.input,
                    old(self)@.pos,
                )[i],
    {
        let ghost input = self@.input;
        let ghost pos0 = self@.pos;
        let mut r: Vec<Token> = Vec::new();
        proof {
            assert(Seq::new(r@.len(), |i: int| r@[i]@) =~= Seq::<SpecToken>::empty());
        }
        loop
            invariant_except_break
                self.wf(),
                self@.input == input,
                lex_tokens(input, pos0) =~= Seq::new(r@.len(), |i: int| r@[i]@) + lex_tokens(
                    input,
                    self@.pos,
                ),
            ensures
                self.wf(),
                self@.input == input,
                lex_tokens(input, pos0) =~= Seq::new(r@.len(), |i: int| r@[i]@),
            decreases lex_tokens(input, self@.pos).len(),
        {
            let ghost pos_here = self@.pos;
            proof {
                self.lemma_wf_pos();
            }
            let tok = self.next_token();
            if tok.token_type == TokenType::Eof {
                proof {
                    assert(lex_tokens(input, pos_here) =~= Seq::<SpecToken>::empty());
                }
                break ;
            }
            let ghost r_old = r@;
            r.push(tok);
            proof {
                assert(lex_tokens(input, pos_here) =~= seq![tok@] + lex_tokens(
                    input,
                    self@.pos,
                ));
                assert(Seq::new(r@.len(), |i: int| r@[i]@) =~= Seq::new(
                    r_old.len(),
                    |i: int| r_old[i]@,
                ).push(tok@));
                assert(lex_tokens(input, pos0) =~= Seq::new(r@.len(), |i: int| r@[i]@)
                    + lex_tokens(input, self@.pos));
            }
        }
        proof {
            assert forall|i: int| 0 <= i < r@.len() implies (#[trigger] r@[i])@ == lex_tokens(
                input,
                pos0,
            )[i] by {
                assert(lex_tokens(input, pos0)[i] == Seq::new(r@.len(), |j: int| r@[j]@)[i]);
            }
        }
        r
    }
}

} // verus!
