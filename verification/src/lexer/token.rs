//! The token model: the closed set of lexical categories and the literal
//! text each token instance carries.

use vstd::prelude::*;
use vstd::string::StringExecFns;

verus! {

/// The lexical category of a token.
#[derive(Debug, PartialEq, Eq, Structural, Clone, Copy, Hash)]
pub enum TokenType {
    Let,
    Ident,
    Int,
    Assign,
    Plus,
    Lparen,
    Rparen,
    Lbrace,
    Rbrace,
    Comma,
    Semicolon,
    Eof,
    Illegal,
    Function,
    Bang,
    Dash,
    GreaterThan,
    LesserThan,
    Equals,
    If,
    Else,
    Asterisk,
    ForwardSlash,
    NotEqual,
    False,
    True,
    Return,
}

/// The mathematical value of a token: its category and the characters of its
/// literal text.
pub struct SpecToken {
    pub token_type: TokenType,
    pub literal: Seq<char>,
}

/// A lexical unit: a category together with the exact source substring it
/// was scanned from.
#[derive(Debug, PartialEq, Eq, Hash)]
pub struct Token {
    pub token_type: TokenType,
    pub literal: String,
}

impl View for Token {
    type V = SpecToken;

    open spec fn view(&self) -> SpecToken {
        SpecToken { token_type: self.token_type, literal: self.literal@ }
    }
}

impl Clone for Token {
    fn clone(&self) -> (r: Token)
        ensures
            r@ == self@,
    {
        Token { token_type: self.token_type, literal: self.literal.clone() }
    }
}

impl Token {
    pub fn new(token_type: TokenType, literal: String) -> (t: Token)
        ensures
            t@ == (SpecToken { token_type, literal: literal@ }),
    {
        Token { token_type, literal }
    }

    /// The display form of a token: its category's display form, then its
    /// literal, both inside `Token(..)`.
    pub fn show(&self) -> (r: String)
        ensures
            r@ == spec_token_show(self@),
    {
        let mut r = "Token(".to_owned();
        r.append(self.token_type.show().as_str());
        r.append(", ");
        r.append(self.literal.as_str());
        r.append(")");
        proof {
            assert(r@ =~= spec_token_show(self@));
        }
        r
    }
}

/// The display form of a token value.
pub open spec fn spec_token_show(t: SpecToken) -> Seq<char> {
    "Token("@ + spec_token_type_name(t.token_type) + ", "@ + t.literal + ")"@
}

/// The display form of each token category: keywords and operators display
/// their fixed word or symbol, the others a fixed marker.
pub open spec fn spec_token_type_name(t: TokenType) -> Seq<char> {
    match t {
        TokenType::Let => "let"@,
        TokenType::Ident => "IDENT"@,
        TokenType::Int => "INT"@,
        TokenType::Assign => "="@,
        TokenType::Plus => "+"@,
        TokenType::Lparen => "("@,
        TokenType::Rparen => ")"@,
        TokenType::Lbrace => "{"@,
        TokenType::Rbrace => "}"@,
        TokenType::Comma => ","@,
        TokenType::Semicolon => ";"@,
        TokenType::Eof => "EOF"@,
        TokenType::Illegal => "ILLEGAL"@,
        TokenType::Function => "fn"@,
        TokenType::Bang => "!"@,
        TokenType::Dash => "-"@,
        TokenType::GreaterThan => ">"@,
        TokenType::LesserThan => "<"@,
        TokenType::Equals => "=="@,
        TokenType::If => "if"@,
        TokenType::Else => "else"@,
        TokenType::Asterisk => "*"@,
        TokenType::ForwardSlash => "/"@,
        TokenType::NotEqual => "!="@,
        TokenType::False => "false"@,
        TokenType::True => "true"@,
        TokenType::Return => "return"@,
    }
}

impl TokenType {
    /// The display form of this category, as a fresh string.
    pub fn show(&self) -> (r: String)
        ensures
            r@ == spec_token_type_name(*self),
    {
        match self {
            TokenType::Let => "let".to_owned(),
            TokenType::Ident => "IDENT".to_owned(),
            TokenType::Int => "INT".to_owned(),
            TokenType::Assign => "=".to_owned(),
            TokenType::Plus => "+".to_owned(),
            TokenType::Lparen => "(".to_owned(),
            TokenType::Rparen => ")".to_owned(),
            TokenType::Lbrace => "{".to_owned(),
            TokenType::Rbrace => "}".to_owned(),
            TokenType::Comma => ",".to_owned(),
            TokenType::Semicolon => ";".to_owned(),
            TokenType::Eof => "EOF".to_owned(),
            TokenType::Illegal => "ILLEGAL".to_owned(),
            TokenType::Function => "fn".to_owned(),
            TokenType::Bang => "!".to_owned(),
            TokenType::Dash => "-".to_owned(),
            TokenType::GreaterThan => ">".to_owned(),
            TokenType::LesserThan => "<".to_owned(),
            TokenType::Equals => "==".to_owned(),
            TokenType::If => "if".to_owned(),
            TokenType::Else => "else".to_owned(),
            TokenType::Asterisk => "*".to_owned(),
            TokenType::ForwardSlash => "/".to_owned(),
            TokenType::NotEqual => "!=".to_owned(),
            TokenType::False => "false".to_owned(),
            TokenType::True => "true".to_owned(),
            TokenType::Return => "return".to_owned(),
        }
    }
}

} // verus!
