use monkey_parser::lexer::Lexer;
use monkey_parser::lexer::token::Token;
use monkey_parser::lexer::token::TokenType;
use monkey_parser::lexer::token::TokenType::Assign;
use monkey_parser::lexer::token::TokenType::Asterisk;
use monkey_parser::lexer::token::TokenType::Bang;
use monkey_parser::lexer::token::TokenType::Comma;
use monkey_parser::lexer::token::TokenType::Dash;
use monkey_parser::lexer::token::TokenType::Eof;
use monkey_parser::lexer::token::TokenType::Equals;
use monkey_parser::lexer::token::TokenType::ForwardSlash;
use monkey_parser::lexer::token::TokenType::Function;
use monkey_parser::lexer::token::TokenType::GreaterThan;
use monkey_parser::lexer::token::TokenType::Ident;
use monkey_parser::lexer::token::TokenType::Int;
use monkey_parser::lexer::token::TokenType::Lbrace;
use monkey_parser::lexer::token::TokenType::Lparen;
use monkey_parser::lexer::token::TokenType::LesserThan;
use monkey_parser::lexer::token::TokenType::Let;
use monkey_parser::lexer::token::TokenType::NotEqual;
use monkey_parser::lexer::token::TokenType::Plus;
use monkey_parser::lexer::token::TokenType::Rbrace;
use monkey_parser::lexer::token::TokenType::Rparen;
use monkey_parser::lexer::token::TokenType::Semicolon;

fn token(token_type: TokenType, literal: &str) -> Token {
    Token::new(token_type, literal.to_string())
}

#[test]
fn test_tokenize_simple() {
    let input = "=+(){},;";
    let expected = vec![
        token(Assign, "="),
        token(Plus, "+"),
        token(Lparen, "("),
        token(Rparen, ")"),
        token(Lbrace, "{"),
        token(Rbrace, "}"),
        token(Comma, ","),
        token(Semicolon, ";"),
    ];
    let mut lex = Lexer::new(input.to_string());
    for tok in expected.iter() {
        assert_eq!(&lex.next_token(), tok)
    }
}

#[test]
fn test_tokenize_complex() {
    let input = r#"let five = 5;
            let ten = 10;

            let add = fn(x,y) {
                x+y;
            };

            let result = add(five,ten);
            !-/*5;
            5 < 10 > 5;
            "#;

    let expected = vec![
        token(Let, "let"),
        token(Ident, "five"),
        token(Assign, "="),
        token(Int, "5"),
        token(Semicolon, ";"),
        token(Let, "let"),
        token(Ident, "ten"),
        token(Assign, "="),
        token(Int, "10"),
        token(Semicolon, ";"),
        token(Let, "let"),
        token(Ident, "add"),
        token(Assign, "="),
        token(Function, "fn"),
        token(Lparen, "("),
        token(Ident, "x"),
        token(Comma, ","),
        token(Ident, "y"),
        token(Rparen, ")"),
        token(Lbrace, "{"),
        token(Ident, "x"),
        token(Plus, "+"),
        token(Ident, "y"),
        token(Semicolon, ";"),
        token(Rbrace, "}"),
        token(Semicolon, ";"),
        token(Let, "let"),
        token(Ident, "result"),
        token(Assign, "="),
        token(Ident, "add"),
        token(Lparen, "("),
        token(Ident, "five"),
        token(Comma, ","),
        token(Ident, "ten"),
        token(Rparen, ")"),
        token(Semicolon, ";"),
        token(Bang, "!"),
        token(Dash, "-"),
        token(ForwardSlash, "/"),
        token(Asterisk, "*"),
        token(Int, "5"),
        token(Semicolon, ";"),
        token(Int, "5"),
        token(LesserThan, "<"),
        token(Int, "10"),
        token(GreaterThan, ">"),
        token(Int, "5"),
        token(Semicolon, ";"),
    ];
    let mut lex = Lexer::new(input.to_string());
    for tok in expected.iter() {
        let got = lex.next_token();
        assert_eq!(&got, tok)
    }
}

#[test]
fn test_two_char_operators_need_both_chars() {
    let mut lex = Lexer::new("== = != ! =!".to_string());
    assert_eq!(lex.next_token(), token(Equals, "=="));
    assert_eq!(lex.next_token(), token(Assign, "="));
    assert_eq!(lex.next_token(), token(NotEqual, "!="));
    assert_eq!(lex.next_token(), token(Bang, "!"));
    assert_eq!(lex.next_token(), token(Assign, "="));
    assert_eq!(lex.next_token(), token(Bang, "!"));
    assert_eq!(lex.next_token(), token(Eof, ""));
}

#[test]
fn test_all_keywords_and_identifiers() {
    let mut lex = Lexer::new("let fn if else true false return lets fnx".to_string());
    assert_eq!(lex.next_token(), token(Let, "let"));
    assert_eq!(lex.next_token(), token(Function, "fn"));
    assert_eq!(lex.next_token(), token(TokenType::If, "if"));
    assert_eq!(lex.next_token(), token(TokenType::Else, "else"));
    assert_eq!(lex.next_token(), token(TokenType::True, "true"));
    assert_eq!(lex.next_token(), token(TokenType::False, "false"));
    assert_eq!(lex.next_token(), token(TokenType::Return, "return"));
    assert_eq!(lex.next_token(), token(Ident, "lets"));
    assert_eq!(lex.next_token(), token(Ident, "fnx"));
    assert_eq!(lex.next_token(), token(Eof, ""));
}

#[test]
fn test_identifier_with_underscore_and_uppercase() {
    let mut lex = Lexer::new("a_Bc".to_string());
    assert_eq!(lex.next_token(), token(Ident, "a_Bc"));
    assert_eq!(lex.next_token(), token(Eof, ""));
}

#[test]
fn test_identifier_starting_with_uppercase_or_underscore() {
    let mut lex = Lexer::new("Abc _foo Let".to_string());
    assert_eq!(lex.next_token(), token(Ident, "Abc"));
    assert_eq!(lex.next_token(), token(Ident, "_foo"));
    assert_eq!(lex.next_token(), token(Ident, "Let"));
    assert_eq!(lex.next_token(), token(Eof, ""));
}

#[test]
fn test_digit_runs_keep_leading_zeros() {
    let mut lex = Lexer::new("007 0 12345".to_string());
    assert_eq!(lex.next_token(), token(Int, "007"));
    assert_eq!(lex.next_token(), token(Int, "0"));
    assert_eq!(lex.next_token(), token(Int, "12345"));
    assert_eq!(lex.next_token(), token(Eof, ""));
}

#[test]
fn test_eof_token_repeats() {
    let mut lex = Lexer::new("".to_string());
    assert_eq!(lex.next_token(), token(Eof, ""));
    assert_eq!(lex.next_token(), token(Eof, ""));
    assert_eq!(lex.next_token(), token(Eof, ""));
}

#[test]
fn test_illegal_byte() {
    let mut lex = Lexer::new("@".to_string());
    assert_eq!(lex.next_token(), token(TokenType::Illegal, ""));
    assert_eq!(lex.next_token(), token(Eof, ""));
}

#[test]
fn test_whitespace_is_skipped() {
    let mut lex = Lexer::new(" \t\r\n 5 \t;\n".to_string());
    assert_eq!(lex.next_token(), token(Int, "5"));
    assert_eq!(lex.next_token(), token(Semicolon, ";"));
    assert_eq!(lex.next_token(), token(Eof, ""));
}

#[test]
fn test_token_show() {
    let tok = token(Int, "5");
    assert_eq!(tok.show(), "Token(INT, 5)");
    assert_eq!(token(Assign, "=").show(), "Token(=, =)");
}

#[test]
fn test_tokens_sequence_view() {
    let mut lex = Lexer::new("let x = 5;".to_string());
    let toks = lex.tokens();
    let expected = vec![
        token(Let, "let"),
        token(Ident, "x"),
        token(Assign, "="),
        token(Int, "5"),
        token(Semicolon, ";"),
    ];
    assert_eq!(toks, expected);
    assert_eq!(lex.next_token(), token(Eof, ""));
}
