use monkey_parser::ast::Expression;
use monkey_parser::ast::ExpressionStatement;
use monkey_parser::ast::Identifier;
use monkey_parser::ast::IntegerLiteral;
use monkey_parser::ast::LetStatement;
use monkey_parser::ast::ReturnStatement;
use monkey_parser::ast::Statement;
use monkey_parser::lexer::Lexer;
use monkey_parser::lexer::token::Token;
use monkey_parser::lexer::token::TokenType;
use monkey_parser::parser::Parser;
use monkey_parser::parser::ParseError;

fn token(token_type: TokenType, literal: &str) -> Token {
    Token::new(token_type, literal.to_string())
}

#[test]
fn test_let_statements() {
    let input = r#"
        let x = 5;
        let y = 10;
        let foobar = 838383;
        "#;

    let lexer = Lexer::new(input.to_string());
    let mut parser = Parser::new(lexer);
    let program = parser.parse_program().unwrap();
    assert_eq!(program.statements.len(), 3);
    let expected_statements: Vec<Statement> = vec![
        Statement::Let(LetStatement {
            token: token(TokenType::Let, "let"),
            name: Identifier("x".to_string()),
            value: Expression::Integer(IntegerLiteral(5)),
        }),
        Statement::Let(LetStatement {
            token: token(TokenType::Let, "let"),
            name: Identifier("y".to_string()),
            value: Expression::Integer(IntegerLiteral(10)),
        }),
        Statement::Let(LetStatement {
            token: token(TokenType::Let, "let"),
            name: Identifier("foobar".to_string()),
            value: Expression::Integer(IntegerLiteral(838383)),
        }),
    ];

    for (i, statement) in program.statements.iter().enumerate() {
        assert_eq!(statement, &expected_statements[i]);
    }
}

#[test]
fn test_return_statements() {
    let input = r#"
        return 5;
        return 10;
        return 993322;
        "#;

    let lexer = Lexer::new(input.to_string());
    let mut parser = Parser::new(lexer);
    let program = parser.parse_program().unwrap();
    assert_eq!(program.statements.len(), 3);
    let expected_statements: Vec<Statement> = vec![
        Statement::Return(ReturnStatement {
            token: token(TokenType::Return, "return"),
            return_value: Expression::Integer(IntegerLiteral(5)),
        }),
        Statement::Return(ReturnStatement {
            token: token(TokenType::Return, "return"),
            return_value: Expression::Integer(IntegerLiteral(10)),
        }),
        Statement::Return(ReturnStatement {
            token: token(TokenType::Return, "return"),
            return_value: Expression::Integer(IntegerLiteral(993322)),
        }),
    ];

    for (i, statement) in program.statements.iter().enumerate() {
        assert_eq!(statement, &expected_statements[i]);
    }
}

#[test]
fn test_identifier_expression() {
    let input = "foobar;";
    let lexer = Lexer::new(input.to_string());
    let mut parser = Parser::new(lexer);
    let program = parser.parse_program().unwrap();
    assert_eq!(program.statements.len(), 1);
    let expected_statement = Statement::Expression(ExpressionStatement {
        token: token(TokenType::Ident, "foobar"),
        expression: Expression::Id(Identifier("foobar".to_string())),
    });
    assert_eq!(program.statements[0], expected_statement);
}

#[test]
fn test_integer_expression() {
    let input = "5;";
    let lexer = Lexer::new(input.to_string());
    let mut parser = Parser::new(lexer);
    let program = parser.parse_program().unwrap();
    assert_eq!(program.statements.len(), 1);
    let expected_statement = Statement::Expression(ExpressionStatement {
        token: token(TokenType::Int, "5"),
        expression: Expression::Integer(IntegerLiteral(5)),
    });
    assert_eq!(program.statements[0], expected_statement);
}

#[test]
fn test_prefix_expression() {
    let input = "!5;-15;";
    let lexer = Lexer::new(input.to_string());
    let mut parser = Parser::new(lexer);
    let program = parser.parse_program().unwrap();
    assert_eq!(program.statements.len(), 2);
    let expected_statements: Vec<Statement> = vec![
        Statement::Expression(ExpressionStatement {
            token: token(TokenType::Int, "5"),
            expression: Expression::Prefix {
                operator: "!".to_string(),
                right: Box::new(Expression::Integer(IntegerLiteral(5))),
            },
        }),
        Statement::Expression(ExpressionStatement {
            token: token(TokenType::Int, "15"),
            expression: Expression::Prefix {
                operator: "-".to_string(),
                right: Box::new(Expression::Integer(IntegerLiteral(15))),
            },
        }),
    ];

    for (i, statement) in program.statements.iter().enumerate() {
        assert_eq!(statement, &expected_statements[i]);
    }
}

#[test]
fn test_let_statement_renders_back() {
    let lexer = Lexer::new("let x = 5;".to_string());
    let mut parser = Parser::new(lexer);
    let program = parser.parse_program().unwrap();
    assert_eq!(program.statements.len(), 1);
    assert_eq!(program.show(), "let x = 5;");
}

#[test]
fn test_return_statement_renders_back() {
    let lexer = Lexer::new("return 5;".to_string());
    let mut parser = Parser::new(lexer);
    let program = parser.parse_program().unwrap();
    assert_eq!(program.statements.len(), 1);
    assert_eq!(program.show(), "return 5;");
}

#[test]
fn test_prefix_expressions_render_parenthesized() {
    let lexer = Lexer::new("!5;-15;".to_string());
    let mut parser = Parser::new(lexer);
    let program = parser.parse_program().unwrap();
    assert_eq!(program.statements[0].show(), "(!5)");
    assert_eq!(program.statements[1].show(), "(-15)");
}

#[test]
fn test_let_missing_assign_fails() {
    let lexer = Lexer::new("let x 5;".to_string());
    let mut parser = Parser::new(lexer);
    let result = parser.parse_program();
    match result {
        Err(ParseError::UnexpectedToken { expected, got }) => {
            assert_eq!(expected, TokenType::Assign);
            assert_eq!(got, token(TokenType::Int, "5"));
        },
        _ => panic!("expected an unexpected-token error naming Assign"),
    }
}

#[test]
fn test_let_missing_identifier_fails() {
    let lexer = Lexer::new("let 5 = 3;".to_string());
    let mut parser = Parser::new(lexer);
    let result = parser.parse_program();
    match result {
        Err(ParseError::UnexpectedToken { expected, got }) => {
            assert_eq!(expected, TokenType::Ident);
            assert_eq!(got, token(TokenType::Int, "5"));
        },
        _ => panic!("expected an unexpected-token error naming Ident"),
    }
}

#[test]
fn test_let_missing_semicolon_fails() {
    let lexer = Lexer::new("let x = 5".to_string());
    let mut parser = Parser::new(lexer);
    let result = parser.parse_program();
    match result {
        Err(ParseError::UnexpectedToken { expected, got }) => {
            assert_eq!(expected, TokenType::Semicolon);
            assert_eq!(got, token(TokenType::Eof, ""));
        },
        _ => panic!("expected an unexpected-token error naming Semicolon"),
    }
}

#[test]
fn test_return_semicolon_is_optional() {
    let lexer = Lexer::new("return 5".to_string());
    let mut parser = Parser::new(lexer);
    let program = parser.parse_program().unwrap();
    assert_eq!(program.statements.len(), 1);
    assert_eq!(program.show(), "return 5;");
}

#[test]
fn test_no_prefix_parse_function_fails() {
    let lexer = Lexer::new("+;".to_string());
    let mut parser = Parser::new(lexer);
    let result = parser.parse_program();
    match result {
        Err(ParseError::NoPrefixParseFn { got }) => {
            assert_eq!(got, token(TokenType::Plus, "+"));
        },
        _ => panic!("expected a no-prefix-parse-function error"),
    }
}

#[test]
fn test_integer_overflow_is_malformed() {
    let lexer = Lexer::new("9223372036854775808;".to_string());
    let mut parser = Parser::new(lexer);
    let result = parser.parse_program();
    match result {
        Err(ParseError::MalformedIntegerLiteral { got }) => {
            assert_eq!(got, token(TokenType::Int, "9223372036854775808"));
        },
        _ => panic!("expected a malformed-integer-literal error"),
    }
}

#[test]
fn test_largest_integer_parses() {
    let lexer = Lexer::new("9223372036854775807;".to_string());
    let mut parser = Parser::new(lexer);
    let program = parser.parse_program().unwrap();
    let expected_statement = Statement::Expression(ExpressionStatement {
        token: token(TokenType::Int, "9223372036854775807"),
        expression: Expression::Integer(IntegerLiteral(i64::MAX)),
    });
    assert_eq!(program.statements[0], expected_statement);
}

#[test]
fn test_leading_zeros_parse_to_value() {
    let lexer = Lexer::new("let x = 007;".to_string());
    let mut parser = Parser::new(lexer);
    let program = parser.parse_program().unwrap();
    assert_eq!(
        program.statements[0],
        Statement::Let(LetStatement {
            token: token(TokenType::Let, "let"),
            name: Identifier("x".to_string()),
            value: Expression::Integer(IntegerLiteral(7)),
        })
    );
    assert_eq!(program.show(), "let x = 7;");
}

#[test]
fn test_empty_input_parses_to_empty_program() {
    let lexer = Lexer::new("".to_string());
    let mut parser = Parser::new(lexer);
    let program = parser.parse_program().unwrap();
    assert_eq!(program.statements.len(), 0);
}

#[test]
fn test_round_trip_reparse() {
    let input = "let x = 5;let y = abc;return 10;return foo;";
    let lexer = Lexer::new(input.to_string());
    let mut parser = Parser::new(lexer);
    let program = parser.parse_program().unwrap();

    let rendered = program.show();
    assert_eq!(rendered, input);
    let lexer2 = Lexer::new(rendered);
    let mut parser2 = Parser::new(lexer2);
    let program2 = parser2.parse_program().unwrap();
    assert_eq!(program.statements, program2.statements);
}

#[test]
fn test_error_message_text() {
    let lexer = Lexer::new("let x 5;".to_string());
    let mut parser = Parser::new(lexer);
    let err = match parser.parse_program() {
        Err(e) => e,
        Ok(_) => panic!("expected a parse error"),
    };
    assert_eq!(err.message(), "expected =, got Token(INT, 5)");
}

#[test]
fn test_parse_leaves_nothing_unread() {
    let lexer = Lexer::new("let x = 5;foo;".to_string());
    let mut parser = Parser::new(lexer);
    let program = parser.parse_program().unwrap();
    assert_eq!(program.statements.len(), 2);
    let leftover = parser.parse_program().unwrap();
    assert_eq!(leftover.statements.len(), 0);
}
