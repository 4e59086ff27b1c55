use monkey_parser::ast::Expression;
use monkey_parser::ast::Identifier;
use monkey_parser::ast::IntegerLiteral;
use monkey_parser::ast::LetStatement;
use monkey_parser::ast::Literal;
use monkey_parser::ast::Program;
use monkey_parser::ast::ReturnStatement;
use monkey_parser::ast::Statement;
use monkey_parser::lexer::token::Token;
use monkey_parser::lexer::token::TokenType;

#[test]
fn test_show_program() {
    let program = Program {
        statements: vec![
            Statement::Let(LetStatement {
                token: Token {
                    token_type: TokenType::Let,
                    literal: "let".to_string(),
                },
                name: Identifier("myVar".to_string()),
                value: Expression::Id(Identifier("anotherVar".to_string())),
            }),
            Statement::Return(ReturnStatement {
                token: Token {
                    token_type: TokenType::Return,
                    literal: "return".to_string(),
                },
                return_value: Expression::Lit(Literal("5".to_string())),
            }),
        ],
    };
    assert_eq!(program.show(), "let myVar = anotherVar;return 5;");
}

#[test]
fn test_show_integer_literals() {
    assert_eq!(Expression::Integer(IntegerLiteral(0)).show(), "0");
    assert_eq!(Expression::Integer(IntegerLiteral(5)).show(), "5");
    assert_eq!(Expression::Integer(IntegerLiteral(838383)).show(), "838383");
    assert_eq!(Expression::Integer(IntegerLiteral(-5)).show(), "-5");
    assert_eq!(
        Expression::Integer(IntegerLiteral(i64::MAX)).show(),
        "9223372036854775807"
    );
    assert_eq!(
        Expression::Integer(IntegerLiteral(i64::MIN)).show(),
        "-9223372036854775808"
    );
}

#[test]
fn test_show_prefix_expression() {
    let expr = Expression::Prefix {
        operator: "!".to_string(),
        right: Box::new(Expression::Prefix {
            operator: "-".to_string(),
            right: Box::new(Expression::Integer(IntegerLiteral(7))),
        }),
    };
    assert_eq!(expr.show(), "(!(-7))");
}

#[test]
fn test_new_program_is_empty() {
    let program = Program::new();
    assert_eq!(program.statements.len(), 0);
    assert_eq!(program.show(), "");
}
