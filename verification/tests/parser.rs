use monkeylang::ast::{Expression, Ident, LetStatement, Program, Statement};
use monkeylang::lexer::{Lexer, Token};
use monkeylang::parser::{Parser, ParserError};

#[test]
fn let_statements_parse() {
    let source = r#"
        let x = 5;
        let y = 10;
        let foobar = 838383;
        "#;
    let mut parser = Parser::new(Lexer::new(source.to_string()));
    let program = parser.parse_program().unwrap();
    assert_eq!(
        program,
        Program {
            statements: vec![
                Statement::Let(LetStatement {
                    name: Ident("x".to_string()),
                    value: Expression::Empty
                }),
                Statement::Let(LetStatement {
                    name: Ident("y".to_string()),
                    value: Expression::Empty
                }),
                Statement::Let(LetStatement {
                    name: Ident("foobar".to_string()),
                    value: Expression::Empty
                }),
            ]
        }
    );
}

#[test]
fn empty_source_parses_to_empty_program() {
    let mut parser = Parser::new(Lexer::new(String::new()));
    let program = parser.parse_program().unwrap();
    assert_eq!(program, Program { statements: vec![] });
}

#[test]
fn missing_assign_reports_one_error() {
    let mut parser = Parser::new(Lexer::new("let x 5;".to_string()));
    let errors = parser.parse_program().unwrap_err();
    assert_eq!(
        errors,
        vec![ParserError::UnexpectedToken { expected: Token::Assign, got: Token::Int(5) }]
    );
}

#[test]
fn missing_name_reports_one_error() {
    let mut parser = Parser::new(Lexer::new("let = 5;".to_string()));
    let errors = parser.parse_program().unwrap_err();
    assert_eq!(errors.len(), 1);
    assert!(matches!(
        errors[0],
        ParserError::UnexpectedToken { expected: Token::Ident(_), got: Token::Assign }
    ));
}

#[test]
fn unsupported_statement_reports_one_error() {
    let mut parser = Parser::new(Lexer::new("5;".to_string()));
    let errors = parser.parse_program().unwrap_err();
    assert_eq!(errors, vec![ParserError::UnsupportedStatement { got: Token::Int(5) }]);
}

#[test]
fn first_failure_aborts_the_parse() {
    // Fail-fast policy: the first failed rule surfaces the error list at
    // once, so the second malformed statement is never reached.
    let mut parser = Parser::new(Lexer::new("let x 5; let y 6;".to_string()));
    let errors = parser.parse_program().unwrap_err();
    assert_eq!(
        errors,
        vec![ParserError::UnexpectedToken { expected: Token::Assign, got: Token::Int(5) }]
    );
}

#[test]
fn value_tokens_are_skipped_up_to_semicolon() {
    let mut parser = Parser::new(Lexer::new("let x = 1 + 2 * 3;".to_string()));
    let program = parser.parse_program().unwrap();
    assert_eq!(
        program,
        Program {
            statements: vec![Statement::Let(LetStatement {
                name: Ident("x".to_string()),
                value: Expression::Empty
            })]
        }
    );
}

#[test]
fn binding_without_semicolon_ends_at_eof() {
    let mut parser = Parser::new(Lexer::new("let x = 5".to_string()));
    let program = parser.parse_program().unwrap();
    assert_eq!(
        program,
        Program {
            statements: vec![Statement::Let(LetStatement {
                name: Ident("x".to_string()),
                value: Expression::Empty
            })]
        }
    );
}
