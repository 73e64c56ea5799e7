use monkeylang::lexer::{Lexer, Token};

#[test]
fn it_works() {
    let mut lexer = Lexer::new("=+(){},;".to_string());

    let tokens = vec![
        Token::Assign,
        Token::Plus,
        Token::LParen,
        Token::RParen,
        Token::LBrace,
        Token::RBrace,
        Token::Comma,
        Token::Semicolon,
        Token::EOF,
    ];

    for token in tokens {
        let next_token = lexer.next_token();
        println!("expected: {token:?}, received {next_token:?}");
        assert_eq!(token, next_token);
    }
}

#[test]
fn it_works_better() {
    let source = r#"
        let five = 5;
        let ten = 10;

        let add = fn(x, y) {
            x + y;
        };

        let result = add(five, ten);
        !-/*5;
        5 < 10 > 5;

        if (5 < 10) {
            return true;
        } else {
            return false;
        }

        10 == 10;
        10 != 9;
        "#
    .to_string();

    let mut lexer = Lexer::new(source);

    let tokens = vec![
        Token::Let,
        Token::Ident(String::from("five")),
        Token::Assign,
        Token::Int(5),
        Token::Semicolon,
        Token::Let,
        Token::Ident(String::from("ten")),
        Token::Assign,
        Token::Int(10),
        Token::Semicolon,
        Token::Let,
        Token::Ident(String::from("add")),
        Token::Assign,
        Token::Function,
        Token::LParen,
        Token::Ident(String::from("x")),
        Token::Comma,
        Token::Ident(String::from("y")),
        Token::RParen,
        Token::LBrace,
        Token::Ident(String::from("x")),
        Token::Plus,
        Token::Ident(String::from("y")),
        Token::Semicolon,
        Token::RBrace,
        Token::Semicolon,
        Token::Let,
        Token::Ident(String::from("result")),
        Token::Assign,
        Token::Ident(String::from("add")),
        Token::LParen,
        Token::Ident(String::from("five")),
        Token::Comma,
        Token::Ident(String::from("ten")),
        Token::RParen,
        Token::Semicolon,
        Token::Bang,
        Token::Minus,
        Token::Slash,
        Token::Asterisk,
        Token::Int(5),
        Token::Semicolon,
        Token::Int(5),
        Token::LessThan,
        Token::Int(10),
        Token::GreaterThan,
        Token::Int(5),
        Token::Semicolon,
        Token::If,
        Token::LParen,
        Token::Int(5),
        Token::LessThan,
        Token::Int(10),
        Token::RParen,
        Token::LBrace,
        Token::Return,
        Token::True,
        Token::Semicolon,
        Token::RBrace,
        Token::Else,
        Token::LBrace,
        Token::Return,
        Token::False,
        Token::Semicolon,
        Token::RBrace,
        Token::Int(10),
        Token::Equal,
        Token::Int(10),
        Token::Semicolon,
        Token::Int(10),
        Token::NotEqual,
        Token::Int(9),
        Token::Semicolon,
        Token::EOF,
    ];

    for token in tokens {
        let next_token = lexer.next_token();
        println!("expected: {token:?}, received {next_token:?}");
        assert_eq!(token, next_token);
    }
}

#[test]
fn eof_tail_is_idempotent() {
    let mut lexer = Lexer::new("=+(){},;".to_string());
    for _ in 0..8 {
        let t = lexer.next_token();
        assert_ne!(t, Token::EOF);
    }
    for _ in 0..5 {
        assert_eq!(lexer.next_token(), Token::EOF);
    }
}

#[test]
fn keywords_scan_to_their_tokens() {
    let cases = vec![
        ("fn", Token::Function),
        ("let", Token::Let),
        ("true", Token::True),
        ("false", Token::False),
        ("if", Token::If),
        ("else", Token::Else),
        ("return", Token::Return),
    ];
    for (text, expected) in cases {
        let mut lexer = Lexer::new(text.to_string());
        assert_eq!(lexer.next_token(), expected);
        assert_eq!(lexer.next_token(), Token::EOF);
    }
}

#[test]
fn non_keywords_scan_to_identifiers() {
    for text in ["foobar", "lets", "fns", "tru", "returns", "_x"] {
        let mut lexer = Lexer::new(text.to_string());
        assert_eq!(lexer.next_token(), Token::Ident(text.to_string()));
        assert_eq!(lexer.next_token(), Token::EOF);
    }
}

#[test]
fn two_char_operators_disambiguate() {
    let mut lexer = Lexer::new("==".to_string());
    assert_eq!(lexer.next_token(), Token::Equal);
    assert_eq!(lexer.next_token(), Token::EOF);

    let mut lexer = Lexer::new("!=".to_string());
    assert_eq!(lexer.next_token(), Token::NotEqual);
    assert_eq!(lexer.next_token(), Token::EOF);

    let mut lexer = Lexer::new("=".to_string());
    assert_eq!(lexer.next_token(), Token::Assign);
    assert_eq!(lexer.next_token(), Token::EOF);

    let mut lexer = Lexer::new("!".to_string());
    assert_eq!(lexer.next_token(), Token::Bang);
    assert_eq!(lexer.next_token(), Token::EOF);

    let mut lexer = Lexer::new("=!".to_string());
    assert_eq!(lexer.next_token(), Token::Assign);
    assert_eq!(lexer.next_token(), Token::Bang);
    assert_eq!(lexer.next_token(), Token::EOF);
}

#[test]
fn digits_end_identifiers() {
    let mut lexer = Lexer::new("abc123".to_string());
    assert_eq!(lexer.next_token(), Token::Ident("abc".to_string()));
    assert_eq!(lexer.next_token(), Token::Int(123));
    assert_eq!(lexer.next_token(), Token::EOF);
}

#[test]
fn integer_literal_exact_value() {
    let mut lexer = Lexer::new("838383".to_string());
    assert_eq!(lexer.next_token(), Token::Int(838383));
    assert_eq!(lexer.next_token(), Token::EOF);
}

#[test]
fn unrecognized_character_is_illegal_token() {
    let mut lexer = Lexer::new("@;".to_string());
    assert_eq!(lexer.next_token(), Token::Illegal);
    assert_eq!(lexer.next_token(), Token::Semicolon);
    assert_eq!(lexer.next_token(), Token::EOF);
}

#[test]
fn literal_only_input_ends_in_eof() {
    let mut lexer = Lexer::new("five".to_string());
    assert_eq!(lexer.next_token(), Token::Ident("five".to_string()));
    assert_eq!(lexer.next_token(), Token::EOF);

    let mut lexer = Lexer::new("42".to_string());
    assert_eq!(lexer.next_token(), Token::Int(42));
    assert_eq!(lexer.next_token(), Token::EOF);
}

#[test]
fn whitespace_is_skipped_between_tokens() {
    let mut lexer = Lexer::new(" \t\r\n let \t x\n=  5 ;\r".to_string());
    let tokens = vec![
        Token::Let,
        Token::Ident("x".to_string()),
        Token::Assign,
        Token::Int(5),
        Token::Semicolon,
        Token::EOF,
    ];
    for token in tokens {
        assert_eq!(lexer.next_token(), token);
    }
}

#[test]
fn empty_input_immediately_yields_eof() {
    let mut lexer = Lexer::new(String::new());
    assert_eq!(lexer.next_token(), Token::EOF);
    assert_eq!(lexer.next_token(), Token::EOF);
}
