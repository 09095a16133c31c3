use riddle_core::riddle::lexer::Lexer;
use riddle_core::riddle::lexer::Token;

#[test]
fn test_lexer_basic_tokens() {
    let input = "+ - * / ( ) { } [ ] , ; = == != < <= > >= ";
    let mut lexer = Lexer::new(input);
    let expected_tokens = vec![
        Token::Plus,
        Token::Minus,
        Token::Asterisk,
        Token::Slash,
        Token::LParen,
        Token::RParen,
        Token::LBrace,
        Token::RBrace,
        Token::LBracket,
        Token::RBracket,
        Token::Comma,
        Token::Semicolon,
        Token::Equal,
        Token::EqualEqual,
        Token::NotEqual,
        Token::LessThan,
        Token::LessEqual,
        Token::GreaterThan,
        Token::GreaterEqual,
    ];
    for expected in expected_tokens {
        let token = lexer.next_token();
        assert_eq!(token, expected);
    }
}

#[test]
fn test_lexer_identifiers_and_numbers() {
    let input = "var1 var_2 123 45.67";
    let mut lexer = Lexer::new(input);
    let expected_tokens = vec![Token::Identifier("var1".to_string()), Token::Identifier("var_2".to_string()), Token::IntLiteral(123), Token::RealLiteral(4567, 100)];
    for expected in expected_tokens {
        let token = lexer.next_token();
        assert_eq!(token, expected);
    }
}

#[test]
fn test_lexer_keywords() {
    let input = "int real string class predicate enum new for this void return fact goal or";
    let mut lexer = Lexer::new(input);
    let expected_tokens = vec![Token::Int, Token::Real, Token::String, Token::Class, Token::Predicate, Token::Enum, Token::New, Token::For, Token::This, Token::Void, Token::Return, Token::Fact, Token::Goal, Token::Or];
    for expected in expected_tokens {
        let token = lexer.next_token();
        assert_eq!(token, expected);
    }
}

#[test]
fn test_lexer_riddle() {
    let input = "class Person { int age; string name; }";
    let mut lexer = Lexer::new(input);
    let expected_tokens = vec![Token::Class, Token::Identifier("Person".to_string()), Token::LBrace, Token::Int, Token::Identifier("age".to_string()), Token::Semicolon, Token::String, Token::Identifier("name".to_string()), Token::Semicolon, Token::RBrace];
    for expected in expected_tokens {
        let token = lexer.next_token();
        assert_eq!(token, expected);
    }
}

#[test]
fn test_lexer_dot_numbers() {
    let input = ".5 . .123 0.5";
    let mut lexer = Lexer::new(input);

    // .5 -> RealLiteral(5, 10)
    assert_eq!(lexer.next_token(), Token::RealLiteral(5, 10));

    // . -> Dot
    assert_eq!(lexer.next_token(), Token::Dot);

    // .123 -> RealLiteral(123, 1000)
    assert_eq!(lexer.next_token(), Token::RealLiteral(123, 1000));

    // 0.5 -> RealLiteral(5, 10)
    assert_eq!(lexer.next_token(), Token::RealLiteral(5, 10));
}

#[test]
fn lexer_passes_over_what_starts_no_token() {
    let mut lexer = Lexer::new("a ! b # c != d:");
    let expected = vec![
        Token::Identifier("a".to_string()),
        Token::Identifier("b".to_string()),
        Token::Identifier("c".to_string()),
        Token::NotEqual,
        Token::Identifier("d".to_string()),
        Token::Colon,
        Token::EOF,
        Token::EOF,
    ];
    for e in expected {
        assert_eq!(lexer.next_token(), e);
    }
    assert!(lexer.at_end());
}

#[test]
fn lexer_numbers_with_points() {
    let mut lexer = Lexer::new("1.2.3 7. 007 true false & | bool");
    let expected = vec![
        Token::RealLiteral(12, 10),
        Token::RealLiteral(3, 10),
        Token::RealLiteral(7, 1),
        Token::IntLiteral(7),
        Token::BoolLiteral(true),
        Token::BoolLiteral(false),
        Token::Amp,
        Token::Bar,
        Token::Bool,
        Token::EOF,
    ];
    for e in expected {
        assert_eq!(lexer.next_token(), e);
    }
}

#[test]
fn lexer_numbers_that_do_not_fit() {
    let mut lexer = Lexer::new("9223372036854775807 9223372036854775808 0.0000000000000000001 922337203685477580.8 1.5");
    assert_eq!(lexer.next_token(), Token::IntLiteral(9223372036854775807));
    assert_eq!(lexer.next_token(), Token::IntLiteral(0));
    assert_eq!(lexer.next_token(), Token::RealLiteral(0, 1));
    assert_eq!(lexer.next_token(), Token::RealLiteral(0, 1));
    assert_eq!(lexer.next_token(), Token::RealLiteral(15, 10));
}

#[test]
fn lexer_white_space_of_unicode() {
    let mut lexer = Lexer::new("\u{a0}x\u{2003}\t\n1\u{3000}");
    assert_eq!(lexer.next_token(), Token::Identifier("x".to_string()));
    assert_eq!(lexer.next_token(), Token::IntLiteral(1));
    assert_eq!(lexer.next_token(), Token::EOF);
}

#[test]
fn token_descriptions() {
    assert_eq!(Token::Identifier("foo".to_string()).describe(), "Identifier(\"foo\")");
    assert_eq!(Token::IntLiteral(-12).describe(), "IntLiteral(-12)");
    assert_eq!(Token::RealLiteral(15, 10).describe(), "RealLiteral(15, 10)");
    assert_eq!(Token::BoolLiteral(true).describe(), "BoolLiteral(true)");
    assert_eq!(Token::LBrace.describe(), "LBrace");
    assert!(Token::Plus.same(&Token::Plus));
    assert!(!Token::Plus.same(&Token::Minus));
    assert_eq!(Token::IntLiteral(3).duplicate(), Token::IntLiteral(3));
}
