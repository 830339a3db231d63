use pascal_interpreter::lexer::{Lexer, LexicalError};
use pascal_interpreter::token::{TokenKind, TokenValue};

#[test]
fn test_lexer() {
    let mut lexer = Lexer::new("3 + 5".to_string());
    let token = lexer.get_next_token().unwrap();
    assert_eq!(token.kind, TokenKind::Integer);
    let token = lexer.get_next_token().unwrap();
    assert_eq!(token.kind, TokenKind::Plus);
    let token = lexer.get_next_token().unwrap();
    assert_eq!(token.kind, TokenKind::Integer);
    let token = lexer.get_next_token().unwrap();
    assert_eq!(token.kind, TokenKind::EOF);
}

#[test]
fn test_lexer2() {
    let mut lexer = Lexer::new("3 + 5 * 2".to_string());

    let token = lexer.get_next_token().unwrap();
    assert_eq!(token.kind, TokenKind::Integer);

    let token = lexer.get_next_token().unwrap();
    assert_eq!(token.kind, TokenKind::Plus);

    let token = lexer.get_next_token().unwrap();
    assert_eq!(token.kind, TokenKind::Integer);

    let token = lexer.get_next_token().unwrap();
    assert_eq!(token.kind, TokenKind::Multiply);

    let token = lexer.get_next_token().unwrap();
    assert_eq!(token.kind, TokenKind::Integer);

    let token = lexer.get_next_token().unwrap();
    assert_eq!(token.kind, TokenKind::EOF);
}

#[test]
fn test_lexer3() {
    let mut lexer = Lexer::new("3 + 5 * 2 - 1".to_string());
    let token = lexer.get_next_token().unwrap();
    assert_eq!(token.kind, TokenKind::Integer);

    let token = lexer.get_next_token().unwrap();
    assert_eq!(token.kind, TokenKind::Plus);

    let token = lexer.get_next_token().unwrap();
    assert_eq!(token.kind, TokenKind::Integer);

    let token = lexer.get_next_token().unwrap();
    assert_eq!(token.kind, TokenKind::Multiply);

    let token = lexer.get_next_token().unwrap();
    assert_eq!(token.kind, TokenKind::Integer);

    let token = lexer.get_next_token().unwrap();
    assert_eq!(token.kind, TokenKind::Minus);

    let token = lexer.get_next_token().unwrap();
    assert_eq!(token.kind, TokenKind::Integer);

    let token = lexer.get_next_token().unwrap();
    assert_eq!(token.kind, TokenKind::EOF);
}

#[test]
fn test_lexer4() {
    let mut lexer = Lexer::new("3 + 5 * 2 - 1 / 2".to_string());
    let token = lexer.get_next_token().unwrap();
    assert_eq!(token.kind, TokenKind::Integer);

    let token = lexer.get_next_token().unwrap();
    assert_eq!(token.kind, TokenKind::Plus);

    let token = lexer.get_next_token().unwrap();
    assert_eq!(token.kind, TokenKind::Integer);

    let token = lexer.get_next_token().unwrap();
    assert_eq!(token.kind, TokenKind::Multiply);

    let token = lexer.get_next_token().unwrap();
    assert_eq!(token.kind, TokenKind::Integer);

    let token = lexer.get_next_token().unwrap();
    assert_eq!(token.kind, TokenKind::Minus);

    let token = lexer.get_next_token().unwrap();
    assert_eq!(token.kind, TokenKind::Integer);

    let token = lexer.get_next_token().unwrap();
    assert_eq!(token.kind, TokenKind::FloatDivide);

    let token = lexer.get_next_token().unwrap();
    assert_eq!(token.kind, TokenKind::Integer);

    let token = lexer.get_next_token().unwrap();
    assert_eq!(token.kind, TokenKind::EOF);
}

#[test]
fn test_lexer5() {
    let mut lexer = Lexer::new("7 + 3 * (10 / (12 / (3 + 1) - 1))".to_string());

    let token = lexer.get_next_token().unwrap();
    assert_eq!(token.kind, TokenKind::Integer);

    let token = lexer.get_next_token().unwrap();
    assert_eq!(token.kind, TokenKind::Plus);

    let token = lexer.get_next_token().unwrap();
    assert_eq!(token.kind, TokenKind::Integer);

    let token = lexer.get_next_token().unwrap();
    assert_eq!(token.kind, TokenKind::Multiply);

    let token = lexer.get_next_token().unwrap();
    assert_eq!(token.kind, TokenKind::LParen);

    let token = lexer.get_next_token().unwrap();
    assert_eq!(token.kind, TokenKind::Integer);

    let token = lexer.get_next_token().unwrap();
    assert_eq!(token.kind, TokenKind::FloatDivide);

    let token = lexer.get_next_token().unwrap();
    assert_eq!(token.kind, TokenKind::LParen);

    let token = lexer.get_next_token().unwrap();
    assert_eq!(token.kind, TokenKind::Integer);

    let token = lexer.get_next_token().unwrap();
    assert_eq!(token.kind, TokenKind::FloatDivide);

    let token = lexer.get_next_token().unwrap();
    assert_eq!(token.kind, TokenKind::LParen);

    let token = lexer.get_next_token().unwrap();
    assert_eq!(token.kind, TokenKind::Integer);

    let token = lexer.get_next_token().unwrap();
    assert_eq!(token.kind, TokenKind::Plus);

    let token = lexer.get_next_token().unwrap();
    assert_eq!(token.kind, TokenKind::Integer);

    let token = lexer.get_next_token().unwrap();
    assert_eq!(token.kind, TokenKind::RParen);

    let token = lexer.get_next_token().unwrap();
    assert_eq!(token.kind, TokenKind::Minus);

    let token = lexer.get_next_token().unwrap();
    assert_eq!(token.kind, TokenKind::Integer);

    let token = lexer.get_next_token().unwrap();
    assert_eq!(token.kind, TokenKind::RParen);

    let token = lexer.get_next_token().unwrap();
    assert_eq!(token.kind, TokenKind::RParen);

    let token = lexer.get_next_token().unwrap();
    assert_eq!(token.kind, TokenKind::EOF);
}

#[test]
fn lexer_test_with_program() {
    let mut lexer = Lexer::new("PROGRAM Part10; VAR Integer : INTEGER;".to_string());
    let token = lexer.get_next_token().unwrap();
    assert_eq!(token.kind, TokenKind::Program);

    let token = lexer.get_next_token().unwrap();
    assert_eq!(token.kind, TokenKind::Identifier);

    let token = lexer.get_next_token().unwrap();
    assert_eq!(token.kind, TokenKind::Semi);

    let token = lexer.get_next_token().unwrap();
    assert_eq!(token.kind, TokenKind::Var);

    let token = lexer.get_next_token().unwrap();
    assert_eq!(token.kind, TokenKind::Identifier);

    let token = lexer.get_next_token().unwrap();
    assert_eq!(token.kind, TokenKind::Colon);

    let token = lexer.get_next_token().unwrap();
    assert_eq!(token.kind, TokenKind::Integer);

    let token = lexer.get_next_token().unwrap();
    assert_eq!(token.kind, TokenKind::Semi);

    let token = lexer.get_next_token().unwrap();
    assert_eq!(token.kind, TokenKind::EOF);
}

#[test]
fn test_eof_is_idempotent() {
    let mut lexer = Lexer::new("7".to_string());
    let token = lexer.get_next_token().unwrap();
    assert_eq!(token.kind, TokenKind::Integer);
    for _ in 0..5 {
        let token = lexer.get_next_token().unwrap();
        assert_eq!(token.kind, TokenKind::EOF);
    }
}

#[test]
fn test_empty_input_yields_eof() {
    let mut lexer = Lexer::new(String::new());
    let token = lexer.get_next_token().unwrap();
    assert_eq!(token.kind, TokenKind::EOF);
    let token = lexer.get_next_token().unwrap();
    assert_eq!(token.kind, TokenKind::EOF);
}

#[test]
fn test_unrecognized_character() {
    let mut lexer = Lexer::new("3 $ 5".to_string());
    let token = lexer.get_next_token().unwrap();
    assert_eq!(token.kind, TokenKind::Integer);
    let err = lexer.get_next_token().unwrap_err();
    match err {
        LexicalError::Unrecognized(c, p) => {
            assert_eq!(c, '$');
            assert_eq!(p, 2);
        },
        _ => panic!("wrong lexical error"),
    }
}

#[test]
fn test_comment_is_skipped() {
    let mut lexer = Lexer::new("3 {a comment} + 4".to_string());
    assert_eq!(lexer.get_next_token().unwrap().kind, TokenKind::Integer);
    assert_eq!(lexer.get_next_token().unwrap().kind, TokenKind::Plus);
    assert_eq!(lexer.get_next_token().unwrap().kind, TokenKind::Integer);
    assert_eq!(lexer.get_next_token().unwrap().kind, TokenKind::EOF);
}

#[test]
fn test_unterminated_comment() {
    let mut lexer = Lexer::new("3 {never closed".to_string());
    assert_eq!(lexer.get_next_token().unwrap().kind, TokenKind::Integer);
    let err = lexer.get_next_token().unwrap_err();
    assert!(matches!(err, LexicalError::Unterminated(_)));
}

#[test]
fn test_integer_literal_too_large() {
    let mut lexer = Lexer::new("99999999999".to_string());
    let err = lexer.get_next_token().unwrap_err();
    assert!(matches!(err, LexicalError::NumberTooLarge(0)));
}

#[test]
fn test_real_literal_value() {
    let mut lexer = Lexer::new("3.14".to_string());
    let token = lexer.get_next_token().unwrap();
    assert_eq!(token.kind, TokenKind::Real);
    match token.value {
        TokenValue::Real(r) => {
            // 3.14 = 157/50 in lowest terms
            assert_eq!(r.num(), 157);
            assert_eq!(r.den(), 50);
        },
        _ => panic!("expected a real payload"),
    }
}

#[test]
fn test_assign_and_colon_tokens() {
    let mut lexer = Lexer::new("a := 1; b : INTEGER".to_string());
    assert_eq!(lexer.get_next_token().unwrap().kind, TokenKind::Identifier);
    assert_eq!(lexer.get_next_token().unwrap().kind, TokenKind::Assign);
    assert_eq!(lexer.get_next_token().unwrap().kind, TokenKind::Integer);
    assert_eq!(lexer.get_next_token().unwrap().kind, TokenKind::Semi);
    assert_eq!(lexer.get_next_token().unwrap().kind, TokenKind::Identifier);
    assert_eq!(lexer.get_next_token().unwrap().kind, TokenKind::Colon);
    assert_eq!(lexer.get_next_token().unwrap().kind, TokenKind::Integer);
    assert_eq!(lexer.get_next_token().unwrap().kind, TokenKind::EOF);
}

#[test]
fn test_cursor_helpers() {
    let mut lexer = Lexer::new("  {c} 42".to_string());
    lexer.skip_whitespace();
    // the cursor now stands on the comment brace
    assert_eq!(lexer.peek(), Some('c'));
    lexer.advance();
    assert!(lexer.skip_comment());
    let token = lexer.get_next_token().unwrap();
    assert_eq!(token.kind, TokenKind::Integer);
    match token.value {
        TokenValue::Int(v) => assert_eq!(v, 42),
        _ => panic!("expected an integer payload"),
    }

    let mut open_ended = Lexer::new("never closed".to_string());
    assert!(!open_ended.skip_comment());
}
