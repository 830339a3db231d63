use pascal_interpreter::token::{Token, TokenKind, TokenValue, lookup_keyword};

#[test]
fn test_token() {
    let token = Token::new(TokenKind::Integer, TokenValue::Str("3".to_string()));
    assert_eq!(token.kind, TokenKind::Integer);
    match token.value {
        TokenValue::Str(s) => assert_eq!(s, "3"),
        _ => panic!("Invalid token value"),
    }
}

#[test]
fn test_keyword_lookup() {
    assert_eq!(lookup_keyword("BEGIN"), TokenKind::Begin);
    assert_eq!(lookup_keyword("END"), TokenKind::End);
    assert_eq!(lookup_keyword("PROGRAM"), TokenKind::Program);
    assert_eq!(lookup_keyword("VAR"), TokenKind::Var);
    assert_eq!(lookup_keyword("REAL"), TokenKind::Real);
    assert_eq!(lookup_keyword("INTEGER"), TokenKind::Integer);
    assert_eq!(lookup_keyword("DIV"), TokenKind::IntegerDivide);
    assert_eq!(lookup_keyword("begin"), TokenKind::Identifier);
    assert_eq!(lookup_keyword("Div"), TokenKind::Identifier);
    assert_eq!(lookup_keyword("x"), TokenKind::Identifier);
}
