use pascal_interpreter::lexer::Lexer;
use pascal_interpreter::parser::Parser;

#[test]
fn test_parser() {
    let lexer = Lexer::new("3 + 5 * 2".to_string());
    let mut parser = Parser::new(lexer);
    let result = parser.parse();
    assert!(result.is_ok());
}

#[test]
fn test_parser_with_parentheses() {
    let lexer = Lexer::new("(3 + 5) * 2".to_string());
    let mut parser = Parser::new(lexer);
    let result = parser.parse();
    assert!(result.is_ok());
}

#[test]
fn test_parser_with_invalid_syntax() {
    let lexer = Lexer::new("3 +".to_string());
    let mut parser = Parser::new(lexer);
    let result = parser.parse();
    assert!(result.is_err());
}

#[test]
fn test_parser_with_unary_operator() {
    let lexer = Lexer::new("-3 + 5".to_string());
    let mut parser = Parser::new(lexer);
    let result = parser.parse();
    assert!(result.is_ok());
}

#[test]
fn test_parser_with_assignment() {
    let lexer = Lexer::new("BEGIN a := 5; END.".to_string());
    let mut parser = Parser::new(lexer);
    let result = parser.parse();
    assert!(result.is_ok());
}

#[test]
fn test_parser_with_program() {
    let lexer = Lexer::new(
        "PROGRAM Part10; VAR number : INTEGER; a, b : INTEGER; y : REAL; BEGIN END."
            .to_string(),
    );
    let mut parser = Parser::new(lexer);
    let result = parser.parse();
    assert!(result.is_ok());
}

#[test]
fn test_parse_with_program_and_more_declarations() {
    let string = "
PROGRAM Part10;
VAR
   x, y, z : INTEGER;
BEGIN {Part10}
   BEGIN
   x := 5;
   y := x + 10;
   z := y DIV 3;
   END;
END.  "
        .to_string();
    let lexer = Lexer::new(string);
    let mut parser = Parser::new(lexer);
    let result = parser.parse();
    assert!(result.is_ok());
}

#[test]
fn test_parser_with_empty_input() {
    let lexer = Lexer::new(String::new());
    let mut parser = Parser::new(lexer);
    let result = parser.parse();
    assert!(result.is_err());
}

#[test]
fn test_parser_with_trailing_operator_inside_parens() {
    let lexer = Lexer::new("(3 + )".to_string());
    let mut parser = Parser::new(lexer);
    let result = parser.parse();
    assert!(result.is_err());
}

#[test]
fn test_parser_with_lexical_error() {
    let lexer = Lexer::new("3 $ 5".to_string());
    let mut parser = Parser::new(lexer);
    let result = parser.parse();
    assert!(result.is_err());
}
