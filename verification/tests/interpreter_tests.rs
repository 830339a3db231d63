use pascal_interpreter::ast::{AstNode, AstType};
use pascal_interpreter::interpreter::Interpreter;
use pascal_interpreter::interpreter::kind::InterpreterType;
use pascal_interpreter::lexer::Lexer;
use pascal_interpreter::parser::Parser;
use pascal_interpreter::rational::Rational;
use pascal_interpreter::token::{Token, TokenKind, TokenValue};

fn interpreter_for(text: &str) -> Interpreter {
    let lexer = Lexer::new(text.to_string());
    let parser = Parser::new(lexer);
    Interpreter::new(parser)
}

fn as_f64(v: &InterpreterType) -> f64 {
    match v {
        InterpreterType::Integer(i) => *i as f64,
        InterpreterType::Real(r) => r.num() as f64 / r.den() as f64,
    }
}

#[test]
fn mod_test_sum() {
    let mut interpreter = interpreter_for("3+1");
    assert_eq!(as_f64(&interpreter.interpret().unwrap()), 4.0)
}

#[test]
fn mod_test_sum_with_many_digits() {
    let mut interpreter = interpreter_for("123+456");
    assert_eq!(as_f64(&interpreter.interpret().unwrap()), 579.0)
}

#[test]
fn mod_test_sum_with_spaces() {
    let mut interpreter = interpreter_for(" 3 + 1");
    assert_eq!(as_f64(&interpreter.interpret().unwrap()), 4.0)
}

#[test]
fn mod_test_sum_with_many_spaces() {
    let mut interpreter = interpreter_for("  3   +  1");
    assert_eq!(as_f64(&interpreter.interpret().unwrap()), 4.0)
}

#[test]
fn mod_test_subtraction() {
    let mut interpreter = interpreter_for("3-1");
    assert_eq!(as_f64(&interpreter.interpret().unwrap()), 2.0)
}

#[test]
fn mod_test_subtraction_with_many_digits() {
    let mut interpreter = interpreter_for("123-456");
    assert_eq!(as_f64(&interpreter.interpret().unwrap()), -333.0)
}

#[test]
fn mod_test_subtraction_with_spaces() {
    let mut interpreter = interpreter_for(" 3 - 1");
    assert_eq!(as_f64(&interpreter.interpret().unwrap()), 2.0)
}

#[test]
fn mod_test_subtraction_with_many_spaces() {
    let mut interpreter = interpreter_for("  3   -  1");
    assert_eq!(as_f64(&interpreter.interpret().unwrap()), 2.0)
}

#[test]
fn mod_test_sum_and_subtraction() {
    let mut interpreter = interpreter_for("3+1-1");
    assert_eq!(as_f64(&interpreter.interpret().unwrap()), 3.0)
}

#[test]
fn mod_test_sum_and_subtraction_with_many_digits() {
    let mut interpreter = interpreter_for("123+456-1");
    assert_eq!(as_f64(&interpreter.interpret().unwrap()), 578.0)
}

#[test]
fn mod_test_sum_and_subtraction_with_spaces() {
    let mut interpreter = interpreter_for(" 3 + 1 - 1");
    assert_eq!(as_f64(&interpreter.interpret().unwrap()), 3.0)
}

#[test]
fn mod_test_multiplication() {
    let mut interpreter = interpreter_for("3*2");
    assert_eq!(as_f64(&interpreter.interpret().unwrap()), 6.0)
}

#[test]
fn mod_test_multiplication_with_many_digits() {
    let mut interpreter = interpreter_for("123*456");
    assert_eq!(as_f64(&interpreter.interpret().unwrap()), 56_088.0)
}

#[test]
fn mod_test_multiplication_with_spaces() {
    let mut interpreter = interpreter_for(" 3 * 2");
    assert_eq!(as_f64(&interpreter.interpret().unwrap()), 6.0)
}

#[test]
fn mod_test_multiplication_with_many_spaces() {
    let mut interpreter = interpreter_for("  3   *  2");
    assert_eq!(as_f64(&interpreter.interpret().unwrap()), 6.0)
}

#[test]
fn mod_test_division() {
    let mut interpreter = interpreter_for("3 DIV 2");
    assert_eq!(as_f64(&interpreter.interpret().unwrap()), 1.0)
}

#[test]
fn mod_test_sum_and_multiplication() {
    let mut interpreter = interpreter_for("3+1*2");
    assert_eq!(as_f64(&interpreter.interpret().unwrap()), 5.0)
}

#[test]
fn mod_test_sum_and_multiplication_with_many_digits() {
    let mut interpreter = interpreter_for("123+456*2");
    assert_eq!(as_f64(&interpreter.interpret().unwrap()), 1_035.0)
}

#[test]
fn mod_test_sum_multiplication_and_subtraction_and_division_using_parentheses() {
    let mut interpreter = interpreter_for("7 + 3 * (10.0 / (12 / (3 + 1) - 1))");
    assert_eq!(as_f64(&interpreter.interpret().unwrap()), 22.0)
}

#[test]
fn mod_test_unary_operations() {
    let mut interpreter = interpreter_for("5 - - - + - (3 + 4) - +2");
    assert_eq!(as_f64(&interpreter.interpret().unwrap()), 10.0)
}

#[test]
fn mod_test_assignment() {
    let mut interpreter = interpreter_for("BEGIN a := 5; END.");
    assert_eq!(as_f64(&interpreter.interpret().unwrap()), 0.0);
    match interpreter.get("a").unwrap() {
        InterpreterType::Integer(i) => assert_eq!(i, 5),
        _ => panic!("expected an integer"),
    }
}

#[test]
fn mod_test_with_program() {
    let string = "
            PROGRAM Part10;
            VAR
               x, y, z : INTEGER;
            BEGIN {Part10}
               BEGIN
                   x := 5;
                   y := x + 10;
                   z := y DIV 3;
               END;
            END.  ";
    let mut interpreter = interpreter_for(string);
    assert_eq!(as_f64(&interpreter.interpret().unwrap()), 0.0);
    assert_eq!(as_f64(&interpreter.get("x").unwrap()), 5.0);
    assert_eq!(as_f64(&interpreter.get("y").unwrap()), 15.0);
    assert_eq!(as_f64(&interpreter.get("z").unwrap()), 5.0)
}

#[test]
fn test_subtraction_is_left_associative() {
    let mut interpreter = interpreter_for("10 - 3 - 2");
    assert_eq!(as_f64(&interpreter.interpret().unwrap()), 5.0)
}

#[test]
fn test_parentheses_override_precedence() {
    let mut interpreter = interpreter_for("(3 + 5) * 2");
    assert_eq!(as_f64(&interpreter.interpret().unwrap()), 16.0)
}

#[test]
fn test_float_division_promotes_to_real() {
    let mut interpreter = interpreter_for("3 / 2");
    match interpreter.interpret().unwrap() {
        InterpreterType::Real(r) => {
            assert_eq!(r.num(), 3);
            assert_eq!(r.den(), 2);
            assert_eq!(r.num() as f64 / r.den() as f64, 1.5);
        },
        _ => panic!("expected a real result"),
    }
}

#[test]
fn test_integer_division_stays_integer() {
    let mut interpreter = interpreter_for("3 DIV 2");
    match interpreter.interpret().unwrap() {
        InterpreterType::Integer(i) => assert_eq!(i, 1),
        _ => panic!("expected an integer result"),
    }
}

#[test]
fn test_integer_division_truncates_toward_zero() {
    let mut interpreter = interpreter_for("(0 - 7) DIV 2");
    match interpreter.interpret().unwrap() {
        InterpreterType::Integer(i) => assert_eq!(i, -3),
        _ => panic!("expected an integer result"),
    }
}

#[test]
fn test_mixed_addition_promotes() {
    let mut interpreter = interpreter_for("1 + 0.5");
    match interpreter.interpret().unwrap() {
        InterpreterType::Real(r) => {
            assert_eq!(r.num(), 3);
            assert_eq!(r.den(), 2);
        },
        _ => panic!("expected a real result"),
    }
}

#[test]
fn test_undeclared_variable_fails() {
    let mut interpreter = interpreter_for("x + 1");
    assert_eq!(interpreter.interpret().unwrap_err(), "Variable not found");
}

#[test]
fn test_float_division_by_zero_fails() {
    let mut interpreter = interpreter_for("3 / 0");
    assert_eq!(interpreter.interpret().unwrap_err(), "Division by zero");
}

#[test]
fn test_integer_division_by_zero_fails() {
    let mut interpreter = interpreter_for("3 DIV 0");
    assert_eq!(interpreter.interpret().unwrap_err(), "Division by zero");
}

#[test]
fn test_integer_overflow_fails() {
    let mut interpreter = interpreter_for("2000000000 + 2000000000");
    assert_eq!(interpreter.interpret().unwrap_err(), "Arithmetic overflow");
}

#[test]
fn test_lexical_error_reaches_interpreter() {
    let mut interpreter = interpreter_for("3 $ 5");
    assert!(interpreter.interpret().is_err());
}

#[test]
fn test_visit_rejects_a_misplaced_operator_token() {
    let mut interpreter = interpreter_for("");
    let node = AstNode::BinaryOp(
        Box::new(AstNode::Num(AstType::Integer(1))),
        Box::new(AstNode::Num(AstType::Integer(2))),
        Token::new(TokenKind::Semi, TokenValue::Str(";".to_string())),
    );
    let err = interpreter.visit(&node).unwrap_err();
    assert_eq!(err.message, "Invalid token");
}

#[test]
fn test_environment_persists_after_partial_failure() {
    let mut interpreter = interpreter_for("BEGIN a := 2; b := a DIV 0; END.");
    assert!(interpreter.interpret().is_err());
    match interpreter.get("a").unwrap() {
        InterpreterType::Integer(i) => assert_eq!(i, 2),
        _ => panic!("expected an integer"),
    }
    assert!(interpreter.get("b").is_none());
}

#[test]
fn test_rational_constructor_reduces() {
    let r = Rational::new(6, 4).unwrap();
    assert_eq!(r.num(), 3);
    assert_eq!(r.den(), 2);
    let r = Rational::new(5, -10).unwrap();
    assert_eq!(r.num(), -1);
    assert_eq!(r.den(), 2);
    assert!(Rational::new(1, 0).is_none());
}
