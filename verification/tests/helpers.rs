use pseudocu::ast::{Expr, Operator};
use pseudocu::environment::{precedes, same_name, Environment};
use pseudocu::interpreter::{apply_operator, RuntimeError};
use pseudocu::lexer::{Token, TokenType};
use pseudocu::text::{chars_of, format_i64, push_decimal, string_of};

#[test]
fn chars_of_gives_every_character() {
    assert_eq!(chars_of(""), Vec::<char>::new());
    assert_eq!(chars_of("a=1"), vec!['a', '=', '1']);
    assert_eq!(chars_of("é\n€x"), vec!['é', '\n', '€', 'x']);
}

#[test]
fn string_of_copies_the_range() {
    let chars = vec!['a', 'b', 'c', 'd'];
    assert_eq!(string_of(&chars, 1, 3), "bc");
    assert_eq!(string_of(&chars, 0, 4), "abcd");
    assert_eq!(string_of(&chars, 2, 2), "");
}

#[test]
fn format_i64_writes_decimal_numerals() {
    assert_eq!(format_i64(0), "0");
    assert_eq!(format_i64(9), "9");
    assert_eq!(format_i64(10), "10");
    assert_eq!(format_i64(-1), "-1");
    assert_eq!(format_i64(1234567890), "1234567890");
    assert_eq!(format_i64(i64::MAX), i64::MAX.to_string());
    assert_eq!(format_i64(i64::MIN), i64::MIN.to_string());
}

#[test]
fn push_decimal_appends() {
    let mut text = "line ".to_string();
    push_decimal(&mut text, 305);
    assert_eq!(text, "line 305");
    push_decimal(&mut text, u64::MAX);
    assert_eq!(text, format!("line 305{}", u64::MAX));
}

#[test]
fn names_are_ordered_as_strings_are() {
    let names = ["", "a", "A", "ab", "b", "_", "a1", "z9", "é", "e", "€", "zz", "a_b"];
    for a in names {
        for b in names {
            assert_eq!(precedes(a, b), a < b, "{:?} {:?}", a, b);
            assert_eq!(same_name(a, b), a == b, "{:?} {:?}", a, b);
        }
    }
}

#[test]
fn environment_binds_and_overwrites() {
    let mut env = Environment::new();
    assert_eq!(env.get("x"), None);
    assert!(env.list().is_empty());
    env.insert("x".to_string(), 1);
    env.insert("a".to_string(), 2);
    env.insert("m".to_string(), 3);
    assert_eq!(env.get("x"), Some(1));
    assert_eq!(env.get("a"), Some(2));
    assert_eq!(env.get("m"), Some(3));
    assert_eq!(env.get("b"), None);
    assert_eq!(env.get(""), None);
    env.insert("m".to_string(), -3);
    assert_eq!(env.get("m"), Some(-3));
    assert_eq!(
        env.list(),
        vec![("a".to_string(), 2), ("m".to_string(), -3), ("x".to_string(), 1)]
    );
}

#[test]
fn apply_operator_gives_each_operation() {
    assert_eq!(apply_operator(Operator::Plus, 2, 3), Ok(5));
    assert_eq!(apply_operator(Operator::Minus, 2, 3), Ok(-1));
    assert_eq!(apply_operator(Operator::Multiply, -2, 3), Ok(-6));
    assert_eq!(apply_operator(Operator::Divide, 9, 2), Ok(4));
    assert_eq!(apply_operator(Operator::Divide, -9, 2), Ok(-4));
    assert_eq!(apply_operator(Operator::Divide, 9, 0), Err(RuntimeError::DivisionByZero));
    assert_eq!(apply_operator(Operator::Divide, 0, 0), Err(RuntimeError::DivisionByZero));
    assert_eq!(apply_operator(Operator::Divide, i64::MIN, -1), Ok(i64::MIN));
    assert_eq!(apply_operator(Operator::Plus, i64::MAX, 1), Ok(i64::MIN));
    assert_eq!(apply_operator(Operator::Minus, i64::MIN, 1), Ok(i64::MAX));
    assert_eq!(apply_operator(Operator::Multiply, i64::MAX, i64::MAX), Ok(1));
    assert_eq!(apply_operator(Operator::Eq, 1, 1), Ok(1));
    assert_eq!(apply_operator(Operator::NotEq, 1, 1), Ok(0));
    assert_eq!(apply_operator(Operator::Gt, -1, -2), Ok(1));
    assert_eq!(apply_operator(Operator::Lt, -1, -2), Ok(0));
    assert_eq!(apply_operator(Operator::GtEq, 2, 2), Ok(1));
    assert_eq!(apply_operator(Operator::LtEq, 3, 2), Ok(0));
}

#[test]
fn clone_equals_what_was_cloned() {
    let expr = Expr::BinaryOp {
        left: Box::new(Expr::Identifier("x".to_string())),
        operator: Operator::Plus,
        right: Box::new(Expr::Number(5)),
    };
    assert_eq!(expr.clone(), expr);
    let token = Token { token_type: TokenType::Ident("x".to_string()), literal: "x".to_string(), line: 3 };
    assert_eq!(token.clone(), token);
}

#[test]
fn token_text_is_what_was_written() {
    assert_eq!(TokenType::Number(12).text(), "12");
    assert_eq!(TokenType::Ident("abc".to_string()).text(), "abc");
    assert_eq!(TokenType::GtEq.text(), ">=");
    assert_eq!(TokenType::NotEq.text(), "!=");
    assert_eq!(TokenType::EOF.text(), "end of input");
}
