//! Evaluator folding tests.

use apecrunch::op_engine::simplify;
use apecrunch::parser;
use apecrunch::session::Session;
use apecrunch::token::Token;

const TWO: &str = "2";
const TWOPTWO: &str = "2 + 2";
const TWOSTWO: &str = "2 - 2";
const TWOMTWO: &str = "2 * 2";
const TWODTWO: &str = "2 / 2";
const TWOETWO: &str = "2^2";
const TWOQTWO: &str = "2 = 2";
const TWOSTORE: &str = "2 -> x";
const TWORET: &str = "x";

const TWOPTWO_R: &str = "4";
const TWOSTWO_R: &str = "0";
const TWOMTWO_R: &str = "4";
const TWODTWO_R: &str = "1";
const TWOETWO_R: &str = "4";
const TWOQTWO_R: &str = "true";
const TWOSTORE_R: &str = "2";
const TWORET_R: &str = "2";

// Test basic single number expression operation
#[test]
fn test_op_engine_sneo() {
    let mut session = Session::new();
    let tokenized_expression = parser::parse_str(TWO, &mut session).unwrap();

    if let Token::Number(num) = simplify(&tokenized_expression, &mut session).unwrap() {
        // Assert that the right of the operation is what we expect
        assert_eq!(num.to_string(6), TWO);
    } else {
        panic!("Didn't return number token!");
    }
}

// Test addition
#[test]
fn test_op_engine_add() {
    let mut session = Session::new();
    let tokenized_expression = parser::parse_str(TWOPTWO, &mut session).unwrap();

    if let Token::Number(num) = simplify(&tokenized_expression, &mut session).unwrap() {
        // Assert that the right of the operation is what we expect
        assert_eq!(num.to_string(6), TWOPTWO_R);
    } else {
        panic!("Didn't return number token!");
    }
}

// Test subtraction
#[test]
fn test_op_engine_sub() {
    let mut session = Session::new();
    let tokenized_expression = parser::parse_str(TWOSTWO, &mut session).unwrap();

    if let Token::Number(num) = simplify(&tokenized_expression, &mut session).unwrap() {
        // Assert that the right of the operation is what we expect
        assert_eq!(num.to_string(6), TWOSTWO_R);
    } else {
        panic!("Didn't return number token!");
    }
}

// Test multiplication
#[test]
fn test_op_engine_mul() {
    let mut session = Session::new();
    let tokenized_expression = parser::parse_str(TWOMTWO, &mut session).unwrap();

    if let Token::Number(num) = simplify(&tokenized_expression, &mut session).unwrap() {
        // Assert that the right of the operation is what we expect
        assert_eq!(num.to_string(6), TWOMTWO_R);
    } else {
        panic!("Didn't return number token!");
    }
}

// Test division
#[test]
fn test_op_engine_div() {
    let mut session = Session::new();
    let tokenized_expression = parser::parse_str(TWODTWO, &mut session).unwrap();

    if let Token::Number(num) = simplify(&tokenized_expression, &mut session).unwrap() {
        // Assert that the right of the operation is what we expect
        assert_eq!(num.to_string(6), TWODTWO_R);
    } else {
        panic!("Didn't return number token!");
    }
}

// Test exponentation
#[test]
fn test_op_engine_exp() {
    let mut session = Session::new();
    let tokenized_expression = parser::parse_str(TWOETWO, &mut session).unwrap();

    if let Token::Number(num) = simplify(&tokenized_expression, &mut session).unwrap() {
        // Assert that the right of the operation is what we expect
        assert_eq!(num.to_string(6), TWOETWO_R);
    } else {
        panic!("Didn't return number token!");
    }
}

// Test equality
#[test]
fn test_op_engine_eql() {
    let mut session = Session::new();
    let tokenized_expression = parser::parse_str(TWOQTWO, &mut session).unwrap();

    if let Token::Boolean(num) = simplify(&tokenized_expression, &mut session).unwrap() {
        // Assert that the right of the operation is what we expect
        assert_eq!(num.to_string(), TWOQTWO_R);
    } else {
        panic!("Didn't return number token!");
    }
}

// Test storing
#[test]
fn test_op_engine_store_retrieve() {
    let mut session = Session::new();
    let tokenized_expression = parser::parse_str(TWOSTORE, &mut session).unwrap();

    if let Token::Number(num) = simplify(&tokenized_expression, &mut session).unwrap() {
        // Assert that the right of the operation is what we expect
        assert_eq!(num.to_string(6), TWOSTORE_R);
    } else {
        panic!("Didn't return number token!");
    }

    let tokenized_expression = parser::parse_str(TWORET, &mut session).unwrap();

    if let Token::Number(num) = simplify(&tokenized_expression, &mut session).unwrap() {
        // Assert that the right of the operation is what we expect
        assert_eq!(num.to_string(6), TWORET_R);
    } else {
        panic!("Didn't return number token!");
    }
}
