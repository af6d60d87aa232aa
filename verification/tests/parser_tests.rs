//! Parser recognition tests.

use apecrunch::number::Number;
use apecrunch::parser;
use apecrunch::session::Session;
use apecrunch::token::Token;
use apecrunch::variable::Variable;

const TWO: &str = "2";
const X: &str = "x";
const TWOPTWO: &str = "2 + 2";
const TWOSTWO: &str = "2 - 2";
const TWOMTWO: &str = "2 * 2";
const TWODTWO: &str = "2 / 2";
const TWOETWO: &str = "2^2";
const TWOQTWO: &str = "2 = 2";

// Test to make sure the parser can recognize numbers
#[test]
fn test_parser_num() {
    let tokenized_expression_ref = Token::Number(Number::from_str(TWO).unwrap());
    let mut session = Session::new();

    let tokenized_expression_res = parser::parse_str(TWO, &mut session).unwrap();

    // Make sure the reference is equal to the result
    assert_eq!(tokenized_expression_ref, tokenized_expression_res);
}

// Test to make sure the parser can recognize variables
#[test]
fn test_parser_var() {
    let tokenized_expression_ref = Token::Variable(Box::new(Variable::new(
        "x",
        Token::Number(Number::neg_one()),
    )));
    let varvalue = Token::Number(Number::neg_one());

    let mut session = Session::new();

    let variable = Variable::new("x", varvalue);

    session.vartable.add(variable).unwrap();

    let tokenized_expression_res = parser::parse_str(X, &mut session).unwrap();

    // Make sure the reference is equal to the result
    assert_eq!(tokenized_expression_ref, tokenized_expression_res);
}

// Test to make sure the parser can reject bad variable names
#[test]
fn test_parser_var_name_check() {
    let mut session = Session::new();

    let order_of_ops = ["->", "=", "-", "+", "/", "*", "\x26", "^", "@"];

    for opcode in order_of_ops {
        let bad_variable: String = format!("2->foo{}bar", opcode);

        parser::parse_str(&bad_variable, &mut session).unwrap_err();
    }
}

// Test to make sure the parser can recognize add operations
#[test]
fn test_parser_add() {
    let expression = TWOPTWO;
    let mut session = Session::new();

    let tokenized_expression_ref = Token::Add(
        Box::new(Token::Number(Number::from_str(TWO).unwrap())),
        Box::new(Token::Number(Number::from_str(TWO).unwrap())),
    );

    let tokenized_expression_res = parser::parse_str(expression, &mut session).unwrap();

    // Make sure the reference is equal to the result
    assert_eq!(tokenized_expression_ref, tokenized_expression_res);
}

// Test to make sure the parser can recognize add operations
#[test]
fn test_parser_sub() {
    let expression = TWOSTWO;
    let mut session = Session::new();

    let tokenized_expression_ref = Token::Subtract(
        Box::new(Token::Number(Number::from_str(TWO).unwrap())),
        Box::new(Token::Number(Number::from_str(TWO).unwrap())),
    );

    let tokenized_expression_res = parser::parse_str(expression, &mut session).unwrap();

    // Make sure the reference is equal to the result
    assert_eq!(tokenized_expression_ref, tokenized_expression_res);
}

// Test to make sure the parser can recognize subtraction operations
#[test]
fn test_parser_mul() {
    let expression = TWOMTWO;
    let mut session = Session::new();

    let tokenized_expression_ref = Token::Multiply(
        Box::new(Token::Number(Number::from_str(TWO).unwrap())),
        Box::new(Token::Number(Number::from_str(TWO).unwrap())),
    );

    let tokenized_expression_res = parser::parse_str(expression, &mut session).unwrap();

    // Make sure the reference is equal to the result
    assert_eq!(tokenized_expression_ref, tokenized_expression_res);
}

// Test to make sure the parser can recognize division operations
#[test]
fn test_parser_div() {
    let expression = TWODTWO;
    let mut session = Session::new();

    let tokenized_expression_ref = Token::Divide(
        Box::new(Token::Number(Number::from_str(TWO).unwrap())),
        Box::new(Token::Number(Number::from_str(TWO).unwrap())),
    );

    let tokenized_expression_res = parser::parse_str(expression, &mut session).unwrap();

    // Make sure the reference is equal to the result
    assert_eq!(tokenized_expression_ref, tokenized_expression_res);
}

// Test to make sure the parser can recognize exponent operations
#[test]
fn test_parser_exp() {
    let expression = TWOETWO;
    let mut session = Session::new();

    let tokenized_expression_ref = Token::Exponent(
        Box::new(Token::Number(Number::from_str(TWO).unwrap())),
        Box::new(Token::Number(Number::from_str(TWO).unwrap())),
    );

    let tokenized_expression_res = parser::parse_str(expression, &mut session).unwrap();

    // Make sure the reference is equal to the result
    assert_eq!(tokenized_expression_ref, tokenized_expression_res);
}

// Test to make sure the parser can recognize equality operations
#[test]
fn test_parser_eql() {
    let expression = TWOQTWO;
    let mut session = Session::new();

    let tokenized_expression_ref = Token::Equality(
        Box::new(Token::Number(Number::from_str(TWO).unwrap())),
        Box::new(Token::Number(Number::from_str(TWO).unwrap())),
    );

    let tokenized_expression_res = parser::parse_str(expression, &mut session).unwrap();

    // Make sure the reference is equal to the result
    assert_eq!(tokenized_expression_ref, tokenized_expression_res);
}
