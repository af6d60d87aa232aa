//! End-to-end tests through parsing, evaluation and rendering.

use apecrunch::op_engine;
use apecrunch::parser;
use apecrunch::session::Session;

#[test]
fn test_two_plus_two() {
    let user_string = "2+2";
    let expected_result = "2 + 2 = 4";
    let mut session = Session::new();

    let tokens = parser::parse_str(user_string, &mut session).unwrap();

    session.decimal_places = 0;

    let result = op_engine::get_equality(&tokens, &mut session).unwrap();

    assert_eq!(result.to_string(&session), expected_result);
}

#[test]
fn test_order_of_ops() {
    let user_string = "1+2*3-4/-5^(6+7)";
    let expected_result = "1 + 2 * 3 - 4 / -5^( 6 + 7 ) = 7.0000000032768";
    let mut session = Session::new();

    let tokens = parser::parse_str(user_string, &mut session).unwrap();

    session.decimal_places = 13;

    let result = op_engine::get_equality(&tokens, &mut session).unwrap();

    assert_eq!(result.to_string(&session), expected_result);
}

#[test]
fn test_roots() {
    let user_string1 = "16^0.5";
    let expected_result1 = "16^0.5 = 4";
    let user_string2 = "999999999^(2/3)";
    let expected_result2 = "999999999^( 2 / 3 ) = 999999.999333333333222222222172839506...";
    let mut session = Session::new();

    let tokens1 = parser::parse_str(user_string1, &mut session).unwrap();

    session.decimal_places = 1;

    let result1 = op_engine::get_equality(&tokens1, &mut session).unwrap();

    let tokens2 = parser::parse_str(user_string2, &mut session).unwrap();

    session.decimal_places = 30;

    let result2 = op_engine::get_equality(&tokens2, &mut session).unwrap();

    assert_eq!(result1.to_string(&session), expected_result1);
    assert_eq!(result2.to_string(&session), expected_result2);
}
