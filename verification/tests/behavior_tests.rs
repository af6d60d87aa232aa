//! Tests for the stated behaviours: rendering round-trips, fold
//! idempotence, precision-loss marking, error variants, and the answer
//! history.

use apecrunch::errors::ParseError;
use apecrunch::number::Number;
use apecrunch::op_engine;
use apecrunch::parser;
use apecrunch::session::{AnswerId, HistoryEntry, Session};
use apecrunch::token::Token;
use apecrunch::variable::{VarTable, Variable};

// A decimal literal with no superfluous digits renders back to itself when
// the precision covers its fractional digits.
#[test]
fn test_literal_render_round_trip() {
    for s in ["0", "1", "42", "0.5", "12.25", "999999999", "0.125"] {
        let n = Number::from_str(s).unwrap();
        assert_eq!(n.to_string(9), s);
    }
}

// Evaluating, re-parsing the rendered result, and evaluating again yields
// the same numeric leaf.
#[test]
fn test_fold_reparse_idempotent() {
    let mut session = Session::new();
    let tokens = parser::parse_str("1+2*3-4/8", &mut session).unwrap();
    let first = op_engine::simplify(&tokens, &mut session).unwrap();
    let rendered = first.to_string(&session);
    assert_eq!(rendered, "6.5");

    let tokens2 = parser::parse_str(&rendered, &mut session).unwrap();
    let second = op_engine::simplify(&tokens2, &mut session).unwrap();
    assert_eq!(first, second);
}

// A negative fold renders with a sign, reparses through a unary-negative
// node, and evaluates back to the same number.
#[test]
fn test_fold_reparse_negative() {
    let mut session = Session::new();
    let tokens = parser::parse_str("1-2*3", &mut session).unwrap();
    let first = op_engine::simplify(&tokens, &mut session).unwrap();
    let rendered = first.to_string(&session);
    assert_eq!(rendered, "-5");

    let tokens2 = parser::parse_str(&rendered, &mut session).unwrap();
    let second = op_engine::simplify(&tokens2, &mut session).unwrap();
    assert_eq!(first, second);
}

// A value with more digits than the precision shows gets the ellipsis
// marker; an exact value does not.
#[test]
fn test_precision_loss_marker() {
    let third = Number::from_str("1/3").unwrap();
    assert_eq!(third.to_string(6), "0.333333...");

    let half = Number::from_str("1/2").unwrap();
    assert_eq!(half.to_string(6), "0.5");

    let four = Number::from_str("4.5").unwrap();
    assert_eq!(four.to_string(0), "4...");
}

// Dividing by the exact rational zero yields an infinity, not an error.
#[test]
fn test_division_by_zero_is_infinity() {
    let mut session = Session::new();
    let tokens = parser::parse_str("1/0", &mut session).unwrap();
    if let Token::Number(num) = op_engine::simplify(&tokens, &mut session).unwrap() {
        assert_eq!(num.to_string(6), "inf");
    } else {
        panic!("Didn't return number token!");
    }
}

// Each parse error comes from the input that provokes it.
#[test]
fn test_parse_error_variants() {
    let mut session = Session::new();

    assert_eq!(
        parser::parse_str("   ", &mut session).unwrap_err(),
        ParseError::EmptyExpression
    );
    assert_eq!(
        parser::parse_str("# just a comment", &mut session).unwrap_err(),
        ParseError::EmptyExpression
    );
    assert!(matches!(
        parser::parse_str("2+", &mut session).unwrap_err(),
        ParseError::IncompleteExpression(_)
    ));
    assert_eq!(
        parser::parse_str("(2+2", &mut session).unwrap_err(),
        ParseError::UnmatchedParenthesis
    );
    assert_eq!(
        parser::parse_str("2+2)", &mut session).unwrap_err(),
        ParseError::UnmatchedParenthesis
    );
    // A depth that dips below zero is an error even if it recovers later.
    assert_eq!(
        parser::parse_str(")(", &mut session).unwrap_err(),
        ParseError::UnmatchedParenthesis
    );
    assert_eq!(
        parser::parse_str("1)+(2", &mut session).unwrap_err(),
        ParseError::UnmatchedParenthesis
    );
    assert!(matches!(
        parser::parse_str("!!", &mut session).unwrap_err(),
        ParseError::InvalidExpression(_)
    ));
    assert!(matches!(
        parser::parse_str("2->foo=bar", &mut session).unwrap_err(),
        ParseError::InvalidIdentifier(_)
    ));
    assert!(matches!(
        parser::parse_str("y+1", &mut session).unwrap_err(),
        ParseError::UnknownVariable(_)
    ));
    assert_eq!(
        parser::parse_str("@0", &mut session).unwrap_err(),
        ParseError::UnknownAnswerIndex
    );
    assert!(matches!(
        parser::parse_str("1.2.3", &mut session).unwrap_err(),
        ParseError::MalformedNumber(_)
    ));
}

// Comments are stripped to the end of the input, whitespace everywhere.
#[test]
fn test_comment_and_whitespace_stripping() {
    let mut session = Session::new();
    let tokens = parser::parse_str("  1 +\t2  # trailing words", &mut session).unwrap();
    session.decimal_places = 0;
    let result = op_engine::get_equality(&tokens, &mut session).unwrap();
    assert_eq!(result.to_string(&session), "1 + 2 = 3");
}

// Answer references resolve through the history, render as their inverse
// index, and evaluate to the referenced entry's reduced value.
#[test]
fn test_answer_reference() {
    let mut session = Session::new();
    session.decimal_places = 0;

    let tokens = parser::parse_str("2+2", &mut session).unwrap();
    let result = op_engine::get_equality(&tokens, &mut session).unwrap();
    let entry = HistoryEntry::new(&result, &session, AnswerId(7));
    assert_eq!(entry.to_string(), "2 + 2 = 4");
    assert_eq!(entry.render_without_equality(&session), "2 + 2");
    session.add_entry(&entry);

    let back = parser::parse_str("@0 + 1", &mut session).unwrap();
    assert_eq!(back.to_string(&session), "@0 + 1");
    if let Token::Number(num) = op_engine::simplify(&back, &mut session).unwrap() {
        assert_eq!(num.to_string(0), "5");
    } else {
        panic!("Didn't return number token!");
    }
}

// Inverse indices and identifiers invert one another across current and
// previous entries.
#[test]
fn test_history_indexing() {
    let mut session = Session::new();
    session.decimal_places = 0;

    for (id, text) in [(1u128, "1"), (2u128, "2"), (3u128, "3")] {
        let tokens = parser::parse_str(text, &mut session).unwrap();
        let result = op_engine::get_equality(&tokens, &mut session).unwrap();
        let entry = HistoryEntry::new(&result, &session, AnswerId(id));
        session.add_entry(&entry);
    }

    // The most recent entry has inverse index zero.
    assert_eq!(session.get_inv_index_from_uuid(AnswerId(3)), Some(0));
    assert_eq!(session.get_inv_index_from_uuid(AnswerId(1)), Some(2));
    assert_eq!(session.get_inv_index_from_uuid(AnswerId(9)), None);

    let e = session.get_entry_inv_index(2).unwrap();
    assert_eq!(e.entry_uuid, AnswerId(1));
    assert!(session.get_entry_inv_index(3).is_none());

    let f = session.get_entry_from_uuid(AnswerId(2)).unwrap();
    assert_eq!(f.to_string(), "2 = 2");

    assert_eq!(session.get_entries().len(), 3);
}

// A failed evaluation leaves the symbol table untouched, even when an
// earlier subexpression already stored a binding.
#[test]
fn test_failed_eval_leaves_table() {
    let mut session = Session::new();
    session.decimal_places = 0;
    let tokens = parser::parse_str("(5 -> q) + @9", &mut session);
    // The answer index does not resolve, so the whole parse fails and
    // nothing was evaluated.
    assert!(tokens.is_err());
    assert!(session.vartable.get("q").is_err());
}

// The leftmost-split quirk: chains of subtractions group to the right.
#[test]
fn test_right_grouping_quirk() {
    let mut session = Session::new();
    session.decimal_places = 0;
    let tokens = parser::parse_str("10-3-2", &mut session).unwrap();
    // 10 - (3 - 2) = 9, not the conventional (10 - 3) - 2 = 5.
    let result = op_engine::get_equality(&tokens, &mut session).unwrap();
    assert_eq!(result.to_string(&session), "10 - 3 - 2 = 9");
}

// Storing twice keeps a single binding, and merging favours the other
// table's values.
#[test]
fn test_merge_favours_other() {
    let mut mine = VarTable::new();
    mine.add(Variable::new("a", Token::Number(Number::from_str("1").unwrap())))
        .unwrap();
    mine.add(Variable::new("b", Token::Number(Number::from_str("2").unwrap())))
        .unwrap();

    let mut theirs = VarTable::new();
    theirs
        .add(Variable::new("b", Token::Number(Number::from_str("20").unwrap())))
        .unwrap();
    theirs
        .add(Variable::new("c", Token::Number(Number::from_str("30").unwrap())))
        .unwrap();

    mine.merge(&theirs).unwrap();
    assert_eq!(mine.variables.len(), 3);

    let b = mine.get("b").unwrap();
    assert_eq!(
        b.tokens,
        Token::Number(Number::from_str("20").unwrap())
    );
}

// The root/power composition scenario: an exact square root of an exact
// power recovers the base.
#[test]
fn test_root_power_scenario() {
    let mut session = Session::new();
    session.decimal_places = 6;
    let tokens = parser::parse_str("(3^2)^0.5", &mut session).unwrap();
    if let Token::Number(num) = op_engine::simplify(&tokens, &mut session).unwrap() {
        assert_eq!(num.to_string(6), "3");
    } else {
        panic!("Didn't return number token!");
    }
}
