//! Session state tests: entries and history indexing.

use apecrunch::op_engine;
use apecrunch::parser;
use apecrunch::session::{AnswerId, HistoryEntry, Session};
use apecrunch::token::Token;

const TWOPTWO: &str = "2 + 2";

// Test the creation of a session
#[test]
fn test_new_session() {
    let session = Session::new();

    // There should be no previous entries!
    assert_eq!(session.previous_entries.len(), 0);

    // There should also be no entries in the current session!
    assert_eq!(session.entries.len(), 0);
}

// Test adding entries to the session
#[test]
fn test_add_entry_session() {
    let mut session = Session::new();

    let expression = parser::parse_str(TWOPTWO, &mut session).unwrap();

    let history_entry = HistoryEntry::new(&expression, &session, AnswerId(11));

    session.add_entry(&history_entry);

    // First entry should equal our expression!
    assert_eq!(session.get_entries()[0].to_string(), TWOPTWO);
}

// Test using the get by inverse index and get by identifier functions
#[test]
fn test_retrieve_by_inv_index() {
    let mut session = Session::new();

    let expression = parser::parse_str(TWOPTWO, &mut session).unwrap();

    let history_entry = HistoryEntry::new(&expression, &session, AnswerId(21));

    session.add_entry(&history_entry);

    let history_entry_2_inv_index = session
        .get_inv_index_from_uuid(history_entry.entry_uuid)
        .unwrap();

    println!("index = {}", history_entry_2_inv_index);

    let history_entry_2 = session
        .get_entry_inv_index(history_entry_2_inv_index)
        .unwrap();

    assert_eq!(history_entry_2, history_entry);
}

// Storing twice through the engine keeps a single binding that holds the
// newest value.
#[test]
fn test_store_replaces_through_engine() {
    let mut session = Session::new();

    let first = parser::parse_str("2 -> x", &mut session).unwrap();
    op_engine::simplify(&first, &mut session).unwrap();

    let lookup = parser::parse_str("x", &mut session).unwrap();
    if let Token::Number(num) = op_engine::simplify(&lookup, &mut session).unwrap() {
        assert_eq!(num.to_string(6), "2");
    } else {
        panic!("Didn't return number token!");
    }

    let second = parser::parse_str("3 -> x", &mut session).unwrap();
    op_engine::simplify(&second, &mut session).unwrap();

    let lookup2 = parser::parse_str("x", &mut session).unwrap();
    if let Token::Number(num) = op_engine::simplify(&lookup2, &mut session).unwrap() {
        assert_eq!(num.to_string(6), "3");
    } else {
        panic!("Didn't return number token!");
    }

    // The table still holds exactly one binding for the identifier.
    assert_eq!(session.vartable.variables.len(), 1);
}
