//! Variable and symbol-table tests.

use apecrunch::number::Number;
use apecrunch::session::Session;
use apecrunch::token::Token;
use apecrunch::variable::{VarTable, Variable};

#[test]
fn test_var() {
    let var = Variable::new("x", Token::Number(Number::neg_one()));
    let session = Session::new();

    assert_eq!(var.id, "x");
    assert_eq!(var.tokens.to_string(&session), "-1");
}

#[test]
fn test_vartable_add_store_get_remove() {
    let var = Variable::new("x", Token::Number(Number::neg_one()));
    let var2 = Variable::new("x", Token::Number(Number::from_str("2").unwrap()));

    // Create the vartable
    let mut vartable = VarTable::new();

    // Add the variable
    vartable.add(var.dup()).unwrap();

    // Add the variable again, should fail
    vartable.add(var.dup()).unwrap_err();

    // Store the variable, should overwrite the existing variable
    vartable.store(var2.dup()).unwrap();

    // Make sure there are no duplicates

    let mut vartable2 = vartable.dup();

    vartable2.variables.dedup();

    assert_eq!(vartable, vartable2);

    // Retrieve it
    let var3 = vartable.get("x").unwrap();

    // Assert they are equal
    assert_eq!(var3, var2);

    // Remove it
    vartable.remove("x").unwrap();

    // Make sure it's removed(expect error)
    vartable.get("x").unwrap_err();
}
