//! Error taxonomy of the calculator core.

use vstd::prelude::*;
use vstd::string::StringExecFns;

verus! {

/// Everything that can go wrong while turning text into an expression tree.
#[derive(Debug, Clone, PartialEq)]
pub enum ParseError {
    /// The input was empty once whitespace and comments were stripped.
    EmptyExpression,
    /// An operator is missing one of its operands; carries the offending text.
    IncompleteExpression(String),
    /// Parentheses do not balance.
    UnmatchedParenthesis,
    /// The text fits no known form; carries the offending text.
    InvalidExpression(String),
    /// A storage target contains an operator; carries the offending name.
    InvalidIdentifier(String),
    /// A variable reference with no binding; carries the name.
    UnknownVariable(String),
    /// An answer reference whose index matches no history entry.
    UnknownAnswerIndex,
    /// A numeric literal the number engine cannot read; carries the text.
    MalformedNumber(String),
}

/// Everything that can go wrong while reducing an expression tree.
#[derive(Debug, Clone, PartialEq)]
pub enum EvalError {
    /// An answer reference whose identifier matches no history entry.
    UnresolvableAnswer,
}

/// The mathematical content of a parse error.
pub enum ParseErrV {
    Empty,
    Incomplete(Seq<char>),
    Unmatched,
    Invalid(Seq<char>),
    InvalidId(Seq<char>),
    UnknownVar(Seq<char>),
    UnknownAnswer,
    Malformed(Seq<char>),
}

impl View for ParseError {
    type V = ParseErrV;

    open spec fn view(&self) -> ParseErrV {
        match self {
            ParseError::EmptyExpression => ParseErrV::Empty,
            ParseError::IncompleteExpression(s) => ParseErrV::Incomplete(s@),
            ParseError::UnmatchedParenthesis => ParseErrV::Unmatched,
            ParseError::InvalidExpression(s) => ParseErrV::Invalid(s@),
            ParseError::InvalidIdentifier(s) => ParseErrV::InvalidId(s@),
            ParseError::UnknownVariable(s) => ParseErrV::UnknownVar(s@),
            ParseError::UnknownAnswerIndex => ParseErrV::UnknownAnswer,
            ParseError::MalformedNumber(s) => ParseErrV::Malformed(s@),
        }
    }
}

/// Everything that can go wrong at the symbol table.
#[derive(Debug, Clone, PartialEq)]
pub enum VarError {
    /// `add` refused to overwrite an existing binding; carries the name.
    AlreadyDefined(String),
    /// The named binding does not exist; carries the name.
    NotFound(String),
}

impl VarError {
    /// A human-readable description, for hosts that show notices.
    pub fn message(&self) -> String {
        match self {
            VarError::AlreadyDefined(s) => join_context("Variable already found: ", s),
            VarError::NotFound(s) => join_context("Variable not found: ", s),
        }
    }
}

impl ParseError {
    /// A human-readable description, for hosts that show notices.
    pub fn message(&self) -> String {
        match self {
            ParseError::EmptyExpression => String::from_str("Empty Expression!"),
            ParseError::IncompleteExpression(s) => join_context("Incomplete Expression: ", s),
            ParseError::UnmatchedParenthesis => String::from_str("Unmatched parenthesis!"),
            ParseError::InvalidExpression(s) => join_context("Invalid Expression: ", s),
            ParseError::InvalidIdentifier(s) => join_context("Invalid variable name ", s),
            ParseError::UnknownVariable(s) => join_context("Unknown variable ", s),
            ParseError::UnknownAnswerIndex => String::from_str("Invalid answer!"),
            ParseError::MalformedNumber(s) => join_context("Malformed number: ", s),
        }
    }
}

impl EvalError {
    /// A human-readable description, for hosts that show notices.
    pub fn message(&self) -> String {
        match self {
            EvalError::UnresolvableAnswer => String::from_str("Invalid entry!"),
        }
    }
}

fn join_context(prefix: &str, context: &String) -> (r: String)
    ensures
        r@ == prefix@ + context@,
{
    let mut r = String::from_str(prefix);
    r.append(context.as_str());
    r
}

} // verus!
