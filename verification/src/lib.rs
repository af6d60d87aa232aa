//! An exact-arithmetic calculator core: a precedence parser that turns text
//! into an expression tree, an arbitrary-precision rational number engine,
//! a constant-folding evaluator, and a symbol table for named bindings.
//!
//! Raw text flows through [`parser::parse_str`] into a [`token::Token`]
//! tree, which [`op_engine::simplify`] reduces bottom-up with the exact
//! arithmetic of [`number::Number`], consulting the [`session::Session`]
//! for variables and prior answers.  Every public operation carries a
//! contract over the mathematical views of these types, and the laws the
//! library promises are proved in [`laws`].

pub mod arith;
pub mod bigdigits;
pub mod errors;
pub mod laws;
pub mod number;
pub mod op_engine;
pub mod parser;
pub mod session;
pub mod strutil;
pub mod token;
pub mod variable;
