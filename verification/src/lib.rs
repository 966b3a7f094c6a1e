//! Filter Expression Language: a boolean expression parser and evaluator.
pub mod demo;
pub mod lang;
