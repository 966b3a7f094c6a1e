pub mod ast;
pub mod context;
pub mod error;
pub mod grammar;
pub mod nesting;
pub mod parsers;
pub mod printer;
pub mod stream;
pub mod text;
