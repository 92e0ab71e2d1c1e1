//! The query language: a lexer, a recursive-descent parser and the verified
//! parts of the executor.

pub mod lexer;
pub mod parser;
pub mod executor;
