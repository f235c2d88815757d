//! A small interpreter and borrow checker for a featherweight fragment of Rust:
//! lexing, parsing, type checking (ownership and borrowing) and evaluation.

pub mod entries;
pub mod utils;
pub mod types;
pub mod eval;
pub mod lexer;
pub mod parser;
pub mod properties;
