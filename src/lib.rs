//! Front-end tooling for a small Lisp-like language: a table-driven byte
//! lexer and a reader/writer for a compact production-rule notation.

pub mod error;
pub mod grammar;
pub mod iter;
pub mod lexer;
pub mod roundtrip;
pub mod table;
pub mod text;
pub mod token;
pub mod writer;
