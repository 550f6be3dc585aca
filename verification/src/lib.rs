//! A small scripting language: a lexer, a parser and an interpreter core.

pub mod lexer;
pub mod parser;
pub mod table;
pub mod value;
pub mod interpreter;
pub mod laws;
pub mod runs;
