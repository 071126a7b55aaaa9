//! A small term-rewriting engine: a lexer and parser for a tiny expression
//! language, structural pattern matching and rule application.

pub mod expr;
pub mod lexer;
pub mod parser;
pub mod rule;
