//! The language front end: lexical analysis, syntax analysis and semantic
//! analysis of automaton descriptions.

pub mod lexer;
pub mod parser;
pub mod semantic;
