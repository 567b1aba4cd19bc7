//! The two stages of the pipeline: lexical analysis and parsing.

pub mod lexer;
pub mod parser;
