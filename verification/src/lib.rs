//! A small JSON validation library: a tokenizer that turns raw bytes into a
//! stream of lexical tokens, and a recursive-descent parser that turns that
//! stream into a tree of values, with malformed input reported as an error.

pub mod json;
