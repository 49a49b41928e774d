//! The tokenizer that the minifier drives.

pub mod lexer;
