//! Front end for a small expression-oriented scripting notation: a
//! character-level tokenizer and a recursive-descent parser that builds an
//! abstract syntax tree.

pub mod lexer;
pub mod parser;
