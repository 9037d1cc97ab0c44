//! Lexical analysis for a small subset of C: turns preprocessed source text
//! into a sequence of classified tokens.
pub mod grammar;
pub mod laws;
pub mod lexer;
pub mod token;
