//! A tokenizer for a small interpreted language, with its behaviour stated as a
//! mathematical model over byte sequences and proved.

pub mod ast;
pub mod laws;
pub mod lexer;
pub mod parser;
pub mod scan;
