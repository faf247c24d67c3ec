//! The beginnings of a syntax tree for the parser to build.

use crate::lexer::TokenType;
use vstd::prelude::*;

verus! {

/// The kinds of statement a program holds.
pub enum StatementType {
    LetStatement,
    ReturnStatement,
}

/// A statement of a program.
pub trait Statement {
    fn get_statement_type(&self) -> StatementType {
        StatementType::LetStatement
    }
}

/// An expression of a program.
pub trait Expression {}

/// A program: its statements in order.
pub struct Program<T: Statement> {
    pub statements: Vec<T>,
}

/// `let <ident> = <value>;`
pub struct LetStatement<T: Expression> {
    pub ident: TokenType,
    pub value: T,
}

} // verus!
