//! The start of a parser: it holds the current token and one token of lookahead.

use crate::lexer::{LexError, Lexer, TokenType};
use crate::scan::{scan, TokenView};
use vstd::prelude::*;

verus! {

pub struct Parser {
    lexer: Lexer,
    cur_token: TokenType,
    peek_token: TokenType,
}

impl Parser {
    /// The tokenizer that supplies the tokens.
    pub closed spec fn lexer(&self) -> Lexer {
        self.lexer
    }

    /// The token under examination.
    pub closed spec fn current(&self) -> TokenView {
        self.cur_token@
    }

    /// The token after the current one.
    pub closed spec fn peek(&self) -> TokenView {
        self.peek_token@
    }

    /// Takes the tokenizer and loads the first two tokens it produces.
    pub fn new(lexer: Lexer) -> (r: Result<Parser, LexError>)
        requires
            lexer.wf(),
        ensures
            r is Ok,
            r->Ok_0.lexer().wf(),
            r->Ok_0.lexer().source() == lexer.source(),
            r->Ok_0.current() == scan(lexer.source(), lexer.cursor()).0,
            r->Ok_0.peek() == scan(lexer.source(), scan(lexer.source(), lexer.cursor()).1).0,
            r->Ok_0.lexer().cursor() == scan(lexer.source(), scan(lexer.source(), lexer.cursor()).1).1,
    {
        let mut p = Parser { lexer, cur_token: TokenType::Illegal, peek_token: TokenType::Illegal };
        p.next_token()?;
        p.next_token()?;
        Ok(p)
    }

    /// Moves the lookahead token into the current one and pulls a new lookahead.
    pub fn next_token(&mut self) -> (r: Result<(), LexError>)
        requires
            old(self).lexer().wf(),
        ensures
            r is Ok,
            final(self).lexer().wf(),
            final(self).lexer().source() == old(self).lexer().source(),
            final(self).current() == old(self).peek(),
            final(self).peek() == scan(old(self).lexer().source(), old(self).lexer().cursor()).0,
            final(self).lexer().cursor() == scan(old(self).lexer().source(), old(self).lexer().cursor()).1,
    {
        let mut t = self.lexer.next_token()?;
        std::mem::swap(&mut self.peek_token, &mut t);
        self.cur_token = t;
        Ok(())
    }
}

} // verus!
