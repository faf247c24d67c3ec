//! The tokenizer: a single-pass cursor over an owned copy of the input bytes.

use crate::scan::{
    byte_at, chars_of, is_digit, is_letter, keyword, lemma_keyword_spellings, lemma_scan_bounds,
    run_end, scan, tokens, ByteClass, TokenView, LBRACE, LPAREN, RBRACE, RPAREN,
};
use vstd::prelude::*;
use vstd::utf8::encode_utf8;

verus! {

/// One lexical unit.
#[derive(Debug, PartialEq, Eq, Clone)]
pub enum TokenType {
    Ident(String),
    Int(String),
    Illegal,
    Eof,
    // operators
    Assign,
    Plus,
    Minus,
    Bang,
    Asterisk,
    Equal,
    NotEqual,
    GreaterThan,
    LessThan,
    GreaterThanEq,
    LessThanEq,
    Slash,
    // delimiters
    Comma,
    Semicolon,
    Lparen,
    Rparen,
    Lsquigly,
    Rsquigly,
    // keywords
    Function,
    Let,
    True,
    False,
    If,
    Else,
    Return,
}

impl View for TokenType {
    type V = TokenView;

    open spec fn view(&self) -> TokenView {
        match self {
            TokenType::Ident(s) => TokenView::Ident(s@),
            TokenType::Int(s) => TokenView::Int(s@),
            TokenType::Illegal => TokenView::Illegal,
            TokenType::Eof => TokenView::Eof,
            TokenType::Assign => TokenView::Assign,
            TokenType::Plus => TokenView::Plus,
            TokenType::Minus => TokenView::Minus,
            TokenType::Bang => TokenView::Bang,
            TokenType::Asterisk => TokenView::Asterisk,
            TokenType::Equal => TokenView::Equal,
            TokenType::NotEqual => TokenView::NotEqual,
            TokenType::GreaterThan => TokenView::GreaterThan,
            TokenType::LessThan => TokenView::LessThan,
            TokenType::GreaterThanEq => TokenView::GreaterThanEq,
            TokenType::LessThanEq => TokenView::LessThanEq,
            TokenType::Slash => TokenView::Slash,
            TokenType::Comma => TokenView::Comma,
            TokenType::Semicolon => TokenView::Semicolon,
            TokenType::Lparen => TokenView::Lparen,
            TokenType::Rparen => TokenView::Rparen,
            TokenType::Lsquigly => TokenView::Lsquigly,
            TokenType::Rsquigly => TokenView::Rsquigly,
            TokenType::Function => TokenView::Function,
            TokenType::Let => TokenView::Let,
            TokenType::True => TokenView::True,
            TokenType::False => TokenView::False,
            TokenType::If => TokenView::If,
            TokenType::Else => TokenView::Else,
            TokenType::Return => TokenView::Return,
        }
    }
}

/// The abstract values of a sequence of tokens.
pub open spec fn views(ts: Seq<TokenType>) -> Seq<TokenView> {
    ts.map_values(|t: TokenType| t@)
}

/// The failure a scanning step may report. Scanning bytes never produces it.
#[derive(Debug, PartialEq, Eq)]
pub struct LexError;

/// Relies on `String::push`: the character is appended at the end.
#[verifier::external_body]
fn push_char(s: &mut String, c: char)
    ensures
        final(s)@ == old(s)@.push(c),
{
    s.push(c)
}

/// A cursor over the input bytes: `ch` is the byte at `position` (0 once the
/// input is exhausted) and `read_position` the offset of the byte after it.
pub struct Lexer {
    input: Vec<u8>,
    position: usize,
    read_position: usize,
    ch: u8,
}

impl Lexer {
    /// The bytes being scanned.
    pub closed spec fn source(&self) -> Seq<u8> {
        self.input@
    }

    /// The offset of the byte under examination; the length once exhausted.
    pub closed spec fn cursor(&self) -> int {
        self.position as int
    }

    /// The cursor fields agree with each other and with the input.
    pub closed spec fn wf(&self) -> bool {
        &&& self.position <= self.input.len()
        &&& self.read_position == if self.position < self.input.len() {
            self.position + 1
        } else {
            self.position as int
        }
        &&& self.ch == byte_at(self.input@, self.position as int)
    }

    /// Takes the bytes of `input` and loads the first of them.
    pub fn new(input: String) -> (l: Lexer)
        ensures
            l.wf(),
            l.source() == encode_utf8(input@),
            l.cursor() == 0,
    {
        let bytes = vstd::slice::slice_to_vec(input.as_str().as_bytes());
        let mut l = Lexer { input: bytes, position: 0, read_position: 0, ch: 0 };
        l.read_char();
        l
    }

    /// Skips whitespace and produces the token that starts there. Once the input
    /// is exhausted every call yields end-of-input.
    pub fn next_token(&mut self) -> (r: Result<TokenType, LexError>)
        requires
            old(self).wf(),
        ensures
            final(self).wf(),
            final(self).source() == old(self).source(),
            r is Ok,
            (r->Ok_0)@ == scan(old(self).source(), old(self).cursor()).0,
            final(self).cursor() == scan(old(self).source(), old(self).cursor()).1,
    {
        self.skip_whitespace();
        if self.position >= self.input.len() {
            return Ok(TokenType::Eof);
        }
        let c = self.ch;
        let tok = if c == ';' as u8 {
            TokenType::Semicolon
        } else if c == RPAREN {
            TokenType::Rparen
        } else if c == LPAREN {
            TokenType::Lparen
        } else if c == LBRACE {
            TokenType::Lsquigly
        } else if c == RBRACE {
            TokenType::Rsquigly
        } else if c == ',' as u8 {
            TokenType::Comma
        } else if c == '+' as u8 {
            TokenType::Plus
        } else if c == '-' as u8 {
            TokenType::Minus
        } else if c == '*' as u8 {
            TokenType::Asterisk
        } else if c == '/' as u8 {
            TokenType::Slash
        } else if c == '!' as u8 {
            if self.peek_char() == '=' as u8 {
                self.read_char();
                TokenType::NotEqual
            } else {
                TokenType::Bang
            }
        } else if c == '<' as u8 {
            if self.peek_char() == '=' as u8 {
                self.read_char();
                TokenType::LessThanEq
            } else {
                TokenType::LessThan
            }
        } else if c == '>' as u8 {
            if self.peek_char() == '=' as u8 {
                self.read_char();
                TokenType::GreaterThanEq
            } else {
                TokenType::GreaterThan
            }
        } else if c == '=' as u8 {
            if self.peek_char() == '=' as u8 {
                self.read_char();
                TokenType::Equal
            } else {
                TokenType::Assign
            }
        } else if self.is_ident_ch() {
            let start = self.position;
            let ident = self.read_ident();
            return Ok(
                match self.keyword_at(start, self.position) {
                    Some(k) => k,
                    None => TokenType::Ident(ident),
                },
            );
        } else if self.is_number_ch() {
            return Ok(TokenType::Int(self.read_number()));
        } else {
            TokenType::Illegal
        };
        self.read_char();
        Ok(tok)
    }

    fn read_char(&mut self)
        requires
            old(self).read_position <= old(self).input.len(),
        ensures
            final(self).wf(),
            final(self).input == old(self).input,
            final(self).position == old(self).read_position,
    {
        if self.read_position >= self.input.len() {
            self.ch = 0;
            self.position = self.input.len();
            self.read_position = self.input.len();
        } else {
            self.ch = self.input[self.read_position];
            self.position = self.read_position;
            self.read_position = self.read_position + 1;
        }
    }

    fn peek_char(&self) -> (b: u8)
        requires
            self.wf(),
        ensures
            b == byte_at(self.input@, self.position + 1),
    {
        if self.read_position >= self.input.len() {
            return 0;
        }
        self.input[self.read_position]
    }

    fn is_ident_ch(&self) -> (r: bool)
        ensures
            r == is_letter(self.ch),
    {
        ('a' as u8 <= self.ch && self.ch <= 'z' as u8) || ('A' as u8 <= self.ch && self.ch
            <= 'Z' as u8) || self.ch == '_' as u8
    }

    fn is_number_ch(&self) -> (r: bool)
        ensures
            r == is_digit(self.ch),
    {
        '0' as u8 <= self.ch && self.ch <= '9' as u8
    }

    fn skip_whitespace(&mut self)
        requires
            old(self).wf(),
        ensures
            final(self).wf(),
            final(self).input == old(self).input,
            final(self).position == run_end(
                old(self).input@,
                old(self).position as int,
                ByteClass::Space,
            ),
    {
        while self.ch == ' ' as u8 || self.ch == '\t' as u8 || self.ch == '\n' as u8 || self.ch
            == '\r' as u8
            invariant
                self.wf(),
                self.input == old(self).input,
                run_end(self.input@, self.position as int, ByteClass::Space) == run_end(
                    self.input@,
                    old(self).position as int,
                    ByteClass::Space,
                ),
            decreases self.input.len() - self.position,
        {
            self.read_char();
        }
    }

    fn read_ident(&mut self) -> (literal: String)
        requires
            old(self).wf(),
        ensures
            final(self).wf(),
            final(self).input == old(self).input,
            final(self).position == run_end(
                old(self).input@,
                old(self).position as int,
                ByteClass::Letter,
            ),
            old(self).position <= final(self).position,
            literal@ == chars_of(
                old(self).input@.subrange(old(self).position as int, final(self).position as int),
            ),
    {
        let mut literal = String::new();
        while self.is_ident_ch()
            invariant
                self.wf(),
                self.input == old(self).input,
                old(self).position <= self.position,
                run_end(self.input@, self.position as int, ByteClass::Letter) == run_end(
                    self.input@,
                    old(self).position as int,
                    ByteClass::Letter,
                ),
                literal@ == chars_of(
                    self.input@.subrange(old(self).position as int, self.position as int),
                ),
            decreases self.input.len() - self.position,
        {
            proof {
                let start = old(self).position as int;
                assert(chars_of(self.input@.subrange(start, self.position + 1)) =~= chars_of(
                    self.input@.subrange(start, self.position as int),
                ).push(self.ch as char));
            }
            push_char(&mut literal, self.ch as char);
            self.read_char();
        }
        literal
    }

    fn read_number(&mut self) -> (literal: String)
        requires
            old(self).wf(),
        ensures
            final(self).wf(),
            final(self).input == old(self).input,
            final(self).position == run_end(
                old(self).input@,
                old(self).position as int,
                ByteClass::Digit,
            ),
            literal@ == chars_of(
                old(self).input@.subrange(old(self).position as int, final(self).position as int),
            ),
    {
        let mut literal = String::new();
        while self.is_number_ch()
            invariant
                self.wf(),
                self.input == old(self).input,
                old(self).position <= self.position,
                run_end(self.input@, self.position as int, ByteClass::Digit) == run_end(
                    self.input@,
                    old(self).position as int,
                    ByteClass::Digit,
                ),
                literal@ == chars_of(
                    self.input@.subrange(old(self).position as int, self.position as int),
                ),
            decreases self.input.len() - self.position,
        {
            proof {
                let start = old(self).position as int;
                assert(chars_of(self.input@.subrange(start, self.position + 1)) =~= chars_of(
                    self.input@.subrange(start, self.position as int),
                ).push(self.ch as char));
            }
            push_char(&mut literal, self.ch as char);
            self.read_char();
        }
        literal
    }

    /// The keyword spelled by the bytes from `start` to `end`, if any.
    fn keyword_at(&self, start: usize, end: usize) -> (r: Option<TokenType>)
        requires
            start <= end <= self.input.len(),
        ensures
            match r {
                Some(t) => keyword(self.input@.subrange(start as int, end as int)) == Some(t@),
                None => keyword(self.input@.subrange(start as int, end as int)) is None,
            },
    {
        let s = &self.input;
        let n = end - start;
        let ghost w = self.input@.subrange(start as int, end as int);
        proof {
            lemma_keyword_spellings();
        }
        if n == 3 && s[start] == 'l' as u8 && s[start + 1] == 'e' as u8
            && s[start + 2] == 't' as u8 {
            assert(w =~= seq!['l' as u8, 'e' as u8, 't' as u8]);
            Some(TokenType::Let)
        } else if n == 2 && s[start] == 'f' as u8 && s[start + 1] == 'n' as u8 {
            assert(w =~= seq!['f' as u8, 'n' as u8]);
            Some(TokenType::Function)
        } else if n == 4 && s[start] == 't' as u8 && s[start + 1] == 'r' as u8
            && s[start + 2] == 'u' as u8
            && s[start + 3] == 'e' as u8 {
            assert(w =~= seq!['t' as u8, 'r' as u8, 'u' as u8, 'e' as u8]);
            Some(TokenType::True)
        } else if n == 5 && s[start] == 'f' as u8 && s[start + 1] == 'a' as u8
            && s[start + 2] == 'l' as u8
            && s[start + 3] == 's' as u8 && s[start + 4] == 'e' as u8 {
            assert(w =~= seq!['f' as u8, 'a' as u8, 'l' as u8, 's' as u8, 'e' as u8]);
            Some(TokenType::False)
        } else if n == 2 && s[start] == 'i' as u8 && s[start + 1] == 'f' as u8 {
            assert(w =~= seq!['i' as u8, 'f' as u8]);
            Some(TokenType::If)
        } else if n == 4 && s[start] == 'e' as u8 && s[start + 1] == 'l' as u8
            && s[start + 2] == 's' as u8
            && s[start + 3] == 'e' as u8 {
            assert(w =~= seq!['e' as u8, 'l' as u8, 's' as u8, 'e' as u8]);
            Some(TokenType::Else)
        } else if n == 6 && s[start] == 'r' as u8 && s[start + 1] == 'e' as u8
            && s[start + 2] == 't' as u8
            && s[start + 3] == 'u' as u8 && s[start + 4] == 'r' as u8 && s[start + 5] == 'n' as u8 {
            assert(w =~= seq!['r' as u8, 'e' as u8, 't' as u8, 'u' as u8, 'r' as u8, 'n' as u8]);
            Some(TokenType::Return)
        } else {
            None
        }
    }
}

/// Every token of `input` in order, up to and including the end-of-input token.
pub fn tokenize(input: String) -> (r: Vec<TokenType>)
    ensures
        views(r@) == tokens(encode_utf8(input@), 0),
{
    let mut lex = Lexer::new(input);
    let mut out: Vec<TokenType> = Vec::new();
    loop
        invariant_except_break
            views(out@) + tokens(lex.source(), lex.cursor()) == tokens(lex.source(), 0),
        invariant
            lex.wf(),
            lex.source() == encode_utf8(input@),
            0 <= lex.cursor() <= lex.source().len(),
        ensures
            views(out@) == tokens(encode_utf8(input@), 0),
        decreases lex.source().len() - lex.cursor(),
    {
        let ghost s = lex.source();
        let ghost c = lex.cursor();
        let ghost before = out@;
        proof {
            lemma_scan_bounds(s, c);
        }
        let r = lex.next_token();
        match r {
            Ok(t) => {
                let done = match t {
                    TokenType::Eof => true,
                    _ => false,
                };
                out.push(t);
                proof {
                    assert(views(out@) =~= views(before).push(t@));
                    if !done {
                        assert(tokens(s, c) == seq![t@] + tokens(s, lex.cursor()));
                        assert(views(out@) + tokens(s, lex.cursor()) =~= views(before) + tokens(s, c));
                    } else {
                        assert(views(out@) =~= views(before) + tokens(s, c));
                    }
                }
                if done {
                    break ;
                }
            },
            Err(_) => {
                break ;
            },
        }
    }
    out
}

} // verus!
