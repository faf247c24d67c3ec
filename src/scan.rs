//! The mathematical model of tokenization: what one scanning step yields from a
//! byte sequence and a cursor, and the whole token sequence of an input.

use vstd::prelude::*;

verus! {

/// The abstract value of a token: literal text is a sequence of characters.
pub enum TokenView {
    Ident(Seq<char>),
    Int(Seq<char>),
    Illegal,
    Eof,
    Assign,
    Plus,
    Minus,
    Bang,
    Asterisk,
    Equal,
    NotEqual,
    GreaterThan,
    LessThan,
    GreaterThanEq,
    LessThanEq,
    Slash,
    Comma,
    Semicolon,
    Lparen,
    Rparen,
    Lsquigly,
    Rsquigly,
    Function,
    Let,
    True,
    False,
    If,
    Else,
    Return,
}

/// The kinds of byte runs that scanning consumes greedily.
pub enum ByteClass {
    Space,
    Letter,
    Digit,
}

/// The bracket bytes, by code.
pub const LPAREN: u8 = 0x28;

pub const RPAREN: u8 = 0x29;

pub const LBRACE: u8 = 0x7b;

pub const RBRACE: u8 = 0x7d;

/// The byte at `i`, or 0 past either end.
pub open spec fn byte_at(s: Seq<u8>, i: int) -> u8 {
    if 0 <= i < s.len() {
        s[i]
    } else {
        0
    }
}

pub open spec fn is_space(b: u8) -> bool {
    b == ' ' as u8 || b == '\t' as u8 || b == '\n' as u8 || b == '\r' as u8
}

pub open spec fn is_letter(b: u8) -> bool {
    ('a' as u8 <= b && b <= 'z' as u8) || ('A' as u8 <= b && b <= 'Z' as u8) || b == '_' as u8
}

pub open spec fn is_digit(b: u8) -> bool {
    '0' as u8 <= b && b <= '9' as u8
}

pub open spec fn in_class(c: ByteClass, b: u8) -> bool {
    match c {
        ByteClass::Space => is_space(b),
        ByteClass::Letter => is_letter(b),
        ByteClass::Digit => is_digit(b),
    }
}

/// The end of the maximal run of bytes of class `c` that starts at `i`.
pub open spec fn run_end(s: Seq<u8>, i: int, c: ByteClass) -> int
    decreases s.len() - i,
{
    if 0 <= i < s.len() && in_class(c, s[i]) {
        run_end(s, i + 1, c)
    } else {
        i
    }
}

/// Bytes read one for one as characters.
pub open spec fn chars_of(w: Seq<u8>) -> Seq<char> {
    w.map_values(|b: u8| b as char)
}

/// The keyword that a word spells, if any.
pub open spec fn keyword(w: Seq<u8>) -> Option<TokenView> {
    if w == seq!['l' as u8, 'e' as u8, 't' as u8] {
        Some(TokenView::Let)
    } else if w == seq!['f' as u8, 'n' as u8] {
        Some(TokenView::Function)
    } else if w == seq!['t' as u8, 'r' as u8, 'u' as u8, 'e' as u8] {
        Some(TokenView::True)
    } else if w == seq!['f' as u8, 'a' as u8, 'l' as u8, 's' as u8, 'e' as u8] {
        Some(TokenView::False)
    } else if w == seq!['i' as u8, 'f' as u8] {
        Some(TokenView::If)
    } else if w == seq!['e' as u8, 'l' as u8, 's' as u8, 'e' as u8] {
        Some(TokenView::Else)
    } else if w == seq!['r' as u8, 'e' as u8, 't' as u8, 'u' as u8, 'r' as u8, 'n' as u8] {
        Some(TokenView::Return)
    } else {
        None
    }
}

/// The lengths and first bytes of the keyword spellings, which tell them apart.
pub proof fn lemma_keyword_spellings()
    ensures
        seq!['l' as u8, 'e' as u8, 't' as u8].len() == 3,
        seq!['l' as u8, 'e' as u8, 't' as u8][0] == 'l' as u8,
        seq!['f' as u8, 'n' as u8].len() == 2,
        seq!['f' as u8, 'n' as u8][0] == 'f' as u8,
        seq!['t' as u8, 'r' as u8, 'u' as u8, 'e' as u8].len() == 4,
        seq!['t' as u8, 'r' as u8, 'u' as u8, 'e' as u8][0] == 't' as u8,
        seq!['f' as u8, 'a' as u8, 'l' as u8, 's' as u8, 'e' as u8].len() == 5,
        seq!['f' as u8, 'a' as u8, 'l' as u8, 's' as u8, 'e' as u8][0] == 'f' as u8,
        seq!['i' as u8, 'f' as u8].len() == 2,
        seq!['i' as u8, 'f' as u8][0] == 'i' as u8,
        seq!['e' as u8, 'l' as u8, 's' as u8, 'e' as u8].len() == 4,
        seq!['e' as u8, 'l' as u8, 's' as u8, 'e' as u8][0] == 'e' as u8,
        seq!['r' as u8, 'e' as u8, 't' as u8, 'u' as u8, 'r' as u8, 'n' as u8].len() == 6,
        seq!['r' as u8, 'e' as u8, 't' as u8, 'u' as u8, 'r' as u8, 'n' as u8][0] == 'r' as u8,
{
}

/// A word is its keyword, or else an identifier carrying its text.
pub open spec fn word_token(w: Seq<u8>) -> TokenView {
    match keyword(w) {
        Some(t) => t,
        None => TokenView::Ident(chars_of(w)),
    }
}

/// The token for an operator byte that may take a following `=`, and where the
/// cursor resumes.
pub open spec fn with_eq(s: Seq<u8>, k: int, single: TokenView, double: TokenView) -> (
    TokenView,
    int,
) {
    if byte_at(s, k + 1) == '=' as u8 {
        (double, k + 2)
    } else {
        (single, k + 1)
    }
}

/// One scanning step from cursor `i`: the token produced and the cursor after it.
pub open spec fn scan(s: Seq<u8>, i: int) -> (TokenView, int) {
    let k = run_end(s, i, ByteClass::Space);
    if k >= s.len() {
        (TokenView::Eof, k)
    } else {
        let b = s[k];
        if b == ';' as u8 {
            (TokenView::Semicolon, k + 1)
        } else if b == RPAREN {
            (TokenView::Rparen, k + 1)
        } else if b == LPAREN {
            (TokenView::Lparen, k + 1)
        } else if b == LBRACE {
            (TokenView::Lsquigly, k + 1)
        } else if b == RBRACE {
            (TokenView::Rsquigly, k + 1)
        } else if b == ',' as u8 {
            (TokenView::Comma, k + 1)
        } else if b == '+' as u8 {
            (TokenView::Plus, k + 1)
        } else if b == '-' as u8 {
            (TokenView::Minus, k + 1)
        } else if b == '*' as u8 {
            (TokenView::Asterisk, k + 1)
        } else if b == '/' as u8 {
            (TokenView::Slash, k + 1)
        } else if b == '!' as u8 {
            with_eq(s, k, TokenView::Bang, TokenView::NotEqual)
        } else if b == '<' as u8 {
            with_eq(s, k, TokenView::LessThan, TokenView::LessThanEq)
        } else if b == '>' as u8 {
            with_eq(s, k, TokenView::GreaterThan, TokenView::GreaterThanEq)
        } else if b == '=' as u8 {
            with_eq(s, k, TokenView::Assign, TokenView::Equal)
        } else if is_letter(b) {
            let e = run_end(s, k, ByteClass::Letter);
            (word_token(s.subrange(k, e)), e)
        } else if is_digit(b) {
            let e = run_end(s, k, ByteClass::Digit);
            (TokenView::Int(chars_of(s.subrange(k, e))), e)
        } else {
            (TokenView::Illegal, k + 1)
        }
    }
}

/// The tokens produced from cursor `i` up to and including the first end-of-input.
pub open spec fn tokens(s: Seq<u8>, i: int) -> Seq<TokenView>
    decreases s.len() - i,
    via tokens_decreases
{
    if 0 <= i <= s.len() {
        let (t, j) = scan(s, i);
        if t == TokenView::Eof {
            seq![TokenView::Eof]
        } else {
            seq![t] + tokens(s, j)
        }
    } else {
        seq![]
    }
}

#[via_fn]
proof fn tokens_decreases(s: Seq<u8>, i: int) {
    if 0 <= i <= s.len() {
        lemma_scan_bounds(s, i);
    }
}

/// The run that `run_end` measures lies in class `c`, and the byte after it does not.
pub proof fn lemma_run_end(s: Seq<u8>, i: int, c: ByteClass)
    requires
        0 <= i <= s.len(),
    ensures
        i <= run_end(s, i, c) <= s.len(),
        forall|j: int| i <= j < run_end(s, i, c) ==> in_class(c, #[trigger] s[j]),
        run_end(s, i, c) < s.len() ==> !in_class(c, s[run_end(s, i, c)]),
    decreases s.len() - i,
{
    if i < s.len() && in_class(c, s[i]) {
        lemma_run_end(s, i + 1, c);
    }
}

/// A step that yields anything but end-of-input moves the cursor forward; the
/// cursor never passes the end, and end-of-input leaves it at the end.
pub proof fn lemma_scan_bounds(s: Seq<u8>, i: int)
    requires
        0 <= i <= s.len(),
    ensures
        i <= scan(s, i).1 <= s.len(),
        scan(s, i).0 != TokenView::Eof ==> i < scan(s, i).1,
        scan(s, i).0 == TokenView::Eof ==> scan(s, i).1 == s.len(),
{
    let k = run_end(s, i, ByteClass::Space);
    lemma_run_end(s, i, ByteClass::Space);
    if k < s.len() {
        lemma_run_end(s, k, ByteClass::Letter);
        lemma_run_end(s, k, ByteClass::Digit);
    }
}

} // verus!
