//! Properties of tokenization as a whole, stated over the model in `scan` and
//! proved. The tokenizer's own contracts tie each step to that model.

use crate::scan::{
    byte_at, chars_of, in_class, is_digit, is_letter, is_space, keyword, lemma_keyword_spellings,
    lemma_run_end, lemma_scan_bounds, run_end, scan, tokens, word_token, ByteClass, TokenView,
};
use vstd::prelude::*;

verus! {

/// Two adjacent bytes that would scan as one token if nothing separated them.
pub open spec fn joins(x: u8, y: u8) -> bool {
    (is_letter(x) && is_letter(y)) || (is_digit(x) && is_digit(y)) || ((x == '!' as u8 || x
        == '<' as u8 || x == '>' as u8 || x == '=' as u8) && y == '=' as u8)
}

pub open spec fn all_space(w: Seq<u8>) -> bool {
    forall|j: int| 0 <= j < w.len() ==> is_space(#[trigger] w[j])
}

proof fn lemma_run_end_prefix(a: Seq<u8>, r: Seq<u8>, i: int, c: ByteClass)
    requires
        0 <= i <= a.len(),
    ensures
        run_end(a + r, i, c) == if run_end(a, i, c) < a.len() {
            run_end(a, i, c)
        } else {
            run_end(a + r, a.len() as int, c)
        },
    decreases a.len() - i,
{
    if i < a.len() {
        assert((a + r)[i] == a[i]);
        if in_class(c, a[i]) {
            lemma_run_end_prefix(a, r, i + 1, c);
        }
    }
}

proof fn lemma_run_end_suffix(p: Seq<u8>, b: Seq<u8>, m: int, c: ByteClass)
    requires
        0 <= m <= b.len(),
    ensures
        run_end(p + b, p.len() + m, c) == p.len() + run_end(b, m, c),
    decreases b.len() - m,
{
    if m < b.len() {
        assert((p + b)[p.len() + m] == b[m]);
        if in_class(c, b[m]) {
            lemma_run_end_suffix(p, b, m + 1, c);
        }
    }
}

proof fn lemma_run_end_all(s: Seq<u8>, i: int, j: int, c: ByteClass)
    requires
        0 <= i <= j <= s.len(),
        forall|k: int| i <= k < j ==> in_class(c, #[trigger] s[k]),
    ensures
        run_end(s, i, c) == run_end(s, j, c),
    decreases j - i,
{
    if i < j {
        lemma_run_end_all(s, i + 1, j, c);
    }
}

/// Scanning inside `a` gives the same step in `a + r` unless the token reaches
/// the end of `a` and joins with the first byte of `r`.
proof fn lemma_scan_prefix(a: Seq<u8>, r: Seq<u8>, i: int)
    requires
        0 <= i <= a.len(),
        scan(a, i).0 != TokenView::Eof,
        a.len() == 0 || r.len() == 0 || !joins(a.last(), r[0]),
    ensures
        scan(a + r, i) == scan(a, i),
{
    let s = a + r;
    let k = run_end(a, i, ByteClass::Space);
    lemma_run_end(a, i, ByteClass::Space);
    lemma_run_end_prefix(a, r, i, ByteClass::Space);
    assert(k < a.len());
    assert(s[k] == a[k]);
    if k + 1 < a.len() {
        assert(s[k + 1] == a[k + 1]);
    }
    if k + 1 == a.len() && r.len() > 0 {
        assert(s[k + 1] == r[0]);
    }
    let b = a[k];
    if is_letter(b) {
        let e = run_end(a, k, ByteClass::Letter);
        lemma_run_end(a, k, ByteClass::Letter);
        lemma_run_end_prefix(a, r, k, ByteClass::Letter);
        if e == a.len() && r.len() > 0 {
            assert(is_letter(a[e - 1]));
            assert(s[a.len() as int] == r[0]);
        }
        assert(s.subrange(k, e) =~= a.subrange(k, e));
    } else if is_digit(b) {
        let e = run_end(a, k, ByteClass::Digit);
        lemma_run_end(a, k, ByteClass::Digit);
        lemma_run_end_prefix(a, r, k, ByteClass::Digit);
        if e == a.len() && r.len() > 0 {
            assert(is_digit(a[e - 1]));
            assert(s[a.len() as int] == r[0]);
        }
        assert(s.subrange(k, e) =~= a.subrange(k, e));
    }
}

/// Scanning is unaffected by what precedes the cursor.
proof fn lemma_scan_suffix(p: Seq<u8>, b: Seq<u8>, m: int)
    requires
        0 <= m <= b.len(),
    ensures
        scan(p + b, p.len() + m) == (scan(b, m).0, p.len() + scan(b, m).1),
{
    let s = p + b;
    let k = run_end(b, m, ByteClass::Space);
    lemma_run_end(b, m, ByteClass::Space);
    lemma_run_end_suffix(p, b, m, ByteClass::Space);
    if k < b.len() {
        assert(s[p.len() + k] == b[k]);
        assert(byte_at(s, p.len() + k + 1) == byte_at(b, k + 1));
        let c = b[k];
        if is_letter(c) {
            let e = run_end(b, k, ByteClass::Letter);
            lemma_run_end(b, k, ByteClass::Letter);
            lemma_run_end_suffix(p, b, k, ByteClass::Letter);
            assert(s.subrange(p.len() + k, p.len() + e) =~= b.subrange(k, e));
        } else if is_digit(c) {
            let e = run_end(b, k, ByteClass::Digit);
            lemma_run_end(b, k, ByteClass::Digit);
            lemma_run_end_suffix(p, b, k, ByteClass::Digit);
            assert(s.subrange(p.len() + k, p.len() + e) =~= b.subrange(k, e));
        }
    }
}

proof fn lemma_tokens_suffix(p: Seq<u8>, b: Seq<u8>, m: int)
    requires
        0 <= m <= b.len(),
    ensures
        tokens(p + b, p.len() + m) == tokens(b, m),
    decreases b.len() - m,
{
    lemma_scan_suffix(p, b, m);
    lemma_scan_bounds(b, m);
    let (t, j) = scan(b, m);
    if t != TokenView::Eof {
        lemma_tokens_suffix(p, b, j);
    }
}

proof fn lemma_tokens_prefix(a: Seq<u8>, r: Seq<u8>, i: int)
    requires
        0 <= i <= a.len(),
        a.len() == 0 || r.len() == 0 || !joins(a.last(), r[0]),
    ensures
        tokens(a + r, i) == tokens(a, i).drop_last() + tokens(a + r, a.len() as int),
    decreases a.len() - i,
{
    let s = a + r;
    lemma_scan_bounds(a, i);
    let (t, j) = scan(a, i);
    if t == TokenView::Eof {
        let k = run_end(a, i, ByteClass::Space);
        lemma_run_end(a, i, ByteClass::Space);
        lemma_run_end_prefix(a, r, i, ByteClass::Space);
        assert(run_end(s, i, ByteClass::Space) == run_end(s, a.len() as int, ByteClass::Space));
        assert(scan(s, i) == scan(s, a.len() as int));
        assert(tokens(a, i).drop_last() =~= Seq::<TokenView>::empty());
        assert(tokens(s, i) =~= tokens(a, i).drop_last() + tokens(s, a.len() as int));
    } else {
        lemma_scan_prefix(a, r, i);
        lemma_tokens_prefix(a, r, j);
        assert(tokens(a, j).len() > 0) by {
            lemma_scan_bounds(a, j);
        }
        assert(tokens(a, i).drop_last() =~= seq![t] + tokens(a, j).drop_last());
        assert(tokens(s, i) =~= tokens(a, i).drop_last() + tokens(s, a.len() as int));
    }
}

proof fn lemma_tokens_skip(s: Seq<u8>, i: int, j: int)
    requires
        0 <= i <= j <= s.len(),
        forall|k: int| i <= k < j ==> is_space(#[trigger] s[k]),
    ensures
        tokens(s, i) == tokens(s, j),
{
    assert forall|k: int| i <= k < j implies in_class(ByteClass::Space, #[trigger] s[k]) by {
        assert(is_space(s[k]));
    }
    lemma_run_end_all(s, i, j, ByteClass::Space);
    assert(scan(s, i) == scan(s, j));
}

/// Whitespace separates: with a non-empty run of whitespace between two inputs,
/// the tokens are those of the first (without its end-of-input) followed by
/// those of the second.
pub proof fn law_whitespace_separates(a: Seq<u8>, w: Seq<u8>, b: Seq<u8>)
    requires
        w.len() > 0,
        all_space(w),
    ensures
        tokens(a + w + b, 0) == tokens(a, 0).drop_last() + tokens(b, 0),
{
    let s = a + w + b;
    assert(a + w + b =~= a + (w + b));
    assert((w + b)[0] == w[0]);
    lemma_tokens_prefix(a, w + b, 0);
    assert forall|k: int| a.len() <= k < a.len() + w.len() implies is_space(#[trigger] s[k]) by {
        assert(s[k] == w[k - a.len()]);
    }
    lemma_tokens_skip(s, a.len() as int, (a + w).len() as int);
    lemma_tokens_suffix(a + w, b, 0);
}

/// Whitespace is invisible: a run of whitespace between two inputs can be
/// removed without changing the tokens, provided the bytes that would then meet
/// do not join into one token.
pub proof fn law_whitespace_invisible(a: Seq<u8>, w: Seq<u8>, b: Seq<u8>)
    requires
        all_space(w),
        a.len() == 0 || b.len() == 0 || !joins(a.last(), b[0]),
    ensures
        tokens(a + w + b, 0) == tokens(a + b, 0),
{
    if w.len() == 0 {
        assert(a + w + b =~= a + b);
    } else {
        law_whitespace_separates(a, w, b);
        lemma_tokens_prefix(a, b, 0);
        lemma_tokens_suffix(a, b, 0);
    }
}

/// Scanning terminates: a step that yields anything but end-of-input moves the
/// cursor forward without passing the end, so the tokens from any cursor number
/// at most one per remaining byte plus the end-of-input that closes them, and no
/// end-of-input comes earlier. Once the end is reached every further step yields
/// end-of-input again and leaves the cursor where it is.
pub proof fn law_scanning_terminates(s: Seq<u8>, i: int)
    requires
        0 <= i <= s.len(),
    ensures
        scan(s, i).0 != TokenView::Eof ==> i < scan(s, i).1 <= s.len(),
        scan(s, i).0 == TokenView::Eof ==> scan(s, i).1 == s.len(),
        scan(s, s.len() as int) == (TokenView::Eof, s.len() as int),
        1 <= tokens(s, i).len() <= s.len() - i + 1,
        tokens(s, i).last() == TokenView::Eof,
        forall|k: int| 0 <= k < tokens(s, i).len() - 1 ==> #[trigger] tokens(s, i)[k] != TokenView::Eof,
    decreases s.len() - i,
{
    lemma_scan_bounds(s, i);
    let (t, j) = scan(s, i);
    if t != TokenView::Eof {
        law_scanning_terminates(s, j);
        let ts = tokens(s, i);
        assert(ts == seq![t] + tokens(s, j));
        assert forall|k: int| 0 <= k < ts.len() - 1 implies #[trigger] ts[k] != TokenView::Eof by {
            if k > 0 {
                assert(ts[k] == tokens(s, j)[k - 1]);
            }
        }
    }
}

/// Input that is empty or holds only whitespace yields end-of-input alone.
pub proof fn law_blank_input(s: Seq<u8>)
    requires
        all_space(s),
    ensures
        tokens(s, 0) == seq![TokenView::Eof],
{
    lemma_tokens_skip(s, 0, s.len() as int);
    assert(scan(s, s.len() as int) == (TokenView::Eof, s.len() as int));
}

/// A run of letters scanned on its own is one token: its keyword, or else an
/// identifier carrying its text verbatim.
pub proof fn law_word_in_isolation(w: Seq<u8>)
    requires
        w.len() > 0,
        forall|j: int| 0 <= j < w.len() ==> is_letter(#[trigger] w[j]),
    ensures
        scan(w, 0) == (word_token(w), w.len() as int),
        keyword(w) is None ==> scan(w, 0).0 == TokenView::Ident(chars_of(w)),
        tokens(w, 0) == seq![word_token(w), TokenView::Eof],
{
    assert(!is_space(w[0]));
    assert(run_end(w, 0, ByteClass::Space) == 0);
    assert forall|j: int| 0 <= j < w.len() implies in_class(ByteClass::Letter, #[trigger] w[j]) by {
        assert(is_letter(w[j]));
    }
    lemma_run_end_all(w, 0, w.len() as int, ByteClass::Letter);
    assert(w.subrange(0, w.len() as int) =~= w);
    assert(scan(w, w.len() as int) == (TokenView::Eof, w.len() as int));
    assert(tokens(w, w.len() as int) == seq![TokenView::Eof]);
    assert(word_token(w) != TokenView::Eof);
    assert(tokens(w, 0) =~= seq![word_token(w), TokenView::Eof]);
}

/// Each keyword scanned on its own yields its keyword token, never an identifier.
pub proof fn law_keyword_table()
    ensures
        tokens(seq!['l' as u8, 'e' as u8, 't' as u8], 0) == seq![TokenView::Let, TokenView::Eof],
        tokens(seq!['f' as u8, 'n' as u8], 0) == seq![TokenView::Function, TokenView::Eof],
        tokens(seq!['t' as u8, 'r' as u8, 'u' as u8, 'e' as u8], 0) == seq![
            TokenView::True,
            TokenView::Eof,
        ],
        tokens(seq!['f' as u8, 'a' as u8, 'l' as u8, 's' as u8, 'e' as u8], 0) == seq![
            TokenView::False,
            TokenView::Eof,
        ],
        tokens(seq!['i' as u8, 'f' as u8], 0) == seq![TokenView::If, TokenView::Eof],
        tokens(seq!['e' as u8, 'l' as u8, 's' as u8, 'e' as u8], 0) == seq![
            TokenView::Else,
            TokenView::Eof,
        ],
        tokens(seq!['r' as u8, 'e' as u8, 't' as u8, 'u' as u8, 'r' as u8, 'n' as u8], 0) == seq![
            TokenView::Return,
            TokenView::Eof,
        ],
{
    lemma_keyword_spellings();
    law_word_in_isolation(seq!['l' as u8, 'e' as u8, 't' as u8]);
    law_word_in_isolation(seq!['f' as u8, 'n' as u8]);
    law_word_in_isolation(seq!['t' as u8, 'r' as u8, 'u' as u8, 'e' as u8]);
    law_word_in_isolation(seq!['f' as u8, 'a' as u8, 'l' as u8, 's' as u8, 'e' as u8]);
    law_word_in_isolation(seq!['i' as u8, 'f' as u8]);
    law_word_in_isolation(seq!['e' as u8, 'l' as u8, 's' as u8, 'e' as u8]);
    law_word_in_isolation(seq!['r' as u8, 'e' as u8, 't' as u8, 'u' as u8, 'r' as u8, 'n' as u8]);
}

/// `!`, `<`, `>` and `=` followed by `=` yield one two-byte token; followed by
/// anything else (or nothing) they yield their one-byte token and the cursor
/// stops on the byte after them.
pub proof fn law_compound_operators(s: Seq<u8>, i: int)
    requires
        0 <= i < s.len(),
    ensures
        s[i] == '!' as u8 && byte_at(s, i + 1) == '=' as u8 ==> scan(s, i) == (TokenView::NotEqual, i + 2),
        s[i] == '!' as u8 && byte_at(s, i + 1) != '=' as u8 ==> scan(s, i) == (TokenView::Bang, i + 1),
        s[i] == '<' as u8 && byte_at(s, i + 1) == '=' as u8 ==> scan(s, i) == (TokenView::LessThanEq, i + 2),
        s[i] == '<' as u8 && byte_at(s, i + 1) != '=' as u8 ==> scan(s, i) == (TokenView::LessThan, i + 1),
        s[i] == '>' as u8 && byte_at(s, i + 1) == '=' as u8 ==> scan(s, i) == (TokenView::GreaterThanEq, i + 2),
        s[i] == '>' as u8 && byte_at(s, i + 1) != '=' as u8 ==> scan(s, i) == (TokenView::GreaterThan, i + 1),
        s[i] == '=' as u8 && byte_at(s, i + 1) == '=' as u8 ==> scan(s, i) == (TokenView::Equal, i + 2),
        s[i] == '=' as u8 && byte_at(s, i + 1) != '=' as u8 ==> scan(s, i) == (TokenView::Assign, i + 1),
{
    if !is_space(s[i]) {
        assert(run_end(s, i, ByteClass::Space) == i);
    }
}

/// A run of digits yields an integer token whose text is exactly that run, and
/// the cursor resumes on the first byte after it, which is not a digit.
pub proof fn law_number_text(s: Seq<u8>, i: int)
    requires
        0 <= i < s.len(),
        is_digit(s[i]),
    ensures
        i < scan(s, i).1 <= s.len(),
        forall|j: int| i <= j < scan(s, i).1 ==> is_digit(#[trigger] s[j]),
        scan(s, i).1 < s.len() ==> !is_digit(s[scan(s, i).1]),
        scan(s, i).0 == TokenView::Int(chars_of(s.subrange(i, scan(s, i).1))),
{
    assert(run_end(s, i, ByteClass::Space) == i);
    lemma_run_end(s, i, ByteClass::Digit);
    let e = run_end(s, i, ByteClass::Digit);
    assert forall|j: int| i <= j < e implies is_digit(#[trigger] s[j]) by {
        assert(in_class(ByteClass::Digit, s[j]));
    }
}

} // verus!
