//! Token boundaries of the property lexer, and why white space put in at
//! one of them changes nothing.
use vstd::prelude::*;
use crate::property::{lex, is_ws_byte, is_alpha_byte, is_word_byte, word_end, quote_end, lemma_word_end,
    lemma_quote_end};

verus! {

/// Where the lexer goes on after reading at `i` (`i` itself where it
/// stops with an error).
pub open spec fn lex_next(b: Seq<u8>, i: int) -> int {
    let c = b[i];
    if is_ws_byte(c) || c == 40 || c == 41 || c == 44 {
        i + 1
    } else if c == 61 && i + 1 < b.len() && b[i + 1] == 62 {
        i + 2
    } else if c == 60 && i + 2 < b.len() && b[i + 1] == 61 && b[i + 2] == 62 {
        i + 3
    } else if c == 39 || c == 34 {
        quote_end(b, i + 1, c) + 1
    } else if is_alpha_byte(c) || c == 95 {
        word_end(b, i)
    } else {
        i
    }
}

/// The lexer, started at `i`, comes to offset `k` between two reads: `k`
/// is where one token (or white space byte) ends and the next begins.
pub open spec fn lex_boundary(b: Seq<u8>, i: int, k: int) -> bool
    decreases k - i,
{
    if i == k {
        true
    } else if 0 <= i < k && i < b.len() {
        let n = lex_next(b, i);
        if i < n && n <= k { lex_boundary(b, n, k) } else { false }
    } else {
        false
    }
}

/// A word read at `i` of `b` is read at `i + d` of `c` where `c` holds the
/// same bytes there and no word byte right after.
proof fn lemma_word_end_shift(b: Seq<u8>, c: Seq<u8>, i: int, d: int)
    requires
        0 <= i,
        0 <= d,
        word_end(b, i) + d <= c.len(),
        forall|m: int| i <= m < word_end(b, i) ==> c[m + d] == #[trigger] b[m],
        word_end(b, i) + d < c.len() ==> !is_word_byte(c[word_end(b, i) + d]),
    ensures
        word_end(c, i + d) == word_end(b, i) + d,
    decreases b.len() - i,
{
    if i < b.len() && is_word_byte(b[i]) {
        lemma_word_end(b, i + 1);
        assert(word_end(b, i) == word_end(b, i + 1));
        assert(c[i + d] == b[i]);
        assert forall|m: int| i + 1 <= m < word_end(b, i + 1) implies c[m + d] == #[trigger] b[m] by {
            assert(i <= m < word_end(b, i));
            assert(c[m + d] == b[m]);
        }
        lemma_word_end_shift(b, c, i + 1, d);
        assert(word_end(c, i + d) == word_end(c, i + d + 1));
    }
}

/// A quoted string read from `i` of `b` is read from `i + d` of `c` where
/// `c` holds the same bytes up to the closing quote.
proof fn lemma_quote_end_shift(b: Seq<u8>, c: Seq<u8>, i: int, q: u8, d: int)
    requires
        0 <= i,
        0 <= d,
        quote_end(b, i, q) < b.len(),
        quote_end(b, i, q) + d < c.len(),
        forall|m: int| i <= m <= quote_end(b, i, q) ==> c[m + d] == #[trigger] b[m],
    ensures
        quote_end(c, i + d, q) == quote_end(b, i, q) + d,
    decreases b.len() - i,
{
    lemma_quote_end(b, i, q);
    assert(c[i + d] == b[i]);
    if i < b.len() && b[i] != q {
        lemma_quote_end(b, i + 1, q);
        lemma_quote_end_shift(b, c, i + 1, q, d);
    }
}

/// Reading on from `i` gives no error, then the same bytes at `i + d` of
/// `c` give the same tokens.
proof fn lemma_lex_shift(b: Seq<u8>, c: Seq<u8>, i: int, d: int)
    requires
        0 <= i,
        0 <= d,
        c.len() == b.len() + d,
        forall|m: int| i <= m < b.len() ==> c[m + d] == #[trigger] b[m],
        lex(b, i) is Ok,
    ensures
        lex(c, i + d) == lex(b, i),
    decreases b.len() - i,
{
    if i < b.len() {
        let x = b[i];
        assert(c[i + d] == x);
        if is_ws_byte(x) || x == 40 || x == 41 || x == 44 {
            lemma_lex_shift(b, c, i + 1, d);
        } else if x == 61 && i + 1 < b.len() && b[i + 1] == 62 {
            assert(c[i + 1 + d] == b[i + 1]);
            lemma_lex_shift(b, c, i + 2, d);
        } else if x == 60 && i + 2 < b.len() && b[i + 1] == 61 && b[i + 2] == 62 {
            assert(c[i + 1 + d] == b[i + 1]);
            assert(c[i + 2 + d] == b[i + 2]);
            lemma_lex_shift(b, c, i + 3, d);
        } else if x == 39 || x == 34 {
            lemma_quote_end(b, i + 1, x);
            let j = quote_end(b, i + 1, x);
            lemma_quote_end_shift(b, c, i + 1, x, d);
            assert(c.subrange(i + 1 + d, j + d) =~= b.subrange(i + 1, j));
            lemma_lex_shift(b, c, j + 1, d);
        } else if is_alpha_byte(x) || x == 95 {
            lemma_word_end(b, i);
            lemma_word_end_stop(b, i);
            let j = word_end(b, i);
            if j < b.len() {
                assert(c[j + d] == b[j]);
            }
            lemma_word_end_shift(b, c, i, d);
            assert(c.subrange(i + d, j + d) =~= b.subrange(i, j));
            lemma_lex_shift(b, c, j, d);
        }
    }
}

/// One white space byte put in at a token boundary `k` at or after `i`
/// leaves the tokens read from `i` as they were.
proof fn lemma_lex_insert(b: Seq<u8>, w: u8, k: int, i: int)
    requires
        is_ws_byte(w),
        0 <= i <= k <= b.len(),
        lex_boundary(b, i, k),
        lex(b, i) is Ok,
    ensures
        lex(b.insert(k, w), i) == lex(b, i),
    decreases k - i,
{
    let c = b.insert(k, w);
    assert(c.len() == b.len() + 1);
    assert forall|m: int| 0 <= m < k implies #[trigger] c[m] == b[m] by {}
    if i == k {
        assert(c[k] == w);
        assert forall|m: int| k <= m < b.len() implies c[m + 1] == #[trigger] b[m] by {}
        lemma_lex_shift(b, c, k, 1);
        assert(lex(c, k) == lex(c, k + 1));
    } else {
        let x = b[i];
        let n = lex_next(b, i);
        assert(i < n <= k && lex_boundary(b, n, k));
        assert(c[i] == x);
        if is_ws_byte(x) || x == 40 || x == 41 || x == 44 {
            lemma_lex_insert(b, w, k, i + 1);
        } else if x == 61 && i + 1 < b.len() && b[i + 1] == 62 {
            assert(c[i + 1] == b[i + 1]);
            lemma_lex_insert(b, w, k, i + 2);
        } else if x == 60 && i + 2 < b.len() && b[i + 1] == 61 && b[i + 2] == 62 {
            assert(c[i + 1] == b[i + 1]);
            assert(c[i + 2] == b[i + 2]);
            lemma_lex_insert(b, w, k, i + 3);
        } else if x == 39 || x == 34 {
            lemma_quote_end(b, i + 1, x);
            let j = quote_end(b, i + 1, x);
            lemma_quote_end_shift(b, c, i + 1, x, 0);
            assert(c.subrange(i + 1, j) =~= b.subrange(i + 1, j));
            lemma_lex_insert(b, w, k, j + 1);
        } else if is_alpha_byte(x) || x == 95 {
            lemma_word_end(b, i);
            lemma_word_end_stop(b, i);
            let j = word_end(b, i);
            if j < k {
                assert(c[j] == b[j]);
            } else {
                assert(c[k] == w);
            }
            lemma_word_end_shift(b, c, i, 0);
            assert(c.subrange(i, j) =~= b.subrange(i, j));
            lemma_lex_insert(b, w, k, j);
        }
    }
}

/// A boundary `k` stays a boundary after a white space byte is put in at
/// `k`.
pub proof fn lemma_boundary_insert(b: Seq<u8>, w: u8, k: int, i: int)
    requires
        is_ws_byte(w),
        0 <= i <= k <= b.len(),
        lex_boundary(b, i, k),
        lex(b, i) is Ok,
    ensures
        lex_boundary(b.insert(k, w), i, k),
    decreases k - i,
{
    let c = b.insert(k, w);
    assert(c.len() == b.len() + 1);
    assert forall|m: int| 0 <= m < k implies #[trigger] c[m] == b[m] by {}
    if i < k {
        let x = b[i];
        let n = lex_next(b, i);
        assert(i < n <= k && lex_boundary(b, n, k));
        assert(c[i] == x);
        if is_ws_byte(x) || x == 40 || x == 41 || x == 44 {
        } else if x == 61 && i + 1 < b.len() && b[i + 1] == 62 {
            assert(c[i + 1] == b[i + 1]);
        } else if x == 60 && i + 2 < b.len() && b[i + 1] == 61 && b[i + 2] == 62 {
            assert(c[i + 1] == b[i + 1]);
            assert(c[i + 2] == b[i + 2]);
        } else if x == 39 || x == 34 {
            lemma_quote_end(b, i + 1, x);
            lemma_quote_end_shift(b, c, i + 1, x, 0);
        } else if is_alpha_byte(x) || x == 95 {
            lemma_word_end(b, i);
            lemma_word_end_stop(b, i);
            let j = word_end(b, i);
            if j < k {
                assert(c[j] == b[j]);
            } else {
                assert(c[k] == w);
            }
            lemma_word_end_shift(b, c, i, 0);
        }
        assert(lex_next(c, i) == n);
        assert(lex(b, n) is Ok);
        lemma_boundary_insert(b, w, k, n);
    }
}

/// Any run of white space bytes put in at a token boundary leaves the
/// tokens of bytes that lex without error unchanged.
pub proof fn lemma_lex_insert_all(b: Seq<u8>, ws: Seq<u8>, k: int)
    requires
        forall|j: int| 0 <= j < ws.len() ==> is_ws_byte(#[trigger] ws[j]),
        0 <= k <= b.len(),
        lex_boundary(b, 0, k),
        lex(b, 0) is Ok,
    ensures
        lex(b.take(k) + ws + b.skip(k), 0) == lex(b, 0),
    decreases ws.len(),
{
    if ws.len() == 0 {
        assert(b.take(k) + ws + b.skip(k) =~= b);
    } else {
        let w = ws.last();
        let c = b.insert(k, w);
        lemma_lex_insert(b, w, k, 0);
        lemma_boundary_insert(b, w, k, 0);
        let rest = ws.drop_last();
        assert forall|j: int| 0 <= j < rest.len() implies is_ws_byte(#[trigger] rest[j]) by {
            assert(rest[j] == ws[j]);
        }
        lemma_lex_insert_all(c, rest, k);
        assert(c.take(k) + rest + c.skip(k) =~= b.take(k) + ws + b.skip(k));
    }
}

/// A word ends at the end of the bytes or before a byte that cannot
/// continue it.
proof fn lemma_word_end_stop(b: Seq<u8>, i: int)
    ensures
        0 <= word_end(b, i) < b.len() ==> !is_word_byte(b[word_end(b, i)]),
    decreases b.len() - i,
{
    if i < b.len() && is_word_byte(b[i]) {
        lemma_word_end_stop(b, i + 1);
    }
}

} // verus!
