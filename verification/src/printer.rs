//! The fully parenthesised rendering of a property, and why the tokenizer
//! and parser read it back.
use vstd::prelude::*;
use vstd::utf8::{encode_utf8, encode_utf8_valid_utf8, encode_utf8_decode_utf8};
use crate::property::{PropV, TokV, print_toks, paren_toks, lex, cons_tok, prefix_toks, word_end, is_word_byte,
    word_token, byte_chars, quote_end, lemma_parse_printed, spec_parse_property, p_iff,
    lemma_not_and_precedence, lemma_implies_iff_precedence};

verus! {

/// The UTF-8 bytes of the fully parenthesised rendering: `true`, `false`,
/// `in('s')`, `not (a)`, `(a) and (b)`, `(a) or (b)`, `(a) => (b)` and
/// `(a) <=> (b)`.
pub open spec fn print_bytes(p: PropV) -> Seq<u8>
    decreases p,
{
    match p {
        PropV::True => seq![116u8, 114, 117, 101],
        PropV::False => seq![102u8, 97, 108, 115, 101],
        PropV::In(s) => seq![105u8, 110, 40, 39] + encode_utf8(s) + seq![39u8, 41],
        PropV::Not(a) => seq![110u8, 111, 116, 32, 40] + print_bytes(*a) + seq![41u8],
        PropV::And(a, b) => binary_bytes(print_bytes(*a), seq![97u8, 110, 100], print_bytes(*b)),
        PropV::Or(a, b) => binary_bytes(print_bytes(*a), seq![111u8, 114], print_bytes(*b)),
        PropV::Implies(a, b) => binary_bytes(print_bytes(*a), seq![61u8, 62], print_bytes(*b)),
        PropV::Iff(a, b) => binary_bytes(print_bytes(*a), seq![60u8, 61, 62], print_bytes(*b)),
    }
}

/// `(x) OP (y)` with the operator's bytes `ob`.
#[verifier::opaque]
pub open spec fn binary_bytes(x: Seq<u8>, ob: Seq<u8>, y: Seq<u8>) -> Seq<u8> {
    seq![40u8] + x + (seq![41u8, 32] + ob + seq![32u8, 40]) + y + seq![41u8]
}

/// No state id of `p` contains a single quote (its UTF-8 bytes hold no 39).
pub open spec fn ids_quote_free(p: PropV) -> bool
    decreases p,
{
    match p {
        PropV::True => true,
        PropV::False => true,
        PropV::In(s) => !encode_utf8(s).contains(39u8),
        PropV::Not(a) => ids_quote_free(*a),
        PropV::And(a, b) => ids_quote_free(*a) && ids_quote_free(*b),
        PropV::Or(a, b) => ids_quote_free(*a) && ids_quote_free(*b),
        PropV::Implies(a, b) => ids_quote_free(*a) && ids_quote_free(*b),
        PropV::Iff(a, b) => ids_quote_free(*a) && ids_quote_free(*b),
    }
}

/// Prefixing in two steps is prefixing the concatenation.
proof fn lemma_prefix_twice(x: Seq<TokV>, y: Seq<TokV>, r: Result<Seq<TokV>, Seq<char>>)
    ensures
        prefix_toks(x, prefix_toks(y, r)) == prefix_toks(x + y, r),
{
    if let Ok(ts) = r {
        assert(x + (y + ts) =~= (x + y) + ts);
    }
}

/// Consing is prefixing one token.
proof fn lemma_cons_prefix(t: TokV, r: Result<Seq<TokV>, Seq<char>>)
    ensures
        cons_tok(t, r) == prefix_toks(seq![t], r),
{
}

/// A run of word bytes ended by a non-word byte (or the end) is one word.
proof fn lemma_word_end_at(b: Seq<u8>, i: int, n: int)
    requires
        0 <= i,
        0 <= n,
        i + n <= b.len(),
        forall|k: int| i <= k < i + n ==> is_word_byte(#[trigger] b[k]),
        i + n == b.len() || !is_word_byte(b[i + n]),
    ensures
        word_end(b, i) == i + n,
    decreases n,
{
    if n > 0 {
        lemma_word_end_at(b, i + 1, n - 1);
    }
}

/// The keywords as words.
proof fn lemma_keywords()
    ensures
        word_token(byte_chars(seq![116u8, 114, 117, 101])) == TokV::True,
        word_token(byte_chars(seq![102u8, 97, 108, 115, 101])) == TokV::False,
        word_token(byte_chars(seq![105u8, 110])) == TokV::In,
        word_token(byte_chars(seq![110u8, 111, 116])) == TokV::Not,
        word_token(byte_chars(seq![97u8, 110, 100])) == TokV::And,
        word_token(byte_chars(seq![111u8, 114])) == TokV::Or,
{
    reveal_strlit("not");
    reveal_strlit("and");
    reveal_strlit("or");
    reveal_strlit("true");
    reveal_strlit("false");
    reveal_strlit("in");
    assert(byte_chars(seq![116u8, 114, 117, 101]) =~= "true"@);
    assert(byte_chars(seq![102u8, 97, 108, 115, 101]) =~= "false"@);
    assert(byte_chars(seq![105u8, 110]) =~= "in"@);
    assert(byte_chars(seq![110u8, 111, 116]) =~= "not"@);
    assert(byte_chars(seq![97u8, 110, 100]) =~= "and"@);
    assert(byte_chars(seq![111u8, 114]) =~= "or"@);
    assert("true"@ != "not"@ && "true"@ != "and"@ && "true"@ != "or"@);
    assert("false"@ != "not"@ && "false"@ != "and"@ && "false"@ != "or"@ && "false"@ != "true"@);
    assert("in"@[0] != "or"@[0]);
    assert("and"@[0] != "not"@[0]);
    assert("in"@ != "not"@ && "in"@ != "and"@ && "in"@ != "or"@ && "in"@ != "true"@ && "in"@ != "false"@);
    assert("and"@ != "not"@);
    assert("or"@ != "not"@ && "or"@ != "and"@);
}

/// The tokenizer's result from `i`, behind a name whose definition is
/// revealed only in the one-step lemmas below.
#[verifier::opaque]
pub open spec fn lexo(b: Seq<u8>, i: int) -> Result<Seq<TokV>, Seq<char>> {
    lex(b, i)
}

/// A keyword at `i` followed by a non-word byte lexes as its token.
proof fn step_word(b: Seq<u8>, i: int, w: Seq<u8>, t: TokV)
    requires
        0 <= i,
        i + w.len() <= b.len(),
        w.len() > 0,
        b.subrange(i, i + w.len()) == w,
        forall|k: int| 0 <= k < w.len() ==> ((97 <= #[trigger] w[k] <= 122)),
        i + w.len() == b.len() || !is_word_byte(b[i + w.len()]),
        word_token(byte_chars(w)) == t,
    ensures
        lexo(b, i) == cons_tok(t, lexo(b, i + w.len())),
{
    reveal(lexo);
    assert forall|k: int| i <= k < i + w.len() implies is_word_byte(#[trigger] b[k]) by {
        assert(b[k] == b.subrange(i, i + w.len())[k - i]);
    }
    lemma_word_end_at(b, i, w.len() as int);
    assert(b[i] == w[0]);
}

/// `(` and `)` lex as themselves.
proof fn step_paren(b: Seq<u8>, i: int, t: TokV)
    requires
        0 <= i < b.len(),
        (b[i] == 40u8 && t == TokV::LParen) || (b[i] == 41u8 && t == TokV::RParen),
    ensures
        lexo(b, i) == cons_tok(t, lexo(b, i + 1)),
{
    reveal(lexo);
}

/// A space is skipped.
proof fn step_space(b: Seq<u8>, i: int)
    requires
        0 <= i < b.len(),
        b[i] == 32u8,
    ensures
        lexo(b, i) == lexo(b, i + 1),
{
    reveal(lexo);
}

/// `=>` and `<=>` lex as their operators.
proof fn step_arrow(b: Seq<u8>, i: int, ob: Seq<u8>, t: TokV)
    requires
        0 <= i,
        i + ob.len() < b.len(),
        b.subrange(i, i + ob.len()) == ob,
        (ob == seq![61u8, 62] && t == TokV::Implies) || (ob == seq![60u8, 61, 62] && t == TokV::Iff),
    ensures
        lexo(b, i) == cons_tok(t, lexo(b, i + ob.len())),
{
    reveal(lexo);
    assert forall|k: int| 0 <= k < ob.len() implies b[i + k] == #[trigger] ob[k] by {
        assert(b.subrange(i, i + ob.len())[k] == b[i + k]);
    }
}

/// `quote_end` stops at the first quote.
proof fn lemma_quote_end_at(b: Seq<u8>, i: int, j: int)
    requires
        0 <= i <= j < b.len(),
        b[j] == 39u8,
        forall|k: int| i <= k < j ==> #[trigger] b[k] != 39u8,
    ensures
        quote_end(b, i, 39u8) == j,
    decreases j - i,
{
    if i < j {
        lemma_quote_end_at(b, i + 1, j);
    }
}

/// A single-quoted literal holding the UTF-8 bytes of `s` lexes as `s`.
proof fn step_str(b: Seq<u8>, i: int, s: Seq<char>)
    requires
        0 <= i,
        i + encode_utf8(s).len() + 2 <= b.len(),
        b[i] == 39u8,
        b.subrange(i + 1, i + 1 + encode_utf8(s).len()) == encode_utf8(s),
        !encode_utf8(s).contains(39u8),
        b[i + 1 + encode_utf8(s).len()] == 39u8,
    ensures
        lexo(b, i) == cons_tok(TokV::Str(s), lexo(b, i + 2 + encode_utf8(s).len())),
{
    reveal(lexo);
    let es = encode_utf8(s);
    let j = i + 1 + es.len();
    assert forall|k: int| i + 1 <= k < j implies #[trigger] b[k] != 39u8 by {
        assert(b[k] == b.subrange(i + 1, j)[k - i - 1]);
        if es[k - i - 1] == 39u8 {
            assert(es.contains(39u8));
        }
    }
    lemma_quote_end_at(b, i + 1, j);
    encode_utf8_valid_utf8(s);
    encode_utf8_decode_utf8(s);
}

/// The bytes of `w` at `i` of `b`, one by one.
proof fn lemma_bytes_at(b: Seq<u8>, i: int, w: Seq<u8>)
    requires
        0 <= i,
        i + w.len() <= b.len(),
        b.subrange(i, i + w.len()) == w,
    ensures
        forall|k: int| 0 <= k < w.len() ==> b[i + k] == #[trigger] w[k],
{
    assert forall|k: int| 0 <= k < w.len() implies b[i + k] == #[trigger] w[k] by {
        assert(b.subrange(i, i + w.len())[k] == b[i + k]);
    }
}

/// A piece of `w` lies at the matching place of `b`.
proof fn lemma_piece_at(b: Seq<u8>, i: int, w: Seq<u8>, from: int, piece: Seq<u8>)
    requires
        0 <= i,
        0 <= from,
        from + piece.len() <= w.len(),
        i + w.len() <= b.len(),
        b.subrange(i, i + w.len()) == w,
        w.subrange(from, from + piece.len()) == piece,
    ensures
        b.subrange(i + from, i + from + piece.len()) == piece,
{
    assert(b.subrange(i + from, i + from + piece.len()) =~= piece) by {
        assert forall|k: int| 0 <= k < piece.len() implies b.subrange(i + from, i + from + piece.len())[k] == piece[k] by {
            assert(b.subrange(i, i + w.len())[from + k] == b[i + from + k]);
            assert(w.subrange(from, from + piece.len())[k] == w[from + k]);
        }
    }
}

/// The induction hypothesis for a sub-property: wherever its rendering
/// stands, followed by `)`, it lexes as its tokens.
pub open spec fn lexes_anywhere(a: PropV) -> bool {
    forall|bx: Seq<u8>, ix: int| 0 <= ix && ix + print_bytes(a).len() < bx.len()
        && bx.subrange(ix, ix + print_bytes(a).len()) == print_bytes(a) && bx[ix + print_bytes(a).len()] == 41u8
        ==> #[trigger] lexo(bx, ix) == prefix_toks(print_toks(a), lexo(bx, ix + print_bytes(a).len()))
}

/// The rendering of `p` at `i`, followed by `)` or the end, lexes as the
/// printed tokens of `p`.
pub proof fn lemma_lex_printed(p: PropV, b: Seq<u8>, i: int)
    requires
        ids_quote_free(p),
        0 <= i,
        i + print_bytes(p).len() <= b.len(),
        b.subrange(i, i + print_bytes(p).len()) == print_bytes(p),
        i + print_bytes(p).len() == b.len() || b[i + print_bytes(p).len()] == 41u8,
    ensures
        lexo(b, i) == prefix_toks(print_toks(p), lexo(b, i + print_bytes(p).len())),
    decreases p, 0int,
{
    match p {
        PropV::True => {
            lemma_keywords();
            step_word(b, i, print_bytes(p), TokV::True);
        },
        PropV::False => {
            lemma_keywords();
            step_word(b, i, print_bytes(p), TokV::False);
        },
        PropV::In(s) => {
            lemma_lex_in(b, i, s);
        },
        PropV::Not(a) => {
            lemma_lexes_anywhere(*a);
            lemma_lex_not(b, i, *a);
        },
        PropV::And(a, c) => {
            lemma_lexes_anywhere(*a);
            lemma_lexes_anywhere(*c);
            lemma_lex_binary(b, i, *a, *c, seq![97u8, 110, 100], TokV::And);
        },
        PropV::Or(a, c) => {
            lemma_lexes_anywhere(*a);
            lemma_lexes_anywhere(*c);
            lemma_lex_binary(b, i, *a, *c, seq![111u8, 114], TokV::Or);
        },
        PropV::Implies(a, c) => {
            lemma_lexes_anywhere(*a);
            lemma_lexes_anywhere(*c);
            lemma_lex_binary(b, i, *a, *c, seq![61u8, 62], TokV::Implies);
        },
        PropV::Iff(a, c) => {
            lemma_lexes_anywhere(*a);
            lemma_lexes_anywhere(*c);
            lemma_lex_binary(b, i, *a, *c, seq![60u8, 61, 62], TokV::Iff);
        },
    }
}

/// A property whose ids hold no quote lexes as its tokens wherever its
/// rendering stands before a `)`.
proof fn lemma_lexes_anywhere(a: PropV)
    requires
        ids_quote_free(a),
    ensures
        lexes_anywhere(a),
    decreases a, 1int,
{
    assert forall|bx: Seq<u8>, ix: int| 0 <= ix && ix + print_bytes(a).len() < bx.len()
        && bx.subrange(ix, ix + print_bytes(a).len()) == print_bytes(a) && bx[ix + print_bytes(a).len()] == 41u8
        implies #[trigger] lexo(bx, ix) == prefix_toks(print_toks(a), lexo(bx, ix + print_bytes(a).len())) by {
        lemma_lex_printed(a, bx, ix);
    }
}

/// `in('s')` at `i` lexes as its tokens.
proof fn lemma_lex_in(b: Seq<u8>, i: int, s: Seq<char>)
    requires
        !encode_utf8(s).contains(39u8),
        0 <= i,
        i + print_bytes(PropV::In(s)).len() <= b.len(),
        b.subrange(i, i + print_bytes(PropV::In(s)).len()) == print_bytes(PropV::In(s)),
        i + print_bytes(PropV::In(s)).len() == b.len() || b[i + print_bytes(PropV::In(s)).len()] == 41u8,
    ensures
        lexo(b, i) == prefix_toks(print_toks(PropV::In(s)), lexo(b, i + print_bytes(PropV::In(s)).len())),
{
    let es = encode_utf8(s);
    let w = print_bytes(PropV::In(s));
    let e = i + w.len();
    lemma_bytes_at(b, i, w);
    lemma_keywords();
    assert(w[0] == 105u8 && w[1] == 110u8 && w[2] == 40u8 && w[3] == 39u8);
    assert(w[4 + es.len() as int] == 39u8 && w[5 + es.len() as int] == 41u8);
    let kw = seq![105u8, 110];
    assert(w.subrange(0, 2) =~= kw);
    lemma_piece_at(b, i, w, 0, kw);
    step_word(b, i, kw, TokV::In);
    step_paren(b, i + 2, TokV::LParen);
    assert(w.subrange(4, 4 + es.len() as int) =~= es);
    lemma_piece_at(b, i, w, 4, es);
    step_str(b, i + 3, s);
    step_paren(b, i + 5 + es.len(), TokV::RParen);
    assert(e == i + 6 + es.len());
    let r = lexo(b, e);
    if let Ok(ts) = r {
        assert(print_toks(PropV::In(s)) + ts =~= seq![TokV::In] + (seq![TokV::LParen] + (seq![TokV::Str(s)]
            + (seq![TokV::RParen] + ts))));
    }
}

/// `not (a)` at `i` lexes as its tokens.
proof fn lemma_lex_not(b: Seq<u8>, i: int, a: PropV)
    requires
        lexes_anywhere(a),
        0 <= i,
        i + print_bytes(PropV::Not(Box::new(a))).len() <= b.len(),
        b.subrange(i, i + print_bytes(PropV::Not(Box::new(a))).len()) == print_bytes(PropV::Not(Box::new(a))),
        i + print_bytes(PropV::Not(Box::new(a))).len() == b.len() || b[i + print_bytes(PropV::Not(Box::new(a))).len()] == 41u8,
    ensures
        lexo(b, i) == prefix_toks(print_toks(PropV::Not(Box::new(a))), lexo(b, i + print_bytes(PropV::Not(Box::new(a))).len())),
{
    let pa = print_bytes(a);
    let w = print_bytes(PropV::Not(Box::new(a)));
    let e = i + w.len();
    lemma_bytes_at(b, i, w);
    lemma_keywords();
    assert(w[0] == 110u8 && w[1] == 111u8 && w[2] == 116u8 && w[3] == 32u8 && w[4] == 40u8);
    assert(w[5 + pa.len() as int] == 41u8);
    let kw = seq![110u8, 111, 116];
    assert(w.subrange(0, 3) =~= kw);
    lemma_piece_at(b, i, w, 0, kw);
    step_word(b, i, kw, TokV::Not);
    step_space(b, i + 3);
    step_paren(b, i + 4, TokV::LParen);
    assert(w.subrange(5, 5 + pa.len() as int) =~= pa);
    lemma_piece_at(b, i, w, 5, pa);
    assert(lexo(b, i + 5) == prefix_toks(print_toks(a), lexo(b, i + 5 + pa.len())));
    step_paren(b, i + 5 + pa.len(), TokV::RParen);
    assert(e == i + 6 + pa.len());
    let r = lexo(b, e);
    if let Ok(ts) = r {
        if let Ok(ta) = lexo(b, i + 5 + pa.len()) {
            assert(ta == seq![TokV::RParen] + ts);
        }
        assert(print_toks(PropV::Not(Box::new(a))) + ts =~= seq![TokV::Not] + (seq![TokV::LParen] + (print_toks(a)
            + (seq![TokV::RParen] + ts))));
    }
}

/// `( a )` at `x`, followed by anything, lexes as its tokens.
proof fn lemma_lex_group(b: Seq<u8>, x: int, a: PropV)
    requires
        lexes_anywhere(a),
        0 <= x,
        x + 2 + print_bytes(a).len() <= b.len(),
        b[x] == 40u8,
        b.subrange(x + 1, x + 1 + print_bytes(a).len()) == print_bytes(a),
        b[x + 1 + print_bytes(a).len()] == 41u8,
    ensures
        lexo(b, x) == prefix_toks(paren_toks(print_toks(a)), lexo(b, x + 2 + print_bytes(a).len())),
{
    let la = print_bytes(a).len() as int;
    step_paren(b, x, TokV::LParen);
    assert(lexo(b, x + 1) == prefix_toks(print_toks(a), lexo(b, x + 1 + la)));
    step_paren(b, x + 1 + la, TokV::RParen);
    if let Ok(ts) = lexo(b, x + 2 + la) {
        assert(paren_toks(print_toks(a)) + ts =~= seq![TokV::LParen] + (print_toks(a) + (seq![TokV::RParen] + ts)));
    }
}

/// ` OP ` at `x` lexes as the operator.
proof fn lemma_lex_op_spaced(b: Seq<u8>, x: int, ob: Seq<u8>, op: TokV)
    requires
        0 <= x,
        x + 2 + ob.len() <= b.len(),
        b[x] == 32u8,
        b.subrange(x + 1, x + 1 + ob.len()) == ob,
        b[x + 1 + ob.len()] == 32u8,
        (ob == seq![97u8, 110, 100] && op == TokV::And) || (ob == seq![111u8, 114] && op == TokV::Or)
            || (ob == seq![61u8, 62] && op == TokV::Implies) || (ob == seq![60u8, 61, 62] && op == TokV::Iff),
    ensures
        lexo(b, x) == cons_tok(op, lexo(b, x + 2 + ob.len())),
{
    step_space(b, x);
    if op == TokV::And || op == TokV::Or {
        lemma_keywords();
        step_word(b, x + 1, ob, op);
    } else {
        step_arrow(b, x + 1, ob, op);
    }
    step_space(b, x + 1 + ob.len());
}

/// Where the pieces of `(x) OP (y)` stand when it is at `i` of `b`.
proof fn lemma_binary_layout(b: Seq<u8>, i: int, x: Seq<u8>, ob: Seq<u8>, y: Seq<u8>)
    requires
        0 <= i,
        i + binary_bytes(x, ob, y).len() <= b.len(),
        b.subrange(i, i + binary_bytes(x, ob, y).len()) == binary_bytes(x, ob, y),
    ensures
        binary_bytes(x, ob, y).len() == x.len() + ob.len() + y.len() + 6,
        b[i] == 40u8,
        b.subrange(i + 1, i + 1 + x.len()) == x,
        b[i + 1 + x.len()] == 41u8,
        b[i + 2 + x.len()] == 32u8,
        b.subrange(i + 3 + x.len(), i + 3 + x.len() + ob.len()) == ob,
        b[i + 3 + x.len() + ob.len()] == 32u8,
        b[i + 4 + x.len() + ob.len()] == 40u8,
        b.subrange(i + 5 + x.len() + ob.len(), i + 5 + x.len() + ob.len() + y.len()) == y,
        b[i + 5 + x.len() + ob.len() + y.len()] == 41u8,
{
    reveal(binary_bytes);
    let w = binary_bytes(x, ob, y);
    let lx = x.len() as int;
    let lo = ob.len() as int;
    let ly = y.len() as int;
    let mid = seq![41u8, 32] + ob + seq![32u8, 40];
    assert(mid.len() == lo + 4);
    assert(mid[0] == 41u8 && mid[1] == 32u8 && mid[2 + lo] == 32u8 && mid[3 + lo] == 40u8);
    assert(mid.subrange(2, 2 + lo) =~= ob);
    let w1 = seq![40u8] + x;
    let w2 = w1 + mid;
    let w3 = w2 + y;
    assert(w == w3 + seq![41u8]);
    assert(w.subrange(0, lx + 1) =~= w1);
    assert(w.subrange(lx + 1, lx + 5 + lo) =~= mid);
    assert(w.subrange(lx + 5 + lo, lx + 5 + lo + ly) =~= y);
    assert(w1.subrange(1, lx + 1) =~= x);
    lemma_bytes_at(b, i, w);
    assert(w[0] == 40u8);
    assert(w[lx + 5 + lo + ly] == 41u8);
    lemma_piece_at(b, i, w, 0, w1);
    lemma_piece_at(b, i + 0, w1, 1, x);
    lemma_piece_at(b, i, w, lx + 1, mid);
    lemma_bytes_at(b, i + lx + 1, mid);
    lemma_piece_at(b, i + lx + 1, mid, 2, ob);
    lemma_piece_at(b, i, w, lx + 5 + lo, y);
}

/// `(a) OP (b)` at `i` lexes as its printed tokens.
#[verifier::spinoff_prover]
#[verifier::rlimit(30)]
proof fn lemma_lex_binary(b: Seq<u8>, i: int, a: PropV, c: PropV, ob: Seq<u8>, op: TokV)
    requires
        0 <= i,
        lexes_anywhere(a),
        lexes_anywhere(c),
        (ob == seq![97u8, 110, 100] && op == TokV::And) || (ob == seq![111u8, 114] && op == TokV::Or)
            || (ob == seq![61u8, 62] && op == TokV::Implies) || (ob == seq![60u8, 61, 62] && op == TokV::Iff),
        i + binary_bytes(print_bytes(a), ob, print_bytes(c)).len() <= b.len(),
        b.subrange(i, i + binary_bytes(print_bytes(a), ob, print_bytes(c)).len()) == binary_bytes(print_bytes(a), ob, print_bytes(c)),
    ensures
        lexo(b, i) == prefix_toks(paren_toks(print_toks(a)) + seq![op] + paren_toks(print_toks(c)),
            lexo(b, i + binary_bytes(print_bytes(a), ob, print_bytes(c)).len())),
{
    let pa = print_bytes(a);
    let pc = print_bytes(c);
    lemma_binary_layout(b, i, pa, ob, pc);
    let la = pa.len() as int;
    let lo = ob.len() as int;
    let lc = pc.len() as int;
    let x2 = i + 2 + la;
    let x3 = x2 + 2 + lo;
    let e = x3 + 2 + lc;
    lemma_lex_group(b, i, a);
    lemma_lex_op_spaced(b, x2, ob, op);
    lemma_lex_group(b, x3, c);
    let toks = paren_toks(print_toks(a)) + seq![op] + paren_toks(print_toks(c));
    if let Ok(ts) = lexo(b, e) {
        assert(toks + ts =~= paren_toks(print_toks(a)) + (seq![op] + (paren_toks(print_toks(c)) + ts)));
    }
}

/// The fully parenthesised rendering of `p` tokenizes to its printed
/// tokens and parses back to `p`.
pub proof fn lemma_print_parse(p: PropV)
    requires
        ids_quote_free(p),
    ensures
        lex(print_bytes(p), 0) == Ok::<Seq<TokV>, Seq<char>>(print_toks(p)),
        spec_parse_property(print_bytes(p)) == Ok::<PropV, Seq<char>>(p),
{
    let b = print_bytes(p);
    assert(b.subrange(0, b.len() as int) =~= b);
    lemma_lex_printed(p, b, 0);
    reveal(lexo);
    assert(lex(b, b.len() as int) == Ok::<Seq<TokV>, Seq<char>>(Seq::empty()));
    assert(print_toks(p) + Seq::<TokV>::empty() =~= print_toks(p));
    let t = print_toks(p);
    assert(t.subrange(0, t.len() as int) =~= t);
    lemma_parse_printed(p, t, 0);
}

/// `not (a) and (b)`, each operand in its rendering.
pub open spec fn not_and_bytes(a: PropV, b: PropV) -> Seq<u8> {
    seq![110u8, 111, 116, 32, 40] + print_bytes(a) + seq![41u8, 32, 97, 110, 100, 32, 40] + print_bytes(b) + seq![41u8]
}

/// `(a) => (b) <=> (c)`, each operand in its rendering.
pub open spec fn implies_iff_bytes(a: PropV, b: PropV, c: PropV) -> Seq<u8> {
    seq![40u8] + print_bytes(a) + seq![41u8, 32, 61, 62, 32, 40] + print_bytes(b) + seq![41u8, 32, 60, 61, 62, 32, 40]
        + print_bytes(c) + seq![41u8]
}

/// Lexing from the end of the bytes gives no tokens.
proof fn lemma_lexo_end(b: Seq<u8>)
    ensures
        lexo(b, b.len() as int) == Ok::<Seq<TokV>, Seq<char>>(Seq::empty()),
{
    reveal(lexo);
}

/// `not (a) and (b)` tokenizes as `not`, `(a)`, `and`, `(b)` and parses as
/// the conjunction of `not a` and `b`.
#[verifier::spinoff_prover]
pub proof fn lemma_not_and_bytes(a: PropV, b: PropV)
    requires
        ids_quote_free(a),
        ids_quote_free(b),
    ensures
        lex(not_and_bytes(a, b), 0) == Ok::<Seq<TokV>, Seq<char>>(
            seq![TokV::Not] + paren_toks(print_toks(a)) + seq![TokV::And] + paren_toks(print_toks(b))),
        spec_parse_property(not_and_bytes(a, b))
            == Ok::<PropV, Seq<char>>(PropV::And(Box::new(PropV::Not(Box::new(a))), Box::new(b))),
{
    let pa = print_bytes(a);
    let pb = print_bytes(b);
    let la = pa.len() as int;
    let lb = pb.len() as int;
    let w = not_and_bytes(a, b);
    assert(w.len() == la + lb + 13);
    assert(w[0] == 110u8 && w[1] == 111u8 && w[2] == 116u8 && w[3] == 32u8 && w[4] == 40u8);
    assert(w.subrange(5, 5 + la) =~= pa);
    assert(w[5 + la] == 41u8 && w[6 + la] == 32u8 && w[10 + la] == 32u8 && w[11 + la] == 40u8);
    let ob = seq![97u8, 110, 100];
    assert(w.subrange(7 + la, 10 + la) =~= ob);
    assert(w.subrange(12 + la, 12 + la + lb) =~= pb);
    assert(w[12 + la + lb] == 41u8);
    lemma_lexes_anywhere(a);
    lemma_lexes_anywhere(b);
    lemma_keywords();
    let kw = seq![110u8, 111, 116];
    assert(w.subrange(0, 3) =~= kw);
    step_word(w, 0, kw, TokV::Not);
    step_space(w, 3);
    lemma_lex_group(w, 4, a);
    lemma_lex_op_spaced(w, 6 + la, ob, TokV::And);
    lemma_lex_group(w, 11 + la, b);
    lemma_lexo_end(w);
    let t = seq![TokV::Not] + paren_toks(print_toks(a)) + seq![TokV::And] + paren_toks(print_toks(b));
    assert(paren_toks(print_toks(b)) + Seq::<TokV>::empty() =~= paren_toks(print_toks(b)));
    assert(seq![TokV::Not] + (paren_toks(print_toks(a)) + (seq![TokV::And] + paren_toks(print_toks(b)))) =~= t);
    reveal(lexo);
    lemma_not_and_precedence(a, b);
}

/// Where the pieces of `(a) => (b) <=> (c)` stand.
#[verifier::spinoff_prover]
proof fn lemma_implies_iff_layout(a: PropV, b: PropV, c: PropV)
    ensures
        ({
            let w = implies_iff_bytes(a, b, c);
            let la = print_bytes(a).len() as int;
            let lb = print_bytes(b).len() as int;
            let lc = print_bytes(c).len() as int;
            &&& w.len() == la + lb + lc + 15
            &&& w[0] == 40u8
            &&& w.subrange(1, 1 + la) == print_bytes(a)
            &&& w[1 + la] == 41u8 && w[2 + la] == 32u8 && w[5 + la] == 32u8 && w[6 + la] == 40u8
            &&& w.subrange(3 + la, 5 + la) == seq![61u8, 62]
            &&& w.subrange(7 + la, 7 + la + lb) == print_bytes(b)
            &&& w[7 + la + lb] == 41u8 && w[8 + la + lb] == 32u8 && w[12 + la + lb] == 32u8 && w[13 + la + lb] == 40u8
            &&& w.subrange(9 + la + lb, 12 + la + lb) == seq![60u8, 61, 62]
            &&& w.subrange(14 + la + lb, 14 + la + lb + lc) == print_bytes(c)
            &&& w[14 + la + lb + lc] == 41u8
        }),
{
    let pa = print_bytes(a);
    let pb = print_bytes(b);
    let pc = print_bytes(c);
    let la = pa.len() as int;
    let lb = pb.len() as int;
    let lc = pc.len() as int;
    let w = implies_iff_bytes(a, b, c);
    assert(w.subrange(1, 1 + la) =~= pa);
    assert(w.subrange(3 + la, 5 + la) =~= seq![61u8, 62]);
    assert(w.subrange(7 + la, 7 + la + lb) =~= pb);
    assert(w.subrange(9 + la + lb, 12 + la + lb) =~= seq![60u8, 61, 62]);
    assert(w.subrange(14 + la + lb, 14 + la + lb + lc) =~= pc);
}

/// `(a) => (b) <=> (c)` tokenizes as `(a)`, `=>`, `(b)`, `<=>`, `(c)`.
#[verifier::spinoff_prover]
proof fn lemma_implies_iff_lex(a: PropV, b: PropV, c: PropV)
    requires
        ids_quote_free(a),
        ids_quote_free(b),
        ids_quote_free(c),
    ensures
        lex(implies_iff_bytes(a, b, c), 0) == Ok::<Seq<TokV>, Seq<char>>(
            paren_toks(print_toks(a)) + seq![TokV::Implies] + paren_toks(print_toks(b)) + seq![TokV::Iff]
                + paren_toks(print_toks(c))),
{
    let la = print_bytes(a).len() as int;
    let lb = print_bytes(b).len() as int;
    let w = implies_iff_bytes(a, b, c);
    lemma_implies_iff_layout(a, b, c);
    lemma_lexes_anywhere(a);
    lemma_lexes_anywhere(b);
    lemma_lexes_anywhere(c);
    lemma_lex_group(w, 0, a);
    lemma_lex_op_spaced(w, 2 + la, seq![61u8, 62], TokV::Implies);
    lemma_lex_group(w, 6 + la, b);
    lemma_lex_op_spaced(w, 8 + la + lb, seq![60u8, 61, 62], TokV::Iff);
    lemma_lex_group(w, 13 + la + lb, c);
    lemma_lexo_end(w);
    let gc = paren_toks(print_toks(c));
    let t = paren_toks(print_toks(a)) + seq![TokV::Implies] + paren_toks(print_toks(b)) + seq![TokV::Iff] + gc;
    assert(gc + Seq::<TokV>::empty() =~= gc);
    assert(paren_toks(print_toks(a)) + (seq![TokV::Implies] + (paren_toks(print_toks(b)) + (seq![TokV::Iff] + gc))) =~= t);
    reveal(lexo);
}

/// `(a) => (b) <=> (c)` tokenizes as `(a)`, `=>`, `(b)`, `<=>`, `(c)` and
/// parses as the biconditional of `a => b` and `c`.
pub proof fn lemma_implies_iff_bytes(a: PropV, b: PropV, c: PropV)
    requires
        ids_quote_free(a),
        ids_quote_free(b),
        ids_quote_free(c),
    ensures
        lex(implies_iff_bytes(a, b, c), 0) == Ok::<Seq<TokV>, Seq<char>>(
            paren_toks(print_toks(a)) + seq![TokV::Implies] + paren_toks(print_toks(b)) + seq![TokV::Iff]
                + paren_toks(print_toks(c))),
        spec_parse_property(implies_iff_bytes(a, b, c)) == Ok::<PropV, Seq<char>>(PropV::Iff(
            Box::new(PropV::Implies(Box::new(a), Box::new(b))), Box::new(c))),
{
    lemma_implies_iff_lex(a, b, c);
    lemma_implies_iff_precedence(a, b, c);
}

} // verus!
