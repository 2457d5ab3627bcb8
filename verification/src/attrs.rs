//! Reading the two attributes of an `@invariant` pragma: each is found by
//! its own name, whichever comes first.
use vstd::prelude::*;
use crate::pragma::{find_from, attr_value, pragma_of, invariant_tag, trim, trim_start, trim_end, is_ws, pragmas,
    pragmas_at, comment_open, comment_close, lemma_find_none};

verus! {

/// `s` holds no double quote.
pub open spec fn quote_free(s: Seq<char>) -> bool {
    forall|i: int| 0 <= i < s.len() ==> #[trigger] s[i] != '"'
}

/// `s` ends with `w`.
pub open spec fn ends_with(s: Seq<char>, w: Seq<char>) -> bool {
    s.len() >= w.len() && s.subrange(s.len() - w.len(), s.len() as int) == w
}

/// `id="I" expr="E"`.
pub open spec fn id_first(i: Seq<char>, e: Seq<char>) -> Seq<char> {
    seq!['i', 'd', '=', '"'] + i + seq!['"', ' ', 'e', 'x', 'p', 'r', '=', '"'] + e + seq!['"']
}

/// `expr="E" id="I"`.
pub open spec fn expr_first(i: Seq<char>, e: Seq<char>) -> Seq<char> {
    seq!['e', 'x', 'p', 'r', '=', '"'] + e + seq!['"', ' ', 'i', 'd', '=', '"'] + i + seq!['"']
}

/// The first occurrence of `pat` from `from` on is at `k`.
proof fn lemma_find_first(s: Seq<char>, pat: Seq<char>, from: int, k: int)
    requires
        0 <= from <= k,
        k + pat.len() <= s.len(),
        s.subrange(k, k + pat.len()) == pat,
        forall|j: int| from <= j < k ==> #[trigger] s.subrange(j, j + pat.len()) != pat,
    ensures
        find_from(s, pat, from) == Some(k),
    decreases k - from,
{
    if from < k {
        assert(s.subrange(from, from + pat.len()) != pat);
        lemma_find_first(s, pat, from + 1, k);
    }
}

/// `name="v"` at `k`, with no `name="` before it, gives the value `v`.
proof fn lemma_attr_value_at(s: Seq<char>, name: Seq<char>, k: int, v: Seq<char>)
    requires
        0 <= k,
        k + name.len() + 2 + v.len() < s.len(),
        s.subrange(k, k + name.len() + 2) == name + seq!['=', '"'],
        forall|j: int| 0 <= j < k ==> #[trigger] s.subrange(j, j + name.len() + 2) != name + seq!['=', '"'],
        s.subrange(k + name.len() + 2, k + name.len() + 2 + v.len()) == v,
        quote_free(v),
        s[k + name.len() + 2 + v.len()] == '"',
    ensures
        attr_value(s, name) == Some(v),
{
    let key = name + seq!['=', '"'];
    let start = k + key.len();
    let end = start + v.len();
    assert(key.len() == name.len() + 2);
    assert forall|j: int| 0 <= j < k implies #[trigger] s.subrange(j, j + key.len()) != key by {
        assert(s.subrange(j, j + name.len() + 2) != name + seq!['=', '"']);
    }
    lemma_find_first(s, key, 0, k);
    let q = seq!['"'];
    assert(s.subrange(end, end + 1) =~= q);
    assert forall|j: int| start <= j < end implies #[trigger] s.subrange(j, j + q.len()) != q by {
        assert(s.subrange(j, j + 1)[0] == s[j]);
        assert(s[j] == s.subrange(start, end)[j - start]);
    }
    lemma_find_first(s, q, start, end);
}

/// A body `@invariant ATTRS`, with `ATTRS` starting and ending with a
/// character that is not white space, gives the attributes `ATTRS`.
proof fn lemma_body_attrs(s: Seq<char>)
    requires
        s.len() > 0,
        !is_ws(s[0]),
        !is_ws(s.last()),
    ensures
        pragma_of(invariant_tag() + seq![' '] + s) == match (attr_value(s, "id"@), attr_value(s, "expr"@)) {
            (Some(id), Some(expr)) => Some((id, expr)),
            _ => None,
        },
{
    let tag = invariant_tag();
    let body = tag + seq![' '] + s;
    assert(body.subrange(0, tag.len() as int) =~= tag);
    let after = body.subrange(tag.len() as int, body.len() as int);
    assert(after =~= seq![' '] + s);
    assert(is_ws(after[0]));
    assert(after.drop_first() =~= s);
    assert(trim_start(s) == s);
    assert(trim_start(after) == s);
    assert(trim_end(s) == s);
    assert(trim(after) == s);
}

/// `id="I" expr="E"` is read as `(I, E)`.
#[verifier::spinoff_prover]
proof fn lemma_id_first_read(i: Seq<char>, e: Seq<char>)
    requires
        quote_free(i),
        quote_free(e),
        !ends_with(e, seq!['i', 'd', '=']),
        !ends_with(i, seq!['e', 'x', 'p', 'r', '=']),
    ensures
        pragma_of(invariant_tag() + seq![' '] + id_first(i, e)) == Some((i, e)),
{
    reveal_strlit("id");
    reveal_strlit("expr");
    let idk = seq!['i', 'd', '=', '"'];
    let exk = seq!['e', 'x', 'p', 'r', '=', '"'];
    assert("id"@ + seq!['=', '"'] =~= idk);
    assert("expr"@ + seq!['=', '"'] =~= exk);
    let li = i.len() as int;
    let le = e.len() as int;
    // `id="I" expr="E"`
    let a = id_first(i, e);
    assert(a.len() == li + le + 13);
    assert forall|m: int| 0 <= m < li implies a[4 + m] == #[trigger] i[m] by {}
    assert forall|m: int| 0 <= m < le implies a[12 + li + m] == #[trigger] e[m] by {}
    assert(a.subrange(0, 4) =~= idk);
    assert(a.subrange(4, 4 + li) =~= i);
    assert(a[4 + li] == '"');
    lemma_attr_value_at(a, "id"@, 0, i);
    assert(a.subrange(6 + li, 12 + li) =~= exk);
    assert(a.subrange(12 + li, 12 + li + le) =~= e);
    assert(a[12 + li + le] == '"');
    assert forall|j: int| 0 <= j < 6 + li implies #[trigger] a.subrange(j, j + 6) != exk by {
        if a.subrange(j, j + 6) == exk {
            assert(a.subrange(j, j + 6)[5] == a[j + 5]);
            assert(a.subrange(j, j + 6)[0] == a[j]);
            if 4 <= j + 5 < 4 + li {
                assert(a[j + 5] == i[j + 1]);
            } else if j + 5 < 4 {
            } else if j + 5 == 4 + li {
                if li >= 5 {
                    assert(i.subrange(li - 5, li) =~= seq!['e', 'x', 'p', 'r', '=']) by {
                        assert forall|m: int| 0 <= m < 5 implies i.subrange(li - 5, li)[m]
                            == seq!['e', 'x', 'p', 'r', '='][m] by {
                            assert(a.subrange(j, j + 6)[m] == a[j + m]);
                            assert(a[j + m] == i[li - 5 + m]);
                        }
                    }
                } else {
                    assert(a.subrange(j, j + 6)[4 - li] == a[j + 4 - li]);
                }
            } else {
                assert(j + 5 == 5 + li);
                assert(a[5 + li] == ' ');
            }
        }
    }
    assert forall|j: int| 0 <= j < 6 + li implies #[trigger] a.subrange(j, j + "expr"@.len() + 2)
        != "expr"@ + seq!['=', '"'] by {
        assert(a.subrange(j, j + 6) != exk);
    }
    lemma_attr_value_at(a, "expr"@, 6 + li, e);
    lemma_body_attrs(a);

}

/// `expr="E" id="I"` is read as `(I, E)`.
#[verifier::spinoff_prover]
proof fn lemma_expr_first_read(i: Seq<char>, e: Seq<char>)
    requires
        quote_free(i),
        quote_free(e),
        !ends_with(e, seq!['i', 'd', '=']),
        !ends_with(i, seq!['e', 'x', 'p', 'r', '=']),
    ensures
        pragma_of(invariant_tag() + seq![' '] + expr_first(i, e)) == Some((i, e)),
{
    reveal_strlit("id");
    reveal_strlit("expr");
    let idk = seq!['i', 'd', '=', '"'];
    let exk = seq!['e', 'x', 'p', 'r', '=', '"'];
    assert("id"@ + seq!['=', '"'] =~= idk);
    assert("expr"@ + seq!['=', '"'] =~= exk);
    let li = i.len() as int;
    let le = e.len() as int;
    // `expr="E" id="I"`
    let b = expr_first(i, e);
    assert(b.len() == li + le + 13);
    assert forall|m: int| 0 <= m < le implies b[6 + m] == #[trigger] e[m] by {}
    assert forall|m: int| 0 <= m < li implies b[12 + le + m] == #[trigger] i[m] by {}
    assert(b.subrange(0, 6) =~= exk);
    assert(b.subrange(6, 6 + le) =~= e);
    assert(b[6 + le] == '"');
    lemma_attr_value_at(b, "expr"@, 0, e);
    assert(b.subrange(8 + le, 12 + le) =~= idk);
    assert(b.subrange(12 + le, 12 + le + li) =~= i);
    assert(b[12 + le + li] == '"');
    assert forall|j: int| 0 <= j < 8 + le implies #[trigger] b.subrange(j, j + 4) != idk by {
        if b.subrange(j, j + 4) == idk {
            assert(b.subrange(j, j + 4)[3] == b[j + 3]);
            assert(b.subrange(j, j + 4)[0] == b[j]);
            if 6 <= j + 3 < 6 + le {
                assert(b[j + 3] == e[j - 3]);
            } else if j + 3 < 6 {
                assert(j + 3 == 5);
            } else if j + 3 == 6 + le {
                if le >= 3 {
                    assert(e.subrange(le - 3, le) =~= seq!['i', 'd', '=']) by {
                        assert forall|m: int| 0 <= m < 3 implies e.subrange(le - 3, le)[m]
                            == seq!['i', 'd', '='][m] by {
                            assert(b.subrange(j, j + 4)[m] == b[j + m]);
                            assert(b[j + m] == e[le - 3 + m]);
                        }
                    }
                } else {
                    assert(b.subrange(j, j + 4)[2 - le] == b[j + 2 - le]);
                }
            } else {
                assert(7 + le <= j + 3 < 11 + le);
                assert(b[7 + le] == ' ');
                assert(b[8 + le] == 'i');
                assert(b[9 + le] == 'd');
                assert(b[10 + le] == '=');
            }
        }
    }
    assert forall|j: int| 0 <= j < 8 + le implies #[trigger] b.subrange(j, j + "id"@.len() + 2)
        != "id"@ + seq!['=', '"'] by {
        assert(b.subrange(j, j + 4) != idk);
    }
    lemma_attr_value_at(b, "id"@, 8 + le, i);
    lemma_body_attrs(b);
}

/// The `id` and `expr` attributes are read the same in either order.
pub proof fn lemma_attribute_order(i: Seq<char>, e: Seq<char>)
    requires
        quote_free(i),
        quote_free(e),
        !ends_with(e, seq!['i', 'd', '=']),
        !ends_with(i, seq!['e', 'x', 'p', 'r', '=']),
    ensures
        pragma_of(invariant_tag() + seq![' '] + id_first(i, e)) == Some((i, e)),
        pragma_of(invariant_tag() + seq![' '] + expr_first(i, e)) == Some((i, e)),
{
    lemma_id_first_read(i, e);
    lemma_expr_first_read(i, e);
}

/// The comment `<!-- @invariant ATTRS -->`.
pub open spec fn pragma_comment(attrs: Seq<char>) -> Seq<char> {
    comment_open() + seq![' '] + invariant_tag() + seq![' '] + attrs + seq![' '] + comment_close()
}

/// A document that is one `@invariant` comment holds the pragma its body
/// declares, if any.
#[verifier::spinoff_prover]
pub proof fn lemma_comment_pragmas(attrs: Seq<char>)
    requires
        attrs.len() > 0,
        !is_ws(attrs[0]),
        !is_ws(attrs.last()),
        find_from(attrs, comment_close(), 0) is None,
    ensures
        pragmas(pragma_comment(attrs)) == match pragma_of(invariant_tag() + seq![' '] + attrs) {
            Some(p) => seq![p],
            None => Seq::<(Seq<char>, Seq<char>)>::empty(),
        },
{
    let d = pragma_comment(attrs);
    let la = attrs.len() as int;
    let tag = invariant_tag();
    let close = comment_close();
    let end = 17 + la;
    assert(d.len() == la + 20);
    assert forall|m: int| 0 <= m < la implies d[16 + m] == #[trigger] attrs[m] by {}
    assert(d.subrange(0, 4) =~= comment_open());
    lemma_find_first(d, comment_open(), 0, 0);
    assert(d.subrange(end, end + 3) =~= close);
    lemma_find_none(attrs, close, 0);
    assert forall|j: int| 4 <= j < end implies #[trigger] d.subrange(j, j + close.len()) != close by {
        if d.subrange(j, j + 3) == close {
            assert(d.subrange(j, j + 3)[2] == d[j + 2]);
            assert(d.subrange(j, j + 3)[1] == d[j + 1]);
            assert(d.subrange(j, j + 3)[0] == d[j]);
            if 16 <= j && j + 3 <= 16 + la {
                let m0 = j - 16;
                assert(attrs.subrange(m0, m0 + close.len()) =~= close) by {
                    assert forall|m: int| 0 <= m < 3 implies attrs.subrange(m0, m0 + close.len())[m] == close[m] by {
                        assert(d[j + m] == attrs[j - 16 + m]);
                    }
                }
            } else if j < 16 {
                let pre = seq!['<', '!', '-', '-', ' ', '@', 'i', 'n', 'v', 'a', 'r', 'i', 'a', 'n', 't', ' '];
                assert(d.subrange(0, 16) =~= pre);
                assert(d[j] == pre[j]);
                assert(j == 4 || j == 5 || j == 6 || j == 7 || j == 8 || j == 9 || j == 10 || j == 11 || j == 12
                    || j == 13 || j == 14 || j == 15);
            } else {
                assert(j + 2 >= 16 + la);
                assert(d[16 + la] == ' ');
                assert(j + 2 == 16 + la || j + 2 == 16 + la || j + 1 == 16 + la || j == 16 + la);
            }
        }
    }
    lemma_find_first(d, close, 4, end);
    let inside = d.subrange(4, end);
    let body = tag + seq![' '] + attrs;
    assert(inside =~= seq![' '] + (body + seq![' ']));
    assert((seq![' '] + (body + seq![' '])).drop_first() =~= body + seq![' ']);
    assert(body[0] == '@');
    assert(trim_start(body + seq![' ']) == body + seq![' ']);
    assert(trim_start(inside) == body + seq![' ']);
    assert((body + seq![' ']).drop_last() =~= body);
    assert(body.last() == attrs.last());
    assert(trim_end(body) == body);
    assert(trim_end(body + seq![' ']) == body);
    assert(trim(inside) == body);
    assert(pragmas_at(d, end + 3) == Seq::<(Seq<char>, Seq<char>)>::empty());
    if let Some(p) = pragma_of(body) {
        assert(seq![p] + Seq::<(Seq<char>, Seq<char>)>::empty() =~= seq![p]);
    }
}

/// Text without `-->` inside two quoted values has none in `id="I" expr="E"`.
#[verifier::spinoff_prover]
proof fn lemma_id_first_unclosed(i: Seq<char>, e: Seq<char>)
    requires
        find_from(i, comment_close(), 0) is None,
        find_from(e, comment_close(), 0) is None,
    ensures
        find_from(id_first(i, e), comment_close(), 0) is None,
{
    let a = id_first(i, e);
    let close = comment_close();
    let li = i.len() as int;
    let le = e.len() as int;
    assert(a.len() == li + le + 13);
    assert forall|m: int| 0 <= m < li implies a[4 + m] == #[trigger] i[m] by {}
    assert forall|m: int| 0 <= m < le implies a[12 + li + m] == #[trigger] e[m] by {}
    let head = seq!['i', 'd', '=', '"'];
    let mid = seq!['"', ' ', 'e', 'x', 'p', 'r', '=', '"'];
    assert(a.subrange(0, 4) =~= head);
    assert(a.subrange(4 + li, 12 + li) =~= mid);
    assert(a[12 + li + le] == '"');
    lemma_find_none(i, close, 0);
    lemma_find_none(e, close, 0);
    assert forall|j: int| 0 <= j && j + close.len() <= a.len() implies #[trigger] a.subrange(j, j + close.len()) != close by {
        if a.subrange(j, j + 3) == close {
            assert(a.subrange(j, j + 3)[0] == a[j]);
            assert(a.subrange(j, j + 3)[1] == a[j + 1]);
            assert(a.subrange(j, j + 3)[2] == a[j + 2]);
            if j < 4 {
                assert(a[j] == head[j]);
                assert(j == 0 || j == 1 || j == 2 || j == 3);
            } else if j + 3 <= 4 + li {
                let m0 = j - 4;
                assert(i.subrange(m0, m0 + close.len()) =~= close) by {
                    assert forall|m: int| 0 <= m < 3 implies i.subrange(m0, m0 + close.len())[m] == close[m] by {
                        assert(a[j + m] == i[m0 + m]);
                    }
                }
            } else if j < 4 + li {
                assert(a[4 + li] == '"');
            } else if j < 12 + li {
                assert(a[j] == mid[j - 4 - li]);
                let k = j - 4 - li;
                assert(k == 0 || k == 1 || k == 2 || k == 3 || k == 4 || k == 5 || k == 6 || k == 7);
            } else if j + 3 <= 12 + li + le {
                let m0 = j - 12 - li;
                assert(e.subrange(m0, m0 + close.len()) =~= close) by {
                    assert forall|m: int| 0 <= m < 3 implies e.subrange(m0, m0 + close.len())[m] == close[m] by {
                        assert(a[j + m] == e[m0 + m]);
                    }
                }
            } else {
                assert(a[12 + li + le] == '"');
            }
        }
    }
    lemma_find_absent(a, close, 0);
}

/// Text without `-->` inside two quoted values has none in `expr="E" id="I"`.
#[verifier::spinoff_prover]
proof fn lemma_expr_first_unclosed(i: Seq<char>, e: Seq<char>)
    requires
        find_from(i, comment_close(), 0) is None,
        find_from(e, comment_close(), 0) is None,
    ensures
        find_from(expr_first(i, e), comment_close(), 0) is None,
{
    let a = expr_first(i, e);
    let close = comment_close();
    let li = i.len() as int;
    let le = e.len() as int;
    assert(a.len() == li + le + 13);
    assert forall|m: int| 0 <= m < le implies a[6 + m] == #[trigger] e[m] by {}
    assert forall|m: int| 0 <= m < li implies a[12 + le + m] == #[trigger] i[m] by {}
    let head = seq!['e', 'x', 'p', 'r', '=', '"'];
    let mid = seq!['"', ' ', 'i', 'd', '=', '"'];
    assert(a.subrange(0, 6) =~= head);
    assert(a.subrange(6 + le, 12 + le) =~= mid);
    assert(a[12 + le + li] == '"');
    lemma_find_none(i, close, 0);
    lemma_find_none(e, close, 0);
    assert forall|j: int| 0 <= j && j + close.len() <= a.len() implies #[trigger] a.subrange(j, j + close.len()) != close by {
        if a.subrange(j, j + 3) == close {
            assert(a.subrange(j, j + 3)[0] == a[j]);
            assert(a.subrange(j, j + 3)[1] == a[j + 1]);
            assert(a.subrange(j, j + 3)[2] == a[j + 2]);
            if j < 6 {
                assert(a[j] == head[j]);
                assert(j == 0 || j == 1 || j == 2 || j == 3 || j == 4 || j == 5);
            } else if j + 3 <= 6 + le {
                let m0 = j - 6;
                assert(e.subrange(m0, m0 + close.len()) =~= close) by {
                    assert forall|m: int| 0 <= m < 3 implies e.subrange(m0, m0 + close.len())[m] == close[m] by {
                        assert(a[j + m] == e[m0 + m]);
                    }
                }
            } else if j < 6 + le {
                assert(a[6 + le] == '"');
            } else if j < 12 + le {
                assert(a[j] == mid[j - 6 - le]);
                let k = j - 6 - le;
                assert(k == 0 || k == 1 || k == 2 || k == 3 || k == 4 || k == 5);
            } else if j + 3 <= 12 + le + li {
                let m0 = j - 12 - le;
                assert(i.subrange(m0, m0 + close.len()) =~= close) by {
                    assert forall|m: int| 0 <= m < 3 implies i.subrange(m0, m0 + close.len())[m] == close[m] by {
                        assert(a[j + m] == i[m0 + m]);
                    }
                }
            } else {
                assert(a[12 + le + li] == '"');
            }
        }
    }
    lemma_find_absent(a, close, 0);
}

/// No occurrence from `from` on: the search finds none.
proof fn lemma_find_absent(s: Seq<char>, pat: Seq<char>, from: int)
    requires
        0 <= from,
        forall|j: int| 0 <= j && j + pat.len() <= s.len() ==> #[trigger] s.subrange(j, j + pat.len()) != pat,
    ensures
        find_from(s, pat, from) is None,
    decreases s.len() - from,
{
    if from + pat.len() <= s.len() {
        assert(s.subrange(from, from + pat.len()) != pat);
        if pat.len() == 0 {
            assert(s.subrange(from, from + pat.len()) =~= pat);
        }
        lemma_find_absent(s, pat, from + 1);
    }
}

/// A document that is one `@invariant` comment holds its one pragma,
/// whichever attribute it writes first.
pub proof fn lemma_document_attribute_order(i: Seq<char>, e: Seq<char>)
    requires
        quote_free(i),
        quote_free(e),
        !ends_with(e, seq!['i', 'd', '=']),
        !ends_with(i, seq!['e', 'x', 'p', 'r', '=']),
        find_from(i, comment_close(), 0) is None,
        find_from(e, comment_close(), 0) is None,
    ensures
        pragmas(pragma_comment(id_first(i, e))) == seq![(i, e)],
        pragmas(pragma_comment(expr_first(i, e))) == seq![(i, e)],
{
    lemma_attribute_order(i, e);
    lemma_id_first_unclosed(i, e);
    lemma_expr_first_unclosed(i, e);
    let a = id_first(i, e);
    let b = expr_first(i, e);
    assert(a[0] == 'i' && a.last() == '"');
    assert(b[0] == 'e' && b.last() == '"');
    lemma_comment_pragmas(a);
    lemma_comment_pragmas(b);
}

} // verus!
