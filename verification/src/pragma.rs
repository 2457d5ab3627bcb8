//! Invariant pragmas: `<!-- @invariant id="NAME" expr="PROP" -->` comments
//! in the chart XML, read in document order.
use vstd::prelude::*;
use crate::text::push_char;

verus! {

/// `char::is_whitespace`: the Unicode `White_Space` property.
pub open spec fn is_ws(c: char) -> bool {
    let u = c as u32;
    ||| (0x9 <= u && u <= 0xd)
    ||| u == 0x20
    ||| u == 0x85
    ||| u == 0xa0
    ||| u == 0x1680
    ||| (0x2000 <= u && u <= 0x200a)
    ||| u == 0x2028
    ||| u == 0x2029
    ||| u == 0x202f
    ||| u == 0x205f
    ||| u == 0x3000
}

/// First index `i >= from` at which `pat` occurs in `s`.
pub open spec fn find_from(s: Seq<char>, pat: Seq<char>, from: int) -> Option<int>
    decreases s.len() - from,
{
    if from < 0 || from + pat.len() > s.len() {
        None
    } else if s.subrange(from, from + pat.len()) == pat {
        Some(from)
    } else {
        proof {
            if pat.len() == 0 {
                assert(s.subrange(from, from + pat.len()) =~= pat);
            }
        }
        find_from(s, pat, from + 1)
    }
}

/// `s` without its leading white space.
pub open spec fn trim_start(s: Seq<char>) -> Seq<char>
    decreases s.len(),
{
    if s.len() > 0 && is_ws(s[0]) {
        trim_start(s.drop_first())
    } else {
        s
    }
}

/// `s` without its trailing white space.
pub open spec fn trim_end(s: Seq<char>) -> Seq<char>
    decreases s.len(),
{
    if s.len() > 0 && is_ws(s.last()) {
        trim_end(s.drop_last())
    } else {
        s
    }
}

/// `str::trim`.
pub open spec fn trim(s: Seq<char>) -> Seq<char> {
    trim_end(trim_start(s))
}

pub open spec fn comment_open() -> Seq<char> {
    seq!['<', '!', '-', '-']
}

pub open spec fn comment_close() -> Seq<char> {
    seq!['-', '-', '>']
}

pub open spec fn invariant_tag() -> Seq<char> {
    seq!['@', 'i', 'n', 'v', 'a', 'r', 'i', 'a', 'n', 't']
}

/// The value of `name="value"` in `s`: the text after the first
/// occurrence of `name="` up to the next `"` (no escapes).
pub open spec fn attr_value(s: Seq<char>, name: Seq<char>) -> Option<Seq<char>> {
    let key = name + seq!['=', '"'];
    match find_from(s, key, 0) {
        None => None,
        Some(i) => match find_from(s, seq!['"'], i + key.len()) {
            None => None,
            Some(j) => Some(s.subrange(i + key.len(), j)),
        },
    }
}

/// The `(id, expr)` pair a trimmed comment body declares, if it is an
/// `@invariant` pragma (tag followed by white space) carrying both
/// attributes.
pub open spec fn pragma_of(body: Seq<char>) -> Option<(Seq<char>, Seq<char>)> {
    let tag = invariant_tag();
    if body.len() >= tag.len() && body.subrange(0, tag.len() as int) == tag {
        let after = body.subrange(tag.len() as int, body.len() as int);
        if after.len() > 0 && is_ws(after[0]) {
            let attrs = trim(after);
            match (attr_value(attrs, "id"@), attr_value(attrs, "expr"@)) {
                (Some(id), Some(expr)) => Some((id, expr)),
                _ => None,
            }
        } else {
            None
        }
    } else {
        None
    }
}

/// The pragmas of the comments that start at or after `pos`, in order.
/// Scanning stops at the first comment that is not closed.
pub open spec fn pragmas_at(s: Seq<char>, pos: int) -> Seq<(Seq<char>, Seq<char>)>
    decreases s.len() - pos,
{
    if pos < 0 || pos > s.len() {
        Seq::empty()
    } else {
        match find_from(s, comment_open(), pos) {
            None => Seq::empty(),
            Some(start) => match find_from(s, comment_close(), start + 4) {
                None => Seq::empty(),
                Some(end) => {
                    proof {
                        lemma_find_from(s, comment_open(), pos);
                        lemma_find_from(s, comment_close(), start + 4);
                    }
                    let rest = pragmas_at(s, end + 3);
                    match pragma_of(trim(s.subrange(start + 4, end))) {
                        Some(p) => seq![p] + rest,
                        None => rest,
                    }
                },
            },
        }
    }
}

/// The pragmas of a document, in order.
pub open spec fn pragmas(xml: Seq<char>) -> Seq<(Seq<char>, Seq<char>)> {
    pragmas_at(xml, 0)
}

/// An occurrence found from `from` lies at or after `from` and inside `s`.
pub proof fn lemma_find_from(s: Seq<char>, pat: Seq<char>, from: int)
    ensures
        find_from(s, pat, from) matches Some(i) ==> from <= i && i + pat.len() <= s.len()
            && s.subrange(i, i + pat.len()) == pat,
    decreases s.len() - from,
{
    if from < 0 || from + pat.len() > s.len() {
    } else if s.subrange(from, from + pat.len()) == pat {
    } else {
        if pat.len() == 0 {
            assert(s.subrange(from, from + pat.len()) =~= pat);
        }
        lemma_find_from(s, pat, from + 1);
    }
}

/// Every comment the scan from `pos` meets is closed: the scan runs to the
/// end of `s` without stopping at an unclosed `<!--`.
pub open spec fn scan_closed(s: Seq<char>, pos: int) -> bool
    decreases s.len() - pos,
{
    if pos < 0 || pos > s.len() {
        true
    } else {
        match find_from(s, comment_open(), pos) {
            None => true,
            Some(start) => match find_from(s, comment_close(), start + 4) {
                None => false,
                Some(end) => {
                    proof {
                        lemma_find_from(s, comment_open(), pos);
                        lemma_find_from(s, comment_close(), start + 4);
                    }
                    scan_closed(s, end + 3)
                },
            },
        }
    }
}

/// No occurrence found from `from` means none starts at or after `from`.
pub proof fn lemma_find_none(s: Seq<char>, pat: Seq<char>, from: int)
    requires
        0 <= from,
        find_from(s, pat, from) is None,
    ensures
        forall|i: int| from <= i && i + pat.len() <= s.len() ==> #[trigger] s.subrange(i, i + pat.len()) != pat,
    decreases s.len() - from,
{
    if from + pat.len() <= s.len() {
        assert(s.subrange(from, from + pat.len()) != pat);
        if pat.len() == 0 {
            assert(s.subrange(from, from + pat.len()) =~= pat);
        }
        lemma_find_none(s, pat, from + 1);
    }
}

/// An occurrence found inside `x` is found the same way in `x + y`.
pub proof fn lemma_find_prefix(x: Seq<char>, y: Seq<char>, pat: Seq<char>, pos: int)
    requires
        find_from(x, pat, pos) is Some,
    ensures
        find_from(x + y, pat, pos) == find_from(x, pat, pos),
    decreases x.len() - pos,
{
    let s = x + y;
    if pos < 0 || pos + pat.len() > x.len() {
    } else {
        assert(s.subrange(pos, pos + pat.len()) =~= x.subrange(pos, pos + pat.len()));
        if x.subrange(pos, pos + pat.len()) != pat {
            if pat.len() == 0 {
                assert(x.subrange(pos, pos + pat.len()) =~= pat);
            }
            lemma_find_prefix(x, y, pat, pos + 1);
        }
    }
}

/// Searching `x + y` from past the end of `x` is searching `y`, shifted.
pub proof fn lemma_find_shift(x: Seq<char>, y: Seq<char>, pat: Seq<char>, q: int)
    requires
        0 <= q,
    ensures
        find_from(x + y, pat, x.len() + q) == match find_from(y, pat, q) {
            Some(i) => Some(x.len() + i),
            None => None::<int>,
        },
    decreases y.len() - q,
{
    let s = x + y;
    let p = x.len() + q;
    if q + pat.len() > y.len() {
    } else {
        assert(s.subrange(p, p + pat.len()) =~= y.subrange(q, q + pat.len()));
        if y.subrange(q, q + pat.len()) != pat {
            if pat.len() == 0 {
                assert(y.subrange(q, q + pat.len()) =~= pat);
            }
            lemma_find_shift(x, y, pat, q + 1);
        }
    }
}

/// With no occurrence starting in `pos..x.len()` of `x + y`, searching from
/// `pos` finds what searching from the end of `x` finds.
proof fn lemma_find_skip(x: Seq<char>, y: Seq<char>, pat: Seq<char>, pos: int)
    requires
        0 <= pos <= x.len(),
        forall|i: int| pos <= i < x.len() && i + pat.len() <= x.len() + y.len()
            ==> #[trigger] (x + y).subrange(i, i + pat.len()) != pat,
    ensures
        find_from(x + y, pat, pos) == find_from(x + y, pat, x.len() as int),
    decreases x.len() - pos,
{
    if pos < x.len() {
        let s = x + y;
        if pos + pat.len() <= s.len() {
            assert(s.subrange(pos, pos + pat.len()) != pat);
        }
        lemma_find_skip(x, y, pat, pos + 1);
    }
}

/// The pragmas of `x + y` from past the end of `x` are those of `y`.
pub proof fn lemma_pragmas_shift(x: Seq<char>, y: Seq<char>, q: int)
    requires
        0 <= q <= y.len(),
    ensures
        pragmas_at(x + y, x.len() + q) == pragmas_at(y, q),
    decreases y.len() - q,
{
    let s = x + y;
    let o = x.len() as int;
    lemma_find_shift(x, y, comment_open(), q);
    lemma_find_from(y, comment_open(), q);
    if let Some(start) = find_from(y, comment_open(), q) {
        lemma_find_shift(x, y, comment_close(), start + 4);
        lemma_find_from(y, comment_close(), start + 4);
        if let Some(end) = find_from(y, comment_close(), start + 4) {
            assert(s.subrange(o + start + 4, o + end) =~= y.subrange(start + 4, end));
            assert(o + end + 3 == x.len() + (end + 3));
            lemma_pragmas_shift(x, y, end + 3);
        }
    }
}

/// The scan of `x + y` from `pos` in `x` yields the pragmas of `x` from
/// `pos` and then those of `y`, when every comment it meets in `x` is
/// closed in `x` and no comment opener straddles the join.
pub proof fn lemma_pragmas_concat_from(x: Seq<char>, y: Seq<char>, pos: int)
    requires
        0 <= pos <= x.len(),
        scan_closed(x, pos),
        forall|i: int| 0 <= i < x.len() && x.len() < i + 4 && i + 4 <= x.len() + y.len()
            ==> #[trigger] (x + y).subrange(i, i + 4) != comment_open(),
    ensures
        pragmas_at(x + y, pos) == pragmas_at(x, pos) + pragmas_at(y, 0),
    decreases x.len() - pos,
{
    let s = x + y;
    lemma_find_from(x, comment_open(), pos);
    match find_from(x, comment_open(), pos) {
        None => {
            lemma_find_none(x, comment_open(), pos);
            assert forall|i: int| pos <= i < x.len() && i + 4 <= x.len() + y.len()
                implies #[trigger] s.subrange(i, i + 4) != comment_open() by {
                if i + 4 <= x.len() {
                    assert(s.subrange(i, i + 4) =~= x.subrange(i, i + 4));
                    assert(x.subrange(i, i + comment_open().len()) != comment_open());
                }
            }
            lemma_find_skip(x, y, comment_open(), pos);
            lemma_find_shift(x, y, comment_open(), 0);
            assert(x.len() + 0 == x.len());
            // From `pos` and from the end of `x` the scan meets the same
            // first opener, so it yields the same pragmas.
            lemma_pragmas_from_same_start(s, pos, x.len() as int);
            lemma_pragmas_shift(x, y, 0);
            assert(pragmas_at(x, pos) =~= Seq::empty());
            assert(pragmas_at(x, pos) + pragmas_at(y, 0) =~= pragmas_at(y, 0));
        },
        Some(start) => {
            lemma_find_prefix(x, y, comment_open(), pos);
            lemma_find_from(x, comment_close(), start + 4);
            let end = find_from(x, comment_close(), start + 4)->Some_0;
            lemma_find_prefix(x, y, comment_close(), start + 4);
            assert(s.subrange(start + 4, end) =~= x.subrange(start + 4, end));
            lemma_pragmas_concat_from(x, y, end + 3);
            let rx = pragmas_at(x, end + 3);
            let ry = pragmas_at(y, 0);
            match pragma_of(trim(x.subrange(start + 4, end))) {
                Some(p) => {
                    assert(seq![p] + (rx + ry) =~= (seq![p] + rx) + ry);
                },
                None => {},
            }
        },
    }
}

/// Two scan positions at or before the same first opener give the same
/// pragmas.
proof fn lemma_pragmas_from_same_start(s: Seq<char>, a: int, b: int)
    requires
        0 <= a <= b <= s.len(),
        find_from(s, comment_open(), a) == find_from(s, comment_open(), b),
    ensures
        pragmas_at(s, a) == pragmas_at(s, b),
{
}

/// Views of a list of string pairs.
pub open spec fn pair_views(v: Seq<(String, String)>) -> Seq<(Seq<char>, Seq<char>)> {
    v.map_values(|p: (String, String)| (p.0@, p.1@))
}

/// `str::chars` collected into a vector.
#[verifier::external_body]
pub(crate) fn chars_of(s: &str) -> (v: Vec<char>)
    ensures
        v@ == s@,
{
    s.chars().collect()
}

/// The string made of the characters of `v`.
pub fn string_of(v: &Vec<char>) -> (s: String)
    ensures
        s@ == v@,
{
    let mut s = String::new();
    let mut i: usize = 0;
    while i < v.len()
        invariant
            i <= v.len(),
            s@ == v@.subrange(0, i as int),
        decreases v.len() - i,
    {
        push_char(&mut s, v[i]);
        assert(v@.subrange(0, i + 1) =~= v@.subrange(0, i as int).push(v@[i as int]));
        i += 1;
    }
    assert(v@.subrange(0, v.len() as int) =~= v@);
    s
}

/// `char::is_whitespace`.
pub fn is_whitespace_char(c: char) -> (r: bool)
    ensures
        r == is_ws(c),
{
    let u = c as u32;
    (0x9 <= u && u <= 0xd) || u == 0x20 || u == 0x85 || u == 0xa0 || u == 0x1680
        || (0x2000 <= u && u <= 0x200a) || u == 0x2028 || u == 0x2029 || u == 0x202f
        || u == 0x205f || u == 0x3000
}

/// Whether `pat` occurs in `s` at index `i`.
pub fn matches_at(s: &Vec<char>, pat: &Vec<char>, i: usize) -> (r: bool)
    requires
        i + pat.len() <= s.len(),
    ensures
        r == (s@.subrange(i as int, i + pat.len()) == pat@),
{
    let mut k: usize = 0;
    while k < pat.len()
        invariant
            k <= pat.len(),
            i + pat.len() <= s.len(),
            forall|j: int| 0 <= j < k ==> s@[i + j] == pat@[j],
        decreases pat.len() - k,
    {
        if s[i + k] != pat[k] {
            assert(s@.subrange(i as int, i + pat.len())[k as int] != pat@[k as int]);
            return false;
        }
        k += 1;
    }
    assert(s@.subrange(i as int, i + pat.len()) =~= pat@);
    true
}

/// The first occurrence of `pat` in `s` at or after `from`.
pub fn find_chars(s: &Vec<char>, pat: &Vec<char>, from: usize) -> (r: Option<usize>)
    ensures
        match r {
            Some(i) => find_from(s@, pat@, from as int) == Some(i as int),
            None => find_from(s@, pat@, from as int) is None,
        },
{
    if pat.len() > s.len() {
        return None;
    }
    if pat.len() == 0 {
        if from <= s.len() {
            assert(s@.subrange(from as int, from as int) =~= pat@);
            return Some(from);
        }
        return None;
    }
    let mut i: usize = from;
    while i <= s.len() - pat.len()
        invariant
            1 <= pat.len() <= s.len(),
            from <= i,
            find_from(s@, pat@, from as int) == find_from(s@, pat@, i as int),
        decreases s.len() - i,
    {
        if matches_at(s, pat, i) {
            return Some(i);
        }
        i += 1;
    }
    None
}

/// The characters of `s` in `a..b`.
pub fn sub_chars(s: &Vec<char>, a: usize, b: usize) -> (r: Vec<char>)
    requires
        a <= b <= s.len(),
    ensures
        r@ == s@.subrange(a as int, b as int),
{
    let mut r: Vec<char> = Vec::new();
    let mut i: usize = a;
    while i < b
        invariant
            a <= i <= b <= s.len(),
            r@ == s@.subrange(a as int, i as int),
        decreases b - i,
    {
        r.push(s[i]);
        assert(s@.subrange(a as int, i + 1) =~= s@.subrange(a as int, i as int).push(s@[i as int]));
        i += 1;
    }
    r
}

/// `str::trim` on characters.
pub fn trim_chars(s: &Vec<char>) -> (r: Vec<char>)
    ensures
        r@ == trim(s@),
{
    let n = s.len();
    let mut lo: usize = 0;
    assert(s@.subrange(0, n as int) =~= s@);
    while lo < n && is_whitespace_char(s[lo])
        invariant
            lo <= n == s.len(),
            trim_start(s@) == trim_start(s@.subrange(lo as int, n as int)),
        decreases n - lo,
    {
        assert(s@.subrange(lo as int, n as int).drop_first() =~= s@.subrange(lo + 1, n as int));
        lo += 1;
    }
    let ghost t = s@.subrange(lo as int, n as int);
    assert(trim_start(s@) == t);
    let mut hi: usize = n;
    while hi > lo && is_whitespace_char(s[hi - 1])
        invariant
            lo <= hi <= n == s.len(),
            t == s@.subrange(lo as int, n as int),
            trim_end(t) == trim_end(s@.subrange(lo as int, hi as int)),
        decreases hi - lo,
    {
        assert(s@.subrange(lo as int, hi as int).drop_last() =~= s@.subrange(lo as int, hi - 1));
        hi -= 1;
    }
    sub_chars(s, lo, hi)
}

/// Pull `name="value"` out of an attribute string (no escape handling).
pub fn extract_attr(s: &str, name: &str) -> (r: Option<String>)
    ensures
        match r {
            Some(v) => attr_value(s@, name@) == Some(v@),
            None => attr_value(s@, name@) is None,
        },
{
    let sc = chars_of(s);
    let mut key = chars_of(name);
    key.push('=');
    key.push('"');
    assert(key@ =~= name@ + seq!['=', '"']);
    let i = match find_chars(&sc, &key, 0) {
        None => return None,
        Some(i) => i,
    };
    proof {
        lemma_find_from(sc@, key@, 0);
    }
    let quote = vec!['"'];
    assert(quote@ =~= seq!['"']);
    let klen = key.len();
    assert(sc@.len() == sc.len());
    let from = i + klen;
    let j = match find_chars(&sc, &quote, from) {
        None => return None,
        Some(j) => j,
    };
    proof {
        lemma_find_from(sc@, quote@, from as int);
    }
    let v = sub_chars(&sc, from, j);
    Some(string_of(&v))
}

/// The pragma a trimmed comment body declares, if any.
pub fn pragma_in(body: &Vec<char>) -> (r: Option<(String, String)>)
    ensures
        match r {
            Some(p) => pragma_of(body@) == Some((p.0@, p.1@)),
            None => pragma_of(body@) is None,
        },
{
    let tag = vec!['@', 'i', 'n', 'v', 'a', 'r', 'i', 'a', 'n', 't'];
    assert(tag@ =~= invariant_tag());
    if body.len() < tag.len() || !matches_at(body, &tag, 0) {
        return None;
    }
    let after = sub_chars(body, tag.len(), body.len());
    if after.len() == 0 || !is_whitespace_char(after[0]) {
        return None;
    }
    let attrs = string_of(&trim_chars(&after));
    let id = extract_attr(attrs.as_str(), "id");
    let expr = extract_attr(attrs.as_str(), "expr");
    match (id, expr) {
        (Some(id), Some(expr)) => Some((id, expr)),
        _ => None,
    }
}

/// Walk the raw XML for `<!-- @invariant id="..." expr="..." -->` comments
/// and return the `(id, expr)` pairs in document order.
pub fn extract_pragmas(xml: &str) -> (out: Vec<(String, String)>)
    ensures
        pair_views(out@) == pragmas(xml@),
{
    let s = chars_of(xml);
    let open = vec!['<', '!', '-', '-'];
    let close = vec!['-', '-', '>'];
    assert(open@ =~= comment_open());
    assert(close@ =~= comment_close());
    let mut out: Vec<(String, String)> = Vec::new();
    let mut pos: usize = 0;
    assert(pair_views(out@) =~= Seq::empty());
    loop
        invariant
            pos <= s.len(),
            s@ == xml@,
            open@ == comment_open(),
            close@ == comment_close(),
            pair_views(out@) + pragmas_at(s@, pos as int) == pragmas_at(s@, 0),
        decreases s.len() - pos,
    {
        let start = match find_chars(&s, &open, pos) {
            None => {
                assert(pair_views(out@) + pragmas_at(s@, pos as int) =~= pair_views(out@));
                return out;
            },
            Some(i) => i,
        };
        proof {
            lemma_find_from(s@, open@, pos as int);
        }
        let end = match find_chars(&s, &close, start + 4) {
            None => {
                assert(pair_views(out@) + pragmas_at(s@, pos as int) =~= pair_views(out@));
                return out;
            },
            Some(j) => j,
        };
        proof {
            lemma_find_from(s@, close@, start + 4);
        }
        let raw = sub_chars(&s, start + 4, end);
        let body = trim_chars(&raw);
        let ghost before = out@;
        let ghost rest = pragmas_at(s@, end + 3);
        match pragma_in(&body) {
            Some(p) => {
                out.push(p);
                assert(pair_views(out@) =~= pair_views(before).push((p.0@, p.1@)));
                assert(pair_views(out@) + rest =~= pair_views(before) + (seq![(p.0@, p.1@)] + rest));
            },
            None => {},
        }
        pos = end + 3;
    }
}

} // verus!
