//! The invariant language: `in('S')`, `not`, `and`, `or`, `=>`, `<=>`,
//! `true`, `false` and parentheses. A byte-level tokenizer and a
//! recursive-descent parser with precedence (loosest to tightest) `<=>`,
//! `=>`, `or`, `and`, `not`, primary.
use vstd::prelude::*;
use vstd::utf8::{valid_utf8, decode_utf8};
use vstd::string::StringSliceAdditionalSpecFns;
use crate::text::{decimal, decimal_text, push_char};

verus! {

/// Boolean property over state membership.
#[derive(Debug)]
pub enum Prop {
    True,
    False,
    /// `in('STATE')`: the named leaf state is active.
    In(String),
    Not(Box<Prop>),
    And(Box<Prop>, Box<Prop>),
    Or(Box<Prop>, Box<Prop>),
    Implies(Box<Prop>, Box<Prop>),
    Iff(Box<Prop>, Box<Prop>),
}

/// A property as a mathematical value.
pub enum PropV {
    True,
    False,
    In(Seq<char>),
    Not(Box<PropV>),
    And(Box<PropV>, Box<PropV>),
    Or(Box<PropV>, Box<PropV>),
    Implies(Box<PropV>, Box<PropV>),
    Iff(Box<PropV>, Box<PropV>),
}

impl Prop {
    pub open spec fn value(self) -> PropV
        decreases self,
    {
        match self {
            Prop::True => PropV::True,
            Prop::False => PropV::False,
            Prop::In(s) => PropV::In(s@),
            Prop::Not(a) => PropV::Not(Box::new(a.value())),
            Prop::And(a, b) => PropV::And(Box::new(a.value()), Box::new(b.value())),
            Prop::Or(a, b) => PropV::Or(Box::new(a.value()), Box::new(b.value())),
            Prop::Implies(a, b) => PropV::Implies(Box::new(a.value()), Box::new(b.value())),
            Prop::Iff(a, b) => PropV::Iff(Box::new(a.value()), Box::new(b.value())),
        }
    }
}

/// Token of the property language.
#[derive(Debug)]
pub enum Tok {
    LParen,
    RParen,
    Comma,
    Not,
    And,
    Or,
    Implies,
    Iff,
    True,
    False,
    In,
    Ident(String),
    Str(String),
}

/// A token as a mathematical value.
pub enum TokV {
    LParen,
    RParen,
    Comma,
    Not,
    And,
    Or,
    Implies,
    Iff,
    True,
    False,
    In,
    Ident(Seq<char>),
    Str(Seq<char>),
}

impl Tok {
    pub open spec fn value(self) -> TokV {
        match self {
            Tok::LParen => TokV::LParen,
            Tok::RParen => TokV::RParen,
            Tok::Comma => TokV::Comma,
            Tok::Not => TokV::Not,
            Tok::And => TokV::And,
            Tok::Or => TokV::Or,
            Tok::Implies => TokV::Implies,
            Tok::Iff => TokV::Iff,
            Tok::True => TokV::True,
            Tok::False => TokV::False,
            Tok::In => TokV::In,
            Tok::Ident(s) => TokV::Ident(s@),
            Tok::Str(s) => TokV::Str(s@),
        }
    }
}

/// The values of a token sequence.
pub open spec fn tok_values(v: Seq<Tok>) -> Seq<TokV> {
    v.map_values(|t: Tok| t.value())
}

/// `(b as char).is_whitespace()` for a byte: the Unicode white space code
/// points below 256.
pub open spec fn is_ws_byte(b: u8) -> bool {
    (9 <= b <= 13) || b == 32 || b == 0x85 || b == 0xa0
}

pub open spec fn is_alpha_byte(b: u8) -> bool {
    (65 <= b <= 90) || (97 <= b <= 122)
}

pub open spec fn is_digit_byte(b: u8) -> bool {
    48 <= b <= 57
}

/// Bytes that may continue an identifier.
pub open spec fn is_word_byte(b: u8) -> bool {
    is_alpha_byte(b) || is_digit_byte(b) || b == 95
}

/// The end of the identifier starting at `i`.
pub open spec fn word_end(b: Seq<u8>, i: int) -> int
    decreases b.len() - i,
{
    if i < b.len() && is_word_byte(b[i]) { word_end(b, i + 1) } else { i }
}

/// `word_end` moves past every word byte from `i` on.
pub proof fn lemma_word_end(b: Seq<u8>, i: int)
    ensures
        word_end(b, i) >= i,
        0 <= i < b.len() && is_word_byte(b[i]) ==> word_end(b, i) > i,
        i <= b.len() ==> word_end(b, i) <= b.len(),
    decreases b.len() - i,
{
    if i < b.len() && is_word_byte(b[i]) {
        lemma_word_end(b, i + 1);
    }
}

/// The index of the first byte equal to `q` at or after `i` (or the length).
pub open spec fn quote_end(b: Seq<u8>, i: int, q: u8) -> int
    decreases b.len() - i,
{
    if i < b.len() && b[i] != q { quote_end(b, i + 1, q) } else { i }
}

/// `quote_end` does not move backwards.
pub proof fn lemma_quote_end(b: Seq<u8>, i: int, q: u8)
    ensures
        quote_end(b, i, q) >= i,
        i <= b.len() ==> quote_end(b, i, q) <= b.len(),
        quote_end(b, i, q) < b.len() ==> b[quote_end(b, i, q)] == q,
    decreases b.len() - i,
{
    if i < b.len() && b[i] != q {
        lemma_quote_end(b, i + 1, q);
    }
}

/// Bytes read as characters one for one.
pub open spec fn byte_chars(b: Seq<u8>) -> Seq<char> {
    b.map_values(|x: u8| x as char)
}

/// The keyword token for a word, or an identifier.
pub open spec fn word_token(w: Seq<char>) -> TokV {
    if w == "not"@ {
        TokV::Not
    } else if w == "and"@ {
        TokV::And
    } else if w == "or"@ {
        TokV::Or
    } else if w == "true"@ {
        TokV::True
    } else if w == "false"@ {
        TokV::False
    } else if w == "in"@ {
        TokV::In
    } else {
        TokV::Ident(w)
    }
}

/// The text of the error `std::str::from_utf8` gives for invalid bytes.
pub uninterp spec fn utf8_error_text(b: Seq<u8>) -> Seq<char>;

pub open spec fn unterminated_msg(start: nat) -> Seq<char> {
    "unterminated string literal starting at offset "@ + decimal(start)
}

pub open spec fn invalid_utf8_msg(b: Seq<u8>) -> Seq<char> {
    "invalid utf-8 in string: "@ + utf8_error_text(b)
}

pub open spec fn unexpected_char_msg(c: u8, i: nat) -> Seq<char> {
    "unexpected character `"@ + seq![c as char] + "` at offset "@ + decimal(i)
}

/// Prefix `t` to a token list result.
pub open spec fn cons_tok(t: TokV, r: Result<Seq<TokV>, Seq<char>>) -> Result<Seq<TokV>, Seq<char>> {
    match r {
        Ok(ts) => Ok(seq![t] + ts),
        Err(e) => Err(e),
    }
}

/// Prefix a list of tokens to a token list result.
pub open spec fn prefix_toks(p: Seq<TokV>, r: Result<Seq<TokV>, Seq<char>>) -> Result<Seq<TokV>, Seq<char>> {
    match r {
        Ok(ts) => Ok(p + ts),
        Err(e) => Err(e),
    }
}

/// Prefixing one more token after a prefix is prefixing their concatenation.
pub proof fn lemma_prefix_cons(p: Seq<TokV>, t: TokV, r: Result<Seq<TokV>, Seq<char>>)
    ensures
        prefix_toks(p, cons_tok(t, r)) == prefix_toks(p + seq![t], r),
{
    if let Ok(ts) = r {
        assert(p + (seq![t] + ts) =~= (p + seq![t]) + ts);
    }
}

/// Tokens of the bytes from offset `i` on, or the first error.
pub open spec fn lex(b: Seq<u8>, i: int) -> Result<Seq<TokV>, Seq<char>>
    decreases b.len() - i,
{
    if i < 0 || i >= b.len() {
        Ok(Seq::empty())
    } else {
        let c = b[i];
        if is_ws_byte(c) {
            lex(b, i + 1)
        } else if c == 40 {
            cons_tok(TokV::LParen, lex(b, i + 1))
        } else if c == 41 {
            cons_tok(TokV::RParen, lex(b, i + 1))
        } else if c == 44 {
            cons_tok(TokV::Comma, lex(b, i + 1))
        } else if c == 61 && i + 1 < b.len() && b[i + 1] == 62 {
            cons_tok(TokV::Implies, lex(b, i + 2))
        } else if c == 60 && i + 2 < b.len() && b[i + 1] == 61 && b[i + 2] == 62 {
            cons_tok(TokV::Iff, lex(b, i + 3))
        } else if c == 39 || c == 34 {
            let j = quote_end(b, i + 1, c);
            proof { lemma_quote_end(b, i + 1, c); }
            if j >= b.len() {
                Err(unterminated_msg((i + 1) as nat))
            } else if valid_utf8(b.subrange(i + 1, j)) {
                cons_tok(TokV::Str(decode_utf8(b.subrange(i + 1, j))), lex(b, j + 1))
            } else {
                Err(invalid_utf8_msg(b.subrange(i + 1, j)))
            }
        } else if is_alpha_byte(c) || c == 95 {
            let j = word_end(b, i);
            proof { lemma_word_end(b, i); }
            cons_tok(word_token(byte_chars(b.subrange(i, j))), lex(b, j))
        } else {
            Err(unexpected_char_msg(c, i as nat))
        }
    }
}

/// `std::str::from_utf8`: the decoded string when the bytes are valid
/// UTF-8, else the error's text.
#[verifier::external_body]
pub(crate) fn utf8_text(bytes: &[u8]) -> (r: Result<String, String>)
    ensures
        r is Ok == valid_utf8(bytes@),
        r matches Ok(s) ==> s@ == decode_utf8(bytes@),
        r matches Err(m) ==> m@ == utf8_error_text(bytes@),
{
    match std::str::from_utf8(bytes) {
        Ok(s) => Ok(s.to_string()),
        Err(e) => Err(e.to_string()),
    }
}

/// Split a property expression into tokens.
pub fn tokenize(s: &str) -> (r: Result<Vec<Tok>, String>)
    ensures
        match r {
            Ok(v) => lex(s.spec_bytes(), 0) == Ok::<Seq<TokV>, Seq<char>>(tok_values(v@)),
            Err(m) => lex(s.spec_bytes(), 0) == Err::<Seq<TokV>, Seq<char>>(m@),
        },
{
    let bytes = s.as_bytes();
    let ghost b = bytes@;
    let mut i: usize = 0;
    let mut out: Vec<Tok> = Vec::new();
    while i < bytes.len()
        invariant
            b == bytes@,
            b == s.spec_bytes(),
            i <= bytes.len(),
            lex(b, 0) == prefix_toks(tok_values(out@), lex(b, i as int)),
        decreases bytes.len() - i,
    {
        let c = bytes[i];
        let ghost before = tok_values(out@);
        if c == 9 || c == 10 || c == 11 || c == 12 || c == 13 || c == 32 || c == 0x85 || c == 0xa0 {
            assert(lex(b, i as int) == lex(b, i + 1));
            i += 1;
        } else if c == 40 {
            out.push(Tok::LParen);
            assert(tok_values(out@) =~= before + seq![TokV::LParen]);
            proof {
                assert(lex(b, i as int) == cons_tok(TokV::LParen, lex(b, i + 1)));
                lemma_prefix_cons(before, TokV::LParen, lex(b, i + 1));
            }
            i += 1;
        } else if c == 41 {
            out.push(Tok::RParen);
            assert(tok_values(out@) =~= before + seq![TokV::RParen]);
            proof {
                assert(lex(b, i as int) == cons_tok(TokV::RParen, lex(b, i + 1)));
                lemma_prefix_cons(before, TokV::RParen, lex(b, i + 1));
            }
            i += 1;
        } else if c == 44 {
            out.push(Tok::Comma);
            assert(tok_values(out@) =~= before + seq![TokV::Comma]);
            proof {
                assert(lex(b, i as int) == cons_tok(TokV::Comma, lex(b, i + 1)));
                lemma_prefix_cons(before, TokV::Comma, lex(b, i + 1));
            }
            i += 1;
        } else if c == 61 && i + 1 < bytes.len() && bytes[i + 1] == 62 {
            out.push(Tok::Implies);
            assert(tok_values(out@) =~= before + seq![TokV::Implies]);
            proof {
                assert(lex(b, i as int) == cons_tok(TokV::Implies, lex(b, i + 2)));
                lemma_prefix_cons(before, TokV::Implies, lex(b, i + 2));
            }
            i += 2;
        } else if c == 60 && i + 1 < bytes.len() && i + 2 < bytes.len() && bytes[i + 1] == 61 && bytes[i + 2] == 62 {
            out.push(Tok::Iff);
            assert(tok_values(out@) =~= before + seq![TokV::Iff]);
            proof {
                assert(lex(b, i as int) == cons_tok(TokV::Iff, lex(b, i + 3)));
                lemma_prefix_cons(before, TokV::Iff, lex(b, i + 3));
            }
            i += 3;
        } else if c == 39 || c == 34 {
            let start = i + 1;
            let mut j = i + 1;
            while j < bytes.len() && bytes[j] != c
                invariant
                    b == bytes@,
                    start <= j <= bytes.len(),
                    quote_end(b, start as int, c) == quote_end(b, j as int, c),
                decreases bytes.len() - j,
            {
                j += 1;
            }
            if j >= bytes.len() {
                let mut m = String::from_str("unterminated string literal starting at offset ");
                let digits = decimal_text(start);
                m.append(digits.as_str());
                return Err(m);
            }
            let inner = vstd::slice::slice_subrange(bytes, start, j);
            match utf8_text(inner) {
                Ok(text) => {
                    let ghost tv = TokV::Str(decode_utf8(b.subrange(start as int, j as int)));
                    out.push(Tok::Str(text));
                    assert(tok_values(out@) =~= before + seq![tv]);
                    proof {
                        lemma_quote_end(b, start as int, c);
                        assert(lex(b, i as int) == cons_tok(tv, lex(b, j + 1)));
                        lemma_prefix_cons(before, tv, lex(b, j + 1));
                    }
                },
                Err(e) => {
                    let mut m = String::from_str("invalid utf-8 in string: ");
                    m.append(e.as_str());
                    return Err(m);
                },
            }
            i = j + 1;
        } else if (65 <= c && c <= 90) || (97 <= c && c <= 122) || c == 95 {
            let start = i;
            let mut word = String::new();
            let mut j = i;
            while j < bytes.len() && ((65 <= bytes[j] && bytes[j] <= 90) || (97 <= bytes[j] && bytes[j] <= 122)
                || (48 <= bytes[j] && bytes[j] <= 57) || bytes[j] == 95)
                invariant
                    b == bytes@,
                    start <= j <= bytes.len(),
                    word_end(b, start as int) == word_end(b, j as int),
                    word@ == byte_chars(b.subrange(start as int, j as int)),
                decreases bytes.len() - j,
            {
                push_char(&mut word, bytes[j] as char);
                assert(byte_chars(b.subrange(start as int, j + 1)) =~= byte_chars(b.subrange(start as int, j as int)).push(bytes[j as int] as char));
                j += 1;
            }
            let tok = if word.eq(&String::from_str("not")) {
                Tok::Not
            } else if word.eq(&String::from_str("and")) {
                Tok::And
            } else if word.eq(&String::from_str("or")) {
                Tok::Or
            } else if word.eq(&String::from_str("true")) {
                Tok::True
            } else if word.eq(&String::from_str("false")) {
                Tok::False
            } else if word.eq(&String::from_str("in")) {
                Tok::In
            } else {
                Tok::Ident(word)
            };
            assert(tok.value() == word_token(byte_chars(b.subrange(start as int, j as int))));
            out.push(tok);
            let ghost tv = word_token(byte_chars(b.subrange(start as int, j as int)));
            assert(tok_values(out@) =~= before + seq![tv]);
            proof {
                lemma_word_end(b, j as int);
                assert(word_end(b, i as int) == j);
                assert(lex(b, i as int) == cons_tok(tv, lex(b, j as int)));
                lemma_prefix_cons(before, tv, lex(b, j as int));
            }
            i = j;
        } else {
            let mut m = String::from_str("unexpected character `");
            push_char(&mut m, c as char);
            m.append("` at offset ");
            let digits = decimal_text(i);
            m.append(digits.as_str());
            assert(lex(b, i as int) == Err::<Seq<TokV>, Seq<char>>(unexpected_char_msg(c, i as nat)));
            assert(m@ =~= unexpected_char_msg(c, i as nat));
            return Err(m);
        }
    }
    proof {
        assert(lex(b, i as int) == Ok::<Seq<TokV>, Seq<char>>(Seq::empty()));
        assert(tok_values(out@) + Seq::<TokV>::empty() =~= tok_values(out@));
    }
    Ok(out)
}

/// The text `std`'s `Debug` formatting gives a string (quoted, escaped).
pub uninterp spec fn str_debug(s: Seq<char>) -> Seq<char>;

/// `format!("{:?}", s)` for a string slice.
#[verifier::external_body]
pub(crate) fn debug_text(s: &str) -> (r: String)
    ensures
        r@ == str_debug(s@),
{
    format!("{:?}", s)
}

/// The `Debug` rendering of a token.
pub open spec fn tok_debug(t: TokV) -> Seq<char> {
    match t {
        TokV::LParen => "LParen"@,
        TokV::RParen => "RParen"@,
        TokV::Comma => "Comma"@,
        TokV::Not => "Not"@,
        TokV::And => "And"@,
        TokV::Or => "Or"@,
        TokV::Implies => "Implies"@,
        TokV::Iff => "Iff"@,
        TokV::True => "True"@,
        TokV::False => "False"@,
        TokV::In => "In"@,
        TokV::Ident(s) => "Ident("@ + str_debug(s) + ")"@,
        TokV::Str(s) => "Str("@ + str_debug(s) + ")"@,
    }
}

/// The `Debug` rendering of an optional token.
pub open spec fn opt_tok_debug(t: Option<TokV>) -> Seq<char> {
    match t {
        None => "None"@,
        Some(t) => "Some("@ + tok_debug(t) + ")"@,
    }
}

/// The token at `pos`, if any.
pub open spec fn tok_at(t: Seq<TokV>, pos: int) -> Option<TokV> {
    if 0 <= pos < t.len() { Some(t[pos]) } else { None }
}

/// Parse result: the property and the position after it, or a message.
pub type PRes = Result<(PropV, int), Seq<char>>;

pub open spec fn expected_state_id_msg(t: Option<TokV>) -> Seq<char> {
    "expected state id in `in(...)`, got "@ + opt_tok_debug(t)
}

pub open spec fn unexpected_token_msg(t: Option<TokV>) -> Seq<char> {
    "unexpected token "@ + opt_tok_debug(t) + " in primary position"@
}

/// `iff := implies ('<=>' iff)?`
pub open spec fn p_iff(t: Seq<TokV>, pos: int) -> PRes
    decreases t.len() - pos, 10int,
{
    if pos < 0 || pos > t.len() {
        Err(Seq::empty())
    } else {
        match p_implies(t, pos) {
            Err(e) => Err(e),
            Ok((lhs, p1)) => if p1 < pos || p1 > t.len() {
                Err(Seq::empty())
            } else if tok_at(t, p1) == Some(TokV::Iff) {
                match p_iff(t, p1 + 1) {
                    Err(e) => Err(e),
                    Ok((rhs, p2)) => Ok((PropV::Iff(Box::new(lhs), Box::new(rhs)), p2)),
                }
            } else {
                Ok((lhs, p1))
            },
        }
    }
}

/// `implies := or ('=>' implies)?` (right-associative)
pub open spec fn p_implies(t: Seq<TokV>, pos: int) -> PRes
    decreases t.len() - pos, 9int,
{
    if pos < 0 || pos > t.len() {
        Err(Seq::empty())
    } else {
        match p_or(t, pos) {
            Err(e) => Err(e),
            Ok((lhs, p1)) => if p1 < pos || p1 > t.len() {
                Err(Seq::empty())
            } else if tok_at(t, p1) == Some(TokV::Implies) {
                match p_implies(t, p1 + 1) {
                    Err(e) => Err(e),
                    Ok((rhs, p2)) => Ok((PropV::Implies(Box::new(lhs), Box::new(rhs)), p2)),
                }
            } else {
                Ok((lhs, p1))
            },
        }
    }
}

/// `or := and ('or' and)*` (left-associative)
pub open spec fn p_or(t: Seq<TokV>, pos: int) -> PRes
    decreases t.len() - pos, 8int,
{
    if pos < 0 || pos > t.len() {
        Err(Seq::empty())
    } else {
        match p_and(t, pos) {
            Err(e) => Err(e),
            Ok((lhs, p1)) => if p1 < pos || p1 > t.len() { Err(Seq::empty()) } else { p_or_rest(t, lhs, p1) },
        }
    }
}

/// The `('or' and)*` tail after `lhs`.
pub open spec fn p_or_rest(t: Seq<TokV>, lhs: PropV, pos: int) -> PRes
    decreases t.len() - pos, 7int,
{
    if pos < 0 || pos > t.len() {
        Err(Seq::empty())
    } else if tok_at(t, pos) == Some(TokV::Or) {
        match p_and(t, pos + 1) {
            Err(e) => Err(e),
            Ok((rhs, p2)) => if p2 < pos + 1 || p2 > t.len() {
                Err(Seq::empty())
            } else {
                p_or_rest(t, PropV::Or(Box::new(lhs), Box::new(rhs)), p2)
            },
        }
    } else {
        Ok((lhs, pos))
    }
}

/// `and := unary ('and' unary)*` (left-associative)
pub open spec fn p_and(t: Seq<TokV>, pos: int) -> PRes
    decreases t.len() - pos, 6int,
{
    if pos < 0 || pos > t.len() {
        Err(Seq::empty())
    } else {
        match p_unary(t, pos) {
            Err(e) => Err(e),
            Ok((lhs, p1)) => if p1 < pos || p1 > t.len() { Err(Seq::empty()) } else { p_and_rest(t, lhs, p1) },
        }
    }
}

/// The `('and' unary)*` tail after `lhs`.
pub open spec fn p_and_rest(t: Seq<TokV>, lhs: PropV, pos: int) -> PRes
    decreases t.len() - pos, 5int,
{
    if pos < 0 || pos > t.len() {
        Err(Seq::empty())
    } else if tok_at(t, pos) == Some(TokV::And) {
        match p_unary(t, pos + 1) {
            Err(e) => Err(e),
            Ok((rhs, p2)) => if p2 < pos + 1 || p2 > t.len() {
                Err(Seq::empty())
            } else {
                p_and_rest(t, PropV::And(Box::new(lhs), Box::new(rhs)), p2)
            },
        }
    } else {
        Ok((lhs, pos))
    }
}

/// `unary := 'not' unary | primary`
pub open spec fn p_unary(t: Seq<TokV>, pos: int) -> PRes
    decreases t.len() - pos, 4int,
{
    if pos < 0 || pos > t.len() {
        Err(Seq::empty())
    } else if tok_at(t, pos) == Some(TokV::Not) {
        match p_unary(t, pos + 1) {
            Err(e) => Err(e),
            Ok((inner, p2)) => Ok((PropV::Not(Box::new(inner)), p2)),
        }
    } else {
        p_primary(t, pos)
    }
}

/// `primary := 'true' | 'false' | '(' iff ')' | 'in' '(' (string | ident) ')'`
pub open spec fn p_primary(t: Seq<TokV>, pos: int) -> PRes
    decreases t.len() - pos, 3int,
{
    if pos < 0 || pos > t.len() {
        Err(Seq::empty())
    } else {
        match tok_at(t, pos) {
            Some(TokV::True) => Ok((PropV::True, pos + 1)),
            Some(TokV::False) => Ok((PropV::False, pos + 1)),
            Some(TokV::LParen) => match p_iff(t, pos + 1) {
                Err(e) => Err(e),
                Ok((inner, p1)) => if tok_at(t, p1) == Some(TokV::RParen) {
                    Ok((inner, p1 + 1))
                } else {
                    Err("expected `)`"@)
                },
            },
            Some(TokV::In) => if tok_at(t, pos + 1) != Some(TokV::LParen) {
                Err("expected `(` after `in`"@)
            } else {
                let id = match tok_at(t, pos + 2) {
                    Some(TokV::Str(s)) => Some(s),
                    Some(TokV::Ident(s)) => Some(s),
                    _ => None,
                };
                match id {
                    None => Err(expected_state_id_msg(tok_at(t, pos + 2))),
                    Some(s) => if tok_at(t, pos + 3) == Some(TokV::RParen) {
                        Ok((PropV::In(s), pos + 4))
                    } else {
                        Err("expected `)` to close `in(...)`"@)
                    },
                }
            },
            other => Err(unexpected_token_msg(other)),
        }
    }
}

pub open spec fn trailing_msg(pos: nat) -> Seq<char> {
    "unexpected trailing tokens at position "@ + decimal(pos)
}

/// The property an expression denotes, or the first error.
pub open spec fn spec_parse_property(b: Seq<u8>) -> Result<PropV, Seq<char>> {
    match lex(b, 0) {
        Err(e) => Err(e),
        Ok(t) => match p_iff(t, 0) {
            Err(e) => Err(e),
            Ok((p, pos)) => if pos != t.len() { Err(trailing_msg(pos as nat)) } else { Ok(p) },
        },
    }
}

/// `( x )`
pub open spec fn paren_toks(x: Seq<TokV>) -> Seq<TokV> {
    seq![TokV::LParen] + x + seq![TokV::RParen]
}

/// The tokens of the fully parenthesised rendering of a property:
/// `true`, `false`, `in('s')`, `not (a)` and `(a) OP (b)` with `OP` one of
/// `and`, `or`, `=>`, `<=>`.
pub open spec fn print_toks(p: PropV) -> Seq<TokV>
    decreases p,
{
    match p {
        PropV::True => seq![TokV::True],
        PropV::False => seq![TokV::False],
        PropV::In(s) => seq![TokV::In, TokV::LParen, TokV::Str(s), TokV::RParen],
        PropV::Not(a) => seq![TokV::Not] + paren_toks(print_toks(*a)),
        PropV::And(a, b) => paren_toks(print_toks(*a)) + seq![TokV::And] + paren_toks(print_toks(*b)),
        PropV::Or(a, b) => paren_toks(print_toks(*a)) + seq![TokV::Or] + paren_toks(print_toks(*b)),
        PropV::Implies(a, b) => paren_toks(print_toks(*a)) + seq![TokV::Implies] + paren_toks(print_toks(*b)),
        PropV::Iff(a, b) => paren_toks(print_toks(*a)) + seq![TokV::Iff] + paren_toks(print_toks(*b)),
    }
}

/// No binary operator token at `e`.
pub open spec fn no_operator_at(t: Seq<TokV>, e: int) -> bool {
    tok_at(t, e) != Some(TokV::And) && tok_at(t, e) != Some(TokV::Or)
        && tok_at(t, e) != Some(TokV::Implies) && tok_at(t, e) != Some(TokV::Iff)
}

/// An implication-level result not followed by `<=>` is the whole result.
proof fn lemma_from_implies(t: Seq<TokV>, pos: int, x: PropV, e: int)
    requires
        0 <= pos <= e <= t.len(),
        p_implies(t, pos) == Ok::<(PropV, int), Seq<char>>((x, e)),
        tok_at(t, e) != Some(TokV::Iff),
    ensures
        p_iff(t, pos) == Ok::<(PropV, int), Seq<char>>((x, e)),
{
}

/// An or-level result followed by neither `=>` nor `<=>` is the whole result.
proof fn lemma_from_or(t: Seq<TokV>, pos: int, x: PropV, e: int)
    requires
        0 <= pos <= e <= t.len(),
        p_or(t, pos) == Ok::<(PropV, int), Seq<char>>((x, e)),
        tok_at(t, e) != Some(TokV::Iff),
        tok_at(t, e) != Some(TokV::Implies),
    ensures
        p_iff(t, pos) == Ok::<(PropV, int), Seq<char>>((x, e)),
{
    assert(p_implies(t, pos) == Ok::<(PropV, int), Seq<char>>((x, e)));
    lemma_from_implies(t, pos, x, e);
}

/// An and-level result followed by no `or`, `=>` or `<=>` is the whole result.
proof fn lemma_from_and(t: Seq<TokV>, pos: int, x: PropV, e: int)
    requires
        0 <= pos <= e <= t.len(),
        p_and(t, pos) == Ok::<(PropV, int), Seq<char>>((x, e)),
        tok_at(t, e) != Some(TokV::Iff),
        tok_at(t, e) != Some(TokV::Implies),
        tok_at(t, e) != Some(TokV::Or),
    ensures
        p_iff(t, pos) == Ok::<(PropV, int), Seq<char>>((x, e)),
{
    assert(p_or_rest(t, x, e) == Ok::<(PropV, int), Seq<char>>((x, e)));
    assert(p_or(t, pos) == Ok::<(PropV, int), Seq<char>>((x, e)));
    lemma_from_or(t, pos, x, e);
}

/// A unary result followed by no binary operator is the whole result.
proof fn lemma_from_unary(t: Seq<TokV>, pos: int, x: PropV, e: int)
    requires
        0 <= pos <= e <= t.len(),
        p_unary(t, pos) == Ok::<(PropV, int), Seq<char>>((x, e)),
        no_operator_at(t, e),
    ensures
        p_iff(t, pos) == Ok::<(PropV, int), Seq<char>>((x, e)),
{
    assert(p_and_rest(t, x, e) == Ok::<(PropV, int), Seq<char>>((x, e)));
    assert(p_and(t, pos) == Ok::<(PropV, int), Seq<char>>((x, e)));
    lemma_from_and(t, pos, x, e);
}

/// A parenthesised group whose inside parses is a primary.
proof fn lemma_paren_primary(t: Seq<TokV>, pos: int, x: PropV, len: int)
    requires
        0 <= pos,
        0 <= len,
        pos + len + 2 <= t.len(),
        tok_at(t, pos) == Some(TokV::LParen),
        tok_at(t, pos + 1 + len) == Some(TokV::RParen),
        p_iff(t, pos + 1) == Ok::<(PropV, int), Seq<char>>((x, pos + 1 + len)),
    ensures
        p_primary(t, pos) == Ok::<(PropV, int), Seq<char>>((x, pos + len + 2)),
        p_unary(t, pos) == Ok::<(PropV, int), Seq<char>>((x, pos + len + 2)),
{
}

/// A parenthesised printed property is a unary operand that ends right
/// after its `)`.
proof fn lemma_group(t: Seq<TokV>, pos: int, x: PropV)
    requires
        0 <= pos,
        pos + print_toks(x).len() + 2 <= t.len(),
        t.subrange(pos, pos + print_toks(x).len() + 2) == paren_toks(print_toks(x)),
    ensures
        p_unary(t, pos) == Ok::<(PropV, int), Seq<char>>((x, pos + print_toks(x).len() + 2)),
{
    let xs = print_toks(x);
    let g = paren_toks(xs);
    assert(t[pos] == g[0]);
    assert(t[pos + 1 + xs.len()] == g[1 + xs.len() as int]);
    assert(t.subrange(pos + 1, pos + 1 + xs.len()) =~= xs) by {
        assert forall|i: int| 0 <= i < xs.len() implies t.subrange(pos + 1, pos + 1 + xs.len())[i] == xs[i] by {
            assert(t[pos + 1 + i] == g[1 + i]);
        }
    }
    lemma_parse_printed(x, t, pos + 1);
    lemma_paren_primary(t, pos, x, xs.len() as int);
}

/// A parenthesised printed property followed by neither `and` nor `or` is
/// a whole `or`-level operand.
proof fn lemma_group_or(t: Seq<TokV>, pos: int, x: PropV)
    requires
        0 <= pos,
        pos + print_toks(x).len() + 2 <= t.len(),
        t.subrange(pos, pos + print_toks(x).len() + 2) == paren_toks(print_toks(x)),
        tok_at(t, pos + print_toks(x).len() + 2) != Some(TokV::And),
        tok_at(t, pos + print_toks(x).len() + 2) != Some(TokV::Or),
    ensures
        p_or(t, pos) == Ok::<(PropV, int), Seq<char>>((x, pos + print_toks(x).len() + 2)),
{
    let e = pos + print_toks(x).len() + 2;
    lemma_group(t, pos, x);
    assert(p_and_rest(t, x, e) == Ok::<(PropV, int), Seq<char>>((x, e)));
    assert(p_and(t, pos) == Ok::<(PropV, int), Seq<char>>((x, e)));
    assert(p_or_rest(t, x, e) == Ok::<(PropV, int), Seq<char>>((x, e)));
}

/// `not (a) and (b)` parses as `(not a) and b`.
#[verifier::spinoff_prover]
pub proof fn lemma_not_and_precedence(a: PropV, b: PropV)
    ensures
        ({
            let t = seq![TokV::Not] + paren_toks(print_toks(a)) + seq![TokV::And] + paren_toks(print_toks(b));
            p_iff(t, 0) == Ok::<(PropV, int), Seq<char>>((PropV::And(Box::new(PropV::Not(Box::new(a))), Box::new(b)), t.len() as int))
        }),
{
    let ga = paren_toks(print_toks(a));
    let gb = paren_toks(print_toks(b));
    let t = seq![TokV::Not] + ga + seq![TokV::And] + gb;
    let la = print_toks(a).len() as int;
    let lb = print_toks(b).len() as int;
    assert(t.len() == la + lb + 6);
    assert(t.subrange(1, la + 3) =~= ga);
    assert(t.subrange(la + 4, la + lb + 6) =~= gb);
    assert(t[0] == TokV::Not);
    assert(t[la + 3] == TokV::And);
    lemma_group(t, 1, a);
    lemma_group(t, la + 4, b);
    let na = PropV::Not(Box::new(a));
    let x = PropV::And(Box::new(na), Box::new(b));
    assert(p_unary(t, 0) == Ok::<(PropV, int), Seq<char>>((na, la + 3)));
    assert(p_and_rest(t, x, la + lb + 6) == Ok::<(PropV, int), Seq<char>>((x, la + lb + 6)));
    assert(p_and_rest(t, na, la + 3) == Ok::<(PropV, int), Seq<char>>((x, la + lb + 6)));
    assert(p_and(t, 0) == Ok::<(PropV, int), Seq<char>>((x, la + lb + 6)));
    lemma_from_and(t, 0, x, la + lb + 6);
}

/// `(a) => (b) <=> (c)` parses as `(a => b) <=> c`.
pub proof fn lemma_implies_iff_precedence(a: PropV, b: PropV, c: PropV)
    ensures
        ({
            let t = paren_toks(print_toks(a)) + seq![TokV::Implies] + paren_toks(print_toks(b)) + seq![TokV::Iff]
                + paren_toks(print_toks(c));
            p_iff(t, 0) == Ok::<(PropV, int), Seq<char>>((PropV::Iff(
                Box::new(PropV::Implies(Box::new(a), Box::new(b))), Box::new(c)), t.len() as int))
        }),
{
    let ga = paren_toks(print_toks(a));
    let gb = paren_toks(print_toks(b));
    let gc = paren_toks(print_toks(c));
    let t = ga + seq![TokV::Implies] + gb + seq![TokV::Iff] + gc;
    let la = print_toks(a).len() as int;
    let lb = print_toks(b).len() as int;
    assert(t.subrange(0, la + 2) =~= ga);
    assert(t.subrange(la + 3, la + lb + 5) =~= gb);
    assert(t.subrange(la + lb + 6, t.len() as int) =~= gc);
    assert(t[la + 2] == TokV::Implies);
    assert(t[la + lb + 5] == TokV::Iff);
    lemma_implies_iff_layout(t, a, b, c, la, lb);
}

/// The layout `(a) => (b) <=> (c)` within any token sequence that holds
/// exactly it.
#[verifier::rlimit(30)]
proof fn lemma_implies_iff_layout(t: Seq<TokV>, a: PropV, b: PropV, c: PropV, la: int, lb: int)
    requires
        la == print_toks(a).len(),
        lb == print_toks(b).len(),
        t.len() == la + lb + print_toks(c).len() + 8,
        t.subrange(0, la + 2) == paren_toks(print_toks(a)),
        t[la + 2] == TokV::Implies,
        t.subrange(la + 3, la + lb + 5) == paren_toks(print_toks(b)),
        t[la + lb + 5] == TokV::Iff,
        t.subrange(la + lb + 6, t.len() as int) == paren_toks(print_toks(c)),
    ensures
        p_iff(t, 0) == Ok::<(PropV, int), Seq<char>>((PropV::Iff(
            Box::new(PropV::Implies(Box::new(a), Box::new(b))), Box::new(c)), t.len() as int)),
{
    let n = t.len() as int;
    lemma_group_or(t, 0, a);
    lemma_group_or(t, la + 3, b);
    lemma_group(t, la + lb + 6, c);
    lemma_implies_of_or(t, la + 3, b, la + lb + 5);
    lemma_implies_chain(t, 0, a, la + 2, b, la + lb + 5);
    lemma_from_unary(t, la + lb + 6, c, n);
    lemma_iff_chain(t, 0, PropV::Implies(Box::new(a), Box::new(b)), la + lb + 5, c, n);
}

/// An `or`-level operand not followed by `=>` is a whole implication.
proof fn lemma_implies_of_or(t: Seq<TokV>, pos: int, x: PropV, e: int)
    requires
        0 <= pos <= e <= t.len(),
        p_or(t, pos) == Ok::<(PropV, int), Seq<char>>((x, e)),
        tok_at(t, e) != Some(TokV::Implies),
    ensures
        p_implies(t, pos) == Ok::<(PropV, int), Seq<char>>((x, e)),
{
}

/// `x => y` where `x` is an `or`-level operand and `y` an implication.
proof fn lemma_implies_chain(t: Seq<TokV>, pos: int, x: PropV, e1: int, y: PropV, e2: int)
    requires
        0 <= pos <= e1 < t.len(),
        p_or(t, pos) == Ok::<(PropV, int), Seq<char>>((x, e1)),
        tok_at(t, e1) == Some(TokV::Implies),
        p_implies(t, e1 + 1) == Ok::<(PropV, int), Seq<char>>((y, e2)),
    ensures
        p_implies(t, pos) == Ok::<(PropV, int), Seq<char>>((PropV::Implies(Box::new(x), Box::new(y)), e2)),
{
}

/// `x <=> y` where `x` is an implication and `y` a biconditional.
proof fn lemma_iff_chain(t: Seq<TokV>, pos: int, x: PropV, e1: int, y: PropV, e2: int)
    requires
        0 <= pos <= e1 < t.len(),
        p_implies(t, pos) == Ok::<(PropV, int), Seq<char>>((x, e1)),
        tok_at(t, e1) == Some(TokV::Iff),
        p_iff(t, e1 + 1) == Ok::<(PropV, int), Seq<char>>((y, e2)),
    ensures
        p_iff(t, pos) == Ok::<(PropV, int), Seq<char>>((PropV::Iff(Box::new(x), Box::new(y)), e2)),
{
}

/// Wherever the printed tokens of `a` stand before a `)`, they parse back
/// to `a`.
pub open spec fn parses_anywhere(a: PropV) -> bool {
    forall|t2: Seq<TokV>, pos2: int| 0 <= pos2 && pos2 + print_toks(a).len() <= t2.len()
        && t2.subrange(pos2, pos2 + print_toks(a).len()) == print_toks(a)
        && tok_at(t2, pos2 + print_toks(a).len()) == Some(TokV::RParen)
        ==> #[trigger] p_iff(t2, pos2) == Ok::<(PropV, int), Seq<char>>((a, pos2 + print_toks(a).len()))
}

/// The printed tokens of `p`, followed by the end or by `)`, parse back to
/// `p` and end right after them.
pub proof fn lemma_parse_printed(p: PropV, t: Seq<TokV>, pos: int)
    requires
        0 <= pos,
        pos + print_toks(p).len() <= t.len(),
        t.subrange(pos, pos + print_toks(p).len()) == print_toks(p),
        tok_at(t, pos + print_toks(p).len()) is None
            || tok_at(t, pos + print_toks(p).len()) == Some(TokV::RParen),
    ensures
        p_iff(t, pos) == Ok::<(PropV, int), Seq<char>>((p, pos + print_toks(p).len())),
    decreases p, 0int,
{
    match p {
        PropV::True => lemma_parse_true(t, pos),
        PropV::False => lemma_parse_false(t, pos),
        PropV::In(s) => lemma_parse_in(t, pos, s),
        PropV::Not(a) => {
            lemma_parses_anywhere(*a);
            lemma_parse_not(t, pos, *a);
        },
        PropV::And(a, b) => {
            lemma_parses_anywhere(*a);
            lemma_parses_anywhere(*b);
            lemma_parse_printed_and(t, pos, *a, *b);
        },
        PropV::Or(a, b) => {
            lemma_parses_anywhere(*a);
            lemma_parses_anywhere(*b);
            lemma_parse_printed_or(t, pos, *a, *b);
        },
        PropV::Implies(a, b) => {
            lemma_parses_anywhere(*a);
            lemma_parses_anywhere(*b);
            lemma_parse_printed_implies(t, pos, *a, *b);
        },
        PropV::Iff(a, b) => {
            lemma_parses_anywhere(*a);
            lemma_parses_anywhere(*b);
            lemma_parse_printed_iff(t, pos, *a, *b);
        },
    }
}

/// Every property's printed tokens parse back wherever they stand before
/// a `)`.
proof fn lemma_parses_anywhere(a: PropV)
    ensures
        parses_anywhere(a),
    decreases a, 1int,
{
    assert forall|t2: Seq<TokV>, pos2: int| 0 <= pos2 && pos2 + print_toks(a).len() <= t2.len()
        && t2.subrange(pos2, pos2 + print_toks(a).len()) == print_toks(a)
        && tok_at(t2, pos2 + print_toks(a).len()) == Some(TokV::RParen)
        implies #[trigger] p_iff(t2, pos2) == Ok::<(PropV, int), Seq<char>>((a, pos2 + print_toks(a).len())) by {
        lemma_parse_printed(a, t2, pos2);
    }
}

/// `true` parses back.
proof fn lemma_parse_true(t: Seq<TokV>, pos: int)
    requires
        0 <= pos,
        pos + print_toks(PropV::True).len() <= t.len(),
        t.subrange(pos, pos + print_toks(PropV::True).len()) == print_toks(PropV::True),
        tok_at(t, pos + print_toks(PropV::True).len()) is None
            || tok_at(t, pos + print_toks(PropV::True).len()) == Some(TokV::RParen),
    ensures
        p_iff(t, pos) == Ok::<(PropV, int), Seq<char>>((PropV::True, pos + print_toks(PropV::True).len())),
{
    let p = PropV::True;
    let w = print_toks(p);
    let end = pos + w.len();
    assert forall|i: int| 0 <= i < w.len() implies tok_at(t, pos + i) == Some(#[trigger] w[i]) by {
        assert(t.subrange(pos, end)[i] == t[pos + i]);
    }
    assert(tok_at(t, pos) == Some(w[0]));
    assert(w[0] == TokV::True);
    assert(p_primary(t, pos) == Ok::<(PropV, int), Seq<char>>((p, end)));
    assert(p_unary(t, pos) == Ok::<(PropV, int), Seq<char>>((p, end)));
    lemma_from_unary(t, pos, p, end);
}

/// `false` parses back.
proof fn lemma_parse_false(t: Seq<TokV>, pos: int)
    requires
        0 <= pos,
        pos + print_toks(PropV::False).len() <= t.len(),
        t.subrange(pos, pos + print_toks(PropV::False).len()) == print_toks(PropV::False),
        tok_at(t, pos + print_toks(PropV::False).len()) is None
            || tok_at(t, pos + print_toks(PropV::False).len()) == Some(TokV::RParen),
    ensures
        p_iff(t, pos) == Ok::<(PropV, int), Seq<char>>((PropV::False, pos + print_toks(PropV::False).len())),
{
    let p = PropV::False;
    let w = print_toks(p);
    let end = pos + w.len();
    assert forall|i: int| 0 <= i < w.len() implies tok_at(t, pos + i) == Some(#[trigger] w[i]) by {
        assert(t.subrange(pos, end)[i] == t[pos + i]);
    }
    assert(tok_at(t, pos) == Some(w[0]));
    assert(w[0] == TokV::False);
    assert(p_primary(t, pos) == Ok::<(PropV, int), Seq<char>>((p, end)));
    assert(p_unary(t, pos) == Ok::<(PropV, int), Seq<char>>((p, end)));
    lemma_from_unary(t, pos, p, end);
}

/// `in('s')` parses back.
proof fn lemma_parse_in(t: Seq<TokV>, pos: int, s: Seq<char>)
    requires
        0 <= pos,
        pos + print_toks(PropV::In(s)).len() <= t.len(),
        t.subrange(pos, pos + print_toks(PropV::In(s)).len()) == print_toks(PropV::In(s)),
        tok_at(t, pos + print_toks(PropV::In(s)).len()) is None
            || tok_at(t, pos + print_toks(PropV::In(s)).len()) == Some(TokV::RParen),
    ensures
        p_iff(t, pos) == Ok::<(PropV, int), Seq<char>>((PropV::In(s), pos + print_toks(PropV::In(s)).len())),
{
    let p = PropV::In(s);
    let w = print_toks(p);
    let end = pos + w.len();
    assert forall|i: int| 0 <= i < w.len() implies tok_at(t, pos + i) == Some(#[trigger] w[i]) by {
        assert(t.subrange(pos, end)[i] == t[pos + i]);
    }
    assert(tok_at(t, pos) == Some(w[0]));
    assert(tok_at(t, pos + 1) == Some(w[1]));
    assert(tok_at(t, pos + 2) == Some(w[2]));
    assert(tok_at(t, pos + 3) == Some(w[3]));
    assert(w[0] == TokV::In && w[1] == TokV::LParen && w[2] == TokV::Str(s) && w[3] == TokV::RParen);
    assert(p_primary(t, pos) == Ok::<(PropV, int), Seq<char>>((p, end)));
    assert(p_unary(t, pos) == Ok::<(PropV, int), Seq<char>>((p, end)));
    lemma_from_unary(t, pos, p, end);
}

/// `not (a)` parses back.
proof fn lemma_parse_not(t: Seq<TokV>, pos: int, a: PropV)
    requires
        0 <= pos,
        pos + print_toks(PropV::Not(Box::new(a))).len() <= t.len(),
        t.subrange(pos, pos + print_toks(PropV::Not(Box::new(a))).len()) == print_toks(PropV::Not(Box::new(a))),
        tok_at(t, pos + print_toks(PropV::Not(Box::new(a))).len()) is None
            || tok_at(t, pos + print_toks(PropV::Not(Box::new(a))).len()) == Some(TokV::RParen),
        parses_anywhere(a),
    ensures
        p_iff(t, pos) == Ok::<(PropV, int), Seq<char>>((PropV::Not(Box::new(a)), pos + print_toks(PropV::Not(Box::new(a))).len())),
{
    let p = PropV::Not(Box::new(a));
    let w = print_toks(p);
    let end = pos + w.len();
    assert forall|i: int| 0 <= i < w.len() implies tok_at(t, pos + i) == Some(#[trigger] w[i]) by {
        assert(t.subrange(pos, end)[i] == t[pos + i]);
    }
    let x = print_toks(a);
    assert(tok_at(t, pos) == Some(w[0]));
    assert(tok_at(t, pos + 1) == Some(w[1]));
    assert(tok_at(t, pos + 2 + x.len()) == Some(w[2 + x.len() as int]));
    assert(t.subrange(pos + 2, pos + 2 + x.len()) =~= x) by {
        assert forall|i: int| 0 <= i < x.len() implies t.subrange(pos + 2, pos + 2 + x.len())[i] == x[i] by {
            assert(w[2 + i] == x[i]);
            assert(tok_at(t, pos + 2 + i) == Some(w[2 + i]));
        }
    }
    lemma_paren_primary(t, pos + 1, a, x.len() as int);
    assert(p_unary(t, pos) == Ok::<(PropV, int), Seq<char>>((p, end)));
    lemma_from_unary(t, pos, p, end);
}

/// `(a) And (b)` printed at `pos` parses back.
proof fn lemma_parse_printed_and(t: Seq<TokV>, pos: int, a: PropV, b: PropV)
    requires
        0 <= pos,
        ({
            let w = paren_toks(print_toks(a)) + seq![TokV::And] + paren_toks(print_toks(b));
            &&& pos + w.len() <= t.len()
            &&& t.subrange(pos, pos + w.len()) == w
            &&& (tok_at(t, pos + w.len()) is None || tok_at(t, pos + w.len()) == Some(TokV::RParen))
        }),
        forall|t2: Seq<TokV>, pos2: int| 0 <= pos2 && pos2 + print_toks(a).len() <= t2.len()
            && t2.subrange(pos2, pos2 + print_toks(a).len()) == print_toks(a)
            && tok_at(t2, pos2 + print_toks(a).len()) == Some(TokV::RParen)
            ==> #[trigger] p_iff(t2, pos2) == Ok::<(PropV, int), Seq<char>>((a, pos2 + print_toks(a).len())),
        forall|t2: Seq<TokV>, pos2: int| 0 <= pos2 && pos2 + print_toks(b).len() <= t2.len()
            && t2.subrange(pos2, pos2 + print_toks(b).len()) == print_toks(b)
            && tok_at(t2, pos2 + print_toks(b).len()) == Some(TokV::RParen)
            ==> #[trigger] p_iff(t2, pos2) == Ok::<(PropV, int), Seq<char>>((b, pos2 + print_toks(b).len())),
    ensures
        p_iff(t, pos) == Ok::<(PropV, int), Seq<char>>((PropV::And(Box::new(a), Box::new(b)),
            pos + print_toks(PropV::And(Box::new(a), Box::new(b))).len())),
{
    let p = PropV::And(Box::new(a), Box::new(b));
    assert(print_toks(p) == paren_toks(print_toks(a)) + seq![TokV::And] + paren_toks(print_toks(b)));
        lemma_binary(t, pos, a, b, TokV::And);
        let q = pos + print_toks(a).len() + 2;
        let e = q + 1 + print_toks(b).len() + 2;
        assert(p_unary(t, pos) == Ok::<(PropV, int), Seq<char>>((a, q)));
        assert(p_unary(t, q + 1) == Ok::<(PropV, int), Seq<char>>((b, e)));
        assert(p_and_rest(t, PropV::And(Box::new(a), Box::new(b)), e) == Ok::<(PropV, int), Seq<char>>((PropV::And(Box::new(a), Box::new(b)), e)));
        assert(p_and_rest(t, a, q) == Ok::<(PropV, int), Seq<char>>((PropV::And(Box::new(a), Box::new(b)), e)));
        assert(p_and(t, pos) == Ok::<(PropV, int), Seq<char>>((PropV::And(Box::new(a), Box::new(b)), e)));
        lemma_from_and(t, pos, PropV::And(Box::new(a), Box::new(b)), e);
}

/// `(a) Or (b)` printed at `pos` parses back.
proof fn lemma_parse_printed_or(t: Seq<TokV>, pos: int, a: PropV, b: PropV)
    requires
        0 <= pos,
        ({
            let w = paren_toks(print_toks(a)) + seq![TokV::Or] + paren_toks(print_toks(b));
            &&& pos + w.len() <= t.len()
            &&& t.subrange(pos, pos + w.len()) == w
            &&& (tok_at(t, pos + w.len()) is None || tok_at(t, pos + w.len()) == Some(TokV::RParen))
        }),
        forall|t2: Seq<TokV>, pos2: int| 0 <= pos2 && pos2 + print_toks(a).len() <= t2.len()
            && t2.subrange(pos2, pos2 + print_toks(a).len()) == print_toks(a)
            && tok_at(t2, pos2 + print_toks(a).len()) == Some(TokV::RParen)
            ==> #[trigger] p_iff(t2, pos2) == Ok::<(PropV, int), Seq<char>>((a, pos2 + print_toks(a).len())),
        forall|t2: Seq<TokV>, pos2: int| 0 <= pos2 && pos2 + print_toks(b).len() <= t2.len()
            && t2.subrange(pos2, pos2 + print_toks(b).len()) == print_toks(b)
            && tok_at(t2, pos2 + print_toks(b).len()) == Some(TokV::RParen)
            ==> #[trigger] p_iff(t2, pos2) == Ok::<(PropV, int), Seq<char>>((b, pos2 + print_toks(b).len())),
    ensures
        p_iff(t, pos) == Ok::<(PropV, int), Seq<char>>((PropV::Or(Box::new(a), Box::new(b)),
            pos + print_toks(PropV::Or(Box::new(a), Box::new(b))).len())),
{
    let p = PropV::Or(Box::new(a), Box::new(b));
    assert(print_toks(p) == paren_toks(print_toks(a)) + seq![TokV::Or] + paren_toks(print_toks(b)));
        lemma_binary(t, pos, a, b, TokV::Or);
        let q = pos + print_toks(a).len() + 2;
        let e = q + 1 + print_toks(b).len() + 2;
        assert(p_unary(t, pos) == Ok::<(PropV, int), Seq<char>>((a, q)));
        assert(p_unary(t, q + 1) == Ok::<(PropV, int), Seq<char>>((b, e)));
        assert(p_and_rest(t, a, q) == Ok::<(PropV, int), Seq<char>>((a, q)));
        assert(p_and(t, pos) == Ok::<(PropV, int), Seq<char>>((a, q)));
        assert(p_and_rest(t, b, e) == Ok::<(PropV, int), Seq<char>>((b, e)));
        assert(p_and(t, q + 1) == Ok::<(PropV, int), Seq<char>>((b, e)));
        assert(p_or_rest(t, PropV::Or(Box::new(a), Box::new(b)), e) == Ok::<(PropV, int), Seq<char>>((PropV::Or(Box::new(a), Box::new(b)), e)));
        assert(p_or_rest(t, a, q) == Ok::<(PropV, int), Seq<char>>((PropV::Or(Box::new(a), Box::new(b)), e)));
        assert(p_or(t, pos) == Ok::<(PropV, int), Seq<char>>((PropV::Or(Box::new(a), Box::new(b)), e)));
        lemma_from_or(t, pos, PropV::Or(Box::new(a), Box::new(b)), e);
}

/// `(a) Implies (b)` printed at `pos` parses back.
proof fn lemma_parse_printed_implies(t: Seq<TokV>, pos: int, a: PropV, b: PropV)
    requires
        0 <= pos,
        ({
            let w = paren_toks(print_toks(a)) + seq![TokV::Implies] + paren_toks(print_toks(b));
            &&& pos + w.len() <= t.len()
            &&& t.subrange(pos, pos + w.len()) == w
            &&& (tok_at(t, pos + w.len()) is None || tok_at(t, pos + w.len()) == Some(TokV::RParen))
        }),
        forall|t2: Seq<TokV>, pos2: int| 0 <= pos2 && pos2 + print_toks(a).len() <= t2.len()
            && t2.subrange(pos2, pos2 + print_toks(a).len()) == print_toks(a)
            && tok_at(t2, pos2 + print_toks(a).len()) == Some(TokV::RParen)
            ==> #[trigger] p_iff(t2, pos2) == Ok::<(PropV, int), Seq<char>>((a, pos2 + print_toks(a).len())),
        forall|t2: Seq<TokV>, pos2: int| 0 <= pos2 && pos2 + print_toks(b).len() <= t2.len()
            && t2.subrange(pos2, pos2 + print_toks(b).len()) == print_toks(b)
            && tok_at(t2, pos2 + print_toks(b).len()) == Some(TokV::RParen)
            ==> #[trigger] p_iff(t2, pos2) == Ok::<(PropV, int), Seq<char>>((b, pos2 + print_toks(b).len())),
    ensures
        p_iff(t, pos) == Ok::<(PropV, int), Seq<char>>((PropV::Implies(Box::new(a), Box::new(b)),
            pos + print_toks(PropV::Implies(Box::new(a), Box::new(b))).len())),
{
    let p = PropV::Implies(Box::new(a), Box::new(b));
    assert(print_toks(p) == paren_toks(print_toks(a)) + seq![TokV::Implies] + paren_toks(print_toks(b)));
        lemma_binary(t, pos, a, b, TokV::Implies);
        let q = pos + print_toks(a).len() + 2;
        let e = q + 1 + print_toks(b).len() + 2;
        assert(p_unary(t, pos) == Ok::<(PropV, int), Seq<char>>((a, q)));
        assert(p_unary(t, q + 1) == Ok::<(PropV, int), Seq<char>>((b, e)));
        assert(p_and_rest(t, a, q) == Ok::<(PropV, int), Seq<char>>((a, q)));
        assert(p_and(t, pos) == Ok::<(PropV, int), Seq<char>>((a, q)));
        assert(p_or_rest(t, a, q) == Ok::<(PropV, int), Seq<char>>((a, q)));
        assert(p_or(t, pos) == Ok::<(PropV, int), Seq<char>>((a, q)));
        assert(p_and_rest(t, b, e) == Ok::<(PropV, int), Seq<char>>((b, e)));
        assert(p_and(t, q + 1) == Ok::<(PropV, int), Seq<char>>((b, e)));
        assert(p_or_rest(t, b, e) == Ok::<(PropV, int), Seq<char>>((b, e)));
        assert(p_or(t, q + 1) == Ok::<(PropV, int), Seq<char>>((b, e)));
        assert(p_implies(t, q + 1) == Ok::<(PropV, int), Seq<char>>((b, e)));
        assert(p_implies(t, pos) == Ok::<(PropV, int), Seq<char>>((PropV::Implies(Box::new(a), Box::new(b)), e)));
        lemma_from_implies(t, pos, PropV::Implies(Box::new(a), Box::new(b)), e);
}

/// `(a) Iff (b)` printed at `pos` parses back.
proof fn lemma_parse_printed_iff(t: Seq<TokV>, pos: int, a: PropV, b: PropV)
    requires
        0 <= pos,
        ({
            let w = paren_toks(print_toks(a)) + seq![TokV::Iff] + paren_toks(print_toks(b));
            &&& pos + w.len() <= t.len()
            &&& t.subrange(pos, pos + w.len()) == w
            &&& (tok_at(t, pos + w.len()) is None || tok_at(t, pos + w.len()) == Some(TokV::RParen))
        }),
        forall|t2: Seq<TokV>, pos2: int| 0 <= pos2 && pos2 + print_toks(a).len() <= t2.len()
            && t2.subrange(pos2, pos2 + print_toks(a).len()) == print_toks(a)
            && tok_at(t2, pos2 + print_toks(a).len()) == Some(TokV::RParen)
            ==> #[trigger] p_iff(t2, pos2) == Ok::<(PropV, int), Seq<char>>((a, pos2 + print_toks(a).len())),
        forall|t2: Seq<TokV>, pos2: int| 0 <= pos2 && pos2 + print_toks(b).len() <= t2.len()
            && t2.subrange(pos2, pos2 + print_toks(b).len()) == print_toks(b)
            && tok_at(t2, pos2 + print_toks(b).len()) == Some(TokV::RParen)
            ==> #[trigger] p_iff(t2, pos2) == Ok::<(PropV, int), Seq<char>>((b, pos2 + print_toks(b).len())),
    ensures
        p_iff(t, pos) == Ok::<(PropV, int), Seq<char>>((PropV::Iff(Box::new(a), Box::new(b)),
            pos + print_toks(PropV::Iff(Box::new(a), Box::new(b))).len())),
{
    let p = PropV::Iff(Box::new(a), Box::new(b));
    assert(print_toks(p) == paren_toks(print_toks(a)) + seq![TokV::Iff] + paren_toks(print_toks(b)));
        lemma_binary(t, pos, a, b, TokV::Iff);
        let q = pos + print_toks(a).len() + 2;
        let e = q + 1 + print_toks(b).len() + 2;
        assert(p_unary(t, pos) == Ok::<(PropV, int), Seq<char>>((a, q)));
        assert(p_unary(t, q + 1) == Ok::<(PropV, int), Seq<char>>((b, e)));
        assert(p_and_rest(t, a, q) == Ok::<(PropV, int), Seq<char>>((a, q)));
        assert(p_and(t, pos) == Ok::<(PropV, int), Seq<char>>((a, q)));
        assert(p_or_rest(t, a, q) == Ok::<(PropV, int), Seq<char>>((a, q)));
        assert(p_or(t, pos) == Ok::<(PropV, int), Seq<char>>((a, q)));
        assert(p_implies(t, pos) == Ok::<(PropV, int), Seq<char>>((a, q)));
        lemma_from_unary(t, q + 1, b, e);
        assert(p_iff(t, pos) == Ok::<(PropV, int), Seq<char>>((PropV::Iff(Box::new(a), Box::new(b)), e)));
}

/// For `(a) OP (b)` printed at `pos`: both groups are primaries, and `OP`
/// stands between them.
proof fn lemma_binary(t: Seq<TokV>, pos: int, a: PropV, b: PropV, op: TokV)
    requires
        0 <= pos,
        ({
            let w = paren_toks(print_toks(a)) + seq![op] + paren_toks(print_toks(b));
            &&& pos + w.len() <= t.len()
            &&& t.subrange(pos, pos + w.len()) == w
            &&& (tok_at(t, pos + w.len()) is None || tok_at(t, pos + w.len()) == Some(TokV::RParen))
        }),
        forall|t2: Seq<TokV>, pos2: int| 0 <= pos2 && pos2 + print_toks(a).len() <= t2.len()
            && t2.subrange(pos2, pos2 + print_toks(a).len()) == print_toks(a)
            && tok_at(t2, pos2 + print_toks(a).len()) == Some(TokV::RParen)
            ==> #[trigger] p_iff(t2, pos2) == Ok::<(PropV, int), Seq<char>>((a, pos2 + print_toks(a).len())),
        forall|t2: Seq<TokV>, pos2: int| 0 <= pos2 && pos2 + print_toks(b).len() <= t2.len()
            && t2.subrange(pos2, pos2 + print_toks(b).len()) == print_toks(b)
            && tok_at(t2, pos2 + print_toks(b).len()) == Some(TokV::RParen)
            ==> #[trigger] p_iff(t2, pos2) == Ok::<(PropV, int), Seq<char>>((b, pos2 + print_toks(b).len())),
    ensures
        ({
            let la = print_toks(a).len() as int;
            let lb = print_toks(b).len() as int;
            let q = pos + la + 2;
            let e = q + 1 + lb + 2;
            &&& tok_at(t, q) == Some(op)
            &&& no_operator_at(t, e)
            &&& p_unary(t, pos) == Ok::<(PropV, int), Seq<char>>((a, q))
            &&& p_unary(t, q + 1) == Ok::<(PropV, int), Seq<char>>((b, e))
            &&& pos <= q && q + 1 <= e <= t.len()
        }),
{
    let x = print_toks(a);
    let y = print_toks(b);
    let w = paren_toks(x) + seq![op] + paren_toks(y);
    let la = x.len() as int;
    let lb = y.len() as int;
    let q = pos + la + 2;
    let e = q + 1 + lb + 2;
    assert forall|i: int| 0 <= i < w.len() implies tok_at(t, pos + i) == Some(#[trigger] w[i]) by {
        assert(t.subrange(pos, pos + w.len())[i] == t[pos + i]);
    }
    assert(w[0] == TokV::LParen);
    assert(tok_at(t, pos) == Some(TokV::LParen));
    assert(w[la + 1] == TokV::RParen);
    assert(tok_at(t, pos + 1 + la) == Some(TokV::RParen));
    assert(w[la + 2] == op);
    assert(w[la + 3] == TokV::LParen);
    assert(tok_at(t, q + 1) == Some(TokV::LParen));
    assert(w[la + 4 + lb] == TokV::RParen);
    assert(tok_at(t, q + 2 + lb) == Some(TokV::RParen));
    assert(t.subrange(pos + 1, pos + 1 + la) =~= x) by {
        assert forall|i: int| 0 <= i < la implies t.subrange(pos + 1, pos + 1 + la)[i] == x[i] by {
            assert(w[1 + i] == x[i]);
            assert(tok_at(t, pos + 1 + i) == Some(w[1 + i]));
        }
    }
    assert(t.subrange(q + 2, q + 2 + lb) =~= y) by {
        assert forall|i: int| 0 <= i < lb implies t.subrange(q + 2, q + 2 + lb)[i] == y[i] by {
            assert(w[la + 4 + i] == y[i]);
            assert(tok_at(t, q + 2 + i) == Some(w[la + 4 + i]));
        }
    }
    assert(p_iff(t, pos + 1) == Ok::<(PropV, int), Seq<char>>((a, pos + 1 + la)));
    assert(p_iff(t, q + 2) == Ok::<(PropV, int), Seq<char>>((b, q + 2 + lb)));
    lemma_paren_primary(t, pos, a, la);
    lemma_paren_primary(t, q + 1, b, lb);
}

/// Whether two tokens are equal.
pub fn same_tok(a: &Tok, b: &Tok) -> (r: bool)
    ensures
        r == (a.value() == b.value()),
{
    match (a, b) {
        (Tok::LParen, Tok::LParen) => true,
        (Tok::RParen, Tok::RParen) => true,
        (Tok::Comma, Tok::Comma) => true,
        (Tok::Not, Tok::Not) => true,
        (Tok::And, Tok::And) => true,
        (Tok::Or, Tok::Or) => true,
        (Tok::Implies, Tok::Implies) => true,
        (Tok::Iff, Tok::Iff) => true,
        (Tok::True, Tok::True) => true,
        (Tok::False, Tok::False) => true,
        (Tok::In, Tok::In) => true,
        (Tok::Ident(x), Tok::Ident(y)) => x.eq(y),
        (Tok::Str(x), Tok::Str(y)) => x.eq(y),
        _ => false,
    }
}

/// `format!("{:?}", t)` for an optional token.
pub fn opt_tok_debug_text(t: Option<&Tok>) -> (r: String)
    ensures
        r@ == opt_tok_debug(match t { Some(x) => Some(x.value()), None => None }),
{
    match t {
        None => String::from_str("None"),
        Some(x) => {
            let mut r = String::from_str("Some(");
            match x {
                Tok::LParen => r.append("LParen"),
                Tok::RParen => r.append("RParen"),
                Tok::Comma => r.append("Comma"),
                Tok::Not => r.append("Not"),
                Tok::And => r.append("And"),
                Tok::Or => r.append("Or"),
                Tok::Implies => r.append("Implies"),
                Tok::Iff => r.append("Iff"),
                Tok::True => r.append("True"),
                Tok::False => r.append("False"),
                Tok::In => r.append("In"),
                Tok::Ident(s) => {
                    r.append("Ident(");
                    let d = debug_text(s.as_str());
                    r.append(d.as_str());
                    r.append(")");
                },
                Tok::Str(s) => {
                    r.append("Str(");
                    let d = debug_text(s.as_str());
                    r.append(d.as_str());
                    r.append(")");
                },
            }
            r.append(")");
            r
        },
    }
}

/// Recursive-descent parser over a token list.
pub struct Parser {
    pub toks: Vec<Tok>,
    pub pos: usize,
}

/// A parse step from `start` to `end` agrees with the spec result `spec`.
pub open spec fn step_agrees(r: Result<Prop, String>, spec: PRes, start: int, end: int, len: int) -> bool {
    match r {
        Ok(p) => spec == Ok::<(PropV, int), Seq<char>>((p.value(), end)) && start <= end <= len,
        Err(e) => spec == Err::<(PropV, int), Seq<char>>(e@),
    }
}

impl Parser {
    pub open spec fn tv(&self) -> Seq<TokV> {
        tok_values(self.toks@)
    }

    /// The current token.
    pub fn peek(&self) -> (r: Option<&Tok>)
        ensures
            match r {
                Some(t) => self.pos < self.toks.len() && *t == self.toks@[self.pos as int],
                None => self.pos >= self.toks.len(),
            },
    {
        if self.pos < self.toks.len() {
            Some(&self.toks[self.pos])
        } else {
            None
        }
    }

    /// Consume the current token when it equals `t`.
    pub fn eat(&mut self, t: &Tok) -> (r: bool)
        ensures
            final(self).toks == old(self).toks,
            r == (tok_at(old(self).tv(), old(self).pos as int) == Some(t.value())),
            final(self).pos == if r { old(self).pos + 1 } else { old(self).pos as int },
    {
        let hit = match self.peek() {
            Some(cur) => same_tok(cur, t),
            None => false,
        };
        if hit {
            self.pos += 1;
        }
        hit
    }

    pub fn parse_iff(&mut self) -> (r: Result<Prop, String>)
        requires
            old(self).pos <= old(self).toks.len(),
        ensures
            final(self).toks == old(self).toks,
            step_agrees(r, p_iff(old(self).tv(), old(self).pos as int), old(self).pos as int, final(self).pos as int, old(self).toks.len() as int),
        decreases old(self).toks.len() - old(self).pos, 10int,
    {
        let lhs = self.parse_implies()?;
        if self.eat(&Tok::Iff) {
            let rhs = self.parse_iff()?;
            Ok(Prop::Iff(Box::new(lhs), Box::new(rhs)))
        } else {
            Ok(lhs)
        }
    }

    pub fn parse_implies(&mut self) -> (r: Result<Prop, String>)
        requires
            old(self).pos <= old(self).toks.len(),
        ensures
            final(self).toks == old(self).toks,
            step_agrees(r, p_implies(old(self).tv(), old(self).pos as int), old(self).pos as int, final(self).pos as int, old(self).toks.len() as int),
        decreases old(self).toks.len() - old(self).pos, 9int,
    {
        let lhs = self.parse_or()?;
        if self.eat(&Tok::Implies) {
            let rhs = self.parse_implies()?;
            Ok(Prop::Implies(Box::new(lhs), Box::new(rhs)))
        } else {
            Ok(lhs)
        }
    }

    pub fn parse_or(&mut self) -> (r: Result<Prop, String>)
        requires
            old(self).pos <= old(self).toks.len(),
        ensures
            final(self).toks == old(self).toks,
            step_agrees(r, p_or(old(self).tv(), old(self).pos as int), old(self).pos as int, final(self).pos as int, old(self).toks.len() as int),
        decreases old(self).toks.len() - old(self).pos, 8int,
    {
        let lhs = self.parse_and()?;
        self.parse_or_rest(lhs)
    }

    /// Fold `or` operands onto `lhs` while the next token is `or`.
    pub fn parse_or_rest(&mut self, lhs: Prop) -> (r: Result<Prop, String>)
        requires
            old(self).pos <= old(self).toks.len(),
        ensures
            final(self).toks == old(self).toks,
            step_agrees(r, p_or_rest(old(self).tv(), lhs.value(), old(self).pos as int), old(self).pos as int, final(self).pos as int, old(self).toks.len() as int),
        decreases old(self).toks.len() - old(self).pos, 7int,
    {
        if !self.eat(&Tok::Or) {
            return Ok(lhs);
        }
        let rhs = self.parse_and()?;
        self.parse_or_rest(Prop::Or(Box::new(lhs), Box::new(rhs)))
    }

    pub fn parse_and(&mut self) -> (r: Result<Prop, String>)
        requires
            old(self).pos <= old(self).toks.len(),
        ensures
            final(self).toks == old(self).toks,
            step_agrees(r, p_and(old(self).tv(), old(self).pos as int), old(self).pos as int, final(self).pos as int, old(self).toks.len() as int),
        decreases old(self).toks.len() - old(self).pos, 6int,
    {
        let lhs = self.parse_unary()?;
        self.parse_and_rest(lhs)
    }

    /// Fold `and` operands onto `lhs` while the next token is `and`.
    pub fn parse_and_rest(&mut self, lhs: Prop) -> (r: Result<Prop, String>)
        requires
            old(self).pos <= old(self).toks.len(),
        ensures
            final(self).toks == old(self).toks,
            step_agrees(r, p_and_rest(old(self).tv(), lhs.value(), old(self).pos as int), old(self).pos as int, final(self).pos as int, old(self).toks.len() as int),
        decreases old(self).toks.len() - old(self).pos, 5int,
    {
        if !self.eat(&Tok::And) {
            return Ok(lhs);
        }
        let rhs = self.parse_unary()?;
        self.parse_and_rest(Prop::And(Box::new(lhs), Box::new(rhs)))
    }

    pub fn parse_unary(&mut self) -> (r: Result<Prop, String>)
        requires
            old(self).pos <= old(self).toks.len(),
        ensures
            final(self).toks == old(self).toks,
            step_agrees(r, p_unary(old(self).tv(), old(self).pos as int), old(self).pos as int, final(self).pos as int, old(self).toks.len() as int),
        decreases old(self).toks.len() - old(self).pos, 4int,
    {
        if self.eat(&Tok::Not) {
            let inner = self.parse_unary()?;
            Ok(Prop::Not(Box::new(inner)))
        } else {
            self.parse_primary()
        }
    }

    pub fn parse_primary(&mut self) -> (r: Result<Prop, String>)
        requires
            old(self).pos <= old(self).toks.len(),
        ensures
            final(self).toks == old(self).toks,
            step_agrees(r, p_primary(old(self).tv(), old(self).pos as int), old(self).pos as int, final(self).pos as int, old(self).toks.len() as int),
        decreases old(self).toks.len() - old(self).pos, 3int,
    {
        let ghost t = self.tv();
        let ghost start = self.pos as int;
        match self.peek() {
            Some(Tok::True) => {
                self.pos += 1;
                Ok(Prop::True)
            },
            Some(Tok::False) => {
                self.pos += 1;
                Ok(Prop::False)
            },
            Some(Tok::LParen) => {
                self.pos += 1;
                let inner = self.parse_iff()?;
                if !self.eat(&Tok::RParen) {
                    return Err(String::from_str("expected `)`"));
                }
                Ok(inner)
            },
            Some(Tok::In) => {
                self.pos += 1;
                if !self.eat(&Tok::LParen) {
                    return Err(String::from_str("expected `(` after `in`"));
                }
                let id = match self.peek() {
                    Some(Tok::Str(s)) => s.clone(),
                    Some(Tok::Ident(s)) => s.clone(),
                    other => {
                        let mut m = String::from_str("expected state id in `in(...)`, got ");
                        let d = opt_tok_debug_text(other);
                        m.append(d.as_str());
                        return Err(m);
                    },
                };
                self.pos += 1;
                if !self.eat(&Tok::RParen) {
                    return Err(String::from_str("expected `)` to close `in(...)`"));
                }
                Ok(Prop::In(id))
            },
            other => {
                let mut m = String::from_str("unexpected token ");
                let d = opt_tok_debug_text(other);
                m.append(d.as_str());
                m.append(" in primary position");
                Err(m)
            },
        }
    }
}

/// Parse an invariant expression into a property.
pub fn parse_property(src: &str) -> (r: Result<Prop, String>)
    ensures
        match r {
            Ok(p) => spec_parse_property(src.spec_bytes()) == Ok::<PropV, Seq<char>>(p.value()),
            Err(e) => spec_parse_property(src.spec_bytes()) == Err::<PropV, Seq<char>>(e@),
        },
{
    let toks = tokenize(src)?;
    let mut p = Parser { toks, pos: 0 };
    let prop = p.parse_iff()?;
    if p.pos != p.toks.len() {
        let mut m = String::from_str("unexpected trailing tokens at position ");
        let digits = decimal_text(p.pos);
        m.append(digits.as_str());
        return Err(m);
    }
    Ok(prop)
}

} // verus!
