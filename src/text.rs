//! Byte-level lexical layer: separators, tokens and decimal numerals.
use vstd::prelude::*;

verus! {

/// Separators between tokens: ASCII whitespace and the comma.
pub open spec fn is_sep(b: u8) -> bool {
    b == 32 || b == 9 || b == 10 || b == 11 || b == 12 || b == 13 || b == 44
}

pub open spec fn is_digit(b: u8) -> bool {
    48 <= b <= 57
}

pub open spec fn all_digits(s: Seq<u8>) -> bool {
    forall|i: int| 0 <= i < s.len() ==> is_digit(#[trigger] s[i])
}

/// The number that a string of decimal digits denotes.
pub open spec fn decimal_value(s: Seq<u8>) -> nat
    decreases s.len(),
{
    if s.len() == 0 {
        0
    } else {
        decimal_value(s.drop_last()) * 10 + (s.last() - 48) as nat
    }
}

/// A non-empty string of decimal digits whose value fits in 64 bits.
pub open spec fn decimal(s: Seq<u8>) -> Option<u64> {
    if s.len() > 0 && all_digits(s) && decimal_value(s) <= u64::MAX {
        Some(decimal_value(s) as u64)
    } else {
        None
    }
}

/// The tokens among the first `n` bytes of `s`, as half-open byte ranges:
/// maximal runs of bytes that are not separators.
pub open spec fn tokens_upto(s: Seq<u8>, n: int) -> Seq<(int, int)>
    decreases n,
{
    if n <= 0 {
        seq![]
    } else {
        let t = tokens_upto(s, n - 1);
        if is_sep(s[n - 1]) {
            t
        } else if n == 1 || is_sep(s[n - 2]) {
            t.push((n - 1, n))
        } else {
            t.update(t.len() - 1, (t.last().0, n))
        }
    }
}

pub open spec fn tokens(s: Seq<u8>) -> Seq<(int, int)> {
    tokens_upto(s, s.len() as int)
}

/// Each token is a non-empty range inside the first `n` bytes, and a token ends at `n` exactly when byte `n - 1` is no separator.
pub proof fn lemma_tokens_upto_shape(s: Seq<u8>, n: int)
    requires
        0 <= n <= s.len(),
    ensures
        forall|j: int|
            0 <= j < tokens_upto(s, n).len() ==> 0 <= #[trigger] tokens_upto(s, n)[j].0
                < tokens_upto(s, n)[j].1 <= n,
        n > 0 && !is_sep(s[n - 1]) ==> tokens_upto(s, n).len() > 0 && tokens_upto(s, n).last().1
            == n,
    decreases n,
{
    if n > 0 {
        lemma_tokens_upto_shape(s, n - 1);
        let t = tokens_upto(s, n - 1);
        let u = tokens_upto(s, n);
        if is_sep(s[n - 1]) {
            assert(u == t);
        } else if n == 1 || is_sep(s[n - 2]) {
            assert(u == t.push((n - 1, n)));
            assert forall|j: int| 0 <= j < u.len() implies 0 <= #[trigger] u[j].0 < u[j].1 <= n by {
                if j < t.len() {
                    assert(u[j] == t[j]);
                }
            }
        } else {
            assert(u == t.update(t.len() - 1, (t.last().0, n)));
            assert forall|j: int| 0 <= j < u.len() implies 0 <= #[trigger] u[j].0 < u[j].1 <= n by {
                if j < t.len() - 1 {
                    assert(u[j] == t[j]);
                }
            }
        }
    }
}

pub proof fn lemma_tokens_shape(s: Seq<u8>)
    ensures
        forall|j: int|
            0 <= j < tokens(s).len() ==> 0 <= #[trigger] tokens(s)[j].0 < tokens(s)[j].1
                <= s.len(),
{
    lemma_tokens_upto_shape(s, s.len() as int);
}

pub open spec fn spans_match(v: Seq<(usize, usize)>, t: Seq<(int, int)>) -> bool {
    &&& v.len() == t.len()
    &&& forall|j: int|
        0 <= j < v.len() ==> (#[trigger] v[j]).0 as int == t[j].0 && v[j].1 as int == t[j].1
}

/// Splits `s` into its tokens.
pub fn tokenize(s: &[u8]) -> (r: Vec<(usize, usize)>)
    ensures
        spans_match(r@, tokens(s@)),
{
    let mut r: Vec<(usize, usize)> = Vec::new();
    let mut i: usize = 0;
    while i < s.len()
        invariant
            i <= s.len(),
            spans_match(r@, tokens_upto(s@, i as int)),
        decreases s.len() - i,
    {
        proof {
            lemma_tokens_upto_shape(s@, i as int);
        }
        let b = s[i];
        if is_separator(b) {
        } else if i == 0 || is_separator(s[i - 1]) {
            r.push((i, i + 1));
        } else {
            let last = r.len() - 1;
            let start = r[last].0;
            r.set(last, (start, i + 1));
        }
        i = i + 1;
    }
    r
}

pub fn is_separator(b: u8) -> (r: bool)
    ensures
        r == is_sep(b),
{
    b == 32 || b == 9 || b == 10 || b == 11 || b == 12 || b == 13 || b == 44
}

/// A digit string's value is at least that of any of its prefixes.
pub proof fn lemma_decimal_prefix(s: Seq<u8>, k: int)
    requires
        0 <= k <= s.len(),
    ensures
        decimal_value(s.subrange(0, k)) <= decimal_value(s),
    decreases s.len(),
{
    if k < s.len() {
        assert(s.drop_last().subrange(0, k) =~= s.subrange(0, k));
        lemma_decimal_prefix(s.drop_last(), k);
    } else {
        assert(s.subrange(0, k) =~= s);
    }
}

/// Reads the decimal numeral `s[lo..hi]`.
pub fn parse_decimal(s: &[u8], lo: usize, hi: usize) -> (r: Option<u64>)
    requires
        lo <= hi <= s.len(),
    ensures
        r == decimal(s@.subrange(lo as int, hi as int)),
{
    if lo == hi {
        return None;
    }
    let ghost whole = s@.subrange(lo as int, hi as int);
    let mut v: u64 = 0;
    let mut i: usize = lo;
    while i < hi
        invariant
            lo <= i <= hi <= s.len(),
            whole == s@.subrange(lo as int, hi as int),
            all_digits(s@.subrange(lo as int, i as int)),
            v as nat == decimal_value(s@.subrange(lo as int, i as int)),
        decreases hi - i,
    {
        let b = s[i];
        let ghost next = s@.subrange(lo as int, i + 1);
        assert(next.drop_last() =~= s@.subrange(lo as int, i as int));
        if b < 48 || b > 57 {
            assert(!is_digit(whole[i - lo]));
            return None;
        }
        let w: u128 = v as u128 * 10 + (b - 48) as u128;
        if w > u64::MAX as u128 {
            proof {
                if all_digits(whole) {
                    assert(whole.subrange(0, i + 1 - lo) =~= next);
                    lemma_decimal_prefix(whole, i + 1 - lo);
                }
            }
            return None;
        }
        v = w as u64;
        i = i + 1;
    }
    assert(s@.subrange(lo as int, i as int) =~= whole);
    Some(v)
}

/// The decimal numeral of `v`, without leading zeros.
pub open spec fn dec_text(v: nat) -> Seq<u8>
    decreases v,
{
    if v < 10 {
        seq![(48 + v) as u8]
    } else {
        dec_text(v / 10).push((48 + v % 10) as u8)
    }
}

pub proof fn lemma_dec_text(v: nat)
    ensures
        dec_text(v).len() >= 1,
        all_digits(dec_text(v)),
        decimal_value(dec_text(v)) == v,
        forall|i: int| 0 <= i < dec_text(v).len() ==> !is_sep(#[trigger] dec_text(v)[i]),
    decreases v,
{
    if v >= 10 {
        lemma_dec_text(v / 10);
        let s = dec_text(v / 10);
        assert(dec_text(v).drop_last() =~= s);
        assert(forall|i: int| 0 <= i < s.len() ==> dec_text(v)[i] == s[i]);
        assert(dec_text(v).last() == (48 + v % 10) as u8);
        assert((((48 + v % 10) as u8) - 48) as nat == v % 10);
        assert(v == (v / 10) * 10 + v % 10);
        assert(decimal_value(dec_text(v)) == decimal_value(s) * 10 + (dec_text(v).last() - 48) as nat);
    } else {
        assert(dec_text(v).last() == (48 + v) as u8);
        assert(decimal_value(Seq::<u8>::empty()) == 0);
        assert(dec_text(v).drop_last() =~= Seq::<u8>::empty());
        assert(decimal_value(dec_text(v)) == decimal_value(dec_text(v).drop_last()) * 10 + (
        dec_text(v).last() - 48) as nat);
        assert(dec_text(v).drop_last() =~= Seq::<u8>::empty());
    }
}

/// Token ranges moved `k` bytes to the right.
pub open spec fn shift(t: Seq<(int, int)>, k: int) -> Seq<(int, int)> {
    t.map_values(|p: (int, int)| (p.0 + k, p.1 + k))
}

/// Tokens among the first `n` bytes depend on those bytes only.
pub proof fn lemma_tokens_prefix(s1: Seq<u8>, s2: Seq<u8>, n: int)
    requires
        0 <= n <= s1.len(),
        n <= s2.len(),
        s1.subrange(0, n) == s2.subrange(0, n),
    ensures
        tokens_upto(s1, n) == tokens_upto(s2, n),
    decreases n,
{
    if n > 0 {
        assert(s1.subrange(0, n - 1) =~= s1.subrange(0, n).subrange(0, n - 1));
        assert(s2.subrange(0, n - 1) =~= s2.subrange(0, n).subrange(0, n - 1));
        assert(s1[n - 1] == s1.subrange(0, n)[n - 1]);
        assert(s2[n - 1] == s2.subrange(0, n)[n - 1]);
        if n >= 2 {
            assert(s1[n - 2] == s1.subrange(0, n)[n - 2]);
            assert(s2[n - 2] == s2.subrange(0, n)[n - 2]);
        }
        lemma_tokens_prefix(s1, s2, n - 1);
    }
}

proof fn lemma_tokens_concat_upto(x: Seq<u8>, r: Seq<u8>, k: int)
    requires
        x.len() >= 1,
        is_sep(x.last()),
        0 <= k <= r.len(),
    ensures
        tokens_upto(x + r, x.len() + k) == tokens(x) + shift(tokens_upto(r, k), x.len() as int),
    decreases k,
{
    let s = x + r;
    let n = x.len() + k;
    if k == 0 {
        assert(s.subrange(0, x.len() as int) =~= x.subrange(0, x.len() as int));
        lemma_tokens_prefix(s, x, x.len() as int);
        assert(shift(tokens_upto(r, 0), x.len() as int) =~= Seq::<(int, int)>::empty());
        assert(tokens(x) + Seq::<(int, int)>::empty() =~= tokens(x));
    } else {
        lemma_tokens_concat_upto(x, r, k - 1);
        lemma_tokens_upto_shape(r, k - 1);
        let t = tokens_upto(s, n - 1);
        let u = tokens_upto(r, k - 1);
        let tx = tokens(x);
        let xl = x.len() as int;
        assert(s[n - 1] == r[k - 1]);
        if k >= 2 {
            assert(s[n - 2] == r[k - 2]);
        } else {
            assert(s[n - 2] == x.last());
        }
        if is_sep(r[k - 1]) {
        } else if k == 1 || is_sep(r[k - 2]) {
            assert(tokens_upto(r, k) == u.push((k - 1, k)));
            assert(tokens_upto(s, n) == t.push((n - 1, n)));
            assert(shift(u.push((k - 1, k)), xl) =~= shift(u, xl).push((n - 1, n)));
            assert(tx + shift(u, xl).push((n - 1, n)) =~= (tx + shift(u, xl)).push((n - 1, n)));
        } else {
            let u2 = u.update(u.len() - 1, (u.last().0, k));
            assert(tokens_upto(r, k) == u2);
            assert(t.len() == tx.len() + u.len());
            assert(t.last() == (u.last().0 + xl, u.last().1 + xl));
            assert(tokens_upto(s, n) == t.update(t.len() - 1, (t.last().0, n)));
            assert(t.update(t.len() - 1, (t.last().0, n)) =~= tx + shift(u2, xl));
        }
    }
}

/// After a separator, the tokens of what follows are its own, moved along.
pub proof fn lemma_tokens_concat(x: Seq<u8>, r: Seq<u8>)
    requires
        x.len() >= 1,
        is_sep(x.last()),
    ensures
        tokens(x + r) == tokens(x) + shift(tokens(r), x.len() as int),
{
    lemma_tokens_concat_upto(x, r, r.len() as int);
}

/// A word with no separator, followed by separators only, is one token.
pub proof fn lemma_tokens_word(w: Seq<u8>, sep: Seq<u8>)
    requires
        w.len() >= 1,
        forall|i: int| 0 <= i < w.len() ==> !is_sep(#[trigger] w[i]),
        forall|i: int| 0 <= i < sep.len() ==> is_sep(#[trigger] sep[i]),
    ensures
        tokens(w + sep) == seq![(0int, w.len() as int)],
{
    lemma_tokens_word_upto(w, sep, (w.len() + sep.len()) as int);
}

proof fn lemma_tokens_word_upto(w: Seq<u8>, sep: Seq<u8>, n: int)
    requires
        1 <= n <= w.len() + sep.len(),
        w.len() >= 1,
        forall|i: int| 0 <= i < w.len() ==> !is_sep(#[trigger] w[i]),
        forall|i: int| 0 <= i < sep.len() ==> is_sep(#[trigger] sep[i]),
    ensures
        tokens_upto(w + sep, n) == seq![(0int, if n < w.len() { n } else { w.len() as int })],
    decreases n,
{
    let s = w + sep;
    if n == 1 {
        assert(s[0] == w[0]);
        assert(tokens_upto(s, 0) =~= Seq::<(int, int)>::empty());
        assert(Seq::<(int, int)>::empty().push((0, 1)) =~= seq![(0int, 1int)]);
    } else {
        lemma_tokens_word_upto(w, sep, n - 1);
        if n <= w.len() {
            assert(s[n - 1] == w[n - 1]);
            assert(s[n - 2] == w[n - 2]);
        } else {
            assert(s[n - 1] == sep[n - 1 - w.len()]);
        }
    }
}

} // verus!
