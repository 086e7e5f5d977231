//! Lexical helpers over character vectors shared by the EDN and JSON readers:
//! searching, digit classes, float-literal recognition and suffix trimming.

use vstd::prelude::*;

use crate::history::edn_spec::{
    all_dec, find_char, is_dec_digit, is_float_text, lower, lower_seq, mantissa_ok,
    non_finite_text, number_ok, shows_float, strip_sign, trim_mn,
};

verus! {

/// `find_char` is the first index holding `c`.
pub proof fn lemma_find_char(s: Seq<char>, c: char, k: int)
    requires
        0 <= k <= s.len(),
        forall|i: int| 0 <= i < k ==> s[i] != c,
        k == s.len() || s[k] == c,
    ensures
        find_char(s, c) == k,
    decreases s.len(),
{
    if s.len() > 0 && s[0] != c {
        assert forall|i: int| 0 <= i < k - 1 implies s.drop_first()[i] != c by {
            assert(s.drop_first()[i] == s[i + 1]);
        }
        lemma_find_char(s.drop_first(), c, k - 1);
    }
}

/// The index of the first `c` in `v[lo..hi]`, or `hi`.
pub fn find_in(v: &Vec<char>, lo: usize, hi: usize, c: char) -> (r: usize)
    requires
        lo <= hi <= v.len(),
    ensures
        r == lo + find_char(v@.subrange(lo as int, hi as int), c),
        lo <= r <= hi,
{
    let mut i: usize = lo;
    while i < hi && v[i] != c
        invariant
            lo <= i <= hi <= v.len(),
            forall|k: int| lo <= k < i ==> v@[k] != c,
        decreases hi - i,
    {
        i = i + 1;
    }
    proof {
        let s = v@.subrange(lo as int, hi as int);
        assert forall|k: int| 0 <= k < i - lo implies s[k] != c by {
            assert(s[k] == v@[lo + k]);
        }
        lemma_find_char(s, c, i - lo);
    }
    i
}

/// Whether `v[lo..hi]` is all decimal digits.
pub fn all_dec_in(v: &Vec<char>, lo: usize, hi: usize) -> (r: bool)
    requires
        lo <= hi <= v.len(),
    ensures
        r == all_dec(v@.subrange(lo as int, hi as int)),
{
    let mut i: usize = lo;
    while i < hi
        invariant
            lo <= i <= hi <= v.len(),
            forall|k: int| lo <= k < i ==> is_dec_digit(#[trigger] v@[k]),
        decreases hi - i,
    {
        if !('0' <= v[i] && v[i] <= '9') {
            assert(v@.subrange(lo as int, hi as int)[i - lo] == v@[i as int]);
            return false;
        }
        i = i + 1;
    }
    assert forall|k: int| 0 <= k < hi - lo implies is_dec_digit(
        #[trigger] v@.subrange(lo as int, hi as int)[k],
    ) by {
        assert(v@.subrange(lo as int, hi as int)[k] == v@[lo + k]);
    }
    true
}

/// The ASCII-lowercase form of a character.
pub fn lower_char(c: char) -> (r: char)
    ensures
        r == lower(c),
{
    if 'A' <= c && c <= 'Z' {
        let x: u32 = (c as u32) + 32;
        assert(x < 0xD800);
        char_from_ascii(x)
    } else {
        c
    }
}

/// The character with an ASCII code point.
fn char_from_ascii(x: u32) -> (c: char)
    requires
        x < 128,
    ensures
        c == x as char,
{
    // Every ASCII code point is a valid `char`.
    let b: u8 = x as u8;
    b as char
}

/// The end of `v[lo..hi]` after removing every trailing `M` and `N`.
pub fn trim_mn_end(v: &Vec<char>, lo: usize, hi: usize) -> (r: usize)
    requires
        lo <= hi <= v.len(),
    ensures
        lo <= r <= hi,
        v@.subrange(lo as int, r as int) == trim_mn(v@.subrange(lo as int, hi as int)),
{
    let mut j: usize = hi;
    while j > lo && (v[j - 1] == 'M' || v[j - 1] == 'N')
        invariant
            lo <= j <= hi <= v.len(),
            trim_mn(v@.subrange(lo as int, hi as int)) == trim_mn(v@.subrange(lo as int, j as int)),
        decreases j - lo,
    {
        assert(v@.subrange(lo as int, j as int).drop_last() =~= v@.subrange(lo as int, j - 1));
        j = j - 1;
    }
    j
}

/// Whether `l[lo..hi]` (already lowercased) spells `lit`.
fn lowered_is(l: &Vec<char>, lo: usize, hi: usize, lit: &str) -> (r: bool)
    requires
        lo <= hi <= l.len(),
    ensures
        r == (l@.subrange(lo as int, hi as int) == lit@),
{
    crate::history::op::chars_eq(l, lo, hi, lit)
}

/// Whether `v` spells an infinity or a NaN (see `non_finite_text`).
pub fn is_non_finite(v: &Vec<char>) -> (r: bool)
    ensures
        r == non_finite_text(v@),
{
    let hi = v.len();
    let mut b: usize = 0;
    if hi > 0 && (v[0] == '+' || v[0] == '-') {
        b = 1;
        assert(v@.drop_first() =~= v@.subrange(1, hi as int));
    } else {
        assert(v@ =~= v@.subrange(0, hi as int));
    }
    let mut l: Vec<char> = Vec::new();
    let mut i: usize = b;
    while i < hi
        invariant
            b <= i <= hi == v.len(),
            l@ =~= lower_seq(v@.subrange(b as int, i as int)),
        decreases hi - i,
    {
        l.push(lower_char(v[i]));
        i = i + 1;
    }
    let n = l.len();
    assert(l@.subrange(0, n as int) =~= l@);
    lowered_is(&l, 0, n, "inf") || lowered_is(&l, 0, n, "infinity") || lowered_is(&l, 0, n, "nan")
}

/// Whether `v` holds a decimal point or an exponent mark.
pub fn shows_float_in(v: &Vec<char>) -> (r: bool)
    ensures
        r == shows_float(v@),
{
    let mut i: usize = 0;
    while i < v.len()
        invariant
            i <= v.len(),
            forall|j: int| 0 <= j < i ==> !(v@[j] == '.' || v@[j] == 'e' || v@[j] == 'E'),
        decreases v.len() - i,
    {
        if v[i] == '.' || v[i] == 'e' || v[i] == 'E' {
            return true;
        }
        i = i + 1;
    }
    false
}

/// Whether `v[lo..hi]` is text that `f64::from_str` accepts.
pub fn is_float_text_in(v: &Vec<char>, lo: usize, hi: usize) -> (r: bool)
    requires
        lo <= hi <= v.len(),
    ensures
        r == is_float_text(v@.subrange(lo as int, hi as int)),
{
    let ghost t = v@.subrange(lo as int, hi as int);
    let mut b: usize = lo;
    if lo < hi && (v[lo] == '+' || v[lo] == '-') {
        b = lo + 1;
        assert(t.drop_first() =~= v@.subrange(b as int, hi as int));
    } else {
        assert(t =~= v@.subrange(b as int, hi as int));
    }
    assert(strip_sign(t) == v@.subrange(b as int, hi as int));
    // Lowercase the body.
    let mut l: Vec<char> = Vec::new();
    let mut i: usize = b;
    while i < hi
        invariant
            b <= i <= hi <= v.len(),
            l@ =~= lower_seq(v@.subrange(b as int, i as int)),
        decreases hi - i,
    {
        l.push(lower_char(v[i]));
        i = i + 1;
    }
    let ghost ls = l@;
    assert(ls == lower_seq(strip_sign(t)));
    let n = l.len();
    assert(ls.subrange(0, n as int) =~= ls);
    if lowered_is(&l, 0, n, "inf") || lowered_is(&l, 0, n, "infinity") || lowered_is(
        &l,
        0,
        n,
        "nan",
    ) {
        return true;
    }
    // number_ok(ls)
    let e = find_in(&l, 0, n, 'e');
    let ghost m = ls.take(e as int);
    assert(m =~= l@.subrange(0, e as int));
    let d = find_in(&l, 0, e, '.');
    let mant = if d == e {
        e > 0 && all_dec_in(&l, 0, e)
    } else {
        assert(m.take(d as int) =~= l@.subrange(0, d as int));
        assert(m.skip(d + 1) =~= l@.subrange(d + 1, e as int));
        all_dec_in(&l, 0, d) && all_dec_in(&l, d + 1, e) && (d > 0 || e > d + 1)
    };
    assert(mant == mantissa_ok(m));
    if !mant {
        return false;
    }
    if e == n {
        return true;
    }
    let mut xs: usize = e + 1;
    assert(ls.skip(e + 1) =~= l@.subrange(e + 1, n as int));
    if xs < n && (l[xs] == '+' || l[xs] == '-') {
        xs = xs + 1;
        assert(ls.skip(e + 1).drop_first() =~= l@.subrange(xs as int, n as int));
    }
    assert(strip_sign(ls.skip(e + 1)) == l@.subrange(xs as int, n as int));
    xs < n && all_dec_in(&l, xs, n)
}

} // verus!
