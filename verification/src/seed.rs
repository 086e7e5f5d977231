//! The [`Seed`] newtype.
//!
//! The seed reproduces the deterministic executor only. Its text form is `0x`
//! followed by 16 lowercase hex digits; parsing accepts that form (with `0x` or
//! `0X`) and a plain decimal `u64`, after trimming surrounding whitespace.

use vstd::prelude::*;

use crate::text::{
    chars_of, hex_char_of, hex_digits, lemma_hex_digits_are_digits, lemma_hex_digits_len,
    lemma_leading_ws_zero, lemma_trailing_ws_zero, parse_u64_radix, parse_u64_spec, pow_nat,
    push_str, skip_leading_ws, skip_trailing_ws, string_of, string_of_range, trim,
    is_unicode_ws, leading_ws, trim_start,
};

verus! {

/// An 8-byte seed for the deterministic executor.
#[derive(Clone, Copy, Debug, PartialEq, Eq, Hash, PartialOrd, Ord)]
pub struct Seed(pub u64);

/// An error parsing a [`Seed`] from a string: carries the trimmed input.
#[derive(Clone, Debug, PartialEq, Eq)]
pub struct SeedParseError(pub String);

/// The canonical text of a seed: `0x` and 16 zero-padded lowercase hex digits.
pub open spec fn seed_text(v: u64) -> Seq<char> {
    seq!['0', 'x'] + hex_digits(v as nat, 16)
}

/// What parsing `s` as a seed yields: the trimmed text, read as hex after a
/// `0x`/`0X` prefix, else as decimal.
pub open spec fn seed_parse_spec(s: Seq<char>) -> Option<u64> {
    let t = trim(s);
    if t.len() >= 2 && t[0] == '0' && (t[1] == 'x' || t[1] == 'X') {
        parse_u64_spec(t.skip(2), 16)
    } else {
        parse_u64_spec(t, 10)
    }
}

/// The message of a seed parse error for the (trimmed) input `input`.
pub open spec fn seed_error_text(input: Seq<char>) -> Seq<char> {
    "invalid seed `"@ + input + "`: expected a u64, optionally 0x-prefixed"@
}

impl Seed {
    /// The canonical `0x…` text, zero-padded to 16 hex digits so the width is
    /// stable across seeds.
    pub fn to_string(&self) -> (s: String)
        ensures
            s@ == seed_text(self.0),
    {
        let mut out: Vec<char> = Vec::new();
        out.push('0');
        out.push('x');
        let mut digits: Vec<char> = Vec::new();
        let mut x: u64 = self.0;
        let mut n: usize = 0;
        while n < 16
            invariant
                n <= 16,
                hex_digits(self.0 as nat, 16) =~= hex_digits(x as nat, (16 - n) as nat)
                    + digits@.reverse(),
            decreases 16 - n,
        {
            let d: u64 = x % 16;
            let c = hex_char_of(d);
            assert(hex_digits(x as nat, (16 - n) as nat) == hex_digits((x / 16) as nat, (16 - n
                - 1) as nat).push(crate::text::hex_char((x % 16) as nat)));
            let ghost old_digits = digits@;
            digits.push(c);
            assert(digits@.reverse() =~= seq![c] + old_digits.reverse());
            x = x / 16;
            n = n + 1;
        }
        assert(hex_digits(x as nat, 0) =~= Seq::<char>::empty());
        let mut k: usize = 16;
        proof {
            lemma_hex_digits_len(self.0 as nat, 16);
        }
        while k > 0
            invariant
                k <= 16,
                digits@.len() == 16,
                out@ =~= seq!['0', 'x'] + digits@.reverse().take(16 - k),
            decreases k,
        {
            k = k - 1;
            out.push(digits[k]);
            assert(digits@.reverse().take(16 - k) =~= digits@.reverse().take(16 - k - 1).push(
                digits@[k as int],
            ));
        }
        assert(digits@.reverse().take(16) =~= digits@.reverse());
        string_of(&out)
    }

    /// Parse a seed from its canonical `0x…` hex form or a plain decimal `u64`,
    /// ignoring surrounding whitespace. The error carries the trimmed input.
    pub fn parse(s: &str) -> (r: Result<Seed, SeedParseError>)
        ensures
            match r {
                Ok(seed) => seed_parse_spec(s@) == Some(seed.0),
                Err(e) => seed_parse_spec(s@) is None && e.0@ == trim(s@),
            },
    {
        let v = chars_of(s);
        let lo = skip_leading_ws(&v, 0, v.len());
        let hi = skip_trailing_ws(&v, lo, v.len());
        let ghost t = trim(s@);
        assert(v@.subrange(0, v.len() as int) =~= v@);
        assert(t =~= v@.subrange(lo as int, hi as int));
        let parsed = if hi - lo >= 2 && v[lo] == '0' && (v[lo + 1] == 'x' || v[lo + 1] == 'X') {
            assert(t.skip(2) =~= v@.subrange(lo + 2, hi as int));
            parse_u64_radix(&v, lo + 2, hi, 16)
        } else {
            parse_u64_radix(&v, lo, hi, 10)
        };
        match parsed {
            Some(n) => Ok(Seed(n)),
            None => Err(SeedParseError(string_of_range(&v, lo, hi))),
        }
    }
}

impl SeedParseError {
    /// The human-readable message naming the rejected input.
    pub fn to_string(&self) -> (s: String)
        ensures
            s@ == seed_error_text(self.0@),
    {
        let mut out: Vec<char> = Vec::new();
        push_str(&mut out, "invalid seed `");
        push_str(&mut out, self.0.as_str());
        push_str(&mut out, "`: expected a u64, optionally 0x-prefixed");
        string_of(&out)
    }
}

impl std::str::FromStr for Seed {
    type Err = SeedParseError;

    fn from_str(s: &str) -> (r: Result<Self, Self::Err>)
        ensures
            match r {
                Ok(seed) => seed_parse_spec(s@) == Some(seed.0),
                Err(e) => seed_parse_spec(s@) is None && e.0@ == trim(s@),
            },
    {
        Seed::parse(s)
    }
}

/// The canonical text of every seed parses back to that seed.
pub proof fn lemma_seed_text_roundtrip(v: u64)
    ensures
        seed_parse_spec(seed_text(v)) == Some(v),
{
    let t = seed_text(v);
    let h = hex_digits(v as nat, 16);
    lemma_hex_digits_len(v as nat, 16);
    lemma_hex_digits_are_digits(v as nat, 16);
    assert(t[0] == '0');
    lemma_leading_ws_zero(t);
    assert(trim_start(t) == t);
    // the last character is a hex digit, never whitespace
    assert(t.last() == h.last());
    assert(crate::text::all_digits(h, 16));
    assert(0 <= crate::text::digit_of(h[15]) < 16);
    lemma_trailing_ws_zero(t);
    assert(trim(t) == t);
    assert(t.skip(2) =~= h);
    reveal_with_fuel(pow_nat, 17);
    assert(pow_nat(16, 16) == 0x1_0000_0000_0000_0000);
    assert(0 <= crate::text::digit_of(h[0]) < 16);
    assert(h[0] != '+');
}

} // verus!
