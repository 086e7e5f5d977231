//! Character-level text helpers shared by the seed and history codecs:
//! Unicode whitespace, trimming, and radix-digit parsing with the semantics of
//! `str::trim` and the integer `from_str` family.

use vstd::prelude::*;

verus! {

// ---------------------------------------------------------------------------
// Whitespace
// ---------------------------------------------------------------------------

/// The Unicode `White_Space` property, as `char::is_whitespace` tests it.
pub open spec fn is_unicode_ws(c: char) -> bool {
    let x: u32 = c as u32;
    (0x9 <= x && x <= 0xd) || x == 0x20 || x == 0x85 || x == 0xa0 || x == 0x1680 || (0x2000 <= x
        && x <= 0x200a) || x == 0x2028 || x == 0x2029 || x == 0x202f || x == 0x205f || x == 0x3000
}

/// ASCII whitespace as `u8::is_ascii_whitespace` tests it (space, tab, line
/// feed, form feed, carriage return). A non-ASCII character is never ASCII
/// whitespace, so this also describes the byte-level test on UTF-8 text.
pub open spec fn is_ascii_ws(c: char) -> bool {
    c == ' ' || c == '\t' || c == '\n' || c == '\x0c' || c == '\r'
}

/// Whether `c` has the Unicode `White_Space` property.
pub fn is_whitespace(c: char) -> (r: bool)
    ensures
        r == is_unicode_ws(c),
{
    let x: u32 = c as u32;
    (0x9 <= x && x <= 0xd) || x == 0x20 || x == 0x85 || x == 0xa0 || x == 0x1680 || (0x2000 <= x
        && x <= 0x200a) || x == 0x2028 || x == 0x2029 || x == 0x202f || x == 0x205f || x == 0x3000
}

/// Whether `c` is ASCII whitespace.
pub fn is_ascii_whitespace(c: char) -> (r: bool)
    ensures
        r == is_ascii_ws(c),
{
    c == ' ' || c == '\t' || c == '\n' || c == '\x0c' || c == '\r'
}

/// The number of leading whitespace characters of `s`.
pub open spec fn leading_ws(s: Seq<char>) -> nat
    decreases s.len(),
{
    if s.len() > 0 && is_unicode_ws(s[0]) {
        1 + leading_ws(s.drop_first())
    } else {
        0
    }
}

/// The number of trailing whitespace characters of `s`.
pub open spec fn trailing_ws(s: Seq<char>) -> nat
    decreases s.len(),
{
    if s.len() > 0 && is_unicode_ws(s.last()) {
        1 + trailing_ws(s.drop_last())
    } else {
        0
    }
}

/// `str::trim_start`.
pub open spec fn trim_start(s: Seq<char>) -> Seq<char> {
    s.skip(leading_ws(s) as int)
}

/// `str::trim_end`.
pub open spec fn trim_end(s: Seq<char>) -> Seq<char> {
    s.take(s.len() - trailing_ws(s))
}

/// `str::trim`.
pub open spec fn trim(s: Seq<char>) -> Seq<char> {
    trim_end(trim_start(s))
}

pub proof fn lemma_leading_ws_bound(s: Seq<char>)
    ensures
        leading_ws(s) <= s.len(),
        forall|i: int| 0 <= i < leading_ws(s) ==> is_unicode_ws(#[trigger] s[i]),
        leading_ws(s) < s.len() ==> !is_unicode_ws(s[leading_ws(s) as int]),
    decreases s.len(),
{
    if s.len() > 0 && is_unicode_ws(s[0]) {
        lemma_leading_ws_bound(s.drop_first());
        assert forall|i: int| 0 <= i < leading_ws(s) implies is_unicode_ws(#[trigger] s[i]) by {
            if i > 0 {
                assert(s[i] == s.drop_first()[i - 1]);
            }
        }
    }
}

pub proof fn lemma_trailing_ws_bound(s: Seq<char>)
    ensures
        trailing_ws(s) <= s.len(),
        forall|i: int|
            s.len() - trailing_ws(s) <= i < s.len() ==> is_unicode_ws(#[trigger] s[i]),
        trailing_ws(s) < s.len() ==> !is_unicode_ws(s[s.len() - trailing_ws(s) - 1]),
    decreases s.len(),
{
    if s.len() > 0 && is_unicode_ws(s.last()) {
        lemma_trailing_ws_bound(s.drop_last());
        assert forall|i: int|
            s.len() - trailing_ws(s) <= i < s.len() implies is_unicode_ws(#[trigger] s[i]) by {
            if i < s.len() - 1 {
                assert(s[i] == s.drop_last()[i]);
            }
        }
    }
}

/// A sequence whose first character is not whitespace has no leading whitespace.
pub proof fn lemma_leading_ws_zero(s: Seq<char>)
    requires
        s.len() == 0 || !is_unicode_ws(s[0]),
    ensures
        leading_ws(s) == 0,
        trim_start(s) == s,
{
    assert(s.skip(0) =~= s);
}

/// A sequence whose last character is not whitespace has no trailing whitespace.
pub proof fn lemma_trailing_ws_zero(s: Seq<char>)
    requires
        s.len() == 0 || !is_unicode_ws(s.last()),
    ensures
        trailing_ws(s) == 0,
        trim_end(s) == s,
{
    assert(s.take(s.len() as int) =~= s);
}

/// The start of the trimmed range of `v[lo..hi]`: the first index at or after
/// `lo` that is not whitespace (or `hi`).
pub fn skip_leading_ws(v: &Vec<char>, lo: usize, hi: usize) -> (r: usize)
    requires
        lo <= hi <= v.len(),
    ensures
        r == lo + leading_ws(v@.subrange(lo as int, hi as int)),
        lo <= r <= hi,
{
    let ghost s = v@.subrange(lo as int, hi as int);
    let mut i: usize = lo;
    proof {
        lemma_leading_ws_bound(s);
    }
    while i < hi && is_whitespace(v[i])
        invariant
            lo <= i <= hi <= v.len(),
            s == v@.subrange(lo as int, hi as int),
            leading_ws(s) <= s.len(),
            leading_ws(s) == (i - lo) + leading_ws(v@.subrange(i as int, hi as int)),
        decreases hi - i,
    {
        let ghost t = v@.subrange(i as int, hi as int);
        assert(t.drop_first() =~= v@.subrange(i + 1, hi as int));
        i = i + 1;
    }
    proof {
        let t = v@.subrange(i as int, hi as int);
        if i < hi {
            assert(t[0] == v@[i as int]);
        }
    }
    i
}

/// The end of the trimmed range of `v[lo..hi]`.
pub fn skip_trailing_ws(v: &Vec<char>, lo: usize, hi: usize) -> (r: usize)
    requires
        lo <= hi <= v.len(),
    ensures
        r == hi - trailing_ws(v@.subrange(lo as int, hi as int)),
        lo <= r <= hi,
{
    let ghost s = v@.subrange(lo as int, hi as int);
    let mut j: usize = hi;
    proof {
        lemma_trailing_ws_bound(s);
    }
    while j > lo && is_whitespace(v[j - 1])
        invariant
            lo <= j <= hi <= v.len(),
            s == v@.subrange(lo as int, hi as int),
            trailing_ws(s) == (hi - j) + trailing_ws(v@.subrange(lo as int, j as int)),
        decreases j - lo,
    {
        let ghost t = v@.subrange(lo as int, j as int);
        assert(t.drop_last() =~= v@.subrange(lo as int, j - 1));
        j = j - 1;
    }
    proof {
        let t = v@.subrange(lo as int, j as int);
        if j > lo {
            assert(t.last() == v@[j - 1]);
        }
        lemma_trailing_ws_bound(t);
    }
    j
}

// ---------------------------------------------------------------------------
// Radix digits
// ---------------------------------------------------------------------------

/// The value of `c` as a digit (any radix up to 36), or -1 if it is not an
/// ASCII alphanumeric.
pub open spec fn digit_of(c: char) -> int {
    if '0' <= c && c <= '9' {
        c as int - '0' as int
    } else if 'a' <= c && c <= 'z' {
        c as int - 'a' as int + 10
    } else if 'A' <= c && c <= 'Z' {
        c as int - 'A' as int + 10
    } else {
        -1
    }
}

/// Whether every character of `s` is a digit of `radix`.
pub open spec fn all_digits(s: Seq<char>, radix: nat) -> bool {
    forall|i: int| 0 <= i < s.len() ==> 0 <= #[trigger] digit_of(s[i]) < radix
}

/// The value of the digit string `s` in `radix` (most significant first).
pub open spec fn digits_value(s: Seq<char>, radix: nat) -> nat
    decreases s.len(),
{
    if s.len() == 0 {
        0
    } else {
        digits_value(s.drop_last(), radix) * radix + (digit_of(s.last()) as nat)
    }
}

/// The unsigned magnitude that `from_str_radix` reads from `s`: an optional `+`
/// sign followed by one or more digits of `radix`. `None` for anything else.
pub open spec fn unsigned_value(s: Seq<char>, radix: nat) -> Option<nat> {
    let body = if s.len() > 0 && s[0] == '+' {
        s.drop_first()
    } else {
        s
    };
    if body.len() > 0 && all_digits(body, radix) {
        Some(digits_value(body, radix))
    } else {
        None
    }
}

/// What `u64::from_str_radix(s, radix)` returns, as an `Option`.
pub open spec fn parse_u64_spec(s: Seq<char>, radix: nat) -> Option<u64> {
    match unsigned_value(s, radix) {
        Some(n) => if n <= u64::MAX {
            Some(n as u64)
        } else {
            None
        },
        None => None,
    }
}

/// What `i64::from_str(s)` returns, as an `Option`: an optional `+` or `-`
/// sign followed by one or more decimal digits, within the range of `i64`.
pub open spec fn parse_i64_spec(s: Seq<char>) -> Option<i64> {
    if s.len() > 0 && s[0] == '-' {
        let body = s.drop_first();
        if body.len() > 0 && all_digits(body, 10) && digits_value(body, 10) <= 0x8000_0000_0000_0000 {
            Some((0 - digits_value(body, 10)) as i64)
        } else {
            None
        }
    } else {
        match unsigned_value(s, 10) {
            Some(n) => if n <= i64::MAX {
                Some(n as i64)
            } else {
                None
            },
            None => None,
        }
    }
}

pub proof fn lemma_digits_value_prefix_le(s: Seq<char>, radix: nat, i: int)
    requires
        0 <= i <= s.len(),
        radix >= 1,
        all_digits(s, radix),
    ensures
        digits_value(s.take(i), radix) <= digits_value(s, radix),
    decreases s.len() - i,
{
    if i < s.len() {
        lemma_digits_value_prefix_le(s, radix, i + 1);
        assert(s.take(i + 1).drop_last() =~= s.take(i));
        let a: nat = digits_value(s.take(i), radix);
        assert(digits_value(s.take(i + 1), radix) == a * radix + (digit_of(s[i]) as nat));
        assert(a <= a * radix) by (nonlinear_arith)
            requires
                radix >= 1,
        ;
    } else {
        assert(s.take(i) =~= s);
    }
}

/// Parse `v[lo..hi]` as a non-empty digit string of `radix`, with overflow
/// reported as `None`.
fn digits_u64(v: &Vec<char>, lo: usize, hi: usize, radix: u64) -> (r: Option<u64>)
    requires
        lo <= hi <= v.len(),
        2 <= radix <= 36,
    ensures
        ({
            let s = v@.subrange(lo as int, hi as int);
            r == (if s.len() > 0 && all_digits(s, radix as nat) && digits_value(s, radix as nat)
                <= u64::MAX {
                Some(digits_value(s, radix as nat) as u64)
            } else {
                None
            })
        }),
{
    let ghost s = v@.subrange(lo as int, hi as int);
    if lo == hi {
        return None;
    }
    // First check that every character is a digit.
    let mut i: usize = lo;
    while i < hi
        invariant
            lo <= i <= hi <= v.len(),
            2 <= radix <= 36,
            s == v@.subrange(lo as int, hi as int),
            forall|k: int| lo <= k < i ==> 0 <= #[trigger] digit_of(v@[k]) < radix,
        decreases hi - i,
    {
        let d: i64 = digit_value(v[i]);
        if d < 0 || d >= radix as i64 {
            assert(s[i - lo] == v@[i as int]);
            return None;
        }
        i = i + 1;
    }
    assert(all_digits(s, radix as nat)) by {
        assert forall|k: int| 0 <= k < s.len() implies 0 <= #[trigger] digit_of(s[k]) < radix by {
            assert(s[k] == v@[lo + k]);
        }
    }
    // Then accumulate, detecting overflow.
    let mut acc: u64 = 0;
    let mut j: usize = lo;
    assert(s.take(0) =~= Seq::<char>::empty());
    while j < hi
        invariant
            lo <= j <= hi <= v.len(),
            2 <= radix <= 36,
            s == v@.subrange(lo as int, hi as int),
            all_digits(s, radix as nat),
            acc as nat == digits_value(s.take(j - lo), radix as nat),
        decreases hi - j,
    {
        let d: i64 = digit_value(v[j]);
        assert(s[j - lo] == v@[j as int]);
        assert(s.take(j - lo + 1).drop_last() =~= s.take(j - lo));
        let m = acc.checked_mul(radix);
        match m {
            None => {
                proof {
                    lemma_digits_value_prefix_le(s, radix as nat, j - lo + 1);
                    let a: nat = acc as nat;
                    assert(a * radix + (d as nat) >= a * radix);
                }
                return None;
            },
            Some(m) => {
                let t = m.checked_add(d as u64);
                match t {
                    None => {
                        proof {
                            lemma_digits_value_prefix_le(s, radix as nat, j - lo + 1);
                        }
                        return None;
                    },
                    Some(t) => {
                        acc = t;
                    },
                }
            },
        }
        j = j + 1;
    }
    assert(s.take(hi - lo) =~= s);
    Some(acc)
}

/// The digit value of `c` (any radix up to 36), or -1.
pub fn digit_value(c: char) -> (r: i64)
    ensures
        r == digit_of(c),
        -1 <= r < 36,
{
    if '0' <= c && c <= '9' {
        (c as u32 - '0' as u32) as i64
    } else if 'a' <= c && c <= 'z' {
        (c as u32 - 'a' as u32 + 10) as i64
    } else if 'A' <= c && c <= 'Z' {
        (c as u32 - 'A' as u32 + 10) as i64
    } else {
        -1
    }
}

/// `u64::from_str_radix` on the characters `v[lo..hi]`.
pub fn parse_u64_radix(v: &Vec<char>, lo: usize, hi: usize, radix: u64) -> (r: Option<u64>)
    requires
        lo <= hi <= v.len(),
        2 <= radix <= 36,
    ensures
        r == parse_u64_spec(v@.subrange(lo as int, hi as int), radix as nat),
{
    let ghost s = v@.subrange(lo as int, hi as int);
    let mut start: usize = lo;
    if lo < hi && v[lo] == '+' {
        start = lo + 1;
        assert(s.drop_first() =~= v@.subrange(start as int, hi as int));
    } else {
        assert(s =~= v@.subrange(start as int, hi as int));
    }
    digits_u64(v, start, hi, radix)
}

/// `i64::from_str` on the characters `v[lo..hi]`.
pub fn parse_i64(v: &Vec<char>, lo: usize, hi: usize) -> (r: Option<i64>)
    requires
        lo <= hi <= v.len(),
    ensures
        r == parse_i64_spec(v@.subrange(lo as int, hi as int)),
{
    let ghost s = v@.subrange(lo as int, hi as int);
    if lo < hi && v[lo] == '-' {
        assert(s.drop_first() =~= v@.subrange(lo + 1, hi as int));
        let m = digits_u64(v, lo + 1, hi, 10);
        match m {
            None => None,
            Some(n) => {
                if n <= 0x8000_0000_0000_0000u64 {
                    if n == 0x8000_0000_0000_0000u64 {
                        Some(i64::MIN)
                    } else {
                        Some(0 - (n as i64))
                    }
                } else {
                    None
                }
            },
        }
    } else {
        let m = parse_u64_radix(v, lo, hi, 10);
        match m {
            None => None,
            Some(n) => {
                if n <= i64::MAX as u64 {
                    Some(n as i64)
                } else {
                    None
                }
            },
        }
    }
}

// ---------------------------------------------------------------------------
// Rendering digits
// ---------------------------------------------------------------------------

/// The lowercase hexadecimal digit for `d < 16`.
pub open spec fn hex_char(d: nat) -> char {
    if d < 10 {
        (('0' as nat) + d) as char
    } else {
        (('a' as nat) + (d - 10)) as char
    }
}

/// The decimal digit for `d < 10`.
pub open spec fn dec_char(d: nat) -> char {
    (('0' as nat) + d) as char
}

/// The last `n` hexadecimal digits of `v`, zero-padded, most significant first.
pub open spec fn hex_digits(v: nat, n: nat) -> Seq<char>
    decreases n,
{
    if n == 0 {
        Seq::empty()
    } else {
        hex_digits(v / 16, (n - 1) as nat).push(hex_char(v % 16))
    }
}

/// The shortest decimal digits of `v` (`"0"` for zero), most significant first.
pub open spec fn dec_digits(v: nat) -> Seq<char>
    decreases v,
{
    if v < 10 {
        seq![dec_char(v)]
    } else {
        dec_digits(v / 10).push(dec_char(v % 10))
    }
}

/// The decimal text of an integer, as `Display` renders an `i64`.
pub open spec fn int_text(i: int) -> Seq<char> {
    if i < 0 {
        seq!['-'] + dec_digits((0 - i) as nat)
    } else {
        dec_digits(i as nat)
    }
}

pub proof fn lemma_hex_digits_len(v: nat, n: nat)
    ensures
        hex_digits(v, n).len() == n,
    decreases n,
{
    if n > 0 {
        lemma_hex_digits_len(v / 16, (n - 1) as nat);
    }
}

/// `b` raised to `e`.
pub open spec fn pow_nat(b: nat, e: nat) -> nat
    decreases e,
{
    if e == 0 {
        1
    } else {
        b * pow_nat(b, (e - 1) as nat)
    }
}

pub proof fn lemma_hex_digits_are_digits(v: nat, n: nat)
    ensures
        all_digits(hex_digits(v, n), 16),
        pow_nat(16, n) > 0,
        digits_value(hex_digits(v, n), 16) == v % pow_nat(16, n),
    decreases n,
{
    if n > 0 {
        lemma_hex_digits_are_digits(v / 16, (n - 1) as nat);
        let s = hex_digits(v, n);
        let p: nat = pow_nat(16, (n - 1) as nat);
        assert(s.drop_last() == hex_digits(v / 16, (n - 1) as nat));
        assert(digit_of(hex_char(v % 16)) == v % 16);
        assert forall|i: int| 0 <= i < s.len() implies 0 <= #[trigger] digit_of(s[i]) < 16 by {
            lemma_hex_digits_len(v, n);
            if i < s.len() - 1 {
                assert(s[i] == s.drop_last()[i]);
            }
        }
        vstd::arithmetic::div_mod::lemma_mod_breakdown(v as int, 16, p as int);
        assert(16 * p == p * 16) by (nonlinear_arith);
        assert(pow_nat(16, n) == 16 * p);
        assert(16 * p > 0) by (nonlinear_arith) requires p > 0;
    }
}

pub proof fn lemma_dec_digits(v: nat)
    ensures
        dec_digits(v).len() > 0,
        all_digits(dec_digits(v), 10),
        digits_value(dec_digits(v), 10) == v,
        dec_digits(v)[0] != '+' && dec_digits(v)[0] != '-',
    decreases v,
{
    if v < 10 {
        let s = dec_digits(v);
        assert(s.drop_last() =~= Seq::<char>::empty());
        assert(digit_of(dec_char(v)) == v);
        assert(digits_value(s, 10) == digits_value(s.drop_last(), 10) * 10 + (digit_of(s.last()) as nat));
        assert(digits_value(s.drop_last(), 10) == 0);
    } else {
        lemma_dec_digits(v / 10);
        assert(digit_of(dec_char(v % 10)) == v % 10);
        assert((v / 10) * 10 + v % 10 == v);
        let s = dec_digits(v);
        assert(s.drop_last() == dec_digits(v / 10));
        assert forall|i: int| 0 <= i < s.len() implies 0 <= #[trigger] digit_of(s[i]) < 10 by {
            if i < s.len() - 1 {
                assert(s[i] == s.drop_last()[i]);
            }
        }
        assert(s[0] == dec_digits(v / 10)[0]);
        assert(s.last() == dec_char(v % 10));
        assert(digits_value(s, 10) == digits_value(s.drop_last(), 10) * 10 + (digit_of(s.last()) as nat));
    } 
}

/// Integer text parses back to the integer.
pub proof fn lemma_int_text_roundtrip(i: i64)
    ensures
        parse_i64_spec(int_text(i as int)) == Some(i),
        int_text(i as int).len() > 0,
{
    if i < 0 {
        let d = dec_digits((0 - i) as nat);
        lemma_dec_digits((0 - i) as nat);
        let t = int_text(i as int);
        assert(t.drop_first() =~= d);
        assert(t[0] == '-');
    } else {
        lemma_dec_digits(i as nat);
    }
}

/// Render the decimal text of `i` into `out`.
pub fn push_int_text(out: &mut Vec<char>, i: i64)
    ensures
        final(out)@ == old(out)@ + int_text(i as int),
{
    let mag: u64 = if i < 0 {
        if i == i64::MIN {
            0x8000_0000_0000_0000u64
        } else {
            (0 - i) as u64
        }
    } else {
        i as u64
    };
    let ghost base = out@;
    if i < 0 {
        out.push('-');
    }
    push_dec_digits(out, mag as u128);
    proof {
        if i < 0 {
            assert((0 - (i as int)) as nat == mag as nat);
            assert(out@ =~= base + int_text(i as int));
        } else {
            assert(i as nat == mag as nat);
        }
    }
}

/// Render the shortest decimal digits of `m` into `out`.
pub fn push_dec_digits(out: &mut Vec<char>, m: u128)
    ensures
        final(out)@ == old(out)@ + dec_digits(m as nat),
{
    let mut digits: Vec<char> = Vec::new();
    // Collect digits least significant first.
    let mut x: u128 = m;
    while x >= 10
        invariant
            dec_digits(m as nat) =~= dec_digits(x as nat) + digits@.reverse(),
        decreases x,
    {
        let d: u64 = (x % 10) as u64;
        let c = char_of_digit(d);
        assert(dec_digits(x as nat) == dec_digits((x / 10) as nat).push(dec_char((x % 10) as nat)));
        let ghost old_digits = digits@;
        digits.push(c);
        assert(digits@.reverse() =~= seq![c] + old_digits.reverse());
        x = x / 10;
    }
    let c = char_of_digit(x as u64);
    let ghost old_digits = digits@;
    digits.push(c);
    assert(digits@.reverse() =~= seq![c] + old_digits.reverse());
    assert(dec_digits(x as nat) == seq![dec_char(x as nat)]);
    assert(dec_digits(m as nat) =~= digits@.reverse());
    let mut k: usize = digits.len();
    let ghost base = out@;
    while k > 0
        invariant
            k <= digits.len(),
            out@ =~= base + digits@.reverse().take(digits.len() - k),
        decreases k,
    {
        k = k - 1;
        out.push(digits[k]);
        assert(digits@.reverse().take(digits.len() - k) =~= digits@.reverse().take(digits.len() - k
            - 1).push(digits@[k as int]));
    }
    assert(digits@.reverse().take(digits.len() as int) =~= digits@.reverse());
}

/// The decimal character for `d < 10`.
fn char_of_digit(d: u64) -> (c: char)
    requires
        d < 10,
    ensures
        c == dec_char(d as nat),
{
    if d == 0 { '0' }
    else if d == 1 { '1' }
    else if d == 2 { '2' }
    else if d == 3 { '3' }
    else if d == 4 { '4' }
    else if d == 5 { '5' }
    else if d == 6 { '6' }
    else if d == 7 { '7' }
    else if d == 8 { '8' }
    else { '9' }
}

/// The lowercase hexadecimal character for `d < 16`.
pub fn hex_char_of(d: u64) -> (c: char)
    requires
        d < 16,
    ensures
        c == hex_char(d as nat),
{
    if d < 10 {
        char_of_digit(d)
    } else if d == 10 { 'a' }
    else if d == 11 { 'b' }
    else if d == 12 { 'c' }
    else if d == 13 { 'd' }
    else if d == 14 { 'e' }
    else { 'f' }
}

// ---------------------------------------------------------------------------
// Conversions between `str`/`String` and character vectors
// ---------------------------------------------------------------------------

/// Collects the characters of `s` (`str::chars` followed by `collect`).
#[verifier::external_body]
pub(crate) fn chars_of(s: &str) -> (v: Vec<char>)
    ensures
        v@ == s@,
{
    s.chars().collect()
}

/// Builds a `String` from characters (`FromIterator<char>` for `String`).
#[verifier::external_body]
pub(crate) fn string_of(v: &Vec<char>) -> (s: String)
    ensures
        s@ == v@,
{
    v.iter().collect()
}

/// Builds a `String` from the characters `v[lo..hi]`.
pub fn string_of_range(v: &Vec<char>, lo: usize, hi: usize) -> (s: String)
    requires
        lo <= hi <= v.len(),
    ensures
        s@ == v@.subrange(lo as int, hi as int),
{
    let mut w: Vec<char> = Vec::new();
    let mut i: usize = lo;
    while i < hi
        invariant
            lo <= i <= hi <= v.len(),
            w@ =~= v@.subrange(lo as int, i as int),
        decreases hi - i,
    {
        w.push(v[i]);
        i = i + 1;
    }
    string_of(&w)
}

/// Appends the characters of `s` to `out`.
pub fn push_str(out: &mut Vec<char>, s: &str)
    ensures
        final(out)@ == old(out)@ + s@,
{
    let v = chars_of(s);
    let mut i: usize = 0;
    let ghost base = out@;
    while i < v.len()
        invariant
            i <= v.len(),
            v@ == s@,
            out@ =~= base + v@.take(i as int),
        decreases v.len() - i,
    {
        out.push(v[i]);
        i = i + 1;
        assert(v@.take(i as int) =~= v@.take(i - 1).push(v@[i - 1]));
    }
    assert(v@.take(v.len() as int) =~= v@);
}

} // verus!
