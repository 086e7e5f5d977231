//! The EDN and JSON grammars this crate reads and writes, stated as
//! mathematical functions over character sequences: the renderings of a value,
//! the readers (position-threaded recursive descent), and which values render
//! to text that reads back unchanged.

use vstd::prelude::*;

use crate::history::op::VValue;
use crate::text::{dec_digits, int_text, is_ascii_ws, parse_i64_spec};

verus! {

// ---------------------------------------------------------------------------
// Reader results
// ---------------------------------------------------------------------------

/// The outcome of reading from a position: a result and the position after
/// it, a rejection with its message, or input on which the reader cannot
/// continue at all (the byte-level reader would slice inside a UTF-8
/// character).
pub enum PRes<T> {
    Done(T, int),
    Reject(Seq<char>),
    Stuck,
}

// ---------------------------------------------------------------------------
// Shared lexical classes
// ---------------------------------------------------------------------------

/// Characters that end an EDN keyword or atom.
pub open spec fn is_delim(c: char) -> bool {
    is_ascii_ws(c) || c == ',' || c == '{' || c == '}' || c == '[' || c == ']' || c == '(' || c
        == ')' || c == '"' || c == ';'
}

/// The ASCII-lowercase form of a character.
pub open spec fn lower(c: char) -> char {
    if 'A' <= c && c <= 'Z' {
        ((c as u32) + 32) as char
    } else {
        c
    }
}

/// The ASCII-lowercase form of a sequence.
pub open spec fn lower_seq(s: Seq<char>) -> Seq<char> {
    Seq::new(s.len(), |i: int| lower(s[i]))
}

pub open spec fn is_dec_digit(c: char) -> bool {
    '0' <= c && c <= '9'
}

pub open spec fn all_dec(s: Seq<char>) -> bool {
    forall|i: int| 0 <= i < s.len() ==> is_dec_digit(#[trigger] s[i])
}

/// The index of the first occurrence of `c` in `s`, or `s.len()`.
pub open spec fn find_char(s: Seq<char>, c: char) -> nat
    decreases s.len(),
{
    if s.len() == 0 {
        0
    } else if s[0] == c {
        0
    } else {
        1 + find_char(s.drop_first(), c)
    }
}

/// The sequence without one leading sign character.
pub open spec fn strip_sign(s: Seq<char>) -> Seq<char> {
    if s.len() > 0 && (s[0] == '+' || s[0] == '-') {
        s.drop_first()
    } else {
        s
    }
}

/// Text that `f64::from_str` reads as an infinity or a NaN: an optional
/// sign, then `inf`, `infinity` or `nan` in any ASCII case. Neither format
/// has such a literal, so both writers render these as `nil` (in JSON too,
/// where the text then no longer reads back).
pub open spec fn non_finite_text(t: Seq<char>) -> bool {
    let l = lower_seq(strip_sign(t));
    l == "inf"@ || l == "infinity"@ || l == "nan"@
}

/// Whether float text shows that it is a float: it holds a decimal point or
/// an exponent mark.
pub open spec fn shows_float(t: Seq<char>) -> bool {
    exists|i: int| 0 <= i < t.len() && (t[i] == '.' || t[i] == 'e' || t[i] == 'E')
}

/// How both writers render float text: `nil` for an infinity or NaN;
/// otherwise the text, with `.0` added when it has neither a decimal point
/// nor an exponent, so that it reads back as a float.
pub open spec fn float_text(t: Seq<char>) -> Seq<char> {
    if non_finite_text(t) {
        "nil"@
    } else if shows_float(t) {
        t
    } else {
        t + ".0"@
    }
}

/// `Digit+ | Digit+ '.' Digit* | Digit* '.' Digit+` (already lowercased).
pub open spec fn mantissa_ok(m: Seq<char>) -> bool {
    let d = find_char(m, '.') as int;
    if d == m.len() {
        m.len() > 0 && all_dec(m)
    } else {
        all_dec(m.take(d)) && all_dec(m.skip(d + 1)) && (d > 0 || m.len() > d + 1)
    }
}

/// `Number ::= Mantissa ('e' Sign? Digit+)?` (already lowercased).
pub open spec fn number_ok(l: Seq<char>) -> bool {
    let e = find_char(l, 'e') as int;
    mantissa_ok(l.take(e)) && (e == l.len() || ({
        let x = strip_sign(l.skip(e + 1));
        x.len() > 0 && all_dec(x)
    }))
}

/// The text `f64::from_str` accepts: an optional sign, then `inf`,
/// `infinity`, `nan` or a decimal number with an optional exponent, matched
/// without regard to ASCII case.
pub open spec fn is_float_text(t: Seq<char>) -> bool {
    let l = lower_seq(strip_sign(t));
    l == "inf"@ || l == "infinity"@ || l == "nan"@ || number_ok(l)
}

/// The text with every trailing `M` and `N` removed (EDN's big-number
/// suffixes).
pub open spec fn trim_mn(t: Seq<char>) -> Seq<char>
    decreases t.len(),
{
    if t.len() > 0 && (t.last() == 'M' || t.last() == 'N') {
        trim_mn(t.drop_last())
    } else {
        t
    }
}

// ---------------------------------------------------------------------------
// EDN reader
// ---------------------------------------------------------------------------

/// The position just past the first line feed at or after `p` (or the end).
pub open spec fn line_end(s: Seq<char>, p: int) -> int
    decreases s.len() - p,
{
    if p >= s.len() {
        p
    } else if s[p] == '\n' {
        p + 1
    } else {
        line_end(s, p + 1)
    }
}

/// Skip EDN whitespace: ASCII whitespace, commas, and `;` comments.
pub open spec fn edn_skip(s: Seq<char>, p: int) -> int
    decreases s.len() - p,
{
    if p < 0 || p >= s.len() {
        p
    } else if is_ascii_ws(s[p]) || s[p] == ',' {
        edn_skip(s, p + 1)
    } else if s[p] == ';' {
        let q = line_end(s, p + 1);
        if p < q <= s.len() {
            edn_skip(s, q)
        } else {
            q
        }
    } else {
        p
    }
}

/// The first position at or after `p` holding a delimiter (or the end).
pub open spec fn token_end(s: Seq<char>, p: int) -> int
    decreases s.len() - p,
{
    if p < 0 || p >= s.len() {
        p
    } else if is_delim(s[p]) {
        p
    } else {
        token_end(s, p + 1)
    }
}

/// The character a backslash escape `\e` stands for in a quoted string, for
/// an ASCII `e`; `None` for a non-ASCII `e`.
pub open spec fn edn_unescape(e: char) -> Option<char> {
    if e == 'n' {
        Some('\n')
    } else if e == 'r' {
        Some('\r')
    } else if e == 't' {
        Some('\t')
    } else if (e as u32) < 128 {
        Some(e)
    } else {
        None
    }
}

/// Read the body of a quoted EDN string from `p` (just after the opening
/// quote), accumulating into `acc`.
pub open spec fn edn_string(s: Seq<char>, p: int, acc: Seq<char>) -> PRes<Seq<char>>
    decreases s.len() - p,
{
    if p < 0 || p >= s.len() {
        PRes::Reject("unterminated string"@)
    } else if s[p] == '"' {
        PRes::Done(acc, p + 1)
    } else if s[p] == '\\' {
        if p + 1 >= s.len() {
            PRes::Reject("trailing escape"@)
        } else {
            match edn_unescape(s[p + 1]) {
                Some(c) => edn_string(s, p + 2, acc.push(c)),
                None => PRes::Stuck,
            }
        }
    } else {
        edn_string(s, p + 1, acc.push(s[p]))
    }
}

/// The message that names a refused token: `msg`, then the token in
/// backquotes.
pub open spec fn token_error(msg: Seq<char>, tok: Seq<char>) -> Seq<char> {
    msg + seq!['`'] + tok + seq!['`']
}

/// Read an EDN keyword whose name starts at `p` (just after the colon).
pub open spec fn edn_keyword(s: Seq<char>, p: int) -> PRes<VValue> {
    let q = token_end(s, p);
    if q == p {
        PRes::Reject("empty keyword"@)
    } else {
        PRes::Done(VValue::Keyword(s.subrange(p, q)), q)
    }
}

/// What an atom token stands for: `nil`, a boolean, an integer, or a float
/// (after dropping `M`/`N` suffixes).
pub open spec fn atom_value(tok: Seq<char>) -> Option<VValue> {
    if tok == "nil"@ {
        Some(VValue::Nil)
    } else if tok == "true"@ {
        Some(VValue::Bool(true))
    } else if tok == "false"@ {
        Some(VValue::Bool(false))
    } else {
        match parse_i64_spec(tok) {
            Some(i) => Some(VValue::Int(i)),
            None => if is_float_text(trim_mn(tok)) {
                Some(VValue::Float(trim_mn(tok)))
            } else {
                None
            },
        }
    }
}

/// Read an atom token starting at `p`.
pub open spec fn edn_atom(s: Seq<char>, p: int) -> PRes<VValue> {
    let q = token_end(s, p);
    match atom_value(s.subrange(p, q)) {
        Some(v) => PRes::Done(v, q),
        None => PRes::Reject(token_error("unrecognized token "@, s.subrange(p, q))),
    }
}

/// Read one EDN value starting at (or after whitespace from) `p`.
pub open spec fn edn_value(s: Seq<char>, p: int) -> PRes<VValue>
    decreases s.len() - p, 0int,
{
    let q = edn_skip(s, p);
    if !(0 <= p <= q < s.len()) {
        PRes::Reject("unexpected end of input"@)
    } else if s[q] == '{' {
        edn_map(s, q + 1, Seq::empty())
    } else if s[q] == '[' {
        edn_seq(s, q + 1, ']', Seq::empty())
    } else if s[q] == '(' {
        edn_seq(s, q + 1, ')', Seq::empty())
    } else if s[q] == '"' {
        match edn_string(s, q + 1, Seq::empty()) {
            PRes::Done(t, r) => PRes::Done(VValue::Str(t), r),
            PRes::Reject(m) => PRes::Reject(m),
            PRes::Stuck => PRes::Stuck,
        }
    } else if s[q] == ':' {
        edn_keyword(s, q + 1)
    } else {
        edn_atom(s, q)
    }
}

/// Read the entries of an EDN map from `p` (after the `{`).
pub open spec fn edn_map(s: Seq<char>, p: int, acc: Seq<(VValue, VValue)>) -> PRes<VValue>
    decreases s.len() - p, 1int,
{
    let q = edn_skip(s, p);
    if !(0 <= p <= q <= s.len()) {
        PRes::Reject(Seq::empty())
    } else if q == s.len() {
        PRes::Reject("unterminated map"@)
    } else if s[q] == '}' {
        PRes::Done(VValue::Mapping(acc), q + 1)
    } else {
        match edn_value(s, q) {
            PRes::Done(k, r) => if p < r <= s.len() {
                match edn_value(s, r) {
                    PRes::Done(v, t) => if r < t <= s.len() {
                        edn_map(s, t, acc.push((k, v)))
                    } else {
                        PRes::Reject(Seq::empty())
                    },
                    PRes::Reject(m) => PRes::Reject(m),
                    PRes::Stuck => PRes::Stuck,
                }
            } else {
                PRes::Reject(Seq::empty())
            },
            PRes::Reject(m) => PRes::Reject(m),
            PRes::Stuck => PRes::Stuck,
        }
    }
}

/// Read the items of an EDN vector or list from `p` (after the opener) up to
/// the matching `close`.
pub open spec fn edn_seq(s: Seq<char>, p: int, close: char, acc: Seq<VValue>) -> PRes<VValue>
    decreases s.len() - p, 1int,
{
    let q = edn_skip(s, p);
    if !(0 <= p <= q <= s.len()) {
        PRes::Reject(Seq::empty())
    } else if q == s.len() {
        PRes::Reject("unterminated list/vector"@)
    } else if s[q] == close {
        PRes::Done(VValue::List(acc), q + 1)
    } else {
        match edn_value(s, q) {
            PRes::Done(v, r) => if p < r <= s.len() {
                edn_seq(s, r, close, acc.push(v))
            } else {
                PRes::Reject(Seq::empty())
            },
            PRes::Reject(m) => PRes::Reject(m),
            PRes::Stuck => PRes::Stuck,
        }
    }
}

/// Read a whole EDN text: one value, then only whitespace.
pub open spec fn edn_parse(s: Seq<char>) -> PRes<VValue> {
    match edn_value(s, 0) {
        PRes::Done(v, r) => if edn_skip(s, r) == s.len() {
            PRes::Done(v, s.len() as int)
        } else {
            PRes::Reject("trailing input at byte "@ + dec_digits(utf8_bytes(s.take(edn_skip(s, r)))) + " "@)
        },
        PRes::Reject(m) => PRes::Reject(m),
        PRes::Stuck => PRes::Stuck,
    }
}

// ---------------------------------------------------------------------------
// Writers
// ---------------------------------------------------------------------------

/// The escape sequence written for one string character.
pub open spec fn escape_char(c: char) -> Seq<char> {
    if c == '"' {
        seq!['\\', '"']
    } else if c == '\\' {
        seq!['\\', '\\']
    } else if c == '\n' {
        seq!['\\', 'n']
    } else if c == '\r' {
        seq!['\\', 'r']
    } else if c == '\t' {
        seq!['\\', 't']
    } else {
        seq![c]
    }
}

/// The escaped body of a string.
pub open spec fn escape(s: Seq<char>) -> Seq<char>
    decreases s.len(),
{
    if s.len() == 0 {
        Seq::empty()
    } else {
        escape(s.drop_last()) + escape_char(s.last())
    }
}

/// A string in double quotes, escaped.
pub open spec fn quoted(s: Seq<char>) -> Seq<char> {
    seq!['"'] + escape(s) + seq!['"']
}

/// The EDN rendering of a value.
pub open spec fn edn_text(v: VValue) -> Seq<char>
    decreases v,
{
    match v {
        VValue::Nil => "nil"@,
        VValue::Bool(b) => if b {
            "true"@
        } else {
            "false"@
        },
        VValue::Int(i) => int_text(i as int),
        VValue::Float(t) => float_text(t),
        VValue::Str(t) => quoted(t),
        VValue::Keyword(k) => seq![':'] + k,
        VValue::List(items) => seq!['['] + edn_items(items) + seq![']'],
        VValue::Mapping(pairs) => seq!['{'] + edn_pairs(pairs) + seq!['}'],
    }
}

/// List items in EDN, separated by single spaces.
pub open spec fn edn_items(items: Seq<VValue>) -> Seq<char>
    decreases items,
{
    if items.len() == 0 {
        Seq::empty()
    } else if items.len() == 1 {
        edn_text(items[0])
    } else {
        edn_items(items.drop_last()) + seq![' '] + edn_text(items.last())
    }
}

/// Map entries in EDN: `key value`, separated by `, `.
pub open spec fn edn_pairs(pairs: Seq<(VValue, VValue)>) -> Seq<char>
    decreases pairs,
{
    if pairs.len() == 0 {
        Seq::empty()
    } else if pairs.len() == 1 {
        edn_text(pairs[0].0) + seq![' '] + edn_text(pairs[0].1)
    } else {
        edn_pairs(pairs.drop_last()) + seq![',', ' '] + edn_text(pairs.last().0) + seq![' ']
            + edn_text(pairs.last().1)
    }
}

// ---------------------------------------------------------------------------
// Values that read back as themselves
// ---------------------------------------------------------------------------

/// Text that reads back, as an EDN atom, to the float it spells: a non-empty
/// run of non-delimiters, not starting like a keyword, not `nil`/`true`/
/// `false`, not an integer, without `M`/`N` suffixes, accepted by
/// `f64::from_str`, not an infinity or NaN literal, and showing a decimal
/// point or an exponent.
pub open spec fn edn_float_ok(t: Seq<char>) -> bool {
    &&& t.len() > 0
    &&& forall|i: int| 0 <= i < t.len() ==> !is_delim(#[trigger] t[i])
    &&& t[0] != ':'
    &&& t != "nil"@ && t != "true"@ && t != "false"@
    &&& parse_i64_spec(t) is None
    &&& trim_mn(t) == t
    &&& is_float_text(t)
    &&& !non_finite_text(t)
    &&& shows_float(t)
}

/// A keyword name that reads back: non-empty, without delimiters.
pub open spec fn edn_keyword_ok(k: Seq<char>) -> bool {
    k.len() > 0 && forall|i: int| 0 <= i < k.len() ==> !is_delim(#[trigger] k[i])
}

/// Values whose EDN rendering reads back unchanged.
pub open spec fn edn_wf(v: VValue) -> bool
    decreases v,
{
    match v {
        VValue::Float(t) => edn_float_ok(t),
        VValue::Keyword(k) => edn_keyword_ok(k),
        VValue::List(items) => edn_items_wf(items),
        VValue::Mapping(pairs) => edn_pairs_wf(pairs),
        _ => true,
    }
}

pub open spec fn edn_items_wf(items: Seq<VValue>) -> bool
    decreases items,
{
    if items.len() == 0 {
        true
    } else {
        edn_items_wf(items.drop_last()) && edn_wf(items.last())
    }
}

pub open spec fn edn_pairs_wf(pairs: Seq<(VValue, VValue)>) -> bool
    decreases pairs,
{
    if pairs.len() == 0 {
        true
    } else {
        edn_pairs_wf(pairs.drop_last()) && edn_wf(pairs.last().0) && edn_wf(pairs.last().1)
    }
}

// ---------------------------------------------------------------------------
// JSON writer
// ---------------------------------------------------------------------------

/// The JSON rendering of a value: keywords as `":name"` strings, map keys as
/// strings.
pub open spec fn json_text(v: VValue) -> Seq<char>
    decreases v,
{
    match v {
        VValue::Nil => "null"@,
        VValue::Bool(b) => if b {
            "true"@
        } else {
            "false"@
        },
        VValue::Int(i) => int_text(i as int),
        VValue::Float(t) => float_text(t),
        VValue::Str(t) => quoted(t),
        VValue::Keyword(k) => seq!['"', ':'] + escape(k) + seq!['"'],
        VValue::List(items) => seq!['['] + json_items(items) + seq![']'],
        VValue::Mapping(pairs) => seq!['{'] + json_pairs(pairs) + seq!['}'],
    }
}

/// A JSON object key.
pub open spec fn json_key(k: VValue) -> Seq<char> {
    match k {
        VValue::Str(s) => quoted(s),
        VValue::Keyword(kw) => seq!['"', ':'] + escape(kw) + seq!['"'],
        VValue::Int(i) => seq!['"'] + int_text(i as int) + seq!['"'],
        _ => quoted(edn_text(k)),
    }
}

/// Array items in JSON, separated by commas.
pub open spec fn json_items(items: Seq<VValue>) -> Seq<char>
    decreases items,
{
    if items.len() == 0 {
        Seq::empty()
    } else if items.len() == 1 {
        json_text(items[0])
    } else {
        json_items(items.drop_last()) + seq![','] + json_text(items.last())
    }
}

/// Object members in JSON: `key:value`, separated by commas.
pub open spec fn json_pairs(pairs: Seq<(VValue, VValue)>) -> Seq<char>
    decreases pairs,
{
    if pairs.len() == 0 {
        Seq::empty()
    } else if pairs.len() == 1 {
        json_key(pairs[0].0) + seq![':'] + json_text(pairs[0].1)
    } else {
        json_pairs(pairs.drop_last()) + seq![','] + json_key(pairs.last().0) + seq![':']
            + json_text(pairs.last().1)
    }
}

// ---------------------------------------------------------------------------
// JSON reader
// ---------------------------------------------------------------------------

/// Skip JSON whitespace (ASCII whitespace only).
pub open spec fn json_skip(s: Seq<char>, p: int) -> int
    decreases s.len() - p,
{
    if p < 0 || p >= s.len() {
        p
    } else if is_ascii_ws(s[p]) {
        json_skip(s, p + 1)
    } else {
        p
    }
}

/// The number of bytes UTF-8 uses for `c`.
pub open spec fn utf8_len(c: char) -> nat {
    let x = c as u32;
    if x < 0x80 {
        1
    } else if x < 0x800 {
        2
    } else if x < 0x10000 {
        3
    } else {
        4
    }
}

/// The number of UTF-8 bytes of `s`.
pub open spec fn utf8_bytes(s: Seq<char>) -> nat
    decreases s.len(),
{
    if s.len() == 0 {
        0
    } else {
        utf8_len(s[0]) + utf8_bytes(s.drop_first())
    }
}

/// The number of leading characters of `s` spanning exactly `n` UTF-8 bytes,
/// if a character boundary falls there.
pub open spec fn chars_spanning(s: Seq<char>, n: int) -> Option<nat>
    decreases s.len(),
{
    if n == 0 {
        Some(0)
    } else if n < 0 || s.len() == 0 {
        None
    } else {
        match chars_spanning(s.drop_first(), n - utf8_len(s[0])) {
            Some(k) => Some(k + 1),
            None => None,
        }
    }
}

/// A `\u` escape's four hex digits as `u32::from_str_radix(_, 16)` reads them:
/// an optional `+` then hex digits.
pub open spec fn hex_code(w: Seq<char>) -> Option<u64> {
    crate::text::parse_u64_spec(w, 16)
}

/// Whether a code point is a valid `char` (not a surrogate, in range).
pub open spec fn is_scalar(x: u64) -> bool {
    x < 0xD800 || (0xE000 <= x && x <= 0x10FFFF)
}

/// The character a JSON escape `\e` (for an ASCII `e` other than `u`) stands
/// for.
pub open spec fn json_unescape(e: char) -> Option<char> {
    if e == '/' {
        Some('/')
    } else {
        edn_unescape(e)
    }
}

/// The message of a `\\u` escape whose four bytes `rest` starts with do not
/// give a character: too few bytes, not hex digits, or not a code point.
pub open spec fn unicode_error(rest: Seq<char>) -> Seq<char> {
    if utf8_bytes(rest) < 4 {
        "truncated \\u escape"@
    } else {
        match chars_spanning(rest, 4) {
            None => Seq::empty(),
            Some(k) => match hex_code(rest.take(k as int)) {
                None => "invalid \\u escape"@,
                Some(x) => if x > 0xFFFF_FFFF {
                    "invalid \\u escape"@
                } else {
                    "invalid code point"@
                },
            },
        }
    }
}

/// Read the body of a JSON string from `p` (just after the opening quote).
pub open spec fn json_string(s: Seq<char>, p: int, acc: Seq<char>) -> PRes<Seq<char>>
    decreases s.len() - p,
{
    if p < 0 || p >= s.len() {
        PRes::Reject("unterminated JSON string"@)
    } else if s[p] == '"' {
        PRes::Done(acc, p + 1)
    } else if s[p] == '\\' {
        if p + 1 >= s.len() {
            PRes::Reject("trailing JSON escape"@)
        } else if s[p + 1] == 'u' {
            let rest = s.subrange(p + 2, s.len() as int);
            if utf8_bytes(rest) < 4 {
                PRes::Reject("truncated \\u escape"@)
            } else {
                match chars_spanning(rest, 4) {
                    None => PRes::Stuck,
                    Some(k) => match hex_code(rest.take(k as int)) {
                        Some(x) => if is_scalar(x) && p + 2 + k <= s.len() {
                            json_string(s, p + 2 + k, acc.push(x as char))
                        } else {
                            PRes::Reject(unicode_error(rest))
                        },
                        None => PRes::Reject(unicode_error(rest)),
                    },
                }
            }
        } else {
            match json_unescape(s[p + 1]) {
                Some(c) => json_string(s, p + 2, acc.push(c)),
                None => PRes::Stuck,
            }
        }
    } else {
        json_string(s, p + 1, acc.push(s[p]))
    }
}

/// A JSON string's value: a keyword if it starts with `:`, else a string.
pub open spec fn str_value(t: Seq<char>) -> VValue {
    if t.len() > 0 && t[0] == ':' {
        VValue::Keyword(t.drop_first())
    } else {
        VValue::Str(t)
    }
}

/// Characters that can appear in a JSON number token.
pub open spec fn is_num_char(c: char) -> bool {
    is_dec_digit(c) || c == '-' || c == '+' || c == '.' || c == 'e' || c == 'E'
}

/// The end of the number token starting at `p`.
pub open spec fn num_end(s: Seq<char>, p: int) -> int
    decreases s.len() - p,
{
    if p < 0 || p >= s.len() {
        p
    } else if is_num_char(s[p]) {
        num_end(s, p + 1)
    } else {
        p
    }
}

/// Whether `s` holds `lit` at `p`.
pub open spec fn has_at(s: Seq<char>, p: int, lit: Seq<char>) -> bool {
    0 <= p && p + lit.len() <= s.len() && s.subrange(p, p + lit.len()) == lit
}

/// Read `true`, `false` or `null` at `p`.
pub open spec fn json_literal(s: Seq<char>, p: int) -> PRes<VValue> {
    if has_at(s, p, "true"@) {
        PRes::Done(VValue::Bool(true), p + 4)
    } else if has_at(s, p, "false"@) {
        PRes::Done(VValue::Bool(false), p + 5)
    } else if has_at(s, p, "null"@) {
        PRes::Done(VValue::Nil, p + 4)
    } else {
        PRes::Reject("invalid JSON literal"@)
    }
}

/// Read a JSON number at `p`.
pub open spec fn json_number(s: Seq<char>, p: int) -> PRes<VValue> {
    let q = num_end(s, p);
    let tok = s.subrange(p, q);
    match parse_i64_spec(tok) {
        Some(i) => PRes::Done(VValue::Int(i), q),
        None => if is_float_text(tok) {
            PRes::Done(VValue::Float(tok), q)
        } else {
            PRes::Reject(token_error("invalid JSON number "@, tok))
        },
    }
}

/// Read one JSON value at (or after whitespace from) `p`.
pub open spec fn json_value(s: Seq<char>, p: int) -> PRes<VValue>
    decreases s.len() - p, 0int,
{
    let q = json_skip(s, p);
    if !(0 <= p <= q < s.len()) {
        PRes::Reject("unexpected end of JSON"@)
    } else if s[q] == '{' {
        json_object(s, q + 1, Seq::empty())
    } else if s[q] == '[' {
        json_array(s, q + 1, Seq::empty())
    } else if s[q] == '"' {
        match json_string(s, q + 1, Seq::empty()) {
            PRes::Done(t, r) => PRes::Done(str_value(t), r),
            PRes::Reject(m) => PRes::Reject(m),
            PRes::Stuck => PRes::Stuck,
        }
    } else if s[q] == 't' || s[q] == 'f' || s[q] == 'n' {
        json_literal(s, q)
    } else {
        json_number(s, q)
    }
}

/// Read the members of a JSON object from `p` (after the `{`). Commas are
/// skipped wherever they stand.
pub open spec fn json_object(s: Seq<char>, p: int, acc: Seq<(VValue, VValue)>) -> PRes<VValue>
    decreases s.len() - p, 1int,
{
    let q = json_skip(s, p);
    if !(0 <= p <= q < s.len()) {
        PRes::Reject("malformed JSON object"@)
    } else if s[q] == '}' {
        PRes::Done(VValue::Mapping(acc), q + 1)
    } else if s[q] == ',' {
        json_object(s, q + 1, acc)
    } else if s[q] == '"' {
        match json_string(s, q + 1, Seq::empty()) {
            PRes::Done(t, r) => {
                let c = json_skip(s, r);
                if q < r && r <= c && c < s.len() && s[c] == ':' {
                    match json_value(s, c + 1) {
                        PRes::Done(v, e) => if c < e <= s.len() {
                            json_object(s, e, acc.push((str_value(t), v)))
                        } else {
                            PRes::Reject(Seq::empty())
                        },
                        PRes::Reject(m) => PRes::Reject(m),
                        PRes::Stuck => PRes::Stuck,
                    }
                } else {
                    PRes::Reject("expected `:` after JSON key"@)
                }
            },
            PRes::Reject(m) => PRes::Reject(m),
            PRes::Stuck => PRes::Stuck,
        }
    } else {
        PRes::Reject("malformed JSON object"@)
    }
}

/// Read the items of a JSON array from `p` (after the `[`). Commas are
/// skipped wherever they stand.
pub open spec fn json_array(s: Seq<char>, p: int, acc: Seq<VValue>) -> PRes<VValue>
    decreases s.len() - p, 1int,
{
    let q = json_skip(s, p);
    if !(0 <= p <= q < s.len()) {
        PRes::Reject("unterminated JSON array"@)
    } else if s[q] == ']' {
        PRes::Done(VValue::List(acc), q + 1)
    } else if s[q] == ',' {
        json_array(s, q + 1, acc)
    } else {
        match json_value(s, q) {
            PRes::Done(v, r) => if p < r <= s.len() {
                json_array(s, r, acc.push(v))
            } else {
                PRes::Reject(Seq::empty())
            },
            PRes::Reject(m) => PRes::Reject(m),
            PRes::Stuck => PRes::Stuck,
        }
    }
}

/// Read a whole JSON text: one value, then only whitespace.
pub open spec fn json_parse(s: Seq<char>) -> PRes<VValue> {
    match json_value(s, 0) {
        PRes::Done(v, r) => if json_skip(s, r) == s.len() {
            PRes::Done(v, s.len() as int)
        } else {
            PRes::Reject("trailing JSON input at byte "@ + dec_digits(utf8_bytes(s.take(json_skip(s, r)))))
        },
        PRes::Reject(m) => PRes::Reject(m),
        PRes::Stuck => PRes::Stuck,
    }
}

// ---------------------------------------------------------------------------
// JSON values that read back as themselves
// ---------------------------------------------------------------------------

/// Float text that reads back as that float from JSON: a non-empty run of
/// number characters that is not an integer, that `f64::from_str` accepts,
/// that is not an infinity or NaN literal, and that shows a decimal point or
/// an exponent.
pub open spec fn json_float_ok(t: Seq<char>) -> bool {
    &&& t.len() > 0
    &&& forall|i: int| 0 <= i < t.len() ==> is_num_char(#[trigger] t[i])
    &&& parse_i64_spec(t) is None
    &&& is_float_text(t)
    &&& !non_finite_text(t)
    &&& shows_float(t)
}

/// A string that JSON does not mistake for a keyword: it does not start
/// with `:`.
pub open spec fn json_str_ok(t: Seq<char>) -> bool {
    t.len() == 0 || t[0] != ':'
}

/// Map keys that JSON renders and reads back: non-keyword-like strings and
/// keywords.
pub open spec fn json_key_ok(k: VValue) -> bool {
    match k {
        VValue::Str(t) => json_str_ok(t),
        VValue::Keyword(_) => true,
        _ => false,
    }
}

/// Values whose JSON rendering reads back unchanged.
pub open spec fn json_wf(v: VValue) -> bool
    decreases v,
{
    match v {
        VValue::Float(t) => json_float_ok(t),
        VValue::Str(t) => json_str_ok(t),
        VValue::List(items) => json_items_wf(items),
        VValue::Mapping(pairs) => json_pairs_wf(pairs),
        _ => true,
    }
}

pub open spec fn json_items_wf(items: Seq<VValue>) -> bool
    decreases items,
{
    if items.len() == 0 {
        true
    } else {
        json_items_wf(items.drop_last()) && json_wf(items.last())
    }
}

pub open spec fn json_pairs_wf(pairs: Seq<(VValue, VValue)>) -> bool
    decreases pairs,
{
    if pairs.len() == 0 {
        true
    } else {
        json_pairs_wf(pairs.drop_last()) && json_key_ok(pairs.last().0) && json_wf(pairs.last().1)
    }
}

} // verus!
