//! The JSON reader. Keywords are recovered from strings of the form
//! `":name"` (how the writer emits them), so a JSON history reads back to the
//! same keyword-bearing values.

use vstd::prelude::*;

use crate::history::edn::{error_at, error_of, error_token, reads_ok};
use crate::history::edn_spec::{
    chars_spanning, has_at, hex_code, is_num_char, is_scalar, json_array, json_literal,
    json_number, json_object, json_parse, json_skip, json_string, json_unescape, json_value,
    num_end, str_value, utf8_bytes, utf8_len, PRes, unicode_error,
};
use crate::history::lex::is_float_text_in;
use crate::history::op::{pairs_view, value_view, values_view, VValue, Value};
use crate::history::ParseError;
use crate::text::{chars_of, is_ascii_whitespace, parse_i64, parse_u64_radix, string_of,
    string_of_range};

verus! {

/// `char::from_u32`: the character with code point `x`, when `x` is a
/// Unicode scalar value (not a surrogate, at most `0x10FFFF`).
#[verifier::external_body]
fn char_from_code(x: u32) -> (r: Option<char>)
    ensures
        r is Some <==> is_scalar(x as u64),
        r is Some ==> r->0 == x as char,
{
    char::from_u32(x)
}

pub proof fn lemma_utf8_bytes_concat(a: Seq<char>, b: Seq<char>)
    ensures
        utf8_bytes(a + b) == utf8_bytes(a) + utf8_bytes(b),
    decreases a.len(),
{
    if a.len() > 0 {
        lemma_utf8_bytes_concat(a.drop_first(), b);
        assert((a + b).drop_first() =~= a.drop_first() + b);
        assert((a + b)[0] == a[0]);
    } else {
        assert(a + b =~= b);
    }
}

pub proof fn lemma_utf8_bytes_single(c: char)
    ensures
        utf8_bytes(seq![c]) == utf8_len(c),
        utf8_len(c) >= 1,
{
    assert(seq![c].drop_first() =~= Seq::<char>::empty());
    assert(utf8_bytes(Seq::<char>::empty()) == 0);
}

pub proof fn lemma_utf8_bytes_step(s: Seq<char>, i: int)
    requires
        0 <= i < s.len(),
    ensures
        utf8_bytes(s.take(i + 1)) == utf8_bytes(s.take(i)) + utf8_len(s[i]),
        utf8_bytes(s) >= utf8_bytes(s.take(i + 1)),
{
    assert(s.take(i + 1) =~= s.take(i) + seq![s[i]]);
    lemma_utf8_bytes_concat(s.take(i), seq![s[i]]);
    lemma_utf8_bytes_single(s[i]);
    assert(s =~= s.take(i + 1) + s.skip(i + 1));
    lemma_utf8_bytes_concat(s.take(i + 1), s.skip(i + 1));
}

/// A prefix whose bytes sum to `n` is what `chars_spanning` finds.
pub proof fn lemma_spanning_some(s: Seq<char>, i: int)
    requires
        0 <= i <= s.len(),
    ensures
        chars_spanning(s, utf8_bytes(s.take(i)) as int) == Some(i as nat),
    decreases i,
{
    if i == 0 {
        assert(s.take(0) =~= Seq::<char>::empty());
    } else {
        let d = s.drop_first();
        lemma_spanning_some(d, i - 1);
        assert(s.take(i) =~= seq![s[0]] + d.take(i - 1));
        lemma_utf8_bytes_concat(seq![s[0]], d.take(i - 1));
        lemma_utf8_bytes_single(s[0]);
        let n = utf8_bytes(s.take(i)) as int;
        assert(n == utf8_len(s[0]) + utf8_bytes(d.take(i - 1)));
        assert(n > 0);
        assert(chars_spanning(s, n) == (match chars_spanning(d, n - utf8_len(s[0])) {
            Some(k) => Some(k + 1),
            None => None,
        }));
    }
}

/// A byte count falling strictly inside the `i`-th character is no boundary.
pub proof fn lemma_spanning_none(s: Seq<char>, n: int, i: int)
    requires
        0 < i <= s.len(),
        utf8_bytes(s.take(i - 1)) < n < utf8_bytes(s.take(i)),
    ensures
        chars_spanning(s, n) is None,
    decreases i,
{
    let d = s.drop_first();
    assert(s.take(i) =~= seq![s[0]] + d.take(i - 1));
    lemma_utf8_bytes_concat(seq![s[0]], d.take(i - 1));
    lemma_utf8_bytes_single(s[0]);
    if i > 1 {
        assert(s.take(i - 1) =~= seq![s[0]] + d.take(i - 2));
        lemma_utf8_bytes_concat(seq![s[0]], d.take(i - 2));
        lemma_spanning_none(d, n - utf8_len(s[0]), i - 1);
    } else {
        assert(s.take(0) =~= Seq::<char>::empty());
        assert(d.take(0) =~= Seq::<char>::empty());
    }
}

/// Where the four bytes of a `\u` escape end.
pub enum Window {
    /// Fewer than four bytes remain.
    Short,
    /// The fourth byte ends inside a character.
    Split,
    /// The four bytes are exactly this many characters.
    Chars(usize),
}

/// The number of UTF-8 bytes of `c`.
fn utf8_len_of(c: char) -> (n: u64)
    ensures
        n == utf8_len(c),
{
    let x: u32 = c as u32;
    if x < 0x80 {
        1
    } else if x < 0x800 {
        2
    } else if x < 0x10000 {
        3
    } else {
        4
    }
}

/// The UTF-8 byte offset of character position `pos` in `v`.
pub fn byte_offset(v: &Vec<char>, pos: usize) -> (r: u128)
    requires
        pos <= v.len(),
    ensures
        r == utf8_bytes(v@.take(pos as int)),
{
    let mut r: u128 = 0;
    let mut i: usize = 0;
    assert(v@.take(0) =~= Seq::<char>::empty());
    while i < pos
        invariant
            i <= pos <= v.len(),
            r == utf8_bytes(v@.take(i as int)),
            r <= 4 * i,
        decreases pos - i,
    {
        proof {
            lemma_utf8_bytes_step(v@, i as int);
        }
        r = r + utf8_len_of(v[i]) as u128;
        i = i + 1;
    }
    r
}

/// Find the end of the four-byte window starting at `start`.
fn window4(v: &Vec<char>, start: usize) -> (w: Window)
    requires
        start <= v.len(),
    ensures
        ({
            let rest = v@.subrange(start as int, v.len() as int);
            match w {
                Window::Short => utf8_bytes(rest) < 4,
                Window::Split => utf8_bytes(rest) >= 4 && chars_spanning(rest, 4) is None,
                Window::Chars(k) => utf8_bytes(rest) >= 4 && chars_spanning(rest, 4) == Some(
                    k as nat,
                ) && start + k <= v.len(),
            }
        }),
{
    let ghost rest = v@.subrange(start as int, v.len() as int);
    let mut i: usize = 0;
    let mut b: u64 = 0;
    assert(rest.take(0) =~= Seq::<char>::empty());
    while b < 4 && start + i < v.len()
        invariant
            start <= v.len(),
            rest == v@.subrange(start as int, v.len() as int),
            start + i <= v.len(),
            b == utf8_bytes(rest.take(i as int)),
            i > 0 ==> utf8_bytes(rest.take(i - 1)) < 4,
            b <= 7,
        decreases v.len() - start - i,
    {
        let c = v[start + i];
        assert(rest[i as int] == c);
        proof {
            lemma_utf8_bytes_step(rest, i as int);
        }
        b = b + utf8_len_of(c);
        i = i + 1;
    }
    if b < 4 {
        assert(rest.take(i as int) =~= rest);
        return Window::Short;
    }
    proof {
        if i < rest.len() {
            lemma_utf8_bytes_step(rest, i as int);
        } else {
            assert(rest.take(i as int) =~= rest);
        }
        assert(utf8_bytes(rest) >= b);
    }
    if b == 4 {
        proof {
            lemma_spanning_some(rest, i as int);
        }
        Window::Chars(i)
    } else {
        proof {
            lemma_spanning_none(rest, 4, i as int);
        }
        Window::Split
    }
}

/// The JSON reader over the characters of one input.
pub(crate) struct JsonParser {
    pub(crate) chars: Vec<char>,
    pub(crate) pos: usize,
    /// Set when the reader met input it cannot continue on.
    pub(crate) stuck: bool,
}

impl JsonParser {
    /// A reader at the start of `s`.
    pub(crate) fn new(s: &str) -> (p: JsonParser)
        ensures
            p.chars@ == s@,
            p.pos == 0,
            !p.stuck,
    {
        JsonParser { chars: chars_of(s), pos: 0, stuck: false }
    }

    /// The character at the current position, if any.
    pub(crate) fn peek(&self) -> (r: Option<char>)
        ensures
            r == (if self.pos < self.chars@.len() {
                Some(self.chars@[self.pos as int])
            } else {
                None
            }),
    {
        if self.pos < self.chars.len() {
            Some(self.chars[self.pos])
        } else {
            None
        }
    }

    /// Skip ASCII whitespace.
    pub(crate) fn skip_ws(&mut self)
        requires
            old(self).pos <= old(self).chars@.len(),
        ensures
            final(self).chars@ == old(self).chars@,
            final(self).stuck == old(self).stuck,
            (final(self).pos as int) == json_skip(old(self).chars@, old(self).pos as int),
            old(self).pos <= final(self).pos <= final(self).chars@.len(),
    {
        proof {
            assert(self.chars@.len() == self.chars.len());
        }
        while self.pos < self.chars.len() && is_ascii_whitespace(self.chars[self.pos])
            invariant
                self.chars@ == old(self).chars@,
                self.stuck == old(self).stuck,
                old(self).pos <= self.pos <= self.chars@.len(),
                json_skip(old(self).chars@, old(self).pos as int) == json_skip(
                    old(self).chars@,
                    self.pos as int,
                ),
            decreases self.chars@.len() - self.pos,
        {
            self.pos = self.pos + 1;
        }
    }

    /// Read one value.
    pub(crate) fn parse_value(&mut self) -> (r: Result<Value, ParseError>)
        requires
            old(self).pos <= old(self).chars@.len(),
            !old(self).stuck,
        ensures
            final(self).chars@ == old(self).chars@,
            final(self).stuck == (json_value(old(self).chars@, old(self).pos as int) is Stuck),
            match json_value(old(self).chars@, old(self).pos as int) {
                PRes::Done(v, q) => r is Ok && value_view(r->Ok_0) == v && (final(self).pos as int)
                    == q && (old(self).pos as int) < q <= old(self).chars@.len(),
                PRes::Reject(m) => r matches Err(e) && e.message_view() == m,
                PRes::Stuck => r is Err,
            },
        decreases old(self).chars@.len() - old(self).pos, 2int,
    {
        self.skip_ws();
        match self.peek() {
            None => Err(error_of("unexpected end of JSON")),
            Some(c) => {
                if c == '{' {
                    self.parse_object()
                } else if c == '[' {
                    self.parse_array()
                } else if c == '"' {
                    match self.parse_string() {
                        Ok(t) => Ok(str_to_value(t)),
                        Err(e) => Err(e),
                    }
                } else if c == 't' || c == 'f' || c == 'n' {
                    self.parse_keyword_literal()
                } else {
                    self.parse_number()
                }
            },
        }
    }

    /// Read an object; the current position holds its `{`.
    pub(crate) fn parse_object(&mut self) -> (r: Result<Value, ParseError>)
        requires
            old(self).pos < old(self).chars@.len(),
            !old(self).stuck,
        ensures
            final(self).chars@ == old(self).chars@,
            final(self).stuck == (json_object(old(self).chars@, old(self).pos + 1, Seq::empty()) is Stuck),
            match json_object(old(self).chars@, old(self).pos + 1, Seq::empty()) {
                PRes::Done(v, q) => r is Ok && value_view(r->Ok_0) == v && (final(self).pos as int)
                    == q && (old(self).pos as int) < q <= old(self).chars@.len(),
                PRes::Reject(m) => r matches Err(e) && e.message_view() == m,
                PRes::Stuck => r is Err,
            },
        decreases old(self).chars@.len() - old(self).pos, 1int,
    {
        proof {
            assert(self.chars@.len() == self.chars.len());
        }
        self.pos = self.pos + 1;
        let mut pairs: Vec<(Value, Value)> = Vec::new();
        loop
            invariant
                self.chars@ == old(self).chars@,
                !self.stuck,
                self.chars@.len() == self.chars.len(),
                old(self).pos < self.pos <= self.chars@.len(),
                json_object(old(self).chars@, old(self).pos + 1, Seq::empty()) == json_object(
                    old(self).chars@,
                    self.pos as int,
                    pairs_view(pairs@),
                ),
            decreases self.chars@.len() - self.pos,
        {
            self.skip_ws();
            match self.peek() {
                Some(c) => {
                    if c == '}' {
                        self.pos = self.pos + 1;
                        return Ok(Value::Mapping(pairs));
                    } else if c == ',' {
                        self.pos = self.pos + 1;
                    } else if c == '"' {
                        let key = match self.parse_string() {
                            Ok(t) => str_to_value(t),
                            Err(e) => {
                                return Err(e);
                            },
                        };
                        self.skip_ws();
                        if self.peek() != Some(':') {
                            return Err(error_of("expected `:` after JSON key"));
                        }
                        self.pos = self.pos + 1;
                        let val = self.parse_value();
                        match val {
                            Err(e) => {
                                return Err(e);
                            },
                            Ok(val) => {
                                let ghost old_pairs = pairs@;
                                pairs.push((key, val));
                                assert(pairs@.drop_last() =~= old_pairs);
                            },
                        }
                    } else {
                        return Err(error_of("malformed JSON object"));
                    }
                },
                None => {
                    return Err(error_of("malformed JSON object"));
                },
            }
        }
    }

    /// Read an array; the current position holds its `[`.
    pub(crate) fn parse_array(&mut self) -> (r: Result<Value, ParseError>)
        requires
            old(self).pos < old(self).chars@.len(),
            !old(self).stuck,
        ensures
            final(self).chars@ == old(self).chars@,
            final(self).stuck == (json_array(old(self).chars@, old(self).pos + 1, Seq::empty()) is Stuck),
            match json_array(old(self).chars@, old(self).pos + 1, Seq::empty()) {
                PRes::Done(v, q) => r is Ok && value_view(r->Ok_0) == v && (final(self).pos as int)
                    == q && (old(self).pos as int) < q <= old(self).chars@.len(),
                PRes::Reject(m) => r matches Err(e) && e.message_view() == m,
                PRes::Stuck => r is Err,
            },
        decreases old(self).chars@.len() - old(self).pos, 1int,
    {
        proof {
            assert(self.chars@.len() == self.chars.len());
        }
        self.pos = self.pos + 1;
        let mut items: Vec<Value> = Vec::new();
        loop
            invariant
                self.chars@ == old(self).chars@,
                !self.stuck,
                self.chars@.len() == self.chars.len(),
                old(self).pos < self.pos <= self.chars@.len(),
                json_array(old(self).chars@, old(self).pos + 1, Seq::empty()) == json_array(
                    old(self).chars@,
                    self.pos as int,
                    values_view(items@),
                ),
            decreases self.chars@.len() - self.pos,
        {
            self.skip_ws();
            match self.peek() {
                Some(c) => {
                    if c == ']' {
                        self.pos = self.pos + 1;
                        return Ok(Value::List(items));
                    } else if c == ',' {
                        self.pos = self.pos + 1;
                    } else {
                        let v = self.parse_value();
                        match v {
                            Err(e) => {
                                return Err(e);
                            },
                            Ok(v) => {
                                let ghost old_items = items@;
                                items.push(v);
                                assert(items@.drop_last() =~= old_items);
                            },
                        }
                    }
                },
                None => {
                    return Err(error_of("unterminated JSON array"));
                },
            }
        }
    }

    /// Read a string; the current position holds its opening quote.
    pub(crate) fn parse_string(&mut self) -> (r: Result<String, ParseError>)
        requires
            old(self).pos < old(self).chars@.len(),
            !old(self).stuck,
        ensures
            final(self).chars@ == old(self).chars@,
            final(self).stuck == (json_string(old(self).chars@, old(self).pos + 1, Seq::empty()) is Stuck),
            match json_string(old(self).chars@, old(self).pos + 1, Seq::empty()) {
                PRes::Done(t, q) => r is Ok && r->Ok_0@ == t && (final(self).pos as int) == q
                    && (old(self).pos as int) < q <= old(self).chars@.len(),
                PRes::Reject(m) => r matches Err(e) && e.message_view() == m,
                PRes::Stuck => r is Err,
            },
    {
        proof {
            assert(self.chars@.len() == self.chars.len());
        }
        self.pos = self.pos + 1;
        let mut out: Vec<char> = Vec::new();
        loop
            invariant
                self.chars@ == old(self).chars@,
                !self.stuck,
                self.chars@.len() == self.chars.len(),
                old(self).pos < self.pos <= self.chars@.len(),
                json_string(old(self).chars@, old(self).pos + 1, Seq::empty()) == json_string(
                    old(self).chars@,
                    self.pos as int,
                    out@,
                ),
            decreases self.chars@.len() - self.pos,
        {
            match self.peek() {
                None => {
                    return Err(error_of("unterminated JSON string"));
                },
                Some(c) => {
                    if c == '"' {
                        self.pos = self.pos + 1;
                        return Ok(string_of(&out));
                    } else if c == '\\' {
                        let ghost bs = self.pos as int;
                        self.pos = self.pos + 1;
                        match self.peek() {
                            None => {
                                return Err(error_of("trailing JSON escape"));
                            },
                            Some(e) => {
                                if e == 'u' {
                                    match self.parse_unicode_escape() {
                                        Ok(ch) => {
                                            out.push(ch);
                                        },
                                        Err(err) => {
                                            proof {
                                                let s0 = old(self).chars@;
                                                assert(s0[bs] == '\\');
                                                assert(s0[bs + 1] == 'u');
                                                if !self.stuck {
                                                    assert(err.message_view() == unicode_error(
                                                        s0.subrange(bs + 2, s0.len() as int),
                                                    ));
                                                }
                                            }
                                            return Err(err);
                                        },
                                    }
                                } else {
                                    if e == 'n' {
                                        out.push('\n');
                                    } else if e == 'r' {
                                        out.push('\r');
                                    } else if e == 't' {
                                        out.push('\t');
                                    } else if (e as u32) < 128 {
                                        out.push(e);
                                    } else {
                                        self.stuck = true;
                                        return Err(error_of("escape of a multi-byte character"));
                                    }
                                    self.pos = self.pos + 1;
                                }
                            },
                        }
                    } else {
                        let ch = self.chars[self.pos];
                        self.pos = self.pos + 1;
                        out.push(ch);
                    }
                },
            }
        }
    }

    /// Read the four-byte hex code of a `\u` escape; the current position
    /// holds the `u`.
    pub(crate) fn parse_unicode_escape(&mut self) -> (r: Result<char, ParseError>)
        requires
            old(self).pos < old(self).chars@.len(),
            !old(self).stuck,
        ensures
            final(self).chars@ == old(self).chars@,
            ({
                let s = old(self).chars@;
                let rest = s.subrange(old(self).pos + 1, s.len() as int);
                &&& final(self).stuck == (utf8_bytes(rest) >= 4 && chars_spanning(rest, 4) is None)
                &&& if utf8_bytes(rest) < 4 {
                    r is Err
                } else {
                    match chars_spanning(rest, 4) {
                        None => r is Err,
                        Some(k) => match hex_code(rest.take(k as int)) {
                            Some(x) => if is_scalar(x) && old(self).pos + 1 + k <= s.len() {
                                r is Ok && r->Ok_0 == x as char && final(self).pos == old(self).pos
                                    + 1 + k
                            } else {
                                r is Err
                            },
                            None => r is Err,
                        },
                    }
                }
            }),
            !final(self).stuck ==> (r matches Err(e) ==> e.message_view() == unicode_error(
                old(self).chars@.subrange(old(self).pos + 1, old(self).chars@.len() as int),
            )),
    {
        proof {
            assert(self.chars@.len() == self.chars.len());
        }
        let start = self.pos + 1;
        let ghost rest = self.chars@.subrange(start as int, self.chars@.len() as int);
        match window4(&self.chars, start) {
            Window::Short => Err(error_of("truncated \\u escape")),
            Window::Split => {
                self.stuck = true;
                Err(error_of("truncated \\u escape"))
            },
            Window::Chars(k) => {
                assert(rest.take(k as int) =~= self.chars@.subrange(start as int, (start + k) as int));
                match parse_u64_radix(&self.chars, start, start + k, 16) {
                    None => Err(error_of("invalid \\u escape")),
                    Some(x) => {
                        if x > 0xFFFF_FFFF {
                            return Err(error_of("invalid \\u escape"));
                        }
                        match char_from_code(x as u32) {
                            None => Err(error_of("invalid code point")),
                            Some(ch) => {
                                self.pos = start + k;
                                Ok(ch)
                            },
                        }
                    },
                }
            },
        }
    }

    /// Read `true`, `false` or `null`.
    pub(crate) fn parse_keyword_literal(&mut self) -> (r: Result<Value, ParseError>)
        requires
            old(self).pos <= old(self).chars@.len(),
        ensures
            final(self).chars@ == old(self).chars@,
            final(self).stuck == old(self).stuck,
            match json_literal(old(self).chars@, old(self).pos as int) {
                PRes::Done(v, q) => r is Ok && value_view(r->Ok_0) == v && (final(self).pos as int)
                    == q && (old(self).pos as int) < q <= old(self).chars@.len(),
                PRes::Reject(m) => r matches Err(e) && e.message_view() == m,
                PRes::Stuck => r is Err,
            },
    {
        proof {
            assert(self.chars@.len() == self.chars.len());
            reveal_strlit("true");
            reveal_strlit("false");
            reveal_strlit("null");
        }
        let p = self.pos;
        let n = self.chars.len();
        if n - p >= 4 && crate::history::op::chars_eq(&self.chars, p, p + 4, "true") {
            self.pos = p + 4;
            return Ok(Value::Bool(true));
        }
        if n - p >= 5 && crate::history::op::chars_eq(&self.chars, p, p + 5, "false") {
            self.pos = p + 5;
            return Ok(Value::Bool(false));
        }
        if n - p >= 4 && crate::history::op::chars_eq(&self.chars, p, p + 4, "null") {
            self.pos = p + 4;
            return Ok(Value::Nil);
        }
        Err(error_of("invalid JSON literal"))
    }

    /// Read a number: an integer if it reads as an `i64`, else a float.
    pub(crate) fn parse_number(&mut self) -> (r: Result<Value, ParseError>)
        requires
            old(self).pos <= old(self).chars@.len(),
        ensures
            final(self).chars@ == old(self).chars@,
            final(self).stuck == old(self).stuck,
            match json_number(old(self).chars@, old(self).pos as int) {
                PRes::Done(v, q) => r is Ok && value_view(r->Ok_0) == v && (final(self).pos as int)
                    == q && old(self).pos < q <= old(self).chars@.len(),
                PRes::Reject(m) => r matches Err(e) && e.message_view() == m,
                PRes::Stuck => r is Err,
            },
    {
        let start = self.pos;
        let mut q: usize = start;
        while q < self.chars.len() && (('0' <= self.chars[q] && self.chars[q] <= '9')
            || self.chars[q] == '-' || self.chars[q] == '+' || self.chars[q] == '.'
            || self.chars[q] == 'e' || self.chars[q] == 'E')
            invariant
                self.chars@ == old(self).chars@,
                self.stuck == old(self).stuck,
                start == old(self).pos,
                start <= q <= self.chars@.len(),
                num_end(self.chars@, start as int) == num_end(self.chars@, q as int),
            decreases self.chars@.len() - q,
        {
            q = q + 1;
        }
        self.pos = q;
        if q == start {
            proof {
                assert(self.chars@.subrange(start as int, q as int) =~= Seq::<char>::empty());
                crate::history::edn::lemma_atom_empty();
            }
            return Err(error_token("invalid JSON number ", &self.chars, start, q));
        }
        match parse_i64(&self.chars, start, q) {
            Some(i) => Ok(Value::Int(i)),
            None => {
                if is_float_text_in(&self.chars, start, q) {
                    Ok(Value::Float(string_of_range(&self.chars, start, q)))
                } else {
                    Err(error_token("invalid JSON number ", &self.chars, start, q))
                }
            },
        }
    }
}

/// A keyword from a `":name"` string; otherwise the string itself.
pub fn str_to_value(s: String) -> (v: Value)
    ensures
        value_view(v) == str_value(s@),
{
    let c = chars_of(s.as_str());
    if c.len() > 0 && c[0] == ':' {
        let k = string_of_range(&c, 1, c.len());
        assert(c@.subrange(1, c@.len() as int) =~= c@.drop_first());
        Value::Keyword(k)
    } else {
        Value::Str(s)
    }
}

/// Parse a single JSON value from `s`, requiring the whole string be consumed
/// apart from trailing whitespace.
pub fn parse_json(s: &str) -> (r: Result<Value, ParseError>)
    requires
        reads_ok(json_parse(s@)),
    ensures
        match json_parse(s@) {
            PRes::Done(v, _) => r is Ok && value_view(r->Ok_0) == v,
            PRes::Reject(m) => r matches Err(e) && e.message_view() == m,
            PRes::Stuck => r is Err,
        },
{
    json_read(s).0
}

/// Read a single JSON value as `parse_json` does, on any input: the second
/// component says whether the reader met input it cannot continue on (where
/// `parse_json` is not defined), and the result is then an error.
pub fn json_read(s: &str) -> (r: (Result<Value, ParseError>, bool))
    ensures
        r.1 == (json_parse(s@) is Stuck),
        match json_parse(s@) {
            PRes::Done(v, _) => r.0 is Ok && value_view(r.0->Ok_0) == v,
            PRes::Reject(m) => r.0 matches Err(e) && e.message_view() == m,
            PRes::Stuck => r.0 is Err,
        },
{
    let mut p = JsonParser::new(s);
    let v = p.parse_value();
    match v {
        Err(e) => (Err(e), p.stuck),
        Ok(v) => {
            p.skip_ws();
            if p.pos != p.chars.len() {
                proof {
                    reveal_strlit("");
                    assert(""@ =~= Seq::<char>::empty());
                }
                return (Err(error_at("trailing JSON input at byte ", byte_offset(&p.chars, p.pos), "")), false);
            }
            (Ok(v), false)
        },
    }
}

} // verus!
