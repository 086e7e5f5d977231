//! The EDN reader: the subset of EDN that this crate emits and that Jepsen
//! `store/` histories use — maps, vectors, lists, keywords, strings,
//! integers, floats, booleans and `nil`, with commas and `;` comments as
//! whitespace.

use vstd::prelude::*;

use crate::history::edn_spec::{
    atom_value, edn_atom, edn_keyword, edn_map, edn_parse, edn_seq, edn_skip, edn_string,
    edn_unescape, edn_value, is_delim, line_end, token_end, PRes,
};
use crate::history::lex::{is_float_text_in, trim_mn_end};
use crate::history::op::{chars_eq, pairs_view, value_view, values_view, VValue, Value};
use crate::history::ParseError;
use crate::history::json::byte_offset;
use crate::text::{chars_of, dec_digits, is_ascii_whitespace, parse_i64, push_dec_digits, push_str,
    string_of, string_of_range};

verus! {

/// A parse error with a fixed message.
pub fn error_of(msg: &str) -> (e: ParseError)
    ensures
        e.message_view() == msg@,
{
    let v = chars_of(msg);
    ParseError::new(string_of(&v))
}

/// A parse error whose message is `msg`, the decimal `n`, then `tail`.
pub fn error_at(msg: &str, n: u128, tail: &str) -> (e: ParseError)
    ensures
        e.message_view() == msg@ + dec_digits(n as nat) + tail@,
{
    let mut out: Vec<char> = Vec::new();
    push_str(&mut out, msg);
    push_dec_digits(&mut out, n);
    push_str(&mut out, tail);
    ParseError::new(string_of(&out))
}

/// A parse error whose message names a token: `msg`, then the token
/// `v[lo..hi]` in backquotes.
pub fn error_token(msg: &str, v: &Vec<char>, lo: usize, hi: usize) -> (e: ParseError)
    requires
        lo <= hi <= v.len(),
    ensures
        e.message_view() == msg@ + seq!['`'] + v@.subrange(lo as int, hi as int) + seq!['`'],
{
    let mut out: Vec<char> = Vec::new();
    push_str(&mut out, msg);
    out.push('`');
    let ghost head = out@;
    let mut i: usize = lo;
    while i < hi
        invariant
            lo <= i <= hi <= v.len(),
            out@ == head + v@.subrange(lo as int, i as int),
        decreases hi - i,
    {
        out.push(v[i]);
        i = i + 1;
        assert(v@.subrange(lo as int, i as int) =~= v@.subrange(lo as int, i - 1).push(v@[i - 1]));
    }
    out.push('`');
    assert(out@ =~= msg@ + seq!['`'] + v@.subrange(lo as int, hi as int) + seq!['`']);
    ParseError::new(string_of(&out))
}

/// Whether `c` ends a keyword or atom.
pub fn is_delim_char(c: char) -> (r: bool)
    ensures
        r == is_delim(c),
{
    is_ascii_whitespace(c) || c == ',' || c == '{' || c == '}' || c == '[' || c == ']' || c == '('
        || c == ')' || c == '"' || c == ';'
}

/// Whether a value of `edn_value` at `p` is usable: not stuck.
pub open spec fn reads_ok<T>(r: PRes<T>) -> bool {
    !(r is Stuck)
}

/// The EDN reader over the characters of one input.
pub(crate) struct Parser {
    pub(crate) chars: Vec<char>,
    pub(crate) pos: usize,
    /// Set when the reader met input it cannot continue on.
    pub(crate) stuck: bool,
}

impl Parser {
    /// A reader at the start of `s`.
    pub(crate) fn new(s: &str) -> (p: Parser)
        ensures
            p.chars@ == s@,
            p.pos == 0,
            !p.stuck,
    {
        Parser { chars: chars_of(s), pos: 0, stuck: false }
    }

    /// The character at the current position, if any.
    pub(crate) fn peek(&self) -> (r: Option<char>)
        ensures
            r == (if self.pos < self.chars@.len() {
                Some(self.chars@[self.pos as int])
            } else {
                None
            }),
    {
        if self.pos < self.chars.len() {
            Some(self.chars[self.pos])
        } else {
            None
        }
    }

    /// Take the character at the current position and move past it.
    pub(crate) fn next_char(&mut self) -> (c: char)
        requires
            (old(self).pos as int) < old(self).chars@.len(),
        ensures
            c == old(self).chars@[(old(self).pos as int)],
            final(self).chars@ == old(self).chars@,
            final(self).stuck == old(self).stuck,
            (final(self).pos as int) == (old(self).pos as int) + 1,
    {
        assert(self.pos < self.chars@.len());
        assert(self.pos < self.chars@.len());
        assert(self.pos < self.chars.len());
        let c = self.chars[self.pos];
        self.pos = self.pos + 1;
        c
    }

    /// Move past the rest of the current line, including its line feed.
    pub(crate) fn skip_line(&mut self)
        requires
            old(self).pos <= old(self).chars@.len(),
        ensures
            final(self).chars@ == old(self).chars@,
            final(self).stuck == old(self).stuck,
            (final(self).pos as int) == line_end(old(self).chars@, old(self).pos as int),
            old(self).pos <= final(self).pos <= final(self).chars@.len(),
    {
        proof {
            assert(self.chars@.len() == self.chars.len());
        }
        while self.pos < self.chars.len() && self.chars[self.pos] != '\n'
            invariant
                self.chars@ == old(self).chars@,
                self.stuck == old(self).stuck,
                old(self).pos <= self.pos <= self.chars@.len(),
                line_end(old(self).chars@, old(self).pos as int) == line_end(
                    old(self).chars@,
                    self.pos as int,
                ),
            decreases self.chars@.len() - self.pos,
        {
            self.pos = self.pos + 1;
        }
        if self.pos < self.chars.len() {
            self.pos = self.pos + 1;
        }
    }

    /// Skip whitespace, commas, and `;` line comments.
    pub(crate) fn skip_ws(&mut self)
        requires
            old(self).pos <= old(self).chars@.len(),
        ensures
            final(self).chars@ == old(self).chars@,
            final(self).stuck == old(self).stuck,
            (final(self).pos as int) == edn_skip(old(self).chars@, old(self).pos as int),
            old(self).pos <= final(self).pos <= final(self).chars@.len(),
    {
        proof {
            assert(self.chars@.len() == self.chars.len());
        }
        loop
            invariant
                self.chars@ == old(self).chars@,
                self.stuck == old(self).stuck,
                old(self).pos <= self.pos <= self.chars@.len(),
                edn_skip(old(self).chars@, old(self).pos as int) == edn_skip(
                    old(self).chars@,
                    self.pos as int,
                ),
            ensures
                self.chars@ == old(self).chars@,
                self.stuck == old(self).stuck,
                (self.pos as int) == edn_skip(old(self).chars@, old(self).pos as int),
                old(self).pos <= self.pos <= self.chars@.len(),
            decreases self.chars@.len() - self.pos,
        {
            if self.pos >= self.chars.len() {
                assert(edn_skip(old(self).chars@, self.pos as int) == self.pos);
                break;
            }
            let c = self.chars[self.pos];
            if is_ascii_whitespace(c) || c == ',' {
                self.pos = self.pos + 1;
            } else if c == ';' {
                self.pos = self.pos + 1;
                self.skip_line();
            } else {
                assert(edn_skip(old(self).chars@, self.pos as int) == self.pos);
                break;
            }
        }
    }

    /// Read one value.
    pub(crate) fn parse_value(&mut self) -> (r: Result<Value, ParseError>)
        requires
            (old(self).pos as int) <= old(self).chars@.len(),
            !old(self).stuck,
        ensures
            final(self).chars@ == old(self).chars@,
            final(self).stuck == (edn_value(old(self).chars@, (old(self).pos as int)) is Stuck),
            match edn_value(old(self).chars@, (old(self).pos as int)) {
                PRes::Done(v, q) => r is Ok && value_view(r->Ok_0) == v && (final(self).pos as int) == q
                    && (old(self).pos as int) < q <= old(self).chars@.len(),
                PRes::Reject(m) => r matches Err(e) && e.message_view() == m,
                PRes::Stuck => r is Err,
            },
        decreases old(self).chars@.len() - (old(self).pos as int), 2int,
    {
        let ghost s = self.chars@;
        let ghost p0 = self.pos as int;
        proof {
            assert(self.chars@.len() == self.chars.len());
        }
        self.skip_ws();
        match self.peek() {
            None => Err(error_of("unexpected end of input")),
            Some(c) => {
                if c == '{' {
                    self.parse_map()
                } else if c == '[' || c == '(' {
                    self.parse_seq()
                } else if c == '"' {
                    match self.parse_string() {
                        Ok(t) => Ok(Value::Str(t)),
                        Err(e) => Err(e),
                    }
                } else if c == ':' {
                    self.parse_keyword()
                } else {
                    self.parse_atom()
                }
            },
        }
    }

    /// Read a map; the current position holds its `{`.
    pub(crate) fn parse_map(&mut self) -> (r: Result<Value, ParseError>)
        requires
            (old(self).pos as int) < old(self).chars@.len(),
            old(self).chars@[(old(self).pos as int)] == '{',
            !old(self).stuck,
        ensures
            final(self).chars@ == old(self).chars@,
            final(self).stuck == (edn_map(old(self).chars@, (old(self).pos as int) + 1, Seq::empty()) is Stuck),
            match edn_map(old(self).chars@, (old(self).pos as int) + 1, Seq::empty()) {
                PRes::Done(v, q) => r is Ok && value_view(r->Ok_0) == v && (final(self).pos as int) == q
                    && (old(self).pos as int) < q <= old(self).chars@.len(),
                PRes::Reject(m) => r matches Err(e) && e.message_view() == m,
                PRes::Stuck => r is Err,
            },
        decreases old(self).chars@.len() - (old(self).pos as int), 1int,
    {
        let ghost s = self.chars@;
        let ghost p0 = self.pos as int;
        proof {
            assert(self.chars@.len() == self.chars.len());
        }
        self.pos = self.pos + 1;
        let mut pairs: Vec<(Value, Value)> = Vec::new();
        loop
            invariant
                self.chars@ == s,
                !self.stuck,
                s == old(self).chars@,
                p0 == old(self).pos as int,
                s.len() == self.chars.len(),
                p0 < self.pos <= s.len(),
                edn_map(s, p0 + 1, Seq::empty()) == edn_map(s, self.pos as int, pairs_view(pairs@)),
            decreases s.len() - self.pos,
        {
            let ghost p = self.pos as int;
            let ghost acc = pairs_view(pairs@);
            self.skip_ws();
            match self.peek() {
                Some(c) => {
                    if c == '}' {
                        self.pos = self.pos + 1;
                        return Ok(Value::Mapping(pairs));
                    }
                },
                None => {
                    return Err(error_of("unterminated map"));
                },
            }
            let k = self.parse_value();
            match k {
                Err(e) => {
                    return Err(e);
                },
                Ok(k) => {
                    let v = self.parse_value();
                    match v {
                        Err(e) => {
                            return Err(e);
                        },
                        Ok(v) => {
                            let ghost old_pairs = pairs@;
                            pairs.push((k, v));
                            assert(pairs@.drop_last() =~= old_pairs);
                        },
                    }
                },
            }
        }
    }

    /// Read a vector or list; the current position holds its `[` or `(`.
    pub(crate) fn parse_seq(&mut self) -> (r: Result<Value, ParseError>)
        requires
            (old(self).pos as int) < old(self).chars@.len(),
            old(self).chars@[(old(self).pos as int)] == '[' || old(self).chars@[(old(self).pos as int)] == '(',
            !old(self).stuck,
        ensures
            final(self).chars@ == old(self).chars@,
            final(self).stuck == (edn_seq(
                old(self).chars@,
                (old(self).pos as int) + 1,
                if old(self).chars@[(old(self).pos as int)] == '(' {
                    ')'
                } else {
                    ']'
                },
                Seq::empty(),
            ) is Stuck),
            match edn_seq(
                old(self).chars@,
                (old(self).pos as int) + 1,
                if old(self).chars@[(old(self).pos as int)] == '(' {
                    ')'
                } else {
                    ']'
                },
                Seq::empty(),
            ) {
                PRes::Done(v, q) => r is Ok && value_view(r->Ok_0) == v && (final(self).pos as int) == q
                    && (old(self).pos as int) < q <= old(self).chars@.len(),
                PRes::Reject(m) => r matches Err(e) && e.message_view() == m,
                PRes::Stuck => r is Err,
            },
        decreases old(self).chars@.len() - (old(self).pos as int), 1int,
    {
        let ghost s = self.chars@;
        let ghost p0 = self.pos as int;
        proof {
            assert(self.chars@.len() == self.chars.len());
        }
        let close = if self.chars[self.pos] == '(' {
            ')'
        } else {
            ']'
        };
        self.pos = self.pos + 1;
        let mut items: Vec<Value> = Vec::new();
        loop
            invariant
                self.chars@ == s,
                !self.stuck,
                s == old(self).chars@,
                p0 == old(self).pos as int,
                s.len() == self.chars.len(),
                p0 < self.pos <= s.len(),
                close == (if s[p0] == '(' {
                    ')'
                } else {
                    ']'
                }),
                edn_seq(s, p0 + 1, close, Seq::empty()) == edn_seq(
                    s,
                    self.pos as int,
                    close,
                    values_view(items@),
                ),
            decreases s.len() - self.pos,
        {
            self.skip_ws();
            match self.peek() {
                Some(c) => {
                    if c == close {
                        self.pos = self.pos + 1;
                        return Ok(Value::List(items));
                    }
                },
                None => {
                    return Err(error_of("unterminated list/vector"));
                },
            }
            let v = self.parse_value();
            match v {
                Err(e) => {
                    return Err(e);
                },
                Ok(v) => {
                    let ghost old_items = items@;
                    items.push(v);
                    assert(items@.drop_last() =~= old_items);
                },
            }
        }
    }

    /// Read a quoted string; the current position holds its opening quote.
    pub(crate) fn parse_string(&mut self) -> (r: Result<String, ParseError>)
        requires
            (old(self).pos as int) < old(self).chars@.len(),
            !old(self).stuck,
        ensures
            final(self).chars@ == old(self).chars@,
            final(self).stuck == (edn_string(old(self).chars@, (old(self).pos as int) + 1, Seq::empty()) is Stuck),
            match edn_string(old(self).chars@, (old(self).pos as int) + 1, Seq::empty()) {
                PRes::Done(t, q) => r is Ok && r->Ok_0@ == t && (final(self).pos as int) == q
                    && (old(self).pos as int) < q <= old(self).chars@.len(),
                PRes::Reject(m) => r matches Err(e) && e.message_view() == m,
                PRes::Stuck => r is Err,
            },
    {
        let ghost s = self.chars@;
        let ghost p0 = self.pos as int;
        proof {
            assert(self.chars@.len() == self.chars.len());
        }
        self.pos = self.pos + 1;
        let mut out: Vec<char> = Vec::new();
        loop
            invariant
                self.chars@ == s,
                !self.stuck,
                s == old(self).chars@,
                p0 == old(self).pos as int,
                s.len() == self.chars.len(),
                p0 < self.pos <= s.len(),
                edn_string(s, p0 + 1, Seq::empty()) == edn_string(s, self.pos as int, out@),
            decreases s.len() - self.pos,
        {
            match self.peek() {
                None => {
                    return Err(error_of("unterminated string"));
                },
                Some(c) => {
                    if c == '"' {
                        self.pos = self.pos + 1;
                        return Ok(string_of(&out));
                    } else if c == '\\' {
                        self.pos = self.pos + 1;
                        match self.peek() {
                            None => {
                                return Err(error_of("trailing escape"));
                            },
                            Some(e) => {
                                if e == 'n' {
                                    out.push('\n');
                                } else if e == 'r' {
                                    out.push('\r');
                                } else if e == 't' {
                                    out.push('\t');
                                } else if (e as u32) < 128 {
                                    out.push(e);
                                } else {
                                    self.stuck = true;
                                    return Err(error_of("escape of a multi-byte character"));
                                }
                                self.pos = self.pos + 1;
                            },
                        }
                    } else {
                        let ch = self.next_char();
                        out.push(ch);
                    }
                },
            }
        }
    }

    /// The end of the token starting at the current position.
    fn token_end(&self) -> (q: usize)
        requires
            self.pos <= self.chars@.len(),
        ensures
            q == token_end(self.chars@, self.pos as int),
            self.pos <= q <= self.chars@.len(),
    {
        let ghost s = self.chars@;
        let mut q: usize = self.pos;
        while q < self.chars.len() && !is_delim_char(self.chars[q])
            invariant
                self.pos <= q <= s.len(),
                s == self.chars@,
                token_end(s, self.pos as int) == token_end(s, q as int),
            decreases s.len() - q,
        {
            q = q + 1;
        }
        q
    }

    /// Read a keyword; the current position holds its `:`.
    pub(crate) fn parse_keyword(&mut self) -> (r: Result<Value, ParseError>)
        requires
            (old(self).pos as int) < old(self).chars@.len(),
        ensures
            final(self).chars@ == old(self).chars@,
            final(self).stuck == old(self).stuck,
            match edn_keyword(old(self).chars@, (old(self).pos as int) + 1) {
                PRes::Done(v, q) => r is Ok && value_view(r->Ok_0) == v && (final(self).pos as int) == q
                    && (old(self).pos as int) < q <= old(self).chars@.len(),
                PRes::Reject(m) => r matches Err(e) && e.message_view() == m,
                PRes::Stuck => r is Err,
            },
    {
        proof {
            assert(self.chars@.len() == self.chars.len());
        }
        self.pos = self.pos + 1;
        let start = self.pos;
        let q = self.token_end();
        self.pos = q;
        if q == start {
            return Err(error_of("empty keyword"));
        }
        Ok(Value::Keyword(string_of_range(&self.chars, start, q)))
    }

    /// Read an atom: `nil`, `true`, `false`, an integer or a float.
    pub(crate) fn parse_atom(&mut self) -> (r: Result<Value, ParseError>)
        requires
            (old(self).pos as int) <= old(self).chars@.len(),
        ensures
            final(self).chars@ == old(self).chars@,
            final(self).stuck == old(self).stuck,
            match edn_atom(old(self).chars@, (old(self).pos as int)) {
                PRes::Done(v, q) => r is Ok && value_view(r->Ok_0) == v && (final(self).pos as int) == q
                    && (old(self).pos as int) < q <= old(self).chars@.len(),
                PRes::Reject(m) => r matches Err(e) && e.message_view() == m,
                PRes::Stuck => r is Err,
            },
    {
        let start = self.pos;
        let q = self.token_end();
        self.pos = q;
        let ghost tok = self.chars@.subrange(start as int, q as int);
        if q == start {
            proof {
                assert(tok =~= Seq::<char>::empty());
                lemma_atom_empty();
            }
            return Err(error_token("unrecognized token ", &self.chars, start, q));
        }
        if chars_eq(&self.chars, start, q, "nil") {
            return Ok(Value::Nil);
        }
        if chars_eq(&self.chars, start, q, "true") {
            return Ok(Value::Bool(true));
        }
        if chars_eq(&self.chars, start, q, "false") {
            return Ok(Value::Bool(false));
        }
        match parse_i64(&self.chars, start, q) {
            Some(i) => {
                return Ok(Value::Int(i));
            },
            None => {},
        }
        let f_end = trim_mn_end(&self.chars, start, q);
        if is_float_text_in(&self.chars, start, f_end) {
            return Ok(Value::Float(string_of_range(&self.chars, start, f_end)));
        }
        Err(error_token("unrecognized token ", &self.chars, start, q))
    }
}

/// Parse a single EDN value from `s`, requiring the whole string to be
/// consumed apart from trailing whitespace.
pub fn parse_edn(s: &str) -> (r: Result<Value, ParseError>)
    requires
        reads_ok(edn_parse(s@)),
    ensures
        match edn_parse(s@) {
            PRes::Done(v, _) => r is Ok && value_view(r->Ok_0) == v,
            PRes::Reject(m) => r matches Err(e) && e.message_view() == m,
            PRes::Stuck => r is Err,
        },
{
    edn_read(s).0
}

/// Read a single EDN value as `parse_edn` does, on any input: the second
/// component says whether the reader met input it cannot continue on (where
/// `parse_edn` is not defined), and the result is then an error.
pub fn edn_read(s: &str) -> (r: (Result<Value, ParseError>, bool))
    ensures
        r.1 == (edn_parse(s@) is Stuck),
        match edn_parse(s@) {
            PRes::Done(v, _) => r.0 is Ok && value_view(r.0->Ok_0) == v,
            PRes::Reject(m) => r.0 matches Err(e) && e.message_view() == m,
            PRes::Stuck => r.0 is Err,
        },
{
    let mut p = Parser::new(s);
    p.skip_ws();
    assert(edn_value(s@, 0) == edn_value(s@, p.pos as int)) by {
        lemma_value_after_skip(s@, 0);
    }
    let v = p.parse_value();
    match v {
        Err(e) => (Err(e), p.stuck),
        Ok(v) => {
            p.skip_ws();
            if p.pos != p.chars.len() {
                return (Err(error_at("trailing input at byte ", byte_offset(&p.chars, p.pos), " ")), false);
            }
            (Ok(v), false)
        },
    }
}

/// An empty token is no atom.
pub proof fn lemma_atom_empty()
    ensures
        atom_value(Seq::empty()) is None,
{
    reveal_strlit("nil");
    reveal_strlit("true");
    reveal_strlit("false");
    reveal_strlit("inf");
    reveal_strlit("infinity");
    reveal_strlit("nan");
    let e = Seq::<char>::empty();
    assert(crate::history::edn_spec::trim_mn(e) == e);
    assert(crate::history::edn_spec::strip_sign(e) == e);
    assert(crate::history::edn_spec::lower_seq(e) =~= e);
    assert(crate::history::edn_spec::find_char(e, 'e') == 0);
    assert(e.take(0) =~= e);
    assert(crate::history::edn_spec::find_char(e, '.') == 0);
    assert(!crate::history::edn_spec::mantissa_ok(e));
}

/// Skipping whitespace before reading a value changes nothing: the reader
/// skips it itself.
pub proof fn lemma_value_after_skip(s: Seq<char>, p: int)
    requires
        0 <= p <= s.len(),
    ensures
        edn_value(s, p) == edn_value(s, edn_skip(s, p)),
{
    lemma_skip_idempotent(s, p);
    lemma_skip_bounds(s, p);
}

/// `edn_skip` stays within `[p, len]` for `p` in range.
pub proof fn lemma_skip_bounds(s: Seq<char>, p: int)
    requires
        0 <= p <= s.len(),
    ensures
        p <= edn_skip(s, p) <= s.len(),
    decreases s.len() - p,
{
    if p < s.len() {
        if is_ascii_ws_c(s[p]) || s[p] == ',' {
            lemma_skip_bounds(s, p + 1);
        } else if s[p] == ';' {
            lemma_line_end_bounds(s, p + 1);
            let q = line_end(s, p + 1);
            if p < q <= s.len() {
                lemma_skip_bounds(s, q);
            }
        }
    }
}

pub open spec fn is_ascii_ws_c(c: char) -> bool {
    crate::text::is_ascii_ws(c)
}

pub proof fn lemma_line_end_bounds(s: Seq<char>, p: int)
    requires
        0 <= p <= s.len(),
    ensures
        p <= line_end(s, p) <= s.len(),
    decreases s.len() - p,
{
    if p < s.len() && s[p] != '\n' {
        lemma_line_end_bounds(s, p + 1);
    }
}

/// Skipping twice is skipping once.
pub proof fn lemma_skip_idempotent(s: Seq<char>, p: int)
    requires
        0 <= p <= s.len(),
    ensures
        edn_skip(s, edn_skip(s, p)) == edn_skip(s, p),
    decreases s.len() - p,
{
    if p < s.len() {
        if is_ascii_ws_c(s[p]) || s[p] == ',' {
            lemma_skip_idempotent(s, p + 1);
        } else if s[p] == ';' {
            lemma_line_end_bounds(s, p + 1);
            let q = line_end(s, p + 1);
            lemma_skip_idempotent(s, q);
        }
    }
}

} // verus!
