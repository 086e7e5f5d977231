//! The [`History`] interchange type and its Jepsen EDN/JSON codecs.

use vstd::prelude::*;

use crate::history::edn::{edn_read, error_of};
use crate::history::edn_spec::{edn_parse, edn_text, find_char, json_parse, json_text, PRes};
use crate::history::json::json_read;
use crate::history::lex::find_in;
use crate::history::op::{
    chars_eq, clone_value, entries_equal, kind_from_keyword, kind_keyword, pairs_view, EntryV, Function,
    OpEntry, OpKind, ProcessId, VValue, Value,
};
use crate::history::time::{Clock, Time};
use crate::history::writer::{lemma_pairs_view, lemma_values_view, write_edn, write_json};
use crate::history::ParseError;
use crate::text::{
    chars_of, parse_i64, parse_i64_spec, push_str, skip_leading_ws, skip_trailing_ws, string_of,
    string_of_range, trim, trim_start,
};

verus! {

/// A recorded operation history: the entries in recorded order. Every
/// executor produces one; every history-based oracle consumes one.
#[derive(Clone, Debug, PartialEq)]
pub struct History(pub Vec<OpEntry>);

/// The models of a sequence of entries.
pub open spec fn entries_view(s: Seq<OpEntry>) -> Seq<EntryV> {
    Seq::new(s.len(), |i: int| s[i]@)
}

impl View for History {
    type V = Seq<EntryV>;

    open spec fn view(&self) -> Seq<EntryV> {
        entries_view(self.0@)
    }
}

impl Default for History {
    fn default() -> (h: History)
        ensures
            h@ == Seq::<EntryV>::empty(),
    {
        History(Vec::new())
    }
}

// ---------------------------------------------------------------------------
// The entry map
// ---------------------------------------------------------------------------

/// A keyword value.
pub open spec fn kw(name: Seq<char>) -> VValue {
    VValue::Keyword(name)
}

/// The keyword naming a clock.
pub open spec fn clock_name(c: Clock) -> Seq<char> {
    match c {
        Clock::Virtual => "virtual"@,
        Clock::Wall => "wall"@,
    }
}

/// The clock a keyword names, if any.
pub open spec fn clock_from_name(s: Seq<char>) -> Option<Clock> {
    if s == "virtual"@ {
        Some(Clock::Virtual)
    } else if s == "wall"@ {
        Some(Clock::Wall)
    } else {
        None
    }
}

/// `u as i64`: the two's-complement reading of a `u64`.
pub open spec fn as_signed(u: u64) -> i64 {
    if u <= i64::MAX {
        u as i64
    } else {
        (u - 0x1_0000_0000_0000_0000) as i64
    }
}

/// `i as u64`: the two's-complement bits of an `i64`.
pub open spec fn as_unsigned(i: i64) -> u64 {
    if i >= 0 {
        i as u64
    } else {
        (i + 0x1_0000_0000_0000_0000) as u64
    }
}

/// The Jepsen operation map of an entry:
/// `{:index i, :time t, :clock c, :type k, :process p, :f f, :value v}`.
pub open spec fn entry_value(e: EntryV) -> VValue {
    VValue::Mapping(
        seq![
            (kw("index"@), VValue::Int(as_signed(e.index))),
            (kw("time"@), VValue::Int(e.nanos)),
            (kw("clock"@), kw(clock_name(e.clock))),
            (kw("type"@), kw(kind_keyword(e.kind))),
            (kw("process"@), VValue::Int(as_signed(e.process))),
            (kw("f"@), kw(e.f)),
            (kw("value"@), e.value),
        ],
    )
}

/// Whether a map key names `key`, as a keyword or as a string.
pub open spec fn names_key(k: VValue, key: Seq<char>) -> bool {
    match k {
        VValue::Keyword(n) => n == key,
        VValue::Str(n) => n == key,
        _ => false,
    }
}

/// The value of the first entry of `pairs` whose key names `key`.
pub open spec fn lookup(pairs: Seq<(VValue, VValue)>, key: Seq<char>) -> Option<VValue>
    decreases pairs.len(),
{
    if pairs.len() == 0 {
        None
    } else if names_key(pairs[0].0, key) {
        Some(pairs[0].1)
    } else {
        lookup(pairs.drop_first(), key)
    }
}

/// An integer field: an integer, or a string that `i64::from_str` reads.
pub open spec fn int_field(v: Option<VValue>) -> Option<i64> {
    match v {
        Some(VValue::Int(i)) => Some(i),
        Some(VValue::Str(s)) => parse_i64_spec(s),
        _ => None,
    }
}

/// A name field: a keyword or a string.
pub open spec fn name_field(v: Option<VValue>) -> Option<Seq<char>> {
    match v {
        Some(VValue::Keyword(k)) => Some(k),
        Some(VValue::Str(k)) => Some(k),
        _ => None,
    }
}

/// The clock field: wall-clock when absent.
pub open spec fn clock_field(v: Option<VValue>) -> Option<Clock> {
    match v {
        None => Some(Clock::Wall),
        Some(_) => match name_field(v) {
            Some(n) => clock_from_name(n),
            None => None,
        },
    }
}

/// The kind field.
pub open spec fn kind_field(v: Option<VValue>) -> Option<OpKind> {
    match name_field(v) {
        Some(n) => kind_from_keyword(n),
        None => None,
    }
}

/// The entry an operation map describes, if it is one.
pub open spec fn entry_of(v: VValue) -> Option<EntryV> {
    match v {
        VValue::Mapping(pairs) => {
            let index = int_field(lookup(pairs, "index"@));
            let nanos = int_field(lookup(pairs, "time"@));
            let clock = clock_field(lookup(pairs, "clock"@));
            let kind = kind_field(lookup(pairs, "type"@));
            let process = int_field(lookup(pairs, "process"@));
            let f = name_field(lookup(pairs, "f"@));
            let value = match lookup(pairs, "value"@) {
                Some(x) => x,
                None => VValue::Nil,
            };
            if index is Some && nanos is Some && clock is Some && kind is Some && process is Some
                && f is Some {
                Some(
                    EntryV {
                        index: as_unsigned(index->0),
                        nanos: nanos->0,
                        clock: clock->0,
                        kind: kind->0,
                        process: as_unsigned(process->0),
                        f: f->0,
                        value,
                    },
                )
            } else {
                None
            }
        },
        _ => None,
    }
}

/// The message for a field that is not an integer: a string that is not
/// one, or anything else.
pub open spec fn int_error(v: Option<VValue>, field: Seq<char>) -> Seq<char> {
    match v {
        Some(VValue::Str(_)) => "`:"@ + field + "` is not an integer"@,
        _ => "missing or non-integer `:"@ + field + "`"@,
    }
}

/// Why a value is not an operation map: the first check it fails, in the
/// order index, time, clock, type, process, f.
pub open spec fn entry_error(v: VValue) -> Seq<char> {
    match v {
        VValue::Mapping(pairs) => {
            let index = lookup(pairs, "index"@);
            let time = lookup(pairs, "time"@);
            let clock = lookup(pairs, "clock"@);
            let kind = lookup(pairs, "type"@);
            let process = lookup(pairs, "process"@);
            if int_field(index) is None {
                int_error(index, "index"@)
            } else if int_field(time) is None {
                int_error(time, "time"@)
            } else if clock is Some && name_field(clock) is None {
                "`:clock` is not a keyword"@
            } else if clock is Some && clock_from_name(name_field(clock)->0) is None {
                "unknown clock `:"@ + name_field(clock)->0 + "`"@
            } else if name_field(kind) is None {
                "missing or malformed `:type`"@
            } else if kind_from_keyword(name_field(kind)->0) is None {
                "unknown :type `:"@ + name_field(kind)->0 + "`"@
            } else if int_field(process) is None {
                int_error(process, "process"@)
            } else {
                "missing or malformed `:f`"@
            }
        },
        _ => "op entry is not a map"@,
    }
}

/// The entries a list of operation maps describes, if every item is one.
pub open spec fn entries_of(items: Seq<VValue>) -> Option<Seq<EntryV>>
    decreases items.len(),
{
    if items.len() == 0 {
        Some(Seq::empty())
    } else {
        match (entries_of(items.drop_last()), entry_of(items.last())) {
            (Some(es), Some(e)) => Some(es.push(e)),
            _ => None,
        }
    }
}

// ---------------------------------------------------------------------------
// Renderings
// ---------------------------------------------------------------------------

/// The EDN rendering of a history: one operation map per line.
pub open spec fn history_edn(h: Seq<EntryV>) -> Seq<char>
    decreases h.len(),
{
    if h.len() == 0 {
        Seq::empty()
    } else {
        edn_text(entry_value(h[0])) + seq!['\n'] + history_edn(h.drop_first())
    }
}

/// The operation maps of a history.
pub open spec fn history_values(h: Seq<EntryV>) -> Seq<VValue> {
    Seq::new(h.len(), |i: int| entry_value(h[i]))
}

/// The JSON rendering of a history: one array of operation objects.
pub open spec fn history_json(h: Seq<EntryV>) -> Seq<char> {
    json_text(VValue::List(history_values(h)))
}

// ---------------------------------------------------------------------------
// Reading
// ---------------------------------------------------------------------------

/// The outcome of reading a history: its entries, a refusal with its
/// message, or input on which the reader cannot continue at all.
pub enum Ingest {
    Entries(Seq<EntryV>),
    Refused(Seq<char>),
    Stuck,
}

/// A line without the `\r` of a `\r\n` ending.
pub open spec fn strip_cr(l: Seq<char>) -> Seq<char> {
    if l.len() > 0 && l.last() == '\r' {
        l.drop_last()
    } else {
        l
    }
}

/// `str::lines`: the text split at `\n` (and `\r\n`) endings; a final
/// ending is optional.
pub open spec fn lines(s: Seq<char>) -> Seq<Seq<char>>
    decreases s.len(),
{
    if s.len() == 0 {
        Seq::empty()
    } else {
        let k = find_char(s, '\n');
        if k < s.len() {
            seq![strip_cr(s.take(k as int))] + lines(s.skip(k + 1int))
        } else {
            seq![s]
        }
    }
}

/// Read line-delimited operation maps, skipping blank lines; the first line
/// that fails decides the outcome.
pub open spec fn read_lines(ls: Seq<Seq<char>>) -> Ingest
    decreases ls.len(),
{
    if ls.len() == 0 {
        Ingest::Entries(Seq::empty())
    } else if trim(ls[0]).len() == 0 {
        read_lines(ls.drop_first())
    } else {
        match edn_parse(ls[0]) {
            PRes::Stuck => Ingest::Stuck,
            PRes::Reject(m) => Ingest::Refused(m),
            PRes::Done(v, _) => match entry_of(v) {
                None => Ingest::Refused(entry_error(v)),
                Some(e) => match read_lines(ls.drop_first()) {
                    Ingest::Entries(es) => Ingest::Entries(seq![e] + es),
                    other => other,
                },
            },
        }
    }
}

/// Whether a text looks like JSON: after its first `{`, the first
/// non-whitespace character is a double quote (a quoted key).
pub open spec fn looks_json(s: Seq<char>) -> bool {
    let i = find_char(s, '{');
    i < s.len() && {
        let rest = trim_start(s.skip(i + 1int));
        rest.len() > 0 && rest[0] == '"'
    }
}

/// Read a single vector of operation maps, from EDN or JSON.
pub open spec fn read_vector(t: Seq<char>) -> Ingest {
    let r = if looks_json(t) {
        json_parse(t)
    } else {
        edn_parse(t)
    };
    match r {
        PRes::Done(VValue::List(items), _) => match entries_of(items) {
            Some(es) => Ingest::Entries(es),
            None => Ingest::Refused(first_entry_error(items)),
        },
        PRes::Done(_, _) => Ingest::Refused("expected a vector of op maps"@),
        PRes::Reject(m) => Ingest::Refused(m),
        PRes::Stuck => Ingest::Stuck,
    }
}

/// The message of the first item of `items` that is no operation map
/// (empty when every item is one).
pub open spec fn first_entry_error(items: Seq<VValue>) -> Seq<char>
    decreases items.len(),
{
    if items.len() == 0 {
        Seq::empty()
    } else if entry_of(items[0]) is None {
        entry_error(items[0])
    } else {
        first_entry_error(items.drop_first())
    }
}

/// Read a Jepsen history: a single vector of operation maps when the text
/// (after leading whitespace) opens with `[` or `(`, else one map per line.
pub open spec fn read_history(s: Seq<char>) -> Ingest {
    let t = trim_start(s);
    if t.len() > 0 && (t[0] == '[' || t[0] == '(') {
        read_vector(t)
    } else {
        read_lines(lines(s))
    }
}

// ---------------------------------------------------------------------------
// Executable codec
// ---------------------------------------------------------------------------

/// The keyword naming a clock.
pub fn clock_kw(c: Clock) -> (s: &'static str)
    ensures
        s@ == clock_name(c),
{
    match c {
        Clock::Virtual => "virtual",
        Clock::Wall => "wall",
    }
}

/// The clock a keyword names.
pub fn clock_from_kw(s: &str) -> (r: Result<Clock, ParseError>)
    ensures
        match r {
            Ok(c) => clock_from_name(s@) == Some(c),
            Err(e) => clock_from_name(s@) is None && e.message_view() == "unknown clock `:"@ + s@
                + "`"@,
        },
{
    let v = chars_of(s);
    assert(v@.subrange(0, v.len() as int) =~= v@);
    if chars_eq(&v, 0, v.len(), "virtual") {
        Ok(Clock::Virtual)
    } else if chars_eq(&v, 0, v.len(), "wall") {
        Ok(Clock::Wall)
    } else {
        let mut m: Vec<char> = Vec::new();
        push_str(&mut m, "unknown clock `:");
        push_str(&mut m, s);
        m.push('`');
        proof {
            reveal_strlit("`");
            assert(m@ =~= "unknown clock `:"@ + s@ + "`"@);
        }
        Err(ParseError::new(string_of(&m)))
    }
}

/// `u as i64`.
fn to_signed(u: u64) -> (i: i64)
    ensures
        i == as_signed(u),
{
    if u <= i64::MAX as u64 {
        u as i64
    } else {
        ((u - 0x8000_0000_0000_0000u64) as i64) + i64::MIN
    }
}

/// `i as u64`.
fn to_unsigned(i: i64) -> (u: u64)
    ensures
        u == as_unsigned(i),
{
    if i >= 0 {
        i as u64
    } else {
        ((i - i64::MIN) as u64) + 0x8000_0000_0000_0000u64
    }
}

/// Build the operation map for one entry.
pub fn entry_to_value(e: &OpEntry) -> (v: Value)
    ensures
        v@ == entry_value(e@),
{
    let mut pairs: Vec<(Value, Value)> = Vec::new();
    pairs.push((Value::keyword("index"), Value::Int(to_signed(e.index))));
    pairs.push((Value::keyword("time"), Value::Int(e.time.nanos)));
    pairs.push((Value::keyword("clock"), Value::keyword(clock_kw(e.time.clock))));
    pairs.push((Value::keyword("type"), Value::keyword(e.kind.keyword())));
    pairs.push((Value::keyword("process"), Value::Int(to_signed(e.process.0))));
    pairs.push((Value::keyword("f"), Value::keyword(e.f.as_str())));
    pairs.push((Value::keyword("value"), clone_value(&e.value)));
    proof {
        lemma_pairs_view(pairs@);
        assert(pairs_view(pairs@) =~= seq![
            (kw("index"@), VValue::Int(as_signed(e.index))),
            (kw("time"@), VValue::Int(e.time.nanos)),
            (kw("clock"@), kw(clock_name(e.time.clock))),
            (kw("type"@), kw(kind_keyword(e.kind))),
            (kw("process"@), VValue::Int(as_signed(e.process.0))),
            (kw("f"@), kw(e.f.0@)),
            (kw("value"@), e.value@),
        ]);
    }
    Value::Mapping(pairs)
}

/// Whether a map key names `key`.
fn key_names(k: &Value, key: &str) -> (r: bool)
    ensures
        r == names_key(k@, key@),
{
    match k {
        Value::Keyword(n) | Value::Str(n) => {
            let c = chars_of(n.as_str());
            let w = chars_of(key);
            assert(c@.subrange(0, c.len() as int) =~= c@);
            chars_eq(&c, 0, c.len(), key)
        },
        _ => false,
    }
}

/// The model of an optional borrowed value.
pub open spec fn opt_view(v: Option<&Value>) -> Option<VValue> {
    match v {
        Some(x) => Some(x@),
        None => None,
    }
}

/// The value of the first entry whose key names `key`.
fn get<'a>(pairs: &'a Vec<(Value, Value)>, key: &str) -> (r: Option<&'a Value>)
    ensures
        opt_view(r) == lookup(pairs_view(pairs@), key@),
{
    let ghost ps = pairs_view(pairs@);
    proof {
        lemma_pairs_view(pairs@);
        assert(ps.skip(0) =~= ps);
    }
    let mut i: usize = 0;
    while i < pairs.len()
        invariant
            i <= pairs.len(),
            ps == pairs_view(pairs@),
            ps.len() == pairs@.len(),
            forall|k: int|
                0 <= k < pairs@.len() ==> #[trigger] ps[k] == (pairs@[k].0@, pairs@[k].1@),
            lookup(ps, key@) == lookup(ps.skip(i as int), key@),
        decreases pairs.len() - i,
    {
        let ghost rest = ps.skip(i as int);
        assert(rest[0] == ps[i as int]);
        if key_names(&pairs[i].0, key) {
            return Some(&pairs[i].1);
        }
        assert(rest.drop_first() =~= ps.skip(i + 1));
        i = i + 1;
    }
    None
}

/// A parse error: `msg` with a field name in `` `:name` `` form.
fn field_error(before: &str, field: &str, after: &str) -> (e: ParseError)
    ensures
        e.message_view() == before@ + "`:"@ + field@ + "`"@ + after@,
{
    let mut m: Vec<char> = Vec::new();
    push_str(&mut m, before);
    push_str(&mut m, "`:");
    push_str(&mut m, field);
    let ghost mid = m@;
    m.push('`');
    proof {
        reveal_strlit("`");
        assert(m@ =~= mid + "`"@);
    }
    push_str(&mut m, after);
    ParseError::new(string_of(&m))
}

/// An integer field; a string holding an integer is accepted too.
fn require_int(v: Option<&Value>, field: &str) -> (r: Result<i64, ParseError>)
    ensures
        match r {
            Ok(i) => int_field(opt_view(v)) == Some(i),
            Err(e) => int_field(opt_view(v)) is None && e.message_view() == int_error(
                opt_view(v),
                field@,
            ),
        },
{
    match v {
        Some(Value::Int(i)) => Ok(*i),
        Some(Value::Str(s)) => {
            let c = chars_of(s.as_str());
            assert(c@.subrange(0, c.len() as int) =~= c@);
            match parse_i64(&c, 0, c.len()) {
                Some(i) => Ok(i),
                None => {
                    proof {
                        reveal_strlit("");
                        reveal_strlit("`:");
                        reveal_strlit("`");
                        reveal_strlit(" is not an integer");
                        reveal_strlit("` is not an integer");
                        assert(""@ + "`:"@ + field@ + "`"@ + " is not an integer"@ =~= "`:"@ + field@
                            + "` is not an integer"@);
                    }
                    Err(field_error("", field, " is not an integer"))
                },
            }
        },
        _ => {
            proof {
                reveal_strlit("");
                reveal_strlit("`:");
                reveal_strlit("`");
                reveal_strlit("missing or non-integer ");
                reveal_strlit("missing or non-integer `:");
                assert("missing or non-integer "@ + "`:"@ + field@ + "`"@ + ""@ =~= "missing or non-integer `:"@
                    + field@ + "`"@);
            }
            Err(field_error("missing or non-integer ", field, ""))
        },
    }
}

/// The characters of a name field.
fn name_of<'a>(v: Option<&'a Value>) -> (r: Option<&'a String>)
    ensures
        match r {
            Some(s) => name_field(opt_view(v)) == Some(s@),
            None => name_field(opt_view(v)) is None,
        },
{
    match v {
        Some(Value::Keyword(k)) => Some(k),
        Some(Value::Str(k)) => Some(k),
        _ => None,
    }
}

/// Parse one entry from an operation map. A missing `:clock` means
/// wall-clock; a missing `:value` means `nil`.
pub fn value_to_entry(v: &Value) -> (r: Result<OpEntry, ParseError>)
    ensures
        match r {
            Ok(e) => entry_of(v@) == Some(e@),
            Err(e) => entry_of(v@) is None && e.message_view() == entry_error(v@),
        },
{
    let pairs = match v {
        Value::Mapping(pairs) => pairs,
        _ => {
            return Err(error_of("op entry is not a map"));
        },
    };
    let ghost ps = pairs_view(pairs@);
    let index = require_int(get(pairs, "index"), "index");
    let index = match index {
        Ok(i) => to_unsigned(i),
        Err(e) => {
            return Err(e);
        },
    };
    let nanos = match require_int(get(pairs, "time"), "time") {
        Ok(i) => i,
        Err(e) => {
            return Err(e);
        },
    };
    let c = get(pairs, "clock");
    let clock = match c {
        None => Clock::Wall,
        Some(_) => match name_of(c) {
            Some(k) => match clock_from_kw(k.as_str()) {
                Ok(cl) => cl,
                Err(e) => {
                    return Err(e);
                },
            },
            None => {
                return Err(error_of("`:clock` is not a keyword"));
            },
        },
    };
    let kind = match name_of(get(pairs, "type")) {
        Some(k) => match OpKind::from_keyword(k.as_str()) {
            Some(kind) => kind,
            None => {
                proof {
                    reveal_strlit("");
                    reveal_strlit("`:");
                    reveal_strlit("`");
                    reveal_strlit("unknown :type ");
                    reveal_strlit("unknown :type `:");
                    assert("unknown :type "@ + "`:"@ + k@ + "`"@ + ""@ =~= "unknown :type `:"@ + k@
                        + "`"@);
                }
                return Err(field_error("unknown :type ", k.as_str(), ""));
            },
        },
        None => {
            return Err(error_of("missing or malformed `:type`"));
        },
    };
    let process = match require_int(get(pairs, "process"), "process") {
        Ok(i) => to_unsigned(i),
        Err(e) => {
            return Err(e);
        },
    };
    let f = match name_of(get(pairs, "f")) {
        Some(k) => Function(k.clone()),
        None => {
            return Err(error_of("missing or malformed `:f`"));
        },
    };
    let value = match get(pairs, "value") {
        Some(x) => clone_value(x),
        None => Value::Nil,
    };
    Ok(OpEntry { index, time: Time { nanos, clock }, kind, process: ProcessId(process), f, value })
}

// ---------------------------------------------------------------------------
// Lines and vectors
// ---------------------------------------------------------------------------

/// Appending an entry appends its line.
pub proof fn lemma_history_edn_push(h: Seq<EntryV>, e: EntryV)
    ensures
        history_edn(h.push(e)) == history_edn(h) + edn_text(entry_value(e)) + seq!['\n'],
    decreases h.len(),
{
    if h.len() == 0 {
        assert(h.push(e).drop_first() =~= Seq::<EntryV>::empty());
        assert(h.push(e)[0] == e);
        assert(history_edn(Seq::<EntryV>::empty()) == Seq::<char>::empty());
        assert(history_edn(h) == Seq::<char>::empty());
        assert(history_edn(h.push(e)) =~= history_edn(h) + edn_text(entry_value(e)) + seq!['\n']);
    } else {
        lemma_history_edn_push(h.drop_first(), e);
        assert(h.push(e).drop_first() =~= h.drop_first().push(e));
        assert(h.push(e)[0] == h[0]);
        assert(history_edn(h.push(e)) =~= history_edn(h) + edn_text(entry_value(e)) + seq!['\n']);
    }
}

/// The line ranges of `v`, as `str::lines` splits it.
pub fn split_lines(v: &Vec<char>) -> (r: Vec<(usize, usize)>)
    ensures
        r.len() == lines(v@).len(),
        forall|i: int| 0 <= i < r.len() ==> (#[trigger] r[i]).0 <= r[i].1 <= v.len(),
        forall|i: int|
            0 <= i < r.len() ==> #[trigger] v@.subrange(r[i].0 as int, r[i].1 as int)
                == lines(v@)[i],
{
    let mut r: Vec<(usize, usize)> = Vec::new();
    let mut start: usize = 0;
    let n = v.len();
    assert(v@.subrange(0, n as int) =~= v@);
    while start < n
        invariant
            start <= n == v.len(),
            lines(v@) =~= Seq::new(r.len() as nat, |i: int| v@.subrange(r[i].0 as int, r[i].1 as int))
                + lines(v@.subrange(start as int, n as int)),
            forall|i: int| 0 <= i < r.len() ==> (#[trigger] r[i]).0 <= r[i].1 <= v.len(),
        decreases n - start,
    {
        let ghost s = v@.subrange(start as int, n as int);
        let ghost before = r@;
        let k = find_in(v, start, n, '\n');
        if k < n {
            let mut e = k;
            if k > start && v[k - 1] == '\r' {
                e = k - 1;
            }
            r.push((start, e));
            proof {
                assert(s.take(k - start) =~= v@.subrange(start as int, k as int));
                assert(s.skip(k - start + 1) =~= v@.subrange(k + 1, n as int));
                if k > start && v@[k - 1] == '\r' {
                    assert(s.take(k - start).last() == v@[k - 1]);
                    assert(s.take(k - start).drop_last() =~= v@.subrange(start as int, e as int));
                } else {
                    assert(v@.subrange(start as int, e as int) =~= s.take(k - start));
                }
                assert(lines(s) == seq![v@.subrange(start as int, e as int)] + lines(v@.subrange(k + 1, n as int)));
            }
            start = k + 1;
        } else {
            r.push((start, n));
            proof {
                assert(lines(s) == seq![s]);
                assert(lines(v@.subrange(n as int, n as int)) =~= Seq::<Seq<char>>::empty());
            }
            start = n;
        }
    }
    r
}

/// Whether `v[lo..hi]` looks like JSON.
fn looks_like_json(v: &Vec<char>, lo: usize, hi: usize) -> (r: bool)
    requires
        lo <= hi <= v.len(),
    ensures
        r == looks_json(v@.subrange(lo as int, hi as int)),
{
    let ghost s = v@.subrange(lo as int, hi as int);
    let i = find_in(v, lo, hi, '{');
    if i < hi {
        let j = skip_leading_ws(v, i + 1, hi);
        proof {
            assert(s.skip(i - lo + 1) =~= v@.subrange(i + 1, hi as int));
            let rest = trim_start(s.skip(i - lo + 1));
            assert(rest =~= v@.subrange(j as int, hi as int));
        }
        j < hi && v[j] == '"'
    } else {
        false
    }
}

impl History {
    /// A history of the given entries, in order.
    pub fn new(entries: Vec<OpEntry>) -> (h: History)
        ensures
            h@ == entries_view(entries@),
    {
        History(entries)
    }

    /// The entries in recorded order.
    pub fn entries(&self) -> (s: &[OpEntry])
        ensures
            s@ == self.0@,
    {
        self.0.as_slice()
    }

    /// Render as Jepsen-shaped EDN, one operation map per line:
    /// `{:index 0, :time 0, :clock :virtual, :type :invoke, :process 0, :f :read, :value nil}`.
    pub fn to_jepsen_edn(&self) -> (s: String)
        ensures
            s@ == history_edn(self@),
    {
        let mut out: Vec<char> = Vec::new();
        let ghost h = self@;
        let mut i: usize = 0;
        assert(h.take(0) =~= Seq::<EntryV>::empty());
        while i < self.0.len()
            invariant
                i <= self.0.len(),
                h == self@,
                h.len() == self.0.len(),
                out@ == history_edn(h.take(i as int)),
            decreases self.0.len() - i,
        {
            let v = entry_to_value(&self.0[i]);
            write_edn(&mut out, &v);
            out.push('\n');
            proof {
                lemma_history_edn_push(h.take(i as int), h[i as int]);
                assert(h.take(i as int).push(h[i as int]) =~= h.take(i + 1));
            }
            i = i + 1;
        }
        assert(h.take(self.0.len() as int) =~= h);
        string_of(&out)
    }

    /// Render as one JSON array of operation objects.
    pub fn to_jepsen_json(&self) -> (s: String)
        ensures
            s@ == history_json(self@),
    {
        let mut out: Vec<char> = Vec::new();
        let ghost vals = history_values(self@);
        out.push('[');
        let mut i: usize = 0;
        assert(vals.take(0) =~= Seq::<VValue>::empty());
        while i < self.0.len()
            invariant
                i <= self.0.len(),
                vals == history_values(self@),
                vals.len() == self.0.len(),
                out@ == seq!['['] + crate::history::edn_spec::json_items(vals.take(i as int)),
            decreases self.0.len() - i,
        {
            if i > 0 {
                out.push(',');
            }
            let v = entry_to_value(&self.0[i]);
            write_json(&mut out, &v);
            proof {
                assert(vals.take(i + 1).drop_last() =~= vals.take(i as int));
                assert(vals.take(i + 1).last() == vals[i as int]);
                if i == 0 {
                    assert(vals.take(1)[0] == vals[0]);
                }
            }
            i = i + 1;
        }
        out.push(']');
        assert(vals.take(self.0.len() as int) =~= vals);
        string_of(&out)
    }
}

// ---------------------------------------------------------------------------
// Executable reader
// ---------------------------------------------------------------------------

/// `es` in front of the entries of an outcome.
pub open spec fn prepend(es: Seq<EntryV>, r: Ingest) -> Ingest {
    match r {
        Ingest::Entries(x) => Ingest::Entries(es + x),
        other => other,
    }
}

/// If a list converts, so does each of its prefixes.
pub proof fn lemma_entries_of_prefix(s: Seq<VValue>, k: int)
    requires
        0 <= k <= s.len(),
        entries_of(s) is Some,
    ensures
        entries_of(s.take(k)) is Some,
    decreases s.len(),
{
    if k == s.len() {
        assert(s.take(k) =~= s);
    } else {
        lemma_entries_of_prefix(s.drop_last(), k);
        assert(s.drop_last().take(k) =~= s.take(k));
    }
}

/// One step of reading lines from index `i`.
pub proof fn lemma_read_lines_step(ls: Seq<Seq<char>>, i: int)
    requires
        0 <= i < ls.len(),
    ensures
        read_lines(ls.skip(i)) == (if trim(ls[i]).len() == 0 {
            read_lines(ls.skip(i + 1))
        } else {
            match edn_parse(ls[i]) {
                PRes::Stuck => Ingest::Stuck,
                PRes::Reject(m) => Ingest::Refused(m),
                PRes::Done(v, _) => match entry_of(v) {
                    None => Ingest::Refused(entry_error(v)),
                    Some(e) => prepend(seq![e], read_lines(ls.skip(i + 1))),
                },
            }
        }),
{
    let rest = ls.skip(i);
    assert(rest[0] == ls[i]);
    assert(rest.drop_first() =~= ls.skip(i + 1));
}

/// Prepending twice is prepending the concatenation.
pub proof fn lemma_prepend_push(es: Seq<EntryV>, e: EntryV, r: Ingest)
    ensures
        prepend(es, prepend(seq![e], r)) == prepend(es.push(e), r),
{
    match r {
        Ingest::Entries(x) => {
            assert(es + (seq![e] + x) =~= es.push(e) + x);
        },
        _ => {},
    }
}

/// Whether the trimmed line `v[a..b]` is empty.
fn is_blank(v: &Vec<char>, a: usize, b: usize) -> (r: bool)
    requires
        a <= b <= v.len(),
    ensures
        r == (trim(v@.subrange(a as int, b as int)).len() == 0),
{
    let ghost l = v@.subrange(a as int, b as int);
    let lo = skip_leading_ws(v, a, b);
    proof {
        crate::text::lemma_leading_ws_bound(l);
        let x = trim_start(l);
        crate::text::lemma_trailing_ws_bound(x);
        if lo < b {
            assert(x.len() > 0);
            if crate::text::trailing_ws(x) == x.len() {
                assert(crate::text::is_unicode_ws(x[0]));
                assert(x[0] == l[leading_ws_of(l)]);
            }
        }
    }
    lo == b
}

/// The leading whitespace count of a line (as an `int`).
pub open spec fn leading_ws_of(l: Seq<char>) -> int {
    crate::text::leading_ws(l) as int
}

/// Read the single vector of operation maps in `v[lo..n]`.
fn read_vector_exec(v: &Vec<char>, lo: usize, n: usize) -> (r: (Result<History, ParseError>, bool))
    requires
        lo <= n == v.len(),
    ensures
        r.1 == (read_vector(v@.subrange(lo as int, n as int)) is Stuck),
        match read_vector(v@.subrange(lo as int, n as int)) {
            Ingest::Entries(es) => r.0 is Ok && r.0->Ok_0@ == es,
            Ingest::Refused(m) => r.0 matches Err(e) && e.message_view() == m,
            Ingest::Stuck => r.0 is Err,
        },
{
    let ghost t = v@.subrange(lo as int, n as int);
    let text = string_of_range(v, lo, n);
    let json = looks_like_json(v, lo, n);
    let (parsed, stuck) = if json {
        json_read(text.as_str())
    } else {
        edn_read(text.as_str())
    };
    let items = match parsed {
        Ok(Value::List(items)) => items,
        Ok(_) => {
            return (Err(error_of("expected a vector of op maps")), false);
        },
        Err(e) => {
            return (Err(e), stuck);
        },
    };
    let ghost vs = crate::history::op::values_view(items@);
    proof {
        lemma_values_view(items@);
    }
    assert(read_vector(t) == match entries_of(vs) {
        Some(es) => Ingest::Entries(es),
        None => Ingest::Refused(first_entry_error(vs)),
    });
    assert(vs.skip(0) =~= vs);
    let mut entries: Vec<OpEntry> = Vec::new();
    let mut i: usize = 0;
    assert(vs.take(0) =~= Seq::<VValue>::empty());
    assert(entries_view(entries@) =~= Seq::<EntryV>::empty());
    while i < items.len()
        invariant
            i <= items.len(),
            vs == crate::history::op::values_view(items@),
            vs.len() == items@.len(),
            forall|k: int| 0 <= k < items@.len() ==> #[trigger] vs[k] == items@[k]@,
            entries_of(vs.take(i as int)) == Some(entries_view(entries@)),
            t == v@.subrange(lo as int, n as int),
            read_vector(t) == match entries_of(vs) {
                Some(es) => Ingest::Entries(es),
                None => Ingest::Refused(first_entry_error(vs)),
            },
            first_entry_error(vs) == first_entry_error(vs.skip(i as int)),
        decreases items.len() - i,
    {
        assert(vs.take(i + 1).drop_last() =~= vs.take(i as int));
        assert(vs.take(i + 1).last() == vs[i as int]);
        assert(vs.skip(i as int)[0] == vs[i as int]);
        assert(vs.skip(i as int).drop_first() =~= vs.skip(i + 1));
        match value_to_entry(&items[i]) {
            Ok(e) => {
                let ghost before = entries@;
                entries.push(e);
                assert(entries_view(entries@) =~= entries_view(before).push(e@));
            },
            Err(err) => {
                proof {
                    assert(entries_of(vs.take(i + 1)) is None);
                    if entries_of(vs) is Some {
                        lemma_entries_of_prefix(vs, i + 1);
                        assert(false);
                    }
                }
                return (Err(err), false);
            },
        }
        i = i + 1;
    }
    assert(vs.take(items.len() as int) =~= vs);
    (Ok(History(entries)), false)
}

/// Read line-delimited operation maps from `v`.
fn read_lines_exec(v: &Vec<char>) -> (r: (Result<History, ParseError>, bool))
    ensures
        r.1 == (read_lines(lines(v@)) is Stuck),
        match read_lines(lines(v@)) {
            Ingest::Entries(es) => r.0 is Ok && r.0->Ok_0@ == es,
            Ingest::Refused(m) => r.0 matches Err(e) && e.message_view() == m,
            Ingest::Stuck => r.0 is Err,
        },
{
    let ghost ls = lines(v@);
    let ranges = split_lines(v);
    let mut entries: Vec<OpEntry> = Vec::new();
    let mut i: usize = 0;
    assert(ls.skip(0) =~= ls);
    assert(entries_view(entries@) =~= Seq::<EntryV>::empty());
    assert(read_lines(ls) == prepend(entries_view(entries@), read_lines(ls.skip(0)))) by {
        match read_lines(ls) {
            Ingest::Entries(x) => {
                assert(Seq::<EntryV>::empty() + x =~= x);
            },
            _ => {},
        }
    }
    while i < ranges.len()
        invariant
            i <= ranges.len() == ls.len(),
            ls == lines(v@),
            forall|k: int| 0 <= k < ranges.len() ==> (#[trigger] ranges[k]).0 <= ranges[k].1 <= v.len(),
            forall|k: int|
                0 <= k < ranges.len() ==> #[trigger] v@.subrange(ranges[k].0 as int, ranges[k].1 as int)
                    == ls[k],
            read_lines(ls) == prepend(entries_view(entries@), read_lines(ls.skip(i as int))),
        decreases ranges.len() - i,
    {
        let (a, b) = ranges[i];
        let ghost l = ls[i as int];
        proof {
            lemma_read_lines_step(ls, i as int);
            assert(ls.skip(i as int)[0] == ls[i as int]);
            assert(ls.skip(i as int).drop_first() =~= ls.skip(i + 1));
            assert(v@.subrange(ranges[i as int].0 as int, ranges[i as int].1 as int) == ls[i as int]);
            assert(v@.subrange(a as int, b as int) == l);
        }
        if !is_blank(v, a, b) {
            let line = string_of_range(v, a, b);
            let (parsed, stuck) = edn_read(line.as_str());
            let val = match parsed {
                Ok(x) => x,
                Err(e) => {
                    return (Err(e), stuck);
                },
            };
            let e = match value_to_entry(&val) {
                Ok(e) => e,
                Err(err) => {
                    return (Err(err), false);
                },
            };
            let ghost before = entries@;
            entries.push(e);
            proof {
                assert(entries_view(entries@) =~= entries_view(before).push(e@));
                lemma_prepend_push(entries_view(before), e@, read_lines(ls.skip(i + 1)));
            }
        }
        i = i + 1;
    }
    assert(ls.skip(ranges.len() as int) =~= Seq::<Seq<char>>::empty());
    assert(entries_view(entries@) + Seq::<EntryV>::empty() =~= entries_view(entries@));
    (Ok(History(entries)), false)
}

impl History {
    /// Ingest a Jepsen history: either one EDN operation map per line (as
    /// [`History::to_jepsen_edn`] writes and Jepsen `store/` histories hold),
    /// or a single EDN/JSON vector of operation maps.
    pub fn from_jepsen(s: &str) -> (r: Result<History, ParseError>)
        requires
            !(read_history(s@) is Stuck),
        ensures
            match read_history(s@) {
                Ingest::Entries(es) => r is Ok && r->Ok_0@ == es,
                Ingest::Refused(m) => r matches Err(e) && e.message_view() == m,
                Ingest::Stuck => r is Err,
            },
    {
        read_jepsen(s).0
    }

    /// `from_jepsen` on any text: `None` exactly where the reader cannot
    /// continue (input on which `from_jepsen` is not defined), else what
    /// `from_jepsen` gives.
    pub fn from_jepsen_checked(s: &str) -> (r: Option<Result<History, ParseError>>)
        ensures
            match read_history(s@) {
                Ingest::Entries(es) => r matches Some(Ok(h)) && h@ == es,
                Ingest::Refused(m) => r matches Some(Err(e)) && e.message_view() == m,
                Ingest::Stuck => r is None,
            },
    {
        let (r, stuck) = read_jepsen(s);
        if stuck {
            None
        } else {
            Some(r)
        }
    }
}

/// Read a Jepsen history on any text; the flag says whether the reader met
/// input it cannot continue on.
fn read_jepsen(s: &str) -> (r: (Result<History, ParseError>, bool))
    ensures
        r.1 == (read_history(s@) is Stuck),
        match read_history(s@) {
            Ingest::Entries(es) => r.0 is Ok && r.0->Ok_0@ == es,
            Ingest::Refused(m) => r.0 matches Err(e) && e.message_view() == m,
            Ingest::Stuck => r.0 is Err,
        },
{
    let v = chars_of(s);
    let n = v.len();
    let lo = skip_leading_ws(&v, 0, n);
    assert(v@.subrange(0, n as int) =~= s@);
    assert(trim_start(s@) =~= v@.subrange(lo as int, n as int));
    if lo < n && (v[lo] == '[' || v[lo] == '(') {
        return read_vector_exec(&v, lo, n);
    }
    read_lines_exec(&v)
}

/// The first position at which two histories record different entries,
/// within their common length.
pub fn first_divergence(a: &History, b: &History) -> (r: Option<usize>)
    ensures
        match r {
            Some(p) => p < a@.len() && p < b@.len() && a@[p as int] != b@[p as int] && forall|q: int|
                0 <= q < p ==> #[trigger] a@[q] == b@[q],
            None => forall|q: int| 0 <= q < a@.len() && q < b@.len() ==> #[trigger] a@[q] == b@[q],
        },
{
    let xs = a.entries();
    let ys = b.entries();
    let mut i: usize = 0;
    while i < xs.len() && i < ys.len()
        invariant
            xs@ == a.0@,
            ys@ == b.0@,
            i <= xs.len(),
            i <= ys.len(),
            forall|q: int| 0 <= q < i ==> #[trigger] a@[q] == b@[q],
        decreases xs.len() - i,
    {
        if !entries_equal(&xs[i], &ys[i]) {
            return Some(i);
        }
        i = i + 1;
    }
    None
}

} // verus!
