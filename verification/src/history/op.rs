//! The operation-entry model — Jepsen's history shape.

use vstd::prelude::*;

use crate::history::time::{Clock, Time};
use crate::history::writer::{lemma_pairs_view, lemma_values_view};
use crate::text::{chars_of, string_of};

verus! {

/// A process (logical client/actor) in the history.
#[derive(Clone, Copy, Debug, PartialEq, Eq, Hash, PartialOrd, Ord)]
pub struct ProcessId(pub u64);

/// The lifecycle kind of an operation entry — Jepsen's `:type`.
///
/// An operation is invoked, then completes as a success (`:ok`), a definite
/// failure (`:fail`), or an indeterminate outcome (`:info`).
#[derive(Clone, Copy, Debug, PartialEq, Eq, Hash)]
pub enum OpKind {
    /// The operation was issued (`:invoke`).
    Invoke,
    /// The operation succeeded (`:ok`).
    Success,
    /// The operation definitely did not take effect (`:fail`).
    Fail,
    /// The operation's outcome is indeterminate (`:info`).
    Info,
}

/// The Jepsen `:type` keyword name of a kind (without the leading colon).
pub open spec fn kind_keyword(k: OpKind) -> Seq<char> {
    match k {
        OpKind::Invoke => "invoke"@,
        OpKind::Success => "ok"@,
        OpKind::Fail => "fail"@,
        OpKind::Info => "info"@,
    }
}

/// The kind whose keyword name is `s`, if any.
pub open spec fn kind_from_keyword(s: Seq<char>) -> Option<OpKind> {
    if s == "invoke"@ {
        Some(OpKind::Invoke)
    } else if s == "ok"@ {
        Some(OpKind::Success)
    } else if s == "fail"@ {
        Some(OpKind::Fail)
    } else if s == "info"@ {
        Some(OpKind::Info)
    } else {
        None
    }
}

/// Whether `v` spells exactly the characters `lit`.
pub fn chars_eq(v: &Vec<char>, lo: usize, hi: usize, lit: &str) -> (r: bool)
    requires
        lo <= hi <= v.len(),
    ensures
        r == (v@.subrange(lo as int, hi as int) == lit@),
{
    let l = chars_of(lit);
    if hi - lo != l.len() {
        return false;
    }
    let mut i: usize = 0;
    while i < l.len()
        invariant
            i <= l.len(),
            hi - lo == l.len(),
            lo <= hi <= v.len(),
            l@ == lit@,
            forall|k: int| 0 <= k < i ==> v@[lo + k] == l@[k],
        decreases l.len() - i,
    {
        if v[lo + i] != l[i] {
            assert(v@.subrange(lo as int, hi as int)[i as int] != lit@[i as int]);
            return false;
        }
        i = i + 1;
    }
    assert(v@.subrange(lo as int, hi as int) =~= lit@);
    true
}

impl OpKind {
    /// The Jepsen `:type` keyword name (without the leading colon).
    pub fn keyword(self) -> (s: &'static str)
        ensures
            s@ == kind_keyword(self),
    {
        match self {
            OpKind::Invoke => "invoke",
            OpKind::Success => "ok",
            OpKind::Fail => "fail",
            OpKind::Info => "info",
        }
    }

    /// Parse a Jepsen `:type` keyword name.
    pub fn from_keyword(s: &str) -> (r: Option<OpKind>)
        ensures
            r == kind_from_keyword(s@),
    {
        let v = chars_of(s);
        assert(v@.subrange(0, v.len() as int) =~= v@);
        Self::from_keyword_chars(&v, 0, v.len())
    }

    /// Parse a Jepsen `:type` keyword name spelled by `v[lo..hi]`.
    pub fn from_keyword_chars(v: &Vec<char>, lo: usize, hi: usize) -> (r: Option<OpKind>)
        requires
            lo <= hi <= v.len(),
        ensures
            r == kind_from_keyword(v@.subrange(lo as int, hi as int)),
    {
        if chars_eq(v, lo, hi, "invoke") {
            Some(OpKind::Invoke)
        } else if chars_eq(v, lo, hi, "ok") {
            Some(OpKind::Success)
        } else if chars_eq(v, lo, hi, "fail") {
            Some(OpKind::Fail)
        } else if chars_eq(v, lo, hi, "info") {
            Some(OpKind::Info)
        } else {
            None
        }
    }
}

/// The operation function — Jepsen's `:f` (e.g. `:txn`, `:read`, `:write`),
/// kept as an open-ended keyword name.
#[derive(Clone, Debug, PartialEq, Eq, Hash, PartialOrd, Ord)]
pub struct Function(pub String);

impl Function {
    /// Build a function from its name.
    pub fn new(name: &str) -> (f: Function)
        ensures
            f.0@ == name@,
    {
        let v = chars_of(name);
        Function(string_of(&v))
    }

    /// The function name (no leading colon).
    pub fn as_str(&self) -> (s: &str)
        ensures
            s@ == self.0@,
    {
        self.0.as_str()
    }
}

impl From<String> for Function {
    fn from(name: String) -> (f: Function) {
        Function(name)
    }
}

impl vstd::std_specs::convert::FromSpecImpl<String> for Function {
    open spec fn obeys_from_spec() -> bool {
        true
    }

    open spec fn from_spec(name: String) -> Function {
        Function(name)
    }
}

impl From<&str> for Function {
    fn from(name: &str) -> (f: Function)
        ensures
            f.0@ == name@,
    {
        Function::new(name)
    }
}

impl vstd::std_specs::convert::FromSpecImpl<&str> for Function {
    /// Two strings with the same characters are not known to be the same
    /// value, so no single spec value is promised; `from` states the name.
    open spec fn obeys_from_spec() -> bool {
        false
    }

    open spec fn from_spec(name: &str) -> Function {
        choose|f: Function| f.0@ == name@
    }
}

/// A self-describing op payload / return value.
///
/// `Float` holds the decimal text of a floating-point number (as EDN and
/// JSON spell it; an infinity or NaN is written back as `nil`, in JSON too);
/// `Mapping` is a map whose keys are themselves values.
#[derive(Debug, PartialEq)]
pub enum Value {
    /// EDN `nil` / JSON `null`.
    Nil,
    /// A boolean.
    Bool(bool),
    /// A 64-bit signed integer.
    Int(i64),
    /// A floating-point number, by its text.
    Float(String),
    /// A string.
    Str(String),
    /// An EDN keyword (`:foo`), without the colon.
    Keyword(String),
    /// An ordered list — EDN vector / JSON array.
    List(Vec<Value>),
    /// A map — EDN `{..}` / JSON object.
    Mapping(Vec<(Value, Value)>),
}

/// The mathematical model of a [`Value`].
pub enum VValue {
    Nil,
    Bool(bool),
    Int(i64),
    Float(Seq<char>),
    Str(Seq<char>),
    Keyword(Seq<char>),
    List(Seq<VValue>),
    Mapping(Seq<(VValue, VValue)>),
}

/// The model of a value.
pub open spec fn value_view(v: Value) -> VValue
    decreases v,
{
    match v {
        Value::Nil => VValue::Nil,
        Value::Bool(b) => VValue::Bool(b),
        Value::Int(i) => VValue::Int(i),
        Value::Float(t) => VValue::Float(t@),
        Value::Str(t) => VValue::Str(t@),
        Value::Keyword(t) => VValue::Keyword(t@),
        Value::List(items) => VValue::List(values_view(items@)),
        Value::Mapping(pairs) => VValue::Mapping(pairs_view(pairs@)),
    }
}

/// The models of a sequence of values.
pub open spec fn values_view(s: Seq<Value>) -> Seq<VValue>
    decreases s,
{
    if s.len() == 0 {
        Seq::empty()
    } else {
        values_view(s.drop_last()).push(value_view(s.last()))
    }
}

/// The models of a sequence of key/value pairs.
pub open spec fn pairs_view(s: Seq<(Value, Value)>) -> Seq<(VValue, VValue)>
    decreases s,
{
    if s.len() == 0 {
        Seq::empty()
    } else {
        pairs_view(s.drop_last()).push((value_view(s.last().0), value_view(s.last().1)))
    }
}

impl View for Value {
    type V = VValue;

    open spec fn view(&self) -> VValue {
        value_view(*self)
    }
}

impl Value {
    /// An EDN keyword value.
    pub fn keyword(name: &str) -> (v: Value)
        ensures
            v@ == VValue::Keyword(name@),
    {
        let c = chars_of(name);
        Value::Keyword(string_of(&c))
    }
}

/// A deep copy of a value.
pub fn clone_value(v: &Value) -> (r: Value)
    ensures
        r@ == v@,
    decreases v,
{
    match v {
        Value::Nil => Value::Nil,
        Value::Bool(b) => Value::Bool(*b),
        Value::Int(i) => Value::Int(*i),
        Value::Float(t) => Value::Float(t.clone()),
        Value::Str(t) => Value::Str(t.clone()),
        Value::Keyword(t) => Value::Keyword(t.clone()),
        Value::List(items) => {
            let mut out: Vec<Value> = Vec::new();
            let mut i: usize = 0;
            assert(items@.take(0) =~= Seq::<Value>::empty());
            while i < items.len()
                invariant
                    i <= items.len(),
                    *v == Value::List(*items),
                    values_view(out@) == values_view(items@.take(i as int)),
                decreases items.len() - i,
            {
                proof {
                    vstd::std_specs::vec::axiom_vec_index_decreases(*items, i as int);
                    assert(decreases_to!(*v => (*v)->List_0));
                }
                let c = clone_value(&items[i]);
                let ghost before = out@;
                out.push(c);
                proof {
                    assert(out@.drop_last() =~= before);
                    assert(items@.take(i + 1).drop_last() =~= items@.take(i as int));
                    assert(items@.take(i + 1).last() == items@[i as int]);
                }
                i = i + 1;
            }
            assert(items@.take(items.len() as int) =~= items@);
            Value::List(out)
        },
        Value::Mapping(pairs) => {
            let mut out: Vec<(Value, Value)> = Vec::new();
            let mut i: usize = 0;
            assert(pairs@.take(0) =~= Seq::<(Value, Value)>::empty());
            while i < pairs.len()
                invariant
                    i <= pairs.len(),
                    *v == Value::Mapping(*pairs),
                    pairs_view(out@) == pairs_view(pairs@.take(i as int)),
                decreases pairs.len() - i,
            {
                proof {
                    vstd::std_specs::vec::axiom_vec_index_decreases(*pairs, i as int);
                    assert(decreases_to!(*v => (*v)->Mapping_0));
                    assert(decreases_to!(pairs[i as int] => pairs[i as int].0));
                    assert(decreases_to!(pairs[i as int] => pairs[i as int].1));
                }
                let k = clone_value(&pairs[i].0);
                let x = clone_value(&pairs[i].1);
                let ghost before = out@;
                out.push((k, x));
                proof {
                    assert(out@.drop_last() =~= before);
                    assert(pairs@.take(i + 1).drop_last() =~= pairs@.take(i as int));
                    assert(pairs@.take(i + 1).last() == pairs@[i as int]);
                }
                i = i + 1;
            }
            assert(pairs@.take(pairs.len() as int) =~= pairs@);
            Value::Mapping(out)
        },
    }
}

/// Whether two values are the same value.
pub fn values_equal(a: &Value, b: &Value) -> (r: bool)
    ensures
        r == (a@ == b@),
    decreases a,
{
    match a {
        Value::Nil => matches!(b, Value::Nil),
        Value::Bool(x) => match b {
            Value::Bool(y) => *x == *y,
            _ => false,
        },
        Value::Int(x) => match b {
            Value::Int(y) => *x == *y,
            _ => false,
        },
        Value::Float(x) => match b {
            Value::Float(y) => *x == *y,
            _ => false,
        },
        Value::Str(x) => match b {
            Value::Str(y) => *x == *y,
            _ => false,
        },
        Value::Keyword(x) => match b {
            Value::Keyword(y) => *x == *y,
            _ => false,
        },
        Value::List(xs) => match b {
            Value::List(ys) => {
                proof {
                    lemma_values_view(xs@);
                    lemma_values_view(ys@);
                }
                if xs.len() != ys.len() {
                    return false;
                }
                let mut i: usize = 0;
                while i < xs.len()
                    invariant
                        i <= xs.len(),
                        xs.len() == ys.len(),
                        *a == Value::List(*xs),
                        *b == Value::List(*ys),
                        values_view(xs@).len() == xs@.len(),
                        values_view(ys@).len() == ys@.len(),
                        forall|k: int| 0 <= k < xs@.len() ==> #[trigger] values_view(xs@)[k] == value_view(xs@[k]),
                        forall|k: int| 0 <= k < ys@.len() ==> #[trigger] values_view(ys@)[k] == value_view(ys@[k]),
                        forall|k: int| 0 <= k < i ==> #[trigger] value_view(xs@[k]) == value_view(ys@[k]),
                    decreases xs.len() - i,
                {
                    proof {
                        vstd::std_specs::vec::axiom_vec_index_decreases(*xs, i as int);
                        assert(decreases_to!(*a => (*a)->List_0));
                    }
                    if !values_equal(&xs[i], &ys[i]) {
                        assert(values_view(xs@)[i as int] != values_view(ys@)[i as int]);
                        return false;
                    }
                    i = i + 1;
                }
                assert(values_view(xs@) =~= values_view(ys@));
                true
            },
            _ => false,
        },
        Value::Mapping(ps) => match b {
            Value::Mapping(qs) => {
                proof {
                    lemma_pairs_view(ps@);
                    lemma_pairs_view(qs@);
                }
                if ps.len() != qs.len() {
                    return false;
                }
                let mut i: usize = 0;
                while i < ps.len()
                    invariant
                        i <= ps.len(),
                        ps.len() == qs.len(),
                        *a == Value::Mapping(*ps),
                        *b == Value::Mapping(*qs),
                        pairs_view(ps@).len() == ps@.len(),
                        pairs_view(qs@).len() == qs@.len(),
                        forall|k: int| 0 <= k < ps@.len() ==> #[trigger] pairs_view(ps@)[k] == (value_view(ps@[k].0), value_view(ps@[k].1)),
                        forall|k: int| 0 <= k < qs@.len() ==> #[trigger] pairs_view(qs@)[k] == (value_view(qs@[k].0), value_view(qs@[k].1)),
                        forall|k: int| 0 <= k < i ==> #[trigger] pairs_view(ps@)[k] == pairs_view(qs@)[k],
                    decreases ps.len() - i,
                {
                    proof {
                        vstd::std_specs::vec::axiom_vec_index_decreases(*ps, i as int);
                        assert(decreases_to!(*a => (*a)->Mapping_0));
                        assert(decreases_to!(ps[i as int] => ps[i as int].0));
                        assert(decreases_to!(ps[i as int] => ps[i as int].1));
                    }
                    if !values_equal(&ps[i].0, &qs[i].0) {
                        assert(pairs_view(ps@)[i as int] != pairs_view(qs@)[i as int]);
                        return false;
                    }
                    if !values_equal(&ps[i].1, &qs[i].1) {
                        assert(pairs_view(ps@)[i as int] != pairs_view(qs@)[i as int]);
                        return false;
                    }
                    i = i + 1;
                }
                assert(pairs_view(ps@) =~= pairs_view(qs@));
                true
            },
            _ => false,
        },
    }
}

impl Clone for Value {
    fn clone(&self) -> (r: Value)
        ensures
            r@ == self@,
    {
        clone_value(self)
    }
}

/// One entry in a [`History`](crate::history::log::History) — Jepsen's
/// operation map `{:index i :time t :type :ok :process p :f :read :value v}`.
#[derive(Clone, Debug, PartialEq)]
pub struct OpEntry {
    /// Monotonic position in the history.
    pub index: u64,
    /// Timestamp, carrying its clock provenance.
    pub time: Time,
    /// Lifecycle kind (`:type`).
    pub kind: OpKind,
    /// Issuing process (`:process`).
    pub process: ProcessId,
    /// Operation function (`:f`).
    pub f: Function,
    /// Payload / return value (`:value`).
    pub value: Value,
}

/// The mathematical model of an [`OpEntry`].
pub struct EntryV {
    pub index: u64,
    pub nanos: i64,
    pub clock: Clock,
    pub kind: OpKind,
    pub process: u64,
    pub f: Seq<char>,
    pub value: VValue,
}

impl View for OpEntry {
    type V = EntryV;

    open spec fn view(&self) -> EntryV {
        EntryV {
            index: self.index,
            nanos: self.time.nanos,
            clock: self.time.clock,
            kind: self.kind,
            process: self.process.0,
            f: self.f.0@,
            value: self.value@,
        }
    }
}

/// Whether two entries record the same operation step.
pub fn entries_equal(x: &OpEntry, y: &OpEntry) -> (r: bool)
    ensures
        r == (x@ == y@),
{
    let same_clock = match (x.time.clock, y.time.clock) {
        (Clock::Virtual, Clock::Virtual) => true,
        (Clock::Wall, Clock::Wall) => true,
        _ => false,
    };
    let same_kind = match (x.kind, y.kind) {
        (OpKind::Invoke, OpKind::Invoke) => true,
        (OpKind::Success, OpKind::Success) => true,
        (OpKind::Fail, OpKind::Fail) => true,
        (OpKind::Info, OpKind::Info) => true,
        _ => false,
    };
    x.index == y.index && x.time.nanos == y.time.nanos && same_clock && same_kind && x.process.0
        == y.process.0 && x.f.0 == y.f.0 && values_equal(&x.value, &y.value)
}

} // verus!
