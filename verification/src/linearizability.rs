//! Porcupine-style linearizability: pair each completion of a
//! recorded history with the invoke it closes, decode the pairs through a
//! user sequential model, and search for an order of the operations that
//! the model reproduces, linearizing one callable operation at a time and
//! pruning revisited `(linearized set, state)` nodes.

use vstd::prelude::*;

use vstd::laws_eq::obeys_concrete_eq;

use crate::history::log::History;
use crate::history::op::{values_equal, EntryV, OpEntry, OpKind, Value};
use crate::oracle::{Anomaly, Verdict, Witness};
use crate::text::{chars_of, dec_digits, push_dec_digits, push_str, string_of};

verus! {

/// The reading of a history prefix: the positions of the invokes still open
/// (in order) and the `(invoke, completion)` position pairs found so far.
pub struct SpanScan {
    pub open: Seq<int>,
    pub spans: Seq<(int, int)>,
}

/// The last open invoke (by list position) of `process`, if any.
pub open spec fn last_open_of(h: Seq<EntryV>, open: Seq<int>, process: u64) -> Option<int>
    decreases open.len(),
{
    if open.len() == 0 {
        None
    } else if h[open.last()].process == process {
        Some(open.len() - 1)
    } else {
        last_open_of(h, open.drop_last(), process)
    }
}

/// Scan the first `n` entries: an invoke opens; a completion closes the
/// most recent open invoke of its process, and only a success (`Ok`) makes
/// the pair a span: a definite failure (`Fail`) never took effect, and an
/// indeterminate outcome (`Info`) may not have, so this pass leaves both out
/// of the order; a completion with no open invoke is ignored.
pub open spec fn scan(h: Seq<EntryV>, n: int) -> SpanScan
    decreases n,
{
    if n <= 0 {
        SpanScan { open: Seq::empty(), spans: Seq::empty() }
    } else {
        let st = scan(h, n - 1);
        let e = h[n - 1];
        if e.kind == OpKind::Invoke {
            SpanScan { open: st.open.push(n - 1), ..st }
        } else {
            match last_open_of(h, st.open, e.process) {
                None => st,
                Some(j) => SpanScan {
                    open: st.open.remove(j),
                    spans: if e.kind != OpKind::Success {
                        st.spans
                    } else {
                        st.spans.push((st.open[j], n - 1))
                    },
                },
            }
        }
    }
}

proof fn lemma_last_open_bounds(h: Seq<EntryV>, open: Seq<int>, process: u64)
    ensures
        last_open_of(h, open, process) matches Some(j) ==> 0 <= j < open.len() && h[open[j]].process
            == process,
    decreases open.len(),
{
    if open.len() > 0 && h[open.last()].process != process {
        lemma_last_open_bounds(h, open.drop_last(), process);
    }
}

/// Pair each completion with the invoke it closes: the `(invoke position,
/// completion position)` spans of the history, in completion order.
pub fn pair_spans(entries: &[OpEntry]) -> (r: Vec<(usize, usize)>)
    ensures
        r@.len() == scan(Seq::new(entries@.len(), |i: int| entries@[i]@), entries@.len() as int).spans.len(),
        forall|k: int|
            0 <= k < r@.len() ==> (#[trigger] r@[k]).0 == scan(
                Seq::new(entries@.len(), |i: int| entries@[i]@),
                entries@.len() as int,
            ).spans[k].0 && r@[k].1 == scan(
                Seq::new(entries@.len(), |i: int| entries@[i]@),
                entries@.len() as int,
            ).spans[k].1,
{
    let ghost h = Seq::new(entries@.len(), |i: int| entries@[i]@);
    let mut open: Vec<usize> = Vec::new();
    let mut spans: Vec<(usize, usize)> = Vec::new();
    let mut pos: usize = 0;
    while pos < entries.len()
        invariant
            pos <= entries.len(),
            h == Seq::new(entries@.len(), |i: int| entries@[i]@),
            open@.len() == scan(h, pos as int).open.len(),
            forall|k: int| 0 <= k < open@.len() ==> #[trigger] open@[k] == scan(h, pos as int).open[k] && open@[k] < pos,
            spans@.len() == scan(h, pos as int).spans.len(),
            forall|k: int|
                0 <= k < spans@.len() ==> (#[trigger] spans@[k]).0 == scan(h, pos as int).spans[k].0
                    && spans@[k].1 == scan(h, pos as int).spans[k].1,
        decreases entries.len() - pos,
    {
        let ghost st = scan(h, pos as int);
        let e = &entries[pos];
        assert(h[pos as int] == e@);
        match e.kind {
            OpKind::Invoke => {
                open.push(pos);
            },
            _ => {
                // the most recent open invoke of this process
                let ghost ov = Seq::new(open@.len(), |k: int| open@[k] as int);
                assert(ov =~= st.open);
                assert(st.open.take(open.len() as int) =~= st.open);
                let mut j: usize = open.len();
                while j > 0 && entries[open[j - 1]].process.0 != e.process.0
                    invariant
                        j <= open@.len(),
                        ov == st.open,
                        forall|k: int| 0 <= k < open@.len() ==> #[trigger] open@[k] < pos,
                        pos < entries.len(),
                        h == Seq::new(entries@.len(), |i: int| entries@[i]@),
                        ov.len() == open@.len(),
                        forall|k: int| 0 <= k < open@.len() ==> #[trigger] ov[k] == open@[k] as int,
                        last_open_of(h, st.open, e.process.0) == last_open_of(h, st.open.take(j as int), e.process.0),
                    decreases j,
                {
                    let ghost t = st.open.take(j as int);
                    assert(t.last() == open@[j - 1] as int);
                    assert(h[t.last()] == entries@[open@[j - 1] as int]@);
                    assert(t.drop_last() =~= st.open.take(j - 1));
                    j = j - 1;
                }
                proof {
                    lemma_last_open_bounds(h, st.open, e.process.0);
                    if j > 0 {
                        let t = st.open.take(j as int);
                        assert(t.last() == open@[j - 1] as int);
                        assert(h[t.last()] == entries@[open@[j - 1] as int]@);
                        assert(last_open_of(h, t, e.process.0) == Some(j - 1));
                    } else {
                        assert(st.open.take(0) =~= Seq::<int>::empty());
                    }
                }
                if j > 0 {
                    let start = open.remove(j - 1);
                    match e.kind {
                        OpKind::Fail | OpKind::Info => {},
                        _ => {
                            spans.push((start, pos));
                        },
                    }
                    proof {
                        assert(Seq::new(open@.len(), |k: int| open@[k] as int) =~= st.open.remove(j - 1));
                    }
                }
            },
        }
        pos = pos + 1;
    }
    spans
}

/// The spans of a recorded history.
pub fn history_spans(h: &History) -> (r: Vec<(usize, usize)>)
    ensures
        r@.len() == scan(h@, h@.len() as int).spans.len(),
        forall|k: int|
            0 <= k < r@.len() ==> (#[trigger] r@[k]).0 == scan(h@, h@.len() as int).spans[k].0
                && r@[k].1 == scan(h@, h@.len() as int).spans[k].1,
{
    let r = pair_spans(h.entries());
    assert(Seq::new(h.0@.len(), |i: int| h.0@[i]@) =~= h@);
    r
}

/// The response a sequential operation must have produced, compared with the
/// recorded value of the completing entry.
#[derive(Clone, Debug, PartialEq)]
pub struct Response(pub Value);

impl Response {
    /// Wrap a value as the expected response of a sequential operation.
    pub fn ok(value: Value) -> (r: Response)
        ensures
            r.0@ == value@,
    {
        Response(value)
    }
}

/// An executable sequential model: the semantics a history is checked
/// against.
pub trait SequentialModel {
    /// The model state, memoized by the search.
    type State: Clone + Eq + std::hash::Hash;
    /// The decoded operation type.
    type Op: Clone;

    /// The initial state.
    fn init(&self) -> Self::State;

    /// Apply `op` to `state`, returning the next state and the response it
    /// must have produced.
    fn step(&self, state: &Self::State, op: &Self::Op) -> (Self::State, Response);

    /// Decode one history operation (the function name and its value
    /// payloads) into a model op plus the response observed on completion.
    fn decode(&self, f: &str, value_invoke: &Value, value_complete: &Value) -> Option<(Self::Op, Response)>;
}

/// Every span the scan finds pairs an earlier invoke with a later
/// completion inside the prefix, and every open invoke lies in the prefix.
proof fn lemma_scan_bounds(h: Seq<EntryV>, n: int)
    requires
        n <= h.len(),
    ensures
        forall|k: int|
            0 <= k < scan(h, n).spans.len() ==> 0 <= (#[trigger] scan(h, n).spans[k]).0
                < scan(h, n).spans[k].1 < n,
        forall|k: int| 0 <= k < scan(h, n).open.len() ==> 0 <= #[trigger] scan(h, n).open[k] < n,
    decreases n,
{
    if n > 0 {
        lemma_scan_bounds(h, n - 1);
        let st = scan(h, n - 1);
        let e = h[n - 1];
        if e.kind != OpKind::Invoke {
            lemma_last_open_bounds(h, st.open, e.process);
            match last_open_of(h, st.open, e.process) {
                Some(j) => {
                    assert forall|k: int| 0 <= k < st.open.remove(j).len() implies 0
                        <= #[trigger] st.open.remove(j)[k] < n by {
                        if k < j {
                            assert(st.open.remove(j)[k] == st.open[k]);
                        } else {
                            assert(st.open.remove(j)[k] == st.open[k + 1]);
                        }
                    }
                },
                None => {},
            }
        }
    }
}

// ---------------------------------------------------------------------------
// The linearization search
// ---------------------------------------------------------------------------

/// A completed operation: the decoded op, the response it must reproduce,
/// and the history positions of its invoke (its real-time start) and its
/// completion (its real-time finish).
pub struct Span<Op> {
    pub op: Op,
    pub response: Response,
    pub start: usize,
    pub finish: usize,
}

/// How many operations `done` has not yet linearized.
pub open spec fn pending(done: Seq<bool>) -> nat
    decreases done.len(),
{
    if done.len() == 0 {
        0
    } else {
        pending(done.drop_last()) + if done.last() {
            0nat
        } else {
            1nat
        }
    }
}

/// Span `i` may be linearized next: it is not linearized yet and, in
/// real-time mode, it started no later than every pending span finished.
pub open spec fn callable<Op>(spans: Seq<Span<Op>>, done: Seq<bool>, real_time: bool, i: int) -> bool {
    &&& 0 <= i < spans.len()
    &&& !done[i]
    &&& real_time ==> forall|j: int|
        0 <= j < spans.len() && !done[j] ==> spans[i].start <= #[trigger] spans[j].finish
}

/// `steps` linearizes the pending spans from `state`: each step names a
/// callable span, a state and a response that the model's `step` may return
/// for that span's op in the current state, the response is the one
/// observed, and after the last step every span is linearized.
pub open spec fn linearizes<M: SequentialModel>(
    m: M,
    spans: Seq<Span<M::Op>>,
    real_time: bool,
    state: M::State,
    done: Seq<bool>,
    steps: Seq<(int, M::State, Response)>,
) -> bool
    decreases steps.len(),
{
    if steps.len() == 0 {
        forall|j: int| 0 <= j < spans.len() ==> #[trigger] done[j]
    } else {
        let i = steps[0].0;
        let next = steps[0].1;
        let resp = steps[0].2;
        &&& callable(spans, done, real_time, i)
        &&& call_ensures(M::step, (&m, &state, &spans[i].op), (next, resp))
        &&& resp.0@ == spans[i].response.0@
        &&& linearizes(m, spans, real_time, next, done.update(i, true), steps.drop_first())
    }
}

/// The pending spans can be linearized from `state`.
pub open spec fn linearizable_from<M: SequentialModel>(
    m: M,
    spans: Seq<Span<M::Op>>,
    real_time: bool,
    state: M::State,
    done: Seq<bool>,
) -> bool {
    exists|steps: Seq<(int, M::State, Response)>| linearizes(m, spans, real_time, state, done, steps)
}

/// The spans can be linearized from a state the model's `init` may return.
pub open spec fn linearizable_spans<M: SequentialModel>(m: M, spans: Seq<Span<M::Op>>, real_time: bool) -> bool {
    spans.len() == 0 || exists|s0: M::State|
        call_ensures(M::init, (&m,), s0) && linearizable_from(
            m,
            spans,
            real_time,
            s0,
            Seq::new(spans.len(), |i: int| false),
        )
}

/// The model's `decode` may return `out` for the invoke at `a` and the
/// completion at `b`.
pub open spec fn decodes_pair<M: SequentialModel>(
    m: M,
    entries: Seq<OpEntry>,
    a: int,
    b: int,
    out: Option<(M::Op, Response)>,
) -> bool {
    exists|f: &str|
        f@ == entries[b].f.0@ && call_ensures(
            M::decode,
            (&m, f, &entries[a].value, &entries[b].value),
            out,
        )
}

/// `spans` is what decoding the `(invoke, completion)` pairs gives: the
/// pairs whose decoding yields an op, in order, each with that op and
/// response.
pub open spec fn decodes_to<M: SequentialModel>(
    m: M,
    entries: Seq<OpEntry>,
    pairs: Seq<(int, int)>,
    spans: Seq<Span<M::Op>>,
) -> bool
    decreases pairs.len(),
{
    if pairs.len() == 0 {
        spans.len() == 0
    } else {
        let a = pairs.last().0;
        let b = pairs.last().1;
        ||| {
            &&& spans.len() > 0
            &&& spans.last().start == a
            &&& spans.last().finish == b
            &&& decodes_pair(m, entries, a, b, Some((spans.last().op, spans.last().response)))
            &&& decodes_to(m, entries, pairs.drop_last(), spans.drop_last())
        }
        ||| {
            &&& decodes_pair(m, entries, a, b, None)
            &&& decodes_to(m, entries, pairs.drop_last(), spans)
        }
    }
}

/// The witness text of a failed search.
pub open spec fn ordering_text(name: Seq<char>, n: nat) -> Seq<char> {
    "no valid "@ + name + " ordering of "@ + dec_digits(n) + " operations"@
}

/// `w` is a free-text witness reading `t`.
pub open spec fn text_witness(w: Option<Witness>, t: Seq<char>) -> bool {
    match w {
        Some(Witness::Text(s)) => s@ == t,
        _ => false,
    }
}

/// The anomaly kind a failed search reports.
pub open spec fn failure_kind(real_time: bool) -> Seq<char> {
    if real_time {
        "non-linearizable"@
    } else {
        "not-sequentially-consistent"@
    }
}

/// The search's memo recognises the nodes it has seen: the state type's `==`
/// is equality, and cloning a state gives the same state. A `u64` state
/// meets this (`lemma_u64_state_memo`), as does any state type for which
/// vstd's equality laws hold.
pub open spec fn memo_keys_behave<M: SequentialModel>() -> bool {
    &&& obeys_concrete_eq::<M::State>()
    &&& forall|a: M::State, b: M::State| #[trigger] cloned::<M::State>(a, b) ==> a == b
}

/// A model whose state is a `u64` meets the memo condition.
pub proof fn lemma_u64_state_memo<M: SequentialModel<State = u64>>()
    ensures
        memo_keys_behave::<M>(),
{
    broadcast use vstd::laws_eq::group_laws_eq;

}

/// The model's `init` and `step` are functions of their arguments.
pub open spec fn model_deterministic<M: SequentialModel>(m: M) -> bool {
    &&& forall|s1: M::State, s2: M::State|
        #[trigger] call_ensures(M::init, (&m,), s1) && #[trigger] call_ensures(M::init, (&m,), s2)
            ==> s1 == s2
    &&& forall|s: M::State, op: M::Op, r1: (M::State, Response), r2: (M::State, Response)|
        #[trigger] call_ensures(M::step, (&m, &s, &op), r1) && #[trigger] call_ensures(
            M::step,
            (&m, &s, &op),
            r2,
        ) ==> r1 == r2
}

/// Every remembered node has the right width, and each one with no more
/// than `p` pending spans cannot be linearized.
pub open spec fn memo_ok<M: SequentialModel>(
    m: M,
    spans: Seq<Span<M::Op>>,
    real_time: bool,
    memo: Seq<(Vec<bool>, M::State)>,
    p: nat,
) -> bool {
    forall|k: int|
        0 <= k < memo.len() ==> (#[trigger] memo[k]).0@.len() == spans.len() && (pending(memo[k].0@) > p
            || !linearizable_from(m, spans, real_time, memo[k].1, memo[k].0@))
}

/// Whether two flag vectors are equal.
fn flags_equal(a: &Vec<bool>, b: &Vec<bool>) -> (r: bool)
    ensures
        r == (a@ == b@),
{
    if a.len() != b.len() {
        return false;
    }
    let mut i: usize = 0;
    while i < a.len()
        invariant
            i <= a.len() == b.len(),
            forall|j: int| 0 <= j < i ==> a@[j] == b@[j],
        decreases a.len() - i,
    {
        if a[i] != b[i] {
            return false;
        }
        i = i + 1;
    }
    assert(a@ =~= b@);
    true
}

/// Whether the memo holds the node `(done, state)`: a `true` names an entry
/// with the same flags and, where the state's `==` is equality, the same
/// state.
fn memo_has<S: PartialEq>(memo: &Vec<(Vec<bool>, S)>, done: &Vec<bool>, state: &S) -> (r: bool)
    ensures
        r && obeys_concrete_eq::<S>() ==> exists|k: int|
            0 <= k < memo@.len() && (#[trigger] memo@[k]).0@ == done@ && memo@[k].1 == *state,
{
    let mut k: usize = 0;
    while k < memo.len()
        invariant
            k <= memo.len(),
        decreases memo.len() - k,
    {
        if flags_equal(&memo[k].0, done) && memo[k].1 == *state {
            proof {
                if obeys_concrete_eq::<S>() {
                    reveal(obeys_concrete_eq);
                    assert(memo@[k as int].0@ == done@ && memo@[k as int].1 == *state);
                }
            }
            return true;
        }
        k = k + 1;
    }
    false
}

proof fn lemma_pending_all_done(done: Seq<bool>)
    requires
        forall|j: int| 0 <= j < done.len() ==> #[trigger] done[j],
    ensures
        pending(done) == 0,
    decreases done.len(),
{
    if done.len() > 0 {
        assert forall|j: int| 0 <= j < done.drop_last().len() implies #[trigger] done.drop_last()[j] by {
            assert(done.drop_last()[j] == done[j]);
        }
        lemma_pending_all_done(done.drop_last());
    }
}

proof fn lemma_pending_zero(done: Seq<bool>)
    ensures
        pending(done) == 0 ==> forall|j: int| 0 <= j < done.len() ==> #[trigger] done[j],
    decreases done.len(),
{
    if done.len() > 0 {
        lemma_pending_zero(done.drop_last());
        assert forall|j: int| 0 <= j < done.len() && pending(done) == 0 implies #[trigger] done[j] by {
            if j < done.len() - 1 {
                assert(done.drop_last()[j] == done[j]);
            }
        }
    }
}

proof fn lemma_pending_update(done: Seq<bool>, i: int)
    requires
        0 <= i < done.len(),
        !done[i],
    ensures
        pending(done.update(i, true)) + 1 == pending(done),
    decreases done.len(),
{
    let u = done.update(i, true);
    if i == done.len() - 1 {
        assert(u.drop_last() =~= done.drop_last());
    } else {
        lemma_pending_update(done.drop_last(), i);
        assert(u.drop_last() =~= done.drop_last().update(i, true));
    }
}

proof fn lemma_pending_none(n: nat)
    ensures
        pending(Seq::new(n, |i: int| false)) == n,
    decreases n,
{
    if n > 0 {
        lemma_pending_none((n - 1) as nat);
        assert(Seq::new(n, |i: int| false).drop_last() =~= Seq::new((n - 1) as nat, |i: int| false));
    }
}

/// A linearizability oracle over a sequential model.
pub struct LinearizabilityOracle<M: SequentialModel> {
    model: M,
    real_time: bool,
    name: String,
}

/// A linearizability oracle for `M`'s semantics, in real-time mode.
pub fn linearizable<M: SequentialModel>(model: M) -> (o: LinearizabilityOracle<M>)
    ensures
        o.model() == model,
        o.real_time(),
        o.name_view() == "linearizable"@,
{
    LinearizabilityOracle { model, real_time: true, name: string_of(&chars_of("linearizable")) }
}

/// A sequential-consistency oracle: the real-time order is not required.
pub fn sequentially_consistent<M: SequentialModel>(model: M) -> (o: LinearizabilityOracle<M>)
    ensures
        o.model() == model,
        !o.real_time(),
        o.name_view() == "sequentially-consistent"@,
{
    LinearizabilityOracle {
        model,
        real_time: false,
        name: string_of(&chars_of("sequentially-consistent")),
    }
}

impl<M: SequentialModel> LinearizabilityOracle<M> {
    /// The model checked against.
    pub closed spec fn model(&self) -> M {
        self.model
    }

    /// Whether the real-time order of operations must be respected.
    pub closed spec fn real_time(&self) -> bool {
        self.real_time
    }

    /// The oracle's name.
    pub closed spec fn name_view(&self) -> Seq<char> {
        self.name@
    }

    /// The oracle's name.
    pub fn name(&self) -> (s: &str)
        ensures
            s@ == self.name_view(),
    {
        self.name.as_str()
    }

    /// Check a recorded history: pair its invokes with their completions,
    /// decode each pair through the model, and search for a linearization.
    pub fn check_history(&self, h: &History) -> (v: Verdict)
        ensures
            exists|spans: Seq<Span<M::Op>>|
                #![trigger decodes_to(self.model(), h.0@, scan(h@, h@.len() as int).spans, spans)]
                {
                    &&& decodes_to(self.model(), h.0@, scan(h@, h@.len() as int).spans, spans)
                    &&& v.valid ==> linearizable_spans(self.model(), spans, self.real_time())
                    &&& memo_keys_behave::<M>() && model_deterministic(self.model()) ==> (v.valid
                        == linearizable_spans(self.model(), spans, self.real_time()))
                    &&& !v.valid ==> text_witness(
                        v.witness,
                        ordering_text(self.name_view(), spans.len()),
                    )
                },
            v.valid ==> v.anomalies@.len() == 0 && v.witness is None,
            !v.valid ==> v.anomalies@.len() == 1 && v.anomalies@[0].kind@ == failure_kind(
                self.real_time(),
            ) && v.anomalies@[0].detail is None,
    {
        let spans = self.parse_spans(h.entries());
        proof {
            assert(Seq::new(h.0@.len(), |i: int| h.0@[i]@) =~= h@);
        }
        let ok = self.search(&spans);
        let v = if ok {
            Verdict::valid()
        } else {
            let kind = if self.real_time {
                string_of(&chars_of("non-linearizable"))
            } else {
                string_of(&chars_of("not-sequentially-consistent"))
            };
            let mut anomalies: Vec<Anomaly> = Vec::new();
            anomalies.push(Anomaly::new(kind));
            let mut text: Vec<char> = Vec::new();
            push_str(&mut text, "no valid ");
            push_str(&mut text, self.name.as_str());
            push_str(&mut text, " ordering of ");
            push_dec_digits(&mut text, spans.len() as u128);
            push_str(&mut text, " operations");
            proof {
                assert(text@ =~= ordering_text(self.name@, spans@.len()));
            }
            Verdict::invalid(anomalies).with_witness(Witness::Text(string_of(&text)))
        };
        proof {
            let w = spans@;
            assert(decodes_to(self.model(), h.0@, scan(h@, h@.len() as int).spans, w));
        }
        v
    }

    /// Decode each `(invoke, completion)` pair of the entries through the
    /// model, keeping the pairs it decodes.
    pub fn parse_spans(&self, entries: &[OpEntry]) -> (r: Vec<Span<M::Op>>)
        ensures
            decodes_to(
                self.model(),
                entries@,
                scan(Seq::new(entries@.len(), |i: int| entries@[i]@), entries@.len() as int).spans,
                r@,
            ),
    {
        let ghost h = Seq::new(entries@.len(), |i: int| entries@[i]@);
        let ghost all = scan(h, entries@.len() as int).spans;
        let pairs = pair_spans(entries);
        proof {
            lemma_scan_bounds(h, entries@.len() as int);
            assert(all.take(0) =~= Seq::<(int, int)>::empty());
        }
        let mut spans: Vec<Span<M::Op>> = Vec::new();
        let mut k: usize = 0;
        while k < pairs.len()
            invariant
                k <= pairs.len(),
                pairs@.len() == all.len(),
                forall|j: int|
                    0 <= j < pairs@.len() ==> (#[trigger] pairs@[j]).0 == all[j].0 && pairs@[j].1
                        == all[j].1,
                forall|j: int| 0 <= j < all.len() ==> 0 <= (#[trigger] all[j]).0 < all[j].1 < entries@.len(),
                decodes_to(self.model, entries@, all.take(k as int), spans@),
            decreases pairs.len() - k,
        {
            let (start, finish) = pairs[k];
            let inv = &entries[start];
            let fin = &entries[finish];
            let f = fin.f.as_str();
            let out = self.model.decode(f, &inv.value, &fin.value);
            let ghost before = spans@;
            proof {
                assert(all.take(k + 1).drop_last() =~= all.take(k as int));
                assert(all.take(k + 1).last() == (start as int, finish as int));
                assert(f@ == entries@[finish as int].f.0@ && call_ensures(
                    M::decode,
                    (&self.model, f, &entries@[start as int].value, &entries@[finish as int].value),
                    out,
                ));
            }
            match out {
                Some((op, response)) => {
                    spans.push(Span { op, response, start, finish });
                    proof {
                        assert(spans@.drop_last() =~= before);
                    }
                },
                None => {},
            }
            k = k + 1;
        }
        proof {
            assert(all.take(pairs.len() as int) =~= all);
        }
        spans
    }

    /// Whether the spans can be linearized: a depth-first search that
    /// linearizes one callable operation at a time and prunes revisited
    /// `(linearized set, state)` nodes. A `true` is always right; a `false`
    /// is right whenever the memo's keys behave and the model is
    /// deterministic.
    pub fn search(&self, spans: &Vec<Span<M::Op>>) -> (r: bool)
        ensures
            r ==> linearizable_spans(self.model(), spans@, self.real_time()),
            memo_keys_behave::<M>() && model_deterministic(self.model()) ==> (r == linearizable_spans(
                self.model(),
                spans@,
                self.real_time(),
            )),
    {
        let n = spans.len();
        if n == 0 {
            return true;
        }
        let mut visited: Vec<(Vec<bool>, M::State)> = Vec::new();
        let mut done: Vec<bool> = Vec::new();
        while done.len() < n
            invariant
                done.len() <= n,
                forall|j: int| 0 <= j < done.len() ==> !#[trigger] done@[j],
            decreases n - done.len(),
        {
            done.push(false);
        }
        let ghost none = Seq::new(n as nat, |i: int| false);
        proof {
            assert(done@ =~= none);
            lemma_pending_none(n as nat);
        }
        let s0 = self.model.init();
        let ghost g0 = s0;
        let r = self.recurse(spans, s0, done, n, &mut visited);
        proof {
            if memo_keys_behave::<M>() && model_deterministic(self.model) && !r {
                if linearizable_spans(self.model, spans@, self.real_time) {
                    let w = choose|w: M::State|
                        call_ensures(M::init, (&self.model,), w) && linearizable_from(
                            self.model,
                            spans@,
                            self.real_time,
                            w,
                            none,
                        );
                    assert(w == g0);
                }
            }
        }
        r
    }

    fn recurse(
        &self,
        spans: &Vec<Span<M::Op>>,
        state: M::State,
        done: Vec<bool>,
        remaining: usize,
        visited: &mut Vec<(Vec<bool>, M::State)>,
    ) -> (r: bool)
        requires
            done@.len() == spans@.len(),
            remaining == pending(done@),
            memo_keys_behave::<M>() && model_deterministic(self.model) ==> memo_ok(
                self.model,
                spans@,
                self.real_time,
                old(visited)@,
                remaining as nat,
            ),
        ensures
            r ==> linearizable_from(self.model, spans@, self.real_time, state, done@),
            memo_keys_behave::<M>() && model_deterministic(self.model) && !r ==> {
                &&& !linearizable_from(self.model, spans@, self.real_time, state, done@)
                &&& memo_ok(self.model, spans@, self.real_time, final(visited)@, remaining as nat)
                &&& old(visited)@.len() <= final(visited)@.len()
                &&& forall|k: int| 0 <= k < old(visited)@.len() ==> #[trigger] final(visited)@[k] == old(visited)@[k]
                &&& forall|k: int|
                    old(visited)@.len() <= k < final(visited)@.len() ==> pending(
                        (#[trigger] final(visited)@[k]).0@,
                    ) <= remaining
            },
        decreases remaining,
    {
        let ghost sane = memo_keys_behave::<M>() && model_deterministic(self.model);
        let ghost m = self.model;
        let ghost rt = self.real_time;
        if remaining == 0 {
            proof {
                lemma_pending_zero(done@);
                assert(linearizes(m, spans@, rt, state, done@, Seq::<(int, M::State, Response)>::empty()));
            }
            return true;
        }
        let ghost entry = visited@;
        let key_done = done.clone();
        let key_state = state.clone();
        let ghost key = (key_done, key_state);
        proof {
            assert forall|j: int| 0 <= j < done@.len() implies key_done@[j] == done@[j] by {
                assert(cloned::<bool>(done@[j], key_done@[j]));
            }
            assert(key_done@ =~= done@);
            if memo_keys_behave::<M>() {
                assert(cloned::<M::State>(state, key_state));
            }
        }
        if memo_has(visited, &done, &state) {
            proof {
                if sane {
                    let k = choose|k: int| 0 <= k < entry.len() && (#[trigger] entry[k]).0@ == done@ && entry[k].1 == state;
                    assert(entry[k].0@.len() == spans@.len());
                }
            }
            return false;
        }
        visited.push((key_done, key_state));
        proof {
            if sane {
                assert forall|k: int| 0 <= k < visited@.len() implies (#[trigger] visited@[k]).0@.len()
                    == spans@.len() && (pending(visited@[k].0@) > (remaining - 1) as nat
                    || !linearizable_from(m, spans@, rt, visited@[k].1, visited@[k].0@)) by {
                    if k < entry.len() {
                        assert(visited@[k] == entry[k]);
                    }
                }
            }
        }
        // The earliest finish among the pending spans: only a span that
        // started before it is callable in real-time mode.
        let mut min_finish: usize = usize::MAX;
        let mut k: usize = 0;
        while k < spans.len()
            invariant
                k <= spans.len(),
                done@.len() == spans@.len(),
                forall|j: int| 0 <= j < k && !done@[j] ==> min_finish <= #[trigger] spans@[j].finish,
                min_finish == usize::MAX || exists|j: int|
                    0 <= j < spans@.len() && !done@[j] && #[trigger] spans@[j].finish == min_finish,
            decreases spans.len() - k,
        {
            if !done[k] && spans[k].finish < min_finish {
                min_finish = spans[k].finish;
            }
            k = k + 1;
        }
        let mut i: usize = 0;
        while i < spans.len()
            invariant
                i <= spans.len(),
                done@.len() == spans@.len(),
                remaining == pending(done@),
                remaining > 0,
                m == self.model,
                rt == self.real_time,
                sane == (memo_keys_behave::<M>() && model_deterministic(self.model)),
                forall|j: int|
                    0 <= j < spans@.len() && !done@[j] ==> min_finish <= #[trigger] spans@[j].finish,
                min_finish == usize::MAX || exists|j: int|
                    0 <= j < spans@.len() && !done@[j] && #[trigger] spans@[j].finish == min_finish,
                key.0@ == done@,
                memo_keys_behave::<M>() ==> key.1 == state,
                sane ==> memo_ok(m, spans@, rt, entry, remaining as nat),
                sane ==> memo_ok(m, spans@, rt, visited@, (remaining - 1) as nat),
                sane ==> entry.len() < visited@.len(),
                sane ==> forall|k: int| 0 <= k < entry.len() ==> #[trigger] visited@[k] == entry[k],
                sane ==> visited@[entry.len() as int] == key,
                sane ==> forall|k: int|
                    entry.len() < k < visited@.len() ==> pending((#[trigger] visited@[k]).0@) <= remaining - 1,
                sane ==> forall|st: Seq<(int, M::State, Response)>|
                    #[trigger] linearizes(m, spans@, rt, state, done@, st) && st.len() > 0 ==> st[0].0
                        >= i,
            decreases spans.len() - i,
        {
            let span = &spans[i];
            let ghost at_i = visited@;
            if !done[i] && !(self.real_time && span.start > min_finish) {
                let (next_state, resp) = self.model.step(&state, &span.op);
                if values_equal(&resp.0, &span.response.0) {
                    let mut next_done = done.clone();
                    proof {
                        assert forall|j: int| 0 <= j < done@.len() implies next_done@[j] == done@[j] by {
                            assert(cloned::<bool>(done@[j], next_done@[j]));
                        }
                        assert(next_done@ =~= done@);
                    }
                    next_done.set(i, true);
                    let ghost ns = next_state;
                    let ghost nd = next_done@;
                    proof {
                        lemma_pending_update(done@, i as int);
                        assert(nd =~= done@.update(i as int, true));
                    }
                    if self.recurse(spans, next_state, next_done, remaining - 1, visited) {
                        proof {
                            let rest = choose|st: Seq<(int, M::State, Response)>|
                                linearizes(m, spans@, rt, ns, nd, st);
                            let steps = seq![(i as int, ns, resp)] + rest;
                            assert(steps.drop_first() =~= rest);
                            assert(linearizes(m, spans@, rt, state, done@, steps));
                        }
                        return true;
                    }
                    proof {
                        if sane {
                            assert forall|st: Seq<(int, M::State, Response)>|
                                #[trigger] linearizes(m, spans@, rt, state, done@, st) && st.len()
                                    > 0 implies st[0].0 >= i + 1 by {
                                if st[0].0 == i {
                                    assert(call_ensures(M::step, (&m, &state, &spans@[i as int].op), (ns, resp)));
                                    assert((st[0].1, st[0].2) == (ns, resp));
                                    assert(linearizes(m, spans@, rt, ns, nd, st.drop_first()));
                                }
                            }
                        }
                    }
                } else {
                    proof {
                        if sane {
                            assert forall|st: Seq<(int, M::State, Response)>|
                                #[trigger] linearizes(m, spans@, rt, state, done@, st) && st.len()
                                    > 0 implies st[0].0 >= i + 1 by {
                                if st[0].0 == i {
                                    assert(call_ensures(M::step, (&m, &state, &spans@[i as int].op), (next_state, resp)));
                                    assert((st[0].1, st[0].2) == (next_state, resp));
                                }
                            }
                        }
                    }
                }
            } else {
                proof {
                    if sane {
                        assert forall|st: Seq<(int, M::State, Response)>|
                            #[trigger] linearizes(m, spans@, rt, state, done@, st) && st.len() > 0
                                implies st[0].0 >= i + 1 by {
                            if st[0].0 == i && rt {
                                let j = choose|j: int|
                                    0 <= j < spans@.len() && !done@[j] && #[trigger] spans@[j].finish
                                        == min_finish;
                                if min_finish != usize::MAX {
                                    assert(spans@[i as int].start <= spans@[j].finish);
                                }
                            }
                        }
                    }
                }
            }
            i = i + 1;
        }
        proof {
            if sane {
                assert forall|st: Seq<(int, M::State, Response)>|
                    !linearizes(m, spans@, rt, state, done@, st) by {
                    if linearizes(m, spans@, rt, state, done@, st) {
                        if st.len() == 0 {
                            lemma_pending_all_done(done@);
                        }
                    }
                }
                assert forall|k: int| 0 <= k < visited@.len() implies (#[trigger] visited@[k]).0@.len()
                    == spans@.len() && (pending(visited@[k].0@) > remaining || !linearizable_from(
                    m,
                    spans@,
                    rt,
                    visited@[k].1,
                    visited@[k].0@,
                )) by {
                    if k < entry.len() {
                        assert(visited@[k] == entry[k]);
                    } else if k == entry.len() {
                        assert(visited@[k] == key);
                    }
                }
            }
        }
        false
    }

}

} // verus!
