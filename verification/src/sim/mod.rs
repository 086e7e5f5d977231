//! The deterministic in-process executor's verified parts: the seeded random
//! source, the virtual-time scheduler core, fault lowering, white-box
//! property evaluation, and the run's bookkeeping decisions.

use vstd::prelude::*;

pub mod faults;
pub mod open_ops;
pub mod properties;
pub mod rng;
pub mod scheduler;
pub mod workload;

use crate::duration::{duration_nanos, max_duration_nanos, nanos_of};
use crate::faults::Faults;
use crate::history::log::History;
use crate::history::op::{chars_eq, clone_value, EntryV, Function, OpKind, ProcessId, VValue, Value};
use crate::needs::Produces;
use crate::node::{NodeId, OpToken};
use crate::plan::{copies_ops, PlanData};
use crate::scenario::{FrozenOp, Scenario};
use crate::seed::Seed;
use crate::sim::rng::{splitmix_mix, SimRng, GOLDEN_GAMMA};
use crate::sim::scheduler::{
    closed_count, op_entry, pending_index, EventKind, PendingOp, SchedCore, Scheduled,
};

verus! {

/// The deterministic executor as a type-erased executor value, so it can
/// live in a backend and answer capability negotiation.
#[derive(Clone, Copy, Debug)]
pub struct DeterministicExecutor;

impl DeterministicExecutor {
    /// A fresh deterministic executor.
    pub fn new() -> (e: DeterministicExecutor) {
        DeterministicExecutor
    }

    /// What it produces: everything (world snapshots, history, virtual time,
    /// seed replay).
    pub fn capabilities(&self) -> (p: Produces)
        ensures
            p.world_snapshots && p.history && p.virtual_time && p.seed_replayable,
    {
        Produces::deterministic()
    }
}

impl Default for DeterministicExecutor {
    fn default() -> (e: DeterministicExecutor) {
        DeterministicExecutor
    }
}

/// The Jepsen `:f` of an op: its payload's keyword, or the keyword leading a
/// list payload (e.g. `[:write k v]`), else `op`.
pub open spec fn op_function_name(op: VValue) -> Seq<char> {
    match op {
        VValue::Keyword(k) => k,
        VValue::List(items) => if items.len() > 0 && items[0] is Keyword {
            items[0]->Keyword_0
        } else {
            "op"@
        },
        _ => "op"@,
    }
}

/// The Jepsen `:f` to record for an op no codec decoded.
pub fn op_function(op: &FrozenOp) -> (f: Function)
    ensures
        f.0@ == op_function_name(op.op@),
{
    match &op.op {
        Value::Keyword(k) => Function(k.clone()),
        Value::List(items) => {
            proof {
                crate::history::writer::lemma_values_view(items@);
            }
            if items.len() > 0 {
                match &items[0] {
                    Value::Keyword(k) => {
                        return Function(k.clone());
                    },
                    _ => {},
                }
            }
            Function::new("op")
        },
        _ => Function::new("op"),
    }
}

/// The seed for run index `s` when no override is given: the first draw of
/// a generator seeded from the index.
pub open spec fn derived_seed(s: u64) -> u64 {
    splitmix_mix((0x5EED_0000u64 ^ s).wrapping_add(GOLDEN_GAMMA))
}

/// The seed for run index `s`, derived deterministically from the index.
pub fn index_seed(s: u64) -> (seed: Seed)
    ensures
        seed.0 == derived_seed(s),
{
    let mut r = SimRng::new(0x5EED_0000u64 ^ s);
    Seed(r.next_u64())
}

/// The latest scripted fault time of a plan (the plan's own faults, else its
/// replay scenario's), floored at five seconds.
pub open spec fn latest_fault(faults: Option<Faults>) -> int {
    match faults {
        Some(f) => match f.events() {
            Some(es) => max_at(es, 5_000_000_000),
            None => 5_000_000_000,
        },
        None => 5_000_000_000,
    }
}

/// The largest event time of `es`, at least `floor`.
pub open spec fn max_at(es: Seq<crate::faults::ScriptedEvent>, floor: int) -> int
    decreases es.len(),
{
    if es.len() == 0 {
        floor
    } else {
        let m = max_at(es.drop_last(), floor);
        if duration_nanos(es.last().at) > m {
            duration_nanos(es.last().at) as int
        } else {
            m
        }
    }
}

/// The latest scripted time is the least bound of the floor and every
/// event's time: no event lies after it, and it is the floor or the time of
/// some event.
pub proof fn lemma_max_at_is_latest(es: Seq<crate::faults::ScriptedEvent>, floor: int)
    ensures
        floor <= max_at(es, floor),
        forall|i: int| 0 <= i < es.len() ==> duration_nanos((#[trigger] es[i]).at) <= max_at(es, floor),
        max_at(es, floor) == floor || exists|i: int|
            0 <= i < es.len() && max_at(es, floor) == duration_nanos((#[trigger] es[i]).at),
    decreases es.len(),
{
    if es.len() > 0 {
        let init = es.drop_last();
        lemma_max_at_is_latest(init, floor);
        assert forall|i: int| 0 <= i < es.len() implies duration_nanos((#[trigger] es[i]).at) <= max_at(
            es,
            floor,
        ) by {
            if i < init.len() {
                assert(es[i] == init[i]);
            }
        }
        if max_at(es, floor) != floor && max_at(es, floor) != duration_nanos(es.last().at) {
            let i = choose|i: int| 0 <= i < init.len() && max_at(init, floor) == duration_nanos((#[trigger] init[i]).at);
            assert(es[i] == init[i]);
        }
    }
}

/// A scripted run lasts until ten seconds after its latest fault, whatever
/// order the script lists its steps in: every scripted event fires at least
/// ten seconds before the horizon, the horizon is at least fifteen seconds,
/// and it is ten seconds after the latest event (or after five seconds).
pub proof fn lemma_horizon_covers_script(data: PlanData, f: Faults, es: Seq<crate::faults::ScriptedEvent>)
    requires
        run_faults(data) == Some(f),
        f.events() == Some(es),
    ensures
        forall|i: int|
            0 <= i < es.len() ==> duration_nanos((#[trigger] es[i]).at) + 10_000_000_000 <= latest_fault(
                run_faults(data),
            ) + 10_000_000_000,
        15_000_000_000 <= latest_fault(run_faults(data)) + 10_000_000_000,
        latest_fault(run_faults(data)) == 5_000_000_000 || exists|i: int|
            0 <= i < es.len() && latest_fault(run_faults(data)) == duration_nanos((#[trigger] es[i]).at),
{
    lemma_max_at_is_latest(es, 5_000_000_000);
}

/// The fault description a run follows: the plan's own, else its replay
/// scenario's.
pub open spec fn run_faults(data: PlanData) -> Option<Faults> {
    match data.faults {
        Some(f) => Some(f),
        None => match data.replay {
            Some(s) => Some(s.faults),
            None => None,
        },
    }
}

/// The latest scripted fault time of a run, in nanoseconds, at least five
/// seconds.
pub fn latest_fault_nanos(data: &PlanData) -> (l: u128)
    ensures
        l == latest_fault(run_faults(*data)),
        l <= max_duration_nanos(),
{
    let mut latest: u128 = 5_000_000_000;
    let faults = match &data.faults {
        Some(f) => Some(f),
        None => match &data.replay {
            Some(s) => Some(&s.faults),
            None => None,
        },
    };
    match faults {
        Some(f) => {
            match f.script() {
                Some(script) => {
                    let mut i: usize = 0;
                    assert(script@.take(0) =~= Seq::<crate::faults::ScriptedEvent>::empty());
                    while i < script.len()
                        invariant
                            i <= script.len(),
                            latest == max_at(script@.take(i as int), 5_000_000_000),
                            latest <= max_duration_nanos(),
                        decreases script.len() - i,
                    {
                        assert(script@.take(i + 1).drop_last() =~= script@.take(i as int));
                        let t = nanos_of(script[i].at);
                        if t > latest {
                            latest = t;
                        }
                        i = i + 1;
                    }
                    assert(script@.take(script.len() as int) =~= script@);
                },
                None => {},
            }
        },
        None => {},
    }
    latest
}

/// The virtual-time horizon of a run, in nanoseconds: the latest scripted
/// fault time plus a ten-second convergence margin.
pub fn run_horizon(data: &PlanData) -> (h: u128)
    requires
        latest_fault(run_faults(*data)) + 10_000_000_000 <= max_duration_nanos(),
    ensures
        h == latest_fault(run_faults(*data)) + 10_000_000_000,
{
    latest_fault_nanos(data) + 10_000_000_000
}

/// The horizon of a run, or `None` where adding the margin to the latest
/// fault time overflows a duration.
pub fn checked_run_horizon(data: &PlanData) -> (h: Option<u128>)
    ensures
        match h {
            Some(x) => x == latest_fault(run_faults(*data)) + 10_000_000_000 && x
                <= max_duration_nanos(),
            None => latest_fault(run_faults(*data)) + 10_000_000_000 > max_duration_nanos(),
        },
{
    let latest = latest_fault_nanos(data);
    if latest <= 0xFFFF_FFFF_FFFF_FFFFu128 * 1_000_000_000u128 + 999_999_999u128 - 10_000_000_000u128 {
        Some(latest + 10_000_000_000)
    } else {
        None
    }
}

/// The frozen ops of a history: one per recorded `Invoke`, issued by its
/// process with its value.
pub open spec fn invoked_ops(h: Seq<EntryV>) -> Seq<(u64, VValue)>
    decreases h.len(),
{
    if h.len() == 0 {
        Seq::empty()
    } else if h.last().kind == OpKind::Invoke {
        invoked_ops(h.drop_last()).push((h.last().process, h.last().value))
    } else {
        invoked_ops(h.drop_last())
    }
}

/// `still_fails` may answer `fails` for a copy of the first `len` ops of
/// `full`.
pub open spec fn answered<F: Fn(&[FrozenOp]) -> bool>(
    still_fails: F,
    full: Seq<FrozenOp>,
    len: int,
    fails: bool,
) -> bool {
    exists|s: &[FrozenOp]| copies_ops(s@, full.take(len)) && call_ensures(still_fails, (s,), fails)
}

/// Shrink an op stream by dropping ops from its end, one at a time, while
/// the shorter stream still fails. The whole stream is replayed first: when
/// it does not fail, it comes back unchanged; when it does, the result is a
/// copy of a prefix of `full` that failed on replay, every longer prefix
/// failed too, and the next shorter one (if any) did not.
pub fn shrink_prefix<F: Fn(&[FrozenOp]) -> bool>(full: &Vec<FrozenOp>, still_fails: F) -> (r: Vec<
    FrozenOp,
>)
    requires
        forall|s: &[FrozenOp]| #[trigger] still_fails.requires((s,)),
    ensures
        r@.len() <= full@.len(),
        copies_ops(r@, full@.take(r@.len() as int)),
        answered(still_fails, full@, full@.len() as int, false) && r@.len() == full@.len() || {
            &&& forall|j: int|
                r@.len() <= j <= full@.len() ==> #[trigger] answered(still_fails, full@, j, true)
            &&& r@.len() > 0 ==> answered(still_fails, full@, r@.len() - 1, false)
        },
{
    let mut best: Vec<FrozenOp> = copy_prefix(full, full.len());
    let mut len: usize = full.len();
    if !still_fails(best.as_slice()) {
        proof {
            assert(answered(still_fails, full@, full@.len() as int, false));
        }
        return best;
    }
    proof {
        assert(answered(still_fails, full@, full@.len() as int, true));
    }
    while len > 0
        invariant
            len <= full@.len(),
            best@.len() == len,
            copies_ops(best@, full@.take(len as int)),
            forall|s: &[FrozenOp]| #[trigger] still_fails.requires((s,)),
            forall|j: int| len <= j <= full@.len() ==> #[trigger] answered(still_fails, full@, j, true),
        decreases len,
    {
        let candidate = copy_prefix(full, len - 1);
        let s = candidate.as_slice();
        let fails = still_fails(s);
        if fails {
            proof {
                assert(answered(still_fails, full@, len - 1, true));
            }
            best = candidate;
            len = len - 1;
        } else {
            proof {
                assert(answered(still_fails, full@, len - 1, false));
                assert(answered(still_fails, full@, len as int, true));
            }
            return best;
        }
    }
    proof {
        assert(answered(still_fails, full@, 0, true));
    }
    best
}

/// A copy of the first `len` ops of `full`.
fn copy_prefix(full: &Vec<FrozenOp>, len: usize) -> (r: Vec<FrozenOp>)
    requires
        len <= full@.len(),
    ensures
        r@.len() == len,
        copies_ops(r@, full@.take(len as int)),
{
    let mut r: Vec<FrozenOp> = Vec::new();
    let mut i: usize = 0;
    while i < len
        invariant
            i <= len <= full@.len(),
            r@.len() == i,
            copies_ops(r@, full@.take(i as int)),
        decreases len - i,
    {
        r.push(full[i].clone());
        i = i + 1;
    }
    r
}

/// Recover the frozen op stream from the recorded `Invoke`s of a history.
pub fn collect_ops(history: &History) -> (ops: Vec<FrozenOp>)
    ensures
        Seq::new(ops@.len(), |i: int| (ops@[i].process.0, ops@[i].op@)) == invoked_ops(history@),
        forall|i: int| 0 <= i < ops@.len() ==> (#[trigger] ops@[i]).route is None,
{
    let ghost h = history@;
    let mut ops: Vec<FrozenOp> = Vec::new();
    let mut i: usize = 0;
    assert(h.take(0) =~= Seq::<EntryV>::empty());
    while i < history.0.len()
        invariant
            i <= history.0.len(),
            h == history@,
            h.len() == history.0.len(),
            Seq::new(ops@.len(), |k: int| (ops@[k].process.0, ops@[k].op@)) == invoked_ops(h.take(i as int)),
            forall|k: int| 0 <= k < ops@.len() ==> (#[trigger] ops@[k]).route is None,
        decreases history.0.len() - i,
    {
        let e = &history.0[i];
        assert(h[i as int] == e@);
        assert(h.take(i + 1).drop_last() =~= h.take(i as int));
        assert(h.take(i + 1).last() == h[i as int]);
        match e.kind {
            OpKind::Invoke => {
                let ghost before = ops@;
                ops.push(FrozenOp::new(NodeId(e.process.0), crate::history::op::clone_value(&e.value)));
                assert(Seq::new(ops@.len(), |k: int| (ops@[k].process.0, ops@[k].op@)) =~= Seq::new(
                    before.len(),
                    |k: int| (before[k].process.0, before[k].op@),
                ).push((e.process.0, e.value@)));
            },
            _ => {},
        }
        i = i + 1;
    }
    assert(h.take(h.len() as int) =~= h);
    ops
}

/// Whether the queue holds a client-op event with sequence number `seq` at
/// `at` for `process` and op `index`.
pub open spec fn holds_client_op<M, T>(q: Seq<Scheduled<M, T>>, seq: int, at: u128, process: u64, index: usize) -> bool {
    exists|j: int| 0 <= j < q.len() && is_client_op(#[trigger] q[j], seq, at, process, index)
}

/// Whether `e` is that client-op event.
pub open spec fn is_client_op<M, T>(e: Scheduled<M, T>, seq: int, at: u128, process: u64, index: usize) -> bool {
    e.seq == seq && e.at == at && match e.kind {
        EventKind::ClientOp { process: p, index: i } => p.0 == process && i == index,
        _ => false,
    }
}

/// Whether process `p` issues its next op now: its scheduled ops have all
/// closed and it has ops left.
pub open spec fn issues(hist: Seq<EntryV>, queues: Seq<Vec<usize>>, cursor: Seq<usize>, scheduled: Seq<usize>, p: int) -> bool {
    scheduled[p] <= closed_count(hist, p as u64) && cursor[p] < queues[p]@.len()
}

/// The number of processes below `p` that issue now.
pub open spec fn issued_before(hist: Seq<EntryV>, queues: Seq<Vec<usize>>, cursor: Seq<usize>, scheduled: Seq<usize>, p: int) -> int
    decreases p,
{
    if p <= 0 {
        0
    } else {
        issued_before(hist, queues, cursor, scheduled, p - 1) + if issues(hist, queues, cursor, scheduled, p - 1) {
            1int
        } else {
            0int
        }
    }
}

proof fn lemma_issued_before_bound(hist: Seq<EntryV>, queues: Seq<Vec<usize>>, cursor: Seq<usize>, scheduled: Seq<usize>, p: int)
    requires
        p >= 0,
    ensures
        0 <= issued_before(hist, queues, cursor, scheduled, p) <= p,
    decreases p,
{
    if p > 0 {
        lemma_issued_before_bound(hist, queues, cursor, scheduled, p - 1);
    }
}

proof fn lemma_holds_client_op_insert<M, T>(q: Seq<Scheduled<M, T>>, p: int, x: Scheduled<M, T>, seq: int, at: u128, process: u64, index: usize)
    requires
        0 <= p <= q.len(),
        holds_client_op(q, seq, at, process, index),
    ensures
        holds_client_op(q.insert(p, x), seq, at, process, index),
{
    let j = choose|j: int| 0 <= j < q.len() && is_client_op(#[trigger] q[j], seq, at, process, index);
    let u = q.insert(p, x);
    if j < p {
        assert(u[j] == q[j]);
    } else {
        assert(u[j + 1] == q[j]);
    }
}

/// For each process in order whose scheduled ops have all closed (so it has
/// no op in flight) and that has ops left, schedule its next op one virtual
/// millisecond from now. One op per process is in flight at a time, so
/// overlap arises across processes, sequential within one.
pub fn pump_client_ops<M, T>(core: &mut SchedCore<M, T>, queues: &Vec<Vec<usize>>, cursor: &mut Vec<usize>, scheduled: &mut Vec<usize>, node_count: usize)
    requires
        old(core).wf(),
        queues@.len() == node_count,
        old(cursor)@.len() == node_count,
        old(scheduled)@.len() == node_count,
        forall|p: int| 0 <= p < node_count ==> (#[trigger] old(scheduled)@[p]) < usize::MAX,
        old(core).seq + node_count < u64::MAX,
        old(core).now + 1_000_000 <= max_duration_nanos(),
        node_count < u64::MAX,
    ensures
        final(core).wf(),
        final(cursor)@.len() == node_count,
        final(scheduled)@.len() == node_count,
        forall|p: int| 0 <= p < node_count ==> {
            let go = issues(old(core).hist(), queues@, old(cursor)@, old(scheduled)@, p);
            &&& #[trigger] final(cursor)@[p] == old(cursor)@[p] + (if go { 1int } else { 0int })
            &&& final(scheduled)@[p] == old(scheduled)@[p] + (if go { 1int } else { 0int })
            &&& go ==> holds_client_op(
                final(core).queue@,
                old(core).seq + issued_before(old(core).hist(), queues@, old(cursor)@, old(scheduled)@, p),
                (old(core).now + 1_000_000) as u128,
                p as u64,
                queues@[p]@[old(cursor)@[p] as int],
            )
        },
        final(core).seq == old(core).seq + issued_before(old(core).hist(), queues@, old(cursor)@, old(scheduled)@, node_count as int),
        final(core).now == old(core).now,
        final(core).history == old(core).history,
        final(core).pending_ops == old(core).pending_ops,
        final(core).crashed == old(core).crashed,
        final(core).partitions == old(core).partitions,
        final(core).timer_gen == old(core).timer_gen,
        final(core).rng == old(core).rng,
{
    let ghost h = core.hist();
    let ghost c0 = cursor@;
    let ghost s0 = scheduled@;
    let ghost seq0 = core.seq;
    let at: u128 = core.now + 1_000_000;
    let mut p: usize = 0;
    while p < node_count
        invariant
            p <= node_count,
            core.wf(),
            h == old(core).hist(),
            c0 == old(cursor)@,
            s0 == old(scheduled)@,
            seq0 == old(core).seq,
            at == old(core).now + 1_000_000,
            queues@.len() == node_count,
            cursor@.len() == node_count,
            scheduled@.len() == node_count,
            node_count < u64::MAX,
            seq0 + node_count < u64::MAX,
            at <= max_duration_nanos(),
            forall|k: int| 0 <= k < node_count ==> (#[trigger] s0[k]) < usize::MAX,
            forall|k: int| p <= k < node_count ==> #[trigger] cursor@[k] == c0[k],
            forall|k: int| p <= k < node_count ==> #[trigger] scheduled@[k] == s0[k],
            forall|k: int| 0 <= k < p ==> cursor@[k] == c0[k] + (if #[trigger] issues(h, queues@, c0, s0, k) { 1int } else { 0int }),
            forall|k: int| 0 <= k < p ==> scheduled@[k] == s0[k] + (if #[trigger] issues(h, queues@, c0, s0, k) { 1int } else { 0int }),
            forall|k: int| 0 <= k < p && #[trigger] issues(h, queues@, c0, s0, k) ==> holds_client_op(core.queue@, seq0 + issued_before(h, queues@, c0, s0, k), at, k as u64, queues@[k]@[c0[k] as int]),
            core.seq == seq0 + issued_before(h, queues@, c0, s0, p as int),
            core.hist() == h,
            core.now == old(core).now,
            core.history == old(core).history,
            core.pending_ops == old(core).pending_ops,
            core.crashed == old(core).crashed,
            core.partitions == old(core).partitions,
            core.timer_gen == old(core).timer_gen,
            core.rng == old(core).rng,
        decreases node_count - p,
    {
        proof {
            lemma_issued_before_bound(h, queues@, c0, s0, p as int);
        }
        let closed = core.closed_for(crate::history::op::ProcessId(p as u64));
        assert(cursor@[p as int] == c0[p as int]);
        assert(scheduled@[p as int] == s0[p as int]);
        let go = scheduled[p] <= closed && cursor[p] < queues[p].len();
        assert(go == issues(h, queues@, c0, s0, p as int));
        let ghost cur0 = cursor@;
        let ghost sch0 = scheduled@;
        if go {
            let idx = queues[p][cursor[p]];
            let c = cursor[p] + 1;
            cursor.set(p, c);
            let n = scheduled[p] + 1;
            scheduled.set(p, n);
            let ghost q0 = core.queue@;
            core.schedule_client_op(at, NodeId(p as u64), idx);
            proof {
                let pos = crate::sim::scheduler::insert_pos(q0, at);
                crate::sim::scheduler::lemma_insert_pos_bounds(q0, at);
                assert(core.queue@[pos] == q0.insert(pos, core.queue@[pos])[pos]);
                assert(is_client_op(core.queue@[pos], seq0 + issued_before(h, queues@, c0, s0, p as int), at, p as u64, idx));
                assert forall|k: int| 0 <= k < p && #[trigger] issues(h, queues@, c0, s0, k) implies holds_client_op(
                    core.queue@, seq0 + issued_before(h, queues@, c0, s0, k), at, k as u64, queues@[k]@[c0[k] as int]) by {
                    lemma_holds_client_op_insert(q0, pos, core.queue@[pos], seq0 + issued_before(h, queues@, c0, s0, k), at, k as u64, queues@[k]@[c0[k] as int]);
                }
            }
        }
        proof {
            assert forall|k: int| 0 <= k < p implies cursor@[k] == c0[k] + (if #[trigger] issues(h, queues@, c0, s0, k) { 1int } else { 0int }) by {
                assert(cursor@[k] == cur0[k]);
            }
            assert forall|k: int| 0 <= k < p implies scheduled@[k] == s0[k] + (if #[trigger] issues(h, queues@, c0, s0, k) { 1int } else { 0int }) by {
                assert(scheduled@[k] == sch0[k]);
            }
            assert forall|k: int| p < k < node_count implies #[trigger] cursor@[k] == c0[k] by {
                assert(cursor@[k] == cur0[k]);
            }
            assert forall|k: int| p < k < node_count implies #[trigger] scheduled@[k] == s0[k] by {
                assert(scheduled@[k] == sch0[k]);
            }
        }
        p = p + 1;
    }
}

/// The node a client op is delivered to: its explicit route, else its
/// process, either taken modulo the cluster size.
pub open spec fn target_of(route: Option<NodeId>, process: NodeId, node_count: nat) -> int {
    match route {
        Some(n) => (n.0 as int) % (node_count as int),
        None => (process.0 as int) % (node_count as int),
    }
}

/// The freshest token, held by the last open op, is found there.
proof fn lemma_newest_pending(p: Seq<PendingOp>, tok: u64)
    requires
        p.len() > 0,
        p.last().token == tok,
        forall|i: int| 0 <= i < p.len() - 1 ==> (#[trigger] p[i]).token < tok,
    ensures
        pending_index(p, tok) == Some(p.len() - 1),
{
    assert(p[p.len() - 1].token == tok);
    let j = choose|j: int| 0 <= j < p.len() && (#[trigger] p[j]).token == tok;
    if j != p.len() - 1 {
        assert(p[j].token < tok);
    }
}

/// Start a client op that the codec decoded as `decoded` (`None` when it
/// could not), for `process`, routed to the node that `client_op_target`
/// picks, which is up exactly when `target_up`. An undecodable op records
/// its `Invoke` (with `op_function`'s name) and an immediate `Fail`, and
/// never reaches a node; a decoded op whose node is down records its
/// `Invoke` and an immediate `Info`; otherwise the op's `Invoke` is
/// recorded, the op stays open, serviced by its node, and its token is
/// returned for the node to complete.
pub fn begin_client_op<M, T>(
    core: &mut SchedCore<M, T>,
    process: NodeId,
    op: &FrozenOp,
    decoded: Option<Function>,
    target_up: bool,
) -> (tok: Option<OpToken>)
    requires
        old(core).wf(),
        old(core).next_token < u64::MAX,
        old(core).node_count > 0,
    ensures
        final(core).wf(),
        final(core).queue == old(core).queue,
        final(core).seq == old(core).seq,
        final(core).now == old(core).now,
        final(core).crashed == old(core).crashed,
        final(core).partitions == old(core).partitions,
        final(core).events == old(core).events,
        final(core).next_token == old(core).next_token + 1,
        ({
            let h = old(core).hist();
            let n = h.len() as int;
            let pid = ProcessId(process.0);
            let now = old(core).now;
            match decoded {
                None => {
                    &&& tok is None
                    &&& final(core).pending_ops@ == old(core).pending_ops@
                    &&& final(core).hist() == h.push(
                        op_entry(n, now, OpKind::Invoke, pid, op_function_name(op.op@), op.op@),
                    ).push(op_entry(n + 1, now, OpKind::Fail, pid, op_function_name(op.op@), VValue::Nil))
                },
                Some(f) => if !target_up {
                    &&& tok is None
                    &&& final(core).pending_ops@ == old(core).pending_ops@
                    &&& final(core).hist() == h.push(
                        op_entry(n, now, OpKind::Invoke, pid, f.0@, op.op@),
                    ).push(op_entry(n + 1, now, OpKind::Info, pid, f.0@, VValue::Nil))
                } else {
                    &&& tok == Some(OpToken(old(core).next_token))
                    &&& final(core).hist() == h.push(op_entry(n, now, OpKind::Invoke, pid, f.0@, op.op@))
                    &&& final(core).pending_ops@.len() == old(core).pending_ops@.len() + 1
                    &&& final(core).pending_ops@.drop_last() == old(core).pending_ops@
                    &&& final(core).pending_ops@.last().token == old(core).next_token
                    &&& final(core).pending_ops@.last().process == pid
                    &&& final(core).pending_ops@.last().node.0 == target_of(
                        op.route,
                        process,
                        old(core).node_count as nat,
                    )
                    &&& final(core).pending_ops@.last().f.0@ == f.0@
                },
            }
        }),
{
    let target = client_op_target(op, process, core.node_count);
    let pid = ProcessId(process.0);
    let ghost p0 = core.pending_ops@;
    match decoded {
        None => {
            let tok = core.open_op(pid, NodeId(target as u64), op_function(op), clone_value(&op.op));
            proof {
                lemma_newest_pending(core.pending_ops@, tok.0);
            }
            core.close_op(tok, OpKind::Fail, Value::Nil);
            proof {
                assert(core.pending_ops@ =~= p0);
            }
            None
        },
        Some(f) => {
            let tok = core.open_op(pid, NodeId(target as u64), f, clone_value(&op.op));
            if !target_up {
                proof {
                    lemma_newest_pending(core.pending_ops@, tok.0);
                }
                core.close_op(tok, OpKind::Info, Value::Nil);
                proof {
                    assert(core.pending_ops@ =~= p0);
                }
                None
            } else {
                Some(tok)
            }
        },
    }
}

/// Finish a client op the node answered: a synchronous response `Some(v)`
/// closes it as a success with that value, as `close_op` does; `None` (the
/// node left it pending) changes nothing.
pub fn finish_client_op<M, T>(core: &mut SchedCore<M, T>, tok: OpToken, done: Option<Value>)
    requires
        old(core).wf(),
    ensures
        final(core).wf(),
        final(core).queue == old(core).queue,
        final(core).now == old(core).now,
        final(core).crashed == old(core).crashed,
        final(core).next_token == old(core).next_token,
        match done {
            None => final(core).hist() == old(core).hist() && final(core).pending_ops@
                == old(core).pending_ops@,
            Some(v) => match pending_index(old(core).pending_ops@, tok.0) {
                None => final(core).hist() == old(core).hist() && final(core).pending_ops@
                    == old(core).pending_ops@,
                Some(i) => {
                    &&& final(core).pending_ops@ == old(core).pending_ops@.remove(i)
                    &&& final(core).hist() == old(core).hist().push(
                        op_entry(
                            old(core).hist().len() as int,
                            old(core).now,
                            OpKind::Success,
                            old(core).pending_ops@[i].process,
                            old(core).pending_ops@[i].f.0@,
                            v@,
                        ),
                    )
                },
            },
        },
{
    match done {
        Some(v) => core.close_op(tok, OpKind::Success, v),
        None => {},
    }
}

/// The positions among the first `k` ops whose process maps to queue `p`
/// of `n` (`process % n`), in order.
pub open spec fn queue_positions(ops: Seq<FrozenOp>, n: int, p: int, k: int) -> Seq<usize>
    decreases k,
{
    if k <= 0 {
        Seq::empty()
    } else if (ops[k - 1].process.0 as int) % n == p {
        queue_positions(ops, n, p, k - 1).push((k - 1) as usize)
    } else {
        queue_positions(ops, n, p, k - 1)
    }
}

/// Group the op stream per process for gated issue: queue `p` holds, in
/// order, the positions of the ops whose process is `p` modulo the cluster
/// size.
pub fn group_by_process(ops: &Vec<FrozenOp>, node_count: usize) -> (queues: Vec<Vec<usize>>)
    requires
        node_count > 0,
    ensures
        queues@.len() == node_count,
        forall|p: int|
            0 <= p < node_count ==> (#[trigger] queues@[p])@ == queue_positions(
                ops@,
                node_count as int,
                p,
                ops@.len() as int,
            ),
{
    let mut queues: Vec<Vec<usize>> = Vec::new();
    let mut p: usize = 0;
    while p < node_count
        invariant
            p <= node_count,
            queues@.len() == p,
            forall|q: int|
                0 <= q < p ==> (#[trigger] queues@[q])@ == queue_positions(
                    ops@,
                    node_count as int,
                    q,
                    ops@.len() as int,
                ),
        decreases node_count - p,
    {
        let mut mine: Vec<usize> = Vec::new();
        let mut i: usize = 0;
        while i < ops.len()
            invariant
                i <= ops@.len(),
                p < node_count,
                mine@ == queue_positions(ops@, node_count as int, p as int, i as int),
            decreases ops.len() - i,
        {
            if ((ops[i].process.0 % (node_count as u64)) as usize) == p {
                mine.push(i);
            }
            i = i + 1;
        }
        queues.push(mine);
        p = p + 1;
    }
    queues
}

/// The node a client op is delivered to.
pub fn client_op_target(op: &FrozenOp, process: NodeId, node_count: usize) -> (t: usize)
    requires
        node_count > 0,
    ensures
        t == target_of(op.route, process, node_count as nat),
        t < node_count,
{
    match op.route {
        Some(n) => (n.0 % (node_count as u64)) as usize,
        None => (process.0 % (node_count as u64)) as usize,
    }
}

} // verus!
