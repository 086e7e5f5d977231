//! The single-threaded, virtual-time discrete-event scheduler core.
//!
//! Determinism rests on three rules: one thread; the event queue orders by
//! `(at, seq)` where `seq` is a global monotonic enqueue counter, so events at
//! the same virtual instant fire in a fixed, seed-independent order; and all
//! randomness flows from the one seeded [`SimRng`]. Decision paths use ordered
//! containers only.
//!
//! Virtual time is kept as whole nanoseconds.

use std::collections::BTreeMap;
use std::time::Duration;
use vstd::prelude::*;

use crate::duration::{duration_nanos, duration_of_nanos, max_duration_nanos};
use crate::history::log::{entries_view, History};
use crate::history::op::{EntryV, Function, OpEntry, OpKind, ProcessId, Value, VValue};
use crate::history::time::{Clock, Time};
use crate::node::{NodeId, OpToken};
use crate::sim::open_ops::OpenOps;
use crate::sim::rng::{draw_at, splitmix_mix, state_after, SimRng, GOLDEN_GAMMA};
use crate::transport::{roll_of, NetworkModel, Prob, Roll};

verus! {

/// A run-level event a property's deadline can be anchored to.
#[derive(Clone, Debug, PartialEq, Eq)]
pub enum RunEvent {
    /// All partitions have healed, at the given virtual time.
    NetworkHealed(Duration),
    /// A node rejoined after a crash, at the given virtual time.
    NodeRejoined(Duration, NodeId),
}

/// A resolved fault action on the timeline.
#[derive(Clone, Debug)]
pub enum FaultAction {
    Partition(Vec<NodeId>, Vec<NodeId>),
    HealAll,
    Crash(NodeId),
    Restart(NodeId),
}

/// What a scheduled event does when it fires.
pub enum EventKind<M, T> {
    /// Deliver `msg` from `from` to `to`.
    Deliver { from: NodeId, to: NodeId, msg: M },
    /// Fire timer `timer` (identified by `key`) on `node`; `gen` guards against
    /// firing a cancelled or replaced timer.
    Timer { node: NodeId, key: String, timer: T, gen: u64 },
    /// Issue client op `index` for `process`.
    ClientOp { process: NodeId, index: usize },
    /// Apply a fault action.
    Fault { action: FaultAction },
}

/// A scheduled event, ordered by `(at, seq)`.
pub struct Scheduled<M, T> {
    /// Virtual time, in nanoseconds.
    pub at: u128,
    /// Global enqueue order.
    pub seq: u64,
    pub kind: EventKind<M, T>,
}

/// A resolved event handed back from [`SchedCore::pop`] for the driver to
/// dispatch.
pub enum PoppedEvent<M, T> {
    Deliver { from: NodeId, to: NodeId, msg: M },
    Timer { node: NodeId, timer: T },
    ClientOp { process: NodeId, index: usize },
    Fault { rejoined: Option<NodeId> },
}

/// An open client op: the process of its recorded `Invoke`, the node
/// servicing it, and the `:f` to reuse for its completion entry.
pub struct PendingOp {
    pub token: u64,
    pub process: ProcessId,
    pub node: NodeId,
    pub f: Function,
}

/// The scheduler state that is not the node slice.
pub struct SchedCore<M, T> {
    /// Current virtual time, in nanoseconds.
    pub now: u128,
    /// The one seeded random source.
    pub rng: SimRng,
    /// The active network model.
    pub model: NetworkModel,
    /// Events at or after this virtual time (nanoseconds) are not fired.
    pub horizon: u128,
    /// Pending events, in `(at, seq)` order.
    pub queue: Vec<Scheduled<M, T>>,
    /// The next enqueue sequence number.
    pub seq: u64,
    /// Per `(node, timer key)` current generation.
    pub timer_gen: Vec<(u64, String, u64)>,
    /// Active partition groups; empty means fully connected.
    pub partitions: Vec<Vec<NodeId>>,
    /// Crashed nodes.
    pub crashed: Vec<NodeId>,
    /// Per-link last scheduled delivery time, for FIFO links.
    pub last_link: BTreeMap<(u64, u64), u128>,
    /// The recorded operation history.
    pub history: History,
    /// Run-level events for deadline anchoring.
    pub events: Vec<RunEvent>,
    /// Open client ops, in token order.
    pub pending_ops: OpenOps,
    /// The next op token.
    pub next_token: u64,
    /// The cluster size.
    pub node_count: usize,
}

/// Whether `a` fires before `b`.
pub open spec fn fires_before<M, T>(a: Scheduled<M, T>, b: Scheduled<M, T>) -> bool {
    a.at < b.at || (a.at == b.at && a.seq < b.seq)
}

/// Strictly increasing `(at, seq)` order.
pub open spec fn queue_sorted<M, T>(q: Seq<Scheduled<M, T>>) -> bool {
    forall|i: int, j: int| 0 <= i < j < q.len() ==> fires_before(#[trigger] q[i], #[trigger] q[j])
}

/// Strictly increasing tokens.
pub open spec fn tokens_sorted(p: Seq<PendingOp>) -> bool {
    forall|i: int, j: int| 0 <= i < j < p.len() ==> (#[trigger] p[i]).token < (#[trigger] p[j]).token
}

/// The virtual time recorded in history entries: nanoseconds, saturating at
/// `i64::MAX`.
pub open spec fn nanos_stamp(now: u128) -> i64 {
    if now <= i64::MAX {
        now as i64
    } else {
        i64::MAX
    }
}

/// The entry recorded for an op of `process` and function `f` at `now`.
pub open spec fn op_entry(index: int, now: u128, kind: OpKind, process: ProcessId, f: Seq<char>, value: VValue) -> EntryV {
    EntryV {
        index: index as u64,
        nanos: nanos_stamp(now),
        clock: Clock::Virtual,
        kind,
        process: process.0,
        f,
        value,
    }
}

/// The index of the pending op holding `token`, if any.
pub open spec fn pending_index(p: Seq<PendingOp>, token: u64) -> Option<int> {
    if exists|i: int| 0 <= i < p.len() && (#[trigger] p[i]).token == token {
        Some(choose|i: int| 0 <= i < p.len() && (#[trigger] p[i]).token == token)
    } else {
        None
    }
}

/// The history after closing the ops `ops` (in order) at `now`, each with
/// `kind` and `value`.
pub open spec fn closing_entries(start: int, now: u128, ops: Seq<PendingOp>, kind: OpKind, value: VValue) -> Seq<EntryV> {
    Seq::new(
        ops.len(),
        |i: int| op_entry(start + i, now, kind, ops[i].process, ops[i].f.0@, value),
    )
}

/// Whether `n` is among the crashed nodes.
pub open spec fn is_crashed(crashed: Seq<NodeId>, n: NodeId) -> bool {
    crashed.contains(n)
}

/// Whether `a` and `b` can currently exchange messages: neither is crashed,
/// and there is no partition or both fall in the same partition group.
pub open spec fn can_talk(crashed: Seq<NodeId>, partitions: Seq<Vec<NodeId>>, a: NodeId, b: NodeId) -> bool {
    !crashed.contains(a) && !crashed.contains(b) && (partitions.len() == 0 || exists|g: int|
        0 <= g < partitions.len() && (#[trigger] partitions[g])@.contains(a) && partitions[g]@.contains(b))
}

/// The current generation of timer `key` on `node` (zero if never armed).
pub open spec fn gen_of(gens: Seq<(u64, String, u64)>, node: u64, key: Seq<char>) -> u64
    decreases gens.len(),
{
    if gens.len() == 0 {
        0
    } else if gens[0].0 == node && gens[0].1@ == key {
        gens[0].2
    } else {
        gen_of(gens.drop_first(), node, key)
    }
}

impl<M, T> SchedCore<M, T> {
    /// The structural invariant: the queue is in `(at, seq)` order with every
    /// sequence number already issued and every time a valid duration no
    /// earlier than now; now is no later than the horizon; open ops are in
    /// token order with every token already issued; history entries carry
    /// their positions as indices.
    pub open spec fn wf(&self) -> bool {
        &&& queue_sorted(self.queue@)
        &&& forall|i: int| 0 <= i < self.queue@.len() ==> (#[trigger] self.queue@[i]).seq < self.seq
            && self.queue@[i].at <= max_duration_nanos() && self.now <= self.queue@[i].at
        &&& self.now <= self.horizon
        &&& self.horizon <= max_duration_nanos()
        &&& self.pending_ops.wf()
        &&& tokens_sorted(self.pending_ops@)
        &&& forall|i: int| 0 <= i < self.pending_ops@.len() ==> (#[trigger] self.pending_ops@[i]).token < self.next_token
        &&& forall|i: int| 0 <= i < self.history@.len() ==> (#[trigger] self.history@[i]).index == i
        &&& forall|k: (u64, u64)| #[trigger] self.last_link@.contains_key(k) ==> self.last_link@[k] <= max_duration_nanos()
    }

    /// The history entries.
    pub open spec fn hist(&self) -> Seq<EntryV> {
        self.history@
    }
}

/// Nanoseconds of virtual time as recorded in history entries, saturating at
/// `i64::MAX`.
pub fn now_nanos(now: u128) -> (n: i64)
    ensures
        n == nanos_stamp(now),
{
    if now <= i64::MAX as u128 {
        now as i64
    } else {
        i64::MAX
    }
}

/// The number of leading events of a sorted queue at or before `at`: where
/// a new event at `at` (with the largest sequence number yet) goes.
pub open spec fn insert_pos<M, T>(q: Seq<Scheduled<M, T>>, at: u128) -> int
    decreases q.len(),
{
    if q.len() == 0 {
        0
    } else if q[0].at <= at {
        1 + insert_pos(q.drop_first(), at)
    } else {
        0
    }
}

pub proof fn lemma_insert_pos_bounds<M, T>(q: Seq<Scheduled<M, T>>, at: u128)
    ensures
        0 <= insert_pos(q, at) <= q.len(),
    decreases q.len(),
{
    if q.len() > 0 && q[0].at <= at {
        lemma_insert_pos_bounds(q.drop_first(), at);
    }
}

/// Clone a function name.
fn clone_function(f: &Function) -> (r: Function)
    ensures
        r.0@ == f.0@,
{
    Function(f.0.clone())
}

impl<M, T> SchedCore<M, T> {
    /// A fresh scheduler at virtual time zero with a ten-second horizon.
    pub fn new(seed: u64, model: NetworkModel, node_count: usize) -> (c: SchedCore<M, T>)
        ensures
            c.wf(),
            c.now == 0,
            c.rng.state() == seed,
            c.model == model,
            c.horizon == 10_000_000_000,
            c.queue@.len() == 0,
            c.seq == 0,
            c.timer_gen@.len() == 0,
            c.partitions@.len() == 0,
            c.crashed@.len() == 0,
            c.last_link@ == Map::<(u64, u64), u128>::empty(),
            c.hist().len() == 0,
            c.events@.len() == 0,
            c.pending_ops@.len() == 0,
            c.next_token == 0,
            c.node_count == node_count,
    {
        SchedCore {
            now: 0,
            rng: SimRng::new(seed),
            model,
            horizon: 10_000_000_000,
            queue: Vec::new(),
            seq: 0,
            timer_gen: Vec::new(),
            partitions: Vec::new(),
            crashed: Vec::new(),
            last_link: BTreeMap::new(),
            history: History(Vec::new()),
            events: Vec::new(),
            pending_ops: OpenOps::new(),
            next_token: 0,
            node_count,
        }
    }

    /// Set the horizon: events at or after it are not fired. It may not lie
    /// before the current time.
    pub fn set_horizon(&mut self, horizon: u128)
        requires
            old(self).wf(),
            old(self).now <= horizon <= max_duration_nanos(),
        ensures
            final(self).wf(),
            *final(self) == (SchedCore { horizon, ..*old(self) }),
    {
        self.horizon = horizon;
    }

    /// Install the active network model.
    pub fn set_model(&mut self, model: NetworkModel)
        requires
            old(self).wf(),
        ensures
            final(self).wf(),
            *final(self) == (SchedCore { model, ..*old(self) }),
    {
        self.model = model;
    }

    /// The current virtual time.
    pub fn now_duration(&self) -> (d: Duration)
        requires
            self.wf(),
        ensures
            duration_nanos(d) == self.now,
    {
        duration_of_nanos(self.now)
    }

    /// Put an event on the queue after every event at or before its time.
    pub fn enqueue(&mut self, at: u128, kind: EventKind<M, T>)
        requires
            old(self).wf(),
            old(self).now <= at <= max_duration_nanos(),
            old(self).seq < u64::MAX,
        ensures
            final(self).wf(),
            final(self).queue@ == old(self).queue@.insert(
                insert_pos(old(self).queue@, at),
                Scheduled { at, seq: old(self).seq, kind },
            ),
            final(self).seq == old(self).seq + 1,
            final(self).now == old(self).now,
            final(self).rng == old(self).rng,
            final(self).model == old(self).model,
            final(self).horizon == old(self).horizon,
            final(self).timer_gen == old(self).timer_gen,
            final(self).partitions == old(self).partitions,
            final(self).crashed == old(self).crashed,
            final(self).last_link == old(self).last_link,
            final(self).history == old(self).history,
            final(self).events == old(self).events,
            final(self).pending_ops == old(self).pending_ops,
            final(self).next_token == old(self).next_token,
            final(self).node_count == old(self).node_count,
    {
        let ghost q = self.queue@;
        let mut i: usize = 0;
        proof {
            assert(q.skip(0) =~= q);
            lemma_insert_pos_bounds(q, at);
        }
        while i < self.queue.len() && self.queue[i].at <= at
            invariant
                i <= self.queue.len(),
                q == self.queue@,
                insert_pos(q, at) == i + insert_pos(q.skip(i as int), at),
                forall|k: int| 0 <= k < i ==> (#[trigger] q[k]).at <= at,
            decreases self.queue.len() - i,
        {
            assert(q.skip(i as int)[0] == q[i as int]);
            assert(q.skip(i as int).drop_first() =~= q.skip(i + 1));
            i = i + 1;
        }
        proof {
            if i < q.len() {
                assert(q.skip(i as int)[0] == q[i as int]);
            }
            assert(insert_pos(q.skip(i as int), at) == 0);
        }
        let seq = self.seq;
        self.seq = self.seq + 1;
        let ghost item = Scheduled { at, seq, kind };
        self.queue.insert(i, Scheduled { at, seq, kind });
        proof {
            let nq = self.queue@;
            assert(nq == q.insert(i as int, item));
            assert forall|a: int, b: int| 0 <= a < b < nq.len() implies fires_before(#[trigger] nq[a], #[trigger] nq[b]) by {
                if b < i {
                    assert(nq[a] == q[a] && nq[b] == q[b]);
                } else if b == i {
                    assert(nq[a] == q[a]);
                } else if a < i {
                    assert(nq[a] == q[a] && nq[b] == q[b - 1]);
                    assert(q[b - 1].at >= q[i as int].at) by {
                        if b - 1 > i {
                            assert(fires_before(q[i as int], q[b - 1]));
                        }
                    }
                } else if a == i {
                    assert(nq[b] == q[b - 1]);
                    assert(q[b - 1].at >= q[i as int].at) by {
                        if b - 1 > i {
                            assert(fires_before(q[i as int], q[b - 1]));
                        }
                    }
                } else {
                    assert(nq[a] == q[a - 1] && nq[b] == q[b - 1]);
                }
            }
            assert forall|k: int| 0 <= k < nq.len() implies (#[trigger] nq[k]).seq < self.seq
                && nq[k].at <= max_duration_nanos() && self.now <= nq[k].at by {
                if k < i {
                    assert(nq[k] == q[k]);
                } else if k > i {
                    assert(nq[k] == q[k - 1]);
                }
            }
        }
    }

    /// Record an `Invoke` at the current virtual time, register a pending op
    /// serviced by `node`, and return its token.
    pub fn open_op(&mut self, process: ProcessId, node: NodeId, f: Function, value: Value) -> (tok: OpToken)
        requires
            old(self).wf(),
            old(self).next_token < u64::MAX,
        ensures
            final(self).wf(),
            tok.0 == old(self).next_token,
            final(self).next_token == old(self).next_token + 1,
            final(self).hist() == old(self).hist().push(
                op_entry(old(self).hist().len() as int, old(self).now, OpKind::Invoke, process, f.0@, value@),
            ),
            final(self).pending_ops@.len() == old(self).pending_ops@.len() + 1,
            final(self).pending_ops@.drop_last() == old(self).pending_ops@,
            final(self).pending_ops@.last().token == tok.0,
            final(self).pending_ops@.last().process == process,
            final(self).pending_ops@.last().node == node,
            final(self).pending_ops@.last().f.0@ == f.0@,
            final(self).queue == old(self).queue,
            final(self).seq == old(self).seq,
            final(self).now == old(self).now,
            final(self).crashed == old(self).crashed,
            final(self).partitions == old(self).partitions,
            final(self).events == old(self).events,
    {
        let index = self.history.0.len() as u64;
        let g = clone_function(&f);
        let ghost before = self.history.0@;
        self.history.0.push(OpEntry {
            index,
            time: Time::virtual_nanos(now_nanos(self.now)),
            kind: OpKind::Invoke,
            process,
            f: g,
            value,
        });
        assert(entries_view(self.history.0@) =~= entries_view(before).push(self.history.0@.last()@));
        let tok = self.next_token;
        self.next_token = self.next_token + 1;
        let ghost pbefore = self.pending_ops@;
        self.pending_ops.push(PendingOp { token: tok, process, node, f });
        assert(self.pending_ops@.drop_last() =~= pbefore);
        proof {
            let n = self.pending_ops@;
            assert forall|a: int, b: int| 0 <= a < b < n.len() implies (#[trigger] n[a]).token < (
            #[trigger] n[b]).token by {
                if b < pbefore.len() {
                    assert(n[a] == pbefore[a] && n[b] == pbefore[b]);
                } else {
                    assert(n[a] == pbefore[a]);
                }
            }
        }
        OpToken(tok)
    }
}

/// The open ops serviced by node `node`, in order.
pub open spec fn ops_of(p: Seq<PendingOp>, node: u64) -> Seq<PendingOp>
    decreases p.len(),
{
    if p.len() == 0 {
        Seq::empty()
    } else if p.last().node.0 == node {
        ops_of(p.drop_last(), node).push(p.last())
    } else {
        ops_of(p.drop_last(), node)
    }
}

/// The open ops serviced by nodes other than `node`, in order.
pub open spec fn ops_not_of(p: Seq<PendingOp>, node: u64) -> Seq<PendingOp>
    decreases p.len(),
{
    if p.len() == 0 {
        Seq::empty()
    } else if p.last().node.0 != node {
        ops_not_of(p.drop_last(), node).push(p.last())
    } else {
        ops_not_of(p.drop_last(), node)
    }
}

/// The nodes other than `n`, in order.
pub open spec fn without_node(c: Seq<NodeId>, n: NodeId) -> Seq<NodeId>
    decreases c.len(),
{
    if c.len() == 0 {
        Seq::empty()
    } else if c.last() != n {
        without_node(c.drop_last(), n).push(c.last())
    } else {
        without_node(c.drop_last(), n)
    }
}

/// Node ids `0..n` other than `me`, in order.
pub open spec fn peer_ids(n: nat, me: u64) -> Seq<NodeId>
    decreases n,
{
    if n == 0 {
        Seq::empty()
    } else if n - 1 != me {
        peer_ids((n - 1) as nat, me).push(NodeId((n - 1) as u64))
    } else {
        peer_ids((n - 1) as nat, me)
    }
}

/// How applying a fault action changes the fault-related state, from the
/// crashed set, partitions, history, open ops and run events before it, at
/// virtual time `now`.
pub open spec fn fault_applied<M, T>(
    crashed: Seq<NodeId>,
    partitions: Seq<Vec<NodeId>>,
    hist: Seq<EntryV>,
    pending: Seq<PendingOp>,
    events: Seq<RunEvent>,
    now: u128,
    post: SchedCore<M, T>,
    action: FaultAction,
    rejoined: Option<NodeId>,
) -> bool {
    match action {
        FaultAction::Partition(a, b) => {
            &&& post.partitions@ == seq![a, b]
            &&& post.crashed@ == crashed
            &&& post.hist() == hist
            &&& post.pending_ops@ == pending
            &&& post.events@ == events
            &&& rejoined is None
        },
        FaultAction::HealAll => {
            &&& post.partitions@.len() == 0
            &&& post.crashed@ == crashed
            &&& post.hist() == hist
            &&& post.pending_ops@ == pending
            &&& post.events@.len() == events.len() + 1
            &&& post.events@.drop_last() == events
            &&& post.events@.last() matches RunEvent::NetworkHealed(d)
            &&& duration_nanos(d) == now
            &&& rejoined is None
        },
        FaultAction::Crash(n) => {
            &&& post.partitions@ == partitions
            &&& post.crashed@ == (if crashed.contains(n) {
                crashed
            } else {
                crashed.push(n)
            })
            &&& post.pending_ops@ == ops_not_of(pending, n.0)
            &&& post.hist() == hist + closing_entries(
                hist.len() as int,
                now,
                ops_of(pending, n.0),
                OpKind::Info,
                VValue::Nil,
            )
            &&& post.events@ == events
            &&& rejoined is None
        },
        FaultAction::Restart(n) => {
            &&& post.partitions@ == partitions
            &&& post.crashed@ == without_node(crashed, n)
            &&& post.hist() == hist
            &&& post.pending_ops@ == pending
            &&& post.events@.len() == events.len() + 1
            &&& post.events@.drop_last() == events
            &&& post.events@.last() matches RunEvent::NodeRejoined(d, m)
            &&& duration_nanos(d) == now
            &&& m == n
            &&& rejoined == Some(n)
        },
    }
}

/// Ops keep their order when some are removed.
proof fn lemma_tokens_sorted_remove(p: Seq<PendingOp>, i: int)
    requires
        tokens_sorted(p),
        0 <= i < p.len(),
    ensures
        tokens_sorted(p.remove(i)),
{
    let r = p.remove(i);
    assert forall|a: int, b: int| 0 <= a < b < r.len() implies (#[trigger] r[a]).token < (#[trigger] r[b]).token by {
        let a0 = if a < i { a } else { a + 1 };
        let b0 = if b < i { b } else { b + 1 };
        assert(r[a] == p[a0]);
        assert(r[b] == p[b0]);
    }
}

/// Whether two texts are the same.
fn same_text(a: &str, b: &str) -> (r: bool)
    ensures
        r == (a@ == b@),
{
    let x = crate::text::chars_of(a);
    assert(x@.subrange(0, x.len() as int) =~= x@);
    crate::history::op::chars_eq(&x, 0, x.len(), b)
}

/// Whether `v` holds `n`.
fn holds_node(v: &Vec<NodeId>, n: NodeId) -> (r: bool)
    ensures
        r == v@.contains(n),
{
    let mut i: usize = 0;
    while i < v.len()
        invariant
            i <= v.len(),
            forall|k: int| 0 <= k < i ==> v@[k] != n,
        decreases v.len() - i,
    {
        if v[i] == n {
            assert(v@[i as int] == n);
            return true;
        }
        i = i + 1;
    }
    false
}

impl<M, T> SchedCore<M, T> {
    /// Close a pending op at the current virtual time, recording its terminal
    /// entry with the same `:f` as its `Invoke`. A no-op on an unknown or
    /// already-closed token, so double completion is safe.
    pub fn close_op(&mut self, token: OpToken, kind: OpKind, value: Value)
        requires
            old(self).wf(),
        ensures
            final(self).wf(),
            match pending_index(old(self).pending_ops@, token.0) {
                None => final(self).hist() == old(self).hist() && final(self).pending_ops@
                    == old(self).pending_ops@,
                Some(i) => {
                    &&& final(self).pending_ops@ == old(self).pending_ops@.remove(i)
                    &&& final(self).hist() == old(self).hist().push(
                        op_entry(
                            old(self).hist().len() as int,
                            old(self).now,
                            kind,
                            old(self).pending_ops@[i].process,
                            old(self).pending_ops@[i].f.0@,
                            value@,
                        ),
                    )
                },
            },
            final(self).queue == old(self).queue,
            final(self).seq == old(self).seq,
            final(self).now == old(self).now,
            final(self).rng == old(self).rng,
            final(self).model == old(self).model,
            final(self).horizon == old(self).horizon,
            final(self).timer_gen == old(self).timer_gen,
            final(self).crashed == old(self).crashed,
            final(self).partitions == old(self).partitions,
            final(self).last_link == old(self).last_link,
            final(self).events == old(self).events,
            final(self).next_token == old(self).next_token,
            final(self).node_count == old(self).node_count,
    {
        let ghost p = self.pending_ops@;
        let op = match self.pending_ops.take(token.0) {
            None => {
                return;
            },
            Some(op) => op,
        };
        proof {
            let i = pending_index(p, token.0)->0;
            lemma_tokens_sorted_remove(p, i);
            assert forall|k: int| 0 <= k < self.pending_ops@.len() implies (#[trigger] self.pending_ops@[k]).token < self.next_token by {
                if k < i {
                    assert(self.pending_ops@[k] == p[k]);
                } else {
                    assert(self.pending_ops@[k] == p[k + 1]);
                }
            }
        }
        self.record(kind, op.process, op.f, value);
    }

    /// Append an entry for `process` at the current virtual time.
    fn record(&mut self, kind: OpKind, process: ProcessId, f: Function, value: Value)
        requires
            old(self).wf(),
        ensures
            final(self).wf(),
            final(self).hist() == old(self).hist().push(
                op_entry(old(self).hist().len() as int, old(self).now, kind, process, f.0@, value@),
            ),
            final(self).pending_ops == old(self).pending_ops,
            final(self).queue == old(self).queue,
            final(self).seq == old(self).seq,
            final(self).now == old(self).now,
            final(self).rng == old(self).rng,
            final(self).model == old(self).model,
            final(self).horizon == old(self).horizon,
            final(self).timer_gen == old(self).timer_gen,
            final(self).crashed == old(self).crashed,
            final(self).partitions == old(self).partitions,
            final(self).last_link == old(self).last_link,
            final(self).events == old(self).events,
            final(self).next_token == old(self).next_token,
            final(self).node_count == old(self).node_count,
    {
        let index = self.history.0.len() as u64;
        let ghost before = self.history.0@;
        self.history.0.push(OpEntry {
            index,
            time: Time::virtual_nanos(now_nanos(self.now)),
            kind,
            process,
            f,
            value,
        });
        assert(entries_view(self.history.0@) =~= entries_view(before).push(self.history.0@.last()@));
    }
}

/// The number of terminal (`Ok`/`Fail`/`Info`) entries of `process`.
pub open spec fn closed_count(h: Seq<EntryV>, process: u64) -> nat
    decreases h.len(),
{
    if h.len() == 0 {
        0
    } else {
        closed_count(h.drop_last(), process) + (if h.last().process == process && h.last().kind
            != OpKind::Invoke {
            1nat
        } else {
            0nat
        })
    }
}

/// The current generation after bumping `(node, key)` once (wrapping).
pub open spec fn bumped(g: u64) -> u64 {
    if g == u64::MAX {
        0
    } else {
        (g + 1) as u64
    }
}

proof fn lemma_gen_of_update(gens: Seq<(u64, String, u64)>, i: int, x: (u64, String, u64), node: u64, key: Seq<char>)
    requires
        0 <= i < gens.len(),
        gens[i].0 == x.0 && gens[i].1@ == x.1@,
        forall|k: int| 0 <= k < i ==> !((#[trigger] gens[k]).0 == x.0 && gens[k].1@ == x.1@),
    ensures
        (node == x.0 && key == x.1@) ==> gen_of(gens.update(i, x), node, key) == x.2,
        !(node == x.0 && key == x.1@) ==> gen_of(gens.update(i, x), node, key) == gen_of(gens, node, key),
    decreases i,
{
    let u = gens.update(i, x);
    if i > 0 {
        assert(u.drop_first() =~= gens.drop_first().update(i - 1, x));
        assert forall|k: int| 0 <= k < i - 1 implies !((#[trigger] gens.drop_first()[k]).0 == x.0
            && gens.drop_first()[k].1@ == x.1@) by {
            assert(gens.drop_first()[k] == gens[k + 1]);
        }
        lemma_gen_of_update(gens.drop_first(), i - 1, x, node, key);
    } else {
        assert(u.drop_first() =~= gens.drop_first());
    }
}

proof fn lemma_gen_of_push(gens: Seq<(u64, String, u64)>, x: (u64, String, u64), node: u64, key: Seq<char>)
    requires
        forall|k: int| 0 <= k < gens.len() ==> !((#[trigger] gens[k]).0 == x.0 && gens[k].1@ == x.1@),
    ensures
        (node == x.0 && key == x.1@) ==> gen_of(gens.push(x), node, key) == x.2,
        !(node == x.0 && key == x.1@) ==> gen_of(gens.push(x), node, key) == gen_of(gens, node, key),
    decreases gens.len(),
{
    if gens.len() > 0 {
        assert(gens.push(x).drop_first() =~= gens.drop_first().push(x));
        assert forall|k: int| 0 <= k < gens.len() - 1 implies !((#[trigger] gens.drop_first()[k]).0
            == x.0 && gens.drop_first()[k].1@ == x.1@) by {
            assert(gens.drop_first()[k] == gens[k + 1]);
        }
        lemma_gen_of_push(gens.drop_first(), x, node, key);
    } else {
        assert(gens.push(x)[0] == x);
        assert(gens.push(x).drop_first() =~= gens);
    }
}

impl<M, T> SchedCore<M, T> {
    /// The `:f` recorded for a still-open op.
    pub fn pending_f(&self, token: OpToken) -> (r: Option<Function>)
        requires
            self.wf(),
        ensures
            match pending_index(self.pending_ops@, token.0) {
                None => r is None,
                Some(i) => r matches Some(g) && g.0@ == self.pending_ops@[i].f.0@,
            },
    {
        match self.pending_ops.get(token.0) {
            Some(op) => Some(clone_function(&op.f)),
            None => None,
        }
    }

    /// How many ops of `process` have closed (recorded a terminal entry).
    pub fn closed_for(&self, process: ProcessId) -> (n: usize)
        ensures
            n == closed_count(self.hist(), process.0),
    {
        let ghost h = self.hist();
        let mut n: usize = 0;
        let mut i: usize = 0;
        assert(h.take(0) =~= Seq::<EntryV>::empty());
        while i < self.history.0.len()
            invariant
                i <= self.history.0.len(),
                h == self.hist(),
                h.len() == self.history.0.len(),
                n == closed_count(h.take(i as int), process.0),
                n <= i,
            decreases self.history.0.len() - i,
        {
            let e = &self.history.0[i];
            assert(h[i as int] == e@);
            assert(h.take(i + 1).drop_last() =~= h.take(i as int));
            assert(h.take(i + 1).last() == h[i as int]);
            match e.kind {
                OpKind::Invoke => {},
                _ => {
                    if e.process.0 == process.0 {
                        n = n + 1;
                    }
                },
            }
            i = i + 1;
        }
        assert(h.take(h.len() as int) =~= h);
        n
    }

    /// Whether `a` and `b` can currently exchange messages.
    pub fn connected(&self, a: NodeId, b: NodeId) -> (r: bool)
        ensures
            r == can_talk(self.crashed@, self.partitions@, a, b),
    {
        if holds_node(&self.crashed, a) || holds_node(&self.crashed, b) {
            return false;
        }
        if self.partitions.len() == 0 {
            return true;
        }
        let mut g: usize = 0;
        while g < self.partitions.len()
            invariant
                g <= self.partitions.len(),
                self.partitions@.len() > 0,
                !self.crashed@.contains(a),
                !self.crashed@.contains(b),
                forall|k: int| 0 <= k < g ==> !((#[trigger] self.partitions@[k])@.contains(a)
                    && self.partitions@[k]@.contains(b)),
            decreases self.partitions.len() - g,
        {
            if holds_node(&self.partitions[g], a) && holds_node(&self.partitions[g], b) {
                assert(self.partitions@[g as int]@.contains(a) && self.partitions@[g as int]@.contains(b));
                return true;
            }
            g = g + 1;
        }
        false
    }

    /// Whether `n` is crashed.
    pub fn is_crashed(&self, n: NodeId) -> (r: bool)
        ensures
            r == self.crashed@.contains(n),
    {
        holds_node(&self.crashed, n)
    }

    /// The other node ids, for a broadcast.
    pub fn peers(&self, me: NodeId) -> (r: Vec<NodeId>)
        ensures
            r@ == peer_ids(self.node_count as nat, me.0),
    {
        let mut r: Vec<NodeId> = Vec::new();
        let mut k: usize = 0;
        while k < self.node_count
            invariant
                k <= self.node_count,
                r@ == peer_ids(k as nat, me.0),
            decreases self.node_count - k,
        {
            if k as u64 != me.0 {
                r.push(NodeId(k as u64));
            }
            k = k + 1;
        }
        r
    }

    /// Whether a timer event of generation `gen` is still the current arming
    /// of `(node, key)`.
    pub fn timer_current(&self, node: NodeId, key: &str, gen: u64) -> (r: bool)
        ensures
            r == (gen_of(self.timer_gen@, node.0, key@) == gen),
    {
        let ghost g = self.timer_gen@;
        let mut i: usize = 0;
        assert(g.skip(0) =~= g);
        while i < self.timer_gen.len()
            invariant
                i <= self.timer_gen.len(),
                g == self.timer_gen@,
                gen_of(g, node.0, key@) == gen_of(g.skip(i as int), node.0, key@),
            decreases self.timer_gen.len() - i,
        {
            assert(g.skip(i as int)[0] == g[i as int]);
            assert(g.skip(i as int).drop_first() =~= g.skip(i + 1));
            if self.timer_gen[i].0 == node.0 && same_text(self.timer_gen[i].1.as_str(), key) {
                return self.timer_gen[i].2 == gen;
            }
            i = i + 1;
        }
        gen == 0
    }

    /// Bump the generation of `(node, key)`, returning the new generation.
    fn bump_gen(&mut self, node: NodeId, key: String) -> (g: u64)
        requires
            old(self).wf(),
        ensures
            final(self).wf(),
            g == bumped(gen_of(old(self).timer_gen@, node.0, key@)),
            gen_of(final(self).timer_gen@, node.0, key@) == g,
            forall|n: u64, k: Seq<char>|
                !(n == node.0 && k == key@) ==> #[trigger] gen_of(final(self).timer_gen@, n, k)
                    == gen_of(old(self).timer_gen@, n, k),
            final(self).queue == old(self).queue,
            final(self).seq == old(self).seq,
            final(self).now == old(self).now,
            final(self).rng == old(self).rng,
            final(self).model == old(self).model,
            final(self).horizon == old(self).horizon,
            final(self).crashed == old(self).crashed,
            final(self).partitions == old(self).partitions,
            final(self).last_link == old(self).last_link,
            final(self).history == old(self).history,
            final(self).events == old(self).events,
            final(self).pending_ops == old(self).pending_ops,
            final(self).next_token == old(self).next_token,
            final(self).node_count == old(self).node_count,
    {
        let ghost g0 = self.timer_gen@;
        let mut i: usize = 0;
        assert(g0.skip(0) =~= g0);
        while i < self.timer_gen.len() && !(self.timer_gen[i].0 == node.0 && same_text(
            self.timer_gen[i].1.as_str(),
            key.as_str(),
        ))
            invariant
                i <= self.timer_gen.len(),
                g0 == self.timer_gen@,
                gen_of(g0, node.0, key@) == gen_of(g0.skip(i as int), node.0, key@),
                forall|k: int| 0 <= k < i ==> !((#[trigger] g0[k]).0 == node.0 && g0[k].1@ == key@),
            decreases self.timer_gen.len() - i,
        {
            assert(g0.skip(i as int)[0] == g0[i as int]);
            assert(g0.skip(i as int).drop_first() =~= g0.skip(i + 1));
            i = i + 1;
        }
        if i < self.timer_gen.len() {
            assert(g0.skip(i as int)[0] == g0[i as int]);
            let old_gen = self.timer_gen[i].2;
            let next = old_gen.wrapping_add(1);
            let ghost kv = key@;
            let x = (node.0, key, next);
            proof {
                lemma_gen_of_update(g0, i as int, x, node.0, kv);
                assert forall|n: u64, k: Seq<char>| !(n == node.0 && k == kv) implies #[trigger] gen_of(
                    g0.update(i as int, x),
                    n,
                    k,
                ) == gen_of(g0, n, k) by {
                    lemma_gen_of_update(g0, i as int, x, n, k);
                }
            }
            self.timer_gen.set(i, x);
            next
        } else {
            let ghost kv = key@;
            let x = (node.0, key, 1u64);
            proof {
                assert(g0.skip(i as int) =~= Seq::<(u64, String, u64)>::empty());
                lemma_gen_of_push(g0, x, node.0, kv);
                assert forall|n: u64, k: Seq<char>| !(n == node.0 && k == kv) implies #[trigger] gen_of(
                    g0.push(x),
                    n,
                    k,
                ) == gen_of(g0, n, k) by {
                    lemma_gen_of_push(g0, x, n, k);
                }
            }
            self.timer_gen.push(x);
            1
        }
    }

    /// Arm timer `timer` (identified by `key`) on `node` to fire after
    /// `after` nanoseconds: a new generation, so any already-queued firing of
    /// the same timer is stale.
    pub fn arm_timer(&mut self, node: NodeId, key: String, timer: T, after: u128)
        requires
            old(self).wf(),
            old(self).now + after <= max_duration_nanos(),
            old(self).seq < u64::MAX,
        ensures
            final(self).wf(),
            gen_of(final(self).timer_gen@, node.0, key@) == bumped(
                gen_of(old(self).timer_gen@, node.0, key@),
            ),
            forall|n: u64, k: Seq<char>|
                !(n == node.0 && k == key@) ==> #[trigger] gen_of(final(self).timer_gen@, n, k)
                    == gen_of(old(self).timer_gen@, n, k),
            final(self).seq == old(self).seq + 1,
            final(self).queue@.len() == old(self).queue@.len() + 1,
            final(self).queue@ == old(self).queue@.insert(
                insert_pos(old(self).queue@, (old(self).now + after) as u128),
                final(self).queue@[insert_pos(old(self).queue@, (old(self).now + after) as u128)],
            ),
            final(self).queue@[insert_pos(old(self).queue@, (old(self).now + after) as u128)] matches Scheduled {
                at,
                seq,
                kind: EventKind::Timer { node: tn, key: tk, timer: tt, gen },
            } && at == old(self).now + after && seq == old(self).seq && tn == node && tk@ == key@
                && tt == timer && gen == gen_of(final(self).timer_gen@, node.0, key@),
            final(self).now == old(self).now,
            final(self).history == old(self).history,
            final(self).pending_ops == old(self).pending_ops,
            final(self).crashed == old(self).crashed,
            final(self).partitions == old(self).partitions,
    {
        let key2 = key.clone();
        let gen = self.bump_gen(node, key);
        let at = self.now + after;
        self.enqueue(at, EventKind::Timer { node, key: key2, timer, gen });
        proof {
            lemma_insert_pos_bounds(old(self).queue@, at);
        }
    }

    /// Cancel timer `key` on `node`: bump its generation so any queued firing
    /// is stale.
    pub fn cancel_timer(&mut self, node: NodeId, key: String)
        requires
            old(self).wf(),
        ensures
            final(self).wf(),
            gen_of(final(self).timer_gen@, node.0, key@) == bumped(
                gen_of(old(self).timer_gen@, node.0, key@),
            ),
            forall|n: u64, k: Seq<char>|
                !(n == node.0 && k == key@) ==> #[trigger] gen_of(final(self).timer_gen@, n, k)
                    == gen_of(old(self).timer_gen@, n, k),
            final(self).queue == old(self).queue,
            final(self).seq == old(self).seq,
            final(self).now == old(self).now,
            final(self).history == old(self).history,
            final(self).pending_ops == old(self).pending_ops,
            final(self).crashed == old(self).crashed,
            final(self).partitions == old(self).partitions,
    {
        self.bump_gen(node, key);
    }

    /// Schedule a fault action on the timeline.
    pub fn schedule_fault(&mut self, at: u128, action: FaultAction)
        requires
            old(self).wf(),
            old(self).now <= at <= max_duration_nanos(),
            old(self).seq < u64::MAX,
        ensures
            final(self).wf(),
            final(self).queue@ == old(self).queue@.insert(
                insert_pos(old(self).queue@, at),
                Scheduled { at, seq: old(self).seq, kind: EventKind::Fault { action } },
            ),
            final(self).seq == old(self).seq + 1,
            final(self).rng == old(self).rng,
            final(self).now == old(self).now,
            final(self).history == old(self).history,
            final(self).pending_ops == old(self).pending_ops,
            final(self).crashed == old(self).crashed,
            final(self).partitions == old(self).partitions,
            final(self).timer_gen == old(self).timer_gen,
    {
        self.enqueue(at, EventKind::Fault { action });
    }

    /// Schedule client op `index` of `process` on the timeline.
    pub fn schedule_client_op(&mut self, at: u128, process: NodeId, index: usize)
        requires
            old(self).wf(),
            old(self).now <= at <= max_duration_nanos(),
            old(self).seq < u64::MAX,
        ensures
            final(self).wf(),
            final(self).queue@ == old(self).queue@.insert(
                insert_pos(old(self).queue@, at),
                Scheduled { at, seq: old(self).seq, kind: EventKind::ClientOp { process, index } },
            ),
            final(self).seq == old(self).seq + 1,
            final(self).rng == old(self).rng,
            final(self).now == old(self).now,
            final(self).history == old(self).history,
            final(self).pending_ops == old(self).pending_ops,
            final(self).crashed == old(self).crashed,
            final(self).partitions == old(self).partitions,
            final(self).timer_gen == old(self).timer_gen,
    {
        self.enqueue(at, EventKind::ClientOp { process, index });
    }
}

proof fn lemma_closing_push(start: int, now: u128, ops: Seq<PendingOp>, x: PendingOp, kind: OpKind, value: VValue)
    ensures
        closing_entries(start, now, ops.push(x), kind, value) == closing_entries(start, now, ops, kind, value).push(
            op_entry(start + ops.len(), now, kind, x.process, x.f.0@, value),
        ),
{
    assert(closing_entries(start, now, ops.push(x), kind, value) =~= closing_entries(start, now, ops, kind, value).push(
        op_entry(start + ops.len(), now, kind, x.process, x.f.0@, value),
    ));
}

/// The nodes of `v` other than `n`.
fn without(v: &Vec<NodeId>, n: NodeId) -> (r: Vec<NodeId>)
    ensures
        r@ == without_node(v@, n),
{
    let mut r: Vec<NodeId> = Vec::new();
    let mut i: usize = 0;
    assert(v@.take(0) =~= Seq::<NodeId>::empty());
    while i < v.len()
        invariant
            i <= v.len(),
            r@ == without_node(v@.take(i as int), n),
        decreases v.len() - i,
    {
        assert(v@.take(i + 1).drop_last() =~= v@.take(i as int));
        assert(v@.take(i + 1).last() == v@[i as int]);
        if v[i] != n {
            r.push(v[i]);
        }
        i = i + 1;
    }
    assert(v@.take(v.len() as int) =~= v@);
    r
}

impl<M, T> SchedCore<M, T> {
    /// Close every open op serviced by node `process` as indeterminate
    /// (`Info`) at the current time, in token order.
    fn close_ops_of(&mut self, process: u64)
        requires
            old(self).wf(),
        ensures
            final(self).wf(),
            final(self).pending_ops@ == ops_not_of(old(self).pending_ops@, process),
            final(self).hist() == old(self).hist() + closing_entries(
                old(self).hist().len() as int,
                old(self).now,
                ops_of(old(self).pending_ops@, process),
                OpKind::Info,
                VValue::Nil,
            ),
            final(self).queue == old(self).queue,
            final(self).seq == old(self).seq,
            final(self).now == old(self).now,
            final(self).rng == old(self).rng,
            final(self).model == old(self).model,
            final(self).horizon == old(self).horizon,
            final(self).timer_gen == old(self).timer_gen,
            final(self).crashed == old(self).crashed,
            final(self).partitions == old(self).partitions,
            final(self).last_link == old(self).last_link,
            final(self).events == old(self).events,
            final(self).next_token == old(self).next_token,
            final(self).node_count == old(self).node_count,
    {
        let ghost p0 = self.pending_ops@;
        let ghost h0 = self.hist();
        let ghost mut j: int = 0;
        let mut rest = OpenOps::new();
        std::mem::swap(&mut rest, &mut self.pending_ops);
        let mut kept = OpenOps::new();
        proof {
            assert(p0.take(0) =~= Seq::<PendingOp>::empty());
            assert(p0.skip(0) =~= p0);
            assert(kept@ =~= ops_not_of(p0.take(0), process));
            assert(h0 + closing_entries(h0.len() as int, self.now, ops_of(p0.take(0), process), OpKind::Info, VValue::Nil) =~= h0);
        }
        while !rest.is_empty()
            invariant
                self.wf(),
                rest.wf(),
                kept.wf(),
                self.pending_ops@.len() == 0,
                0 <= j <= p0.len(),
                tokens_sorted(p0),
                forall|k: int| 0 <= k < p0.len() ==> (#[trigger] p0[k]).token < old(self).next_token,
                rest@ == p0.skip(j),
                kept@ == ops_not_of(p0.take(j), process),
                tokens_sorted(kept@),
                forall|k: int| 0 <= k < kept@.len() ==> (#[trigger] kept@[k]).token < old(self).next_token,
                forall|a: int, b: int|
                    0 <= a < kept@.len() && 0 <= b < rest@.len() ==> (#[trigger] kept@[a]).token < (
                    #[trigger] rest@[b]).token,
                self.hist() == h0 + closing_entries(h0.len() as int, old(self).now, ops_of(p0.take(j), process), OpKind::Info, VValue::Nil),
                p0 == old(self).pending_ops@,
                h0 == old(self).hist(),
                self.queue == old(self).queue,
                self.seq == old(self).seq,
                self.now == old(self).now,
                self.rng == old(self).rng,
                self.model == old(self).model,
                self.horizon == old(self).horizon,
                self.timer_gen == old(self).timer_gen,
                self.crashed == old(self).crashed,
                self.partitions == old(self).partitions,
                self.last_link == old(self).last_link,
                self.events == old(self).events,
                self.next_token == old(self).next_token,
                self.node_count == old(self).node_count,
            decreases rest@.len(),
        {
            let ghost cur = rest@;
            let ghost kb = kept@;
            assert(cur[0] == p0[j]);
            assert(p0.take(j + 1).drop_last() =~= p0.take(j));
            assert(p0.take(j + 1).last() == p0[j]);
            let op = rest.take_first();
            assert(rest@ =~= p0.skip(j + 1));
            if op.node.0 == process {
                proof {
                    lemma_closing_push(h0.len() as int, self.now, ops_of(p0.take(j), process), p0[j], OpKind::Info, VValue::Nil);
                }
                self.record(OpKind::Info, op.process, op.f, Value::Nil);
                proof {
                    assert(kept@ =~= ops_not_of(p0.take(j + 1), process));
                }
            } else {
                proof {
                    assert forall|k: int| 0 <= k < kb.len() implies (#[trigger] kb[k]).token < op.token by {
                        assert(cur[0] == op);
                    }
                }
                kept.push(op);
                proof {
                    let n = kept@;
                    assert(n == kb.push(p0[j]));
                    assert(n =~= ops_not_of(p0.take(j + 1), process));
                    assert forall|a: int, b: int| 0 <= a < b < n.len() implies (#[trigger] n[a]).token < (
                    #[trigger] n[b]).token by {
                        if b < kb.len() {
                            assert(n[a] == kb[a] && n[b] == kb[b]);
                        } else {
                            assert(n[a] == kb[a]);
                            assert(cur[0] == p0[j]);
                        }
                    }
                    assert forall|a: int, b: int|
                        0 <= a < n.len() && 0 <= b < rest@.len() implies (#[trigger] n[a]).token < (
                        #[trigger] rest@[b]).token by {
                        assert(rest@[b] == cur[b + 1]);
                        if a < kb.len() {
                            assert(n[a] == kb[a]);
                        } else {
                            assert(n[a] == cur[0]);
                        }
                    }
                    assert forall|k: int| 0 <= k < n.len() implies (#[trigger] n[k]).token < old(self).next_token by {
                        if k < kb.len() {
                            assert(n[k] == kb[k]);
                        } else {
                            assert(n[k] == p0[j]);
                        }
                    }
                }
            }
            proof {
                j = j + 1;
            }
        }
        proof {
            assert(p0.skip(j).len() == 0);
            assert(j == p0.len());
            assert(p0.take(j) =~= p0);
        }
        self.pending_ops = kept;
    }

    /// Close every still-open op as indeterminate (`Info`) at the current
    /// time, in token order, so every `Invoke` has a terminal entry.
    pub fn force_close_pending(&mut self)
        requires
            old(self).wf(),
        ensures
            final(self).wf(),
            final(self).pending_ops@.len() == 0,
            final(self).hist() == old(self).hist() + closing_entries(
                old(self).hist().len() as int,
                old(self).now,
                old(self).pending_ops@,
                OpKind::Info,
                VValue::Nil,
            ),
            final(self).queue == old(self).queue,
            final(self).seq == old(self).seq,
            final(self).now == old(self).now,
            final(self).crashed == old(self).crashed,
            final(self).partitions == old(self).partitions,
            final(self).events == old(self).events,
    {
        let ghost p0 = self.pending_ops@;
        let ghost h0 = self.hist();
        let ghost mut j: int = 0;
        proof {
            assert(p0.take(0) =~= Seq::<PendingOp>::empty());
            assert(p0.skip(0) =~= p0);
            assert(h0 + closing_entries(h0.len() as int, self.now, p0.take(0), OpKind::Info, VValue::Nil) =~= h0);
        }
        while !self.pending_ops.is_empty()
            invariant
                self.wf(),
                0 <= j <= p0.len(),
                self.pending_ops@ == p0.skip(j),
                self.hist() == h0 + closing_entries(h0.len() as int, old(self).now, p0.take(j), OpKind::Info, VValue::Nil),
                p0 == old(self).pending_ops@,
                h0 == old(self).hist(),
                self.queue == old(self).queue,
                self.seq == old(self).seq,
                self.now == old(self).now,
                self.crashed == old(self).crashed,
                self.partitions == old(self).partitions,
                self.events == old(self).events,
            decreases self.pending_ops@.len(),
        {
            let ghost cur = self.pending_ops@;
            assert(cur[0] == p0[j]);
            assert(p0.take(j + 1) =~= p0.take(j).push(p0[j]));
            proof {
                lemma_tokens_sorted_remove(cur, 0);
                assert(cur.remove(0) =~= cur.drop_first());
                lemma_closing_push(h0.len() as int, self.now, p0.take(j), p0[j], OpKind::Info, VValue::Nil);
            }
            let op = self.pending_ops.take_first();
            assert forall|k: int| 0 <= k < self.pending_ops@.len() implies (#[trigger] self.pending_ops@[k]).token < self.next_token by {
                assert(self.pending_ops@[k] == cur[k + 1]);
            }
            self.record(OpKind::Info, op.process, op.f, Value::Nil);
            proof {
                assert(self.pending_ops@ =~= p0.skip(j + 1));
                j = j + 1;
            }
        }
        proof {
            assert(j == p0.len());
            assert(p0.take(j) =~= p0);
        }
    }

    /// Apply a fault action: partition, heal, crash (force-closing the ops
    /// the crashed node was servicing as indeterminate), or restart. Returns the
    /// node to restart, if any.
    pub fn apply_fault(&mut self, action: FaultAction) -> (r: Option<NodeId>)
        requires
            old(self).wf(),
        ensures
            final(self).wf(),
            fault_applied(
                old(self).crashed@,
                old(self).partitions@,
                old(self).hist(),
                old(self).pending_ops@,
                old(self).events@,
                old(self).now,
                *final(self),
                action,
                r,
            ),
            final(self).queue == old(self).queue,
            final(self).seq == old(self).seq,
            final(self).now == old(self).now,
            final(self).rng == old(self).rng,
            final(self).model == old(self).model,
            final(self).horizon == old(self).horizon,
            final(self).timer_gen == old(self).timer_gen,
            final(self).last_link == old(self).last_link,
            final(self).next_token == old(self).next_token,
            final(self).node_count == old(self).node_count,
    {
        match action {
            FaultAction::Partition(a, b) => {
                let ghost ga = a;
                let ghost gb = b;
                let mut groups: Vec<Vec<NodeId>> = Vec::new();
                groups.push(a);
                groups.push(b);
                self.partitions = groups;
                assert(self.partitions@ =~= seq![ga, gb]);
                assert(fault_applied(old(self).crashed@, old(self).partitions@, old(self).hist(), old(self).pending_ops@, old(self).events@, old(self).now, *self, FaultAction::Partition(ga, gb), None));
                None
            },
            FaultAction::HealAll => {
                self.partitions.clear();
                let d = duration_of_nanos(self.now);
                let ghost ev0 = self.events@;
                self.events.push(RunEvent::NetworkHealed(d));
                assert(self.events@.drop_last() =~= ev0);
                assert(self.partitions@.len() == 0);
                None
            },
            FaultAction::Crash(n) => {
                if !holds_node(&self.crashed, n) {
                    self.crashed.push(n);
                }
                self.close_ops_of(n.0);
                None
            },
            FaultAction::Restart(n) => {
                self.crashed = without(&self.crashed, n);
                let d = duration_of_nanos(self.now);
                let ghost ev0 = self.events@;
                self.events.push(RunEvent::NodeRejoined(d, n));
                assert(self.events@.drop_last() =~= ev0);
                Some(n)
            },
        }
    }
}

/// Whether popping skips `e`: a timer whose arming is stale or whose node is
/// crashed, or a delivery to a crashed node.
pub open spec fn skipped<M, T>(timer_gen: Seq<(u64, String, u64)>, crashed: Seq<NodeId>, e: Scheduled<M, T>) -> bool {
    match e.kind {
        EventKind::Timer { node, key, gen, .. } => !(gen_of(timer_gen, node.0, key@) == gen
            && !crashed.contains(node)),
        EventKind::Deliver { to, .. } => crashed.contains(to),
        _ => false,
    }
}

/// One `pop` from `a` leaves `b`: the clock has not gone back and stays at
/// or before the horizon, and the queue has lost some of its front events
/// and nothing else.
pub open spec fn pops_to<M, T>(a: SchedCore<M, T>, b: SchedCore<M, T>) -> bool {
    &&& a.now <= b.now <= b.horizon
    &&& b.horizon == a.horizon
    &&& b.queue@.len() <= a.queue@.len()
    &&& b.queue@ == a.queue@.skip(a.queue@.len() - b.queue@.len())
}

/// One `pop` from `a` leaves `b` and hands back `r`: as `pops_to`, and an
/// event comes back only for the last event taken, which lies before the
/// horizon, is not skipped (no stale timer, no delivery to a crashed node),
/// and is the event itself unless it is a fault; nothing comes back only
/// when the queue ran out or the clock stopped at the horizon.
pub open spec fn pop_step<M, T>(a: SchedCore<M, T>, b: SchedCore<M, T>, r: Option<PoppedEvent<M, T>>) -> bool {
    &&& pops_to(a, b)
    &&& r is Some ==> {
        let e = a.queue@[taken(a, b) - 1];
        &&& taken(a, b) > 0
        &&& e.at < a.horizon
        &&& b.now == e.at
        &&& !skipped(a.timer_gen@, a.crashed@, e)
        &&& (e.kind is Fault || r == popped(e))
    }
    &&& r is None ==> b.queue@.len() == 0 || b.now == a.horizon
}

/// How many events of `a`'s queue a run of pops has taken by `b`.
pub open spec fn taken<M, T>(a: SchedCore<M, T>, b: SchedCore<M, T>) -> int {
    a.queue@.len() - b.queue@.len()
}

/// A run of pops, each from the state the one before left: the clock never
/// goes back, each state's queue is what is left of the first state's queue
/// after its front events were taken, and every event taken by an earlier
/// pop fires before every event taken by a later one, so the events come out
/// in `(at, seq)` order.
pub proof fn lemma_pop_run<M, T>(cs: Seq<SchedCore<M, T>>)
    requires
        cs.len() > 0,
        cs[0].wf(),
        forall|i: int| 0 <= i < cs.len() - 1 ==> pops_to(#[trigger] cs[i], cs[i + 1]),
    ensures
        forall|i: int, j: int| 0 <= i <= j < cs.len() ==> (#[trigger] cs[i]).now <= (#[trigger] cs[j]).now,
        forall|i: int, j: int|
            0 <= i <= j < cs.len() ==> taken(cs[0], #[trigger] cs[i]) <= taken(cs[0], #[trigger] cs[j]),
        forall|j: int|
            0 <= j < cs.len() ==> 0 <= taken(cs[0], #[trigger] cs[j]) && cs[j].queue@ == cs[0].queue@.skip(
                taken(cs[0], cs[j]),
            ),
        forall|i: int, j: int, p: int, q: int|
            #![trigger cs[i], cs[j], cs[0].queue@[p], cs[0].queue@[q]]
            0 <= i < j < cs.len() - 1 && taken(cs[0], cs[i]) <= p < taken(cs[0], cs[i + 1]) && taken(
                cs[0],
                cs[j],
            ) <= q < taken(cs[0], cs[j + 1]) ==> fires_before(cs[0].queue@[p], cs[0].queue@[q]),
    decreases cs.len(),
{
    let a = cs[0].queue@;
    if cs.len() == 1 {
        assert(a.skip(0) =~= a);
    } else {
        let init = cs.drop_last();
        assert forall|i: int| 0 <= i < init.len() - 1 implies pops_to(#[trigger] init[i], init[i + 1]) by {
            assert(init[i] == cs[i] && init[i + 1] == cs[i + 1]);
        }
        lemma_pop_run(init);
        let m = cs.len() - 1;
        let pre = cs[m - 1];
        let last = cs[m];
        assert(init[m - 1] == pre);
        assert(pops_to(cs[m - 1], cs[m]));
        assert(last.queue@ =~= a.skip(taken(cs[0], last))) by {
            assert(pre.queue@ == a.skip(taken(cs[0], pre)));
        }
        assert forall|i: int, j: int| 0 <= i <= j < cs.len() implies (#[trigger] cs[i]).now <= (#[trigger] cs[j]).now by {
            if j < m {
                assert(init[i] == cs[i] && init[j] == cs[j]);
            } else if i < m {
                assert(init[i] == cs[i]);
                assert(cs[i].now <= pre.now);
            }
        }
        assert forall|i: int, j: int| 0 <= i <= j < cs.len() implies taken(cs[0], #[trigger] cs[i]) <= taken(
            cs[0],
            #[trigger] cs[j],
        ) by {
            if j < m {
                assert(init[i] == cs[i] && init[j] == cs[j]);
            } else if i < m {
                assert(init[i] == cs[i]);
                assert(taken(cs[0], cs[i]) <= taken(cs[0], pre));
            }
        }
        assert forall|j: int| 0 <= j < cs.len() implies 0 <= taken(cs[0], #[trigger] cs[j]) && cs[j].queue@
            == a.skip(taken(cs[0], cs[j])) by {
            if j < m {
                assert(init[j] == cs[j]);
            }
        }
        assert forall|i: int, j: int, p: int, q: int|
            #![trigger cs[i], cs[j], a[p], a[q]]
            0 <= i < j < cs.len() - 1 && taken(cs[0], cs[i]) <= p < taken(cs[0], cs[i + 1]) && taken(
                cs[0],
                cs[j],
            ) <= q < taken(cs[0], cs[j + 1]) implies fires_before(a[p], a[q]) by {
            assert(taken(cs[0], cs[i + 1]) <= taken(cs[0], cs[j]));
            assert(taken(cs[0], cs[j + 1]) <= a.len());
        }
    }
}

/// A run of pops, each from the state the one before left, with what each
/// handed back: every returned event lies before the horizon, is not
/// skipped, and fires before every event returned by a later pop; the clock
/// never goes back.
pub proof fn lemma_pop_run_returns<M, T>(cs: Seq<SchedCore<M, T>>, rs: Seq<Option<PoppedEvent<M, T>>>)
    requires
        cs.len() > 0,
        rs.len() == cs.len() - 1,
        cs[0].wf(),
        forall|i: int| 0 <= i < rs.len() ==> pop_step(#[trigger] cs[i], cs[i + 1], rs[i]),
    ensures
        forall|i: int, j: int| 0 <= i <= j < cs.len() ==> (#[trigger] cs[i]).now <= (#[trigger] cs[j]).now,
        forall|i: int|
            0 <= i < rs.len() && (#[trigger] rs[i]) is Some ==> {
                let e = cs[0].queue@[taken(cs[0], cs[i + 1]) - 1];
                &&& 0 < taken(cs[0], cs[i + 1]) <= cs[0].queue@.len()
                &&& e.at < cs[0].horizon
                &&& !skipped(cs[i].timer_gen@, cs[i].crashed@, e)
                &&& (e.kind is Fault || rs[i] == popped(e))
            },
        forall|i: int, j: int|
            0 <= i < j < rs.len() && (#[trigger] rs[i]) is Some && (#[trigger] rs[j]) is Some ==> fires_before(
                cs[0].queue@[taken(cs[0], cs[i + 1]) - 1],
                cs[0].queue@[taken(cs[0], cs[j + 1]) - 1],
            ),
{
    assert forall|i: int| 0 <= i < cs.len() - 1 implies pops_to(#[trigger] cs[i], cs[i + 1]) by {
        assert(pop_step(cs[i], cs[i + 1], rs[i]));
    }
    lemma_pop_run(cs);
    let a = cs[0].queue@;
    assert forall|i: int| 0 <= i < rs.len() && (#[trigger] rs[i]) is Some implies {
        let e = a[taken(cs[0], cs[i + 1]) - 1];
        &&& 0 < taken(cs[0], cs[i + 1]) <= a.len()
        &&& e.at < cs[0].horizon
        &&& !skipped(cs[i].timer_gen@, cs[i].crashed@, e)
        &&& (e.kind is Fault || rs[i] == popped(e))
    } by {
        assert(pop_step(cs[i], cs[i + 1], rs[i]));
        let ti = taken(cs[0], cs[i]);
        let k = taken(cs[i], cs[i + 1]);
        assert(cs[i].queue@ == a.skip(ti));
        assert(cs[i + 1].queue@ == a.skip(taken(cs[0], cs[i + 1])));
        assert(taken(cs[0], cs[i + 1]) == ti + k);
        assert(cs[i].queue@[k - 1] == a[ti + k - 1]);
        assert(0 <= i <= i + 1 < cs.len());
        assert(cs[0].horizon == cs[i].horizon) by {
            lemma_pop_run_horizon(cs, i);
        }
    }
    assert forall|i: int, j: int|
        0 <= i < j < rs.len() && (#[trigger] rs[i]) is Some && (#[trigger] rs[j]) is Some implies fires_before(
        a[taken(cs[0], cs[i + 1]) - 1],
        a[taken(cs[0], cs[j + 1]) - 1],
    ) by {
        let p = taken(cs[0], cs[i + 1]) - 1;
        let q = taken(cs[0], cs[j + 1]) - 1;
        assert(pop_step(cs[j], cs[j + 1], rs[j]));
        assert(taken(cs[0], cs[i + 1]) <= taken(cs[0], cs[j]));
        assert(cs[j].queue@ == a.skip(taken(cs[0], cs[j])));
        assert(cs[j + 1].queue@ == a.skip(taken(cs[0], cs[j + 1])));
        assert(taken(cs[0], cs[j + 1]) == taken(cs[0], cs[j]) + taken(cs[j], cs[j + 1]));
        assert(p < q);
        assert(queue_sorted(a));
    }
}

/// Every state of a run of pops has the first state's horizon.
proof fn lemma_pop_run_horizon<M, T>(cs: Seq<SchedCore<M, T>>, i: int)
    requires
        0 <= i < cs.len(),
        forall|k: int| 0 <= k < cs.len() - 1 ==> pops_to(#[trigger] cs[k], cs[k + 1]),
    ensures
        cs[i].horizon == cs[0].horizon,
    decreases i,
{
    if i > 0 {
        lemma_pop_run_horizon(cs, i - 1);
        assert(pops_to(cs[i - 1], cs[i]));
    }
}

/// The event handed back for `e`, when it is not a fault.
pub open spec fn popped<M, T>(e: Scheduled<M, T>) -> Option<PoppedEvent<M, T>> {
    match e.kind {
        EventKind::Deliver { from, to, msg } => Some(PoppedEvent::Deliver { from, to, msg }),
        EventKind::Timer { node, timer, .. } => Some(PoppedEvent::Timer { node, timer }),
        EventKind::ClientOp { process, index } => Some(PoppedEvent::ClientOp { process, index }),
        EventKind::Fault { .. } => None,
    }
}

impl<M, T> SchedCore<M, T> {
    /// Whether `e` is skipped in the current state.
    fn is_skipped(&self, e: &Scheduled<M, T>) -> (r: bool)
        ensures
            r == skipped(self.timer_gen@, self.crashed@, *e),
    {
        match &e.kind {
            EventKind::Timer { node, key, gen, .. } => !(self.timer_current(*node, key.as_str(), *gen)
                && !self.is_crashed(*node)),
            EventKind::Deliver { to, .. } => self.is_crashed(*to),
            _ => false,
        }
    }

    /// Pop the next event in `(at, seq)` order, advancing the virtual clock.
    /// Stale timers and deliveries to crashed nodes are skipped; an event at
    /// or after the horizon ends the run (the clock stops at the horizon); a
    /// fault is applied before it is handed back.
    pub fn pop(&mut self) -> (r: Option<PoppedEvent<M, T>>)
        requires
            old(self).wf(),
        ensures
            final(self).wf(),
            old(self).now <= final(self).now <= final(self).horizon,
            pops_to(*old(self), *final(self)),
            pop_step(*old(self), *final(self), r),
            ({
                let q = old(self).queue@;
                let k = q.len() - final(self).queue@.len();
                &&& 0 <= k <= q.len()
                &&& final(self).queue@ == q.skip(k)
                &&& forall|j: int| 0 <= j < k - 1 ==> (#[trigger] q[j]).at < old(self).horizon
                    && skipped(old(self).timer_gen@, old(self).crashed@, q[j])
                &&& k == 0 ==> q.len() == 0 && r is None && final(self).now == old(self).now
                &&& k > 0 ==> {
                    let e = q[k - 1];
                    &&& forall|j: int| 0 <= j < final(self).queue@.len() ==> fires_before(e, #[trigger] final(self).queue@[j])
                    &&& e.at >= old(self).horizon ==> r is None && final(self).now == old(self).horizon
                    &&& e.at < old(self).horizon ==> final(self).now == e.at
                    &&& e.at < old(self).horizon && skipped(old(self).timer_gen@, old(self).crashed@, e) ==> r is None && k == q.len()
                    &&& e.at < old(self).horizon && !skipped(old(self).timer_gen@, old(self).crashed@, e) ==> match e.kind {
                        EventKind::Fault { action } => r matches Some(PoppedEvent::Fault { rejoined }) && fault_applied(
                            old(self).crashed@,
                            old(self).partitions@,
                            old(self).hist(),
                            old(self).pending_ops@,
                            old(self).events@,
                            e.at,
                            *final(self),
                            action,
                            rejoined,
                        ),
                        _ => r == popped(e),
                    }
                }
                &&& (r is None || !(q[k - 1].kind is Fault)) ==> {
                    &&& final(self).crashed == old(self).crashed
                    &&& final(self).partitions == old(self).partitions
                    &&& final(self).history == old(self).history
                    &&& final(self).pending_ops == old(self).pending_ops
                    &&& final(self).events == old(self).events
                }
            }),
            final(self).seq == old(self).seq,
            final(self).rng == old(self).rng,
            final(self).model == old(self).model,
            final(self).horizon == old(self).horizon,
            final(self).timer_gen == old(self).timer_gen,
            final(self).last_link == old(self).last_link,
            final(self).next_token == old(self).next_token,
            final(self).node_count == old(self).node_count,
    {
        let ghost q = self.queue@;
        let ghost mut k: int = 0;
        assert(q.skip(0) =~= q);
        while self.queue.len() > 0
            invariant
                self.wf(),
                0 <= k <= q.len(),
                q == old(self).queue@,
                self.queue@ == q.skip(k),
                forall|j: int| 0 <= j < k ==> (#[trigger] q[j]).at < old(self).horizon && skipped(
                    old(self).timer_gen@,
                    old(self).crashed@,
                    q[j],
                ),
                k == 0 ==> self.now == old(self).now,
                k > 0 ==> self.now == q[k - 1].at,
                old(self).now <= self.now,
                forall|j: int| 0 <= j < q.len() ==> old(self).now <= (#[trigger] q[j]).at,
                old(self).now <= old(self).horizon,
                self.seq == old(self).seq,
                self.rng == old(self).rng,
                self.model == old(self).model,
                self.horizon == old(self).horizon,
                self.timer_gen == old(self).timer_gen,
                self.last_link == old(self).last_link,
                self.next_token == old(self).next_token,
                self.node_count == old(self).node_count,
                self.crashed == old(self).crashed,
                self.partitions == old(self).partitions,
                self.history == old(self).history,
                self.pending_ops == old(self).pending_ops,
                self.events == old(self).events,
            decreases self.queue.len(),
        {
            let ghost cur = self.queue@;
            assert(cur[0] == q[k]);
            let ev = self.queue.remove(0);
            proof {
                assert(self.queue@ =~= q.skip(k + 1));
                assert forall|a: int, b: int| 0 <= a < b < self.queue@.len() implies fires_before(
                    #[trigger] self.queue@[a],
                    #[trigger] self.queue@[b],
                ) by {
                    assert(self.queue@[a] == cur[a + 1] && self.queue@[b] == cur[b + 1]);
                }
                assert forall|j: int| 0 <= j < self.queue@.len() implies fires_before(q[k], #[trigger] self.queue@[j]) by {
                    assert(self.queue@[j] == cur[j + 1]);
                }
                assert forall|j: int| 0 <= j < self.queue@.len() implies (#[trigger] self.queue@[j]).seq < self.seq
                    && self.queue@[j].at <= max_duration_nanos() by {
                    assert(self.queue@[j] == cur[j + 1]);
                }
            }
            if ev.at >= self.horizon {
                self.now = self.horizon;
                return None;
            }
            self.now = ev.at;
            let skip = self.is_skipped(&ev);
            if !skip {
                match ev.kind {
                    EventKind::Timer { node, timer, .. } => {
                        return Some(PoppedEvent::Timer { node, timer });
                    },
                    EventKind::Deliver { from, to, msg } => {
                        return Some(PoppedEvent::Deliver { from, to, msg });
                    },
                    EventKind::ClientOp { process, index } => {
                        return Some(PoppedEvent::ClientOp { process, index });
                    },
                    EventKind::Fault { action } => {
                        let rejoined = self.apply_fault(action);
                        return Some(PoppedEvent::Fault { rejoined });
                    },
                }
            }
            proof {
                k = k + 1;
            }
        }
        None
    }
}

/// Rolling a probability from generator state `state`: the outcome and the
/// state after.
pub open spec fn roll_result(p: Prob, state: u64) -> (bool, u64) {
    match roll_of(p.bits()) {
        Roll::Never => (false, state),
        Roll::Always => (true, state),
        Roll::Below(t) => {
            let s1 = state.wrapping_add(GOLDEN_GAMMA);
            ((splitmix_mix(s1) >> 11u64) < t, s1)
        },
    }
}

/// Drawing from `lo..hi` from generator state `state`: the value and the
/// state after.
pub open spec fn range_result(lo: u64, hi: u64, state: u64) -> (u64, u64) {
    if hi <= lo {
        (lo, state)
    } else {
        let s1 = state.wrapping_add(GOLDEN_GAMMA);
        ((lo + splitmix_mix(s1) % ((hi - lo) as u64)) as u64, s1)
    }
}

/// The last scheduled delivery time on the link `from -> to` (zero if none).
pub open spec fn link_floor(links: Map<(u64, u64), u128>, from: u64, to: u64) -> u128 {
    if links.contains_key((from, to)) {
        links[(from, to)]
    } else {
        0
    }
}

/// The larger of two bounds.
pub open spec fn max_u64(a: u64, b: u64) -> u64 {
    if a >= b {
        a
    } else {
        b
    }
}

/// The delay a delivery draws from generator state `s` under a model whose
/// delay range is `start..end`: for a non-empty range, `start` plus the
/// generator's next draw modulo the width, so every delay in the range can
/// come out and none outside it; for an empty one, `start`, without drawing.
pub proof fn lemma_delivery_delay(start: u64, end: u64, s: u64)
    ensures
        start < end ==> {
            let (d, s1) = range_result(start, max_u64(start, end), s);
            &&& d == start + draw_at(s, 0) % ((end - start) as u64)
            &&& start <= d < end
            &&& s1 == state_after(s, 1)
        },
        end <= start ==> range_result(start, max_u64(start, end), s) == (start, s),
{
    reveal_with_fuel(state_after, 2);
    if start < end {
        let x = draw_at(s, 0);
        let w = (end - start) as u64;
        assert(x % w < w);
    }
}

/// A roll of a probability from generator state `s`: one that never
/// happens or always happens does not draw; otherwise it draws once and
/// happens exactly when the draw's top 53 bits fall below the threshold.
pub proof fn lemma_roll_result(p: Prob, s: u64)
    ensures
        roll_of(p.bits()) == Roll::Never ==> roll_result(p, s) == (false, s),
        roll_of(p.bits()) == Roll::Always ==> roll_result(p, s) == (true, s),
        roll_of(p.bits()) is Below ==> roll_result(p, s) == ((draw_at(s, 0) >> 11u64) < roll_of(
            p.bits(),
        )->Below_0, state_after(s, 1)),
{
    reveal_with_fuel(state_after, 2);
}

/// Whether a delivery happens depends on the nodes and the partition only:
/// a crashed end cannot talk; with no partition two live nodes can; with a
/// partition, two live nodes can exactly when one group holds both.
pub proof fn lemma_can_talk(crashed: Seq<NodeId>, partitions: Seq<Vec<NodeId>>, a: NodeId, b: NodeId)
    ensures
        crashed.contains(a) || crashed.contains(b) ==> !can_talk(crashed, partitions, a, b),
        !crashed.contains(a) && !crashed.contains(b) && partitions.len() == 0 ==> can_talk(
            crashed,
            partitions,
            a,
            b,
        ),
        !crashed.contains(a) && !crashed.contains(b) && partitions.len() > 0 ==> (can_talk(
            crashed,
            partitions,
            a,
            b,
        ) <==> exists|g: int|
            0 <= g < partitions.len() && (#[trigger] partitions[g])@.contains(a) && partitions[g]@.contains(b)),
{
}

/// Every terminal entry closes an op of its process, whatever its outcome:
/// recording a completion of `process` with `Ok`, `Fail` or `Info` raises
/// that process's closed count by one, while an `Invoke`, or an entry of
/// another process, leaves the count of `p` as it was.
pub proof fn lemma_completion_counts(
    h: Seq<EntryV>,
    index: int,
    now: u128,
    kind: OpKind,
    process: ProcessId,
    f: Seq<char>,
    value: VValue,
    p: u64,
)
    ensures
        closed_count(Seq::empty(), p) == 0,
        kind != OpKind::Invoke ==> closed_count(h.push(op_entry(index, now, kind, process, f, value)), process.0)
            == closed_count(h, process.0) + 1,
        kind == OpKind::Invoke ==> closed_count(h.push(op_entry(index, now, kind, process, f, value)), p)
            == closed_count(h, p),
        process.0 != p ==> closed_count(h.push(op_entry(index, now, kind, process, f, value)), p)
            == closed_count(h, p),
{
    let h2 = h.push(op_entry(index, now, kind, process, f, value));
    assert(h2.drop_last() =~= h);
}

/// Inserting an event at `at` where it goes moves the insertion point for
/// `at` one further.
pub proof fn lemma_insert_pos_after<M, T>(q: Seq<Scheduled<M, T>>, at: u128, x: Scheduled<M, T>)
    requires
        x.at <= at,
    ensures
        0 <= insert_pos(q, at) <= q.len(),
        insert_pos(q.insert(insert_pos(q, at), x), at) == insert_pos(q, at) + 1,
    decreases q.len(),
{
    lemma_insert_pos_bounds(q, at);
    let p = insert_pos(q, at);
    let u = q.insert(p, x);
    if q.len() == 0 {
        assert(u.drop_first() =~= q);
    } else if q[0].at <= at {
        lemma_insert_pos_after(q.drop_first(), at, x);
        assert(u[0] == q[0]);
        assert(u.drop_first() =~= q.drop_first().insert(p - 1, x));
    } else {
        assert(u[0] == x);
        assert(u.drop_first() =~= q);
    }
}

impl<M, T> SchedCore<M, T> {
    /// Record `at` as the last delivery time on `from -> to`; returns the
    /// previous one (zero if none).
    fn swap_link(&mut self, from: u64, to: u64, at: u128) -> (prev: u128)
        requires
            old(self).wf(),
            at <= max_duration_nanos(),
        ensures
            final(self).wf(),
            prev == link_floor(old(self).last_link@, from, to),
            link_floor(final(self).last_link@, from, to) == at,
            forall|a: u64, b: u64| !(a == from && b == to) ==> #[trigger] link_floor(final(self).last_link@, a, b)
                == link_floor(old(self).last_link@, a, b),
            final(self).queue == old(self).queue,
            final(self).seq == old(self).seq,
            final(self).now == old(self).now,
            final(self).rng == old(self).rng,
            final(self).model == old(self).model,
            final(self).horizon == old(self).horizon,
            final(self).timer_gen == old(self).timer_gen,
            final(self).crashed == old(self).crashed,
            final(self).partitions == old(self).partitions,
            final(self).history == old(self).history,
            final(self).events == old(self).events,
            final(self).pending_ops == old(self).pending_ops,
            final(self).next_token == old(self).next_token,
            final(self).node_count == old(self).node_count,
    {
        proof {
            broadcast use vstd::std_specs::btree::group_btree_axioms, vstd::laws_cmp::group_laws_cmp;
        }
        let prev = link_floor_exec(&self.last_link, from, to);
        self.last_link.insert((from, to), at);
        prev
    }

    /// Send `msg` from `from` to `to` under the active network model: dropped
    /// when the nodes cannot talk or the loss roll hits; otherwise delivered
    /// after a delay drawn from the model's range (never before the link's
    /// last delivery on a FIFO link), and once more if the duplication roll
    /// hits.
    pub fn schedule_delivery(&mut self, from: NodeId, to: NodeId, msg: M)
        where
            M: Clone,
        requires
            old(self).wf(),
            old(self).seq < u64::MAX - 1,
            old(self).now + max_u64(old(self).model.delay_ms.start, old(self).model.delay_ms.end)
                * 1_000_000 <= max_duration_nanos(),
        ensures
            final(self).wf(),
            ({
                let s0 = old(self).rng.state();
                let (lost, s1) = roll_result(old(self).model.loss, s0);
                let lo = old(self).model.delay_ms.start;
                let hi = max_u64(lo, old(self).model.delay_ms.end);
                let (d, s2) = range_result(lo, hi, s1);
                let base = old(self).now + d * 1_000_000;
                let floor = link_floor(old(self).last_link@, from.0, to.0);
                let at: u128 = if old(self).model.ordered && base < floor {
                    floor
                } else {
                    base as u128
                };
                let (dup, s3) = roll_result(old(self).model.duplicate, s2);
                let q0 = old(self).queue@;
                let q1 = final(self).queue@;
                if !can_talk(old(self).crashed@, old(self).partitions@, from, to) {
                    &&& q1 == q0
                    &&& final(self).rng == old(self).rng
                    &&& final(self).last_link == old(self).last_link
                    &&& final(self).seq == old(self).seq
                } else if lost {
                    &&& q1 == q0
                    &&& final(self).rng.state() == s1
                    &&& final(self).last_link == old(self).last_link
                    &&& final(self).seq == old(self).seq
                } else {
                    &&& final(self).rng.state() == s3
                    &&& old(self).model.ordered ==> link_floor(final(self).last_link@, from.0, to.0) == at
                        && forall|a: u64, b: u64| !(a == from.0 && b == to.0) ==> #[trigger] link_floor(final(self).last_link@, a, b)
                            == link_floor(old(self).last_link@, a, b)
                    &&& !old(self).model.ordered ==> final(self).last_link == old(self).last_link
                    &&& !dup ==> final(self).seq == old(self).seq + 1 && q1 == q0.insert(
                        insert_pos(q0, at),
                        Scheduled { at, seq: old(self).seq, kind: EventKind::Deliver { from, to, msg } },
                    )
                    &&& dup ==> {
                        let q_mid = q0.insert(insert_pos(q0, at), q1[insert_pos(q0, at)]);
                        &&& final(self).seq == old(self).seq + 2
                        &&& q1[insert_pos(q0, at)] matches Scheduled { at: a1, seq: n1, kind: EventKind::Deliver { from: f1, to: t1, .. } }
                        &&& a1 == at && n1 == old(self).seq && f1 == from && t1 == to
                        &&& q1 == q_mid.insert(
                            insert_pos(q_mid, at),
                            Scheduled { at, seq: (old(self).seq + 1) as u64, kind: EventKind::Deliver { from, to, msg } },
                        )
                    }
                }
            }),
            final(self).now == old(self).now,
            final(self).model == old(self).model,
            final(self).horizon == old(self).horizon,
            final(self).timer_gen == old(self).timer_gen,
            final(self).crashed == old(self).crashed,
            final(self).partitions == old(self).partitions,
            final(self).history == old(self).history,
            final(self).events == old(self).events,
            final(self).pending_ops == old(self).pending_ops,
    {
        if !self.connected(from, to) {
            return;
        }
        let lost = self.rng.chance(self.model.loss);
        if lost {
            return;
        }
        let lo = self.model.delay_ms.start;
        let hi = if self.model.delay_ms.end >= lo {
            self.model.delay_ms.end
        } else {
            lo
        };
        let d = self.rng.range_u64(lo, hi);
        let base: u128 = self.now + (d as u128) * 1_000_000;
        let mut at = base;
        if self.model.ordered {
            let floor = link_floor_exec(&self.last_link, from.0, to.0);
            if at < floor {
                at = floor;
            }
            self.swap_link(from.0, to.0, at);
        }
        let dup = self.rng.chance(self.model.duplicate);
        if dup {
            let ghost q0 = self.queue@;
            self.enqueue(at, EventKind::Deliver { from, to, msg: msg.clone() });
            let ghost q_mid = self.queue@;
            proof {
                lemma_insert_pos_bounds(q0, at);
                lemma_insert_pos_after(q0, at, q_mid[insert_pos(q0, at)]);
                lemma_insert_pos_bounds(q_mid, at);
            }
            self.enqueue(at, EventKind::Deliver { from, to, msg });
            proof {
                let p0 = insert_pos(q0, at);
                assert(insert_pos(q_mid, at) == p0 + 1);
                assert(self.queue@[p0] == q_mid[p0]);
                assert(q_mid == q0.insert(p0, self.queue@[p0]));
            }
        } else {
            self.enqueue(at, EventKind::Deliver { from, to, msg });
        }
    }
}

/// The last scheduled delivery time on `from -> to` (zero if none).
fn link_floor_exec(links: &BTreeMap<(u64, u64), u128>, from: u64, to: u64) -> (r: u128)
    ensures
        r == link_floor(links@, from, to),
{
    proof {
        broadcast use vstd::std_specs::btree::group_btree_axioms, vstd::laws_cmp::group_laws_cmp;
    }
    match links.get(&(from, to)) {
        Some(t) => *t,
        None => 0,
    }
}

/// An op closes at most once: once the op holding `token` is closed, the
/// token names no open op, so a second completion is a no-op.
pub proof fn lemma_close_once(p: Seq<PendingOp>, token: u64)
    requires
        tokens_sorted(p),
        pending_index(p, token) is Some,
    ensures
        pending_index(p.remove(pending_index(p, token)->0), token) is None,
{
    let i = pending_index(p, token)->0;
    let r = p.remove(i);
    if exists|j: int| 0 <= j < r.len() && (#[trigger] r[j]).token == token {
        let j = choose|j: int| 0 <= j < r.len() && (#[trigger] r[j]).token == token;
        let j0 = if j < i { j } else { j + 1 };
        assert(r[j] == p[j0]);
        if j0 < i {
            assert(p[j0].token < p[i].token);
        } else {
            assert(p[i].token < p[j0].token);
        }
    }
}

} // verus!
