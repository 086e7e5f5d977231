//! Lowering a backend-neutral [`Faults`] description onto the scheduler
//! timeline.
//!
//! - Scripted faults map one-to-one onto timed [`FaultAction`]s.
//! - Swarm faults pick a random subset of the enabled kinds per seed (swarm
//!   testing), fold the continuous kinds (latency, loss, duplication,
//!   reordering) into the active [`NetworkModel`], and plan timed partition
//!   and crash events. In liveness mode the plan injures, then heals, so a
//!   bounded-liveness property has a window in which to make progress.

use vstd::prelude::*;

use crate::duration::{duration_nanos, max_duration_nanos, nanos_of};
use crate::faults::{FaultKind, Faults, Mode, ScriptedAction, ScriptedEvent};
use crate::node::NodeId;
use crate::sim::rng::{draw_at, splitmix_mix, state_after, SimRng, GOLDEN_GAMMA};
use crate::sim::scheduler::{range_result, EventKind, FaultAction, SchedCore, Scheduled};
use crate::transport::{roll_of, NetworkModel, Prob, Roll};

verus! {

/// The model of a fault action.
pub enum ActionV {
    Partition(Seq<NodeId>, Seq<NodeId>),
    HealAll,
    Crash(NodeId),
    Restart(NodeId),
}

/// The model of a fault action.
pub open spec fn action_view(a: FaultAction) -> ActionV {
    match a {
        FaultAction::Partition(x, y) => ActionV::Partition(x@, y@),
        FaultAction::HealAll => ActionV::HealAll,
        FaultAction::Crash(n) => ActionV::Crash(n),
        FaultAction::Restart(n) => ActionV::Restart(n),
    }
}

/// The model of a scripted action.
pub open spec fn scripted_view(a: ScriptedAction) -> ActionV {
    match a {
        ScriptedAction::Partition(x, y) => ActionV::Partition(x@, y@),
        ScriptedAction::HealAll => ActionV::HealAll,
        ScriptedAction::Crash(n) => ActionV::Crash(n),
        ScriptedAction::Restart(n) => ActionV::Restart(n),
    }
}

/// The node ids `lo..hi`.
pub open spec fn node_range(lo: int, hi: int) -> Seq<NodeId> {
    Seq::new((hi - lo) as nat, |i: int| NodeId((lo + i) as u64))
}

/// The IEEE-754 bits of one half.
pub open spec fn half_bits() -> u64 {
    0x3FE0_0000_0000_0000
}

/// A fair coin from generator state `s`: the outcome and the state after.
pub open spec fn coin(s: u64) -> (bool, u64) {
    let s1 = s.wrapping_add(GOLDEN_GAMMA);
    ((splitmix_mix(s1) >> 11u64) < 0x10_0000_0000_0000u64, s1)
}

/// The coin is fair: it draws once from the generator and comes up heads
/// exactly when the draw's top 53 bits fall in the lower half, as a roll of
/// probability one half does.
pub proof fn lemma_coin_is_half(s: u64)
    ensures
        coin(s) == ((draw_at(s, 0) >> 11u64) < 0x10_0000_0000_0000u64, state_after(s, 1)),
        crate::transport::roll_of(half_bits()) == Roll::Below(0x10_0000_0000_0000),
{
    reveal_with_fuel(state_after, 2);
    let b = half_bits();
    assert(((b >> 52u64) & 0x7ffu64) == 1022 && (b & 0xF_FFFF_FFFF_FFFFu64) == 0 && (b >> 63u64) == 0)
        by (bit_vector)
        requires
            b == 0x3FE0_0000_0000_0000u64,
    ;
    assert(crate::transport::pow2(0) == 1);
    assert((0x10_0000_0000_0000int + 1 - 1) / 1int == 0x10_0000_0000_0000int);
}

/// The kinds a seed keeps: one coin per kind, in order.
pub open spec fn enabled_kinds(kinds: Seq<FaultKind>, s: u64) -> (Seq<FaultKind>, u64)
    decreases kinds.len(),
{
    if kinds.len() == 0 {
        (Seq::empty(), s)
    } else {
        let (e, s1) = enabled_kinds(kinds.drop_last(), s);
        let (keep, s2) = coin(s1);
        (if keep {
            e.push(kinds.last())
        } else {
            e
        }, s2)
    }
}

/// The state of swarm lowering: the network model so far, the planned
/// timed actions, whether a partition was planned, and the generator state.
pub struct SwarmState {
    pub model: NetworkModel,
    pub plan: Seq<(u128, ActionV)>,
    pub partitioned: bool,
    pub state: u64,
}

/// Lowering one enabled kind.
pub open spec fn swarm_step(st: SwarmState, kind: FaultKind, mode: Mode, n: nat) -> SwarmState {
    match kind {
        FaultKind::Latency(r) => SwarmState { model: NetworkModel { delay_ms: r, ..st.model }, ..st },
        FaultKind::Drop(p) => SwarmState { model: NetworkModel { loss: p, ..st.model }, ..st },
        FaultKind::Duplicate(p) => SwarmState {
            model: NetworkModel { duplicate: p, ..st.model },
            ..st
        },
        FaultKind::Reorder => SwarmState { model: NetworkModel { ordered: false, ..st.model }, ..st },
        FaultKind::Partitions => if n >= 2 {
            let (cut, s1) = range_result(1, n as u64, st.state);
            let (ms, s2) = range_result(100, 1000, s1);
            SwarmState {
                plan: st.plan.push(
                    (
                        (ms * 1_000_000) as u128,
                        ActionV::Partition(node_range(0, cut as int), node_range(cut as int, n as int)),
                    ),
                ),
                partitioned: true,
                state: s2,
                ..st
            }
        } else {
            st
        },
        FaultKind::CrashRestart => {
            let (v, s1) = range_result(0, if n >= 1 { n as u64 } else { 1 }, st.state);
            let (ms, s2) = range_result(100, 1000, s1);
            let crash = ((ms * 1_000_000) as u128, ActionV::Crash(NodeId(v)));
            if mode == Mode::Liveness {
                let (back, s3) = range_result(500, 2000, s2);
                SwarmState {
                    plan: st.plan.push(crash).push(
                        (((ms + back) * 1_000_000) as u128, ActionV::Restart(NodeId(v))),
                    ),
                    state: s3,
                    ..st
                }
            } else {
                SwarmState { plan: st.plan.push(crash), state: s2, ..st }
            }
        },
    }
}

/// Lowering the enabled kinds in order.
pub open spec fn swarm_run(ks: Seq<FaultKind>, mode: Mode, n: nat, st: SwarmState) -> SwarmState
    decreases ks.len(),
{
    if ks.len() == 0 {
        st
    } else {
        swarm_step(swarm_run(ks.drop_last(), mode, n, st), ks.last(), mode, n)
    }
}

/// The whole swarm lowering from `model` and generator state `s`: keep a
/// random subset of the kinds, lower each, and in liveness mode heal after
/// a planned partition.
pub open spec fn swarm_plan(kinds: Seq<FaultKind>, mode: Mode, n: nat, model: NetworkModel, s: u64) -> SwarmState {
    let (en, s1) = enabled_kinds(kinds, s);
    let st = swarm_run(en, mode, n, SwarmState { model, plan: Seq::empty(), partitioned: false, state: s1 });
    if mode == Mode::Liveness && st.partitioned {
        let (ms, s2) = range_result(2000, 4000, st.state);
        SwarmState { plan: st.plan.push(((ms * 1_000_000) as u128, ActionV::HealAll)), state: s2, ..st }
    } else {
        st
    }
}

/// The models of planned actions.
pub open spec fn plan_view(p: Seq<(u128, FaultAction)>) -> Seq<(u128, ActionV)> {
    Seq::new(p.len(), |i: int| (p[i].0, action_view(p[i].1)))
}

/// Each kind adds at most two planned actions.
proof fn lemma_swarm_run_len(ks: Seq<FaultKind>, mode: Mode, n: nat, st: SwarmState)
    ensures
        swarm_run(ks, mode, n, st).plan.len() <= st.plan.len() + 2 * ks.len(),
    decreases ks.len(),
{
    if ks.len() > 0 {
        lemma_swarm_run_len(ks.drop_last(), mode, n, st);
    }
}

proof fn lemma_enabled_len(kinds: Seq<FaultKind>, s: u64)
    ensures
        enabled_kinds(kinds, s).0.len() <= kinds.len(),
    decreases kinds.len(),
{
    if kinds.len() > 0 {
        lemma_enabled_len(kinds.drop_last(), s);
    }
}

/// The planned actions of a swarm lowering number at most two per kind plus
/// one heal.
pub proof fn lemma_swarm_plan_len(kinds: Seq<FaultKind>, mode: Mode, n: nat, model: NetworkModel, s: u64)
    ensures
        swarm_plan(kinds, mode, n, model, s).plan.len() <= 2 * kinds.len() + 1,
{
    let (en, s1) = enabled_kinds(kinds, s);
    lemma_enabled_len(kinds, s);
    lemma_swarm_run_len(en, mode, n, SwarmState { model, plan: Seq::empty(), partitioned: false, state: s1 });
}

/// A draw from `lo..hi` lies in it.
proof fn lemma_range_result(lo: u64, hi: u64, s: u64)
    requires
        lo < hi,
    ensures
        lo <= range_result(lo, hi, s).0 < hi,
{
    let x = splitmix_mix(s.wrapping_add(GOLDEN_GAMMA));
    let m = (hi - lo) as u64;
    assert(x % m < m) by (nonlinear_arith)
        requires
            m > 0,
    ;
}

/// The loss probability after lowering kinds `ks` from `m`: the last
/// `Drop` sets it; without one it stays.
pub open spec fn loss_follows(ks: Seq<FaultKind>, m: NetworkModel, r: NetworkModel) -> bool {
    &&& forall|i: int|
        0 <= i < ks.len() && (#[trigger] ks[i]) is Drop && (forall|j: int| i < j < ks.len() ==> !(#[trigger] ks[j] is Drop))
            ==> r.loss == ks[i]->Drop_0
    &&& (forall|j: int| 0 <= j < ks.len() ==> !(#[trigger] ks[j] is Drop)) ==> r.loss == m.loss
}

/// The duplication probability: the last `Duplicate` sets it; without one
/// it stays.
pub open spec fn duplicate_follows(ks: Seq<FaultKind>, m: NetworkModel, r: NetworkModel) -> bool {
    &&& forall|i: int|
        0 <= i < ks.len() && (#[trigger] ks[i]) is Duplicate && (forall|j: int|
            i < j < ks.len() ==> !(#[trigger] ks[j] is Duplicate)) ==> r.duplicate == ks[i]->Duplicate_0
    &&& (forall|j: int| 0 <= j < ks.len() ==> !(#[trigger] ks[j] is Duplicate)) ==> r.duplicate == m.duplicate
}

/// The delay range: the last `Latency` sets it; without one it stays.
pub open spec fn delay_follows(ks: Seq<FaultKind>, m: NetworkModel, r: NetworkModel) -> bool {
    &&& forall|i: int|
        0 <= i < ks.len() && (#[trigger] ks[i]) is Latency && (forall|j: int|
            i < j < ks.len() ==> !(#[trigger] ks[j] is Latency)) ==> r.delay_ms == ks[i]->Latency_0
    &&& (forall|j: int| 0 <= j < ks.len() ==> !(#[trigger] ks[j] is Latency)) ==> r.delay_ms == m.delay_ms
}

/// Link order: any `Reorder` makes links unordered; without one it stays.
pub open spec fn order_follows(ks: Seq<FaultKind>, m: NetworkModel, r: NetworkModel) -> bool {
    &&& (exists|j: int| 0 <= j < ks.len() && (#[trigger] ks[j]) is Reorder) ==> !r.ordered
    &&& (forall|j: int| 0 <= j < ks.len() ==> !(#[trigger] ks[j] is Reorder)) ==> r.ordered == m.ordered
}

/// The network model after lowering kinds `ks` onto `m`: the last `Drop`
/// among them sets the loss probability, the last `Duplicate` the
/// duplication probability, the last `Latency` the delay range, and any
/// `Reorder` makes links unordered; a setting no kind touches keeps its
/// value in `m`.
pub open spec fn model_follows(ks: Seq<FaultKind>, m: NetworkModel, r: NetworkModel) -> bool {
    &&& loss_follows(ks, m, r)
    &&& duplicate_follows(ks, m, r)
    &&& delay_follows(ks, m, r)
    &&& order_follows(ks, m, r)
}

/// What lowering one kind does to the model.
proof fn lemma_step_model(st: SwarmState, k: FaultKind, mode: Mode, n: nat)
    ensures
        ({
            let r = swarm_step(st, k, mode, n).model;
            &&& if k is Drop { r.loss == k->Drop_0 } else { r.loss == st.model.loss }
            &&& if k is Duplicate { r.duplicate == k->Duplicate_0 } else { r.duplicate == st.model.duplicate }
            &&& if k is Latency { r.delay_ms == k->Latency_0 } else { r.delay_ms == st.model.delay_ms }
            &&& if k is Reorder { !r.ordered } else { r.ordered == st.model.ordered }
        }),
{
    let r = swarm_step(st, k, mode, n);
    match k {
        FaultKind::Latency(x) => assert(r.model.delay_ms == x),
        FaultKind::Drop(p) => assert(r.model.loss == p && r.model.duplicate == st.model.duplicate),
        FaultKind::Duplicate(p) => assert(r.model.duplicate == p && r.model.loss == st.model.loss),
        FaultKind::Reorder => assert(!r.model.ordered),
        FaultKind::Partitions => assert(r.model == st.model),
        FaultKind::CrashRestart => assert(r.model == st.model),
    }
}

#[verifier::spinoff_prover]
#[verifier::rlimit(40)]
proof fn lemma_run_loss(ks: Seq<FaultKind>, mode: Mode, n: nat, st: SwarmState)
    ensures
        loss_follows(ks, st.model, swarm_run(ks, mode, n, st).model),
    decreases ks.len(),
{
    if ks.len() > 0 {
        let init = ks.drop_last();
        lemma_run_loss(init, mode, n, st);
        lemma_step_model(swarm_run(init, mode, n, st), ks.last(), mode, n);
        let r = swarm_run(ks, mode, n, st).model;
        let last = ks.len() - 1;
        assert forall|i: int|
            0 <= i < ks.len() && (#[trigger] ks[i]) is Drop && (forall|j: int| i < j < ks.len() ==> !(#[trigger] ks[j] is Drop))
                implies r.loss == ks[i]->Drop_0 by {
            if i < last {
                assert(!(ks[last] is Drop));
                assert(init[i] == ks[i]);
                assert forall|j: int| i < j < init.len() implies !(#[trigger] init[j] is Drop) by {
                    assert(init[j] == ks[j]);
                }
            }
        }
        if forall|j: int| 0 <= j < ks.len() ==> !(#[trigger] ks[j] is Drop) {
            assert(!(ks[last] is Drop));
            assert forall|j: int| 0 <= j < init.len() implies !(#[trigger] init[j] is Drop) by {
                assert(init[j] == ks[j]);
            }
        }
    }
}

#[verifier::spinoff_prover]
#[verifier::rlimit(40)]
proof fn lemma_run_duplicate(ks: Seq<FaultKind>, mode: Mode, n: nat, st: SwarmState)
    ensures
        duplicate_follows(ks, st.model, swarm_run(ks, mode, n, st).model),
    decreases ks.len(),
{
    if ks.len() > 0 {
        let init = ks.drop_last();
        lemma_run_duplicate(init, mode, n, st);
        lemma_step_model(swarm_run(init, mode, n, st), ks.last(), mode, n);
        let r = swarm_run(ks, mode, n, st).model;
        let last = ks.len() - 1;
        assert forall|i: int|
            0 <= i < ks.len() && (#[trigger] ks[i]) is Duplicate && (forall|j: int|
                i < j < ks.len() ==> !(#[trigger] ks[j] is Duplicate)) implies r.duplicate == ks[i]->Duplicate_0 by {
            if i < last {
                assert(!(ks[last] is Duplicate));
                assert(init[i] == ks[i]);
                assert forall|j: int| i < j < init.len() implies !(#[trigger] init[j] is Duplicate) by {
                    assert(init[j] == ks[j]);
                }
            }
        }
        if forall|j: int| 0 <= j < ks.len() ==> !(#[trigger] ks[j] is Duplicate) {
            assert(!(ks[last] is Duplicate));
            assert forall|j: int| 0 <= j < init.len() implies !(#[trigger] init[j] is Duplicate) by {
                assert(init[j] == ks[j]);
            }
        }
    }
}

#[verifier::spinoff_prover]
#[verifier::rlimit(40)]
proof fn lemma_run_delay(ks: Seq<FaultKind>, mode: Mode, n: nat, st: SwarmState)
    ensures
        delay_follows(ks, st.model, swarm_run(ks, mode, n, st).model),
    decreases ks.len(),
{
    if ks.len() > 0 {
        let init = ks.drop_last();
        lemma_run_delay(init, mode, n, st);
        lemma_step_model(swarm_run(init, mode, n, st), ks.last(), mode, n);
        let r = swarm_run(ks, mode, n, st).model;
        let last = ks.len() - 1;
        assert forall|i: int|
            0 <= i < ks.len() && (#[trigger] ks[i]) is Latency && (forall|j: int|
                i < j < ks.len() ==> !(#[trigger] ks[j] is Latency)) implies r.delay_ms == ks[i]->Latency_0 by {
            if i < last {
                assert(!(ks[last] is Latency));
                assert(init[i] == ks[i]);
                assert forall|j: int| i < j < init.len() implies !(#[trigger] init[j] is Latency) by {
                    assert(init[j] == ks[j]);
                }
            }
        }
        if forall|j: int| 0 <= j < ks.len() ==> !(#[trigger] ks[j] is Latency) {
            assert(!(ks[last] is Latency));
            assert forall|j: int| 0 <= j < init.len() implies !(#[trigger] init[j] is Latency) by {
                assert(init[j] == ks[j]);
            }
        }
    }
}

#[verifier::spinoff_prover]
#[verifier::rlimit(40)]
proof fn lemma_run_order(ks: Seq<FaultKind>, mode: Mode, n: nat, st: SwarmState)
    ensures
        order_follows(ks, st.model, swarm_run(ks, mode, n, st).model),
    decreases ks.len(),
{
    if ks.len() > 0 {
        let init = ks.drop_last();
        lemma_run_order(init, mode, n, st);
        lemma_step_model(swarm_run(init, mode, n, st), ks.last(), mode, n);
        let last = ks.len() - 1;
        if exists|j: int| 0 <= j < ks.len() && (#[trigger] ks[j]) is Reorder {
            let j = choose|j: int| 0 <= j < ks.len() && (#[trigger] ks[j]) is Reorder;
            if j < last {
                assert(init[j] == ks[j]);
            }
        }
        if forall|j: int| 0 <= j < ks.len() ==> !(#[trigger] ks[j] is Reorder) {
            assert(!(ks[last] is Reorder));
            assert forall|j: int| 0 <= j < init.len() implies !(#[trigger] init[j] is Reorder) by {
                assert(init[j] == ks[j]);
            }
        }
    }
}

/// What a swarm lowering does to the network model: of the kinds the seeded
/// coin keeps, the last `Drop(p)` makes messages get lost with probability
/// `p`, the last `Duplicate(p)` duplicates them with probability `p`, the
/// last `Latency(r)` delays them by `r` milliseconds, and a `Reorder` drops
/// per-link order; every other setting of the model stays as it was.
pub proof fn lemma_swarm_plan_model(kinds: Seq<FaultKind>, mode: Mode, n: nat, model: NetworkModel, s: u64)
    ensures
        model_follows(enabled_kinds(kinds, s).0, model, swarm_plan(kinds, mode, n, model, s).model),
{
    let (en, s1) = enabled_kinds(kinds, s);
    let st0 = SwarmState { model, plan: Seq::empty(), partitioned: false, state: s1 };
    lemma_run_loss(en, mode, n, st0);
    lemma_run_duplicate(en, mode, n, st0);
    lemma_run_delay(en, mode, n, st0);
    lemma_run_order(en, mode, n, st0);
}

/// Every planned time is within the first four seconds.
pub open spec fn times_bounded(plan: Seq<(u128, ActionV)>) -> bool {
    forall|i: int| 0 <= i < plan.len() ==> (#[trigger] plan[i]).0 <= 4_000_000_000
}

/// Every planned time lies in `[lo, hi)` nanoseconds.
pub open spec fn times_within(plan: Seq<(u128, ActionV)>, lo: int, hi: int) -> bool {
    forall|i: int| 0 <= i < plan.len() ==> lo <= (#[trigger] plan[i]).0 < hi
}

/// Lowering one kind keeps every planned time within 100 ms and 4 s.
proof fn lemma_swarm_step_window(st: SwarmState, kind: FaultKind, mode: Mode, n: nat)
    requires
        times_within(st.plan, 100_000_000, 4_000_000_000),
    ensures
        times_within(swarm_step(st, kind, mode, n).plan, 100_000_000, 4_000_000_000),
{
    let r = swarm_step(st, kind, mode, n);
    match kind {
        FaultKind::Partitions => {
            if n >= 2 {
                let (cut, s1) = range_result(1, n as u64, st.state);
                lemma_range_result(100, 1000, s1);
            }
        },
        FaultKind::CrashRestart => {
            let (v, s1) = range_result(0, if n >= 1 { n as u64 } else { 1 }, st.state);
            let (ms, s2) = range_result(100, 1000, s1);
            lemma_range_result(100, 1000, s1);
            lemma_range_result(500, 2000, s2);
        },
        _ => {},
    }
    assert forall|i: int| 0 <= i < r.plan.len() implies 100_000_000 <= (#[trigger] r.plan[i]).0
        < 4_000_000_000 by {
        if i < st.plan.len() {
            assert(r.plan[i] == st.plan[i]);
        }
    }
}

proof fn lemma_swarm_run_window(ks: Seq<FaultKind>, mode: Mode, n: nat, st: SwarmState)
    requires
        times_within(st.plan, 100_000_000, 4_000_000_000),
    ensures
        times_within(swarm_run(ks, mode, n, st).plan, 100_000_000, 4_000_000_000),
    decreases ks.len(),
{
    if ks.len() > 0 {
        lemma_swarm_run_window(ks.drop_last(), mode, n, st);
        lemma_swarm_step_window(swarm_run(ks.drop_last(), mode, n, st), ks.last(), mode, n);
    }
}

/// Every action a swarm lowering plans fires between 100 ms and 4 s into
/// the run: partitions and crashes in `[100 ms, 1 s)`, restarts before
/// 3 s, and the liveness heal in `[2 s, 4 s)`.
pub proof fn lemma_swarm_plan_window(kinds: Seq<FaultKind>, mode: Mode, n: nat, model: NetworkModel, s: u64)
    ensures
        times_within(swarm_plan(kinds, mode, n, model, s).plan, 100_000_000, 4_000_000_000),
{
    let (en, s1) = enabled_kinds(kinds, s);
    let st0 = SwarmState { model, plan: Seq::empty(), partitioned: false, state: s1 };
    lemma_swarm_run_window(en, mode, n, st0);
    let st = swarm_run(en, mode, n, st0);
    if mode == Mode::Liveness && st.partitioned {
        lemma_range_result(2000, 4000, st.state);
        let r = swarm_plan(kinds, mode, n, model, s);
        assert forall|i: int| 0 <= i < r.plan.len() implies 100_000_000 <= (#[trigger] r.plan[i]).0
            < 4_000_000_000 by {
            if i < st.plan.len() {
                assert(r.plan[i] == st.plan[i]);
            }
        }
    }
}

/// Every planned time of a swarm lowering is a valid duration.
proof fn lemma_swarm_plan_times(kinds: Seq<FaultKind>, mode: Mode, n: nat, model: NetworkModel, s: u64)
    ensures
        times_bounded(swarm_plan(kinds, mode, n, model, s).plan),
{
    lemma_swarm_plan_window(kinds, mode, n, model, s);
}

/// The node ids `lo..hi`.
fn node_range_exec(lo: u64, hi: u64) -> (r: Vec<NodeId>)
    requires
        lo <= hi,
    ensures
        r@ == node_range(lo as int, hi as int),
{
    let mut r: Vec<NodeId> = Vec::new();
    let mut k: u64 = lo;
    while k < hi
        invariant
            lo <= k <= hi,
            r@ =~= node_range(lo as int, k as int),
        decreases hi - k,
    {
        r.push(NodeId(k));
        k = k + 1;
    }
    r
}

/// One half, as a probability.
fn half() -> (p: Prob)
    ensures
        p.bits() == half_bits(),
        roll_of(p.bits()) == Roll::Below(0x10_0000_0000_0000u64),
{
    let b: u64 = 0x3FE0_0000_0000_0000;
    assert(((b >> 52u64) & 0x7ffu64) == 1022 && (b & 0xF_FFFF_FFFF_FFFFu64) == 0 && (b >> 63u64)
        == 0) by (bit_vector)
        requires
            b == 0x3FE0_0000_0000_0000u64,
    ;
    assert(crate::transport::pow2(0) == 1);
    let p = Prob::from_bits(b);
    assert(((0x10_0000_0000_0000int + 0 + 1 - 1) / 1int) as u64 == 0x10_0000_0000_0000u64);
    assert(roll_of(b) == Roll::Below(0x10_0000_0000_0000u64));
    p
}

/// Lower a swarm description: keep a random subset of `kinds` (one coin per
/// kind), fold the continuous kinds into `model`, and return the timed
/// actions to schedule, in order.
pub fn lower_swarm(kinds: &[FaultKind], mode: Mode, model: &mut NetworkModel, rng: &mut SimRng, node_count: usize) -> (plan: Vec<(u128, FaultAction)>)
    requires
        node_count < u64::MAX,
    ensures
        ({
            let st = swarm_plan(kinds@, mode, node_count as nat, *old(model), old(rng).state());
            &&& *final(model) == st.model
            &&& final(rng).state() == st.state
            &&& plan_view(plan@) == st.plan
        }),
{
    let p = half();
    let mut enabled: Vec<usize> = Vec::new();
    let mut i: usize = 0;
    let ghost s0 = rng.state();
    assert(kinds@.take(0) =~= Seq::<FaultKind>::empty());
    while i < kinds.len()
        invariant
            i <= kinds.len(),
            p.bits() == half_bits(),
            roll_of(p.bits()) == Roll::Below(0x10_0000_0000_0000u64),
            forall|k: int| 0 <= k < enabled@.len() ==> #[trigger] enabled@[k] < i,
            Seq::new(enabled@.len(), |k: int| kinds@[enabled@[k] as int]) == enabled_kinds(kinds@.take(i as int), s0).0,
            rng.state() == enabled_kinds(kinds@.take(i as int), s0).1,
        decreases kinds.len() - i,
    {
        assert(kinds@.take(i + 1).drop_last() =~= kinds@.take(i as int));
        assert(kinds@.take(i + 1).last() == kinds@[i as int]);
        let ghost before = enabled@;
        if rng.chance(p) {
            enabled.push(i);
            assert(Seq::new(enabled@.len(), |k: int| kinds@[enabled@[k] as int]) =~= Seq::new(before.len(), |k: int| kinds@[before[k] as int]).push(kinds@[i as int]));
        }
        i = i + 1;
    }
    assert(kinds@.take(kinds.len() as int) =~= kinds@);
    let ghost en = enabled_kinds(kinds@, s0).0;
    let ghost st0 = SwarmState { model: *model, plan: Seq::empty(), partitioned: false, state: rng.state() };
    let mut plan: Vec<(u128, FaultAction)> = Vec::new();
    let mut partitioned = false;
    let n = node_count as u64;
    let mut j: usize = 0;
    assert(en.take(0) =~= Seq::<FaultKind>::empty());
    while j < enabled.len()
        invariant
            j <= enabled.len(),
            n == node_count,
            en.len() == enabled@.len(),
            forall|k: int| 0 <= k < enabled@.len() ==> #[trigger] enabled@[k] < kinds.len() && en[k] == kinds@[enabled@[k] as int],
            ({
                let st = swarm_run(en.take(j as int), mode, node_count as nat, st0);
                &&& *model == st.model
                &&& rng.state() == st.state
                &&& plan_view(plan@) == st.plan
                &&& partitioned == st.partitioned
            }),
        decreases enabled.len() - j,
    {
        assert(en.take(j + 1).drop_last() =~= en.take(j as int));
        assert(en.take(j + 1).last() == en[j as int]);
        let ghost pv = plan@;
        let kind = &kinds[enabled[j]];
        match kind {
            FaultKind::Latency(range) => {
                model.delay_ms = range.start..range.end;
            },
            FaultKind::Drop(q) => {
                model.loss = *q;
            },
            FaultKind::Duplicate(q) => {
                model.duplicate = *q;
            },
            FaultKind::Reorder => {
                model.ordered = false;
            },
            FaultKind::Partitions => {
                if n >= 2 {
                    let cut = rng.range_u64(1, n);
                    let a = node_range_exec(0, cut);
                    let b = node_range_exec(cut, n);
                    let ms = rng.range_u64(100, 1000);
                    plan.push(((ms as u128) * 1_000_000, FaultAction::Partition(a, b)));
                    partitioned = true;
                    assert(plan_view(plan@) =~= plan_view(pv).push(((ms * 1_000_000) as u128, ActionV::Partition(node_range(0, cut as int), node_range(cut as int, n as int)))));
                }
            },
            FaultKind::CrashRestart => {
                let bound = if n >= 1 {
                    n
                } else {
                    1
                };
                let victim = rng.range_u64(0, bound);
                let ms = rng.range_u64(100, 1000);
                plan.push(((ms as u128) * 1_000_000, FaultAction::Crash(NodeId(victim))));
                let ghost pv1 = plan@;
                assert(plan_view(pv1) =~= plan_view(pv).push(((ms * 1_000_000) as u128, ActionV::Crash(NodeId(victim)))));
                match mode {
                    Mode::Liveness => {
                        let back = rng.range_u64(500, 2000);
                        plan.push((((ms + back) as u128) * 1_000_000, FaultAction::Restart(NodeId(victim))));
                        assert(plan_view(plan@) =~= plan_view(pv1).push((((ms + back) * 1_000_000) as u128, ActionV::Restart(NodeId(victim)))));
                    },
                    Mode::Safety => {},
                }
            },
        }
        j = j + 1;
    }
    assert(en.take(enabled.len() as int) =~= en);
    match mode {
        Mode::Liveness => {
            if partitioned {
                let ms = rng.range_u64(2000, 4000);
                let ghost pv = plan@;
                plan.push(((ms as u128) * 1_000_000, FaultAction::HealAll));
                assert(plan_view(plan@) =~= plan_view(pv).push(((ms * 1_000_000) as u128, ActionV::HealAll)));
            }
        },
        Mode::Safety => {},
    }
    plan
}

/// Whether the queue holds a fault event with sequence number `seq` at `at`
/// whose action is `a`.
pub open spec fn holds_fault<M, T>(q: Seq<Scheduled<M, T>>, seq: int, at: u128, a: ActionV) -> bool {
    exists|j: int| 0 <= j < q.len() && is_fault_with(#[trigger] q[j], seq, at, a)
}

/// Whether `e` is a fault event with sequence number `seq` at `at` whose
/// action is `a`.
pub open spec fn is_fault_with<M, T>(e: Scheduled<M, T>, seq: int, at: u128, a: ActionV) -> bool {
    e.seq == seq && e.at == at && match e.kind {
        EventKind::Fault { action } => action_view(action) == a,
        _ => false,
    }
}

proof fn lemma_holds_fault_insert<M, T>(q: Seq<Scheduled<M, T>>, p: int, x: Scheduled<M, T>, seq: int, at: u128, a: ActionV)
    requires
        0 <= p <= q.len(),
        holds_fault(q, seq, at, a),
    ensures
        holds_fault(q.insert(p, x), seq, at, a),
{
    let j = choose|j: int| 0 <= j < q.len() && is_fault_with(#[trigger] q[j], seq, at, a);
    let u = q.insert(p, x);
    if j < p {
        assert(u[j] == q[j]);
    } else {
        assert(u[j + 1] == q[j]);
    }
}

/// A copy of a list of node ids.
fn copy_nodes(v: &Vec<NodeId>) -> (r: Vec<NodeId>)
    ensures
        r@ == v@,
{
    let mut r: Vec<NodeId> = Vec::new();
    let mut i: usize = 0;
    while i < v.len()
        invariant
            i <= v.len(),
            r@ =~= v@.take(i as int),
        decreases v.len() - i,
    {
        r.push(v[i]);
        i = i + 1;
    }
    assert(v@.take(v.len() as int) =~= v@);
    r
}

/// The timeline action for a scripted action.
fn resolve(a: &ScriptedAction) -> (r: FaultAction)
    ensures
        action_view(r) == scripted_view(*a),
{
    match a {
        ScriptedAction::Partition(x, y) => FaultAction::Partition(copy_nodes(x), copy_nodes(y)),
        ScriptedAction::HealAll => FaultAction::HealAll,
        ScriptedAction::Crash(n) => FaultAction::Crash(*n),
        ScriptedAction::Restart(n) => FaultAction::Restart(*n),
    }
}

/// The timed actions of a scripted timeline.
pub open spec fn script_plan(es: Seq<ScriptedEvent>) -> Seq<(u128, ActionV)> {
    Seq::new(es.len(), |i: int| (duration_nanos(es[i].at), scripted_view(es[i].action)))
}

/// Schedule the planned actions, in order.
fn schedule_plan<M, T>(core: &mut SchedCore<M, T>, plan: Vec<(u128, FaultAction)>)
    requires
        old(core).wf(),
        old(core).seq + plan@.len() < u64::MAX,
        forall|i: int| 0 <= i < plan@.len() ==> (#[trigger] plan@[i]).0 <= max_duration_nanos(),
        forall|i: int| 0 <= i < plan@.len() ==> old(core).now <= (#[trigger] plan@[i]).0,
    ensures
        final(core).wf(),
        final(core).seq == old(core).seq + plan@.len(),
        final(core).queue@.len() == old(core).queue@.len() + plan@.len(),
        forall|i: int| 0 <= i < plan@.len() ==> holds_fault(final(core).queue@, old(core).seq + i, #[trigger] plan_view(plan@)[i].0, plan_view(plan@)[i].1),
        final(core).now == old(core).now,
        final(core).history == old(core).history,
        final(core).pending_ops == old(core).pending_ops,
        final(core).crashed == old(core).crashed,
        final(core).partitions == old(core).partitions,
        final(core).timer_gen == old(core).timer_gen,
        final(core).rng == old(core).rng,
{
    let ghost pv = plan_view(plan@);
    let ghost n = plan@.len();
    let mut rest = plan;
    let ghost mut done: int = 0;
    while rest.len() > 0
        invariant
            core.wf(),
            0 <= done <= n,
            n == pv.len(),
            plan_view(rest@) == pv.skip(done),
            forall|i: int| 0 <= i < rest@.len() ==> (#[trigger] rest@[i]).0 <= max_duration_nanos(),
            forall|i: int| 0 <= i < rest@.len() ==> old(core).now <= (#[trigger] rest@[i]).0,
            core.seq == old(core).seq + done,
            old(core).seq + n < u64::MAX,
            core.queue@.len() == old(core).queue@.len() + done,
            forall|i: int| 0 <= i < done ==> holds_fault(core.queue@, old(core).seq + i, #[trigger] pv[i].0, pv[i].1),
            core.now == old(core).now,
            core.history == old(core).history,
            core.pending_ops == old(core).pending_ops,
            core.crashed == old(core).crashed,
            core.partitions == old(core).partitions,
            core.timer_gen == old(core).timer_gen,
            core.rng == old(core).rng,
        decreases rest.len(),
    {
        let ghost r0 = rest@;
        assert(plan_view(r0).len() == r0.len());
        assert(pv.skip(done).len() == n - done);
        assert(done < n);
        assert(plan_view(r0)[0] == pv[done]) by {
            assert(pv.skip(done)[0] == pv[done]);
        }
        let (at, action) = rest.remove(0);
        assert(plan_view(rest@) =~= pv.skip(done + 1)) by {
            assert forall|i: int| 0 <= i < rest@.len() implies #[trigger] plan_view(rest@)[i] == pv.skip(done + 1)[i] by {
                assert(rest@[i] == r0[i + 1]);
                assert(plan_view(r0)[i + 1] == pv.skip(done)[i + 1]);
            }
        }
        assert forall|i: int| 0 <= i < rest@.len() implies (#[trigger] rest@[i]).0 <= max_duration_nanos()
            && old(core).now <= rest@[i].0 by {
            assert(rest@[i] == r0[i + 1]);
        }
        let ghost q0 = core.queue@;
        let ghost av = action_view(action);
        core.schedule_fault(at, action);
        proof {
            let p = crate::sim::scheduler::insert_pos(q0, at);
            crate::sim::scheduler::lemma_insert_pos_bounds(q0, at);
            assert(core.queue@[p] == q0.insert(p, core.queue@[p])[p]);
            assert forall|i: int| 0 <= i < done implies holds_fault(core.queue@, old(core).seq + i, #[trigger] pv[i].0, pv[i].1) by {
                lemma_holds_fault_insert(q0, p, core.queue@[p], old(core).seq + i, pv[i].0, pv[i].1);
            }
            assert(core.queue@[p].seq == old(core).seq + done);
            assert(is_fault_with(core.queue@[p], old(core).seq + done, pv[done].0, pv[done].1));
            assert(holds_fault(core.queue@, old(core).seq + done, pv[done].0, pv[done].1));
            done = done + 1;
        }
    }
    proof {
        assert(done == n);
    }
}

/// Apply a fault description to a freshly-built scheduler: a scripted
/// timeline is scheduled as is; a swarm is lowered (changing the network
/// model and drawing from `rng`) and its planned actions scheduled.
pub fn lower<M, T>(faults: Option<&Faults>, model: &mut NetworkModel, core: &mut SchedCore<M, T>, rng: &mut SimRng, node_count: usize)
    requires
        old(core).wf(),
        old(core).now == 0,
        node_count < u64::MAX,
        faults matches Some(f) ==> (f.events() matches Some(es) ==> old(core).seq + es.len() < u64::MAX)
            && (f.kinds() matches Some(ks) ==> old(core).seq + 2 * ks.len() + 1 < u64::MAX),
    ensures
        final(core).wf(),
        final(core).now == old(core).now,
        final(core).history == old(core).history,
        final(core).pending_ops == old(core).pending_ops,
        final(core).crashed == old(core).crashed,
        final(core).partitions == old(core).partitions,
        final(core).rng == old(core).rng,
        match faults {
            None => *final(model) == *old(model) && *final(rng) == *old(rng) && final(core).seq == old(core).seq
                && final(core).queue@ == old(core).queue@,
            Some(f) => match f.events() {
                Some(es) => {
                    &&& *final(model) == *old(model)
                    &&& *final(rng) == *old(rng)
                    &&& final(core).seq == old(core).seq + es.len()
                    &&& final(core).queue@.len() == old(core).queue@.len() + es.len()
                    &&& forall|i: int| 0 <= i < es.len() ==> holds_fault(final(core).queue@, old(core).seq + i, #[trigger] script_plan(es)[i].0, script_plan(es)[i].1)
                },
                None => {
                    let st = swarm_plan(f.kinds()->0, f.mode_of(), node_count as nat, *old(model), old(rng).state());
                    &&& *final(model) == st.model
                    &&& final(rng).state() == st.state
                    &&& final(core).seq == old(core).seq + st.plan.len()
                    &&& final(core).queue@.len() == old(core).queue@.len() + st.plan.len()
                    &&& forall|i: int| 0 <= i < st.plan.len() ==> holds_fault(final(core).queue@, old(core).seq + i, #[trigger] st.plan[i].0, st.plan[i].1)
                },
            },
        },
{
    let f = match faults {
        None => {
            return;
        },
        Some(f) => f,
    };
    proof {
        f.lemma_one_regime();
    }
    match f.script() {
        Some(script) => {
            let mut plan: Vec<(u128, FaultAction)> = Vec::new();
            let mut i: usize = 0;
            while i < script.len()
                invariant
                    i <= script.len(),
                    plan_view(plan@) =~= script_plan(script@).take(i as int),
                    forall|k: int| 0 <= k < plan@.len() ==> (#[trigger] plan@[k]).0 <= max_duration_nanos(),
                decreases script.len() - i,
            {
                let at = nanos_of(script[i].at);
                let action = resolve(&script[i].action);
                let ghost before = plan@;
                plan.push((at, action));
                assert(plan_view(plan@) =~= plan_view(before).push(script_plan(script@)[i as int]));
                assert(script_plan(script@).take(i + 1) =~= script_plan(script@).take(i as int).push(script_plan(script@)[i as int]));
                i = i + 1;
            }
            assert(script_plan(script@).take(script.len() as int) =~= script_plan(script@));
            schedule_plan(core, plan);
            return;
        },
        None => {},
    }
    match f.swarm_kinds() {
        Some(kinds) => {
            let plan = lower_swarm(kinds, f.get_mode(), model, rng, node_count);
            proof {
                lemma_swarm_plan_len(kinds@, f.mode_of(), node_count as nat, *old(model), old(rng).state());
                lemma_swarm_plan_times(kinds@, f.mode_of(), node_count as nat, *old(model), old(rng).state());
                assert forall|i: int| 0 <= i < plan@.len() implies (#[trigger] plan@[i]).0 <= max_duration_nanos() by {
                    assert(plan_view(plan@)[i].0 == plan@[i].0);
                }
            }
            schedule_plan(core, plan);
        },
        None => {},
    }
}

/// A planned action names only nodes of the cluster `0..n`: a partition
/// splits them, in order, into two non-empty groups that together hold each
/// node once; a crash or restart targets one of them.
pub open spec fn targets_cluster(a: ActionV, n: nat) -> bool {
    match a {
        ActionV::Partition(x, y) => {
            &&& x.len() >= 1 && y.len() >= 1 && x.len() + y.len() == n
            &&& forall|k: int| 0 <= k < x.len() ==> (#[trigger] x[k]).0 == k
            &&& forall|k: int| 0 <= k < y.len() ==> (#[trigger] y[k]).0 == x.len() + k
        },
        ActionV::Crash(v) => v.0 < n,
        ActionV::Restart(v) => v.0 < n,
        ActionV::HealAll => true,
    }
}

proof fn lemma_step_targets(st: SwarmState, k: FaultKind, mode: Mode, n: nat)
    requires
        n >= 1,
        n < 0x1_0000_0000_0000_0000,
        forall|i: int| 0 <= i < st.plan.len() ==> targets_cluster(#[trigger] st.plan[i].1, n),
    ensures
        forall|i: int| 0 <= i < swarm_step(st, k, mode, n).plan.len() ==> targets_cluster(
            #[trigger] swarm_step(st, k, mode, n).plan[i].1,
            n,
        ),
{
    let r = swarm_step(st, k, mode, n);
    match k {
        FaultKind::Partitions => {
            if n >= 2 {
                lemma_range_result(1, n as u64, st.state);
                let (cut, s1) = range_result(1, n as u64, st.state);
                let a = r.plan.last().1;
                assert(a == ActionV::Partition(node_range(0, cut as int), node_range(cut as int, n as int)));
                assert(targets_cluster(a, n));
                assert forall|i: int| 0 <= i < r.plan.len() implies targets_cluster(#[trigger] r.plan[i].1, n) by {
                    if i < st.plan.len() {
                        assert(r.plan[i] == st.plan[i]);
                    }
                }
            }
        },
        FaultKind::CrashRestart => {
            lemma_range_result(0, n as u64, st.state);
            assert forall|i: int| 0 <= i < r.plan.len() implies targets_cluster(#[trigger] r.plan[i].1, n) by {
                if i < st.plan.len() {
                    assert(r.plan[i] == st.plan[i]);
                }
            }
        },
        _ => {},
    }
}

proof fn lemma_run_targets(ks: Seq<FaultKind>, mode: Mode, n: nat, st: SwarmState)
    requires
        n >= 1,
        n < 0x1_0000_0000_0000_0000,
        forall|i: int| 0 <= i < st.plan.len() ==> targets_cluster(#[trigger] st.plan[i].1, n),
    ensures
        forall|i: int| 0 <= i < swarm_run(ks, mode, n, st).plan.len() ==> targets_cluster(
            #[trigger] swarm_run(ks, mode, n, st).plan[i].1,
            n,
        ),
    decreases ks.len(),
{
    if ks.len() > 0 {
        lemma_run_targets(ks.drop_last(), mode, n, st);
        lemma_step_targets(swarm_run(ks.drop_last(), mode, n, st), ks.last(), mode, n);
    }
}

/// Every action a swarm lowering plans for a cluster of `n` nodes names only
/// its nodes: partitions split `0..n` into a non-empty prefix and the
/// non-empty rest, and crashes and restarts target a node below `n`.
pub proof fn lemma_swarm_plan_targets(kinds: Seq<FaultKind>, mode: Mode, n: nat, model: NetworkModel, s: u64)
    requires
        n >= 1,
        n < 0x1_0000_0000_0000_0000,
    ensures
        forall|i: int| 0 <= i < swarm_plan(kinds, mode, n, model, s).plan.len() ==> targets_cluster(
            #[trigger] swarm_plan(kinds, mode, n, model, s).plan[i].1,
            n,
        ),
{
    let (en, s1) = enabled_kinds(kinds, s);
    let st0 = SwarmState { model, plan: Seq::empty(), partitioned: false, state: s1 };
    lemma_run_targets(en, mode, n, st0);
    let st = swarm_run(en, mode, n, st0);
    let r = swarm_plan(kinds, mode, n, model, s);
    assert forall|i: int| 0 <= i < r.plan.len() implies targets_cluster(#[trigger] r.plan[i].1, n) by {
        if i < st.plan.len() {
            assert(r.plan[i] == st.plan[i]);
        }
    }
}

/// Whether a planned action is a heal or a restart.
pub open spec fn is_recovery(a: ActionV) -> bool {
    a is HealAll || a is Restart
}

proof fn lemma_safety_run(ks: Seq<FaultKind>, n: nat, st: SwarmState)
    requires
        forall|i: int| 0 <= i < st.plan.len() ==> !is_recovery(#[trigger] st.plan[i].1),
    ensures
        forall|i: int| 0 <= i < swarm_run(ks, Mode::Safety, n, st).plan.len() ==> !is_recovery(
            #[trigger] swarm_run(ks, Mode::Safety, n, st).plan[i].1,
        ),
    decreases ks.len(),
{
    if ks.len() > 0 {
        lemma_safety_run(ks.drop_last(), n, st);
        let s0 = swarm_run(ks.drop_last(), Mode::Safety, n, st);
        let s1 = swarm_step(s0, ks.last(), Mode::Safety, n);
        assert forall|i: int| 0 <= i < s1.plan.len() implies !is_recovery(#[trigger] s1.plan[i].1) by {
            if i < s0.plan.len() {
                assert(s1.plan[i] == s0.plan[i]);
            }
        }
    }
}

/// In safety mode a swarm lowering only injures: it plans no heal and no
/// restart.
pub proof fn lemma_safety_only_injures(kinds: Seq<FaultKind>, n: nat, model: NetworkModel, s: u64)
    ensures
        forall|i: int| 0 <= i < swarm_plan(kinds, Mode::Safety, n, model, s).plan.len() ==> !is_recovery(
            #[trigger] swarm_plan(kinds, Mode::Safety, n, model, s).plan[i].1,
        ),
{
    let (en, s1) = enabled_kinds(kinds, s);
    lemma_safety_run(en, n, SwarmState { model, plan: Seq::empty(), partitioned: false, state: s1 });
}

/// Whether every planned partition is flagged.
pub open spec fn flags_partitions(st: SwarmState) -> bool {
    forall|i: int| 0 <= i < st.plan.len() && (#[trigger] st.plan[i]).1 is Partition ==> st.partitioned
}

proof fn lemma_partitioned_run(ks: Seq<FaultKind>, mode: Mode, n: nat, st: SwarmState)
    requires
        flags_partitions(st),
    ensures
        flags_partitions(swarm_run(ks, mode, n, st)),
    decreases ks.len(),
{
    if ks.len() > 0 {
        lemma_partitioned_run(ks.drop_last(), mode, n, st);
        let s0 = swarm_run(ks.drop_last(), mode, n, st);
        let s1 = swarm_step(s0, ks.last(), mode, n);
        assert(s0.partitioned ==> s1.partitioned);
        assert forall|i: int| 0 <= i < s1.plan.len() && (#[trigger] s1.plan[i]).1 is Partition implies s1.partitioned by {
            if i < s0.plan.len() {
                assert(s1.plan[i] == s0.plan[i]);
            }
        }
    }
}

/// In liveness mode, a swarm lowering that plans a partition ends with a
/// heal, so progress can be asserted after the window.
pub proof fn lemma_liveness_heals(kinds: Seq<FaultKind>, n: nat, model: NetworkModel, s: u64)
    requires
        exists|i: int|
            0 <= i < swarm_plan(kinds, Mode::Liveness, n, model, s).plan.len() && (#[trigger] swarm_plan(
                kinds,
                Mode::Liveness,
                n,
                model,
                s,
            ).plan[i]).1 is Partition,
    ensures
        swarm_plan(kinds, Mode::Liveness, n, model, s).plan.len() > 0,
        swarm_plan(kinds, Mode::Liveness, n, model, s).plan.last().1 is HealAll,
{
    let (en, s1) = enabled_kinds(kinds, s);
    let st0 = SwarmState { model, plan: Seq::empty(), partitioned: false, state: s1 };
    lemma_partitioned_run(en, Mode::Liveness, n, st0);
    let st = swarm_run(en, Mode::Liveness, n, st0);
    let fin = swarm_plan(kinds, Mode::Liveness, n, model, s);
    if !st.partitioned {
        let i = choose|i: int| 0 <= i < fin.plan.len() && (#[trigger] fin.plan[i]).1 is Partition;
        assert(fin.plan[i] == st.plan[i]);
    }
}

} // verus!
