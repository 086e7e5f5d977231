//! The backend-neutral fault description. A [`Faults`] value describes a
//! fault regime; each executor interprets it. Two ideas are built in: swarm
//! testing (each seed omits a random subset of the enabled fault kinds) and
//! safety vs. liveness modes (liveness requires the schedule to heal, then
//! assert progress).

use std::ops::Range;
use std::time::Duration;
use vstd::prelude::*;

use crate::node::NodeId;
use crate::transport::Prob;

verus! {

/// Whether the schedule injures uniformly (safety) or injures-then-heals
/// (liveness, so progress can be asserted after a healthy window).
#[derive(Clone, Copy, Debug, PartialEq, Eq, Structural)]
pub enum Mode {
    /// Inject faults uniformly across the run.
    Safety,
    /// Injure, then heal, then check for progress.
    Liveness,
}

impl Default for Mode {
    fn default() -> (m: Mode)
        ensures
            m == Mode::Safety,
    {
        Mode::Safety
    }
}

/// `Range::clone`: a copy of the range. Nothing is claimed of the copy, which
/// the library only carries.
pub assume_specification<Idx: Clone>[ <Range<Idx> as Clone>::clone ](r: &Range<Idx>) -> Range<Idx>;

/// The fault kinds a swarm schedule may enable.
#[derive(Clone, Debug, PartialEq)]
pub enum FaultKind {
    /// Arbitrary network cuts.
    Partitions,
    /// Crash with durable state, later restart and rejoin.
    CrashRestart,
    /// Per-link latency / jitter, in milliseconds.
    Latency(Range<u64>),
    /// Packet loss with the given probability.
    Drop(Prob),
    /// Re-delivery (duplication) with the given probability.
    Duplicate(Prob),
    /// Out-of-order delivery.
    Reorder,
}

/// A scripted fault action.
#[derive(Clone, Debug, PartialEq)]
pub enum ScriptedAction {
    /// Partition the cluster into the two given groups.
    Partition(Vec<NodeId>, Vec<NodeId>),
    /// Heal every partition.
    HealAll,
    /// Crash a node (durable state retained).
    Crash(NodeId),
    /// Restart a previously-crashed node.
    Restart(NodeId),
}

/// One entry in a scripted fault timeline.
#[derive(Clone, Debug, PartialEq)]
pub struct ScriptedEvent {
    /// When (virtual time from the run start) the action fires.
    pub at: Duration,
    /// What happens.
    pub action: ScriptedAction,
}

/// Either a set of fault kinds to swarm over, or a scripted timeline.
#[derive(Clone, Debug, PartialEq)]
enum FaultSpec {
    Swarm(Vec<FaultKind>),
    Scripted(Vec<ScriptedEvent>),
}

/// A backend-neutral fault description: either a swarm of enabled kinds, or
/// a scripted timeline of specific events.
#[derive(Clone, Debug, PartialEq)]
pub struct Faults {
    spec: FaultSpec,
    mode: Mode,
}

impl Faults {
    /// The enabled swarm kinds, for a swarm description.
    pub closed spec fn kinds(&self) -> Option<Seq<FaultKind>> {
        match self.spec {
            FaultSpec::Swarm(k) => Some(k@),
            FaultSpec::Scripted(_) => None,
        }
    }

    /// The scripted timeline, for a scripted description.
    pub closed spec fn events(&self) -> Option<Seq<ScriptedEvent>> {
        match self.spec {
            FaultSpec::Scripted(e) => Some(e@),
            FaultSpec::Swarm(_) => None,
        }
    }

    /// The configured mode.
    pub closed spec fn mode_of(&self) -> Mode {
        self.mode
    }

    /// A description is one of the two regimes.
    pub proof fn lemma_one_regime(&self)
        ensures
            self.kinds() is Some <==> self.events() is None,
    {
    }

    /// Begin a swarm schedule.
    pub fn swarm() -> (f: Faults)
        ensures
            f.kinds() == Some(Seq::<FaultKind>::empty()),
            f.events() is None,
            f.mode_of() == Mode::Safety,
    {
        Faults { spec: FaultSpec::Swarm(Vec::new()), mode: Mode::Safety }
    }

    /// Begin a scripted (specific, non-random) schedule.
    pub fn scripted() -> (f: Faults)
        ensures
            f.events() == Some(Seq::<ScriptedEvent>::empty()),
            f.kinds() is None,
            f.mode_of() == Mode::Safety,
    {
        Faults { spec: FaultSpec::Scripted(Vec::new()), mode: Mode::Safety }
    }

    /// Set the safety/liveness mode.
    pub fn mode(self, mode: Mode) -> (f: Faults)
        ensures
            f.kinds() == self.kinds(),
            f.events() == self.events(),
            f.mode_of() == mode,
    {
        Faults { spec: self.spec, mode }
    }

    /// The configured mode.
    pub fn get_mode(&self) -> (m: Mode)
        ensures
            m == self.mode_of(),
    {
        self.mode
    }

    /// Whether this is a swarm (vs. scripted) description.
    pub fn is_swarm(&self) -> (b: bool)
        ensures
            b == self.kinds() is Some,
    {
        match &self.spec {
            FaultSpec::Swarm(_) => true,
            FaultSpec::Scripted(_) => false,
        }
    }

    /// The enabled swarm kinds, if this is a swarm description.
    pub fn swarm_kinds(&self) -> (r: Option<&[FaultKind]>)
        ensures
            match r {
                Some(k) => self.kinds() == Some(k@),
                None => self.kinds() is None,
            },
    {
        match &self.spec {
            FaultSpec::Swarm(kinds) => Some(kinds.as_slice()),
            FaultSpec::Scripted(_) => None,
        }
    }

    /// The scripted timeline, if this is a scripted description.
    pub fn script(&self) -> (r: Option<&[ScriptedEvent]>)
        ensures
            match r {
                Some(e) => self.events() == Some(e@),
                None => self.events() is None,
            },
    {
        match &self.spec {
            FaultSpec::Scripted(events) => Some(events.as_slice()),
            FaultSpec::Swarm(_) => None,
        }
    }

    /// Enable arbitrary partitions.
    pub fn partitions(self) -> (f: Faults)
        ensures
            f.kinds() == kinds_after(self.kinds(), FaultKind::Partitions),
            f.events() == self.events(),
            f.mode_of() == self.mode_of(),
    {
        self.push_kind(FaultKind::Partitions)
    }

    /// Enable crash/restart.
    pub fn crash_restart(self) -> (f: Faults)
        ensures
            f.kinds() == kinds_after(self.kinds(), FaultKind::CrashRestart),
            f.events() == self.events(),
            f.mode_of() == self.mode_of(),
    {
        self.push_kind(FaultKind::CrashRestart)
    }

    /// Enable per-link latency/jitter over `range` milliseconds.
    pub fn latency_ms(self, range: Range<u64>) -> (f: Faults)
        ensures
            f.kinds() == kinds_after(self.kinds(), FaultKind::Latency(range)),
            f.events() == self.events(),
            f.mode_of() == self.mode_of(),
    {
        self.push_kind(FaultKind::Latency(range))
    }

    /// Enable packet loss.
    pub fn drop(self, p: Prob) -> (f: Faults)
        ensures
            f.kinds() == kinds_after(self.kinds(), FaultKind::Drop(p)),
            f.events() == self.events(),
            f.mode_of() == self.mode_of(),
    {
        self.push_kind(FaultKind::Drop(p))
    }

    /// Enable duplication.
    pub fn duplicate(self, p: Prob) -> (f: Faults)
        ensures
            f.kinds() == kinds_after(self.kinds(), FaultKind::Duplicate(p)),
            f.events() == self.events(),
            f.mode_of() == self.mode_of(),
    {
        self.push_kind(FaultKind::Duplicate(p))
    }

    /// Enable reordering.
    pub fn reorder(self) -> (f: Faults)
        ensures
            f.kinds() == kinds_after(self.kinds(), FaultKind::Reorder),
            f.events() == self.events(),
            f.mode_of() == self.mode_of(),
    {
        self.push_kind(FaultKind::Reorder)
    }

    /// Add a swarm kind; on a scripted description a swarm verb changes
    /// nothing.
    fn push_kind(self, kind: FaultKind) -> (f: Faults)
        ensures
            f.kinds() == kinds_after(self.kinds(), kind),
            f.events() == self.events(),
            f.mode_of() == self.mode_of(),
    {
        let mode = self.mode;
        match self.spec {
            FaultSpec::Swarm(mut kinds) => {
                kinds.push(kind);
                Faults { spec: FaultSpec::Swarm(kinds), mode }
            },
            FaultSpec::Scripted(events) => Faults { spec: FaultSpec::Scripted(events), mode },
        }
    }

    /// Open a scripted step at virtual time `at`; choose its action next.
    pub fn at(self, at: Duration) -> (s: ScriptStep)
        ensures
            s.pending() == self,
            s.time() == at,
    {
        ScriptStep { faults: self, at }
    }
}

/// The swarm kinds after enabling `k`: appended on a swarm description.
pub open spec fn kinds_after(kinds: Option<Seq<FaultKind>>, k: FaultKind) -> Option<Seq<FaultKind>> {
    match kinds {
        Some(ks) => Some(ks.push(k)),
        None => None,
    }
}

/// The scripted timeline after committing `e`: appended on a scripted
/// description.
pub open spec fn events_after(events: Option<Seq<ScriptedEvent>>, e: ScriptedEvent) -> Option<
    Seq<ScriptedEvent>,
> {
    match events {
        Some(es) => Some(es.push(e)),
        None => None,
    }
}

/// Node ids for the given numbers, in order.
pub open spec fn node_ids(ns: Seq<u64>) -> Seq<NodeId> {
    Seq::new(ns.len(), |i: int| NodeId(ns[i]))
}

/// A half-built scripted step bound to a timestamp.
pub struct ScriptStep {
    pub(crate) faults: Faults,
    pub(crate) at: Duration,
}

impl ScriptStep {
    /// The description the step will be added to.
    pub closed spec fn pending(&self) -> Faults {
        self.faults
    }

    /// The step's time.
    pub closed spec fn time(&self) -> Duration {
        self.at
    }

    /// Partition the cluster into two groups at this step's time.
    pub fn partition(self, a: &[u64], b: &[u64]) -> (f: Faults)
        ensures
            self.pending().events() is None ==> f.events() is None,
            self.pending().events() matches Some(es) ==> {
                &&& f.events() matches Some(fs)
                &&& fs.len() == es.len() + 1
                &&& fs.drop_last() == es
                &&& fs.last().at == self.time()
                &&& fs.last().action matches ScriptedAction::Partition(ga, gb)
                &&& ga@ == node_ids(a@)
                &&& gb@ == node_ids(b@)
            },
            f.kinds() == self.pending().kinds(),
            f.mode_of() == self.pending().mode_of(),
    {
        let ga = ids_of(a);
        let gb = ids_of(b);
        self.commit(ScriptedAction::Partition(ga, gb))
    }

    /// Heal all partitions at this step's time.
    pub fn heal_all(self) -> (f: Faults)
        ensures
            f.events() == events_after(
                self.pending().events(),
                ScriptedEvent { at: self.time(), action: ScriptedAction::HealAll },
            ),
            f.kinds() == self.pending().kinds(),
            f.mode_of() == self.pending().mode_of(),
    {
        self.commit(ScriptedAction::HealAll)
    }

    /// Crash a node at this step's time.
    pub fn crash(self, node: u64) -> (f: Faults)
        ensures
            f.events() == events_after(
                self.pending().events(),
                ScriptedEvent { at: self.time(), action: ScriptedAction::Crash(NodeId(node)) },
            ),
            f.kinds() == self.pending().kinds(),
            f.mode_of() == self.pending().mode_of(),
    {
        self.commit(ScriptedAction::Crash(NodeId(node)))
    }

    /// Restart a node at this step's time.
    pub fn restart(self, node: u64) -> (f: Faults)
        ensures
            f.events() == events_after(
                self.pending().events(),
                ScriptedEvent { at: self.time(), action: ScriptedAction::Restart(NodeId(node)) },
            ),
            f.kinds() == self.pending().kinds(),
            f.mode_of() == self.pending().mode_of(),
    {
        self.commit(ScriptedAction::Restart(NodeId(node)))
    }

    /// Append the step to a scripted timeline; on a swarm description the
    /// step changes nothing.
    fn commit(self, action: ScriptedAction) -> (f: Faults)
        ensures
            f.events() == events_after(
                self.pending().events(),
                ScriptedEvent { at: self.time(), action },
            ),
            f.kinds() == self.pending().kinds(),
            f.mode_of() == self.pending().mode_of(),
    {
        let at = self.at;
        let mode = self.faults.mode;
        match self.faults.spec {
            FaultSpec::Scripted(mut events) => {
                events.push(ScriptedEvent { at, action });
                Faults { spec: FaultSpec::Scripted(events), mode }
            },
            FaultSpec::Swarm(kinds) => Faults { spec: FaultSpec::Swarm(kinds), mode },
        }
    }
}

/// Node ids for the given numbers.
fn ids_of(ns: &[u64]) -> (r: Vec<NodeId>)
    ensures
        r@ == node_ids(ns@),
{
    let mut r: Vec<NodeId> = Vec::new();
    let mut i: usize = 0;
    while i < ns.len()
        invariant
            i <= ns.len(),
            r@ =~= node_ids(ns@.take(i as int)),
        decreases ns.len() - i,
    {
        r.push(NodeId(ns[i]));
        i = i + 1;
    }
    assert(ns@.take(ns.len() as int) =~= ns@);
    r
}

} // verus!
