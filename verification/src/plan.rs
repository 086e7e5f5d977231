//! The backend-neutral plan data an executor consumes, and why a run did not
//! produce a passing report.

use vstd::prelude::*;

use crate::backend::{join_names, names_view, refusal_head, refusal_tail, BackendError};
use crate::faults::Faults;
use crate::scenario::{FrozenOp, Scenario};
use crate::seed::{seed_text, Seed};
use crate::text::{push_str, string_of};
use crate::transport::NetworkModel;

verus! {

/// The backend-neutral description an executor consumes: the parts of a
/// test plan that do not carry the node type.
#[derive(Debug)]
pub struct PlanData {
    /// Cluster size.
    pub nodes: usize,
    /// Network model.
    pub network: Option<NetworkModel>,
    /// Fault schedule.
    pub faults: Option<Faults>,
    /// Seed count.
    pub seeds: usize,
    /// A pinned scenario to replay instead of generating, if any.
    pub replay: Option<Scenario>,
}

impl Default for PlanData {
    fn default() -> (d: PlanData)
        ensures
            d.nodes == 0,
            d.network is None,
            d.faults is None,
            d.seeds == 0,
            d.replay is None,
    {
        PlanData { nodes: 0, network: None, faults: None, seeds: 0, replay: None }
    }
}

/// `ops` copied: the same processes, routes and payloads, in order.
pub open spec fn copies_ops(copy: Seq<FrozenOp>, ops: Seq<FrozenOp>) -> bool {
    &&& copy.len() == ops.len()
    &&& forall|i: int|
        0 <= i < ops.len() ==> (#[trigger] copy[i]).process == ops[i].process && copy[i].route
            == ops[i].route && copy[i].op@ == ops[i].op@
}

/// A copy of `data` with the op stream pinned to `ops` by a replay
/// scenario, which carries the plan's fault schedule (or a swarm of no
/// kinds when the plan has none).
pub fn data_with_ops(data: &PlanData, ops: &[FrozenOp]) -> (r: PlanData)
    ensures
        r.nodes == data.nodes,
        r.seeds == data.seeds,
        r.network is Some <==> data.network is Some,
        r.faults is Some <==> data.faults is Some,
        r.replay is Some,
        r.replay->0.origin_seed is None,
        copies_ops(r.replay->0.ops@, ops@),
        data.faults is None ==> r.replay->0.faults.kinds() == Some(Seq::<crate::faults::FaultKind>::empty())
            && r.replay->0.faults.events() is None && r.replay->0.faults.mode_of()
            == crate::faults::Mode::Safety,
{
    let mut pinned: Vec<FrozenOp> = Vec::new();
    let mut i: usize = 0;
    while i < ops.len()
        invariant
            i <= ops@.len(),
            copies_ops(pinned@, ops@.take(i as int)),
        decreases ops.len() - i,
    {
        pinned.push(ops[i].clone());
        i = i + 1;
    }
    assert(ops@.take(ops@.len() as int) =~= ops@);
    let faults = match &data.faults {
        Some(f) => f.clone(),
        None => Faults::swarm(),
    };
    let network = match &data.network {
        Some(m) => Some(m.clone()),
        None => None,
    };
    let scenario_faults = match &data.faults {
        Some(f) => Some(f.clone()),
        None => None,
    };
    PlanData {
        nodes: data.nodes,
        network,
        faults: scenario_faults,
        seeds: data.seeds,
        replay: Some(Scenario::new(pinned, faults)),
    }
}

/// Why a run did not produce a passing report.
#[derive(Debug)]
pub enum RunFailure {
    /// Capability negotiation rejected the backend.
    Negotiation(BackendError),
    /// A property or oracle was violated; carries the shrunk reproduction.
    Violation {
        /// The name of the violated property or oracle.
        name: String,
        /// The seed that reproduces it on the deterministic executor.
        seed: Seed,
        /// The portable, shrunk scenario for cross-backend reproduction.
        scenario: Scenario,
    },
    /// No executor was available to run the plan.
    NoExecutor,
}

/// The text that explains a missing executor.
pub open spec fn no_executor_text() -> Seq<char> {
    "no executor available: this build ships only the propsim-core contract (Tier 1). Add the deterministic executor (propsim-sim) to run plans."@
}

impl RunFailure {
    /// The shrunk scenario, when the failure carries one.
    pub fn scenario(&self) -> (r: Option<&Scenario>)
        ensures
            match self {
                RunFailure::Violation { scenario, .. } => r == Some(scenario),
                _ => r is None,
            },
    {
        match self {
            RunFailure::Violation { scenario, .. } => Some(scenario),
            _ => None,
        }
    }

    /// The human-readable description: the negotiation error, the violated
    /// property with the seed that re-runs it, or the missing executor.
    pub fn to_string(&self) -> (s: String)
        ensures
            match self {
                RunFailure::Negotiation(BackendError::WhiteBoxOraclesOnBlackBoxExecutor(names)) => s@
                    == refusal_head() + join_names(names_view(names@)) + refusal_tail(),
                RunFailure::Violation { name, seed, .. } => s@ == "FAILED property `"@ + name@
                    + "`  (re-run: PROPSIM_SEED="@ + seed_text(seed.0) + ")"@,
                RunFailure::NoExecutor => s@ == no_executor_text(),
            },
    {
        match self {
            RunFailure::Negotiation(e) => e.to_string(),
            RunFailure::Violation { name, seed, .. } => {
                let mut out: Vec<char> = Vec::new();
                push_str(&mut out, "FAILED property `");
                push_str(&mut out, name.as_str());
                push_str(&mut out, "`  (re-run: PROPSIM_SEED=");
                let t = seed.to_string();
                push_str(&mut out, t.as_str());
                push_str(&mut out, ")");
                string_of(&out)
            },
            RunFailure::NoExecutor => string_of(
                &crate::text::chars_of(
                    "no executor available: this build ships only the propsim-core contract (Tier 1). Add the deterministic executor (propsim-sim) to run plans.",
                ),
            ),
        }
    }
}

} // verus!
