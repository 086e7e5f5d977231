//! The portable, cross-backend reproduction artifact: the frozen,
//! already-shrunk op stream plus the fault schedule.

use vstd::prelude::*;

use crate::faults::Faults;
use crate::history::op::Value;
use crate::node::NodeId;
use crate::seed::Seed;

verus! {

/// One generated client operation, frozen to a concrete value.
#[derive(Debug, PartialEq)]
pub struct FrozenOp {
    /// The process (client) that issues this op.
    pub process: NodeId,
    /// The node this op is routed to; `None` means `process % node_count`.
    pub route: Option<NodeId>,
    /// The operation payload.
    pub op: Value,
}

impl Clone for FrozenOp {
    fn clone(&self) -> (r: FrozenOp)
        ensures
            r.process == self.process,
            r.route == self.route,
            r.op@ == self.op@,
    {
        FrozenOp { process: self.process, route: self.route, op: self.op.clone() }
    }
}

impl FrozenOp {
    /// An op issued by `process`, routed by the default rule.
    pub fn new(process: NodeId, op: Value) -> (f: FrozenOp)
        ensures
            f.process == process,
            f.route is None,
            f.op == op,
    {
        FrozenOp { process, route: None, op }
    }

    /// Route this op at a specific node.
    pub fn routed_to(self, node: NodeId) -> (f: FrozenOp)
        ensures
            f.process == self.process,
            f.route == Some(node),
            f.op == self.op,
    {
        FrozenOp { process: self.process, route: Some(node), op: self.op }
    }
}

/// A frozen, replayable execution: the concrete op stream and the fault
/// schedule.
#[derive(Clone, Debug, PartialEq)]
pub struct Scenario {
    /// The seed this scenario was derived from (informational).
    pub origin_seed: Option<Seed>,
    /// The frozen client op stream, in issue order.
    pub ops: Vec<FrozenOp>,
    /// The fault schedule to apply during replay.
    pub faults: Faults,
}

impl Scenario {
    /// A scenario with the given op stream and faults, not tied to a seed.
    pub fn new(ops: Vec<FrozenOp>, faults: Faults) -> (s: Scenario)
        ensures
            s.origin_seed is None,
            s.ops == ops,
            s.faults == faults,
    {
        Scenario { origin_seed: None, ops, faults }
    }

    /// Record the seed this scenario came from.
    pub fn from_seed(self, seed: Seed) -> (s: Scenario)
        ensures
            s.origin_seed == Some(seed),
            s.ops == self.ops,
            s.faults == self.faults,
    {
        Scenario { origin_seed: Some(seed), ops: self.ops, faults: self.faults }
    }
}

/// A placeholder node-state type for a type-erased world trace.
#[derive(Clone, Copy, Debug)]
pub struct ErasedState;

impl Default for ErasedState {
    fn default() -> (e: ErasedState) {
        ErasedState
    }
}

} // verus!
