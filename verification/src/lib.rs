//! Property-based testing for distributed protocols: the backend-neutral
//! authoring and checking vocabulary, the Jepsen-shaped operation history and
//! its codecs, and the deterministic simulator's scheduling core.

use vstd::prelude::*;

pub mod backend;
pub mod duration;
pub mod executor;
pub mod faults;
pub mod history;
pub mod linearizability;
pub mod needs;
pub mod node;
pub mod oracle;
pub mod plan;
pub mod property;
pub mod scenario;
pub mod seed;
pub mod sim;
pub mod text;
pub mod transport;

pub use backend::{validate, BackendError};
pub use duration::{millis, secs};
pub use executor::Artifacts;
pub use faults::{FaultKind, Faults, Mode, ScriptStep, ScriptedAction, ScriptedEvent};
pub use history::log::History;
pub use history::op::{Function, OpEntry, OpKind, ProcessId, Value};
pub use history::time::{Clock, Time};
pub use history::ParseError;
pub use linearizability::{
    linearizable, sequentially_consistent, LinearizabilityOracle, Response, SequentialModel,
};
pub use needs::{Needs, Produces};
pub use node::{Completion, NodeId, OpOutcome, OpToken, Rng};
pub use oracle::{Anomaly, NamedVerdict, Report, Verdict, Witness};
pub use plan::{PlanData, RunFailure};
pub use property::{Event, PropertyKind};
pub use scenario::{ErasedState, FrozenOp, Scenario};
pub use seed::{Seed, SeedParseError};
pub use sim::rng::SimRng;
pub use sim::scheduler::{FaultAction, RunEvent, SchedCore};
pub use sim::DeterministicExecutor;
pub use transport::{InMemory, IrohFrame, NetworkModel, Prob, Transport};

verus! {
} // verus!
