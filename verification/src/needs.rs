//! Capability descriptors — the two halves of capability negotiation: what an
//! executor produces and what an oracle needs.

use vstd::prelude::*;

verus! {

/// What an executor can produce for oracles to consume.
#[derive(Clone, Copy, Debug, PartialEq, Eq, Structural)]
pub struct Produces {
    /// White-box per-node internal state (a world trace).
    pub world_snapshots: bool,
    /// The client operation history (true in practice for every executor).
    pub history: bool,
    /// Deadlines expressed in compressible virtual time.
    pub virtual_time: bool,
    /// Byte-for-byte replay from an 8-byte seed.
    pub seed_replayable: bool,
}

impl Produces {
    /// The deterministic in-process executor's capabilities: everything.
    pub fn deterministic() -> (p: Produces)
        ensures
            p == (Produces {
                world_snapshots: true,
                history: true,
                virtual_time: true,
                seed_replayable: true,
            }),
    {
        Produces { world_snapshots: true, history: true, virtual_time: true, seed_replayable: true }
    }

    /// A real-cluster executor's capabilities: history only, black-box,
    /// wall-clock, not seed-replayable.
    pub fn real_cluster() -> (p: Produces)
        ensures
            p == (Produces {
                world_snapshots: false,
                history: true,
                virtual_time: false,
                seed_replayable: false,
            }),
    {
        Produces {
            world_snapshots: false,
            history: true,
            virtual_time: false,
            seed_replayable: false,
        }
    }
}

/// What an oracle needs to render a verdict.
#[derive(Clone, Copy, Debug, PartialEq, Eq, Structural)]
pub enum Needs {
    /// Reads every node's internal state — a white-box oracle. Cannot run on a
    /// black-box executor.
    World,
    /// Reads only the recorded client operation history — portable across
    /// every executor.
    History,
}

} // verus!
