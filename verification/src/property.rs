//! The temporal vocabulary of white-box properties: the flavor of a claim and
//! the run events a bounded-liveness deadline can be anchored to.

use std::time::Duration;
use vstd::prelude::*;

verus! {

/// The temporal flavor of a property.
#[derive(Clone, Debug, PartialEq, Eq)]
pub enum PropertyKind {
    /// Must hold in every reachable state (safety / invariant).
    Always,
    /// Must hold in at least one state (reachability / non-triviality).
    Sometimes,
    /// Must become true within `deadline` of the (optional) start event
    /// (bounded-time liveness).
    EventuallyWithin {
        /// How long after the start event the property has to hold.
        deadline: Duration,
    },
}

/// A run event that a bounded-liveness deadline can be anchored to.
#[derive(Clone, Debug, PartialEq, Eq)]
pub enum Event {
    /// All injected partitions have healed.
    NetworkHealed,
    /// A crashed node has rejoined.
    NodeRejoined,
    /// A named, protocol-specific marker.
    Custom(String),
}

} // verus!
