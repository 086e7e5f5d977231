//! Timestamps with provenance: a virtual timestamp from the simulator and a
//! wall-clock timestamp from a real cluster are never interchangeable.

use vstd::prelude::*;

verus! {

/// Provenance of a [`Time`] value.
#[derive(Clone, Copy, Debug, PartialEq, Eq, Hash)]
pub enum Clock {
    /// The simulator's compressible virtual clock.
    Virtual,
    /// A real wall clock.
    Wall,
}

/// A timestamp: nanoseconds tagged with the clock they were read from.
#[derive(Clone, Copy, Debug, PartialEq, Eq, Hash)]
pub struct Time {
    /// Nanoseconds since an executor-defined origin.
    pub nanos: i64,
    /// Which clock `nanos` was read from.
    pub clock: Clock,
}

impl Time {
    /// A virtual-clock timestamp (the simulator path).
    pub fn virtual_nanos(nanos: i64) -> (t: Time)
        ensures
            t == (Time { nanos, clock: Clock::Virtual }),
    {
        Time { nanos, clock: Clock::Virtual }
    }

    /// A wall-clock timestamp (the real-cluster path).
    pub fn wall_nanos(nanos: i64) -> (t: Time)
        ensures
            t == (Time { nanos, clock: Clock::Wall }),
    {
        Time { nanos, clock: Clock::Wall }
    }
}

} // verus!
