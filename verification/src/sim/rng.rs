//! The seeded random source — the only entropy in a deterministic run.
//!
//! SplitMix64: fully deterministic from a `u64` seed.

use std::time::Duration;
use vstd::prelude::*;

use crate::duration::{duration_from_millis, duration_nanos};
use crate::node::{pick_in_range, pick_ms, Rng};
use crate::transport::{roll_of, Prob, Roll};

verus! {

/// The SplitMix64 increment.
pub const GOLDEN_GAMMA: u64 = 0x9E37_79B9_7F4A_7C15;

/// The SplitMix64 output function applied to an (already advanced) state.
pub open spec fn splitmix_mix(z0: u64) -> u64 {
    let z1 = ((z0 ^ (z0 >> 30u64)) as u64).wrapping_mul(0xBF58_476D_1CE4_E5B9u64);
    let z2 = ((z1 ^ (z1 >> 27u64)) as u64).wrapping_mul(0x94D0_49BB_1331_11EBu64);
    z2 ^ (z2 >> 31u64)
}

/// The state after `n` draws from a generator seeded with `seed`.
pub open spec fn state_after(seed: u64, n: nat) -> u64
    decreases n,
{
    if n == 0 {
        seed
    } else {
        state_after(seed, (n - 1) as nat).wrapping_add(GOLDEN_GAMMA)
    }
}

/// The `n`-th (0-based) value drawn from a generator seeded with `seed`.
pub open spec fn draw_at(seed: u64, n: nat) -> u64 {
    splitmix_mix(state_after(seed, n + 1))
}

/// A seeded SplitMix64 generator.
#[derive(Clone, Debug)]
pub struct SimRng {
    state: u64,
}

impl SimRng {
    /// The generator's current state.
    pub closed spec fn state(&self) -> u64 {
        self.state
    }

    /// Seed the generator.
    pub fn new(seed: u64) -> (r: SimRng)
        ensures
            r.state() == seed,
    {
        SimRng { state: seed }
    }

    /// The raw SplitMix64 step: advance the state by the golden gamma and mix it.
    pub fn next(&mut self) -> (x: u64)
        ensures
            final(self).state() == old(self).state().wrapping_add(GOLDEN_GAMMA),
            x == splitmix_mix(final(self).state()),
    {
        self.state = self.state.wrapping_add(GOLDEN_GAMMA);
        let mut z: u64 = self.state;
        z = (z ^ (z >> 30u64)).wrapping_mul(0xBF58_476D_1CE4_E5B9u64);
        z = (z ^ (z >> 27u64)).wrapping_mul(0x94D0_49BB_1331_11EBu64);
        z ^ (z >> 31u64)
    }

    /// A uniformly random `u64` (the same step as [`SimRng::next`]).
    pub fn next_u64(&mut self) -> (x: u64)
        ensures
            final(self).state() == old(self).state().wrapping_add(GOLDEN_GAMMA),
            x == splitmix_mix(final(self).state()),
    {
        self.next()
    }

    /// Roll `p`: `false` for a probability at or below zero and `true` for one
    /// at or above one (neither draws); otherwise draw once and compare the top
    /// 53 bits of the draw against the probability's threshold.
    pub fn chance(&mut self, p: Prob) -> (b: bool)
        ensures
            match roll_of(p.bits()) {
                Roll::Never => !b && final(self).state() == old(self).state(),
                Roll::Always => b && final(self).state() == old(self).state(),
                Roll::Below(t) => {
                    &&& final(self).state() == old(self).state().wrapping_add(GOLDEN_GAMMA)
                    &&& b == ((splitmix_mix(final(self).state()) >> 11u64) < t)
                },
            },
    {
        match p.roll() {
            Roll::Never => false,
            Roll::Always => true,
            Roll::Below(t) => {
                let x = self.next();
                (x >> 11u64) < t
            },
        }
    }

    /// A `u64` uniformly in `[lo, hi)`; `lo` (without drawing) if the range is
    /// empty.
    pub fn range_u64(&mut self, lo: u64, hi: u64) -> (r: u64)
        ensures
            hi <= lo ==> r == lo && final(self).state() == old(self).state(),
            lo < hi ==> {
                &&& final(self).state() == old(self).state().wrapping_add(GOLDEN_GAMMA)
                &&& r == lo + splitmix_mix(final(self).state()) % ((hi - lo) as u64)
                &&& lo <= r < hi
            },
    {
        if hi <= lo {
            return lo;
        }
        let x = self.next();
        lo + x % (hi - lo)
    }

    /// A duration uniformly in `range` milliseconds (`range.start`, without
    /// drawing, when the range is empty).
    pub fn duration_ms(&mut self, range: std::ops::Range<u64>) -> (d: Duration)
        ensures
            range.end <= range.start ==> duration_nanos(d) == range.start * 1_000_000
                && final(self).state() == old(self).state(),
            range.start < range.end ==> {
                &&& final(self).state() == old(self).state().wrapping_add(GOLDEN_GAMMA)
                &&& duration_nanos(d) == pick_ms(
                    range.start,
                    range.end,
                    splitmix_mix(final(self).state()),
                ) * 1_000_000
            },
    {
        if range.end <= range.start {
            return duration_from_millis(range.start);
        }
        let draw: u64 = self.next();
        duration_from_millis(pick_in_range(range.start, range.end, draw))
    }
}

impl Rng for SimRng {
    open spec fn upcoming(&self, n: nat) -> u64 {
        draw_at(self.state(), n)
    }

    fn next_u64(&mut self) -> (x: u64)
        ensures
            final(self).state() == old(self).state().wrapping_add(GOLDEN_GAMMA),
            x == splitmix_mix(final(self).state()),
    {
        let x = self.next();
        proof {
            reveal_with_fuel(state_after, 2);
            assert(state_after(old(self).state(), 1) == old(self).state().wrapping_add(GOLDEN_GAMMA));
            assert forall|n: nat| #[trigger] self.upcoming(n) == old(self).upcoming(n + 1) by {
                lemma_state_after_step(old(self).state(), n + 1);
            }
        }
        x
    }
}

/// Stepping the seed once and then `m` times is stepping it `m + 1` times.
pub proof fn lemma_state_after_step(seed: u64, m: nat)
    ensures
        state_after(seed.wrapping_add(GOLDEN_GAMMA), m) == state_after(seed, m + 1),
    decreases m,
{
    reveal_with_fuel(state_after, 2);
    if m > 0 {
        lemma_state_after_step(seed, (m - 1) as nat);
        assert(state_after(seed, m + 1) == state_after(seed, m).wrapping_add(GOLDEN_GAMMA));
    }
}

/// Determinism: the `n`-th value a generator draws is a function of its seed
/// and `n` alone — drawing again from the state reached after `n` draws gives
/// `draw_at(seed, n)`.
pub proof fn lemma_draws_determined_by_seed(seed: u64, n: nat)
    ensures
        draw_at(seed, n) == splitmix_mix(state_after(seed, n).wrapping_add(GOLDEN_GAMMA)),
{
}

} // verus!
