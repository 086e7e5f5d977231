//! The Style-A node seam's plain data: node and operation identities, the
//! outcomes a node reports for client operations, and the seeded random
//! source a node draws from.

use std::time::Duration;
use vstd::prelude::*;

use crate::duration::{duration_from_millis, duration_nanos};

verus! {

/// A node's identity within the cluster.
#[derive(Clone, Copy, Debug, PartialEq, Eq, Structural, Hash, PartialOrd, Ord)]
pub struct NodeId(pub u64);

/// An opaque, harness-issued identity for one in-flight client operation.
#[derive(Clone, Copy, Debug, PartialEq, Eq, Structural, Hash, PartialOrd, Ord)]
pub struct OpToken(pub u64);

/// What a node decided about a freshly-arrived client op.
pub enum OpOutcome<R> {
    /// Completed synchronously with this response.
    Done(R),
    /// Not yet resolved; the node completes it later through `Ctx::complete_op`,
    /// or it is closed as indeterminate when the node crashes or the run ends.
    Pending,
}

/// How a pending op finishes.
pub enum Completion<R> {
    /// Succeeded with this response (recorded as `Ok`).
    Success(R),
    /// Definitely did not take effect (recorded as `Fail`).
    Fail,
    /// Indeterminate (recorded as `Info`).
    Info,
}

/// The milliseconds that `Rng::duration_ms` picks for the range `start..end`
/// given a raw draw: `start` for an empty range, else `start` plus the draw
/// reduced modulo the range's width.
pub open spec fn pick_ms(start: u64, end: u64, draw: u64) -> u64 {
    if end <= start {
        start
    } else {
        (start + draw % ((end - start) as u64)) as u64
    }
}

/// Picking from a non-empty range stays in it and can give every value of
/// it (the value `v` comes from the draw `v - start`), and a draw that is a
/// whole number of widths larger picks the same value; an empty range gives
/// its start.
pub proof fn lemma_pick_ms_uniform(start: u64, end: u64, x: u64)
    ensures
        start < end ==> start <= pick_ms(start, end, x) < end,
        start < end ==> forall|v: u64| start <= v < end ==> #[trigger] pick_ms(start, end, (v - start) as u64) == v,
        start < end && x + (end - start) <= u64::MAX ==> pick_ms(start, end, (x + (end - start)) as u64)
            == pick_ms(start, end, x),
        end <= start ==> pick_ms(start, end, x) == start,
{
    if start < end {
        let w = (end - start) as u64;
        assert(x % w < w);
        assert forall|v: u64| start <= v < end implies #[trigger] pick_ms(start, end, (v - start) as u64) == v by {
            let y = (v - start) as u64;
            assert(y % w == y) by {
                vstd::arithmetic::div_mod::lemma_small_mod(y as nat, w as nat);
            }
        }
        if x + w <= u64::MAX {
            vstd::arithmetic::div_mod::lemma_mod_add_multiples_vanish(x as int, w as int);
        }
    }
}

/// Pick the milliseconds for `start..end` from one raw draw.
pub fn pick_in_range(start: u64, end: u64, draw: u64) -> (r: u64)
    ensures
        r == pick_ms(start, end, draw),
        start < end ==> start <= r < end,
{
    if end <= start {
        start
    } else {
        start + draw % (end - start)
    }
}

/// The seeded random source exposed to nodes.
pub trait Rng {
    /// The value the `n`-th draw from now (0-based) gives, from the source's
    /// current state.
    spec fn upcoming(&self, n: nat) -> u64;

    /// A uniformly random `u64`: the next draw, which the source then moves
    /// past.
    fn next_u64(&mut self) -> (x: u64)
        ensures
            x == old(self).upcoming(0),
            forall|n: nat| #[trigger] final(self).upcoming(n) == old(self).upcoming(n + 1),
    ;

    /// A duration uniformly in `range` milliseconds: `range.start` when the
    /// range is empty, without drawing; else `start` plus the next draw
    /// modulo the range's width, that one draw consumed.
    fn duration_ms(&mut self, range: std::ops::Range<u64>) -> (d: Duration)
        ensures
            range.end <= range.start ==> duration_nanos(d) == range.start * 1_000_000,
            range.end <= range.start ==> forall|n: nat| #[trigger] final(self).upcoming(n) == old(self).upcoming(n),
            range.start < range.end ==> duration_nanos(d) == pick_ms(
                range.start,
                range.end,
                old(self).upcoming(0),
            ) * 1_000_000,
            range.start < range.end ==> forall|n: nat| #[trigger] final(self).upcoming(n) == old(self).upcoming(n + 1),
            range.start < range.end ==> range.start * 1_000_000 <= duration_nanos(d) < range.end
                * 1_000_000,
    {
        if range.end <= range.start {
            return duration_from_millis(range.start);
        }
        let draw: u64 = self.next_u64();
        let ms = pick_in_range(range.start, range.end, draw);
        let d = duration_from_millis(ms);
        proof {
            assert(duration_nanos(d) == pick_ms(range.start, range.end, draw) * 1_000_000);
            assert(range.start * 1_000_000 <= ms * 1_000_000 < range.end * 1_000_000) by (nonlinear_arith)
                requires
                    range.start <= ms < range.end,
            ;
        }
        d
    }
}

} // verus!
