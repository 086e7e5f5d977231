//! Virtual-time durations. The library measures every duration by its whole
//! number of nanoseconds; these are the `std::time::Duration` operations it
//! uses, each stated over that measure.

use std::time::Duration;
use vstd::prelude::*;

verus! {

/// The whole number of nanoseconds `Duration::as_nanos` reports for `d`.
pub uninterp spec fn duration_nanos(d: Duration) -> u128;

/// `Duration::clone`: `Duration` is `Copy`, so the clone is the same duration.
pub assume_specification[ <Duration as Clone>::clone ](d: &Duration) -> (r: Duration)
    ensures
        r == *d,
;

/// `Duration::as_nanos`: the duration's total whole nanoseconds, which is at
/// most `Duration::MAX` (`u64::MAX` seconds and 999,999,999 nanoseconds).
#[verifier::external_body]
pub(crate) fn nanos_of(d: Duration) -> (n: u128)
    ensures
        n == duration_nanos(d),
        n <= max_duration_nanos(),
{
    d.as_nanos()
}

/// `Duration::from_millis`: a duration of `ms` milliseconds, that is
/// `ms * 1_000_000` nanoseconds.
#[verifier::external_body]
pub(crate) fn duration_from_millis(ms: u64) -> (d: Duration)
    ensures
        duration_nanos(d) == ms * 1_000_000,
{
    Duration::from_millis(ms)
}

/// `Duration::from_secs`: a duration of `s` seconds, that is
/// `s * 1_000_000_000` nanoseconds.
#[verifier::external_body]
pub(crate) fn duration_from_secs(s: u64) -> (d: Duration)
    ensures
        duration_nanos(d) == s * 1_000_000_000,
{
    Duration::from_secs(s)
}

/// `Duration::new(secs, nanos)` for `nanos` below one second (so no carry into
/// the seconds can overflow): `secs * 1_000_000_000 + nanos` nanoseconds.
#[verifier::external_body]
pub(crate) fn duration_new(secs: u64, nanos: u32) -> (d: Duration)
    requires
        nanos < 1_000_000_000,
    ensures
        duration_nanos(d) == secs * 1_000_000_000 + nanos,
{
    Duration::new(secs, nanos)
}

/// The largest nanosecond count any `Duration` can hold.
pub open spec fn max_duration_nanos() -> int {
    0xFFFF_FFFF_FFFF_FFFFint * 1_000_000_000int + 999_999_999int
}

/// The duration of `n` nanoseconds, for any `n` a `Duration` can hold.
pub fn duration_of_nanos(n: u128) -> (d: Duration)
    requires
        n <= max_duration_nanos(),
    ensures
        duration_nanos(d) == n,
{
    let secs: u128 = n / 1_000_000_000;
    let sub: u128 = n % 1_000_000_000;
    duration_new(secs as u64, sub as u32)
}

/// A duration of `n` seconds — a readable deadline in tests.
pub fn secs(n: u64) -> (d: Duration)
    ensures
        duration_nanos(d) == n * 1_000_000_000,
{
    duration_from_secs(n)
}

/// A duration of `n` milliseconds.
pub fn millis(n: u64) -> (d: Duration)
    ensures
        duration_nanos(d) == n * 1_000_000,
{
    duration_from_millis(n)
}

} // verus!
