//! Times and spans on the hub's own clock, in nanoseconds.

use vstd::prelude::*;

verus! {

/// A second, in nanoseconds.
pub const SECOND: u64 = 1_000_000_000;

/// How long after `then` it is at `now`; no time at all where it is before.
pub open spec fn since(now: u64, then: u64) -> u64 {
    if now >= then {
        (now - then) as u64
    } else {
        0
    }
}

/// How long after `then` it is at `now`.
pub fn elapsed(now: u64, then: u64) -> (span: u64)
    ensures
        span == since(now, then),
{
    if now >= then {
        now - then
    } else {
        0
    }
}

/// Time counts on from `then`; before it none has passed.
pub proof fn time_counts_from_then(now: u64, then: u64)
    ensures
        now >= then ==> then + since(now, then) == now,
        now < then ==> since(now, then) == 0,
{
}

} // verus!
