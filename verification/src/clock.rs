//! The wall clock.
//!
//! What the clock says is outside the library's control, so nothing is promised of any reading:
//! callers are correct whatever comes back. Times are whole numbers of nanoseconds.

use vstd::prelude::*;
use std::time::Instant;

verus! {

/// A reading of the monotonic clock, `std::time::Instant`. Opaque: the library only carries it.
#[verifier::external_type_specification]
#[verifier::external_body]
pub struct ExInstant(std::time::Instant);

/// Reads the clock with `Instant::now`. Nothing is promised of the reading.
#[verifier::external_body]
pub(crate) fn now() -> Instant {
    Instant::now()
}

/// Nanoseconds passed since a reading, by `Instant::elapsed`, whose result `Duration::as_nanos` turns
/// into a number. Nothing is promised of it.
#[verifier::external_body]
pub(crate) fn since(start: &Instant) -> u128 {
    start.elapsed().as_nanos()
}

/// Whether the time is up: as much has passed as was allowed, or more.
pub fn late(elapsed: u128, limit: u128) -> (b: bool)
    ensures
        b == (elapsed >= limit),
{
    elapsed >= limit
}

} // verus!
