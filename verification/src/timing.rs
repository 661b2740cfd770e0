//! Wall-clock readings for the elapsed-time counters.
use std::time::{Duration, Instant};
use vstd::prelude::*;

verus! {

#[verifier::external_type_specification]
#[verifier::external_body]
pub struct ExInstant(Instant);

/// Calls `std::time::Instant::now`; nothing is stated of the reading.
#[verifier::external_body]
pub(crate) fn clock_now() -> Instant {
    Instant::now()
}

/// Calls `std::time::Instant::elapsed`; nothing is stated of the span.
#[verifier::external_body]
pub(crate) fn clock_elapsed(start: &Instant) -> Duration {
    start.elapsed()
}

/// Calls `std::time::Duration::as_nanos`; nothing is stated of the count.
#[verifier::external_body]
pub(crate) fn duration_nanos(d: &Duration) -> u128 {
    d.as_nanos()
}

/// Nanoseconds since `start`.
pub(crate) fn nanos_since(start: &Instant) -> u128 {
    let d = clock_elapsed(start);
    duration_nanos(&d)
}

} // verus!
