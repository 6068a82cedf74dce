//! Reading the system clock, for time limits.
use std::time::Instant;
use vstd::prelude::*;

verus! {

/// A point in time of the monotonic clock of `std`.
#[verifier::external_type_specification]
#[verifier::external_body]
pub struct ExInstant(std::time::Instant);

/// The length of a span of time in nanoseconds.
pub assume_specification[ core::time::Duration::as_nanos ](d: &core::time::Duration) -> u128;

/// Relies on `std::time::Instant::now`: the current time; nothing is known of its value.
#[verifier::external_body]
pub fn now() -> (r: Instant) {
    Instant::now()
}

/// Relies on `std::time::Instant::elapsed`: the time since `start`; nothing is known of its
/// value.
#[verifier::external_body]
pub fn elapsed(start: &Instant) -> (r: std::time::Duration) {
    start.elapsed()
}

/// Whether more than `limit` has passed since `start`.
pub fn limit_passed(start: &Instant, limit: &std::time::Duration) -> (r: bool) {
    let spent = elapsed(start);
    spent.as_nanos() > limit.as_nanos()
}

} // verus!
