use vstd::prelude::*;

verus! {

/// The monotonic clock's time points.
#[verifier::external_type_specification]
#[verifier::external_body]
pub struct ExInstant(std::time::Instant);

/// Calls `std::time::Instant::now`. Nothing is claimed of the time it reads.
#[verifier::external_body]
pub(crate) fn now() -> (r: std::time::Instant) {
    std::time::Instant::now()
}

/// Calls `std::time::Instant::elapsed`: the time passed since `start`.
/// Nothing is claimed of it: it depends on the clock.
#[verifier::external_body]
pub(crate) fn elapsed(start: &std::time::Instant) -> (r: std::time::Duration) {
    start.elapsed()
}

/// Calls `std::time::Duration::as_nanos`: the whole nanoseconds of a duration.
/// Nothing is claimed of it, a duration being opaque here.
#[verifier::external_body]
pub(crate) fn as_nanos(duration: std::time::Duration) -> (r: u128) {
    duration.as_nanos()
}

} // verus!
