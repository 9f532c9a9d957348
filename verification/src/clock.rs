//! The session clock: an opaque monotonic timestamp taken on the first
//! keystroke, and the elapsed time since it.

use vstd::prelude::*;

verus! {

#[verifier::external_type_specification]
#[verifier::external_body]
pub struct ExInstant(std::time::Instant);

/// Relies on `std::time::Instant::now`: a reading of the monotonic clock.
/// Nothing can be promised of its value.
#[verifier::external_body]
pub(crate) fn monotonic_now() -> (r: std::time::Instant) {
    std::time::Instant::now()
}

/// Relies on `std::time::Instant::now`, `Instant::duration_since` and
/// `Duration::as_millis`: the milliseconds elapsed since `start`, zero if the
/// clock has not advanced. The value depends on the time of the call, so
/// nothing can be promised of it.
#[verifier::external_body]
pub(crate) fn millis_since(start: &std::time::Instant) -> (r: u64) {
    let d = std::time::Instant::now().duration_since(*start);
    u64::try_from(d.as_millis()).unwrap_or(u64::MAX)
}

} // verus!
