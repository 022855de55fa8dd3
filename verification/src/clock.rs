//! Trusted boundary to the process clock: an opaque monotonic timestamp and
//! the calls that read it. A measured duration depends on the machine and the
//! moment, so no contract pins the values; callers state what holds of every
//! outcome.

use vstd::prelude::*;

verus! {

#[verifier::external_type_specification]
#[verifier::external_body]
pub struct ExInstant(std::time::Instant);

/// Relies on `std::time::Instant::now`: reads the monotonic clock. The value
/// is opaque; nothing is claimed of it.
#[verifier::external_body]
pub(crate) fn instant_now() -> (t: std::time::Instant) {
    std::time::Instant::now()
}

/// Relies on `std::time::Instant::elapsed`: the time since `start` as a
/// `Duration`, saturating to zero if the clock reads earlier than `start`.
/// The value depends on when the call runs, so nothing is claimed of it.
#[verifier::external_body]
pub(crate) fn instant_elapsed(start: &std::time::Instant) -> (d: core::time::Duration) {
    start.elapsed()
}

/// Relies on `core::time::Duration::as_nanos`: the duration in whole
/// nanoseconds. The duration itself is opaque, so nothing is claimed.
#[verifier::external_body]
pub(crate) fn duration_as_nanos(d: &core::time::Duration) -> (n: u128) {
    d.as_nanos()
}

} // verus!
