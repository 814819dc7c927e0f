//! The wall clock, and a clock that never goes back.

use vstd::prelude::*;

verus! {

/// `SystemTime::now`, in milliseconds since the Unix epoch; zero for a clock that stands before
/// it. Nothing is claimed of the reading.
#[verifier::external_body]
pub(crate) fn now_epoch_ms() -> (ms: u64) {
    std::time::SystemTime::now()
        .duration_since(std::time::UNIX_EPOCH)
        .map(|d| d.as_millis() as u64)
        .unwrap_or(0)
}

/// A moment on a clock that never goes back.
#[verifier::external_type_specification]
#[verifier::external_body]
pub struct ExInstant(std::time::Instant);

/// `Instant::now`. Nothing is claimed of the moment.
#[verifier::external_body]
pub(crate) fn this_moment() -> (r: std::time::Instant) {
    std::time::Instant::now()
}

/// `Instant::elapsed`, in whole milliseconds. Nothing is claimed of the time gone by.
#[verifier::external_body]
pub(crate) fn millis_since(t: &std::time::Instant) -> (ms: u64) {
    t.elapsed().as_millis() as u64
}

} // verus!
