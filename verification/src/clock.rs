use vstd::prelude::*;

verus! {

/// A point on the process's monotonic clock, used only to bound the
/// iterative-deepening search by wall-clock time.
#[verifier::external_type_specification]
#[verifier::external_body]
pub struct ExInstant(std::time::Instant);

/// Relies on std::time::Instant::now: an opaque reading of the
/// monotonic clock. Nothing is assumed of the value read.
#[verifier::external_body]
pub(crate) fn instant_now() -> (t: std::time::Instant) {
    std::time::Instant::now()
}

/// Relies on std::time::Instant::elapsed: the time since `start`,
/// converted to whole milliseconds. Nothing is assumed of the value:
/// callers must work whatever the clock returns.
#[verifier::external_body]
pub(crate) fn elapsed_millis(start: &std::time::Instant) -> (ms: u64) {
    start.elapsed().as_millis() as u64
}

} // verus!
