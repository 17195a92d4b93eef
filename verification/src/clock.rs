//! Wall-clock readings for the solver's instrumentation. The clock values are
//! opaque; nothing is assumed about them beyond their types.

use std::time::{Duration, Instant};
use vstd::prelude::*;

verus! {

#[verifier::external_type_specification]
#[verifier::external_body]
pub struct ExInstant(Instant);

/// Relies on std::time::Instant::now: an opaque reading of the monotonic
/// clock. The result depends on when the call runs, so nothing is stated
/// about it.
#[verifier::external_body]
pub(crate) fn instant_now() -> Instant {
    Instant::now()
}

/// Relies on std::time::Instant::elapsed: the time that passed since the
/// reading was taken. The result depends on the clock, so nothing is stated
/// about it.
#[verifier::external_body]
pub(crate) fn instant_elapsed(t: &Instant) -> Duration {
    t.elapsed()
}

/// Relies on core::time::Duration::as_nanos: the duration in whole
/// nanoseconds.
#[verifier::external_body]
pub(crate) fn duration_nanos(d: &Duration) -> u128 {
    d.as_nanos()
}

} // verus!
