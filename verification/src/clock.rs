//! The machine's monotonic clock, as far as the library reads it.
//!
//! What the clock says is different on every call, so nothing here has a
//! contract: whoever reads the clock proves what it does for every reading.

use vstd::prelude::*;
use std::time::{Duration, Instant};

verus! {

/// `std::time::Instant`, a reading of the monotonic clock. Its inside is
/// hidden: an instant only ever becomes a number as the time since another.
#[verifier::external_type_specification]
#[verifier::external_body]
pub struct ExInstant(Instant);

/// `Instant::now` reads the clock. Nothing is claimed of the reading.
pub assume_specification[ Instant::now ]() -> (now: Instant)
;

/// `Instant::saturating_duration_since` gives the time from `earlier` to
/// `later`, or zero where `earlier` is the later one; it does not panic.
/// Nothing is claimed of the span.
pub assume_specification[ Instant::saturating_duration_since ](
    later: &Instant,
    earlier: Instant,
) -> (span: Duration)
;

/// `Duration::as_nanos` gives a span in whole nanoseconds. Nothing is
/// claimed of the number.
pub assume_specification[ Duration::as_nanos ](span: &Duration) -> (nanos: u128)
;

/// The nanoseconds that have passed since `start`, by the clock at the
/// moment of the call.
pub(crate) fn nanos_since(start: Instant) -> u128 {
    let now = Instant::now();
    let span = now.saturating_duration_since(start);
    span.as_nanos()
}

} // verus!
