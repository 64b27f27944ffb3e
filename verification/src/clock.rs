//! The wall clock the search reads: `std::time` behind small trusted items.
//! Nothing is claimed of what the clock says, so the search is verified for
//! every reading.
use vstd::prelude::*;

use std::time::{Duration, Instant};

verus! {

/// `std::time::Instant`, carried through the search unopened.
#[verifier::external_type_specification]
#[verifier::external_body]
pub struct ExInstant(Instant);

/// `Duration::from_millis`: a span of `ms` milliseconds. Nothing is claimed of
/// the opaque result.
#[verifier::external_body]
pub(crate) fn from_millis(ms: u64) -> Duration {
    Duration::from_millis(ms)
}

/// `Instant::checked_add`: `start` plus `span`, or none where the platform's
/// clock cannot represent it. Nothing is claimed of the result, which depends
/// on the platform's clock.
#[verifier::external_body]
pub(crate) fn checked_add(start: &Instant, span: Duration) -> Option<Instant> {
    start.checked_add(span)
}

/// `Instant::now`: the current time. It depends on the time, so nothing is
/// claimed of it.
#[verifier::external_body]
pub(crate) fn now() -> Instant {
    Instant::now()
}

/// `Instant >= Instant`: whether `a` is not earlier than `b`. Nothing is
/// claimed of the opaque instants' order.
#[verifier::external_body]
pub(crate) fn not_earlier(a: &Instant, b: &Instant) -> bool {
    *a >= *b
}

/// `Instant::elapsed`: the time since `start`. It depends on the time, so
/// nothing is claimed of it.
#[verifier::external_body]
pub(crate) fn elapsed(start: &Instant) -> Duration {
    start.elapsed()
}

/// `Duration::as_millis`: the whole milliseconds of a span. Nothing is
/// claimed of the opaque span's length.
#[verifier::external_body]
pub(crate) fn as_millis(span: &Duration) -> u128 {
    span.as_millis()
}

} // verus!
