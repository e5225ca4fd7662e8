//! The two clocks: a monotonic one, by which latency is measured, and the
//! wall clock, which only stamps what is displayed.
use std::time::{Duration, Instant};

use vstd::prelude::*;

verus! {

/// `std::time::Instant`, a reading of the monotonic clock. The library
/// carries such values and never looks inside them.
#[verifier::external_type_specification]
#[verifier::external_body]
pub struct ExInstant(Instant);

/// `chrono::NaiveDateTime`, a date and a time of day without a time zone.
/// The library carries such values and never looks inside them.
#[verifier::external_type_specification]
#[verifier::external_body]
pub struct ExNaiveDateTime(chrono::NaiveDateTime);

/// `Instant::now` reads the monotonic clock. Nothing is claimed of the
/// reading.
pub assume_specification[ Instant::now ]() -> (t: Instant)
;

/// `Instant::elapsed` measures the time since the instant was taken.
/// Nothing is claimed of the measure.
pub assume_specification[ Instant::elapsed ](t: &Instant) -> (d: Duration)
;

/// `Duration::as_nanos` gives a duration in whole nanoseconds. Nothing is
/// claimed of the number.
pub assume_specification[ Duration::as_nanos ](d: &Duration) -> (n: u128)
;

/// Reads the wall clock with `chrono::Local::now` and keeps the local date
/// and time. Nothing is claimed of the value: it is whatever the clock says.
#[verifier::external_body]
pub(crate) fn wall_clock_now() -> (t: chrono::NaiveDateTime) {
    chrono::Local::now().naive_local()
}

/// The nanoseconds that have passed since `origin`, on the monotonic clock:
/// whatever the clock reads, brought down to 64 bits by [`clamp_nanos`].
pub(crate) fn nanos_since(origin: &Instant) -> (now: u64) {
    clamp_nanos(origin.elapsed().as_nanos())
}

/// A count of nanoseconds in 64 bits: the count itself where it fits, and
/// `u64::MAX` where it does not.
pub open spec fn clamped_nanos(nanos: u128) -> u64 {
    if nanos > u64::MAX {
        u64::MAX
    } else {
        nanos as u64
    }
}

/// Brings a count of nanoseconds down to 64 bits, without wrapping.
pub fn clamp_nanos(nanos: u128) -> (res: u64)
    ensures
        res == clamped_nanos(nanos),
{
    if nanos > u64::MAX as u128 {
        u64::MAX
    } else {
        nanos as u64
    }
}

} // verus!
