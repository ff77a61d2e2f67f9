//! Elapsed wall-clock time and spans of it.

use std::time::{Duration, Instant};
use vstd::prelude::*;

verus! {

/// A reading of the monotonic clock.
#[verifier::external_type_specification]
#[verifier::external_body]
pub struct ExInstant(std::time::Instant);

/// `Instant::now` reads the monotonic clock. Nothing is claimed of the
/// reading.
pub assume_specification[ Instant::now ]() -> Instant
;

/// `Instant::elapsed` gives the time since a reading. Nothing is claimed of
/// it: it depends on when the clock is read again.
pub assume_specification[ Instant::elapsed ](started: &Instant) -> Duration
;

/// The whole microseconds of a duration.
pub uninterp spec fn micros_of(duration: Duration) -> u128;

/// `Duration::as_micros` gives the whole microseconds of a duration, which are
/// named here.
pub assume_specification[ Duration::as_micros ](duration: &Duration) -> (micros: u128)
    ensures
        micros == micros_of(*duration),
;

/// `Duration::from_micros` makes a duration of so many microseconds.
pub assume_specification[ Duration::from_micros ](micros: u64) -> (duration: Duration)
    ensures
        micros_of(duration) == micros,
;

/// `Duration::from_secs` makes a duration of so many seconds, each of a
/// million microseconds.
pub assume_specification[ Duration::from_secs ](secs: u64) -> (duration: Duration)
    ensures
        micros_of(duration) == secs * 1_000_000,
;

/// Microseconds as a 64-bit count, which stays at its largest value where the
/// number does not fit.
pub fn capped_micros(micros: u128) -> (capped: u64)
    ensures
        capped == if micros <= u64::MAX {
            micros as u64
        } else {
            u64::MAX
        },
{
    if micros <= u64::MAX as u128 {
        micros as u64
    } else {
        u64::MAX
    }
}

/// Microseconds since a reading of the clock. They depend on when the clock is
/// read again, so nothing is stated of them.
pub(crate) fn micros_since(started: &Instant) -> (micros: u64) {
    capped_micros(started.elapsed().as_micros())
}

} // verus!
