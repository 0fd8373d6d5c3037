//! Readings of the machine's clocks.

use std::time::{Instant, SystemTime, UNIX_EPOCH};
use vstd::prelude::*;

verus! {

/// `std::time::Instant`: a reading of the monotonic clock, which is only carried through.
#[verifier::external_type_specification]
#[verifier::external_body]
pub struct ExInstant(std::time::Instant);

/// `Instant::now` reads the monotonic clock. Nothing is claimed of the reading.
pub assume_specification[ std::time::Instant::now ]() -> (now: std::time::Instant)
;

/// `Instant::elapsed`, as nanoseconds: the time since `start`. Nothing is claimed of it,
/// as it depends on the machine.
#[verifier::external_body]
pub(crate) fn nanos_since(start: &Instant) -> (nanos: u128)
{
    start.elapsed().as_nanos()
}

/// `Instant::duration_since`, as nanoseconds: the time from `earlier` to `later`; 0 where
/// `earlier` is not earlier. Nothing is claimed of it, as it depends on the machine.
#[verifier::external_body]
pub(crate) fn nanos_between(later: &Instant, earlier: &Instant) -> (nanos: u128)
{
    later.duration_since(*earlier).as_nanos()
}

/// `SystemTime::now`, as nanoseconds since the Unix epoch; `None` where the clock
/// stands before the epoch. Nothing is claimed of the reading.
#[verifier::external_body]
pub(crate) fn nanos_since_epoch() -> (nanos: Option<u128>)
{
    SystemTime::now().duration_since(UNIX_EPOCH).ok().map(|d| d.as_nanos())
}

/// The low 64 bits of a reading.
pub open spec fn low_bits(x: nat) -> nat {
    x % 0x1_0000_0000_0000_0000
}

/// Cuts a reading to its low 64 bits.
pub fn cut(x: u128) -> (r: u64)
    ensures
        r == low_bits(x as nat),
{
    (x % 0x1_0000_0000_0000_0000) as u64
}

/// Microseconds of a duration in nanoseconds.
pub fn micros_of(nanos: u128) -> (us: u64)
    ensures
        us == low_bits((nanos / 1_000) as nat),
{
    cut(nanos / 1_000)
}

/// Milliseconds of a reading in nanoseconds; 0 where there is none.
pub open spec fn millis_reading(nanos: Option<u128>) -> nat {
    match nanos {
        None => 0,
        Some(n) => low_bits((n / 1_000_000) as nat),
    }
}

/// Milliseconds of a reading in nanoseconds; 0 where there is none.
pub fn millis_of(nanos: Option<u128>) -> (ms: u64)
    ensures
        ms == millis_reading(nanos),
{
    match nanos {
        None => 0,
        Some(n) => cut(n / 1_000_000),
    }
}

/// Milliseconds since the Unix epoch: `millis_of` the present reading, of which nothing
/// is claimed.
pub fn now_ms() -> (ms: u64) {
    millis_of(nanos_since_epoch())
}

/// Whole milliseconds of a reading: no more than the reading, and less than one short of it.
/// They start over beyond 64 bits.
pub proof fn law_millis_of_reading(nanos: u128)
    requires
        nanos / 1_000_000 <= u64::MAX,
    ensures
        1_000_000 * millis_reading(Some(nanos)) <= nanos < 1_000_000 * (millis_reading(Some(nanos))
            + 1),
{
}

} // verus!
