//! The clocks: wall time in milliseconds, and a monotonic time in nanoseconds.

use crate::span::{is_span_since, is_time_since, lasts};
use std::time::{Duration, Instant};
use vstd::prelude::*;

verus! {

/// `std::time::Instant`, a point of the monotonic clock. Nothing is known of its value.
#[verifier::external_type_specification]
#[verifier::external_body]
pub struct ExInstant(Instant);

/// `std::time::Instant::now`. Nothing is claimed of the point that it gives.
pub assume_specification[ Instant::now ]() -> (r: Instant)
;

/// `std::time::Instant::elapsed`: gives the span since the point. Nothing else is claimed of it.
pub assume_specification[ Instant::elapsed ](i: &Instant) -> (r: Duration)
    ensures
        is_span_since(*i, r),
;

/// `std::time::Duration::as_nanos`: gives how many nanoseconds the span lasts, which are no more
/// than the longest span has. Nothing else is claimed of the count, since nothing is known of the
/// span.
pub assume_specification[ Duration::as_nanos ](d: &Duration) -> (r: u128)
    ensures
        lasts(*d, r),
;

/// A number of nanoseconds, at most `u64::MAX`.
pub fn bounded_nanos(n: u128) -> (r: u64)
    ensures
        r == (if n > u64::MAX {
            u64::MAX as u128
        } else {
            n
        }),
{
    if n > 0xffff_ffff_ffff_ffff {
        0xffff_ffff_ffff_ffff
    } else {
        n as u64
    }
}

/// The nanoseconds since `origin`, at most `u64::MAX`.
pub(crate) fn nanos_since(origin: &Instant) -> (r: u64)
    ensures
        is_time_since(*origin, r),
{
    let span = origin.elapsed();
    let n: u128 = span.as_nanos();
    assert(is_span_since(*origin, span) && lasts(span, n));
    bounded_nanos(n)
}

/// Whether this is a reading of the wall clock. What is known of a reading is kept to this module:
/// elsewhere only what the clock gave is known to be one.
pub closed spec fn is_reading(millis: i64) -> bool {
    0 <= millis
}

/// Who reads the wall clock, with what was read so far.
pub struct Clock {
    readings: Ghost<Seq<i64>>,
}

impl Clock {
    /// What the clock has been read as, in order.
    pub closed spec fn readings(&self) -> Seq<i64> {
        self.readings@
    }

    /// A clock that has not been read.
    pub fn new() -> (r: Self)
        ensures
            r.readings() == Seq::<i64>::empty(),
    {
        Clock { readings: Ghost(Seq::empty()) }
    }
}

/// A reading does not lie before the Unix epoch.
pub proof fn law_readings_start_at_the_epoch(millis: i64)
    requires
        is_reading(millis),
    ensures
        0 <= millis,
{
}

/// The wall time in milliseconds since the Unix epoch, from `chrono::Utc::now`, which does not give
/// a time before it, and `timestamp_millis`. What it gives is one more reading of the clock. Nothing
/// else is claimed of the value.
#[verifier::external_body]
pub(crate) fn now_millis(clock: &mut Clock) -> (r: i64)
    ensures
        is_reading(r),
        final(clock).readings() == old(clock).readings().push(r),
{
    chrono::Utc::now().timestamp_millis()
}

} // verus!
