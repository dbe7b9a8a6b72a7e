//! Spans of the monotonic clock.

use std::time::{Duration, Instant};
use vstd::prelude::*;

verus! {

/// Whether `span` is what the monotonic clock gave as the time since `start`. What is known of the
/// clock is kept to this module, and it is nothing: elsewhere only what the clock gave is known to be
/// such a span.
pub closed spec fn is_span_since(start: Instant, span: Duration) -> bool {
    true
}

/// Whether a span is so many nanoseconds long. A span is at most `u64::MAX` seconds and the
/// nanoseconds of one more.
pub closed spec fn lasts(span: Duration, nanos: u128) -> bool {
    nanos <= 0xffff_ffff_ffff_ffff * 1_000_000_000 + 999_999_999
}

/// Whether the monotonic clock gave `nanos` nanoseconds, cut off at `u64::MAX`, as the time since
/// `start`.
pub open spec fn is_time_since(start: Instant, nanos: u64) -> bool {
    exists|span: Duration, n: u128|
        {
            &&& #[trigger] is_span_since(start, span)
            &&& #[trigger] lasts(span, n)
            &&& nanos == (if n > u64::MAX {
                u64::MAX as u128
            } else {
                n
            })
        }
}

} // verus!
