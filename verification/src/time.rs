//! Spans of time and points in time, as counts of nanoseconds.
//!
//! The library never reads a clock: every function that depends on the
//! present moment takes it as an [`Instant`] measured from some origin that
//! the caller fixes once.

use vstd::prelude::*;

verus! {

/// Nanoseconds in one second.
pub const NANOS_PER_SEC: u64 = 1_000_000_000;

/// Nanoseconds in one millisecond.
pub const NANOS_PER_MILLI: u64 = 1_000_000;

/// A span of time.
#[derive(Debug, Clone, Copy, PartialEq, Eq, PartialOrd, Ord, Hash, Structural)]
pub struct Duration {
    /// Length in nanoseconds.
    pub nanos: u64,
}

/// A point in time, as the span since the caller's origin.
#[derive(Debug, Clone, Copy, PartialEq, Eq, PartialOrd, Ord, Hash, Structural)]
pub struct Instant {
    /// Nanoseconds since the origin.
    pub nanos: u64,
}

/// The nanoseconds in `secs` seconds.
pub open spec fn secs(secs: int) -> int {
    secs * 1_000_000_000
}

/// The nanoseconds from `earlier` to `later`, none when `later` comes first.
pub open spec fn elapsed(later: Instant, earlier: Instant) -> int {
    if later.nanos >= earlier.nanos {
        later.nanos - earlier.nanos
    } else {
        0
    }
}

impl Duration {
    /// A span of `secs` seconds.
    pub fn from_secs(secs: u64) -> (r: Duration)
        requires
            secs <= 18_446_744_073,
        ensures
            r.nanos == crate::time::secs(secs as int),
    {
        Duration { nanos: secs * NANOS_PER_SEC }
    }

    /// A span of `millis` milliseconds.
    pub fn from_millis(millis: u64) -> (r: Duration)
        requires
            millis <= 18_446_744_073_709,
        ensures
            r.nanos == millis * 1_000_000,
    {
        Duration { nanos: millis * NANOS_PER_MILLI }
    }

    /// Whole milliseconds in the span.
    pub fn as_millis(&self) -> (r: u64)
        ensures
            r == self.nanos / 1_000_000,
    {
        self.nanos / NANOS_PER_MILLI
    }

    /// Whole seconds in the span.
    pub fn as_secs(&self) -> (r: u64)
        ensures
            r == self.nanos / 1_000_000_000,
    {
        self.nanos / NANOS_PER_SEC
    }
}

impl Instant {
    /// The span from `earlier` to this instant; zero when `earlier` is later.
    pub fn duration_since(&self, earlier: Instant) -> (r: Duration)
        ensures
            r.nanos == elapsed(*self, earlier),
    {
        if self.nanos >= earlier.nanos {
            Duration { nanos: self.nanos - earlier.nanos }
        } else {
            Duration { nanos: 0 }
        }
    }

    /// The instant `span` after this one.
    pub fn after(&self, span: Duration) -> (r: Instant)
        requires
            self.nanos + span.nanos <= u64::MAX,
        ensures
            r.nanos == self.nanos + span.nanos,
    {
        Instant { nanos: self.nanos + span.nanos }
    }
}

/// The time from one moment to a later one, added to the first, gives the later; and
/// from a moment to an earlier one no time passes.
pub proof fn law_elapsed_time(later: Instant, earlier: Instant)
    ensures
        earlier.nanos <= later.nanos ==> earlier.nanos + elapsed(later, earlier) == later.nanos,
        later.nanos <= earlier.nanos ==> elapsed(later, earlier) == 0,
        secs(1) == 1000 * 1000 * 1000,
{
}

} // verus!
