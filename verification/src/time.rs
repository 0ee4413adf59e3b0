//! Points in time and spans of time, in nanoseconds.
use vstd::prelude::*;

verus! {

/// A reading of the monotonic clock, in nanoseconds since some fixed origin.
#[derive(Debug, Clone, Copy, PartialEq, Eq, Structural)]
pub struct Instant {
    pub nanos: u64,
}

/// A span of time in nanoseconds.
#[derive(Debug, Clone, Copy, PartialEq, Eq, Structural)]
pub struct Duration {
    pub nanos: u64,
}

impl Duration {
    pub fn from_millis(ms: u64) -> (d: Duration)
        requires
            ms * 1_000_000 <= u64::MAX,
        ensures
            d.nanos == ms * 1_000_000,
    {
        Duration { nanos: ms * 1_000_000 }
    }

    pub fn from_micros(us: u64) -> (d: Duration)
        requires
            us * 1_000 <= u64::MAX,
        ensures
            d.nanos == us * 1_000,
    {
        Duration { nanos: us * 1_000 }
    }

    /// The span in whole milliseconds.
    pub fn as_millis(&self) -> (ms: u64)
        ensures
            ms == self.nanos / 1_000_000,
    {
        self.nanos / 1_000_000
    }
}

impl Instant {
    /// The point in time that lies `d` later.
    pub fn plus(&self, d: Duration) -> (t: Instant)
        requires
            self.nanos + d.nanos <= u64::MAX,
        ensures
            t.nanos == self.nanos + d.nanos,
    {
        Instant { nanos: self.nanos + d.nanos }
    }

    /// The time that passed since `earlier`: nothing, where that lies ahead.
    pub open spec fn elapsed_since(self, earlier: Instant) -> int {
        if self.nanos >= earlier.nanos {
            self.nanos - earlier.nanos
        } else {
            0
        }
    }

    pub fn duration_since(&self, earlier: Instant) -> (d: Duration)
        ensures
            d.nanos == self.elapsed_since(earlier),
    {
        Duration { nanos: self.nanos.saturating_sub(earlier.nanos) }
    }
}

} // verus!
