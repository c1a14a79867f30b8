//! Spans of simulated GPU time.

use vstd::prelude::*;

verus! {

/// A span of time in whole nanoseconds.
#[derive(Clone, Copy, Debug, PartialEq, Eq, PartialOrd, Ord, Hash, Structural)]
pub struct Duration {
    pub nanos: u64,
}

impl View for Duration {
    type V = Duration;

    open spec fn view(&self) -> Duration {
        *self
    }
}

impl Duration {
    /// The span of `nanos` nanoseconds.
    pub fn from_nanos(nanos: u64) -> (d: Duration)
        ensures
            d == (Duration { nanos }),
    {
        Duration { nanos }
    }

    /// The number of nanoseconds.
    pub fn as_nanos(&self) -> (n: u64)
        ensures
            n == self.nanos,
    {
        self.nanos
    }

    /// The number of whole microseconds.
    pub open spec fn micros(&self) -> i64 {
        (self.nanos / 1000) as i64
    }

    /// The number of whole microseconds, as the event queue counts time.
    pub fn as_micros(&self) -> (n: i64)
        ensures
            n == self.micros(),
            n == self.nanos / 1000,
            0 <= n,
    {
        (self.nanos / 1000) as i64
    }
}

} // verus!
