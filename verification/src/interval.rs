//! Closed time interval in milliseconds, widened sample by sample.

use vstd::prelude::*;

verus! {

/// The span of time that the samples of a profile cover.
///
/// An interval that has not yet seen a sample is `[i64::MAX, 0]`, so that
/// the first sample sets its start.
#[derive(Copy, Clone, Debug, PartialEq, Eq, Structural)]
pub struct TimeInterval {
    pub start_millis: i64,
    pub end_millis: i64,
}

/// The smaller of two instants.
pub open spec fn earlier(a: i64, b: i64) -> i64 {
    if a < b {
        a
    } else {
        b
    }
}

/// The greater of two instants.
pub open spec fn later(a: i64, b: i64) -> i64 {
    if a > b {
        a
    } else {
        b
    }
}

impl TimeInterval {
    pub fn new(start_millis: i64, end_millis: i64) -> (r: Self)
        ensures
            r == (TimeInterval { start_millis, end_millis }),
    {
        Self { start_millis, end_millis }
    }

    /// The interval that has seen no sample.
    pub fn unset() -> (r: Self)
        ensures
            r == (TimeInterval { start_millis: i64::MAX, end_millis: 0 }),
    {
        Self { start_millis: i64::MAX, end_millis: 0 }
    }

    /// The interval widened to hold the span from `from` to `to`.
    pub open spec fn widened(self, from: i64, to: i64) -> TimeInterval {
        TimeInterval {
            start_millis: earlier(self.start_millis, from),
            end_millis: later(self.end_millis, to),
        }
    }

    /// Widens the interval to hold the span from `from` to `to`.
    pub fn widen(&mut self, from: i64, to: i64)
        ensures
            *final(self) == old(self).widened(from, to),
    {
        if from < self.start_millis {
            self.start_millis = from;
        }
        if to > self.end_millis {
            self.end_millis = to;
        }
    }

    /// The length of the interval.
    pub fn duration_millis(&self) -> (r: i64)
        requires
            i64::MIN <= self.end_millis - self.start_millis <= i64::MAX,
        ensures
            r == self.end_millis - self.start_millis,
    {
        self.end_millis - self.start_millis
    }
}

impl Default for TimeInterval {
    fn default() -> (r: Self)
        ensures
            r == (TimeInterval { start_millis: 0, end_millis: 0 }),
    {
        Self { start_millis: 0, end_millis: 0 }
    }
}

} // verus!
