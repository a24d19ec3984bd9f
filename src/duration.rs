//! Signed durations in whole minutes and wall-clock times.

use vstd::prelude::*;

verus! {

/// A signed span of time, counted in whole minutes.
#[derive(Clone, Copy, Debug, PartialEq, Eq, Structural)]
pub struct Duration {
    pub minutes: i64,
}

impl Duration {
    /// A span of `n` minutes.
    pub fn minutes(n: i64) -> (r: Duration)
        ensures
            r.minutes == n,
    {
        Duration { minutes: n }
    }

    /// A span of `h` whole hours.
    pub fn hours(h: i64) -> (r: Duration)
        requires
            i64::MIN <= h * 60 <= i64::MAX,
        ensures
            r.minutes == h * 60,
    {
        Duration { minutes: h * 60 }
    }

    /// The empty span.
    pub fn zero() -> (r: Duration)
        ensures
            r.minutes == 0,
    {
        Duration { minutes: 0 }
    }

    /// The length of the span in minutes.
    pub fn num_minutes(&self) -> (r: i64)
        ensures
            r == self.minutes,
    {
        self.minutes
    }
}

/// A wall-clock time of day.
#[derive(Clone, Copy, Debug, PartialEq, Eq, Structural)]
pub struct TimeOfDay {
    pub hour: u32,
    pub minute: u32,
}

impl TimeOfDay {
    /// Hours in 0..=23 and minutes in 0..=59.
    pub open spec fn wf(&self) -> bool {
        self.hour < 24 && self.minute < 60
    }

    /// Minutes elapsed since midnight.
    pub open spec fn minute_of_day(&self) -> int {
        self.hour * 60 + self.minute
    }

    /// The signed span from `self` to `end`; negative when `end` comes first.
    pub fn until(&self, end: &TimeOfDay) -> (r: Duration)
        requires
            self.wf(),
            end.wf(),
        ensures
            r.minutes == end.minute_of_day() - self.minute_of_day(),
            -1440 < r.minutes < 1440,
    {
        let from: i64 = (self.hour as i64) * 60 + self.minute as i64;
        let to: i64 = (end.hour as i64) * 60 + end.minute as i64;
        Duration { minutes: to - from }
    }
}

} // verus!
