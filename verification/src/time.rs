use vstd::prelude::*;

verus! {

/// Number of seconds in one day; every `TimeOfDay` lies below this bound.
pub const SECONDS_PER_DAY: u32 = 86400;

/// A wall-clock time with second resolution, stored as seconds since midnight.
///
/// All times used by the scheduler fall within a single day, so a value is
/// well formed when it is below `SECONDS_PER_DAY`.
#[derive(Clone, Copy, Debug, PartialEq, Eq, Structural)]
pub struct TimeOfDay {
    pub seconds: u32,
}

impl View for TimeOfDay {
    type V = int;

    open spec fn view(&self) -> int {
        self.seconds as int
    }
}

impl TimeOfDay {
    /// Whether the time lies within a single day.
    pub open spec fn wf(self) -> bool {
        self.seconds < SECONDS_PER_DAY
    }

    /// Builds a time from hours, minutes and seconds of the day.
    pub fn from_hms(hour: u32, minute: u32, second: u32) -> (t: TimeOfDay)
        requires
            hour < 24,
            minute < 60,
            second < 60,
        ensures
            t@ == hour * 3600 + minute * 60 + second,
            t.wf(),
    {
        TimeOfDay { seconds: hour * 3600 + minute * 60 + second }
    }

    /// The signed distance in seconds from `other` to `self`, as the
    /// subtraction of two wall-clock times.
    pub fn signed_duration_since(self, other: TimeOfDay) -> (d: i64)
        ensures
            d == self@ - other@,
    {
        self.seconds as i64 - other.seconds as i64
    }
}

/// A calendar date, kept as plain year, month and day numbers.
///
/// The scheduler itself never reads the date; it is carried through so that a
/// caller can stamp the produced events with the day they belong to.
#[derive(Clone, Copy, Debug, PartialEq, Eq, Structural)]
pub struct Date {
    pub year: u32,
    pub month: u32,
    pub day: u32,
}

} // verus!
