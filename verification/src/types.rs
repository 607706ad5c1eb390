use vstd::prelude::*;

verus! {

/// Milliseconds in one second.
pub const MS_IN_SEC: u64 = 1000;
/// Milliseconds in one minute.
pub const MS_IN_MIN: u64 = 60000;
/// Milliseconds in one hour.
pub const MS_IN_HOUR: u64 = 3600000;
/// Milliseconds in one day.
pub const MS_IN_DAY: u64 = 86400000;
/// Milliseconds in one week.
pub const MS_IN_WEEK: u64 = 604800000;

/// First year covered by the calendar; its first instant is the epoch
/// (1970-01-01T00:00:00.000), timestamp 0.
pub const EPOCH_YEAR: u16 = 1970;
/// Last year covered by the calendar.
pub const MAX_YEAR: u16 = 4000;

/// DateTime representation from year to ms. Valid values are:
/// - year:   [1970, 4000]
/// - month:  [1, 12]
/// - day:    [1, 31] (depending on month, leap year)
/// - hour:   [0, 23]
/// - minute: [0, 59]
/// - second: [0, 59]
/// - ms:     [0, 999]
///
/// Note: other values will be accepted, but will be classified invalid by the
/// calendar, and if used, appropriate values will be added on top,
/// eg. 32/01 -> 01/02.
#[derive(Clone, Copy, Default, Debug, PartialEq, Eq, Structural, PartialOrd, Ord)]
pub struct DateTime {
    // date
    pub year: u16,
    pub month: u8,
    pub day: u8,
    // time
    pub hour: u8,
    pub minute: u8,
    pub second: u8,
    pub ms: u16,
}

impl DateTime {
    /// Milliseconds elapsed since the start of the value's day-of-month
    /// position: the time of day plus a whole day for each day past the first.
    pub open spec fn day_time_ms(self) -> int {
        (self.day - 1) * MS_IN_DAY + self.hour * MS_IN_HOUR + self.minute * MS_IN_MIN
            + self.second * MS_IN_SEC + self.ms
    }

    /// Calculates ms for the day
    pub fn to_day_unixtime(&self) -> (r: u64)
        requires
            self.day >= 1,
        ensures
            r == self.day_time_ms(),
    {
        (self.day - 1) as u64 * MS_IN_DAY + self.hour as u64 * MS_IN_HOUR
            + self.minute as u64 * MS_IN_MIN + self.second as u64 * MS_IN_SEC + self.ms as u64
    }
}

/// A recurrence unit. `Year` and `Month` are calendar-relative (their
/// real-world length varies); the remaining variants are fixed-duration,
/// each with an exact millisecond length.
#[derive(Clone, Copy, Debug, PartialEq, Eq, Structural, PartialOrd, Ord)]
pub enum Frequency {
    Year,
    Month,
    Week,
    Day,
    Hour,
    Minute,
    Second,
    Ms,
}

impl Frequency {
    /// Whether the unit has a fixed real-world duration.
    pub open spec fn is_fixed(self) -> bool {
        !(self == Frequency::Year || self == Frequency::Month)
    }

    /// The exact millisecond length of a fixed-duration unit.
    /// Calendar-relative units have no fixed length and map to 0.
    pub open spec fn unit_ms(self) -> int {
        match self {
            Frequency::Year => 0,
            Frequency::Month => 0,
            Frequency::Week => MS_IN_WEEK as int,
            Frequency::Day => MS_IN_DAY as int,
            Frequency::Hour => MS_IN_HOUR as int,
            Frequency::Minute => MS_IN_MIN as int,
            Frequency::Second => MS_IN_SEC as int,
            Frequency::Ms => 1,
        }
    }

    /// The millisecond length of a fixed-duration unit.
    pub fn fixed_unit_ms(&self) -> (r: u64)
        requires
            self.is_fixed(),
        ensures
            r == self.unit_ms(),
            1 <= r <= MS_IN_WEEK,
    {
        match self {
            Frequency::Week => MS_IN_WEEK,
            Frequency::Day => MS_IN_DAY,
            Frequency::Hour => MS_IN_HOUR,
            Frequency::Minute => MS_IN_MIN,
            Frequency::Second => MS_IN_SEC,
            _ => 1,
        }
    }
}

/// Schedule, represented by a `start` `DateTime`, optional `end` `DateTime`,
/// and multiple pairs of (`Frequency`, `multiplier`).
/// Next occurrence of trigger time is calculated by taking the earliest
/// occurrence of `Frequency` * `multiplier`, from `start`, but before `end`.
#[derive(Clone, Debug, PartialEq, Eq, PartialOrd, Ord)]
pub struct Schedule {
    pub start: DateTime,
    pub items: Vec<(Frequency, u32)>,  // frequency with multiplier
    pub end: Option<DateTime>,
}

/// Three-way classification of a `DateTime` against the calendar rules.
#[derive(Clone, Copy, PartialEq, Eq, Structural, Debug)]
pub enum ValidationResult {
    /// All fields are within range for the year's leap status.
    Valid,
    /// The year is outside the supported range.
    OutOfScope,
    /// Some other field violates a calendar rule.
    Invalid,
}

/// Typed failure for the success/failure flavour of validation.
#[derive(Clone, Copy, PartialEq, Eq, Structural, Debug)]
pub enum ValidationError {
    /// `DateTime` not covered by this library, eg. 01/01/1000 00:00:00:000,
    /// 01/01/5000 00:00:00:000
    OutOfScope,
    /// Invalid `DateTime`, eg. 32/13/2000 66:66:66:6666,
    /// 29/02/2021 10:10:10:000 (non leap year)
    Invalid,
}

} // verus!
