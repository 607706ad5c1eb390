use vstd::prelude::*;
use crate::recurrence::epoch_dt;
use crate::recurrence::final_next_ts;
use crate::recurrence::lemma_counts_nonneg;
use crate::recurrence::lemma_next_delta_in_range;
use crate::recurrence::lemma_rules_ok_mono;
use crate::recurrence::some_rule_within_limit;
use crate::recurrence::trigger_seq;
use crate::recurrence::lemma_fixed_rule_delta_props;
use crate::recurrence::lemma_month_rule_after_now;
use crate::recurrence::lemma_round_up_mul_props;
use crate::recurrence::lemma_year_rule_after_now;
use crate::recurrence::min_rule_delta;
use crate::recurrence::month_rule_next_ts;
use crate::recurrence::next_delta;
use crate::recurrence::round_up_mul;
use crate::recurrence::rule_delta;
use crate::recurrence::rule_ok;
use crate::recurrence::rules_ok;
use crate::recurrence::schedule_expired;
use crate::recurrence::total_month_delta;
use crate::recurrence::year_count_delta;
use crate::recurrence::year_rule_next_ts;
use crate::utils::ceil_div;
use crate::types::DateTime;
use crate::types::Frequency;
use crate::types::Schedule;
use crate::types::ValidationError;
use crate::types::ValidationResult;
use crate::types::EPOCH_YEAR;
use crate::types::MAX_YEAR;
use crate::types::MS_IN_DAY;
use crate::types::MS_IN_HOUR;
use crate::types::MS_IN_MIN;
use crate::types::MS_IN_SEC;

verus! {

// ------------------------------------------------------------------
// Calendar arithmetic, specification level
// ------------------------------------------------------------------

/// The standard Gregorian leap-year rule: divisible by 4, except
/// centuries not divisible by 400.
pub open spec fn is_leap_year(y: int) -> bool {
    (y % 4 == 0 && y % 100 != 0) || y % 400 == 0
}

/// Number of days in year `y`.
pub open spec fn days_in_year(y: int) -> int {
    if is_leap_year(y) {
        366
    } else {
        365
    }
}

/// Number of days in month `m` (1-based) of a year with the given leap status.
pub open spec fn month_len(leap: bool, m: int) -> int {
    if m == 2 {
        if leap {
            29
        } else {
            28
        }
    } else if m == 4 || m == 6 || m == 9 || m == 11 {
        30
    } else {
        31
    }
}

/// Days from the start of a year to the start of month `m` (1-based);
/// `m == 13` gives the length of the whole year.
pub open spec fn month_days_cum(leap: bool, m: int) -> int
    decreases m,
{
    if m <= 1 {
        0
    } else {
        month_days_cum(leap, m - 1) + month_len(leap, m - 1)
    }
}

/// Number of days in month `m` (1-based) of year `y`.
pub open spec fn days_in_month(y: int, m: int) -> int {
    month_len(is_leap_year(y), m)
}

/// Milliseconds from the epoch to the first instant of year `y`.
pub open spec fn year_start_ms(y: int) -> int
    decreases y - EPOCH_YEAR,
{
    if y <= EPOCH_YEAR {
        0
    } else {
        year_start_ms(y - 1) + days_in_year(y - 1) * MS_IN_DAY
    }
}

/// Raw timestamp projection of a (year, month, day-time) triple: milliseconds
/// from the epoch to the instant `day_time` milliseconds after the start of
/// month `m` of year `y`. Total over arbitrary field values; the permissive
/// arithmetic rolls an overflowing field forward into the following period.
pub open spec fn ymd_ts(y: int, m: int, day_time: int) -> int {
    year_start_ms(y) + month_days_cum(is_leap_year(y), m) * MS_IN_DAY + day_time
}

/// Raw timestamp projection of a `DateTime`: the permissive arithmetic that
/// `Calendar::to_unixtime` computes.
pub open spec fn dt_ts(dt: DateTime) -> int {
    ymd_ts(dt.year as int, dt.month as int, dt.day_time_ms())
}

/// The year is within the range covered by the offset table.
pub open spec fn dt_in_scope(dt: DateTime) -> bool {
    EPOCH_YEAR <= dt.year <= MAX_YEAR
}

/// Every field is within its static range (month 1..=12, day 1..=31,
/// hour < 24, minute < 60, second < 60, ms < 1000).
pub open spec fn dt_fields_in_range(dt: DateTime) -> bool {
    &&& 1 <= dt.month <= 12
    &&& 1 <= dt.day <= 31
    &&& dt.hour < 24
    &&& dt.minute < 60
    &&& dt.second < 60
    &&& dt.ms < 1000
}

/// The value is a real calendar instant: in scope, fields in range, and the
/// day exists in its month for the year's leap status.
pub open spec fn dt_valid(dt: DateTime) -> bool {
    &&& dt_in_scope(dt)
    &&& dt_fields_in_range(dt)
    &&& dt.day <= days_in_month(dt.year as int, dt.month as int)
}

/// The three-way classification that `Calendar::validate` returns.
pub open spec fn validation_of(dt: DateTime) -> ValidationResult {
    if !dt_in_scope(dt) {
        ValidationResult::OutOfScope
    } else if !dt_valid(dt) {
        ValidationResult::Invalid
    } else {
        ValidationResult::Valid
    }
}

/// First timestamp past the supported range: the first instant of the year
/// after `MAX_YEAR`.
pub open spec fn ts_limit() -> int {
    year_start_ms(MAX_YEAR + 1)
}

/// The canonical decomposition of a timestamp: the unique valid `DateTime`
/// whose raw projection is `t` (unique by `lemma_dt_ts_injective`; one exists
/// for every `t` in `[0, ts_limit())`).
pub open spec fn dt_of_ts(t: int) -> DateTime {
    choose|dt: DateTime| dt_valid(dt) && dt_ts(dt) == t
}

/// Where a catch-up enumeration starts: at the last known run when one is
/// given, else at the epoch.
pub open spec fn catch_up_cursor(last_run: Option<&DateTime>) -> DateTime {
    match last_run {
        Some(lr) => *lr,
        None => epoch_dt(),
    }
}

// ------------------------------------------------------------------
// Foundational lemmas about the spec-level arithmetic
// ------------------------------------------------------------------

/// Cumulative month days grow with the month, by the length of each month
/// stepped over; a month is 28 to 31 days.
pub(crate) proof fn lemma_month_cum_mono(leap: bool, m1: int, m2: int)
    requires
        1 <= m1 <= m2 <= 13,
    ensures
        28 * (m2 - m1) <= month_days_cum(leap, m2) - month_days_cum(leap, m1) <= 31 * (m2 - m1),
    decreases m2 - m1,
{
    if m1 < m2 {
        lemma_month_cum_mono(leap, m1, m2 - 1);
    }
}

/// The cumulative days over a whole year match the year length.
pub(crate) proof fn lemma_month_cum_13(leap: bool)
    ensures
        month_days_cum(leap, 13) == if leap {
            366int
        } else {
            365int
        },
{
    reveal_with_fuel(month_days_cum, 13);
}

/// Cumulative month days over any prefix of a year lie in [0, 366].
pub(crate) proof fn lemma_month_cum_bounds(leap: bool, m: int)
    requires
        1 <= m <= 13,
    ensures
        0 <= month_days_cum(leap, m) <= 366,
        month_days_cum(leap, 1) == 0,
{
    lemma_month_cum_mono(leap, 1, m);
    lemma_month_cum_mono(leap, m, 13);
    lemma_month_cum_13(leap);
}

/// Year starts are spaced by 365 to 366 days per year stepped over.
pub(crate) proof fn lemma_year_start_range(a: int, b: int)
    requires
        EPOCH_YEAR <= a <= b,
    ensures
        (b - a) * 365 * MS_IN_DAY <= year_start_ms(b) - year_start_ms(a) <= (b - a) * 366
            * MS_IN_DAY,
    decreases b - a,
{
    if a < b {
        lemma_year_start_range(a, b - 1);
    }
}

/// Absolute bounds for a year start within the supported range.
pub(crate) proof fn lemma_year_start_bounds(y: int)
    requires
        EPOCH_YEAR <= y <= MAX_YEAR + 1,
    ensures
        (y - EPOCH_YEAR) * 365 * MS_IN_DAY <= year_start_ms(y) <= (y - EPOCH_YEAR) * 366
            * MS_IN_DAY,
        0 <= year_start_ms(y) <= 743346 * MS_IN_DAY,
{
    lemma_year_start_range(EPOCH_YEAR as int, y);
    lemma_year_start_range(y, MAX_YEAR + 1);
}

/// Inputs on which the raw timestamp projection is defined: year within the
/// table, month within the 13-entry month-offset table, day at least 1.
pub open spec fn dt_raw_ok(dt: DateTime) -> bool {
    &&& EPOCH_YEAR <= dt.year <= MAX_YEAR
    &&& 1 <= dt.month <= 13
    &&& 1 <= dt.day
}

/// Lexicographic field order on date/times; for valid values it coincides
/// with chronological order (`lemma_ts_strict_mono`).
pub open spec fn dt_lex_lt(a: DateTime, b: DateTime) -> bool {
    ||| a.year < b.year
    ||| (a.year == b.year && a.month < b.month)
    ||| (a.year == b.year && a.month == b.month && a.day < b.day)
    ||| (a.year == b.year && a.month == b.month && a.day == b.day && a.hour < b.hour)
    ||| (a.year == b.year && a.month == b.month && a.day == b.day && a.hour == b.hour && a.minute
        < b.minute)
    ||| (a.year == b.year && a.month == b.month && a.day == b.day && a.hour == b.hour && a.minute
        == b.minute && a.second < b.second)
    ||| (a.year == b.year && a.month == b.month && a.day == b.day && a.hour == b.hour && a.minute
        == b.minute && a.second == b.second && a.ms < b.ms)
}

/// The raw projection of any in-domain value is non-negative and well below
/// `u64::MAX`, even for permissive (overflowing) field values.
pub proof fn lemma_dt_ts_raw_bounds(dt: DateTime)
    requires
        dt_raw_ok(dt),
    ensures
        0 <= dt_ts(dt) < 743970 * MS_IN_DAY,
{
    lemma_year_start_bounds(dt.year as int);
    lemma_month_cum_bounds(is_leap_year(dt.year as int), dt.month as int);
}

/// A valid date/time's timestamp falls within its own year, and within the
/// supported timestamp range.
pub proof fn lemma_dt_ts_valid_range(dt: DateTime)
    requires
        dt_valid(dt),
    ensures
        year_start_ms(dt.year as int) <= dt_ts(dt) < year_start_ms(dt.year as int + 1),
        year_start_ms(dt.year as int) + month_days_cum(is_leap_year(dt.year as int), dt.month as int)
            * MS_IN_DAY <= dt_ts(dt) < year_start_ms(dt.year as int) + month_days_cum(
            is_leap_year(dt.year as int),
            dt.month as int + 1,
        ) * MS_IN_DAY,
        0 <= dt_ts(dt) < ts_limit(),
{
    let y = dt.year as int;
    let m = dt.month as int;
    let leap = is_leap_year(y);
    lemma_year_start_bounds(y);
    lemma_month_cum_bounds(leap, m);
    // the day-time stays inside the month
    assert(dt.day_time_ms() < days_in_month(y, m) * MS_IN_DAY);
    // and the month stays inside the year
    assert(month_days_cum(leap, m + 1) == month_days_cum(leap, m) + month_len(leap, m));
    lemma_month_cum_mono(leap, m + 1, 13);
    lemma_month_cum_13(leap);
    lemma_year_start_range(y + 1, MAX_YEAR + 1);
}

/// Chronological order of valid date/times follows lexicographic field order.
/// For any two valid values `a < b` in field order, the timestamp of `a` is
/// strictly below the timestamp of `b`.
pub proof fn lemma_ts_strict_mono(a: DateTime, b: DateTime)
    requires
        dt_valid(a),
        dt_valid(b),
        dt_lex_lt(a, b),
    ensures
        dt_ts(a) < dt_ts(b),
{
    lemma_dt_ts_valid_range(a);
    lemma_dt_ts_valid_range(b);
    if a.year < b.year {
        lemma_year_start_range(a.year as int + 1, b.year as int);
    } else if a.month < b.month {
        lemma_month_cum_mono(is_leap_year(a.year as int), a.month as int + 1, b.month as int);
    }
}

/// The raw projection is injective on valid date/times: equal timestamps mean
/// equal values.
pub proof fn lemma_dt_ts_injective(a: DateTime, b: DateTime)
    requires
        dt_valid(a),
        dt_valid(b),
        dt_ts(a) == dt_ts(b),
    ensures
        a == b,
{
    if a != b {
        if dt_lex_lt(a, b) {
            lemma_ts_strict_mono(a, b);
        } else {
            lemma_ts_strict_mono(b, a);
        }
    }
}

/// Locates the year containing `t`, scanning upward from `y`.
proof fn lemma_find_year_from(t: int, y: int) -> (r: int)
    requires
        EPOCH_YEAR <= y <= MAX_YEAR,
        year_start_ms(y) <= t < ts_limit(),
    ensures
        EPOCH_YEAR <= r <= MAX_YEAR,
        year_start_ms(r) <= t < year_start_ms(r + 1),
    decreases MAX_YEAR - y,
{
    if t < year_start_ms(y + 1) {
        y
    } else {
        lemma_find_year_from(t, y + 1)
    }
}

/// Locates the month containing a year-relative offset, scanning upward
/// from `m`.
proof fn lemma_find_month_from(leap: bool, rem: int, m: int) -> (r: int)
    requires
        1 <= m <= 12,
        month_days_cum(leap, m) * MS_IN_DAY <= rem < month_days_cum(leap, 13) * MS_IN_DAY,
    ensures
        1 <= r <= 12,
        month_days_cum(leap, r) * MS_IN_DAY <= rem < month_days_cum(leap, r + 1) * MS_IN_DAY,
    decreases 12 - m,
{
    if rem < month_days_cum(leap, m + 1) * MS_IN_DAY {
        m
    } else {
        lemma_find_month_from(leap, rem, m + 1)
    }
}

/// The decomposition is total over the supported range: every timestamp in
/// `[0, ts_limit())` is the projection of exactly one valid date/time, and
/// `dt_of_ts` denotes it.
pub proof fn lemma_dt_of_ts_total(t: int)
    requires
        0 <= t < ts_limit(),
    ensures
        dt_valid(dt_of_ts(t)),
        dt_ts(dt_of_ts(t)) == t,
{
    let y = lemma_find_year_from(t, EPOCH_YEAR as int);
    let leap = is_leap_year(y);
    let rem = t - year_start_ms(y);
    lemma_month_cum_13(leap);
    let m = lemma_find_month_from(leap, rem, 1);
    let rem_m = rem - month_days_cum(leap, m) * MS_IN_DAY;
    assert(month_days_cum(leap, m + 1) == month_days_cum(leap, m) + month_len(leap, m));
    lemma_split_units(rem_m, MS_IN_DAY as int, month_len(leap, m));
    let day_time = rem_m % MS_IN_DAY as int;
    lemma_split_units(day_time, MS_IN_HOUR as int, 24);
    let rem_h = day_time % MS_IN_HOUR as int;
    lemma_split_units(rem_h, MS_IN_MIN as int, 60);
    let rem_mi = rem_h % MS_IN_MIN as int;
    lemma_split_units(rem_mi, MS_IN_SEC as int, 60);
    let w = DateTime {
        year: y as u16,
        month: m as u8,
        day: (rem_m / MS_IN_DAY as int + 1) as u8,
        hour: (day_time / MS_IN_HOUR as int) as u8,
        minute: (rem_h / MS_IN_MIN as int) as u8,
        second: (rem_mi / MS_IN_SEC as int) as u8,
        ms: (rem_mi % MS_IN_SEC as int) as u16,
    };
    assert(w.day_time_ms() == rem_m);
    assert(dt_valid(w) && dt_ts(w) == t);
    assert(dt_valid(dt_of_ts(t)) && dt_ts(dt_of_ts(t)) == t) by {
        assert(exists|dt: DateTime| dt_valid(dt) && dt_ts(dt) == t);
    }
}

/// Round trip through the timestamp: the canonical decomposition of a valid
/// date/time's timestamp is that date/time itself.
pub proof fn lemma_roundtrip(d: DateTime)
    requires
        dt_valid(d),
    ensures
        dt_of_ts(dt_ts(d)) == d,
{
    let t = dt_ts(d);
    assert(dt_valid(d) && dt_ts(d) == t);
    assert(exists|dt: DateTime| dt_valid(dt) && dt_ts(dt) == t);
    let c = dt_of_ts(t);
    assert(dt_valid(c) && dt_ts(c) == t);
    lemma_dt_ts_injective(c, d);
}

/// Splitting a quantity `0 <= x < n * u` into `x / u` whole units of size `u`
/// and a remainder below `u`.
pub(crate) proof fn lemma_split_units(x: int, u: int, n: int)
    requires
        0 <= x,
        0 < u,
        x < n * u,
    ensures
        0 <= x / u < n,
        x == (x / u) * u + (x % u),
        0 <= x % u < u,
{
    vstd::arithmetic::div_mod::lemma_fundamental_div_mod(x, u);
    vstd::arithmetic::div_mod::lemma_div_pos_is_pos(x, u);
    assert((x / u) * u == u * (x / u)) by (nonlinear_arith);
    assert(x < u * n) by (nonlinear_arith)
        requires
            x < n * u,
    ;
    vstd::arithmetic::div_mod::lemma_multiply_divide_lt(x, u, n);
}

// ------------------------------------------------------------------
// Executable building blocks
// ------------------------------------------------------------------

/// Whether `year` is a leap year.
pub fn leap_year(year: u16) -> (b: bool)
    ensures
        b == is_leap_year(year as int),
{
    (year % 4 == 0 && year % 100 != 0) || year % 400 == 0
}

/// Number of days in month `month` (1-based) of a year with leap status `leap`.
pub fn days_in_month_of(leap: bool, month: u8) -> (d: u64)
    ensures
        d == month_len(leap, month as int),
        28 <= d <= 31,
{
    if month == 2 {
        if leap {
            29
        } else {
            28
        }
    } else if month == 4 || month == 6 || month == 9 || month == 11 {
        30
    } else {
        31
    }
}

// ------------------------------------------------------------------
// The calendar
// ------------------------------------------------------------------

/// Number of years covered by the offset table (`EPOCH_YEAR ..= MAX_YEAR`).
pub const YEARS_IN_SCOPE: u64 = 2031;

/// Representation of a timezone-naive calendar: aware of leap years and of
/// the days in a given month for leap and non-leap years.
///
/// The three offset tables are precomputed once by [`Calendar::create`] and
/// immutable thereafter; [`Calendar::wf`] ties each entry to the
/// specification-level arithmetic.
///
/// Beware `to_unixtime` assumes an in-range input; use `validate` and/or
/// `to_unixtime_opt` to guarantee safety for untrusted values.
pub struct Calendar {
    /// `year_ms_offsets[i]` is the timestamp of the first instant of year
    /// `EPOCH_YEAR + i`.
    pub year_ms_offsets: Vec<u64>,
    /// `leap_year_month_offsets[i]` is the millisecond offset of the start of
    /// month `i + 1` within a leap year; entry 12 is the whole year.
    pub leap_year_month_offsets: Vec<u64>,
    /// As `leap_year_month_offsets`, for non-leap years.
    pub non_leap_year_month_offsets: Vec<u64>,
}

impl Calendar {
    /// The offset tables hold exactly the specification-level year starts and
    /// cumulative month offsets.
    pub open spec fn wf(self) -> bool {
        &&& self.year_ms_offsets@.len() == YEARS_IN_SCOPE
        &&& forall|i: int|
            0 <= i < YEARS_IN_SCOPE ==> #[trigger] self.year_ms_offsets@[i] == year_start_ms(
                EPOCH_YEAR + i,
            )
        &&& self.leap_year_month_offsets@.len() == 13
        &&& forall|i: int|
            0 <= i < 13 ==> #[trigger] self.leap_year_month_offsets@[i] == month_days_cum(
                true,
                i + 1,
            ) * MS_IN_DAY
        &&& self.non_leap_year_month_offsets@.len() == 13
        &&& forall|i: int|
            0 <= i < 13 ==> #[trigger] self.non_leap_year_month_offsets@[i] == month_days_cum(
                false,
                i + 1,
            ) * MS_IN_DAY
    }

    /// Constructor for the calendar.
    pub fn create() -> (c: Calendar)
        ensures
            c.wf(),
    {
        let mut year_ms_offsets: Vec<u64> = Vec::new();
        year_ms_offsets.push(0);
        let mut year: u16 = EPOCH_YEAR;
        let mut acc: u64 = 0;
        while year < MAX_YEAR
            invariant
                EPOCH_YEAR <= year <= MAX_YEAR,
                year_ms_offsets@.len() == year - EPOCH_YEAR + 1,
                forall|i: int|
                    0 <= i < year_ms_offsets@.len() ==> #[trigger] year_ms_offsets@[i]
                        == year_start_ms(EPOCH_YEAR + i),
                acc == year_start_ms(year as int),
            decreases MAX_YEAR - year,
        {
            proof {
                lemma_year_start_bounds(year as int);
                lemma_year_start_bounds(year + 1);
            }
            let year_len_ms: u64 = if leap_year(year) {
                366 * MS_IN_DAY
            } else {
                365 * MS_IN_DAY
            };
            acc = acc + year_len_ms;
            year_ms_offsets.push(acc);
            year = year + 1;
        }
        let leap_year_month_offsets: Vec<u64> = month_offset_table(true);
        let non_leap_year_month_offsets: Vec<u64> = month_offset_table(false);
        Calendar { year_ms_offsets, leap_year_month_offsets, non_leap_year_month_offsets }
    }

    /// Converts a `&DateTime` to ms from epoch: the raw, permissive
    /// projection. An overflowing field rolls forward into the following
    /// period (eg. 32/01 maps to the timestamp of 01/02); callers that cannot
    /// guarantee an in-range input must use `to_unixtime_opt`.
    pub fn to_unixtime(&self, dt: &DateTime) -> (r: u64)
        requires
            self.wf(),
            dt_raw_ok(*dt),
        ensures
            r == dt_ts(*dt),
    {
        proof {
            lemma_year_start_bounds(dt.year as int);
            lemma_month_cum_bounds(is_leap_year(dt.year as int), dt.month as int);
        }
        let year_idx: usize = (dt.year - EPOCH_YEAR) as usize;
        let year_offset: u64 = self.year_ms_offsets[year_idx];
        let month_idx: usize = (dt.month - 1) as usize;
        let month_offset: u64 = if leap_year(dt.year) {
            self.leap_year_month_offsets[month_idx]
        } else {
            self.non_leap_year_month_offsets[month_idx]
        };
        year_offset + month_offset + dt.to_day_unixtime()
    }

    /// Converts a `&DateTime` to ms from epoch, returning `Some` if the
    /// supplied `DateTime` was valid, `None` otherwise.
    pub fn to_unixtime_opt(&self, dt: &DateTime) -> (r: Option<u64>)
        requires
            self.wf(),
        ensures
            dt_valid(*dt) ==> (r matches Some(v) && v == dt_ts(*dt)),
            !dt_valid(*dt) ==> r is None,
    {
        match self.validate(dt) {
            ValidationResult::Valid => Some(self.to_unixtime(dt)),
            _ => None,
        }
    }

    /// Converts a `&DateTime` to ms from epoch, with the typed-failure
    /// flavour of validation: `Err(OutOfScope)` when the year lies outside
    /// the supported range, `Err(Invalid)` for any other rule violation.
    pub fn to_unixtime_res(&self, dt: &DateTime) -> (r: Result<u64, ValidationError>)
        requires
            self.wf(),
        ensures
            dt_valid(*dt) ==> (r matches Ok(v) && v == dt_ts(*dt)),
            !dt_in_scope(*dt) ==> r == Err::<u64, ValidationError>(ValidationError::OutOfScope),
            dt_in_scope(*dt) && !dt_valid(*dt) ==> r == Err::<u64, ValidationError>(
                ValidationError::Invalid,
            ),
    {
        match self.validate(dt) {
            ValidationResult::Valid => Ok(self.to_unixtime(dt)),
            ValidationResult::OutOfScope => Err(ValidationError::OutOfScope),
            ValidationResult::Invalid => Err(ValidationError::Invalid),
        }
    }

    /// Finds ms delta between 2 `DateTime`s.
    pub fn ms_between(&self, from: &DateTime, to: &DateTime) -> (r: i64)
        requires
            self.wf(),
            dt_raw_ok(*from),
            dt_raw_ok(*to),
        ensures
            r == dt_ts(*to) - dt_ts(*from),
    {
        proof {
            lemma_dt_ts_raw_bounds(*from);
            lemma_dt_ts_raw_bounds(*to);
        }
        let a: u64 = self.to_unixtime(from);
        let b: u64 = self.to_unixtime(to);
        (b as i64) - (a as i64)
    }

    /// Converts ms from epoch to `DateTime`: the canonical decomposition.
    /// Every millisecond value within the supported range decomposes to
    /// exactly one valid `DateTime`, and the conversion is the inverse of
    /// `to_unixtime` on valid values.
    pub fn from_unixtime(&self, ts: u64) -> (r: DateTime)
        requires
            self.wf(),
            ts < ts_limit(),
        ensures
            dt_valid(r),
            dt_ts(r) == ts,
            r == dt_of_ts(ts as int),
    {
        // find the year containing ts
        let mut year_idx: usize = 0;
        while year_idx + 1 < YEARS_IN_SCOPE as usize && ts >= self.year_ms_offsets[year_idx + 1]
            invariant
                self.wf(),
                ts < ts_limit(),
                year_idx < YEARS_IN_SCOPE,
                ts >= year_start_ms(EPOCH_YEAR + year_idx as int),
            decreases YEARS_IN_SCOPE - year_idx,
        {
            year_idx = year_idx + 1;
        }
        let year: u16 = EPOCH_YEAR + year_idx as u16;
        proof {
            lemma_year_start_bounds(year as int);
            assert(ts < year_start_ms(year as int + 1));
        }
        let rem_year: u64 = ts - self.year_ms_offsets[year_idx];
        assert(rem_year < days_in_year(year as int) * MS_IN_DAY);

        // find the month within the year
        let leap: bool = leap_year(year);
        let tbl: &Vec<u64> = if leap {
            &self.leap_year_month_offsets
        } else {
            &self.non_leap_year_month_offsets
        };
        let mut month: u8 = 1;
        while month < 12 && rem_year >= tbl[month as usize]
            invariant
                tbl@.len() == 13,
                forall|i: int|
                    0 <= i < 13 ==> #[trigger] tbl@[i] == month_days_cum(leap, i + 1) * MS_IN_DAY,
                leap == is_leap_year(year as int),
                rem_year < days_in_year(year as int) * MS_IN_DAY,
                1 <= month <= 12,
                rem_year >= month_days_cum(leap, month as int) * MS_IN_DAY,
            decreases 12 - month,
        {
            month = month + 1;
        }
        proof {
            lemma_month_cum_13(leap);
            assert(rem_year < month_days_cum(leap, month as int + 1) * MS_IN_DAY);
        }
        let rem_month: u64 = rem_year - tbl[(month - 1) as usize];

        // decompose the remainder into day, hour, minute, second, ms
        proof {
            assert(rem_month < month_len(leap, month as int) * MS_IN_DAY);
            lemma_split_units(rem_month as int, MS_IN_DAY as int, month_len(leap, month as int));
        }
        let day: u8 = (rem_month / MS_IN_DAY) as u8 + 1;
        let rem_day: u64 = rem_month % MS_IN_DAY;
        proof {
            lemma_split_units(rem_day as int, MS_IN_HOUR as int, 24);
        }
        let hour: u8 = (rem_day / MS_IN_HOUR) as u8;
        let rem_hour: u64 = rem_day % MS_IN_HOUR;
        proof {
            lemma_split_units(rem_hour as int, MS_IN_MIN as int, 60);
        }
        let minute: u8 = (rem_hour / MS_IN_MIN) as u8;
        let rem_min: u64 = rem_hour % MS_IN_MIN;
        proof {
            lemma_split_units(rem_min as int, MS_IN_SEC as int, 60);
        }
        let second: u8 = (rem_min / MS_IN_SEC) as u8;
        let ms: u16 = (rem_min % MS_IN_SEC) as u16;

        let r = DateTime { year, month, day, hour, minute, second, ms };
        proof {
            assert(r.day_time_ms() == rem_month);
            assert(dt_ts(r) == ts);
            lemma_roundtrip(r);
        }
        r
    }

    /// Given a `now` `DateTime` and `Schedule`, finds ms delta when the next
    /// occurrence should trigger, per [`crate::recurrence::next_delta`]:
    /// before the schedule starts the delta reaches exactly `start`; on an
    /// expired schedule there is none; otherwise the earliest rule wins, and
    /// a trigger past `Schedule::end` yields `None`.
    pub fn next_occurrence_ms(&self, now: &DateTime, schedule: &Schedule) -> (r: Option<
        u64,
    >)
        requires
            self.wf(),
            dt_valid(*now),
            dt_valid(schedule.start),
            schedule.end matches Some(e) ==> dt_valid(e),
            dt_ts(*now) >= dt_ts(schedule.start) && !schedule_expired(*now, *schedule)
                ==> rules_ok(*now, *schedule),
        ensures
            next_delta(*now, *schedule) matches Some(d) ==> (r matches Some(v) && v == d),
            next_delta(*now, *schedule) is None ==> r is None,
            r matches Some(v) ==> v >= 1,
    {
        let now_in_ms = self.to_unixtime(now);
        let start_in_ms = self.to_unixtime(&schedule.start);
        if now_in_ms < start_in_ms {
            return Some(start_in_ms - now_in_ms);
        }
        match &schedule.end {
            Some(end_dt) => {
                proof {
                    lemma_dt_ts_valid_range(*end_dt);
                }
                if now_in_ms > self.to_unixtime(end_dt) {
                    return None;
                }
            },
            None => {},
        }
        let ghost items = schedule.items@;
        let mut best: Option<u64> = None;
        let mut idx: usize = 0;
        while idx < schedule.items.len()
            invariant
                self.wf(),
                dt_valid(*now),
                dt_valid(schedule.start),
                dt_ts(schedule.start) <= dt_ts(*now),
                now_in_ms == dt_ts(*now),
                start_in_ms == dt_ts(schedule.start),
                items == schedule.items@,
                rules_ok(*now, *schedule),
                idx <= items.len(),
                idx == 0 <==> best is None,
                best matches Some(b) ==> b == min_rule_delta(
                    *now,
                    schedule.start,
                    items.subrange(0, idx as int),
                ) && 1 <= b <= 2600000000000000000u64,
            decreases items.len() - idx,
        {
            let (freq, mult) = schedule.items[idx];
            proof {
                assert(rule_ok(*now, schedule.start, freq, mult as int));
            }
            let delta: u64 = match freq {
                Frequency::Year => self.year_rule_delta(now, &schedule.start, mult),
                Frequency::Month => self.month_rule_delta(now, &schedule.start, mult),
                _ => {
                    proof {
                        assert(freq.unit_ms() * mult <= 604800000int * 4294967295int
                            && freq.unit_ms() * mult >= 1) by (nonlinear_arith)
                            requires
                                1 <= freq.unit_ms() <= 604800000,
                                1 <= mult <= 4294967295,
                        ;
                        lemma_fixed_rule_delta_props(
                            dt_ts(*now),
                            dt_ts(schedule.start),
                            freq.unit_ms(),
                            mult as int,
                        );
                    }
                    let freq_in_ms: u64 = freq.fixed_unit_ms() * (mult as u64);
                    let ms_in_this_period: u64 = (now_in_ms - start_in_ms) % freq_in_ms;
                    if ms_in_this_period == 0 {
                        freq_in_ms
                    } else {
                        freq_in_ms - ms_in_this_period
                    }
                },
            };
            proof {
                assert(delta == rule_delta(*now, schedule.start, freq, mult as int));
                let pre = items.subrange(0, idx as int);
                let post = items.subrange(0, idx as int + 1);
                assert(post.drop_last() =~= pre);
                assert(post.last() == items[idx as int]);
                lemma_year_start_bounds(MAX_YEAR + 1);
                if idx == 0 {
                    assert(post.len() == 1);
                    assert(post[0] == items[0]);
                    assert(min_rule_delta(*now, schedule.start, post) == rule_delta(
                        *now,
                        schedule.start,
                        post[0].0,
                        post[0].1 as int,
                    ));
                }
                if idx > 0 {
                    assert(min_rule_delta(*now, schedule.start, post) == if min_rule_delta(
                        *now,
                        schedule.start,
                        pre,
                    ) <= delta {
                        min_rule_delta(*now, schedule.start, pre)
                    } else {
                        delta as int
                    });
                }
            }
            best = match best {
                None => Some(delta),
                Some(b) => if delta < b {
                    Some(delta)
                } else {
                    Some(b)
                },
            };
            idx = idx + 1;
        }
        proof {
            if items.len() > 0 {
                assert(items.subrange(0, items.len() as int) =~= items);
            }
            lemma_dt_ts_valid_range(*now);
            lemma_year_start_bounds(MAX_YEAR + 1);
        }
        match best {
            None => None,
            Some(trigger) => match &schedule.end {
                None => Some(trigger),
                Some(end_dt) => {
                    let end_ts = self.to_unixtime(end_dt);
                    if now_in_ms + trigger <= end_ts {
                        Some(trigger)
                    } else {
                        None
                    }
                },
            },
        }
    }

    /// Delta from `now` to the next `Year`-rule occurrence: the elapsed year
    /// count is rounded up to the rule's multiple and added to `start`'s
    /// year, all other fields copied verbatim.
    fn year_rule_delta(&self, now: &DateTime, start: &DateTime, mult: u32) -> (delta: u64)
        requires
            self.wf(),
            dt_valid(*now),
            dt_valid(*start),
            dt_ts(*start) <= dt_ts(*now),
            rule_ok(*now, *start, Frequency::Year, mult as int),
        ensures
            delta == rule_delta(*now, *start, Frequency::Year, mult as int),
            1 <= delta,
            dt_ts(*now) + delta < ts_limit(),
    {
        proof {
            lemma_counts_nonneg(*now, *start);
            lemma_round_up_mul_props(year_count_delta(*now, *start), mult as int);
            lemma_year_rule_after_now(*now, *start, mult as int);
        }
        let anchor_reached: i64 = if now.to_day_unixtime() >= start.to_day_unixtime() {
            1
        } else {
            0
        };
        let m_delta: i64 = now.month as i64 - start.month as i64 + anchor_reached;
        let y_delta: i64 = now.year as i64 - start.year as i64 + (if m_delta > 0 {
            1
        } else {
            0
        });
        assert(y_delta == year_count_delta(*now, *start));
        let total_y_from_start: u32 = ceil_div(y_delta as u32, mult) * mult;
        assert(total_y_from_start == round_up_mul(year_count_delta(*now, *start), mult as int));
        let next_occurrence = DateTime {
            year: start.year + total_y_from_start as u16,
            month: start.month,
            day: start.day,
            hour: start.hour,
            minute: start.minute,
            second: start.second,
            ms: start.ms,
        };
        assert(dt_ts(next_occurrence) == year_rule_next_ts(*now, *start, mult as int));
        let next_ms = self.to_unixtime(&next_occurrence);
        next_ms - self.to_unixtime(now)
    }

    /// Delta from `now` to the next `Month`-rule occurrence: the elapsed
    /// month count is rounded up to the rule's multiple and added to
    /// `start`'s month, carrying year overflow, day and time copied verbatim.
    fn month_rule_delta(&self, now: &DateTime, start: &DateTime, mult: u32) -> (delta: u64)
        requires
            self.wf(),
            dt_valid(*now),
            dt_valid(*start),
            dt_ts(*start) <= dt_ts(*now),
            rule_ok(*now, *start, Frequency::Month, mult as int),
        ensures
            delta == rule_delta(*now, *start, Frequency::Month, mult as int),
            1 <= delta,
            dt_ts(*now) + delta < ts_limit(),
    {
        let ghost tmd = total_month_delta(*now, *start);
        let ghost mc = round_up_mul(tmd, mult as int);
        proof {
            lemma_counts_nonneg(*now, *start);
            lemma_round_up_mul_props(tmd, mult as int);
            lemma_month_rule_after_now(*now, *start, mult as int);
            // the carried year bound caps the rounded month count
            vstd::arithmetic::div_mod::lemma_fundamental_div_mod(start.month + mc - 1, 12);
            vstd::arithmetic::div_mod::lemma_mod_pos_bound(start.month + mc - 1, 12);
            assert(((start.month + mc - 1) / 12) * 12 == 12 * ((start.month + mc - 1) / 12))
                by (nonlinear_arith);
            assert(mc <= 24383);
        }
        let anchor_reached: i64 = if now.to_day_unixtime() >= start.to_day_unixtime() {
            1
        } else {
            0
        };
        let m_delta: i64 = now.month as i64 - start.month as i64 + anchor_reached;
        let total_m_delta: i64 = (now.year as i64 - start.year as i64) * 12 + m_delta;
        assert(total_m_delta == tmd);
        let total_m_from_start: u32 = ceil_div(total_m_delta as u32, mult) * mult;
        assert(total_m_from_start == mc);
        let month_base: u32 = start.month as u32 + total_m_from_start - 1;
        let next_occurrence = DateTime {
            year: start.year + (month_base / 12) as u16,
            month: (month_base % 12) as u8 + 1,
            day: start.day,
            hour: start.hour,
            minute: start.minute,
            second: start.second,
            ms: start.ms,
        };
        assert(dt_ts(next_occurrence) == month_rule_next_ts(*now, *start, mult as int));
        let next_ms = self.to_unixtime(&next_occurrence);
        next_ms - self.to_unixtime(now)
    }

    /// Catch-up enumeration: walks the schedule forward from `last_run` (or
    /// the epoch when absent), collecting every trigger timestamp up to and
    /// including `now`, plus the ms delta from `now` to the first trigger
    /// strictly after it (`None` once the schedule yields no further
    /// trigger).
    pub fn next_occurrence_ms_with_past_triggers(
        &self,
        last_run: Option<&DateTime>,
        now: &DateTime,
        schedule: &Schedule,
    ) -> (r: (Vec<u64>, Option<u64>))
        requires
            self.wf(),
            dt_valid(*now),
            dt_valid(schedule.start),
            schedule.end matches Some(e) ==> dt_valid(e),
            last_run matches Some(lr) ==> dt_valid(*lr),
            dt_ts(*now) >= dt_ts(schedule.start) ==> rules_ok(*now, *schedule),
            (dt_ts(*now) >= dt_ts(schedule.start) && schedule.end is None && schedule.items@.len()
                > 0) ==> some_rule_within_limit(*now, *schedule),
        ensures
            r.0@.map_values(|v: u64| v as int) == trigger_seq(
                *schedule,
                catch_up_cursor(last_run),
                dt_ts(*now),
            ),
            match final_next_ts(*schedule, catch_up_cursor(last_run), dt_ts(*now)) {
                None => r.1 is None,
                Some(t) => r.1 matches Some(v) && v == t - dt_ts(*now),
            },
    {
        let t0 = DateTime { year: 1970, month: 1, day: 1, hour: 0, minute: 0, second: 0, ms: 0 };
        let now_ms = self.to_unixtime(now);
        let mut triggers: Vec<u64> = Vec::new();
        let mut next_abs: Option<u64> = None;
        let mut cursor: DateTime = match last_run {
            Some(x) => *x,
            None => t0,
        };
        let ghost c0 = cursor;
        let mut cursor_ms: u64 = self.to_unixtime(&cursor);
        while cursor_ms <= now_ms
            invariant_except_break
                cursor_ms > now_ms ==> next_abs is None,
                final_next_ts(*schedule, c0, now_ms as int) == final_next_ts(
                    *schedule,
                    cursor,
                    now_ms as int,
                ),
            invariant
                self.wf(),
                dt_valid(*now),
                dt_valid(schedule.start),
                schedule.end matches Some(e) ==> dt_valid(e),
                dt_valid(cursor),
                now_ms == dt_ts(*now),
                cursor_ms == dt_ts(cursor),
                dt_ts(*now) >= dt_ts(schedule.start) ==> rules_ok(*now, *schedule),
                (dt_ts(*now) >= dt_ts(schedule.start) && schedule.end is None
                    && schedule.items@.len() > 0) ==> some_rule_within_limit(*now, *schedule),
                trigger_seq(*schedule, c0, now_ms as int) == triggers@.map_values(|v: u64| v as int)
                    + trigger_seq(*schedule, cursor, now_ms as int),
            ensures
                triggers@.map_values(|v: u64| v as int) == trigger_seq(
                    *schedule,
                    c0,
                    now_ms as int,
                ),
                match final_next_ts(*schedule, c0, now_ms as int) {
                    None => next_abs is None,
                    Some(t) => next_abs matches Some(v) && v == t && t > now_ms,
                },
            decreases now_ms - cursor_ms,
        {
            proof {
                if dt_ts(cursor) >= dt_ts(schedule.start) && !schedule_expired(
                    cursor,
                    *schedule,
                ) {
                    lemma_rules_ok_mono(cursor, *now, *schedule);
                }
            }
            let ghost pre_cursor = cursor;
            match self.next_occurrence_ms(&cursor, schedule) {
                None => {
                    next_abs = None;
                    break ;
                },
                Some(delta) => {
                    proof {
                        assert(next_delta(pre_cursor, *schedule) == Some(delta as int));
                        lemma_next_delta_in_range(pre_cursor, *now, *schedule, delta as int);
                        lemma_year_start_bounds(MAX_YEAR + 1);
                    }
                    let trigger_ms: u64 = cursor_ms + delta;
                    next_abs = Some(trigger_ms);
                    cursor = self.from_unixtime(trigger_ms);
                    cursor_ms = trigger_ms;
                    if trigger_ms <= now_ms {
                        triggers.push(trigger_ms);
                        proof {
                            assert(triggers@.map_values(|v: u64| v as int)
                                =~= triggers@.drop_last().map_values(|v: u64| v as int) + seq![
                                trigger_ms as int,
                            ]);
                            assert(trigger_seq(*schedule, pre_cursor, now_ms as int) == seq![
                                trigger_ms as int,
                            ] + trigger_seq(*schedule, cursor, now_ms as int));
                        }
                    } else {
                        break ;
                    }
                },
            }
        }
        let next_trigger_delay: Option<u64> = match next_abs {
            None => None,
            Some(t) => Some(t - now_ms),
        };
        (triggers, next_trigger_delay)
    }

    /// Validates `DateTime` for correctness of fields, checking in respect to
    /// leap years.
    pub fn validate(&self, dt: &DateTime) -> (r: ValidationResult)
        requires
            self.wf(),
        ensures
            r == validation_of(*dt),
            (r == ValidationResult::Valid) <==> dt_valid(*dt),
    {
        // scope check
        if dt.year < EPOCH_YEAR || dt.year > MAX_YEAR {
            return ValidationResult::OutOfScope;
        }
        // static field check
        if dt.month < 1 || dt.month > 12 || dt.day < 1 || dt.day > 31 || dt.hour >= 24
            || dt.minute >= 60 || dt.second >= 60 || dt.ms >= 1000 {
            return ValidationResult::Invalid;
        }
        // leap year check
        let leap = leap_year(dt.year);
        if (dt.day as u64) > days_in_month_of(leap, dt.month) {
            return ValidationResult::Invalid;
        }
        ValidationResult::Valid
    }

    /// Validates a `Schedule` whose `start` and `end` are already valid
    /// date/times: every rule's multiplier must be at least 1, and an `end`,
    /// when present, must not precede `start` (compared through the raw
    /// timestamp projection).
    pub fn validate_schedule(&self, schedule: &Schedule) -> (r: Result<(), ValidationError>)
        requires
            self.wf(),
            dt_valid(schedule.start),
            schedule.end matches Some(e) ==> dt_valid(e),
        ensures
            r is Ok <==> ((forall|i: int|
                0 <= i < schedule.items@.len() ==> (#[trigger] schedule.items@[i]).1 >= 1) && (
            schedule.end matches Some(e) ==> dt_ts(e) >= dt_ts(schedule.start))),
            r is Err ==> r == Err::<(), ValidationError>(ValidationError::Invalid),
    {
        let mut idx: usize = 0;
        while idx < schedule.items.len()
            invariant
                idx <= schedule.items@.len(),
                forall|i: int| 0 <= i < idx ==> (#[trigger] schedule.items@[i]).1 >= 1,
            decreases schedule.items@.len() - idx,
        {
            if schedule.items[idx].1 == 0 {
                return Err(ValidationError::Invalid);
            }
            idx = idx + 1;
        }
        match &schedule.end {
            Some(end_dt) => {
                if self.to_unixtime(end_dt) < self.to_unixtime(&schedule.start) {
                    return Err(ValidationError::Invalid);
                }
            },
            None => {},
        }
        Ok(())
    }
}

/// Leap-day correctness: February 29 with any in-range time of day is a
/// valid date/time exactly in leap years, and is rejected as `Invalid` in
/// all other years of the supported range.
pub proof fn lemma_leap_day(dt: DateTime)
    requires
        EPOCH_YEAR <= dt.year <= MAX_YEAR,
        dt.month == 2,
        dt.day == 29,
        dt.hour < 24,
        dt.minute < 60,
        dt.second < 60,
        dt.ms < 1000,
    ensures
        validation_of(dt) == (if is_leap_year(dt.year as int) {
            ValidationResult::Valid
        } else {
            ValidationResult::Invalid
        }),
{
}

/// Builds the cumulative month-offset table (13 entries, in milliseconds) for
/// a year with leap status `leap`.
fn month_offset_table(leap: bool) -> (v: Vec<u64>)
    ensures
        v@.len() == 13,
        forall|i: int| 0 <= i < 13 ==> #[trigger] v@[i] == month_days_cum(leap, i + 1) * MS_IN_DAY,
{
    let mut v: Vec<u64> = Vec::new();
    v.push(0);
    let mut month: u8 = 1;
    let mut acc: u64 = 0;
    while month <= 12
        invariant
            1 <= month <= 13,
            v@.len() == month as int,
            forall|i: int|
                0 <= i < v@.len() ==> #[trigger] v@[i] == month_days_cum(leap, i + 1) * MS_IN_DAY,
            acc == month_days_cum(leap, month as int) * MS_IN_DAY,
        decreases 13 - month,
    {
        proof {
            lemma_month_cum_bounds(leap, month as int);
        }
        acc = acc + days_in_month_of(leap, month) * MS_IN_DAY;
        v.push(acc);
        month = month + 1;
    }
    v
}

} // verus!

