//! Specification of the schedule recurrence engine: per-rule next-occurrence
//! deltas, their minimum, and the lemmas that justify the executable engine
//! in [`crate::calendar`].
use vstd::prelude::*;
use crate::calendar::dt_lex_lt;
use crate::calendar::dt_ts;
use crate::calendar::dt_valid;
use crate::calendar::is_leap_year;
use crate::calendar::lemma_dt_ts_valid_range;
use crate::calendar::lemma_month_cum_13;
use crate::calendar::lemma_ts_strict_mono;
use crate::calendar::lemma_year_start_range;
use crate::calendar::month_days_cum;
use crate::calendar::month_len;
use crate::calendar::ts_limit;
use crate::calendar::year_start_ms;
use crate::types::DateTime;
use crate::types::Frequency;
use crate::types::Schedule;
use crate::types::EPOCH_YEAR;
use crate::types::MAX_YEAR;
use crate::types::MS_IN_DAY;
use crate::utils::ceil_div_spec;

verus! {

// ------------------------------------------------------------------
// Rounding to rule multiples
// ------------------------------------------------------------------

/// `x` rounded up to the next multiple of `m`.
pub open spec fn round_up_mul(x: int, m: int) -> int {
    ceil_div_spec(x, m) * m
}

/// Rounding up to a multiple stays within one multiple above the input.
pub(crate) proof fn lemma_round_up_mul_props(x: int, m: int)
    requires
        m >= 1,
    ensures
        x <= round_up_mul(x, m) < x + m,
{
    vstd::arithmetic::div_mod::lemma_fundamental_div_mod(x, m);
    let q = x / m;
    let r = x % m;
    assert(q * m == m * q && (q + 1) * m == m * q + m) by (nonlinear_arith);
}

/// Rounding up to a multiple is monotone in the input.
proof fn lemma_round_up_mul_mono(x1: int, x2: int, m: int)
    requires
        x1 <= x2,
        m >= 1,
    ensures
        round_up_mul(x1, m) <= round_up_mul(x2, m),
{
    vstd::arithmetic::div_mod::lemma_fundamental_div_mod(x1, m);
    vstd::arithmetic::div_mod::lemma_fundamental_div_mod(x2, m);
    vstd::arithmetic::div_mod::lemma_div_is_ordered(x1, x2, m);
    let c1 = ceil_div_spec(x1, m);
    let c2 = ceil_div_spec(x2, m);
    if x1 / m == x2 / m {
        assert(m * (x1 / m) == m * (x2 / m));
        assert(x1 % m <= x2 % m);
        assert(c1 <= c2);
    } else {
        assert(c1 <= x1 / m + 1 <= x2 / m <= c2);
    }
    vstd::arithmetic::mul::lemma_mul_inequality(c1, c2, m);
}

// ------------------------------------------------------------------
// Absolute months
// ------------------------------------------------------------------

/// Months elapsed from the calendar origin: year times 12 plus the 0-based
/// month.
pub open spec fn am_of(dt: DateTime) -> int {
    dt.year * 12 + dt.month - 1
}

/// Timestamp of the first instant of absolute month `am`.
pub open spec fn month_start_ts(am: int) -> int {
    year_start_ms(am / 12) + month_days_cum(is_leap_year(am / 12), am % 12 + 1) * MS_IN_DAY
}

/// Quotient and remainder of an absolute month built as `y * 12 + r`.
proof fn lemma_am_parts(y: int, r: int)
    requires
        0 <= r < 12,
    ensures
        (y * 12 + r) / 12 == y,
        (y * 12 + r) % 12 == r,
{
    vstd::arithmetic::div_mod::lemma_fundamental_div_mod_converse(y * 12 + r, 12, y, r);
}

/// Stepping one absolute month forward advances the month start by exactly
/// that month's length.
proof fn lemma_month_start_step(am: int)
    requires
        EPOCH_YEAR * 12 <= am,
    ensures
        month_start_ts(am + 1) == month_start_ts(am) + month_len(
            is_leap_year(am / 12),
            am % 12 + 1,
        ) * MS_IN_DAY,
{
    vstd::arithmetic::div_mod::lemma_fundamental_div_mod(am, 12);
    let q = am / 12;
    let r = am % 12;
    assert(q >= EPOCH_YEAR) by {
        vstd::arithmetic::div_mod::lemma_div_is_ordered(EPOCH_YEAR * 12, am, 12);
        lemma_am_parts(EPOCH_YEAR as int, 0);
    }
    assert(am == q * 12 + r) by (nonlinear_arith)
        requires
            am == 12 * q + r,
    ;
    let leap = is_leap_year(q);
    if r < 11 {
        lemma_am_parts(q, r + 1);
        assert((am + 1) / 12 == q && (am + 1) % 12 == r + 2 - 1);
        assert(month_days_cum(leap, r + 2) == month_days_cum(leap, r + 1) + month_len(
            leap,
            r + 1,
        ));
    } else {
        lemma_am_parts(q + 1, 0);
        assert(am + 1 == (q + 1) * 12 + 0) by (nonlinear_arith)
            requires
                am == q * 12 + 11,
        ;
        assert((am + 1) / 12 == q + 1 && (am + 1) % 12 == 0);
        lemma_month_cum_13(leap);
        assert(month_days_cum(leap, 13) == month_days_cum(leap, 12) + month_len(leap, 12));
        assert(year_start_ms(q + 1) == year_start_ms(q) + (if leap {
            366int
        } else {
            365int
        }) * MS_IN_DAY);
    }
}

/// Month starts are increasing, by at least 28 days per month stepped over.
proof fn lemma_month_start_mono(am1: int, am2: int)
    requires
        EPOCH_YEAR * 12 <= am1 <= am2,
    ensures
        month_start_ts(am1) <= month_start_ts(am2),
        am1 < am2 ==> month_start_ts(am1) + 28 * MS_IN_DAY <= month_start_ts(am2),
    decreases am2 - am1,
{
    if am1 < am2 {
        lemma_month_start_mono(am1, am2 - 1);
        lemma_month_start_step(am2 - 1);
    }
}

/// A valid date/time lies within its own absolute month: its timestamp is the
/// month start plus its day-time, and stays below the next month start.
proof fn lemma_dt_in_month(dt: DateTime)
    requires
        dt_valid(dt),
    ensures
        dt_ts(dt) == month_start_ts(am_of(dt)) + dt.day_time_ms(),
        0 <= dt.day_time_ms(),
        dt_ts(dt) < month_start_ts(am_of(dt) + 1),
{
    lemma_am_parts(dt.year as int, dt.month - 1);
    lemma_month_start_step(am_of(dt));
}

// ------------------------------------------------------------------
// Per-rule deltas
// ------------------------------------------------------------------

/// 1 when `now`'s time-of-month has reached or passed `start`'s time-of-month,
/// else 0: whether the current period's anchor position is already behind.
pub open spec fn anchor_passed(now: DateTime, start: DateTime) -> int {
    if now.day_time_ms() >= start.day_time_ms() {
        1int
    } else {
        0int
    }
}

/// Signed month distance from `start` to `now`, counting a month as crossed
/// once `now`'s time-of-month reaches `start`'s (within the same year).
pub open spec fn month_count_delta(now: DateTime, start: DateTime) -> int {
    now.month - start.month + anchor_passed(now, start)
}

/// Whole years elapsed from `start` to `now`, counting a year as crossed once
/// `now` reaches or passes `start`'s time-of-year.
pub open spec fn year_count_delta(now: DateTime, start: DateTime) -> int {
    now.year - start.year + (if month_count_delta(now, start) > 0 {
        1int
    } else {
        0int
    })
}

/// Calendar months elapsed from `start` to `now`, in the same crossing
/// convention.
pub open spec fn total_month_delta(now: DateTime, start: DateTime) -> int {
    (now.year - start.year) * 12 + month_count_delta(now, start)
}

/// Timestamp of the next `Year`-rule occurrence: `start` shifted forward by
/// the elapsed year count rounded up to the rule's multiple, all other fields
/// copied verbatim (a Feb 29 anchor rolls forward mechanically in a non-leap
/// target year).
pub open spec fn year_rule_next_ts(now: DateTime, start: DateTime, mult: int) -> int {
    let yc = round_up_mul(year_count_delta(now, start), mult);
    month_start_ts(am_of(start) + 12 * yc) + start.day_time_ms()
}

/// Timestamp of the next `Month`-rule occurrence: `start` shifted forward by
/// the elapsed month count rounded up to the rule's multiple, day and time
/// copied verbatim.
pub open spec fn month_rule_next_ts(now: DateTime, start: DateTime, mult: int) -> int {
    let mc = round_up_mul(total_month_delta(now, start), mult);
    month_start_ts(am_of(start) + mc) + start.day_time_ms()
}

/// Delta to the next occurrence of a fixed-duration rule with period
/// `unit * mult`, anchored at `start_ts`. On an exact period boundary the
/// occurrence counts as already fired and the full period is reported.
pub open spec fn fixed_rule_delta(now_ts: int, start_ts: int, unit: int, mult: int) -> int {
    let period = unit * mult;
    let elapsed = (now_ts - start_ts) % period;
    if elapsed == 0 {
        period
    } else {
        period - elapsed
    }
}

/// Delta in ms from `now` to the next occurrence of one rule.
pub open spec fn rule_delta(now: DateTime, start: DateTime, freq: Frequency, mult: int) -> int {
    match freq {
        Frequency::Year => year_rule_next_ts(now, start, mult) - dt_ts(now),
        Frequency::Month => month_rule_next_ts(now, start, mult) - dt_ts(now),
        _ => fixed_rule_delta(dt_ts(now), dt_ts(start), freq.unit_ms(), mult),
    }
}

/// The smallest delta over a non-empty rule sequence: the earliest rule wins.
pub open spec fn min_rule_delta(now: DateTime, start: DateTime, items: Seq<(Frequency, u32)>) -> int
    decreases items.len(),
{
    if items.len() <= 1 {
        rule_delta(now, start, items[0].0, items[0].1 as int)
    } else {
        let rest = min_rule_delta(now, start, items.drop_last());
        let last = rule_delta(now, start, items.last().0, items.last().1 as int);
        if rest <= last {
            rest
        } else {
            last
        }
    }
}

// ------------------------------------------------------------------
// Ordering lemmas
// ------------------------------------------------------------------

/// Timestamp order of valid date/times reflects field order: a value with
/// the smaller timestamp has the smaller year, the smaller absolute month,
/// and — within one month — the smaller day-time.
pub(crate) proof fn lemma_ts_le_field_order(a: DateTime, b: DateTime)
    requires
        dt_valid(a),
        dt_valid(b),
        dt_ts(a) <= dt_ts(b),
    ensures
        a.year <= b.year,
        am_of(a) <= am_of(b),
        am_of(a) == am_of(b) ==> a.day_time_ms() <= b.day_time_ms(),
{
    if dt_lex_lt(b, a) {
        lemma_ts_strict_mono(b, a);
    }
}

/// The elapsed-count measures are non-negative once `now` has reached
/// `start`.
pub(crate) proof fn lemma_counts_nonneg(now: DateTime, start: DateTime)
    requires
        dt_valid(now),
        dt_valid(start),
        dt_ts(start) <= dt_ts(now),
    ensures
        start.year <= now.year,
        0 <= year_count_delta(now, start) <= now.year - start.year + 1,
        0 <= total_month_delta(now, start) <= am_of(now) - am_of(start) + 1,
{
    lemma_ts_le_field_order(start, now);
}

/// The elapsed-count measures are monotone in the query instant: an earlier
/// valid `c` never counts more elapsed years or months than a later `now`.
pub(crate) proof fn lemma_counts_mono(c: DateTime, now: DateTime, start: DateTime)
    requires
        dt_valid(c),
        dt_valid(now),
        dt_valid(start),
        dt_ts(c) <= dt_ts(now),
    ensures
        year_count_delta(c, start) <= year_count_delta(now, start),
        total_month_delta(c, start) <= total_month_delta(now, start),
{
    lemma_ts_le_field_order(c, now);
}

// ------------------------------------------------------------------
// Candidate-occurrence lemmas
// ------------------------------------------------------------------

/// Any candidate anchored at `start`'s time-of-month, placed in an absolute
/// month at least `am_of(now) + anchor_passed(now, start)`, lies strictly
/// after `now`.
proof fn lemma_cand_after_now(now: DateTime, start: DateTime, cand_am: int)
    requires
        dt_valid(now),
        dt_valid(start),
        cand_am >= am_of(now) + anchor_passed(now, start),
    ensures
        month_start_ts(cand_am) + start.day_time_ms() > dt_ts(now),
{
    lemma_dt_in_month(now);
    if anchor_passed(now, start) == 1 {
        lemma_month_start_mono(am_of(now) + 1, cand_am);
    } else {
        lemma_month_start_mono(am_of(now), cand_am);
    }
}

/// A candidate within the supported years stays below the timestamp limit:
/// its month start plus any day-time below 31 days is inside its own year.
proof fn lemma_cand_below_limit(cand_am: int, day_time: int)
    requires
        EPOCH_YEAR <= cand_am / 12 <= MAX_YEAR,
        0 <= cand_am % 12,
        0 <= day_time < 31 * MS_IN_DAY,
    ensures
        0 <= month_start_ts(cand_am) + day_time < ts_limit(),
{
    let cy = cand_am / 12;
    let cm = cand_am % 12 + 1;
    let leap = is_leap_year(cy);
    assert(cand_am % 12 < 12) by {
        vstd::arithmetic::div_mod::lemma_mod_pos_bound(cand_am, 12);
    }
    crate::calendar::lemma_month_cum_mono(leap, cm, 12);
    crate::calendar::lemma_month_cum_bounds(leap, cm);
    lemma_month_cum_13(leap);
    assert(month_days_cum(leap, 13) == month_days_cum(leap, 12) + month_len(leap, 12));
    lemma_year_start_range(cy + 1, MAX_YEAR + 1);
    crate::calendar::lemma_year_start_bounds(cy);
}

/// The `Year` rule's candidate lies strictly after `now`; it equals `start`
/// shifted by the rounded year count, and stays within the calendar whenever
/// that shifted year does.
pub(crate) proof fn lemma_year_rule_after_now(now: DateTime, start: DateTime, mult: int)
    requires
        dt_valid(now),
        dt_valid(start),
        dt_ts(start) <= dt_ts(now),
        mult >= 1,
    ensures
        year_rule_next_ts(now, start, mult) > dt_ts(now),
        start.year + round_up_mul(year_count_delta(now, start), mult) <= MAX_YEAR
            ==> year_rule_next_ts(now, start, mult) < ts_limit(),
        year_rule_next_ts(now, start, mult) == crate::calendar::ymd_ts(
            start.year + round_up_mul(year_count_delta(now, start), mult),
            start.month as int,
            start.day_time_ms(),
        ),
{
    let ycd = year_count_delta(now, start);
    let yc = round_up_mul(ycd, mult);
    lemma_round_up_mul_props(ycd, mult);
    lemma_counts_nonneg(now, start);
    let cand_am = am_of(start) + 12 * yc;
    assert(cand_am >= am_of(now) + anchor_passed(now, start)) by {
        assert(am_of(start) + 12 * ycd == 12 * now.year + start.month - 1 + 12 * (
        if month_count_delta(now, start) > 0 {
            1int
        } else {
            0int
        }));
    }
    lemma_cand_after_now(now, start, cand_am);
    lemma_am_parts(start.year + yc, start.month - 1);
    assert(cand_am == (start.year + yc) * 12 + (start.month - 1));
    if start.year + yc <= MAX_YEAR {
        lemma_cand_below_limit(cand_am, start.day_time_ms());
    }
}

/// The `Month` rule's candidate lies strictly after `now`; it equals `start`
/// shifted by the rounded month count (carrying year overflow), and stays
/// within the calendar whenever the carried year does.
pub(crate) proof fn lemma_month_rule_after_now(now: DateTime, start: DateTime, mult: int)
    requires
        dt_valid(now),
        dt_valid(start),
        dt_ts(start) <= dt_ts(now),
        mult >= 1,
    ensures
        month_rule_next_ts(now, start, mult) > dt_ts(now),
        start.year + (start.month + round_up_mul(total_month_delta(now, start), mult) - 1) / 12
            <= MAX_YEAR ==> month_rule_next_ts(now, start, mult) < ts_limit(),
        month_rule_next_ts(now, start, mult) == crate::calendar::ymd_ts(
            start.year + (start.month + round_up_mul(total_month_delta(now, start), mult) - 1)
                / 12,
            (start.month + round_up_mul(total_month_delta(now, start), mult) - 1) % 12 + 1,
            start.day_time_ms(),
        ),
{
    let tmd = total_month_delta(now, start);
    let mc = round_up_mul(tmd, mult);
    lemma_round_up_mul_props(tmd, mult);
    lemma_counts_nonneg(now, start);
    let cand_am = am_of(start) + mc;
    lemma_cand_after_now(now, start, cand_am);
    let q = (start.month + mc - 1) / 12;
    let r = (start.month + mc - 1) % 12;
    assert(start.month + mc - 1 == q * 12 + r && 0 <= r < 12) by {
        vstd::arithmetic::div_mod::lemma_fundamental_div_mod(start.month + mc - 1, 12);
        vstd::arithmetic::div_mod::lemma_mod_pos_bound(start.month + mc - 1, 12);
        assert(q * 12 == 12 * q) by (nonlinear_arith);
    }
    lemma_am_parts(start.year + q, r);
    assert(cand_am == (start.year + q) * 12 + r);
    assert(cand_am / 12 == start.year + q && cand_am % 12 == r);
    if start.year + q <= MAX_YEAR {
        lemma_cand_below_limit(cand_am, start.day_time_ms());
    }
}

/// A fixed-duration rule's delta is positive and at most one period.
pub(crate) proof fn lemma_fixed_rule_delta_props(now_ts: int, start_ts: int, unit: int, mult: int)
    requires
        start_ts <= now_ts,
        unit >= 1,
        mult >= 1,
    ensures
        1 <= fixed_rule_delta(now_ts, start_ts, unit, mult) <= unit * mult,
{
    let period = unit * mult;
    assert(unit * mult >= 1) by (nonlinear_arith)
        requires
            unit >= 1,
            mult >= 1,
    ;
    vstd::arithmetic::div_mod::lemma_mod_pos_bound(now_ts - start_ts, period);
}

/// Every rule that the engine can evaluate yields a positive delta: the next
/// occurrence lies strictly after `now`.
pub(crate) proof fn lemma_rule_delta_pos(now: DateTime, start: DateTime, freq: Frequency, mult: int)
    requires
        dt_valid(now),
        dt_valid(start),
        dt_ts(start) <= dt_ts(now),
        mult >= 1,
    ensures
        rule_delta(now, start, freq, mult) >= 1,
{
    match freq {
        Frequency::Year => lemma_year_rule_after_now(now, start, mult),
        Frequency::Month => lemma_month_rule_after_now(now, start, mult),
        _ => lemma_fixed_rule_delta_props(dt_ts(now), dt_ts(start), freq.unit_ms(), mult),
    }
}

// ------------------------------------------------------------------
// The engine's answer, and the inputs it is defined on
// ------------------------------------------------------------------

/// A rule the engine can evaluate at `now` without leaving the calendar:
/// the multiplier is positive, and a calendar-relative rule's candidate
/// occurrence stays within the supported year range.
pub open spec fn rule_ok(now: DateTime, start: DateTime, freq: Frequency, mult: int) -> bool {
    &&& mult >= 1
    &&& (freq == Frequency::Year ==> start.year + round_up_mul(year_count_delta(now, start), mult)
        <= MAX_YEAR)
    &&& (freq == Frequency::Month ==> start.year + (start.month + round_up_mul(
        total_month_delta(now, start),
        mult,
    ) - 1) / 12 <= MAX_YEAR)
}

/// Every rule of the schedule can be evaluated at `now`.
pub open spec fn rules_ok(now: DateTime, s: Schedule) -> bool {
    forall|i: int|
        0 <= i < s.items@.len() ==> rule_ok(
            now,
            s.start,
            (#[trigger] s.items@[i]).0,
            s.items@[i].1 as int,
        )
}

/// Earliest-rule selection: over a non-empty rule set, the combined delta is
/// the minimum of the rules' individually computed deltas — it is at most
/// each of them, and equal to one of them.
pub proof fn lemma_min_rule_delta_props(now: DateTime, start: DateTime, items: Seq<(Frequency, u32)>)
    requires
        items.len() >= 1,
    ensures
        forall|i: int|
            0 <= i < items.len() ==> min_rule_delta(now, start, items) <= rule_delta(
                now,
                start,
                (#[trigger] items[i]).0,
                items[i].1 as int,
            ),
        exists|i: int|
            0 <= i < items.len() && min_rule_delta(now, start, items) == rule_delta(
                now,
                start,
                (#[trigger] items[i]).0,
                items[i].1 as int,
            ),
    decreases items.len(),
{
    let m = min_rule_delta(now, start, items);
    if items.len() == 1 {
        assert(m == rule_delta(now, start, (items[0]).0, items[0].1 as int));
    } else {
        let sub = items.drop_last();
        lemma_min_rule_delta_props(now, start, sub);
        let msub = min_rule_delta(now, start, sub);
        let dlast = rule_delta(now, start, items.last().0, items.last().1 as int);
        assert forall|i: int| 0 <= i < items.len() implies m <= rule_delta(
            now,
            start,
            (#[trigger] items[i]).0,
            items[i].1 as int,
        ) by {
            if i < items.len() - 1 {
                assert(sub[i] == items[i]);
                assert(msub <= rule_delta(now, start, (sub[i]).0, sub[i].1 as int));
            } else {
                assert(items[i] == items.last());
            }
        }
        if msub <= dlast {
            let j = choose|j: int|
                0 <= j < sub.len() && msub == rule_delta(
                    now,
                    start,
                    (#[trigger] sub[j]).0,
                    sub[j].1 as int,
                );
            assert(sub[j] == items[j]);
            assert(0 <= j < items.len() && m == rule_delta(
                now,
                start,
                (items[j]).0,
                items[j].1 as int,
            ));
        } else {
            let j = items.len() - 1;
            assert(items[j] == items.last());
            assert(0 <= j < items.len() && m == rule_delta(
                now,
                start,
                (items[j]).0,
                items[j].1 as int,
            ));
        }
    }
}

/// Whatever the engine may evaluate at a later instant it may evaluate at an
/// earlier one: `rule_ok` is downward closed along the timestamp order.
pub(crate) proof fn lemma_rule_ok_mono(c: DateTime, now: DateTime, start: DateTime, freq: Frequency, mult: int)
    requires
        dt_valid(c),
        dt_valid(now),
        dt_valid(start),
        dt_ts(c) <= dt_ts(now),
        rule_ok(now, start, freq, mult),
    ensures
        rule_ok(c, start, freq, mult),
{
    lemma_counts_mono(c, now, start);
    match freq {
        Frequency::Year => {
            lemma_round_up_mul_mono(
                year_count_delta(c, start),
                year_count_delta(now, start),
                mult,
            );
        },
        Frequency::Month => {
            lemma_round_up_mul_mono(
                total_month_delta(c, start),
                total_month_delta(now, start),
                mult,
            );
            vstd::arithmetic::div_mod::lemma_div_is_ordered(
                start.month + round_up_mul(total_month_delta(c, start), mult) - 1,
                start.month + round_up_mul(total_month_delta(now, start), mult) - 1,
                12,
            );
        },
        _ => {},
    }
}

/// The schedule is expired at `now`: an end is present and lies strictly
/// behind `now`.
pub open spec fn schedule_expired(now: DateTime, s: Schedule) -> bool {
    s.end matches Some(e) && dt_ts(now) > dt_ts(e)
}

/// What `Calendar::next_occurrence_ms` returns: the delta in ms from `now` to
/// the next trigger, or `None` when the schedule yields no future trigger for
/// this query.
pub open spec fn next_delta(now: DateTime, s: Schedule) -> Option<int> {
    if dt_ts(now) < dt_ts(s.start) {
        Some(dt_ts(s.start) - dt_ts(now))
    } else if schedule_expired(now, s) {
        None
    } else if s.items@.len() == 0 {
        None
    } else {
        let d = min_rule_delta(now, s.start, s.items@);
        match s.end {
            Some(e) => if dt_ts(now) + d <= dt_ts(e) {
                Some(d)
            } else {
                None
            },
            None => Some(d),
        }
    }
}

// ------------------------------------------------------------------
// Catch-up enumeration
// ------------------------------------------------------------------

/// The epoch instant as a date/time.
pub open spec fn epoch_dt() -> DateTime {
    DateTime { year: EPOCH_YEAR, month: 1, day: 1, hour: 0, minute: 0, second: 0, ms: 0 }
}

/// A rule whose own next occurrence, queried at `now`, cannot leave the
/// supported timestamp range: calendar-relative rules are bounded through
/// `rule_ok`, a fixed-duration rule through its period.
pub open spec fn rule_within_limit(now: DateTime, freq: Frequency, mult: int) -> bool {
    freq.is_fixed() ==> dt_ts(now) + freq.unit_ms() * mult < ts_limit()
}

/// Some rule of the schedule keeps the combined (earliest) trigger within
/// the supported timestamp range.
pub open spec fn some_rule_within_limit(now: DateTime, s: Schedule) -> bool {
    exists|i: int|
        0 <= i < s.items@.len() && rule_within_limit(
            now,
            (#[trigger] s.items@[i]).0,
            s.items@[i].1 as int,
        )
}

/// The ascending timestamps of every trigger in `(cursor, now]`: repeatedly
/// query the engine at the cursor and advance the cursor to the reported
/// trigger, while that trigger is a representable instant not past `now`.
pub open spec fn trigger_seq(s: Schedule, cursor: DateTime, now_ts: int) -> Seq<int>
    decreases now_ts - dt_ts(cursor),
{
    if dt_ts(cursor) > now_ts {
        Seq::empty()
    } else {
        match next_delta(cursor, s) {
            None => Seq::empty(),
            Some(d) => {
                let t = dt_ts(cursor) + d;
                let c2 = crate::calendar::dt_of_ts(t);
                if t > now_ts {
                    Seq::empty()
                } else if dt_ts(cursor) < t && dt_valid(c2) && dt_ts(c2) == t {
                    seq![t] + trigger_seq(s, c2, now_ts)
                } else {
                    Seq::empty()
                }
            },
        }
    }
}

/// The timestamp of the first trigger strictly past `now` when the catch-up
/// walk from `cursor` reaches one, or `None` when the schedule expires (or
/// the walk cannot start because the cursor is already past `now`).
pub open spec fn final_next_ts(s: Schedule, cursor: DateTime, now_ts: int) -> Option<int>
    decreases now_ts - dt_ts(cursor),
{
    if dt_ts(cursor) > now_ts {
        None
    } else {
        match next_delta(cursor, s) {
            None => None,
            Some(d) => {
                let t = dt_ts(cursor) + d;
                let c2 = crate::calendar::dt_of_ts(t);
                if t > now_ts {
                    Some(t)
                } else if dt_ts(cursor) < t && dt_valid(c2) && dt_ts(c2) == t {
                    final_next_ts(s, c2, now_ts)
                } else {
                    None
                }
            },
        }
    }
}

/// Catch-up enumeration reports its triggers in strictly ascending order,
/// every one of them strictly after the cursor and no later than `now`.
pub proof fn lemma_trigger_seq_ascending(s: Schedule, cursor: DateTime, now_ts: int)
    ensures
        forall|i: int|
            0 <= i < trigger_seq(s, cursor, now_ts).len() ==> dt_ts(cursor) < #[trigger] trigger_seq(
                s,
                cursor,
                now_ts,
            )[i] <= now_ts,
        forall|i: int, j: int|
            0 <= i < j < trigger_seq(s, cursor, now_ts).len() ==> trigger_seq(s, cursor, now_ts)[i]
                < trigger_seq(s, cursor, now_ts)[j],
    decreases now_ts - dt_ts(cursor),
{
    let ts = trigger_seq(s, cursor, now_ts);
    if dt_ts(cursor) <= now_ts {
        match next_delta(cursor, s) {
            None => {},
            Some(d) => {
                let t = dt_ts(cursor) + d;
                let c2 = crate::calendar::dt_of_ts(t);
                if t <= now_ts && dt_ts(cursor) < t && dt_valid(c2) && dt_ts(c2) == t {
                    lemma_trigger_seq_ascending(s, c2, now_ts);
                    let tail = trigger_seq(s, c2, now_ts);
                    assert(ts == seq![t] + tail);
                    assert forall|i: int| 0 <= i < ts.len() implies dt_ts(cursor)
                        < #[trigger] ts[i] <= now_ts by {
                        if i > 0 {
                            assert(ts[i] == tail[i - 1]);
                        }
                    }
                    assert forall|i: int, j: int| 0 <= i < j < ts.len() implies ts[i] < ts[j] by {
                        assert(ts[j] == tail[j - 1]);
                        if i > 0 {
                            assert(ts[i] == tail[i - 1]);
                        }
                    }
                }
            },
        }
    }
}

/// Whatever the engine can evaluate at `now` it can evaluate at any earlier
/// valid cursor.
pub(crate) proof fn lemma_rules_ok_mono(c: DateTime, now: DateTime, s: Schedule)
    requires
        dt_valid(c),
        dt_valid(now),
        dt_valid(s.start),
        dt_ts(c) <= dt_ts(now),
        rules_ok(now, s),
    ensures
        rules_ok(c, s),
{
    assert forall|i: int| 0 <= i < s.items@.len() implies rule_ok(
        c,
        s.start,
        (#[trigger] s.items@[i]).0,
        s.items@[i].1 as int,
    ) by {
        lemma_rule_ok_mono(c, now, s.start, s.items@[i].0, s.items@[i].1 as int);
    }
}

/// A trigger the engine reports during a catch-up walk below `now` stays
/// within the supported timestamp range.
pub(crate) proof fn lemma_next_delta_in_range(cursor: DateTime, now: DateTime, s: Schedule, d: int)
    requires
        dt_valid(cursor),
        dt_valid(now),
        dt_valid(s.start),
        s.end matches Some(e) ==> dt_valid(e),
        dt_ts(cursor) <= dt_ts(now),
        dt_ts(now) >= dt_ts(s.start) ==> rules_ok(now, s),
        (dt_ts(now) >= dt_ts(s.start) && s.end is None && s.items@.len() > 0)
            ==> some_rule_within_limit(now, s),
        next_delta(cursor, s) == Some(d),
    ensures
        dt_ts(cursor) + d < ts_limit(),
{
    if dt_ts(cursor) < dt_ts(s.start) {
        lemma_dt_ts_valid_range(s.start);
    } else {
        match s.end {
            Some(e) => {
                lemma_dt_ts_valid_range(e);
            },
            None => {
                let items = s.items@;
                let i = choose|i: int|
                    0 <= i < items.len() && rule_within_limit(
                        now,
                        (#[trigger] items[i]).0,
                        items[i].1 as int,
                    );
                lemma_min_rule_delta_props(cursor, s.start, items);
                let freq = items[i].0;
                let mult = items[i].1 as int;
                assert(rule_ok(now, s.start, freq, mult));
                lemma_rule_ok_mono(cursor, now, s.start, freq, mult);
                match freq {
                    Frequency::Year => {
                        lemma_year_rule_after_now(cursor, s.start, mult);
                    },
                    Frequency::Month => {
                        lemma_month_rule_after_now(cursor, s.start, mult);
                    },
                    _ => {
                        lemma_fixed_rule_delta_props(
                            dt_ts(cursor),
                            dt_ts(s.start),
                            freq.unit_ms(),
                            mult,
                        );
                    },
                }
            },
        }
    }
}

} // verus!
