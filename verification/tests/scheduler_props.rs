use chrono::Datelike;
use chrono::NaiveDateTime;
use chrono::Timelike;
use chrono_light::calendar::Calendar;
use chrono_light::types::Frequency;
use chrono_light::types::Schedule;
use chrono_light::types::MS_IN_DAY;
use quickcheck::QuickCheck;

const PROPS_TESTS: u64 = 500;  // 5 x the norm

#[allow(deprecated)]
fn get_exact_months(start_ms: u64, now_ms: u64, next_occurrence: u64) -> Option<u32> {
    let start = NaiveDateTime::from_timestamp(start_ms as i64 / 1000, ((start_ms % 1000) * 1_000_000) as u32);
    let end_ms = now_ms + next_occurrence;
    let end = NaiveDateTime::from_timestamp(end_ms as i64 / 1000, ((end_ms % 1000) * 1_000_000) as u32);
    if start.day() == end.day() && start.hour() == end.hour() && start.minute() == end.minute()
        && start.second() == end.second()
        && start.timestamp_subsec_millis() == end.timestamp_subsec_millis()
    {
        Some(((end.year() - start.year()) * 12 + end.month() as i32 - start.month() as i32) as u32)
    } else {
        None
    }
}

fn validate_scheduler_after_start(start_ms: u64, delta_ms: u64, freq: u8, freq_multiplier: u8) -> bool {
    let c = Calendar::create();

    let freq = match freq % 8 {
        0 => Frequency::Year,
        1 => Frequency::Month,
        2 => Frequency::Week,
        3 => Frequency::Day,
        4 => Frequency::Hour,
        5 => Frequency::Minute,
        6 => Frequency::Second,
        _ => Frequency::Ms,
    };
    let freq_multiplier: u32 = freq_multiplier as u32 + 1;  // start at 1
    let mut start_ms = start_ms % 100 * 365 * 24 * 60 * 60 * 1000;
    let mut start = c.from_unixtime(start_ms);
    if freq == Frequency::Month {
        start.day = start.day.min(28);
        start_ms = c.to_unixtime(&start);
    }
    let delta_ms = delta_ms % 10 * 365 * 24 * 60 * 60 * 1000 + 1;
    let now_ms = start_ms + delta_ms;

    let now = c.from_unixtime(now_ms);
    let next_occurrence = c
        .next_occurrence_ms(
            &now,
            &Schedule { start: start.clone(), items: vec![(freq, freq_multiplier)], end: None },
        )
        .unwrap();

    match freq {
        Frequency::Year => {
            if let Some(months) = get_exact_months(start_ms, now_ms, next_occurrence) {
                months % (12 * freq_multiplier as u32) == 0 && next_occurrence <= freq_multiplier as u64 * MS_IN_DAY * 366
            } else {
                false
            }
        },
        Frequency::Month => {
            if let Some(months) = get_exact_months(start_ms, now_ms, next_occurrence) {
                months % freq_multiplier as u32 == 0 && next_occurrence <= freq_multiplier as u64 * MS_IN_DAY * 31
            } else {
                false
            }
        },
        _ => {
            let end_ms = now_ms + next_occurrence;
            let freq_ms = match freq {
                Frequency::Week => 7 * MS_IN_DAY,
                Frequency::Day => MS_IN_DAY,
                Frequency::Hour => 60 * 60 * 1000,
                Frequency::Minute => 60 * 1000,
                Frequency::Second => 1000,
                _ => 1,
            } * freq_multiplier as u64;
            (end_ms - start_ms) % freq_ms == 0 && next_occurrence <= freq_ms
        },
    }
}

#[test]
fn test_validate_scheduler_vs_chrono() {
    QuickCheck::new().tests(PROPS_TESTS).max_tests(PROPS_TESTS * 100).quickcheck(
        validate_scheduler_after_start as fn(u64, u64, u8, u8) -> bool,
    )
}
