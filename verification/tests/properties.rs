use chrono_light::calendar::Calendar;
use chrono_light::types::DateTime;
use chrono_light::types::Frequency;
use chrono_light::types::Schedule;
use chrono_light::types::ValidationError;
use chrono_light::types::ValidationResult;
use chrono_light::utils::ceil_div;

#[test]
fn test_leap_day_rules() {
    let c = Calendar::create();
    let feb29_2020 = DateTime { year: 2020, month: 2, day: 29, hour: 0, minute: 0, second: 0, ms: 0 };
    assert_eq!(ValidationResult::Valid, c.validate(&feb29_2020));
    let feb29_2021 = DateTime { year: 2021, month: 2, day: 29, hour: 0, minute: 0, second: 0, ms: 0 };
    assert_eq!(ValidationResult::Invalid, c.validate(&feb29_2021));
}

#[test]
fn test_timestamp_monotonic() {
    let c = Calendar::create();
    let pairs = [
        (
            DateTime { year: 2021, month: 12, day: 31, hour: 23, minute: 59, second: 59, ms: 999 },
            DateTime { year: 2022, month: 1, day: 1, hour: 0, minute: 0, second: 0, ms: 0 },
        ),
        (
            DateTime { year: 2024, month: 2, day: 29, hour: 0, minute: 0, second: 0, ms: 0 },
            DateTime { year: 2024, month: 3, day: 1, hour: 0, minute: 0, second: 0, ms: 0 },
        ),
        (
            DateTime { year: 2000, month: 6, day: 15, hour: 10, minute: 30, second: 0, ms: 0 },
            DateTime { year: 2000, month: 6, day: 15, hour: 10, minute: 30, second: 0, ms: 1 },
        ),
    ];
    for (a, b) in pairs {
        assert!(c.to_unixtime(&a) < c.to_unixtime(&b));
    }
}

#[test]
fn test_normalization_on_overflow() {
    let c = Calendar::create();
    // 2022 is not a leap year: Feb 29 rolls forward to Mar 1
    let illegal = DateTime { year: 2022, month: 2, day: 29, hour: 0, minute: 0, second: 0, ms: 0 };
    let normalized = c.from_unixtime(c.to_unixtime(&illegal));
    assert_eq!(
        DateTime { year: 2022, month: 3, day: 1, hour: 0, minute: 0, second: 0, ms: 0 },
        normalized
    );
}

#[test]
fn test_schedule_start_gating() {
    let c = Calendar::create();
    let start = DateTime { year: 2022, month: 4, day: 25, hour: 2, minute: 0, second: 0, ms: 0 };
    let now = DateTime { year: 2022, month: 4, day: 25, hour: 1, minute: 0, second: 0, ms: 0 };
    // one hour before start: the delta reaches exactly start, whatever the rules
    for items in [
        vec![(Frequency::Ms, 1)],
        vec![(Frequency::Year, 7)],
        vec![(Frequency::Week, 2), (Frequency::Second, 30)],
    ] {
        let next = c.next_occurrence_ms(&now, &Schedule { start: start.clone(), items, end: None });
        assert_eq!(Some(60 * 60 * 1000), next);
    }
}

#[test]
fn test_end_boundary_exclusion() {
    let c = Calendar::create();
    let start = DateTime { year: 2022, month: 4, day: 25, hour: 2, minute: 0, second: 0, ms: 0 };
    let end = DateTime { year: 2022, month: 4, day: 25, hour: 6, minute: 0, second: 0, ms: 0 };
    let now = DateTime { year: 2022, month: 4, day: 25, hour: 5, minute: 30, second: 0, ms: 0 };
    // earliest trigger (08:00, from the Hour rule) lands strictly after end (06:00)
    let next = c.next_occurrence_ms(&now, &Schedule {
        start: start.clone(),
        items: vec![(Frequency::Hour, 3), (Frequency::Day, 2)],
        end: Some(end.clone()),
    });
    assert_eq!(None, next);
    // same query without the end reports the Hour rule's trigger
    let next = c.next_occurrence_ms(&now, &Schedule {
        start: start.clone(),
        items: vec![(Frequency::Hour, 3), (Frequency::Day, 2)],
        end: None,
    });
    assert_eq!(Some(2 * 60 * 60 * 1000 + 30 * 60 * 1000), next);
}

#[test]
fn test_exact_boundary_reports_next_period() {
    let c = Calendar::create();
    let start = DateTime { year: 2022, month: 4, day: 25, hour: 2, minute: 0, second: 0, ms: 0 };
    // now exactly on a period boundary: the occurrence counts as already
    // fired and the full period is reported
    let next = c.next_occurrence_ms(&start, &Schedule {
        start: start.clone(),
        items: vec![(Frequency::Hour, 3)],
        end: None,
    });
    assert_eq!(Some(3 * 60 * 60 * 1000), next);
}

#[test]
fn test_enumerator_catch_up() {
    let c = Calendar::create();
    let day_start: u64 = 1650844800000;  // 2022-04-25 00:00:00.000
    let hour: u64 = 60 * 60 * 1000;
    let start = DateTime { year: 2022, month: 4, day: 25, hour: 2, minute: 0, second: 0, ms: 0 };
    let end = DateTime { year: 2022, month: 4, day: 25, hour: 23, minute: 0, second: 0, ms: 0 };
    let schedule = Schedule {
        start: start.clone(),
        items: vec![(Frequency::Hour, 3)],
        end: Some(end.clone()),
    };

    // no prior run, now at hour 6: triggers at hours 2 and 5, next in 2 hours
    let now = DateTime { year: 2022, month: 4, day: 25, hour: 6, minute: 0, second: 0, ms: 0 };
    let (triggers, next) = c.next_occurrence_ms_with_past_triggers(None, &now, &schedule);
    assert_eq!(vec![day_start + 2 * hour, day_start + 5 * hour], triggers);
    assert_eq!(Some(2 * hour), next);

    // advancing now past the end (next day 00:00): every trigger up to the
    // end boundary at hour 23 is reported, and no future delta remains
    let now = DateTime { year: 2022, month: 4, day: 26, hour: 0, minute: 0, second: 0, ms: 0 };
    let (triggers, next) = c.next_occurrence_ms_with_past_triggers(None, &now, &schedule);
    let expected: Vec<u64> = (0..8).map(|i| day_start + (2 + 3 * i) * hour).collect();
    assert_eq!(expected, triggers);
    assert_eq!(None, next);

    // resuming from a known last run only reports what follows it
    let last_run = DateTime { year: 2022, month: 4, day: 25, hour: 5, minute: 0, second: 0, ms: 0 };
    let now = DateTime { year: 2022, month: 4, day: 25, hour: 9, minute: 30, second: 0, ms: 0 };
    let (triggers, next) = c.next_occurrence_ms_with_past_triggers(Some(&last_run), &now, &schedule);
    assert_eq!(vec![day_start + 8 * hour], triggers);
    assert_eq!(Some(90 * 60 * 1000), next);
}

#[test]
fn test_validate_schedule() {
    let c = Calendar::create();
    let start = DateTime { year: 2022, month: 4, day: 25, hour: 2, minute: 0, second: 0, ms: 0 };
    let end = DateTime { year: 2022, month: 4, day: 25, hour: 23, minute: 0, second: 0, ms: 0 };

    let ok = Schedule {
        start: start.clone(),
        items: vec![(Frequency::Hour, 3), (Frequency::Month, 1)],
        end: Some(end.clone()),
    };
    assert_eq!(Ok(()), c.validate_schedule(&ok));

    let zero_multiplier = Schedule {
        start: start.clone(),
        items: vec![(Frequency::Hour, 0)],
        end: None,
    };
    assert_eq!(Err(ValidationError::Invalid), c.validate_schedule(&zero_multiplier));

    let end_before_start = Schedule {
        start: end.clone(),
        items: vec![(Frequency::Hour, 3)],
        end: Some(start.clone()),
    };
    assert_eq!(Err(ValidationError::Invalid), c.validate_schedule(&end_before_start));
}

#[test]
fn test_ms_between() {
    let c = Calendar::create();
    let a = DateTime { year: 2022, month: 4, day: 25, hour: 2, minute: 0, second: 0, ms: 0 };
    let b = DateTime { year: 2022, month: 4, day: 25, hour: 2, minute: 0, second: 1, ms: 500 };
    assert_eq!(1500, c.ms_between(&a, &b));
    assert_eq!(-1500, c.ms_between(&b, &a));
    assert_eq!(0, c.ms_between(&a, &a));
}

#[test]
fn test_to_day_unixtime() {
    let dt = DateTime { year: 2010, month: 10, day: 10, hour: 10, minute: 10, second: 10, ms: 10 };
    assert_eq!(
        9 * 24 * 60 * 60 * 1000 + 10 * 60 * 60 * 1000 + 10 * 60 * 1000 + 10 * 1000 + 10,
        dt.to_day_unixtime()
    );
}

#[test]
fn test_to_unixtime_known_value() {
    let c = Calendar::create();
    let dt = DateTime { year: 2010, month: 10, day: 10, hour: 10, minute: 10, second: 10, ms: 10 };
    assert_eq!(1286705410010, c.to_unixtime(&dt));
    assert_eq!(Some(1286705410010), c.to_unixtime_opt(&dt));
}

#[test]
fn test_ceil_div() {
    assert_eq!(0, ceil_div(0, 5));
    assert_eq!(1, ceil_div(1, 5));
    assert_eq!(1, ceil_div(5, 5));
    assert_eq!(2, ceil_div(6, 5));
    assert_eq!(7, ceil_div(7, 1));
}

#[test]
fn test_to_unixtime_res() {
    let c = Calendar::create();
    let ok = DateTime { year: 2010, month: 10, day: 10, hour: 10, minute: 10, second: 10, ms: 10 };
    assert_eq!(Ok(1286705410010), c.to_unixtime_res(&ok));
    let out_of_scope = DateTime { year: 1969, month: 1, day: 1, hour: 0, minute: 0, second: 0, ms: 0 };
    assert_eq!(Err(ValidationError::OutOfScope), c.to_unixtime_res(&out_of_scope));
    let invalid = DateTime { year: 2021, month: 2, day: 29, hour: 0, minute: 0, second: 0, ms: 0 };
    assert_eq!(Err(ValidationError::Invalid), c.to_unixtime_res(&invalid));
}

#[test]
fn test_no_rules_no_occurrence() {
    let c = Calendar::create();
    let start = DateTime { year: 2022, month: 4, day: 25, hour: 2, minute: 0, second: 0, ms: 0 };
    let now = DateTime { year: 2022, month: 4, day: 25, hour: 6, minute: 0, second: 0, ms: 0 };
    // an active schedule with no rules yields no trigger
    assert_eq!(None, c.next_occurrence_ms(&now, &Schedule { start, items: vec![], end: None }));
}
