//! The conversion from a day count to a date-clock time, end to end through
//! the public functions. Day counts follow the "days from the Common Era"
//! convention: day 1 is January 1 of year 1, and the date-clock anchor
//! subtracts 80 days, so day count 81 is the first regular day of a year.

use chrono::Datelike;
use date_clock::Time;

/// Day count whose adjusted ordinal is 0: the first regular day.
const FIRST_REGULAR: i32 = 81;

/// Day count of the first regular day of the date-clock year that ends in
/// Gregorian leap year 4 (days before year 4: 3 * 365 = 1095).
const FIRST_REGULAR_LEAP: i32 = 1095 + 81;

#[test]
fn first_regular_day() {
    assert_eq!(
        Time::from_num_days_from_ce(FIRST_REGULAR),
        Some(Time::Regular { month: 0, week: 0, day: 0 })
    );
}

#[test]
fn last_regular_day() {
    assert_eq!(
        Time::from_num_days_from_ce(FIRST_REGULAR + 363),
        Some(Time::Regular { month: 3, week: 12, day: 6 })
    );
}

#[test]
fn new_years_day() {
    assert_eq!(Time::from_num_days_from_ce(FIRST_REGULAR + 364), Some(Time::NewYears));
}

#[test]
fn no_leap_day_in_common_year() {
    // Year 1 has 365 days, so the day after its New Year's day is the first
    // regular day of the next date-clock year.
    assert_eq!(
        Time::from_num_days_from_ce(FIRST_REGULAR + 365),
        Some(Time::Regular { month: 0, week: 0, day: 0 })
    );
}

#[test]
fn leap_day_in_leap_year() {
    assert_eq!(Time::from_num_days_from_ce(FIRST_REGULAR_LEAP + 364), Some(Time::NewYears));
    assert_eq!(Time::from_num_days_from_ce(FIRST_REGULAR_LEAP + 365), Some(Time::LeapDay));
    assert_eq!(
        Time::from_num_days_from_ce(FIRST_REGULAR_LEAP + 366),
        Some(Time::Regular { month: 0, week: 0, day: 0 })
    );
}

#[test]
fn extreme_day_counts_are_out_of_range() {
    assert_eq!(Time::from_num_days_from_ce(i32::MIN), None);
    assert_eq!(Time::from_num_days_from_ce(i32::MAX), None);
}

#[test]
fn lower_boundary_of_the_supported_range() {
    // The earliest supported date is January 1 of year -262143, whose day
    // count is -95_746_129; the conversion sees it after the 80-day shift.
    assert_eq!(
        Time::from_num_days_from_ce(-95_746_129 + 80),
        Some(Time::Regular { month: 0, week: 0, day: 0 })
    );
    assert_eq!(Time::from_num_days_from_ce(-95_746_129 + 80 - 1), None);
}

#[test]
fn upper_boundary_of_the_supported_range() {
    // The last supported date is December 31 of year 262142, whose day count
    // is 95_745_399. Year 262142 is a common year, so its last day is the
    // 365th of the year: New Year's day.
    assert_eq!(Time::from_num_days_from_ce(95_745_399 + 80), Some(Time::NewYears));
    assert_eq!(Time::from_num_days_from_ce(95_745_399 + 80 + 1), None);
}

#[test]
fn common_year_partition() {
    let mut regular: u32 = 0;
    let mut new_years: u32 = 0;
    let mut leap: u32 = 0;
    for i in 0..365 {
        match Time::from_num_days_from_ce(FIRST_REGULAR + i).unwrap() {
            Time::Regular { .. } => regular += 1,
            Time::NewYears => new_years += 1,
            Time::LeapDay => leap += 1,
        }
    }
    assert_eq!(regular, 364);
    assert_eq!(new_years, 1);
    assert_eq!(leap, 0);
}

#[test]
fn leap_year_partition() {
    let mut regular: u32 = 0;
    let mut new_years: u32 = 0;
    let mut leap: u32 = 0;
    for i in 0..366 {
        match Time::from_num_days_from_ce(FIRST_REGULAR_LEAP + i).unwrap() {
            Time::Regular { .. } => regular += 1,
            Time::NewYears => new_years += 1,
            Time::LeapDay => leap += 1,
        }
    }
    assert_eq!(regular, 364);
    assert_eq!(new_years, 1);
    assert_eq!(leap, 1);
}

#[test]
fn regular_days_recombine_to_their_ordinal() {
    for ordinal in 0..364 {
        match Time::from_num_days_from_ce(FIRST_REGULAR + ordinal).unwrap() {
            Time::Regular { month, week, day } => {
                assert!(month <= 3);
                assert!(week <= 12);
                assert!(day <= 6);
                assert_eq!(month as i32 * 91 + week as i32 * 7 + day as i32, ordinal);
            }
            other => panic!("ordinal {ordinal} should be a regular day, got {other:?}"),
        }
    }
}

#[test]
fn conversion_is_deterministic() {
    for days in [i32::MIN, -1, 0, 80, 81, 444, 445, 1541, i32::MAX] {
        assert_eq!(Time::from_num_days_from_ce(days), Time::from_num_days_from_ce(days));
    }
}

#[test]
fn week_runs_in_order_from_a_day_boundary() {
    // Seven consecutive day counts from a day-0 boundary: the day index runs
    // 0 through 6 while the quarter and the week stay put.
    let start = FIRST_REGULAR + 7 * 20;
    for i in 0..7 {
        assert_eq!(
            Time::from_num_days_from_ce(start + i),
            Some(Time::Regular { month: 1, week: 7, day: i as u8 })
        );
    }
}

#[test]
fn from_datelike_matches_the_day_count_conversion() {
    let dates = [
        chrono::NaiveDate::from_ymd_opt(1, 3, 22).unwrap(),
        chrono::NaiveDate::from_ymd_opt(2024, 3, 20).unwrap(),
        chrono::NaiveDate::from_ymd_opt(2024, 3, 21).unwrap(),
        chrono::NaiveDate::from_ymd_opt(2025, 3, 21).unwrap(),
    ];
    for date in dates {
        assert_eq!(Time::from_datelike(date), Time::from_num_days_from_ce(date.num_days_from_ce()));
    }
}

#[test]
fn equinox_dates() {
    // March 20 of 2024 (the average northward equinox) is New Year's day;
    // the next day opens the regular year; and because 2024 is a leap year,
    // the Leap day follows the next New Year's day, on March 21 of 2025.
    let new_years = chrono::NaiveDate::from_ymd_opt(2024, 3, 20).unwrap();
    let first_day = chrono::NaiveDate::from_ymd_opt(2024, 3, 21).unwrap();
    let leap_day = chrono::NaiveDate::from_ymd_opt(2025, 3, 21).unwrap();
    assert_eq!(Time::from_datelike(new_years), Some(Time::NewYears));
    assert_eq!(Time::from_datelike(first_day), Some(Time::Regular { month: 0, week: 0, day: 0 }));
    assert_eq!(Time::from_datelike(leap_day), Some(Time::LeapDay));
}

#[test]
fn now_reads_a_supported_date() {
    // A real clock reading always lies far inside the supported range.
    assert!(Time::now().is_some());
}
