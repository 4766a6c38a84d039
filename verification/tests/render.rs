//! The canonical text of each date-clock time value.

use date_clock::Time;

#[test]
fn renders_first_regular_day() {
    let time = Time::from_num_days_from_ce(81).unwrap();
    assert_eq!(time.render(), "0/0/0");
}

#[test]
fn renders_last_regular_day() {
    let time = Time::from_num_days_from_ce(81 + 363).unwrap();
    assert_eq!(time.render(), "3/12/6");
}

#[test]
fn renders_two_digit_week() {
    let time = Time::Regular { month: 0, week: 10, day: 2 };
    assert_eq!(time.render(), "0/10/2");
}

#[test]
fn renders_new_years_day() {
    let time = Time::from_num_days_from_ce(81 + 364).unwrap();
    assert_eq!(time.render(), "New Year's day");
}

#[test]
fn renders_leap_day() {
    let time = Time::from_num_days_from_ce(1095 + 81 + 365).unwrap();
    assert_eq!(time.render(), "Leap day");
}

#[test]
fn renders_every_regular_day_distinctly() {
    let mut seen = std::collections::HashSet::new();
    for month in 0..4u8 {
        for week in 0..13u8 {
            for day in 0..7u8 {
                let text = Time::Regular { month, week, day }.render();
                assert_eq!(text, format!("{month}/{week}/{day}"));
                assert!(seen.insert(text));
            }
        }
    }
}

#[test]
fn renders_indices_beyond_the_calendar_in_decimal() {
    // The fields are public u8 values, so a caller can build times that no
    // conversion produces; they still render as their plain decimals.
    assert_eq!(Time::Regular { month: 13, week: 0, day: 0 }.render(), "13/0/0");
    assert_eq!(Time::Regular { month: 14, week: 0, day: 0 }.render(), "14/0/0");
    assert_eq!(Time::Regular { month: 0, week: 99, day: 100 }.render(), "0/99/100");
    assert_eq!(Time::Regular { month: 255, week: 255, day: 255 }.render(), "255/255/255");
}

#[test]
fn renders_distinct_values_distinctly() {
    let samples = [0u8, 1, 6, 7, 9, 10, 12, 13, 14, 25, 52, 99, 100, 107, 250, 255];
    let mut seen = std::collections::HashSet::new();
    for month in samples {
        for week in samples {
            for day in samples {
                assert!(seen.insert(Time::Regular { month, week, day }.render()));
            }
        }
    }
    assert!(seen.insert(Time::NewYears.render()));
    assert!(seen.insert(Time::LeapDay.render()));
}
