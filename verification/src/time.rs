//! The date-clock time value and the conversion from an absolute Gregorian
//! day count to it. The regular year holds 364 days: 4 quarters of 13 weeks
//! of 7 days. The day after the regular year is New Year's day, and on leap
//! years one more intercalary day, the Leap day, follows it. The conversion
//! re-anchors the incoming day count so that day 0 of a Gregorian year lines
//! up with the first regular day of the date-clock year.

use vstd::prelude::*;
use vstd::arithmetic::div_mod::{
    lemma_div_denominator, lemma_div_is_ordered, lemma_fundamental_div_mod,
    lemma_fundamental_div_mod_converse_div, lemma_fundamental_div_mod_converse_mod,
    lemma_mod_mod,
};
use vstd::set_lib::{lemma_int_range, set_int_range};
use vstd::string::StringExecFns;
use crate::gregorian::{
    days_before_year, is_leap_year, lemma_day_position, lemma_days_before_year_mono,
    lemma_days_before_year_succ, lemma_ordinal_in_year, ordinal0_of_day, year_len, year_of_day,
};

verus! {

/// Days in a week of the date-clock calendar.
pub const NUM_DAYS_IN_A_WEEK: u32 = 7;

/// Weeks in a quarter of the date-clock calendar.
pub const NUM_WEEKS_IN_A_QUARTER: u32 = 13;

/// Days in a quarter of the date-clock calendar.
pub const NUM_DAYS_IN_A_QUARTER: u32 = 7 * 13;

/// Days in the regular date-clock year, intercalary days excluded.
pub const NUM_DAYS_IN_A_YEAR: u32 = 7 * 13 * 4;

/// Days from the eve of a Gregorian year to the average northward equinox
/// (March 20th), the notional New Year's day of the date-clock calendar.
/// Subtracting it re-anchors a day count so that the adjusted ordinal 0 is
/// the first regular day of the date-clock year.
pub const EQUINOX_SHIFT: i32 = 80;

/// First Gregorian year whose days the conversion accepts.
pub const MIN_YEAR: i32 = -262143;

/// Last Gregorian year whose days the conversion accepts.
pub const MAX_YEAR: i32 = 262142;

/// Date-clock time.
#[derive(Debug, PartialEq, Eq, Structural)]
pub enum Time {
    Regular {
        month: u8,
        week: u8,
        day: u8,
    },
    /// Defined as occurring on the average northward equinox (March 20th).
    NewYears,
    /// Defined as occurring on the day after New Year's day on Leap years.
    LeapDay,
}

/// An adjusted day count that names a real calendar date: one whose year
/// lies between `MIN_YEAR` and `MAX_YEAR`.
pub open spec fn in_supported_range(d: int) -> bool {
    days_before_year(MIN_YEAR as int) < d <= days_before_year(MAX_YEAR as int + 1)
}

/// The date-clock value of a day-of-year ordinal: the 364 regular days come
/// first, then New Year's day, then (when the year has one) the Leap day.
pub open spec fn classify(ordinal: int) -> Time {
    if ordinal <= 363 {
        Time::Regular {
            month: (ordinal / 91) as u8,
            week: ((ordinal / 7) % 13) as u8,
            day: (ordinal % 7) as u8,
        }
    } else if ordinal == 364 {
        Time::NewYears
    } else {
        Time::LeapDay
    }
}

/// What `Time::from_num_days_from_ce` returns for any day count: the
/// classification of the adjusted day count's day-of-year ordinal, or
/// nothing when the adjusted day count names no real calendar date.
pub open spec fn time_of_days(days: int) -> Option<Time> {
    if in_supported_range(days - EQUINOX_SHIFT as int) {
        Some(classify(ordinal0_of_day(days - EQUINOX_SHIFT as int)))
    } else {
        None
    }
}

/// Relies on `chrono::NaiveDate::from_num_days_from_ce_opt`, which reads a
/// day count with January 1 of year 1 as day 1 and returns the calendar date
/// it names, or `None` exactly when that date's year lies outside chrono's
/// supported span of years (`MIN_YEAR` through `MAX_YEAR`), and on
/// `chrono::Datelike::ordinal0` for `NaiveDate`, which returns the date's
/// zero-based day of the year.
#[verifier::external_body]
fn ordinal0_from_days(days: i32) -> (r: Option<u32>)
    ensures
        r.is_some() <==> in_supported_range(days as int),
        r matches Some(ord) ==> ord as int == ordinal0_of_day(days as int),
{
    match chrono::NaiveDate::from_num_days_from_ce_opt(days) {
        None => None,
        Some(date) => Some(chrono::Datelike::ordinal0(&date)),
    }
}

/// Relies on `chrono::Local::now` to read the system clock and on
/// `chrono::Datelike::num_days_from_ce` to turn the reading into a day
/// count. Nothing is promised of a clock reading.
#[verifier::external_body]
fn current_days_from_ce() -> i32 {
    chrono::Datelike::num_days_from_ce(&chrono::Local::now())
}

/// Relies on `chrono::Datelike::num_days_from_ce` for the day count of
/// whatever calendar value the caller supplies. Which count comes back
/// depends on the `Datelike` implementation, so nothing is promised of it.
#[verifier::external_body]
fn days_from_ce_of<T: chrono::Datelike>(date: &T) -> i32 {
    date.num_days_from_ce()
}

impl Time {
    /// Return the current time, or `None` if the system clock reports a date
    /// outside the supported range (which no real clock does).
    pub fn now() -> (r: Option<Time>)
        ensures
            r matches Some(t) ==> exists|days: int| #[trigger] time_of_days(days) == Some(t),
    {
        Self::from_num_days_from_ce(current_days_from_ce())
    }

    /// Return the corresponding time for the date.
    pub fn from_datelike<T: chrono::Datelike>(date: T) -> (r: Option<Time>)
        ensures
            r matches Some(t) ==> exists|days: int| #[trigger] time_of_days(days) == Some(t),
    {
        Self::from_num_days_from_ce(days_from_ce_of(&date))
    }

    /// Return the corresponding time for the number of days from the Common
    /// Era, or `None` exactly when the adjusted day count names no real
    /// calendar date.
    pub fn from_num_days_from_ce(days: i32) -> (r: Option<Time>)
        ensures
            r == time_of_days(days as int),
    {
        if days < i32::MIN + EQUINOX_SHIFT {
            // Below every supported day count.
            return None;
        }
        let adjusted: i32 = days - EQUINOX_SHIFT;
        match ordinal0_from_days(adjusted) {
            None => None,
            Some(ordinal) => {
                proof {
                    lemma_day_position(adjusted as int);
                }
                Some(classify_ordinal(ordinal))
            },
        }
    }

}

/// The classification, as executable code, of a day-of-year ordinal.
fn classify_ordinal(ordinal: u32) -> (t: Time)
    requires
        ordinal <= 365,
    ensures
        t == classify(ordinal as int),
{
    if ordinal < NUM_DAYS_IN_A_YEAR {
        let month: u8 = (ordinal / NUM_DAYS_IN_A_QUARTER) as u8;
        let week: u8 = (ordinal / NUM_DAYS_IN_A_WEEK % NUM_WEEKS_IN_A_QUARTER) as u8;
        let day: u8 = (ordinal % NUM_DAYS_IN_A_WEEK) as u8;
        Time::Regular { month, week, day }
    } else if ordinal == NUM_DAYS_IN_A_YEAR {
        Time::NewYears
    } else {
        Time::LeapDay
    }
}

/// Totality over the regular range: a day count whose adjusted ordinal
/// falls among the 364 regular days always converts to `Regular`, the three
/// indices lie in their ranges, and they recombine to the ordinal.
pub proof fn lemma_regular_total(days: int)
    requires
        in_supported_range(days - EQUINOX_SHIFT as int),
        0 <= ordinal0_of_day(days - EQUINOX_SHIFT as int) <= 363,
    ensures
        ({
            let ord = ordinal0_of_day(days - EQUINOX_SHIFT as int);
            &&& time_of_days(days) == Some(classify(ord))
            &&& classify(ord) matches Time::Regular { month, week, day } && month <= 3 && week
                <= 12 && day <= 6 && month * 91 + week * 7 + day == ord
        }),
{
    let ord = ordinal0_of_day(days - EQUINOX_SHIFT as int);
    lemma_fundamental_div_mod(ord, 7);
    lemma_fundamental_div_mod(ord / 7, 13);
    lemma_div_denominator(ord, 7, 13);
    lemma_div_is_ordered(ord, 363, 91);
}

/// Partition property: over one year's worth of consecutive day counts
/// (365 of them in a common year, 366 in a leap year), exactly 364 convert
/// to `Regular`, exactly one converts to `NewYears`, and exactly one
/// converts to `LeapDay` if and only if the year is a leap year.
pub proof fn lemma_year_partition(y: int)
    requires
        MIN_YEAR as int <= y <= MAX_YEAR as int,
    ensures
        ({
            let first = days_before_year(y) + 1 + EQUINOX_SHIFT as int;
            let len = year_len(y);
            &&& forall|i: int|
                0 <= i < len ==> #[trigger] time_of_days(first + i) == Some(classify(i))
            &&& Set::new(
                |i: int| 0 <= i < len && (time_of_days(first + i) matches Some(Time::Regular { .. })),
            ).len() == 364
            &&& Set::new(|i: int| 0 <= i < len && time_of_days(first + i) == Some(Time::NewYears)).len()
                == 1
            &&& Set::new(|i: int| 0 <= i < len && time_of_days(first + i) == Some(Time::LeapDay)).len()
                == (if is_leap_year(y) {
                1int
            } else {
                0int
            })
        }),
{
    let first = days_before_year(y) + 1 + EQUINOX_SHIFT as int;
    let len = year_len(y);
    assert forall|i: int| 0 <= i < len implies #[trigger] time_of_days(first + i) == Some(
        classify(i),
    ) by {
        lemma_ordinal_in_year(y, i);
        lemma_days_before_year_mono(MIN_YEAR as int, y);
        lemma_days_before_year_succ(y);
        lemma_days_before_year_mono(y + 1, MAX_YEAR as int + 1);
    }
    let regular = Set::new(
        |i: int| 0 <= i < len && (time_of_days(first + i) matches Some(Time::Regular { .. })),
    );
    let new_years = Set::new(
        |i: int| 0 <= i < len && time_of_days(first + i) == Some(Time::NewYears),
    );
    let leap = Set::new(|i: int| 0 <= i < len && time_of_days(first + i) == Some(Time::LeapDay));
    assert(regular =~= set_int_range(0, 364));
    lemma_int_range(0, 364);
    assert(new_years =~= set_int_range(364, 365));
    lemma_int_range(364, 365);
    if is_leap_year(y) {
        assert(leap =~= set_int_range(365, 366));
        lemma_int_range(365, 366);
    } else {
        assert(leap =~= Set::empty());
    }
}

/// Determinism: what a day count converts to is a function of that day
/// count alone, so two conversions of equal day counts give equal times.
pub proof fn lemma_deterministic(days1: int, days2: int)
    requires
        days1 == days2,
    ensures
        time_of_days(days1) == time_of_days(days2),
{
}

/// Monotonic consistency: seven consecutive day counts starting at a
/// `day = 0` boundary of the regular year convert to the seven days of one
/// week in order, with the quarter and the week unchanged throughout.
pub proof fn lemma_week_in_order(days: int)
    requires
        in_supported_range(days - EQUINOX_SHIFT as int),
        in_supported_range(days - EQUINOX_SHIFT as int + 6),
        ordinal0_of_day(days - EQUINOX_SHIFT as int) % 7 == 0,
        0 <= ordinal0_of_day(days - EQUINOX_SHIFT as int) <= 357,
    ensures
        forall|i: int|
            0 <= i < 7 ==> #[trigger] time_of_days(days + i) == Some(
                Time::Regular {
                    month: (ordinal0_of_day(days - EQUINOX_SHIFT as int) / 91) as u8,
                    week: ((ordinal0_of_day(days - EQUINOX_SHIFT as int) / 7) % 13) as u8,
                    day: i as u8,
                },
            ),
{
    let d = days - EQUINOX_SHIFT as int;
    let ord = ordinal0_of_day(d);
    let y = year_of_day(d);
    lemma_day_position(d);
    assert(d == days_before_year(y) + 1 + ord);
    lemma_mod_mod(ord, 7, 13);
    lemma_fundamental_div_mod(ord % 91, 7);
    lemma_fundamental_div_mod(ord, 7);
    lemma_fundamental_div_mod(ord, 91);
    assert forall|i: int| 0 <= i < 7 implies #[trigger] time_of_days(days + i) == Some(
        Time::Regular { month: (ord / 91) as u8, week: ((ord / 7) % 13) as u8, day: i as u8 },
    ) by {
        lemma_ordinal_in_year(y, ord + i);
        lemma_fundamental_div_mod_converse_div(ord + i, 7, ord / 7, i);
        lemma_fundamental_div_mod_converse_mod(ord + i, 7, ord / 7, i);
        lemma_fundamental_div_mod_converse_div(ord + i, 91, ord / 91, ord % 91 + i);
        lemma_fundamental_div_mod(ord / 7, 13);
        lemma_fundamental_div_mod(ord + i, 7);
        lemma_fundamental_div_mod((ord + i) / 7, 13);
        lemma_div_denominator(ord, 7, 13);
        lemma_div_denominator(ord + i, 7, 13);
    }
}

/// The character of a decimal digit.
pub open spec fn digit_char(d: int) -> char {
    if d == 0 {
        '0'
    } else if d == 1 {
        '1'
    } else if d == 2 {
        '2'
    } else if d == 3 {
        '3'
    } else if d == 4 {
        '4'
    } else if d == 5 {
        '5'
    } else if d == 6 {
        '6'
    } else if d == 7 {
        '7'
    } else if d == 8 {
        '8'
    } else {
        '9'
    }
}

/// The decimal text of a value below 1000, with no padding or sign: one
/// digit up to three. Every index of a `Time` is a `u8`, so this covers
/// them all.
pub open spec fn decimal_chars(n: int) -> Seq<char> {
    if n < 10 {
        seq![digit_char(n)]
    } else if n < 100 {
        seq![digit_char(n / 10), digit_char(n % 10)]
    } else {
        seq![digit_char(n / 100), digit_char(n / 10 % 10), digit_char(n % 10)]
    }
}

/// The canonical text of a time: the decimal `month/week/day` indices for a
/// regular day, and a fixed label for each intercalary day.
pub open spec fn rendered(t: Time) -> Seq<char> {
    match t {
        Time::Regular { month, week, day } => decimal_chars(month as int) + "/"@ + decimal_chars(
            week as int,
        ) + "/"@ + decimal_chars(day as int),
        Time::NewYears => "New Year's day"@,
        Time::LeapDay => "Leap day"@,
    }
}

/// The text of one decimal digit, as executable code.
fn digit_str(d: u8) -> (r: &'static str)
    requires
        d <= 9,
    ensures
        r@ == seq![digit_char(d as int)],
{
    proof {
        reveal_strlit("0");
        reveal_strlit("1");
        reveal_strlit("2");
        reveal_strlit("3");
        reveal_strlit("4");
        reveal_strlit("5");
        reveal_strlit("6");
        reveal_strlit("7");
        reveal_strlit("8");
        reveal_strlit("9");
    }
    let r: &'static str = match d {
        0 => "0",
        1 => "1",
        2 => "2",
        3 => "3",
        4 => "4",
        5 => "5",
        6 => "6",
        7 => "7",
        8 => "8",
        _ => "9",
    };
    proof {
        assert(r@ =~= seq![digit_char(d as int)]);
    }
    r
}

/// Append the decimal text of a `u8` value.
fn append_decimal(s: &mut String, n: u8)
    ensures
        final(s)@ == old(s)@ + decimal_chars(n as int),
{
    if n >= 100 {
        s.append(digit_str(n / 100));
    }
    if n >= 10 {
        s.append(digit_str(n / 10 % 10));
    }
    s.append(digit_str(n % 10));
    proof {
        assert(s@ =~= old(s)@ + decimal_chars(n as int));
    }
}

/// No separator stands among a sequence's characters.
spec fn slash_free(s: Seq<char>) -> bool {
    forall|i: int| 0 <= i < s.len() ==> s[i] != '/'
}

/// The decimal text of a `u8` value holds one to three characters, all of
/// them digits, none the separator.
proof fn lemma_decimal_chars_shape(n: int)
    requires
        0 <= n < 256,
    ensures
        1 <= decimal_chars(n).len() <= 3,
        slash_free(decimal_chars(n)),
{
    assert forall|i: int| 0 <= i < decimal_chars(n).len() implies decimal_chars(n)[i] != '/' by {
        assert(decimal_chars(n)[i] == digit_char(0) || decimal_chars(n)[i] == digit_char(1)
            || decimal_chars(n)[i] == digit_char(2) || decimal_chars(n)[i] == digit_char(3)
            || decimal_chars(n)[i] == digit_char(4) || decimal_chars(n)[i] == digit_char(5)
            || decimal_chars(n)[i] == digit_char(6) || decimal_chars(n)[i] == digit_char(7)
            || decimal_chars(n)[i] == digit_char(8) || decimal_chars(n)[i] == digit_char(9));
    }
}

/// Two digits with the same character are the same digit.
proof fn lemma_digit_char_injective(a: int, b: int)
    requires
        0 <= a <= 9,
        0 <= b <= 9,
        digit_char(a) == digit_char(b),
    ensures
        a == b,
{
}

/// Two values below 256 with the same decimal text are the same value.
proof fn lemma_decimal_chars_injective(n1: int, n2: int)
    requires
        0 <= n1 < 256,
        0 <= n2 < 256,
        decimal_chars(n1) == decimal_chars(n2),
    ensures
        n1 == n2,
{
    let s1 = decimal_chars(n1);
    let s2 = decimal_chars(n2);
    assert(s1.len() == if n1 < 10 {
        1int
    } else if n1 < 100 {
        2int
    } else {
        3int
    });
    assert(s2.len() == if n2 < 10 {
        1int
    } else if n2 < 100 {
        2int
    } else {
        3int
    });
    if n1 < 10 {
        assert(n2 < 10);
        assert(s1[0] == s2[0]);
        lemma_digit_char_injective(n1, n2);
    } else if n1 < 100 {
        assert(10 <= n2 < 100);
        assert(s1[0] == s2[0]);
        assert(s1[1] == s2[1]);
        lemma_digit_char_injective(n1 / 10, n2 / 10);
        lemma_digit_char_injective(n1 % 10, n2 % 10);
        lemma_fundamental_div_mod(n1, 10);
        lemma_fundamental_div_mod(n2, 10);
    } else {
        assert(100 <= n2);
        assert(s1[0] == s2[0]);
        assert(s1[1] == s2[1]);
        assert(s1[2] == s2[2]);
        lemma_digit_char_injective(n1 / 100, n2 / 100);
        lemma_digit_char_injective(n1 / 10 % 10, n2 / 10 % 10);
        lemma_digit_char_injective(n1 % 10, n2 % 10);
        lemma_fundamental_div_mod(n1, 10);
        lemma_fundamental_div_mod(n2, 10);
        lemma_fundamental_div_mod(n1 / 10, 10);
        lemma_fundamental_div_mod(n2 / 10, 10);
        lemma_div_denominator(n1, 10, 10);
        lemma_div_denominator(n2, 10, 10);
    }
}

/// Text that splits as `a + "/" + b` with no separator inside `a` splits
/// only one way.
proof fn lemma_split_at_separator(a1: Seq<char>, b1: Seq<char>, a2: Seq<char>, b2: Seq<char>)
    requires
        a1 + "/"@ + b1 == a2 + "/"@ + b2,
        slash_free(a1),
        slash_free(a2),
    ensures
        a1 == a2,
        b1 == b2,
{
    reveal_strlit("/");
    assert("/"@.len() == 1);
    assert("/"@[0] == '/');
    let s1 = a1 + "/"@ + b1;
    let s2 = a2 + "/"@ + b2;
    assert(s1.len() == a1.len() + 1 + b1.len());
    assert(s2.len() == a2.len() + 1 + b2.len());
    if a1.len() < a2.len() {
        let k = a1.len() as int;
        assert(s1[k] == (a1 + "/"@)[k]);
        assert(s1[k] == '/');
        assert(s2[k] == (a2 + "/"@)[k]);
        assert(s2[k] == a2[k]);
        assert(a2[k] != '/');
        assert(false);
    } else if a2.len() < a1.len() {
        let k = a2.len() as int;
        assert(s2[k] == (a2 + "/"@)[k]);
        assert(s2[k] == '/');
        assert(s1[k] == (a1 + "/"@)[k]);
        assert(s1[k] == a1[k]);
        assert(a1[k] != '/');
        assert(false);
    }
    assert(a1.len() == a2.len());
    assert forall|i: int| 0 <= i < a1.len() implies a1[i] == a2[i] by {
        assert(s1[i] == (a1 + "/"@)[i]);
        assert(s1[i] == a1[i]);
        assert(s2[i] == (a2 + "/"@)[i]);
        assert(s2[i] == a2[i]);
    }
    assert(a1 =~= a2);
    assert(b1.len() == b2.len());
    assert forall|i: int| 0 <= i < b1.len() implies b1[i] == b2[i] by {
        assert(s1[a1.len() + 1 + i] == b1[i]);
        assert(s2[a2.len() + 1 + i] == b2[i]);
    }
    assert(b1 =~= b2);
}

/// Appending sequences one at a time or in groups builds the same sequence.
proof fn lemma_seq_add_assoc(x: Seq<char>, y: Seq<char>, z: Seq<char>)
    ensures
        (x + y) + z == x + (y + z),
{
    assert((x + y) + z =~= x + (y + z));
}

/// A regular day's text is its month text, the separator, and the rest.
proof fn lemma_rendered_regular_split(t: Time)
    requires
        t is Regular,
    ensures
        rendered(t) == (decimal_chars(t->month as int) + "/"@) + (decimal_chars(t->week as int)
            + "/"@ + decimal_chars(t->day as int)),
{
    let m = decimal_chars(t->month as int);
    let w = decimal_chars(t->week as int);
    let d = decimal_chars(t->day as int);
    let sl = "/"@;
    assert(rendered(t) == (((m + sl) + w) + sl) + d);
    lemma_seq_add_assoc((m + sl) + w, sl, d);
    lemma_seq_add_assoc(m + sl, w, sl + d);
    lemma_seq_add_assoc(w, sl, d);
}

/// A regular day's text carries the separator within its first four
/// characters; neither intercalary label does.
proof fn lemma_rendered_separator(t: Time)
    requires
        t is Regular,
    ensures
        ({
            let k = decimal_chars(t->month as int).len() as int;
            &&& 1 <= k <= 3
            &&& rendered(t)[k] == '/'
        }),
{
    reveal_strlit("/");
    assert("/"@.len() == 1);
    assert("/"@[0] == '/');
    let m = decimal_chars(t->month as int);
    let k = m.len() as int;
    lemma_decimal_chars_shape(t->month as int);
    let head = m + "/"@;
    assert(head[k] == '/');
    let tail = decimal_chars(t->week as int) + "/"@ + decimal_chars(t->day as int);
    lemma_rendered_regular_split(t);
    assert((head + tail)[k] == head[k]);
}

/// Rendering is injective: distinct time values render to distinct text.
/// The decimal `month/week/day` forms split back uniquely at their
/// separators, and neither fixed label shares its text with anything else.
#[verifier::rlimit(30)]
pub proof fn lemma_rendered_injective(t1: Time, t2: Time)
    requires
        rendered(t1) == rendered(t2),
    ensures
        t1 == t2,
{
    if t1 is Regular && t2 is Regular {
        let (m1, w1, d1) = (t1->month, t1->week, t1->day);
        let (m2, w2, d2) = (t2->month, t2->week, t2->day);
        lemma_decimal_chars_shape(m1 as int);
        lemma_decimal_chars_shape(m2 as int);
        lemma_decimal_chars_shape(w1 as int);
        lemma_decimal_chars_shape(w2 as int);
        let tail1 = decimal_chars(w1 as int) + "/"@ + decimal_chars(d1 as int);
        let tail2 = decimal_chars(w2 as int) + "/"@ + decimal_chars(d2 as int);
        lemma_rendered_regular_split(t1);
        lemma_rendered_regular_split(t2);
        lemma_split_at_separator(decimal_chars(m1 as int), tail1, decimal_chars(m2 as int), tail2);
        lemma_decimal_chars_injective(m1 as int, m2 as int);
        lemma_split_at_separator(
            decimal_chars(w1 as int),
            decimal_chars(d1 as int),
            decimal_chars(w2 as int),
            decimal_chars(d2 as int),
        );
        lemma_decimal_chars_injective(w1 as int, w2 as int);
        lemma_decimal_chars_injective(d1 as int, d2 as int);
    } else if t1 is Regular || t2 is Regular {
        let r = if t1 is Regular {
            t1
        } else {
            t2
        };
        let label = rendered(
            if t1 is Regular {
                t2
            } else {
                t1
            },
        );
        lemma_rendered_separator(r);
        let k = decimal_chars(r->month as int).len() as int;
        assert(label[k] == '/');
        reveal_strlit("New Year's day");
        reveal_strlit("Leap day");
        assert(label[1] != '/' && label[2] != '/' && label[3] != '/');
        assert(false);
    } else {
        reveal_strlit("New Year's day");
        reveal_strlit("Leap day");
        assert(rendered(Time::NewYears).len() != rendered(Time::LeapDay).len());
    }
}

impl Time {
    /// Render the time as text: the decimal quarter, week and day indices
    /// joined by `/`, or the fixed label of an intercalary day.
    pub fn render(&self) -> (r: String)
        ensures
            r@ == rendered(*self),
    {
        match self {
            Time::Regular { month, week, day } => {
                let mut s = String::new();
                append_decimal(&mut s, *month);
                s.append("/");
                append_decimal(&mut s, *week);
                s.append("/");
                append_decimal(&mut s, *day);
                proof {
                    assert(s@ =~= rendered(*self));
                }
                s
            },
            Time::NewYears => "New Year's day".to_owned(),
            Time::LeapDay => "Leap day".to_owned(),
        }
    }
}

} // verus!
