//! Proleptic Gregorian calendar arithmetic: which years are leap years, how
//! many days precede a given year, and which year and day-of-year a given
//! absolute day count falls on. Day counts follow the "days from the Common
//! Era" convention: day 1 is January 1 of year 1, day 0 is December 31 of
//! year 0, and the count runs without gaps in both directions.

use vstd::prelude::*;
use vstd::arithmetic::div_mod::{
    lemma_fundamental_div_mod, lemma_fundamental_div_mod_converse_div,
    lemma_fundamental_div_mod_converse_mod,
};

verus! {

/// Leap years of the proleptic Gregorian calendar: every fourth year, except
/// every hundredth, except every four-hundredth.
pub open spec fn is_leap_year(y: int) -> bool {
    (y % 4 == 0 && y % 100 != 0) || y % 400 == 0
}

/// Number of days in year `y`.
pub open spec fn year_len(y: int) -> int {
    if is_leap_year(y) {
        366
    } else {
        365
    }
}

/// Day count of the last day of year `y - 1`: the number of days in all
/// years from year 1 up to, but not including, year `y` (negative before
/// year 1). Day `days_before_year(y) + 1` is January 1 of year `y`.
pub open spec fn days_before_year(y: int) -> int {
    365 * (y - 1) + (y - 1) / 4 - (y - 1) / 100 + (y - 1) / 400
}

/// Day count `d` falls within year `y`.
pub open spec fn in_year(d: int, y: int) -> bool {
    days_before_year(y) < d <= days_before_year(y) + year_len(y)
}

/// The year that day count `d` falls in.
pub open spec fn year_of_day(d: int) -> int {
    choose|y: int| #[trigger] in_year(d, y)
}

/// Zero-based day-of-year index of day count `d`: 0 on January 1.
pub open spec fn ordinal0_of_day(d: int) -> int {
    d - 1 - days_before_year(year_of_day(d))
}

/// How a quotient by a positive divisor changes when the dividend grows by
/// one: it steps up exactly at the multiples of the divisor.
proof fn lemma_div_step(a: int, d: int)
    requires
        d > 0,
    ensures
        a / d == (a - 1) / d + (if a % d == 0 {
            1int
        } else {
            0int
        }),
{
    let q = (a - 1) / d;
    let r = (a - 1) % d;
    lemma_fundamental_div_mod(a - 1, d);
    if r == d - 1 {
        assert(a == (q + 1) * d + 0) by (nonlinear_arith)
            requires a - 1 == d * q + r && r == d - 1;
        lemma_fundamental_div_mod_converse_div(a, d, q + 1, 0);
        lemma_fundamental_div_mod_converse_mod(a, d, q + 1, 0);
    } else {
        assert(a == q * d + (r + 1)) by (nonlinear_arith)
            requires a - 1 == d * q + r;
        lemma_fundamental_div_mod_converse_div(a, d, q, r + 1);
        lemma_fundamental_div_mod_converse_mod(a, d, q, r + 1);
    }
}

/// A year divisible by 400 is divisible by 100, and one divisible by 100 is
/// divisible by 4.
proof fn lemma_divisibility_chain(y: int)
    ensures
        y % 400 == 0 ==> y % 100 == 0,
        y % 100 == 0 ==> y % 4 == 0,
{
    if y % 400 == 0 {
        let q = y / 400;
        lemma_fundamental_div_mod(y, 400);
        assert(y == (4 * q) * 100 + 0) by (nonlinear_arith)
            requires y == 400 * q;
        lemma_fundamental_div_mod_converse_mod(y, 100, 4 * q, 0);
    }
    if y % 100 == 0 {
        let q = y / 100;
        lemma_fundamental_div_mod(y, 100);
        assert(y == (25 * q) * 4 + 0) by (nonlinear_arith)
            requires y == 100 * q;
        lemma_fundamental_div_mod_converse_mod(y, 4, 25 * q, 0);
    }
}

/// Year `y + 1` begins exactly `year_len(y)` days after year `y` does.
pub proof fn lemma_days_before_year_succ(y: int)
    ensures
        days_before_year(y + 1) == days_before_year(y) + year_len(y),
{
    lemma_div_step(y, 4);
    lemma_div_step(y, 100);
    lemma_div_step(y, 400);
    lemma_divisibility_chain(y);
}

/// `days_before_year` never decreases as the year grows.
pub proof fn lemma_days_before_year_mono(y1: int, y2: int)
    requires
        y1 <= y2,
    ensures
        days_before_year(y1) <= days_before_year(y2),
    decreases y2 - y1,
{
    if y1 < y2 {
        lemma_days_before_year_succ(y2 - 1);
        lemma_days_before_year_mono(y1, y2 - 1);
    }
}

/// Every day count falls in some year.
pub proof fn lemma_year_exists(d: int)
    ensures
        exists|y: int| #[trigger] in_year(d, y),
    decreases
            if d >= 1 {
                d
            } else {
                2 - d
            },
{
    if 0 < d <= 365 {
        assert(in_year(d, 1));
    } else if d > 365 {
        lemma_year_exists(d - 1);
        let y = choose|y: int| #[trigger] in_year(d - 1, y);
        if d <= days_before_year(y) + year_len(y) {
            assert(in_year(d, y));
        } else {
            lemma_days_before_year_succ(y);
            assert(in_year(d, y + 1));
        }
    } else {
        lemma_year_exists(d + 1);
        let y = choose|y: int| #[trigger] in_year(d + 1, y);
        if days_before_year(y) < d {
            assert(in_year(d, y));
        } else {
            lemma_days_before_year_succ(y - 1);
            assert(in_year(d, y - 1));
        }
    }
}

/// No day count falls in two distinct years.
pub proof fn lemma_year_unique(d: int, y1: int, y2: int)
    requires
        in_year(d, y1),
        in_year(d, y2),
    ensures
        y1 == y2,
{
    if y1 < y2 {
        lemma_days_before_year_succ(y1);
        lemma_days_before_year_mono(y1 + 1, y2);
    } else if y2 < y1 {
        lemma_days_before_year_succ(y2);
        lemma_days_before_year_mono(y2 + 1, y1);
    }
}

/// `year_of_day` names the one year a day count falls in, and the ordinal
/// is that day's zero-based index within it.
pub proof fn lemma_day_position(d: int)
    ensures
        in_year(d, year_of_day(d)),
        0 <= ordinal0_of_day(d) < year_len(year_of_day(d)),
{
    lemma_year_exists(d);
}

/// The day counts of year `y` are exactly `days_before_year(y) + 1 + i` for
/// `0 <= i < year_len(y)`, and day `i` of the year has ordinal `i`.
pub proof fn lemma_ordinal_in_year(y: int, i: int)
    requires
        0 <= i < year_len(y),
    ensures
        year_of_day(days_before_year(y) + 1 + i) == y,
        ordinal0_of_day(days_before_year(y) + 1 + i) == i,
{
    let d = days_before_year(y) + 1 + i;
    assert(in_year(d, y));
    lemma_day_position(d);
    lemma_year_unique(d, year_of_day(d), y);
}

} // verus!
