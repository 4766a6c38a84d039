//! A date-clock calendar: a 364-day regular year of 4 quarters, each of
//! 13 seven-day weeks, plus a New Year's day and, on leap years, a Leap day
//! that stand outside the regular structure. The library maps an absolute
//! Gregorian day count to a position in that calendar and renders it as text.

pub mod gregorian;
pub mod time;

pub use time::Time;
