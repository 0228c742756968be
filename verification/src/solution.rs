//! A greeting, leap years, and counting up in place.

use vstd::prelude::*;

verus! {

/// The greeting.
pub fn hello() -> (greeting: &'static str)
    ensures
        greeting@ == "Hello World!"@,
{
    "Hello World!"
}

/// The rule of the Gregorian calendar: every fourth year is a leap year,
/// but of the years that end a century only every fourth.
pub open spec fn leap(year: u32) -> bool {
    year % 4 == 0 && (year % 100 != 0 || year % 400 == 0)
}

/// Whether `year` is a leap year.
pub fn is_leap_year(year: u32) -> (r: bool)
    ensures
        r == leap(year),
{
    year % 4 == 0 && (year % 100 != 0 || year % 400 == 0)
}

/// Adds one to `n`.
pub fn plus_one(n: &mut i32)
    requires
        *old(n) < i32::MAX,
    ensures
        *final(n) == *old(n) + 1,
{
    *n = *n + 1;
}

/// Adds `by` to `n`.
pub fn increase(n: &mut i32, by: i32)
    requires
        i32::MIN <= *old(n) + by <= i32::MAX,
    ensures
        *final(n) == *old(n) + by,
{
    *n = *n + by;
}

} // verus!
