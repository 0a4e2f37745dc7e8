//! The proleptic Gregorian calendar as arithmetic on integers.
//!
//! A day is identified by its day number: the count of days from the start of
//! the calendar, so that 1 January of year 1 is day 1. The number is defined
//! by counting the days of the years and months that precede a date; the
//! executable conversions use closed affine formulas and are proved equal to
//! that count.

use vstd::prelude::*;

verus! {

/// The day number of 31 December 65535, the last date a 16-bit year can hold.
pub const MAX_DAY_NUMBER: u32 = 23_936_166;

/// Whether `year` has a 29 February.
pub open spec fn is_leap(year: int) -> bool {
    year % 4 == 0 && (year % 100 != 0 || year % 400 == 0)
}

/// The number of days of `year`.
pub open spec fn days_in_year(year: int) -> int {
    if is_leap(year) {
        366
    } else {
        365
    }
}

/// The number of days of `month` (1 to 12) in `year`.
pub open spec fn days_in_month(year: int, month: int) -> int {
    if month == 2 {
        if is_leap(year) {
            29
        } else {
            28
        }
    } else if month == 4 || month == 6 || month == 9 || month == 11 {
        30
    } else {
        31
    }
}

/// The number of days in the years 1 to `year - 1`.
pub open spec fn days_before_year(year: int) -> int
    decreases year,
{
    if year <= 1 {
        0
    } else {
        days_before_year(year - 1) + days_in_year(year - 1)
    }
}

/// The number of days in the months 1 to `month - 1` of `year`.
pub open spec fn days_before_month(year: int, month: int) -> int
    decreases month,
{
    if month <= 1 {
        0
    } else {
        days_before_month(year, month - 1) + days_in_month(year, month - 1)
    }
}

/// Whether (`year`, `month`, `day`) names a day of the calendar.
pub open spec fn is_civil(year: int, month: int, day: int) -> bool {
    &&& 1 <= year
    &&& 1 <= month <= 12
    &&& 1 <= day <= days_in_month(year, month)
}

/// The day number of a date: the days of the years and months before it, plus
/// its day of the month.
pub open spec fn day_number(year: int, month: int, day: int) -> int {
    days_before_year(year) + days_before_month(year, month) + day
}

/// The days of the years before `year` in closed form.
pub proof fn lemma_days_before_year(year: int)
    requires
        year >= 1,
    ensures
        days_before_year(year) == 365 * (year - 1) + (year - 1) / 4 - (year - 1) / 100 + (year
            - 1) / 400,
    decreases year,
{
    if year > 1 {
        lemma_days_before_year(year - 1);
    }
}

/// The days of the months before `month`, month by month.
pub proof fn lemma_days_before_month(year: int, month: int)
    requires
        1 <= month <= 13,
    ensures
        days_before_month(year, month) == (if month == 1 {
            0int
        } else if month == 2 {
            31
        } else {
            (if is_leap(year) {
                1int
            } else {
                0
            }) + (if month == 3 {
                59int
            } else if month == 4 {
                90
            } else if month == 5 {
                120
            } else if month == 6 {
                151
            } else if month == 7 {
                181
            } else if month == 8 {
                212
            } else if month == 9 {
                243
            } else if month == 10 {
                273
            } else if month == 11 {
                304
            } else if month == 12 {
                334
            } else {
                365
            })
        }),
    decreases month,
{
    if month > 1 {
        lemma_days_before_month(year, month - 1);
    }
}

/// The days from 1 March of year 0 to 1 March of `year`, where years are
/// counted from March to February.
pub open spec fn days_before_march(year: int) -> int {
    365 * year + year / 4 - year / 100 + year / 400
}

/// The days from 1 March to the first of `month`, where March is month 3 and
/// the following January and February are months 13 and 14.
pub open spec fn days_from_march(month: int) -> int {
    (979 * month - 2919) / 32
}

/// The day number of a date from the March-based count: a date in January or
/// February belongs to the March-based year before its own.
pub proof fn lemma_day_number_from_march(year: int, month: int, day: int)
    requires
        is_civil(year, month, day),
    ensures
        month <= 2 ==> day_number(year, month, day) == days_before_march(year - 1)
            + days_from_march(month + 12) + day - 306,
        month >= 3 ==> day_number(year, month, day) == days_before_march(year) + days_from_march(
            month,
        ) + day - 306,
{
    lemma_days_before_year(year);
    lemma_days_before_month(year, month);
}

/// The day number of the date (`year`, `month`, `day`).
pub fn day_number_of(year: u16, month: u8, day: u8) -> (n: u32)
    requires
        is_civil(year as int, month as int, day as int),
    ensures
        n == day_number(year as int, month as int, day as int),
        1 <= n <= MAX_DAY_NUMBER,
{
    proof {
        lemma_day_number_from_march(year as int, month as int, day as int);
    }
    let early: bool = month <= 2;
    let y: u32 = if early {
        year as u32 - 1
    } else {
        year as u32
    };
    let m: u32 = if early {
        month as u32 + 12
    } else {
        month as u32
    };
    let d: u32 = day as u32 - 1;
    let c: u32 = y / 100;
    let y_star: u32 = 1461 * y / 4 - c + c / 4;
    let m_star: u32 = (979 * m - 2919) / 32;
    assert(y_star == days_before_march(y as int));
    y_star + m_star + d - 305
}

/// Splits a count of days from 1 March of year 0 into whole centuries of
/// 36524 or 36525 days and the days left in the last one.
proof fn lemma_split_centuries(days: int)
    requires
        0 <= days,
    ensures
        ({
            let n1 = 4 * days + 3;
            let c = n1 / 146097;
            let rest = n1 % 146097 / 4;
            &&& 0 <= c
            &&& days == 36524 * c + c / 4 + rest
            &&& 0 <= rest <= 36524
            &&& rest == 36524 ==> c % 4 == 3
        }),
{
}

/// Splits the days of a century into whole March-based years and the day of
/// the last one. A year has 366 days when the February that ends it is a leap
/// February.
proof fn lemma_split_years(c: int, rest: int)
    requires
        0 <= c,
        0 <= rest <= 36524,
        rest == 36524 ==> c % 4 == 3,
    ensures
        ({
            let n2 = 4 * rest + 3;
            let z = n2 / 1461;
            let day_of_year = n2 % 1461 / 4;
            &&& 0 <= z <= 99
            &&& rest == 365 * z + z / 4 + day_of_year
            &&& 0 <= day_of_year <= 365
            &&& day_of_year == 365 ==> is_leap(100 * c + z + 1)
            &&& days_before_march(100 * c + z) == 36524 * c + c / 4 + 365 * z + z / 4
        }),
{
}

/// Division by 1461 through one multiplication and a shift by 32 bits, for
/// the numerators that occur within a century.
proof fn lemma_divide_by_1461(n2: int)
    requires
        0 <= n2 < 146100,
    ensures
        2939745 * n2 / 4294967296 == n2 / 1461,
        2939745 * n2 % 4294967296 / 2939745 == n2 % 1461,
{
    let q = n2 / 1461;
    let r = n2 % 1461;
    assert(2939745 * n2 == 4294967296 * q + (149 * q + 2939745 * r));
}

/// Splits the day of a March-based year into its month (3 to 14) and the day
/// of that month, counted from 0.
proof fn lemma_split_months(day_of_year: int)
    requires
        0 <= day_of_year <= 365,
    ensures
        ({
            let n3 = 2141 * day_of_year + 197913;
            let m = n3 / 65536;
            let d = n3 % 65536 / 2141;
            &&& 3 <= m <= 14
            &&& day_of_year == days_from_march(m) + d
            &&& 0 <= d
            &&& m <= 13 ==> days_from_march(m) + d < days_from_march(m + 1)
            &&& (m >= 13 <==> day_of_year >= 306)
        }),
{
}

/// The date whose day number is `n`.
pub fn civil_from_day_number(n: u32) -> (date: (u16, u8, u8))
    requires
        1 <= n <= MAX_DAY_NUMBER,
    ensures
        is_civil(date.0 as int, date.1 as int, date.2 as int),
        day_number(date.0 as int, date.1 as int, date.2 as int) == n,
{
    let days: u32 = n + 305;
    let n1: u32 = 4 * days + 3;
    let c: u32 = n1 / 146097;
    let rest: u32 = n1 % 146097 / 4;
    proof {
        lemma_split_centuries(days as int);
        lemma_split_years(c as int, rest as int);
        lemma_divide_by_1461(4 * rest + 3);
    }
    let n2: u32 = 4 * rest + 3;
    let p2: u64 = 2939745 * (n2 as u64);
    let z: u32 = (p2 / 4294967296) as u32;
    let day_of_year: u32 = (p2 % 4294967296 / 2939745 / 4) as u32;
    proof {
        lemma_split_months(day_of_year as int);
    }
    let n3: u32 = 2141 * day_of_year + 197913;
    let m: u32 = n3 / 65536;
    let d: u32 = n3 % 65536 / 2141;
    let late: bool = day_of_year >= 306;
    let year: u32 = if late {
        100 * c + z + 1
    } else {
        100 * c + z
    };
    let month: u32 = if late {
        m - 12
    } else {
        m
    };
    proof {
        assert(days == days_before_march(100 * c + z) + days_from_march(m as int) + d);
        assert(1 <= month <= 12);
        assert(1 <= d + 1 <= days_in_month(year as int, month as int));
        assert(1 <= year);
        lemma_day_number_from_march(year as int, month as int, d + 1);
        assert(day_number(year as int, month as int, d + 1) == n);
        if year >= 65536 {
            lemma_days_before_year(year as int);
        }
        assert(year <= 65535);
    }
    (year as u16, month as u8, (d + 1) as u8)
}

/// From March on, the days before a month grow with the month.
proof fn lemma_days_before_month_grows(year: int, earlier: int, later: int)
    requires
        1 <= earlier <= later <= 13,
    ensures
        days_before_month(year, earlier) <= days_before_month(year, later),
{
    lemma_days_before_month(year, earlier);
    lemma_days_before_month(year, later);
}

/// The days before a year grow with the year.
proof fn lemma_days_before_year_grows(earlier: int, later: int)
    requires
        earlier <= later,
    ensures
        days_before_year(earlier) <= days_before_year(later),
    decreases later - earlier,
{
    if earlier < later {
        lemma_days_before_year_grows(earlier, later - 1);
    }
}

/// Whether the first date comes before the second in the calendar.
pub open spec fn is_before(
    year1: int,
    month1: int,
    day1: int,
    year2: int,
    month2: int,
    day2: int,
) -> bool {
    year1 < year2 || (year1 == year2 && (month1 < month2 || (month1 == month2 && day1 < day2)))
}

/// A date that comes earlier in the calendar has the smaller day number.
pub proof fn lemma_day_number_order(
    year1: int,
    month1: int,
    day1: int,
    year2: int,
    month2: int,
    day2: int,
)
    requires
        is_civil(year1, month1, day1),
        is_civil(year2, month2, day2),
        is_before(year1, month1, day1, year2, month2, day2),
    ensures
        day_number(year1, month1, day1) < day_number(year2, month2, day2),
{
    if year1 < year2 {
        lemma_days_before_month_grows(year1, month1 + 1, 13);
        lemma_days_before_month(year1, 13);
        lemma_days_before_year_grows(year1 + 1, year2);
        lemma_days_before_month_grows(year2, 1, month2);
    } else if month1 < month2 {
        lemma_days_before_month_grows(year1, month1 + 1, month2);
    }
}

/// No two dates share a day number.
pub proof fn lemma_day_number_injective(
    year1: int,
    month1: int,
    day1: int,
    year2: int,
    month2: int,
    day2: int,
)
    requires
        is_civil(year1, month1, day1),
        is_civil(year2, month2, day2),
        day_number(year1, month1, day1) == day_number(year2, month2, day2),
    ensures
        year1 == year2,
        month1 == month2,
        day1 == day2,
{
    if is_before(year1, month1, day1, year2, month2, day2) {
        lemma_day_number_order(year1, month1, day1, year2, month2, day2);
    } else if is_before(year2, month2, day2, year1, month1, day1) {
        lemma_day_number_order(year2, month2, day2, year1, month1, day1);
    }
}

} // verus!
