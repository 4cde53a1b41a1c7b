//! The proleptic Gregorian calendar in UTC.
use vstd::prelude::*;

verus! {

pub open spec fn is_leap_year(year: int) -> bool {
    year % 4 == 0 && (year % 100 != 0 || year % 400 == 0)
}

pub open spec fn days_in_month(year: int, month: int) -> int {
    if month == 2 {
        if is_leap_year(year) {
            29
        } else {
            28
        }
    } else if month == 4 || month == 6 || month == 9 || month == 11 {
        30
    } else {
        31
    }
}

/// Whether `(year, month, day)` names a day of the calendar.
pub open spec fn is_date(date: (int, int, int)) -> bool {
    1 <= date.1 <= 12 && 1 <= date.2 <= days_in_month(date.0, date.1)
}

/// Leap years from year 1 through `year`; negative before year 1.
pub open spec fn leap_years_through(year: int) -> int {
    year / 4 - year / 100 + year / 400
}

/// Days from 1970-01-01 to the first day of `year`.
pub open spec fn days_before_year(year: int) -> int {
    365 * (year - 1970) + leap_years_through(year - 1) - leap_years_through(1969)
}

/// Days from the first day of the year to the first day of `month`.
pub open spec fn days_before_month(year: int, month: int) -> int
    decreases month,
{
    if month <= 1 {
        0
    } else {
        days_before_month(year, month - 1) + days_in_month(year, month - 1)
    }
}

/// Days from 1970-01-01 to `(year, month, day)`.
pub open spec fn day_number(date: (int, int, int)) -> int {
    days_before_year(date.0) + days_before_month(date.0, date.1) + date.2 - 1
}

proof fn lemma_months(year: int)
    ensures
        days_before_month(year, 1) == 0,
        days_before_month(year, 2) == 31,
        days_before_month(year, 3) == 59 + if is_leap_year(year) { 1int } else { 0 },
        days_before_month(year, 4) == days_before_month(year, 3) + 31,
        days_before_month(year, 5) == days_before_month(year, 3) + 61,
        days_before_month(year, 6) == days_before_month(year, 3) + 92,
        days_before_month(year, 7) == days_before_month(year, 3) + 122,
        days_before_month(year, 8) == days_before_month(year, 3) + 153,
        days_before_month(year, 9) == days_before_month(year, 3) + 184,
        days_before_month(year, 10) == days_before_month(year, 3) + 214,
        days_before_month(year, 11) == days_before_month(year, 3) + 245,
        days_before_month(year, 12) == days_before_month(year, 3) + 275,
{
    reveal_with_fuel(days_before_month, 13);
}

proof fn lemma_year_length(year: int)
    ensures
        days_before_year(year + 1) - days_before_year(year) == if is_leap_year(year) {
            366int
        } else {
            365
        },
{
}

proof fn lemma_year_order(early: int, late: int)
    requires
        early < late,
    ensures
        days_before_year(early) + 365 + (if is_leap_year(early) { 1int } else { 0 })
            <= days_before_year(late),
    decreases late - early,
{
    lemma_year_length(early);
    if early + 1 < late {
        lemma_year_order(early + 1, late);
    }
}

/// Days are numbered without gaps or repeats: two dates with one day number are the same date.
pub proof fn day_numbers_are_unique(first: (int, int, int), second: (int, int, int))
    requires
        is_date(first),
        is_date(second),
        day_number(first) == day_number(second),
    ensures
        first == second,
{
    lemma_months(first.0);
    lemma_months(second.0);
    if first.0 < second.0 {
        lemma_year_order(first.0, second.0);
    } else if second.0 < first.0 {
        lemma_year_order(second.0, first.0);
    }
}

/// The years of the days that an unsigned count of nanoseconds since 1970 can reach.
pub proof fn lemma_year_range(date: (int, int, int))
    requires
        is_date(date),
        0 <= day_number(date) <= 213_503,
    ensures
        1970 <= date.0 <= 2554,
{
    lemma_months(date.0);
    if date.0 < 1970 {
        lemma_year_order(date.0, 1970);
    } else if date.0 > 2554 {
        if date.0 > 2555 {
            lemma_year_order(2555, date.0);
        }
    }
}

/// The year of a 400-year era and the day of that year, both counted from the first of March.
proof fn lemma_year_of_era(day_of_era: int)
    requires
        0 <= day_of_era < 146_097,
    ensures
        ({
            let year = (day_of_era - day_of_era / 1_460 + day_of_era / 36_524 - day_of_era / 146_096)
                / 365;
            let day = day_of_era - (365 * year + year / 4 - year / 100);
            0 <= year < 400 && 0 <= day <= 365 && (day == 365 ==> is_leap_year(year + 1))
        }),
{
}

/// The month counted from March, and the day in that month.
proof fn lemma_month_of_year(day_of_year: int)
    requires
        0 <= day_of_year <= 365,
    ensures
        ({
            let part = (5 * day_of_year + 2) / 153;
            let day = day_of_year - (153 * part + 2) / 5 + 1;
            &&& 0 <= part <= 11
            &&& 1 <= day <= 31
            &&& (part == 1 || part == 3 || part == 6 || part == 8) ==> day <= 30
            &&& part == 11 ==> day <= 29
            &&& part == 11 && day_of_year <= 364 ==> day <= 28
        }),
{
}

/// The date that lies `day_of_year` days after the first of March of `march_year`.
proof fn lemma_date_after_march(march_year: int, day_of_year: int)
    requires
        0 <= day_of_year <= 365,
        day_of_year == 365 ==> is_leap_year(march_year + 1),
    ensures
        ({
            let part = (5 * day_of_year + 2) / 153;
            let day = day_of_year - (153 * part + 2) / 5 + 1;
            let date = if part < 10 {
                (march_year, part + 3, day)
            } else {
                (march_year + 1, part - 9, day)
            };
            is_date(date) && day_number(date) == 365 * (march_year - 1970) + leap_years_through(
                march_year,
            ) - leap_years_through(1969) + 59 + day_of_year
        }),
{
    lemma_month_of_year(day_of_year);
    lemma_months(march_year);
    lemma_months(march_year + 1);
    lemma_year_length(march_year);
}

/// Every era of 400 years has the same leap years.
proof fn lemma_era(era: int, year_of_era: int)
    requires
        0 <= year_of_era < 400,
    ensures
        leap_years_through(year_of_era + era * 400) == 97 * era + year_of_era / 4 - year_of_era / 100,
        is_leap_year(year_of_era + era * 400 + 1) == is_leap_year(year_of_era + 1),
{
    let year = year_of_era + era * 400;
    assert(year / 4 == year_of_era / 4 + 100 * era);
    assert(year / 100 == year_of_era / 100 + 4 * era);
    assert(year / 400 == era);
    assert((year + 1) % 4 == (year_of_era + 1) % 4);
    assert((year + 1) % 100 == (year_of_era + 1) % 100);
    assert((year + 1) % 400 == (year_of_era + 1) % 400);
}

/// Howard Hinnant's civil-from-days conversion.
///
/// `days` is the number of days since 1970-01-01. The result is `(year, month, day)`.
pub fn civil_from_days(days: i64) -> (date: (i32, u32, u32))
    requires
        -784_000_000_000 <= days <= 784_000_000_000,
    ensures
        is_date((date.0 as int, date.1 as int, date.2 as int)),
        day_number((date.0 as int, date.1 as int, date.2 as int)) == days,
{
    let z: i64 = days + 719_468;
    let era: i64 = if z >= 0 {
        z / 146_097
    } else {
        -((146_096 - z) / 146_097)
    };
    let day_of_era: i64 = z - era * 146_097;
    proof {
        lemma_year_of_era(day_of_era as int);
    }
    let year_of_era: i64 = (day_of_era - day_of_era / 1_460 + day_of_era / 36_524 - day_of_era
        / 146_096) / 365;
    let march_year: i64 = year_of_era + era * 400;
    let day_of_year: i64 = day_of_era - (365 * year_of_era + year_of_era / 4 - year_of_era / 100);
    proof {
        lemma_month_of_year(day_of_year as int);
        lemma_era(era as int, year_of_era as int);
        lemma_date_after_march(march_year as int, day_of_year as int);
    }
    let month_part: i64 = (5 * day_of_year + 2) / 153;
    let day: i64 = day_of_year - (153 * month_part + 2) / 5 + 1;
    let month: i64 = if month_part < 10 {
        month_part + 3
    } else {
        month_part - 9
    };
    let year: i64 = if month <= 2 {
        march_year + 1
    } else {
        march_year
    };
    (year as i32, month as u32, day as u32)
}

/// Days are numbered one after another, from the first of January 1970 on: the day after a day has the
/// next number. The thirty-first follows the thirtieth in the seven long months; February has a
/// twenty-ninth day in the years that four divides, but of the full centuries only in those that four
/// hundred divides.
pub proof fn days_follow_each_other(year: int, month: int, day: int)
    requires
        1 <= month <= 12,
        1 <= day <= 31,
    ensures
        day_number((1970, 1, 1)) == 0,
        is_date((year, month, day)) <==> day <= 28 || (day == 29 && (month != 2 || (year % 4 == 0 && (
        year % 100 != 0 || year % 400 == 0)))) || (day == 30 && month != 2) || (day == 31 && (month
            == 1 || month == 3 || month == 5 || month == 7 || month == 8 || month == 10 || month
            == 12)),
        day_number((year, month, day + 1)) == day_number((year, month, day)) + 1,
        is_date((year, month, day)) && !is_date((year, month, day + 1)) ==> if month < 12 {
            day_number((year, month + 1, 1)) == day_number((year, month, day)) + 1
        } else {
            day_number((year + 1, 1, 1)) == day_number((year, month, day)) + 1
        },
{
    lemma_months(year);
    lemma_months(year + 1);
    lemma_months(1970);
    lemma_year_length(year);
}

/// Every day has a date.
pub proof fn every_day_has_a_date(days: int) -> (date: (int, int, int))
    requires
        days >= 0,
    ensures
        is_date(date),
        day_number(date) == days,
{
    let z = days + 719_468;
    let era = z / 146_097;
    let day_of_era = z - era * 146_097;
    lemma_year_of_era(day_of_era);
    let year_of_era = (day_of_era - day_of_era / 1_460 + day_of_era / 36_524 - day_of_era / 146_096)
        / 365;
    let march_year = year_of_era + era * 400;
    let day_of_year = day_of_era - (365 * year_of_era + year_of_era / 4 - year_of_era / 100);
    lemma_month_of_year(day_of_year);
    lemma_era(era, year_of_era);
    lemma_date_after_march(march_year, day_of_year);
    let part = (5 * day_of_year + 2) / 153;
    let day = day_of_year - (153 * part + 2) / 5 + 1;
    if part < 10 {
        (march_year, part + 3, day)
    } else {
        (march_year + 1, part - 9, day)
    }
}

} // verus!
