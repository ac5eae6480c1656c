//! Days and dates: the count of days since 1 January 1970 and the civil
//! date it stands for.

use vstd::prelude::*;

verus! {

/// A civil date.
#[derive(Clone, Copy, Debug, PartialEq, Eq, Structural)]
pub struct Date {
    pub year: u64,
    pub month: u64,
    pub day: u64,
}

/// Whether the year is a leap year.
pub open spec fn is_leap(year: int) -> bool {
    year % 4 == 0 && (year % 100 != 0 || year % 400 == 0)
}

/// The number of days of the month.
pub open spec fn month_len(year: int, month: int) -> int {
    if month == 2 {
        if is_leap(year) {
            29
        } else {
            28
        }
    } else if month == 4 || month == 6 || month == 9 || month == 11 {
        30
    } else {
        31
    }
}

/// Whether the date is one of the calendar, from 1970 on.
pub open spec fn is_date(date: Date) -> bool {
    &&& 1970 <= date.year
    &&& 1 <= date.month <= 12
    &&& 1 <= date.day <= month_len(date.year as int, date.month as int)
}

/// The days from 1 March of year 0 to 1 March of the year.
pub open spec fn march_start(year: int) -> int {
    year * 365 + year / 4 - year / 100 + year / 400
}

/// How far into its March year a date lies: the days from 1 March to it.
pub open spec fn march_offset(month: int, day: int) -> int {
    let shifted = if month <= 2 {
        month + 9
    } else {
        month - 3
    };
    (153 * shifted + 2) / 5 + day - 1
}

/// The days from 1 March of year 0 to the date, in a calendar whose years
/// begin in March: the leap day is then the last day of a year.
pub open spec fn march_days(year: int, month: int, day: int) -> int {
    let march_year = if month <= 2 {
        year - 1
    } else {
        year
    };
    march_start(march_year) + march_offset(month, day)
}

/// The days from 1 January 1970 to the date.
pub open spec fn days_of(date: Date) -> int {
    march_days(date.year as int, date.month as int, date.day as int) - 719468
}

/// The date that lies the given number of days after 1 January 1970,
/// found by counting in eras of 400 years that begin on 1 March. That
/// this is the date with the given day count, and the only one, is what
/// `lemma_date_of_days` and `lemma_days_tell_dates_apart` show.
#[verifier::opaque]
pub open spec fn date_of(days: int) -> Date {
    let z = days + 719468;
    let era = z / 146097;
    let doe = z - era * 146097;
    let yoe = (doe - doe / 1460 + doe / 36524 - doe / 146096) / 365;
    let doy = doe - (365 * yoe + yoe / 4 - yoe / 100);
    let mp = (5 * doy + 2) / 153;
    let day = doy - (153 * mp + 2) / 5 + 1;
    let month = if mp < 10 {
        mp + 3
    } else {
        mp - 9
    };
    let year = yoe + era * 400 + if month <= 2 {
        1int
    } else {
        0int
    };
    Date { year: year as u64, month: month as u64, day: day as u64 }
}

/// The days from 1 January 1970 to the date.
#[verifier::rlimit(50)]
pub fn days_from_date(date: Date) -> (days: u64)
    requires
        is_date(date),
        date.year <= 1_000_000,
    ensures
        days == days_of(date),
{
    let y: u64 = if date.month <= 2 {
        date.year - 1
    } else {
        date.year
    };
    let shifted: u64 = if date.month <= 2 {
        date.month + 9
    } else {
        date.month - 3
    };
    y * 365 + y / 4 - y / 100 + y / 400 + (153 * shifted + 2) / 5 + date.day - 1 - 719468
}

/// The date that lies the given number of days after 1 January 1970: the
/// one date of the calendar that has this day count.
#[verifier::rlimit(50)]
pub fn date_from_days(days: u64) -> (date: Date)
    requires
        days <= 365_000_000,
    ensures
        date == date_of(days as int),
        is_date(date),
        days_of(date) == days,
{
    proof {
        reveal(date_of);
        lemma_date_of_days(days as int);
    }
    let z: u64 = days + 719468;
    let era: u64 = z / 146097;
    let doe: u64 = z - era * 146097;
    let yoe: u64 = (doe - doe / 1460 + doe / 36524 - doe / 146096) / 365;
    let doy: u64 = doe - (365 * yoe + yoe / 4 - yoe / 100);
    let mp: u64 = (5 * doy + 2) / 153;
    let day: u64 = doy - (153 * mp + 2) / 5 + 1;
    let month: u64 = if mp < 10 {
        mp + 3
    } else {
        mp - 9
    };
    let year: u64 = yoe + era * 400 + if month <= 2 {
        1
    } else {
        0
    };
    Date { year, month, day }
}

/// The date of a day count is a date of the calendar, and its day count
/// is the count it was made from.
#[verifier::rlimit(50)]
pub proof fn lemma_date_of_days(days: int)
    requires
        0 <= days <= 365_000_000,
    ensures
        is_date(date_of(days)),
        days_of(date_of(days)) == days,
{
    reveal(date_of);
    let z = days + 719468;
    let era = z / 146097;
    let doe = z - era * 146097;
    let yoe = (doe - doe / 1460 + doe / 36524 - doe / 146096) / 365;
    let doy = doe - (365 * yoe + yoe / 4 - yoe / 100);
    let mp = (5 * doy + 2) / 153;
    let day = doy - (153 * mp + 2) / 5 + 1;
    let month = if mp < 10 {
        mp + 3
    } else {
        mp - 9
    };
    let y = yoe + era * 400;
    assert(0 <= doe < 146097);
    assert(0 <= yoe <= 399);
    assert(0 <= doy <= 365);
    assert(0 <= mp <= 11);
    assert(1 <= day <= 31);
    assert(y / 4 == yoe / 4 + era * 100);
    assert(y / 100 == yoe / 100 + era * 4);
    assert(y / 400 == era);
}

/// A March year has 365 days, or 366 where it ends in a leap day.
#[verifier::rlimit(50)]
pub proof fn lemma_march_year_len(year: int)
    requires
        0 <= year,
    ensures
        march_start(year + 1) - march_start(year) == if is_leap(year + 1) {
            366int
        } else {
            365int
        },
{
}

/// Later March years begin later.
pub proof fn lemma_march_start_grows(low: int, high: int)
    requires
        0 <= low <= high,
    ensures
        march_start(low) <= march_start(high),
    decreases high - low,
{
    if low < high {
        lemma_march_start_grows(low, high - 1);
        lemma_march_year_len(high - 1);
    }
}

/// A date lies within its March year.
#[verifier::rlimit(50)]
pub proof fn lemma_offset_within_year(date: Date)
    requires
        is_date(date),
    ensures
        ({
            let y = if date.month <= 2 {
                date.year - 1
            } else {
                date.year as int
            };
            0 <= march_offset(date.month as int, date.day as int) < march_start(y + 1)
                - march_start(y)
        }),
{
    let y = if date.month <= 2 {
        date.year - 1
    } else {
        date.year as int
    };
    lemma_march_year_len(y);
}

/// Two dates of the calendar with one day count are one date.
#[verifier::rlimit(50)]
pub proof fn lemma_days_tell_dates_apart(first: Date, second: Date)
    requires
        is_date(first),
        is_date(second),
        days_of(first) == days_of(second),
    ensures
        first == second,
{
    let ya = if first.month <= 2 {
        first.year - 1
    } else {
        first.year as int
    };
    let yb = if second.month <= 2 {
        second.year - 1
    } else {
        second.year as int
    };
    let fa = march_offset(first.month as int, first.day as int);
    let fb = march_offset(second.month as int, second.day as int);
    lemma_offset_within_year(first);
    lemma_offset_within_year(second);
    assert(days_of(first) == march_start(ya) + fa - 719468);
    assert(days_of(second) == march_start(yb) + fb - 719468);
    if ya < yb {
        lemma_march_start_grows(ya + 1, yb);
    }
    if yb < ya {
        lemma_march_start_grows(yb + 1, ya);
    }
    assert(ya == yb);
    assert(fa == fb);
    let sa = if first.month <= 2 {
        first.month + 9
    } else {
        first.month - 3
    };
    let sb = if second.month <= 2 {
        second.month + 9
    } else {
        second.month - 3
    };
    assert(sa == sb);
}

/// A later date has a larger day count.
#[verifier::rlimit(50)]
pub proof fn lemma_days_grow(earlier: Date, later: Date)
    requires
        is_date(earlier),
        is_date(later),
        earlier.year < later.year || (earlier.year == later.year && (earlier.month < later.month
            || (earlier.month == later.month && earlier.day < later.day))),
    ensures
        days_of(earlier) < days_of(later),
{
    let ya = if earlier.month <= 2 {
        earlier.year - 1
    } else {
        earlier.year as int
    };
    let yb = if later.month <= 2 {
        later.year - 1
    } else {
        later.year as int
    };
    lemma_offset_within_year(earlier);
    lemma_offset_within_year(later);
    if ya < yb {
        lemma_march_start_grows(ya + 1, yb);
    }
}

/// The day count of a date stands for that date and no other.
pub proof fn lemma_days_of_date(date: Date)
    requires
        is_date(date),
        date.year <= 1_000_000,
    ensures
        0 <= days_of(date) <= 365_000_000,
        date_of(days_of(date)) == date,
{
    lemma_days_in_range(date);
    lemma_date_of_days(days_of(date));
    lemma_days_tell_dates_apart(date_of(days_of(date)), date);
}

/// The day counts of the dates up to the year 1,000,000.
pub proof fn lemma_days_in_range(date: Date)
    requires
        is_date(date),
        date.year <= 1_000_000,
    ensures
        0 <= days_of(date) <= 365_000_000,
{
}

} // verus!
