//! Time as a zip record holds it: MS-DOS date and time, sixteen bits
//! each, in steps of two seconds from 1980 to 2107.

use vstd::prelude::*;
use crate::calendar::date_from_days;
use crate::calendar::date_of;
use crate::calendar::days_from_date;
use crate::calendar::days_of;
use crate::calendar::is_date;
use crate::calendar::lemma_date_of_days;
use crate::calendar::lemma_days_grow;
use crate::calendar::lemma_days_of_date;
use crate::calendar::month_len;
use crate::calendar::Date;

verus! {

/// 1 January 1980, 00:00:00, in seconds since 1970: the earliest time
/// that a stamp can hold.
pub const DOS_FIRST: u64 = 315_532_800;

/// 1 January 2108, 00:00:00, in seconds since 1970: the first time that
/// no stamp can hold.
pub const DOS_END: u64 = 4_354_819_200;

/// The stamp of 1 January 1980, 00:00:00.
pub const STAMP_FIRST: u32 = 2_162_688;

/// The stamp of 31 December 2107, 23:59:58.
pub const STAMP_LAST: u32 = 4_288_659_325;

/// The date field of a stamp: years since 1980, month and day.
pub open spec fn date_field(date: Date) -> int {
    (date.year - 1980) * 512 + date.month * 32 + date.day
}

/// The time field of a stamp: hour, minute, and seconds by twos.
pub open spec fn time_field(second_of_day: int) -> int {
    (second_of_day / 3600) * 2048 + ((second_of_day % 3600) / 60) * 32 + (second_of_day % 60) / 2
}

/// The stamp of a time given in seconds since 1970. A time before 1980
/// gets the first stamp, one after 2107 the last; an odd second is
/// rounded down.
pub open spec fn stamp_of(seconds: u64) -> u32 {
    if seconds < DOS_FIRST {
        STAMP_FIRST
    } else if seconds >= DOS_END {
        STAMP_LAST
    } else {
        (date_field(date_of(seconds as int / 86400)) * 65536 + time_field(
            seconds as int % 86400,
        )) as u32
    }
}

/// The number held to the range from `low` to `high`.
pub open spec fn held_to(value: int, low: int, high: int) -> int {
    if value < low {
        low
    } else if value > high {
        high
    } else {
        value
    }
}

/// The date that a stamp's date field says. A month or day out of range
/// is held to the nearest that exists.
pub open spec fn stamp_date(stamp: u32) -> Date {
    let field = stamp as int / 65536;
    let year = 1980 + field / 512;
    let month = held_to((field / 32) % 16, 1, 12);
    let day = held_to(field % 32, 1, month_len(year, month));
    Date { year: year as u64, month: month as u64, day: day as u64 }
}

/// The second of the day that a stamp's time field says. An hour, minute
/// or second out of range is held to the last that exists.
pub open spec fn stamp_second(stamp: u32) -> int {
    let field = stamp as int % 65536;
    held_to(field / 2048, 0, 23) * 3600 + held_to((field / 32) % 64, 0, 59) * 60 + held_to(
        (field % 32) * 2,
        0,
        58,
    )
}

/// The time of a stamp, in seconds since 1970.
pub open spec fn seconds_of(stamp: u32) -> u64 {
    (days_of(stamp_date(stamp)) * 86400 + stamp_second(stamp)) as u64
}

/// Whether every field of the stamp is in range.
pub open spec fn is_stamp(stamp: u32) -> bool {
    let date = stamp as int / 65536;
    let time = stamp as int % 65536;
    &&& 1 <= (date / 32) % 16 <= 12
    &&& 1 <= date % 32 <= month_len(1980 + date / 512, (date / 32) % 16)
    &&& time / 2048 <= 23
    &&& (time / 32) % 64 <= 59
    &&& time % 32 <= 29
}

/// The parts of a date field are read back from it.
#[verifier::rlimit(50)]
pub proof fn lemma_date_field_parts(year: int, month: int, day: int)
    requires
        1980 <= year <= 2107,
        1 <= month <= 12,
        1 <= day <= 31,
    ensures
        ({
            let field = (year - 1980) * 512 + month * 32 + day;
            &&& 0 <= field < 65536
            &&& field / 512 == year - 1980
            &&& (field / 32) % 16 == month
            &&& field % 32 == day
        }),
{
}

/// The parts of a time field are read back from it, the seconds by twos.
#[verifier::rlimit(50)]
pub proof fn lemma_time_field_parts(rest: int)
    requires
        0 <= rest < 86400,
    ensures
        ({
            let field = time_field(rest);
            &&& 0 <= field < 65536
            &&& field / 2048 == rest / 3600
            &&& field / 2048 <= 23
            &&& (field / 32) % 64 == (rest % 3600) / 60
            &&& (field / 32) % 64 <= 59
            &&& field % 32 == (rest % 60) / 2
            &&& field % 32 <= 29
            &&& (field / 2048) * 3600 + ((field / 32) % 64) * 60 + (field % 32) * 2 == rest - rest
                % 2
        }),
{
    let hour = rest / 3600;
    let minute = (rest % 3600) / 60;
    let half = (rest % 60) / 2;
    assert(0 <= hour <= 23);
    assert(0 <= minute <= 59);
    assert(0 <= half <= 29);
    let field = hour * 2048 + minute * 32 + half;
    assert(field == time_field(rest));
    assert(field / 2048 == hour);
    assert((field / 32) % 64 == minute);
    assert(field % 32 == half);
}

/// A time field with every part in range is made again from the second
/// of the day that it says.
#[verifier::rlimit(50)]
pub proof fn lemma_time_field_of_second(field: int)
    requires
        0 <= field < 65536,
        field / 2048 <= 23,
        (field / 32) % 64 <= 59,
        field % 32 <= 29,
    ensures
        ({
            let second = (field / 2048) * 3600 + ((field / 32) % 64) * 60 + (field % 32) * 2;
            &&& 0 <= second < 86400
            &&& time_field(second) == field
        }),
{
    let hour = field / 2048;
    let minute = (field / 32) % 64;
    let half = field % 32;
    let second = hour * 3600 + minute * 60 + half * 2;
    assert(field == hour * 2048 + minute * 32 + half);
    assert(second / 3600 == hour);
    assert((second % 3600) / 60 == minute);
    assert((second % 60) / 2 == half);
}

/// The two fields of a stamp are read back from it.
pub proof fn lemma_stamp_fields(date: int, time: int)
    requires
        0 <= date < 65536,
        0 <= time < 65536,
    ensures
        ((date * 65536 + time) as u32) as int / 65536 == date,
        ((date * 65536 + time) as u32) as int % 65536 == time,
{
}

/// The stamp made of a date between 1980 and 2107 and a second of the
/// day says that date and that second, rounded down to an even one.
#[verifier::rlimit(50)]
pub proof fn lemma_stamp_says(date: Date, rest: int)
    requires
        is_date(date),
        1980 <= date.year <= 2107,
        0 <= rest < 86400,
    ensures
        ({
            let stamp = (date_field(date) * 65536 + time_field(rest)) as u32;
            &&& is_stamp(stamp)
            &&& stamp_date(stamp) == date
            &&& stamp_second(stamp) == rest - rest % 2
        }),
{
    lemma_date_field_parts(date.year as int, date.month as int, date.day as int);
    lemma_time_field_parts(rest);
    lemma_stamp_fields(date_field(date), time_field(rest));
}

/// The year of a day count between 1980 and 2107.
#[verifier::rlimit(50)]
pub proof fn lemma_year_of_days(days: int)
    requires
        3652 <= days < 50403,
    ensures
        1980 <= date_of(days).year <= 2107,
{
    lemma_date_of_days(days);
    let date = date_of(days);
    let first = Date { year: 1980, month: 1, day: 1 };
    let last = Date { year: 2107, month: 12, day: 31 };
    assert(days_of(first) == 3652);
    assert(days_of(last) == 50402);
    if date.year < 1980 {
        lemma_days_grow(date, first);
    }
    if date.year > 2107 {
        lemma_days_grow(last, date);
    }
}

/// The day counts of the dates between 1980 and 2107.
#[verifier::rlimit(50)]
pub proof fn lemma_days_of_stamp_date(date: Date)
    requires
        is_date(date),
        1980 <= date.year <= 2107,
    ensures
        3652 <= days_of(date) < 50403,
{
    let first = Date { year: 1980, month: 1, day: 1 };
    let last = Date { year: 2107, month: 12, day: 31 };
    assert(days_of(first) == 3652);
    assert(days_of(last) == 50402);
    if date != first {
        lemma_days_grow(first, date);
    }
    if date != last {
        lemma_days_grow(date, last);
    }
}

/// A time that a stamp can hold is read back from its stamp, but for an
/// odd second, which comes back rounded down; and the stamp has every
/// field in range.
#[verifier::rlimit(50)]
pub proof fn lemma_stamp_round_trip(seconds: u64)
    requires
        DOS_FIRST <= seconds < DOS_END,
    ensures
        is_stamp(stamp_of(seconds)),
        seconds_of(stamp_of(seconds)) == seconds - seconds % 2,
{
    let days = seconds as int / 86400;
    let rest = seconds as int % 86400;
    let date = date_of(days);
    lemma_date_of_days(days);
    lemma_year_of_days(days);
    lemma_stamp_says(date, rest);
    assert(seconds as int == days * 86400 + rest);
    assert(seconds % 2 == rest % 2);
}

/// A stamp with every field in range is made again from its time.
#[verifier::rlimit(50)]
pub proof fn lemma_stamp_of_seconds(stamp: u32)
    requires
        is_stamp(stamp),
    ensures
        DOS_FIRST <= seconds_of(stamp) < DOS_END,
        stamp_of(seconds_of(stamp)) == stamp,
{
    let field = stamp as int / 65536;
    let time = stamp as int % 65536;
    let date = stamp_date(stamp);
    assert(0 <= field / 512 <= 127);
    assert(is_date(date));
    assert(date_field(date) == field) by {
        assert(field == (field / 512) * 512 + ((field / 32) % 16) * 32 + field % 32);
    }
    lemma_days_of_date(date);
    lemma_days_of_stamp_date(date);
    lemma_time_field_of_second(time);
    let second = stamp_second(stamp);
    let days = days_of(date);
    let seconds = days * 86400 + second;
    assert(seconds / 86400 == days);
    assert(seconds % 86400 == second);
    assert(stamp as int == field * 65536 + time);
}

/// The number of days of the month.
pub fn days_in_month(year: u64, month: u64) -> (len: u64)
    ensures
        len == month_len(year as int, month as int),
{
    if month == 2 {
        if year % 4 == 0 && (year % 100 != 0 || year % 400 == 0) {
            29
        } else {
            28
        }
    } else if month == 4 || month == 6 || month == 9 || month == 11 {
        30
    } else {
        31
    }
}

fn hold(value: u64, low: u64, high: u64) -> (held: u64)
    ensures
        held == held_to(value as int, low as int, high as int),
{
    if value < low {
        low
    } else if value > high {
        high
    } else {
        value
    }
}

/// The stamp of a time given in seconds since 1970.
#[verifier::rlimit(50)]
pub fn stamp_from_seconds(seconds: u64) -> (stamp: u32)
    ensures
        stamp == stamp_of(seconds),
{
    if seconds < DOS_FIRST {
        STAMP_FIRST
    } else if seconds >= DOS_END {
        STAMP_LAST
    } else {
        let days: u64 = seconds / 86400;
        let rest: u64 = seconds % 86400;
        let date = date_from_days(days);
        proof {
            lemma_date_of_days(days as int);
            lemma_year_of_days(days as int);
        }
        let field: u64 = (date.year - 1980) * 512 + date.month * 32 + date.day;
        let time: u64 = (rest / 3600) * 2048 + ((rest % 3600) / 60) * 32 + (rest % 60) / 2;
        (field * 65536 + time) as u32
    }
}

/// The time of a stamp, in seconds since 1970.
#[verifier::rlimit(50)]
pub fn seconds_from_stamp(stamp: u32) -> (seconds: u64)
    ensures
        seconds == seconds_of(stamp),
{
    let field: u64 = (stamp / 65536) as u64;
    let time: u64 = (stamp % 65536) as u64;
    let year: u64 = 1980 + field / 512;
    let month: u64 = hold((field / 32) % 16, 1, 12);
    let day: u64 = hold(field % 32, 1, days_in_month(year, month));
    let date = Date { year, month, day };
    let second: u64 = hold(time / 2048, 0, 23) * 3600 + hold((time / 32) % 64, 0, 59) * 60 + hold(
        (time % 32) * 2,
        0,
        58,
    );
    days_from_date(date) * 86400 + second
}

} // verus!
