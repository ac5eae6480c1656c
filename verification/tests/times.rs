use rusty_zip::calendar::date_from_days;
use rusty_zip::calendar::days_from_date;
use rusty_zip::calendar::Date;
use rusty_zip::dos_time::days_in_month;
use rusty_zip::dos_time::seconds_from_stamp;
use rusty_zip::dos_time::stamp_from_seconds;
use rusty_zip::dos_time::DOS_END;
use rusty_zip::dos_time::DOS_FIRST;
use rusty_zip::dos_time::STAMP_FIRST;
use rusty_zip::dos_time::STAMP_LAST;

fn date(year: u64, month: u64, day: u64) -> Date {
    Date { year, month, day }
}

#[test]
fn known_dates() {
    assert_eq!(date_from_days(0), date(1970, 1, 1));
    assert_eq!(date_from_days(58), date(1970, 2, 28));
    assert_eq!(date_from_days(59), date(1970, 3, 1));
    assert_eq!(date_from_days(3652), date(1980, 1, 1));
    assert_eq!(date_from_days(11016), date(2000, 2, 29));
    assert_eq!(date_from_days(11017), date(2000, 3, 1));
    assert_eq!(date_from_days(19675), date(2023, 11, 14));
    assert_eq!(date_from_days(47540), date(2100, 2, 28));
    assert_eq!(date_from_days(47541), date(2100, 3, 1));
    assert_eq!(date_from_days(50402), date(2107, 12, 31));
}

#[test]
fn known_day_counts() {
    assert_eq!(days_from_date(date(1970, 1, 1)), 0);
    assert_eq!(days_from_date(date(1980, 1, 1)), 3652);
    assert_eq!(days_from_date(date(2000, 2, 29)), 11016);
    assert_eq!(days_from_date(date(2023, 11, 14)), 19675);
    assert_eq!(days_from_date(date(2107, 12, 31)), 50402);
}

#[test]
fn days_and_dates_are_inverse() {
    let mut days = 0;
    while days < 60_000 {
        assert_eq!(days_from_date(date_from_days(days)), days);
        days += 1;
    }
}

#[test]
fn month_lengths() {
    assert_eq!(days_in_month(2023, 1), 31);
    assert_eq!(days_in_month(2023, 2), 28);
    assert_eq!(days_in_month(2024, 2), 29);
    assert_eq!(days_in_month(2000, 2), 29);
    assert_eq!(days_in_month(2100, 2), 28);
    assert_eq!(days_in_month(2023, 4), 30);
    assert_eq!(days_in_month(2023, 12), 31);
}

#[test]
fn known_stamps() {
    // 14 November 2023, 22:13:20.
    assert_eq!(stamp_from_seconds(1_700_000_000), 22382 * 65536 + 45482);
    assert_eq!(seconds_from_stamp(22382 * 65536 + 45482), 1_700_000_000);
    assert_eq!(stamp_from_seconds(DOS_FIRST), STAMP_FIRST);
    assert_eq!(seconds_from_stamp(STAMP_FIRST), DOS_FIRST);
    assert_eq!(stamp_from_seconds(DOS_END - 2), STAMP_LAST);
    assert_eq!(seconds_from_stamp(STAMP_LAST), DOS_END - 2);
    assert_eq!(STAMP_FIRST, 33 << 16);
}

#[test]
fn stamps_hold_times_to_their_range() {
    assert_eq!(stamp_from_seconds(0), STAMP_FIRST);
    assert_eq!(stamp_from_seconds(DOS_FIRST - 1), STAMP_FIRST);
    assert_eq!(stamp_from_seconds(DOS_END), STAMP_LAST);
    assert_eq!(stamp_from_seconds(u64::MAX), STAMP_LAST);
    // An odd second is rounded down.
    assert_eq!(stamp_from_seconds(1_700_000_001), stamp_from_seconds(1_700_000_000));
    assert_eq!(seconds_from_stamp(stamp_from_seconds(1_700_000_001)), 1_700_000_000);
}

#[test]
fn stamps_with_fields_out_of_range() {
    // Month 0 and day 0 are read as January and the first.
    assert_eq!(seconds_from_stamp(0), DOS_FIRST);
    // Month 15, day 31, 31:63:62 are held to 31 December, 23:59:58.
    assert_eq!(seconds_from_stamp(0x01FF_FFFF), 347_155_198);
    // 30 February is held to the last day of February.
    let feb_30_2024: u32 = ((44 * 512 + 2 * 32 + 30) << 16) as u32;
    assert_eq!(seconds_from_stamp(feb_30_2024), 1_709_164_800);
}

#[test]
fn stamps_and_seconds_are_inverse() {
    let mut seconds = DOS_FIRST;
    while seconds < DOS_END {
        let stamp = stamp_from_seconds(seconds);
        assert_eq!(seconds_from_stamp(stamp), seconds - seconds % 2);
        assert_eq!(stamp_from_seconds(seconds_from_stamp(stamp)), stamp);
        seconds += 7_654_321;
    }
}
