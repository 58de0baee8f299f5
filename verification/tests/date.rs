//! Dates and times.

use jotlog::date::{format_date, format_datetime, parse_date, parse_datetime, Date, DateTime, Time};

#[test]
fn round_trip_date() {
    let d = Date { year: 2026, month: 5, day: 12 };
    let s = format_date(d);
    assert_eq!(s, "2026-05-12");
    assert_eq!(parse_date(&s), Some(d));
}

#[test]
fn round_trip_datetime() {
    let dt = DateTime {
        date: Date { year: 2026, month: 5, day: 12 },
        time: Time { hour: 15, minute: 22 },
    };
    let s = format_datetime(dt);
    assert_eq!(s, "2026-05-12 15:22");
    assert_eq!(parse_datetime(&s), Some(dt));
}

#[test]
fn rejects_non_iso() {
    assert!(parse_date("12/05/2026").is_none());
    assert!(parse_datetime("2026-05-12T15:22").is_none());
}

#[test]
fn other_years_are_printed_with_a_sign() {
    let on = |year: i32| Date { year, month: 1, day: 2 };
    assert_eq!(format_date(on(12345)), "+12345-01-02");
    assert_eq!(format_date(on(-5)), "-0005-01-02");
    assert_eq!(format_date(on(0)), "0000-01-02");
    assert_eq!(format_date(on(9999)), "9999-01-02");
    let dt = DateTime { date: on(-12345), time: Time { hour: 3, minute: 4 } };
    assert_eq!(format_datetime(dt), "-12345-01-02 03:04");
}
