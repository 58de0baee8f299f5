//! Calendar dates and clock times in ISO form. Reading, printing and the clock
//! itself are `chrono`'s; this module holds the values as plain numbers.

use chrono::{Datelike, Timelike};
use vstd::prelude::*;
use vstd::utf8::*;

use crate::parser;
use crate::words;

verus! {

pub const DATE_FMT: &'static str = "%Y-%m-%d";

pub const DATETIME_FMT: &'static str = "%Y-%m-%d %H:%M";

/// A day of the proleptic Gregorian calendar.
#[derive(Debug, Clone, Copy, PartialEq, Eq, Hash, Structural)]
pub struct Date {
    pub year: i32,
    pub month: u32,
    pub day: u32,
}

/// A time of day, to the minute.
#[derive(Debug, Clone, Copy, PartialEq, Eq, Hash, Structural)]
pub struct Time {
    pub hour: u32,
    pub minute: u32,
}

/// A date and a time of day.
#[derive(Debug, Clone, Copy, PartialEq, Eq, Hash, Structural)]
pub struct DateTime {
    pub date: Date,
    pub time: Time,
}

pub open spec fn is_leap(year: int) -> bool {
    year % 4 == 0 && (year % 100 != 0 || year % 400 == 0)
}

pub open spec fn days_in_month(year: int, month: int) -> int {
    if month == 2 {
        if is_leap(year) {
            29
        } else {
            28
        }
    } else if month == 4 || month == 6 || month == 9 || month == 11 {
        30
    } else {
        31
    }
}

/// `year`-`month`-`day` is a day of the calendar.
pub open spec fn is_day(year: int, month: int, day: int) -> bool {
    1 <= month <= 12 && 1 <= day <= days_in_month(year, month)
}

impl Date {
    /// The day exists, in a year that `chrono` can hold.
    pub open spec fn wf(self) -> bool {
        -262143 <= self.year <= 262142 && is_day(
            self.year as int,
            self.month as int,
            self.day as int,
        )
    }

    /// The year has four digits.
    pub open spec fn has_iso_year(self) -> bool {
        0 <= self.year <= 9999
    }

    /// The day comes before `other`.
    pub open spec fn before(self, other: Date) -> bool {
        ||| self.year < other.year
        ||| self.year == other.year && self.month < other.month
        ||| self.year == other.year && self.month == other.month && self.day < other.day
    }
}

impl Time {
    pub open spec fn wf(self) -> bool {
        self.hour < 24 && self.minute < 60
    }

    /// The time comes before `other` on a day.
    pub open spec fn before(self, other: Time) -> bool {
        self.hour < other.hour || (self.hour == other.hour && self.minute < other.minute)
    }
}

impl DateTime {
    pub open spec fn wf(self) -> bool {
        self.date.wf() && self.time.wf()
    }
}

// ---------------------------------------------------------------------------
// ISO text
// ---------------------------------------------------------------------------

/// `n` in two digits.
pub open spec fn two(n: int) -> Seq<char> {
    seq![words::digit_char(n / 10 % 10), words::digit_char(n % 10)]
}

/// `n` in four digits.
pub open spec fn four(n: int) -> Seq<char> {
    seq![
        words::digit_char(n / 1000 % 10),
        words::digit_char(n / 100 % 10),
        words::digit_char(n / 10 % 10),
        words::digit_char(n % 10),
    ]
}

/// `YYYY-MM-DD`.
pub open spec fn iso_date(d: Date) -> Seq<char> {
    four(d.year as int) + seq!['-'] + two(d.month as int) + seq!['-'] + two(d.day as int)
}

/// `HH:MM`.
pub open spec fn iso_time(t: Time) -> Seq<char> {
    two(t.hour as int) + seq![':'] + two(t.minute as int)
}

/// `n` in four digits, or as many as it has.
pub open spec fn four_or_more(n: int) -> Seq<char> {
    if n <= 9999 {
        four(n)
    } else {
        words::decimal(n as nat)
    }
}

/// A year of four digits, or one with its sign.
pub open spec fn year_text(year: int) -> Seq<char> {
    if 0 <= year <= 9999 {
        four(year)
    } else if year > 0 {
        seq!['+'] + four_or_more(year)
    } else {
        seq!['-'] + four_or_more(-year)
    }
}

/// The text of a date: ISO, where the year has four digits.
#[verifier::opaque]
pub open spec fn date_text(d: Date) -> Seq<char> {
    year_text(d.year as int) + seq!['-'] + two(d.month as int) + seq!['-'] + two(d.day as int)
}

/// The text of a date and time: `YYYY-MM-DD HH:MM`.
pub open spec fn datetime_text(dt: DateTime) -> Seq<char> {
    date_text(dt.date) + seq![' '] + iso_time(dt.time)
}

pub open spec fn digit_at(b: Seq<u8>, i: int) -> int {
    b[i] - 48
}

/// The number in the two digits at `i`.
pub open spec fn number2(b: Seq<u8>, i: int) -> int {
    digit_at(b, i) * 10 + digit_at(b, i + 1)
}

/// The number in the four digits at `i`.
pub open spec fn number4(b: Seq<u8>, i: int) -> int {
    number2(b, i) * 100 + number2(b, i + 2)
}

/// The day that the `YYYY-MM-DD` in `b` names, if there is such a day.
pub open spec fn day_in(b: Seq<u8>) -> Option<(i32, u32, u32)> {
    if is_day(number4(b, 0), number2(b, 5), number2(b, 8)) {
        Some((number4(b, 0) as i32, number2(b, 5) as u32, number2(b, 8) as u32))
    } else {
        None
    }
}

/// The time that the `HH:MM` in `b` names, if there is such a time.
pub open spec fn time_in(b: Seq<u8>) -> Option<(u32, u32)> {
    if number2(b, 0) < 24 && number2(b, 3) < 60 {
        Some((number2(b, 0) as u32, number2(b, 3) as u32))
    } else {
        None
    }
}

/// `b` is a date in ISO form and nothing else.
pub open spec fn is_iso_date(b: Seq<u8>) -> bool {
    b.len() == 10 && parser::date_at(b, 0)
}

/// `b` is a time in ISO form and nothing else.
pub open spec fn is_iso_time(b: Seq<u8>) -> bool {
    b.len() == 5 && parser::time_at(b, 0)
}

// ---------------------------------------------------------------------------
// chrono
// ---------------------------------------------------------------------------

/// What `chrono` reads from a string as a date in the form `%Y-%m-%d`.
pub uninterp spec fn chrono_date(s: Seq<char>) -> Option<(i32, u32, u32)>;

/// What `chrono` reads from a string as a time in the form `%H:%M`.
pub uninterp spec fn chrono_time(s: Seq<char>) -> Option<(u32, u32)>;

/// What `chrono` reads from a string in the form `%Y-%m-%d %H:%M`.
pub uninterp spec fn chrono_datetime(s: Seq<char>) -> Option<(i32, u32, u32, u32, u32)>;

/// `chrono::NaiveDate::parse_from_str` with `%Y-%m-%d`. Of text in strict ISO
/// form it reads the four, two and two digits and gives the day that they name,
/// or nothing if the calendar has no such day. What it makes of text in other
/// forms has no closed description here beyond being a function of the text.
#[verifier::external_body]
fn read_date(s: &str) -> (r: Option<(i32, u32, u32)>)
    ensures
        r == chrono_date(s@),
        is_iso_date(encode_utf8(s@)) ==> r == day_in(encode_utf8(s@)),
{
    chrono::NaiveDate::parse_from_str(s, DATE_FMT).ok().map(|d| (d.year(), d.month(), d.day()))
}

/// `chrono::NaiveTime::parse_from_str` with `%H:%M`. Of text in strict ISO form
/// it gives the hour and minute, or nothing if either is out of range.
#[verifier::external_body]
fn read_time(s: &str) -> (r: Option<(u32, u32)>)
    ensures
        r == chrono_time(s@),
        is_iso_time(encode_utf8(s@)) ==> r == time_in(encode_utf8(s@)),
{
    chrono::NaiveTime::parse_from_str(s, "%H:%M").ok().map(|t| (t.hour(), t.minute()))
}

/// `chrono::NaiveDateTime::parse_from_str` with `%Y-%m-%d %H:%M`. The text that
/// prints a date and time is read back as that date and time.
#[verifier::external_body]
fn read_datetime(s: &str) -> (r: Option<(i32, u32, u32, u32, u32)>)
    ensures
        r == chrono_datetime(s@),
        forall|dt: DateTime|
            dt.wf() && dt.date.has_iso_year() && s@ == #[trigger] datetime_text(dt) ==> r == Some(
                (dt.date.year, dt.date.month, dt.date.day, dt.time.hour, dt.time.minute),
            ),
{
    let dt = chrono::NaiveDateTime::parse_from_str(s, DATETIME_FMT).ok()?;
    Some((dt.year(), dt.month(), dt.day(), dt.hour(), dt.minute()))
}

/// `chrono::NaiveDate::format` with `%Y-%m-%d`: the year is printed zero-padded to
/// four digits, with a sign before 0 and after 9999, month and day in two digits
/// each.
#[verifier::external_body]
fn print_date(year: i32, month: u32, day: u32) -> (r: String)
    requires
        (Date { year, month, day }).wf(),
    ensures
        r@ == date_text(Date { year, month, day }),
{
    chrono::NaiveDate::from_ymd_opt(year, month, day).unwrap().format(DATE_FMT).to_string()
}

/// `chrono::NaiveTime::format` with `%H:%M`: hour and minute in two digits each.
#[verifier::external_body]
fn print_time(hour: u32, minute: u32) -> (r: String)
    requires
        (Time { hour, minute }).wf(),
    ensures
        r@ == iso_time(Time { hour, minute }),
{
    chrono::NaiveTime::from_hms_opt(hour, minute, 0).unwrap().format("%H:%M").to_string()
}

/// `chrono::Local::now`: the wall clock in the local time zone. Which moment it
/// gives is not said; whatever it is, it is a day and time of the calendar.
#[verifier::external_body]
fn read_clock() -> (r: (i32, u32, u32, u32, u32))
    ensures
        -262143 <= r.0 <= 262142,
        is_day(r.0 as int, r.1 as int, r.2 as int),
        r.3 < 24,
        r.4 < 60,
{
    let t = chrono::Local::now().naive_local();
    (t.year(), t.month(), t.day(), t.hour(), t.minute())
}

// ---------------------------------------------------------------------------
// Dates and times
// ---------------------------------------------------------------------------

/// The wall clock.
pub fn now() -> (r: DateTime)
    ensures
        r.wf(),
{
    let (year, month, day, hour, minute) = read_clock();
    DateTime { date: Date { year, month, day }, time: Time { hour, minute } }
}

pub fn format_date(d: Date) -> (r: String)
    requires
        d.wf(),
    ensures
        r@ == date_text(d),
{
    print_date(d.year, d.month, d.day)
}

pub fn format_datetime(dt: DateTime) -> (r: String)
    requires
        dt.wf(),
    ensures
        r@ == datetime_text(dt),
{
    let mut out = print_date(dt.date.year, dt.date.month, dt.date.day);
    words::push_char(&mut out, ' ');
    let t = print_time(dt.time.hour, dt.time.minute);
    out.append(t.as_str());
    proof {
        assert(date_text(dt.date).push(' ') =~= date_text(dt.date) + seq![' ']);
    }
    out
}

/// The day that text names.
pub open spec fn date_of(s: Seq<char>) -> Option<Date> {
    match chrono_date(s) {
        Some((year, month, day)) => Some(Date { year, month, day }),
        None => None,
    }
}

pub fn parse_date(s: &str) -> (r: Option<Date>)
    ensures
        r == date_of(s@),
        is_iso_date(encode_utf8(s@)) ==> r == day_named(encode_utf8(s@)),
{
    match read_date(s) {
        Some((year, month, day)) => Some(Date { year, month, day }),
        None => None,
    }
}

/// The day that ISO text names.
pub open spec fn day_named(b: Seq<u8>) -> Option<Date> {
    match day_in(b) {
        Some((year, month, day)) => Some(Date { year, month, day }),
        None => None,
    }
}

/// The time that ISO text names.
pub open spec fn time_named(b: Seq<u8>) -> Option<Time> {
    match time_in(b) {
        Some((hour, minute)) => Some(Time { hour, minute }),
        None => None,
    }
}

/// The time of day that text names.
pub open spec fn time_of(s: Seq<char>) -> Option<Time> {
    match chrono_time(s) {
        Some((hour, minute)) => Some(Time { hour, minute }),
        None => None,
    }
}

pub fn parse_time(s: &str) -> (r: Option<Time>)
    ensures
        r == time_of(s@),
        is_iso_time(encode_utf8(s@)) ==> r == time_named(encode_utf8(s@)),
{
    match read_time(s) {
        Some((hour, minute)) => Some(Time { hour, minute }),
        None => None,
    }
}

/// The date and time that text names.
pub open spec fn datetime_of(s: Seq<char>) -> Option<DateTime> {
    match chrono_datetime(s) {
        Some((year, month, day, hour, minute)) => Some(
            DateTime { date: Date { year, month, day }, time: Time { hour, minute } },
        ),
        None => None,
    }
}

/// Reads a date and time. What `format_datetime` prints is read back unchanged.
pub fn parse_datetime(s: &str) -> (r: Option<DateTime>)
    ensures
        r == datetime_of(s@),
        forall|dt: DateTime|
            dt.wf() && dt.date.has_iso_year() && s@ == #[trigger] datetime_text(dt) ==> r == Some(
                dt,
            ),
{
    match read_datetime(s) {
        Some((year, month, day, hour, minute)) => Some(
            DateTime { date: Date { year, month, day }, time: Time { hour, minute } },
        ),
        None => None,
    }
}

// ---------------------------------------------------------------------------
// Laws
// ---------------------------------------------------------------------------

proof fn lemma_decimal_digits(n: nat)
    ensures
        forall|i: int|
            0 <= i < words::decimal(n).len() ==> '0' <= #[trigger] words::decimal(n)[i] <= '9',
    decreases n,
{
    let s = words::decimal(n);
    if n >= 10 {
        let t = words::decimal(n / 10);
        lemma_decimal_digits(n / 10);
        assert forall|i: int| 0 <= i < s.len() implies '0' <= #[trigger] s[i] <= '9' by {
            if i < t.len() {
                assert(s[i] == t[i]);
            } else {
                assert(s[i] == words::digit_char((n % 10) as int));
            }
        }
    } else {
        assert(s[0] == words::digit_char(n as int));
    }
}

/// A printed date and time is plain text on one line.
pub proof fn lemma_plain_text(dt: DateTime)
    ensures
        forall|i: int|
            0 <= i < datetime_text(dt).len() ==> ' ' <= #[trigger] datetime_text(dt)[i] <= ':',
{
    reveal(date_text);
    let y = dt.date.year as int;
    lemma_decimal_digits(y as nat);
    lemma_decimal_digits((-y) as nat);
    let year = year_text(y);
    assert forall|i: int| 0 <= i < year.len() implies ' ' <= #[trigger] year[i] <= ':' by {}
}

/// The bytes of a printed date are those of its characters.
proof fn lemma_iso_date_bytes(d: Date)
    requires
        d.wf(),
        d.has_iso_year(),
    ensures
        encode_utf8(iso_date(d)).len() == 10,
        forall|i: int|
            0 <= i < 10 ==> encode_utf8(iso_date(d))[i] == #[trigger] iso_date(d)[i] as u8,
{
    assert(is_ascii_chars(iso_date(d)));
    is_ascii_chars_encode_utf8(iso_date(d));
}

/// A printed date with a year of four digits has ISO form and names the day that
/// was printed, so `parse_date` gives back what `format_date` printed.
pub proof fn law_date_round_trip(d: Date)
    requires
        d.wf(),
        d.has_iso_year(),
    ensures
        is_iso_date(encode_utf8(date_text(d))),
        day_named(encode_utf8(date_text(d))) == Some(d),
{
    reveal(date_text);
    lemma_iso_date_bytes(d);
    let s = iso_date(d);
    let b = encode_utf8(s);
    assert(s[0] == words::digit_char(d.year / 1000 % 10));
    assert(s[1] == words::digit_char(d.year / 100 % 10));
    assert(s[2] == words::digit_char(d.year / 10 % 10));
    assert(s[3] == words::digit_char(d.year as int % 10));
    assert(s[4] == '-');
    assert(s[5] == words::digit_char(d.month as int / 10 % 10));
    assert(s[6] == words::digit_char(d.month as int % 10));
    assert(s[7] == '-');
    assert(s[8] == words::digit_char(d.day as int / 10 % 10));
    assert(s[9] == words::digit_char(d.day as int % 10));
    assert(parser::date_at(b, 0));
    assert(number4(b, 0) == d.year);
    assert(number2(b, 5) == d.month);
    assert(number2(b, 8) == d.day);
}

} // verus!
