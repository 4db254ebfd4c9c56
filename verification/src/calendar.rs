//! Dates and moments as plain values, and the `time` crate behind them.

use vstd::prelude::*;

use crate::text::{decimal, digit_char, untrailed};

verus! {

/// A day of the proleptic Gregorian calendar.
#[derive(Debug, Clone, Copy, PartialEq, Eq, Structural)]
pub struct CalendarDate {
    pub year: i32,
    /// 1 for January.
    pub month: u8,
    pub day: u8,
}

/// A moment as a clock at some offset from UTC shows it.
#[derive(Debug, Clone, Copy, PartialEq, Eq, Structural)]
pub struct Timestamp {
    pub year: i32,
    /// 1 for January.
    pub month: u8,
    pub day: u8,
    pub hour: u8,
    pub minute: u8,
    pub second: u8,
    pub nanosecond: u32,
    /// Seconds that the clock is ahead of UTC.
    pub offset_seconds: i32,
}

// ---------------------------------------------------------------------------
// The calendar
// ---------------------------------------------------------------------------

pub open spec fn is_leap(year: int) -> bool {
    year % 4 == 0 && (year % 100 != 0 || year % 400 == 0)
}

pub open spec fn days_in_month(year: int, month: int) -> int {
    if month == 2 {
        if is_leap(year) {
            29
        } else {
            28
        }
    } else if month == 4 || month == 6 || month == 9 || month == 11 {
        30
    } else {
        31
    }
}

/// A day that exists, in a year of at most four digits.
pub open spec fn valid_date(year: int, month: int, day: int) -> bool {
    &&& -9999 <= year <= 9999
    &&& 1 <= month <= 12
    &&& 1 <= day <= days_in_month(year, month)
}

/// Days from 1 January 1970, counted in years that begin in March so that the
/// leap day comes last.
pub open spec fn day_number(year: int, month: int, day: int) -> int {
    let y = if month <= 2 {
        year - 1
    } else {
        year
    };
    let m = if month <= 2 {
        month + 9
    } else {
        month - 3
    };
    365 * y + y / 4 - y / 100 + y / 400 + (153 * m + 2) / 5 + day - 719469
}

impl CalendarDate {
    pub open spec fn valid(self) -> bool {
        valid_date(self.year as int, self.month as int, self.day as int)
    }
}

impl Timestamp {
    pub open spec fn valid(self) -> bool {
        &&& valid_date(self.year as int, self.month as int, self.day as int)
        &&& self.hour < 24
        &&& self.minute < 60
        &&& self.second < 60
        &&& self.nanosecond < 1_000_000_000
        &&& -93_599 <= self.offset_seconds <= 93_599
    }

    /// Nanoseconds from the start of 1970, UTC.
    pub open spec fn instant(self) -> int {
        (day_number(self.year as int, self.month as int, self.day as int) * 86_400 + self.hour
            * 3600 + self.minute * 60 + self.second - self.offset_seconds) * 1_000_000_000
            + self.nanosecond
    }

    /// The day that the clock shows.
    pub fn date(&self) -> (r: CalendarDate)
        ensures
            r.year == self.year,
            r.month == self.month,
            r.day == self.day,
    {
        CalendarDate { year: self.year, month: self.month, day: self.day }
    }
}

/// Whether a day exists, in a year of at most four digits.
fn date_exists(year: i32, month: u8, day: u8) -> (r: bool)
    ensures
        r == valid_date(year as int, month as int, day as int),
{
    1 <= month && month <= 12 && from_calendar_date(year, month, day).is_some()
}

impl CalendarDate {
    pub fn is_valid(&self) -> (r: bool)
        ensures
            r == self.valid(),
    {
        date_exists(self.year, self.month, self.day)
    }
}

impl Timestamp {
    pub fn is_valid(&self) -> (r: bool)
        ensures
            r == self.valid(),
    {
        date_exists(self.year, self.month, self.day) && self.hour < 24 && self.minute < 60
            && self.second < 60 && self.nanosecond < 1_000_000_000 && -93_599
            <= self.offset_seconds && self.offset_seconds <= 93_599
    }
}

/// The start of a day, UTC.
pub open spec fn midnight_of(d: CalendarDate) -> Timestamp {
    Timestamp {
        year: d.year,
        month: d.month,
        day: d.day,
        hour: 0,
        minute: 0,
        second: 0,
        nanosecond: 0,
        offset_seconds: 0,
    }
}

/// The start of a day, UTC.
pub fn midnight(d: CalendarDate) -> (r: Timestamp)
    ensures
        r == midnight_of(d),
{
    Timestamp {
        year: d.year,
        month: d.month,
        day: d.day,
        hour: 0,
        minute: 0,
        second: 0,
        nanosecond: 0,
        offset_seconds: 0,
    }
}

// ---------------------------------------------------------------------------
// How dates are written
// ---------------------------------------------------------------------------

/// `n` in two digits.
pub open spec fn two_digits(n: nat) -> Seq<char> {
    seq![digit_char(n / 10), digit_char(n % 10)]
}

/// `n` in at least `width` digits, with zeros in front.
pub open spec fn zero_padded(n: nat, width: nat) -> Seq<char> {
    let digits = decimal(n);
    if digits.len() < width {
        Seq::new((width - digits.len()) as nat, |i: int| '0') + digits
    } else {
        digits
    }
}

/// A year in four digits, with a minus sign in front of a negative one.
pub open spec fn year_text(year: int) -> Seq<char> {
    if year < 0 {
        seq!['-'] + zero_padded((-year) as nat, 4)
    } else {
        zero_padded(year as nat, 4)
    }
}

pub open spec fn month_name(month: int) -> Seq<char> {
    if month == 1 {
        "January"@
    } else if month == 2 {
        "February"@
    } else if month == 3 {
        "March"@
    } else if month == 4 {
        "April"@
    } else if month == 5 {
        "May"@
    } else if month == 6 {
        "June"@
    } else if month == 7 {
        "July"@
    } else if month == 8 {
        "August"@
    } else if month == 9 {
        "September"@
    } else if month == 10 {
        "October"@
    } else if month == 11 {
        "November"@
    } else {
        "December"@
    }
}

/// `2026-07-10`.
pub open spec fn date_text(d: CalendarDate) -> Seq<char> {
    year_text(d.year as int) + "-"@ + two_digits(d.month as nat) + "-"@ + two_digits(d.day as nat)
}

/// `16 August 2026`.
pub open spec fn day_text(t: Timestamp) -> Seq<char> {
    two_digits(t.day as nat) + " "@ + month_name(t.month as int) + " "@ + year_text(t.year as int)
}

/// `16 Aug 2026 18:42 UTC`.
pub open spec fn minute_text(t: Timestamp) -> Seq<char> {
    two_digits(t.day as nat) + " "@ + month_name(t.month as int).take(3) + " "@ + year_text(
        t.year as int,
    ) + " "@ + two_digits(t.hour as nat) + ":"@ + two_digits(t.minute as nat) + " UTC"@
}

pub open spec fn magnitude(n: int) -> nat {
    if n < 0 {
        (-n) as nat
    } else {
        n as nat
    }
}

/// The part of an RFC 3339 time after its whole seconds: nine digits without
/// their trailing zeros, or nothing.
pub open spec fn fraction_text(nanosecond: nat) -> Seq<char> {
    if nanosecond == 0 {
        seq![]
    } else {
        "."@ + untrailed(zero_padded(nanosecond, 9), '0')
    }
}

/// The zone of an RFC 3339 time.
pub open spec fn zone_text(offset_seconds: int) -> Seq<char> {
    if offset_seconds == 0 {
        "Z"@
    } else {
        (if offset_seconds < 0 {
            "-"@
        } else {
            "+"@
        }) + two_digits(magnitude(offset_seconds) / 3600) + ":"@ + two_digits(
            magnitude(offset_seconds) % 3600 / 60,
        )
    }
}

/// RFC 3339 has four digits for the year and whole minutes, less than a day,
/// for the offset.
pub open spec fn rfc3339_writable(t: Timestamp) -> bool {
    &&& 0 <= t.year <= 9999
    &&& magnitude(t.offset_seconds as int) < 86_400
    &&& magnitude(t.offset_seconds as int) % 60 == 0
}

/// `2026-08-19T18:42:07Z`.
pub open spec fn rfc3339_text(t: Timestamp) -> Seq<char> {
    year_text(t.year as int) + "-"@ + two_digits(t.month as nat) + "-"@ + two_digits(t.day as nat)
        + "T"@ + two_digits(t.hour as nat) + ":"@ + two_digits(t.minute as nat) + ":"@ + two_digits(
        t.second as nat,
    ) + fraction_text(t.nanosecond as nat) + zone_text(t.offset_seconds as int)
}

/// `2026-08-19 18:42:07.0 +00:00:00`.
pub open spec fn moment_text(t: Timestamp) -> Seq<char> {
    let offset = magnitude(t.offset_seconds as int);
    date_text(CalendarDate { year: t.year, month: t.month, day: t.day }) + " "@ + decimal(
        t.hour as nat,
    ) + ":"@ + two_digits(t.minute as nat) + ":"@ + two_digits(t.second as nat) + (
    if t.nanosecond == 0 {
        ".0"@
    } else {
        fraction_text(t.nanosecond as nat)
    }) + (if t.offset_seconds < 0 {
        " -"@
    } else {
        " +"@
    }) + two_digits(offset / 3600) + ":"@ + two_digits(offset % 3600 / 60) + ":"@ + two_digits(
        offset % 60,
    )
}

/// The moment that an RFC 3339 text names, as the `time` crate reads it.
pub uninterp spec fn rfc3339_read(s: Seq<char>) -> Option<Timestamp>;

// ---------------------------------------------------------------------------
// The `time` crate
// ---------------------------------------------------------------------------

/// `time::Date::from_calendar_date`: a date for a day that exists in a year
/// from -9999 to 9999, and an error for any other.
#[verifier::external_body]
pub(crate) fn from_calendar_date(year: i32, month: u8, day: u8) -> (r: Option<CalendarDate>)
    requires
        1 <= month <= 12,
    ensures
        r == (if valid_date(year as int, month as int, day as int) {
            Some(CalendarDate { year, month, day })
        } else {
            None
        }),
{
    let month = time::Month::try_from(month).unwrap();
    let made = time::Date::from_calendar_date(year, month, day);
    made.ok().map(|d| CalendarDate { year: d.year(), month: u8::from(d.month()), day: d.day() })
}

/// The `Display` of `time::Month`: the month's English name.
#[verifier::external_body]
pub(crate) fn month_display(month: u8) -> (r: String)
    requires
        1 <= month <= 12,
    ensures
        r@ == month_name(month as int),
{
    time::Month::try_from(month).unwrap().to_string()
}

/// The `Display` of `time::Date`: year, month and day joined by dashes.
#[verifier::external_body]
fn date_display(d: &CalendarDate) -> (r: String)
    requires
        d.valid(),
    ensures
        r@ == date_text(*d),
{
    let month = time::Month::try_from(d.month).unwrap();
    time::Date::from_calendar_date(d.year, month, d.day).unwrap().to_string()
}

/// `time::OffsetDateTime::unix_timestamp_nanos`: nanoseconds from the start of
/// 1970, UTC, whatever offset the moment is held at.
#[verifier::external_body]
fn unix_timestamp_nanos(t: &Timestamp) -> (r: i128)
    requires
        t.valid(),
    ensures
        r == t.instant(),
{
    let month = time::Month::try_from(t.month).unwrap();
    let date = time::Date::from_calendar_date(t.year, month, t.day).unwrap();
    let local = date.with_hms_nano(t.hour, t.minute, t.second, t.nanosecond).unwrap();
    let offset = time::UtcOffset::from_whole_seconds(t.offset_seconds).unwrap();
    local.assume_offset(offset).unix_timestamp_nanos()
}

/// `time::OffsetDateTime::format` with a description made by
/// `time::format_description::parse_borrowed`. Of the two descriptions used
/// here the first gives the day, the full name of the month and the year, the
/// second the day, the first three letters of the month's name, the year, and
/// the time to the minute.
#[verifier::external_body]
fn format_described(t: &Timestamp, description: &str) -> (r: String)
    requires
        t.valid(),
        description@ == "[day] [month repr:long] [year]"@ || description@
            == "[day] [month repr:short] [year] [hour]:[minute] UTC"@,
    ensures
        description@ == "[day] [month repr:long] [year]"@ ==> r@ == day_text(*t),
        description@ == "[day] [month repr:short] [year] [hour]:[minute] UTC"@ ==> r@
            == minute_text(*t),
{
    let month = time::Month::try_from(t.month).unwrap();
    let date = time::Date::from_calendar_date(t.year, month, t.day).unwrap();
    let local = date.with_hms_nano(t.hour, t.minute, t.second, t.nanosecond).unwrap();
    let offset = time::UtcOffset::from_whole_seconds(t.offset_seconds).unwrap();
    let items = time::format_description::parse_borrowed::<1>(description).unwrap();
    local.assume_offset(offset).format(&items).unwrap()
}

/// `time::OffsetDateTime::format` with `Rfc3339`: the text, when the year is
/// from 0 to 9999 and the offset is of whole minutes and under a day, and an
/// error otherwise. Reading the text with the same description gives the
/// moment back, offset included.
#[verifier::external_body]
pub(crate) fn format_rfc3339(t: &Timestamp) -> (r: Option<String>)
    requires
        t.valid(),
    ensures
        match r {
            Some(s) => rfc3339_writable(*t) && s@ == rfc3339_text(*t) && rfc3339_read(s@) == Some(
                *t,
            ),
            None => !rfc3339_writable(*t),
        },
{
    let month = time::Month::try_from(t.month).unwrap();
    let date = time::Date::from_calendar_date(t.year, month, t.day).unwrap();
    let local = date.with_hms_nano(t.hour, t.minute, t.second, t.nanosecond).unwrap();
    let offset = time::UtcOffset::from_whole_seconds(t.offset_seconds).unwrap();
    local.assume_offset(offset).format(&time::format_description::well_known::Rfc3339).ok()
}

/// The `Display` of `time::OffsetDateTime`: the date, the time and the offset
/// with spaces between them.
#[verifier::external_body]
fn moment_display(t: &Timestamp) -> (r: String)
    requires
        t.valid(),
    ensures
        r@ == moment_text(*t),
{
    let month = time::Month::try_from(t.month).unwrap();
    let date = time::Date::from_calendar_date(t.year, month, t.day).unwrap();
    let local = date.with_hms_nano(t.hour, t.minute, t.second, t.nanosecond).unwrap();
    let offset = time::UtcOffset::from_whole_seconds(t.offset_seconds).unwrap();
    local.assume_offset(offset).to_string()
}

/// `time::OffsetDateTime::parse` with `Rfc3339`: the moment that the text
/// names, or an error. What it accepts is left to the crate; a moment that it
/// gives is one that exists.
#[verifier::external_body]
pub(crate) fn parse_rfc3339(s: &str) -> (r: Option<Timestamp>)
    ensures
        r == rfc3339_read(s@),
        r matches Some(t) ==> t.valid(),
{
    let read = time::OffsetDateTime::parse(s, &time::format_description::well_known::Rfc3339);
    read.ok().map(|t| Timestamp {
        year: t.year(),
        month: u8::from(t.month()),
        day: t.day(),
        hour: t.hour(),
        minute: t.minute(),
        second: t.second(),
        nanosecond: t.nanosecond(),
        offset_seconds: t.offset().whole_seconds(),
    })
}

/// `time::OffsetDateTime::now_utc`: the system clock's moment, at offset zero.
#[verifier::external_body]
pub(crate) fn now_utc() -> (r: Timestamp)
    ensures
        r.valid(),
        r.offset_seconds == 0,
{
    let t = time::OffsetDateTime::now_utc();
    Timestamp {
        year: t.year(),
        month: u8::from(t.month()),
        day: t.day(),
        hour: t.hour(),
        minute: t.minute(),
        second: t.second(),
        nanosecond: t.nanosecond(),
        offset_seconds: t.offset().whole_seconds(),
    }
}

// ---------------------------------------------------------------------------
// What the rest of the crate uses
// ---------------------------------------------------------------------------

impl CalendarDate {
    /// The date as `2026-07-10`.
    pub fn to_text(&self) -> (r: String)
        requires
            self.valid(),
        ensures
            r@ == date_text(*self),
    {
        date_display(self)
    }
}

/// The source states a date, not a time, so render it as a date.
pub fn fmt_day(t: &Timestamp) -> (r: String)
    requires
        t.valid(),
    ensures
        r@ == day_text(*t),
{
    format_described(t, "[day] [month repr:long] [year]")
}

/// A moment to the minute, for people to read.
pub fn fmt_human(t: &Timestamp) -> (r: String)
    requires
        t.valid(),
    ensures
        r@ == minute_text(*t),
{
    format_described(t, "[day] [month repr:short] [year] [hour]:[minute] UTC")
}

/// A moment in the form that machines read, or as close to it as there is.
pub open spec fn machine_text(t: Timestamp) -> Seq<char> {
    if rfc3339_writable(t) {
        rfc3339_text(t)
    } else {
        moment_text(t)
    }
}

/// A moment in the form that machines read, or as close to it as there is.
pub fn fmt_rfc3339(t: &Timestamp) -> (r: String)
    requires
        t.valid(),
    ensures
        r@ == machine_text(*t),
{
    match format_rfc3339(t) {
        Some(s) => s,
        None => moment_display(t),
    }
}

/// Whole seconds from one moment to another, rounded towards zero.
pub open spec fn seconds_from(then: Timestamp, now: Timestamp) -> int {
    let d = now.instant() - then.instant();
    if d >= 0 {
        d / 1_000_000_000
    } else {
        -((-d) / 1_000_000_000)
    }
}

/// A valid moment lies within ten thousand and one years of 1970.
proof fn instant_bounds(t: Timestamp)
    requires
        t.valid(),
    ensures
        -400_000_000_000_000_000_000 <= t.instant() <= 400_000_000_000_000_000_000,
{
    let days = day_number(t.year as int, t.month as int, t.day as int);
    assert(-4_400_000 <= days <= 3_000_000);
}

/// Whole seconds from `then` to `now`, rounded towards zero.
pub fn seconds_between(now: &Timestamp, then: &Timestamp) -> (r: i64)
    requires
        now.valid(),
        then.valid(),
    ensures
        r == seconds_from(*then, *now),
{
    proof {
        instant_bounds(*now);
        instant_bounds(*then);
    }
    let d: i128 = unix_timestamp_nanos(now) - unix_timestamp_nanos(then);
    if d >= 0 {
        (d / 1_000_000_000) as i64
    } else {
        -(((-d) / 1_000_000_000) as i64)
    }
}

// ---------------------------------------------------------------------------
// How days and moments relate
// ---------------------------------------------------------------------------

/// Days are numbered one by one from 1 January 1970: the number grows by one
/// from a day to the next, from the last day of a month that exists to the first
/// of the month after it, and from the last day of a year to the first of the
/// next. The calendar repeats every 400 years.
pub proof fn days_are_numbered_one_by_one(year: int, month: int, day: int)
    requires
        1 <= month <= 12,
    ensures
        day_number(1970, 1, 1) == 0,
        day_number(year, month, day + 1) == day_number(year, month, day) + 1,
        valid_date(year, month, day) && !valid_date(year, month, day + 1) && month < 12
            ==> day_number(year, month + 1, 1) == day_number(year, month, day) + 1,
        valid_date(year, month, day) && !valid_date(year, month, day + 1) && month == 12
            ==> day_number(year + 1, 1, 1) == day_number(year, month, day) + 1,
        day_number(year + 400, month, day) == day_number(year, month, day) + 146_097,
{
    if month < 12 {
        months_follow(year, month);
    }
    years_follow(year);
    if valid_date(year, month, day) && !valid_date(year, month, day + 1) {
        assert(day == days_in_month(year, month));
    }
    let y = if month <= 2 {
        year - 1
    } else {
        year
    };
    assert((y + 400) / 4 == y / 4 + 100);
    assert((y + 400) / 100 == y / 100 + 4);
    assert((y + 400) / 400 == y / 400 + 1);
}

/// A leap year is a day longer than the others.
proof fn leap_days(year: int)
    ensures
        year / 4 - year / 100 + year / 400 - ((year - 1) / 4 - (year - 1) / 100 + (year - 1) / 400)
            == (if is_leap(year) {
            1int
        } else {
            0int
        }),
{
    fourth_years(year);
    hundredth_years(year);
    four_hundredth_years(year);
}

proof fn fourth_years(year: int)
    ensures
        year / 4 - (year - 1) / 4 == (if year % 4 == 0 {
            1int
        } else {
            0int
        }),
{
}

proof fn hundredth_years(year: int)
    ensures
        year / 100 - (year - 1) / 100 == (if year % 100 == 0 {
            1int
        } else {
            0int
        }),
        year % 100 == 0 ==> year % 4 == 0,
{
    if year % 100 == 0 {
        let q = year / 100;
        assert(year == 4 * (25 * q));
    }
}

proof fn four_hundredth_years(year: int)
    ensures
        year / 400 - (year - 1) / 400 == (if year % 400 == 0 {
            1int
        } else {
            0int
        }),
        year % 400 == 0 ==> year % 100 == 0,
{
    if year % 400 == 0 {
        let q = year / 400;
        assert(year == 100 * (4 * q));
    }
}

proof fn months_follow(year: int, month: int)
    requires
        1 <= month < 12,
    ensures
        day_number(year, month + 1, 1) == day_number(year, month, days_in_month(year, month)) + 1,
{
    leap_days(year);
    if month == 2 {
        assert((153 * 0int + 2) / 5 == 0);
        assert((153 * 11int + 2) / 5 == 337);
    }
}

proof fn years_follow(year: int)
    ensures
        day_number(year + 1, 1, 1) == day_number(year, 12, 31) + 1,
{
}

/// Between two moments lie as many seconds as passed in full, negative where the
/// second comes first; the other way round lie as many with the other sign.
pub proof fn seconds_are_counted_in_full(a: Timestamp, b: Timestamp)
    ensures
        ({
            let n = seconds_from(a, b);
            let passed = b.instant() - a.instant();
            &&& passed >= 0 ==> n * 1_000_000_000 <= passed < (n + 1) * 1_000_000_000
            &&& passed <= 0 ==> (n - 1) * 1_000_000_000 < passed <= n * 1_000_000_000
            &&& seconds_from(b, a) == -n
        }),
{
}

/// Two clocks that show one day, and the same fraction of a second, are apart by
/// the hours, minutes and seconds they show, less what the second is further
/// ahead of UTC.
pub proof fn clocks_of_one_day_differ_by_what_they_show(a: Timestamp, b: Timestamp)
    requires
        a.year == b.year && a.month == b.month && a.day == b.day,
        a.nanosecond == b.nanosecond,
    ensures
        seconds_from(a, b) == (b.hour - a.hour) * 3600 + (b.minute - a.minute) * 60 + (b.second
            - a.second) - (b.offset_seconds - a.offset_seconds),
{
}

/// The starts of two days are apart by 86,400 seconds for each day between them,
/// and a moment of a day, UTC, lies less than that after its start.
pub proof fn a_day_lasts_86400_seconds(a: CalendarDate, b: CalendarDate, t: Timestamp)
    requires
        t.valid(),
        t.offset_seconds == 0,
    ensures
        seconds_from(midnight_of(a), midnight_of(b)) == 86_400 * (day_number(
            b.year as int,
            b.month as int,
            b.day as int,
        ) - day_number(a.year as int, a.month as int, a.day as int)),
        0 <= t.instant() - midnight_of(
            CalendarDate { year: t.year, month: t.month, day: t.day },
        ).instant() < 86_400_000_000_000,
{
}

} // verus!
