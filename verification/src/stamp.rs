//! Dates with times of day as plain numbers, and the calendar arithmetic of `chrono` on them.

use chrono::{Datelike, Duration, Months, NaiveDate, NaiveDateTime, Timelike};
use std::fmt::Write;
use vstd::prelude::*;
use vstd::string::*;
use crate::text;

verus! {

/// A date and a time of day, without a time zone. A leap second is second 59 with 1e9 or more
/// nanoseconds.
#[derive(Debug, Clone, Copy, PartialEq, Eq, Structural)]
pub struct Stamp {
    pub year: i32,
    pub month: u32,
    pub day: u32,
    pub hour: u32,
    pub minute: u32,
    pub second: u32,
    pub nanos: u32,
}

/// The first year there is.
pub const MIN_YEAR: i32 = -262143;

/// The last year there is.
pub const MAX_YEAR: i32 = 262142;

/// The greatest number of seconds a duration can have, either way.
pub const MAX_SECONDS: i64 = 9223372036854775;

/// Whether a year has 366 days.
pub open spec fn is_leap(year: int) -> bool {
    year % 4 == 0 && (year % 100 != 0 || year % 400 == 0)
}

/// How many days a month has.
pub open spec fn month_days(year: int, month: int) -> int {
    if month == 2 {
        if is_leap(year) {
            29
        } else {
            28
        }
    } else if month == 4 || month == 6 || month == 9 || month == 11 {
        30
    } else {
        31
    }
}

/// Whether a date is in the calendar.
pub open spec fn is_date(year: int, month: int, day: int) -> bool {
    MIN_YEAR <= year <= MAX_YEAR && 1 <= month <= 12 && 1 <= day <= month_days(year, month)
}

/// How many days of a year lie before a month.
pub open spec fn days_before_month(year: int, month: int) -> int
    decreases month,
{
    if month <= 1 {
        0
    } else {
        days_before_month(year, month - 1) + month_days(year, month - 1)
    }
}

/// How many days lie between 1 January of year 1 and 1 January of `year`.
pub open spec fn days_before_year(year: int) -> int {
    let p = year - 1;
    365 * p + p / 4 - p / 100 + p / 400
}

/// The number of a day, counted from 1 January of year 1.
pub open spec fn day_number(year: int, month: int, day: int) -> int {
    days_before_year(year) + days_before_month(year, month) + day - 1
}

impl Stamp {
    /// Whether the date is in the calendar and the time of day in a day.
    pub open spec fn valid(self) -> bool {
        is_date(self.year as int, self.month as int, self.day as int) && self.hour < 24 && self.minute < 60
            && self.second < 60 && self.nanos < 2_000_000_000 && (self.nanos >= 1_000_000_000 ==> self.second
            == 59)
    }

    /// Whether this is no leap second.
    pub open spec fn plain(self) -> bool {
        self.nanos < 1_000_000_000
    }

    /// The number of whole seconds since 1 January of year 1.
    pub open spec fn seconds(self) -> int {
        day_number(self.year as int, self.month as int, self.day as int) * 86400 + self.hour * 3600
            + self.minute * 60 + self.second
    }
}

/// The first second there is.
pub open spec fn min_seconds() -> int {
    day_number(MIN_YEAR as int, 1, 1) * 86400
}

/// The last second there is.
pub open spec fn max_seconds() -> int {
    day_number(MAX_YEAR as int, 12, 31) * 86400 + 86399
}

/// `t` moved by a number of months; a day that the month does not have becomes its last.
/// `None` where the calendar or the count of months ends.
pub open spec fn months_moved(t: Stamp, months: int) -> Option<Stamp> {
    let all = t.year * 12 + t.month - 1 + months;
    let year = all / 12;
    let month = all % 12 + 1;
    let day = if t.day > month_days(year, month) {
        month_days(year, month)
    } else {
        t.day as int
    };
    if months < -0x7fff_ffff || months > 0x7fff_ffff || !(MIN_YEAR <= year <= MAX_YEAR) {
        None
    } else {
        Some(Stamp { year: year as i32, month: month as u32, day: day as u32, ..t })
    }
}

/// What `checked_add_signed` gives for a stamp and a number of seconds.
pub uninterp spec fn seconds_moved(t: Stamp, seconds: int) -> Option<Stamp>;

/// `NaiveDateTime::checked_add_months`: moves on by months, to the last day of the month where
/// the day does not exist there, or gives `None` where the calendar ends.
#[verifier::external_body]
pub(crate) fn add_months(t: Stamp, months: u32) -> (r: Option<Stamp>)
    requires
        t.valid(),
    ensures
        r == months_moved(t, months as int),
{
    let date = NaiveDate::from_ymd_opt(t.year, t.month, t.day)?;
    let u = date.and_hms_nano_opt(t.hour, t.minute, t.second, t.nanos)?.checked_add_months(Months::new(months))?;
    let (hour, minute, second, nanos) = (u.hour(), u.minute(), u.second(), u.nanosecond());
    Some(Stamp { year: u.year(), month: u.month(), day: u.day(), hour, minute, second, nanos })
}

/// `NaiveDateTime::checked_sub_months`: moves back by months, to the last day of the month where
/// the day does not exist there, or gives `None` where the calendar ends.
#[verifier::external_body]
pub(crate) fn sub_months(t: Stamp, months: u32) -> (r: Option<Stamp>)
    requires
        t.valid(),
    ensures
        r == months_moved(t, -(months as int)),
{
    let date = NaiveDate::from_ymd_opt(t.year, t.month, t.day)?;
    let u = date.and_hms_nano_opt(t.hour, t.minute, t.second, t.nanos)?.checked_sub_months(Months::new(months))?;
    let (hour, minute, second, nanos) = (u.hour(), u.minute(), u.second(), u.nanosecond());
    Some(Stamp { year: u.year(), month: u.month(), day: u.day(), hour, minute, second, nanos })
}

/// `NaiveDateTime::checked_add_signed` with a whole number of seconds: moves by exactly that many
/// seconds, or gives `None` where the calendar ends. For a leap second only that the result
/// depends on the stamp and the seconds alone, and is in the calendar, is stated.
#[verifier::external_body]
pub(crate) fn add_seconds(t: Stamp, seconds: i64) -> (r: Option<Stamp>)
    requires
        t.valid(),
        -MAX_SECONDS <= seconds <= MAX_SECONDS,
    ensures
        r == seconds_moved(t, seconds as int),
        r is Some ==> (r->0).valid(),
        t.plain() ==> match r {
            Some(u) => u.seconds() == t.seconds() + seconds && u.nanos == t.nanos,
            None => t.seconds() + seconds < min_seconds() || t.seconds() + seconds > max_seconds(),
        },
{
    let date = NaiveDate::from_ymd_opt(t.year, t.month, t.day)?;
    let d = date.and_hms_nano_opt(t.hour, t.minute, t.second, t.nanos)?;
    let u = d.checked_add_signed(Duration::seconds(seconds))?;
    let (hour, minute, second, nanos) = (u.hour(), u.minute(), u.second(), u.nanosecond());
    Some(Stamp { year: u.year(), month: u.month(), day: u.day(), hour, minute, second, nanos })
}

/// `n` as at least two digits.
pub open spec fn two(n: int) -> Seq<char> {
    text::zero_padded(text::dec(n as nat), 2)
}

/// A stamp as EXIF writes it: `YYYY:MM:DD HH:MM:SS`.
pub open spec fn exif_text(t: Stamp) -> Seq<char> {
    text::zero_padded(text::dec(t.year as nat), 4) + ":"@ + two(t.month as int) + ":"@ + two(t.day as int)
        + " "@ + two(t.hour as int) + ":"@ + two(t.minute as int) + ":"@ + two(t.second as int)
}

/// A stamp as file names have it: `YYYYMMDD_HHMMSS`.
pub open spec fn name_text(t: Stamp) -> Seq<char> {
    text::zero_padded(text::dec(t.year as nat), 4) + two(t.month as int) + two(t.day as int) + "_"@ + two(
        t.hour as int,
    ) + two(t.minute as int) + two(t.second as int)
}

/// Whether EXIF can write a stamp without loss: a year of four digits and whole seconds.
pub open spec fn exif_exact(t: Stamp) -> bool {
    t.valid() && 0 <= t.year <= 9999 && t.nanos == 0
}

/// How often a character stands in a text.
pub open spec fn marks(s: Seq<char>, c: char) -> nat
    decreases s.len(),
{
    if s.len() == 0 {
        0
    } else if s.last() == c {
        marks(s.drop_last(), c) + 1
    } else {
        marks(s.drop_last(), c)
    }
}

/// Whether a character may stand between the numbers of a date.
pub open spec fn is_separator(sep: char) -> bool {
    sep == '-' || sep == ':' || sep == '/'
}

/// Whether a character may stand between a date and a time.
pub open spec fn is_middle(mid: char) -> bool {
    mid == ' ' || mid == 'T'
}

/// The pattern of a date.
pub open spec fn day_pattern(sep: char) -> Seq<char> {
    "%Y"@ + seq![sep] + "%m"@ + seq![sep] + "%d"@
}

/// The pattern of a date with a time, with or without seconds.
pub open spec fn time_pattern(sep: char, mid: char, seconds: bool) -> Seq<char> {
    day_pattern(sep) + seq![mid] + "%H:%M"@ + if seconds {
        ":%S"@
    } else {
        Seq::empty()
    }
}

/// A date as numbers padded with zeros.
pub open spec fn day_text(t: Stamp, sep: char) -> Seq<char> {
    text::zero_padded(text::dec(t.year as nat), 4) + seq![sep] + two(t.month as int) + seq![sep] + two(
        t.day as int,
    )
}

/// A date with a time as numbers padded with zeros, with or without seconds.
pub open spec fn time_text(t: Stamp, sep: char, mid: char, seconds: bool) -> Seq<char> {
    day_text(t, sep) + seq![mid] + two(t.hour as int) + ":"@ + two(t.minute as int) + if seconds {
        ":"@ + two(t.second as int)
    } else {
        Seq::empty()
    }
}

/// Whether a text has the separators of a date, and as many colons besides. A year may bring a
/// sign of its own.
pub open spec fn date_marks(s: Seq<char>, sep: char, mid: char, colons: nat) -> bool {
    &&& marks(s, ':') == colons + if sep == ':' { 2nat } else { 0 }
    &&& marks(s, '/') == if sep == '/' { 2nat } else { 0 }
    &&& marks(s, 'T') == if mid == 'T' { 1nat } else { 0 }
    &&& sep == '-' ==> marks(s, '-') >= 2
}

/// What `NaiveDateTime::parse_from_str` makes of a text and a pattern.
pub uninterp spec fn parsed_stamp(s: Seq<char>, pattern: Seq<char>) -> Option<Stamp>;

/// `NaiveDateTime::parse_from_str`: depends on the text and the pattern alone, and gives stamps of
/// the calendar. With the pattern of a date and a time it reads what is written in that layout,
/// seconds that are left out being 0. As numbers take up only digits and a sign, and everything is
/// to be used up, it reads only what has the separators of the pattern, as often as the pattern.
#[verifier::external_body]
pub(crate) fn parse_stamp(s: &str, pattern: &str) -> (r: Option<Stamp>)
    ensures
        r == parsed_stamp(s@, pattern@),
        r is Some ==> (r->0).valid(),
        forall|sep: char, mid: char, seconds: bool|
            r is Some && is_separator(sep) && is_middle(mid) && pattern@ == #[trigger] time_pattern(
                sep,
                mid,
                seconds,
            ) ==> date_marks(s@, sep, mid, if seconds { 2 } else { 1 }),
        forall|t: Stamp, sep: char, mid: char, seconds: bool|
            is_separator(sep) && is_middle(mid) && pattern@ == time_pattern(sep, mid, seconds) && exif_exact(t)
                && (seconds || t.second == 0) && s@ == #[trigger] time_text(t, sep, mid, seconds) ==> r == Some(t),
{
    let u = NaiveDateTime::parse_from_str(s, pattern).ok()?;
    let (hour, minute, second, nanos) = (u.hour(), u.minute(), u.second(), u.nanosecond());
    Some(Stamp { year: u.year(), month: u.month(), day: u.day(), hour, minute, second, nanos })
}

/// What `NaiveDate::parse_from_str` makes of a text and a pattern, at midnight.
pub uninterp spec fn parsed_day(s: Seq<char>, pattern: Seq<char>) -> Option<Stamp>;

/// Whether a stamp is the midnight at which a day begins.
pub open spec fn is_midnight(t: Stamp) -> bool {
    t.hour == 0 && t.minute == 0 && t.second == 0 && t.nanos == 0
}

/// `NaiveDate::parse_from_str`, with the time of day set to midnight: depends on the text and
/// the pattern alone, and gives days of the calendar. With the pattern of a date it reads what is
/// written in that layout, and only what has the separators of the pattern, as often as the
/// pattern.
#[verifier::external_body]
pub(crate) fn parse_day(s: &str, pattern: &str) -> (r: Option<Stamp>)
    ensures
        r == parsed_day(s@, pattern@),
        r is Some ==> (r->0).valid() && is_midnight(r->0),
        forall|sep: char|
            r is Some && is_separator(sep) && pattern@ == #[trigger] day_pattern(sep) ==> date_marks(s@, sep, ' ', 0),
        forall|t: Stamp, sep: char|
            is_separator(sep) && pattern@ == day_pattern(sep) && exif_exact(t) && is_midnight(t) && s@
                == #[trigger] day_text(t, sep) ==> r == Some(t),
{
    let d = NaiveDate::parse_from_str(s, pattern).ok()?;
    Some(Stamp { year: d.year(), month: d.month(), day: d.day(), hour: 0, minute: 0, second: 0, nanos: 0 })
}

/// What `NaiveDateTime::format` writes for a stamp and a pattern.
pub uninterp spec fn formatted(t: Stamp, pattern: Seq<char>) -> Option<Seq<char>>;

/// `NaiveDateTime::format` written out: depends on the stamp and the pattern alone; `None` where
/// the pattern is not understood. With the EXIF pattern and with that of file names every part is
/// a number padded with zeros.
#[verifier::external_body]
pub(crate) fn format_stamp(t: Stamp, pattern: &str) -> (r: Option<String>)
    requires
        t.valid(),
    ensures
        match r {
            Some(s) => formatted(t, pattern@) == Some(s@),
            None => formatted(t, pattern@) is None,
        },
        pattern@ == "%Y:%m:%d %H:%M:%S"@ && exif_exact(t) ==> r is Some && (r->0)@ == exif_text(t),
        pattern@ == "%Y:%m:%d %H:%M:%S"@ ==> r is Some,
        pattern@ == "%Y%m%d_%H%M%S"@ && exif_exact(t) ==> r is Some && (r->0)@ == name_text(t),
{
    let date = NaiveDate::from_ymd_opt(t.year, t.month, t.day)?;
    let d = date.and_hms_nano_opt(t.hour, t.minute, t.second, t.nanos)?;
    let mut s = String::new();
    write!(s, "{}", d.format(pattern)).ok()?;
    Some(s)
}

/// Whether a year has 366 days.
pub fn leap_year(year: i32) -> (r: bool)
    ensures
        r == is_leap(year as int),
{
    let y: i64 = year as i64 + 4_000_000_000;
    assert((year + 4_000_000_000) % 4 == year % 4);
    assert((year + 4_000_000_000) % 100 == year % 100);
    assert((year + 4_000_000_000) % 400 == year % 400);
    y % 4 == 0 && (y % 100 != 0 || y % 400 == 0)
}

/// Whether a date is in the calendar.
pub fn date_exists(year: i32, month: u32, day: u32) -> (r: bool)
    ensures
        r == is_date(year as int, month as int, day as int),
{
    if year < MIN_YEAR || year > MAX_YEAR || month < 1 || month > 12 || day < 1 {
        return false;
    }
    let last: u32 = if month == 2 {
        if leap_year(year) { 29 } else { 28 }
    } else if month == 4 || month == 6 || month == 9 || month == 11 {
        30
    } else {
        31
    };
    day <= last
}

// ---- the calendar -----------------------------------------------------------------------

proof fn lemma_month_offset(year: int, month: int)
    requires
        1 <= month <= 12,
    ensures
        0 <= days_before_month(year, month),
        days_before_month(year, month) + month_days(year, month) <= if is_leap(year) {
            366int
        } else {
            365
        },
        month == 12 ==> days_before_month(year, month) + 31 == if is_leap(year) {
            366int
        } else {
            365
        },
{
    reveal_with_fuel(days_before_month, 13);
}

proof fn lemma_months_grow(year: int, a: int, b: int)
    requires
        1 <= a < b <= 12,
    ensures
        days_before_month(year, a) + month_days(year, a) <= days_before_month(year, b),
    decreases b,
{
    if a < b - 1 {
        lemma_months_grow(year, a, b - 1);
    }
}

proof fn lemma_quarter(q: int)
    ensures
        q / 4 - (q - 1) / 4 == if q % 4 == 0 {
            1int
        } else {
            0
        },
{
}

proof fn lemma_hundredth(q: int)
    ensures
        q / 100 - (q - 1) / 100 == if q % 100 == 0 {
            1int
        } else {
            0
        },
        q % 100 == 0 ==> q % 4 == 0,
{
}

proof fn lemma_four_hundredth(q: int)
    ensures
        q / 400 - (q - 1) / 400 == if q % 400 == 0 {
            1int
        } else {
            0
        },
        q % 400 == 0 ==> q % 100 == 0,
{
}

proof fn lemma_next_year(year: int)
    ensures
        days_before_year(year + 1) == days_before_year(year) + if is_leap(year) {
            366int
        } else {
            365
        },
{
    lemma_quarter(year);
    lemma_hundredth(year);
    lemma_four_hundredth(year);
}

proof fn lemma_years_grow(a: int, b: int)
    requires
        a < b,
    ensures
        days_before_year(a) + if is_leap(a) {
            366int
        } else {
            365
        } <= days_before_year(b),
    decreases b - a,
{
    lemma_next_year(b - 1);
    if a < b - 1 {
        lemma_years_grow(a, b - 1);
    }
}

/// Days have different numbers: a later date has a greater number.
pub proof fn days_are_ordered(y1: int, m1: int, d1: int, y2: int, m2: int, d2: int)
    requires
        is_date(y1, m1, d1),
        is_date(y2, m2, d2),
        y1 < y2 || (y1 == y2 && m1 < m2) || (y1 == y2 && m1 == m2 && d1 < d2),
    ensures
        day_number(y1, m1, d1) < day_number(y2, m2, d2),
{
    lemma_month_offset(y1, m1);
    lemma_month_offset(y2, m2);
    if y1 < y2 {
        lemma_years_grow(y1, y2);
    } else if m1 < m2 {
        lemma_months_grow(y1, m1, m2);
    }
}

/// Two stamps of the calendar with the same second count are the same, nanoseconds aside.
pub proof fn seconds_tell_stamps_apart(t: Stamp, u: Stamp)
    requires
        t.valid(),
        u.valid(),
        t.seconds() == u.seconds(),
        t.nanos == u.nanos,
    ensures
        t == u,
{
    let a = day_number(t.year as int, t.month as int, t.day as int);
    let b = day_number(u.year as int, u.month as int, u.day as int);
    let x = t.hour * 3600 + t.minute * 60 + t.second;
    let y = u.hour * 3600 + u.minute * 60 + u.second;
    assert(0 <= x < 86400);
    assert(0 <= y < 86400);
    assert(a == b);
    if t.year != u.year || t.month != u.month || t.day != u.day {
        if t.year < u.year || (t.year == u.year && t.month < u.month) || (t.year == u.year && t.month
            == u.month && t.day < u.day) {
            days_are_ordered(
                t.year as int,
                t.month as int,
                t.day as int,
                u.year as int,
                u.month as int,
                u.day as int,
            );
        } else {
            days_are_ordered(
                u.year as int,
                u.month as int,
                u.day as int,
                t.year as int,
                t.month as int,
                t.day as int,
            );
        }
    }
    assert(t.hour == u.hour && t.minute == u.minute && t.second == u.second);
}

/// A stamp of the calendar lies between its first and its last second.
pub proof fn seconds_in_range(t: Stamp)
    requires
        t.valid(),
    ensures
        min_seconds() <= t.seconds() <= max_seconds(),
{
    let (y, m, d) = (t.year as int, t.month as int, t.day as int);
    let n = day_number(y, m, d);
    if !(y == MIN_YEAR && m == 1 && d == 1) {
        days_are_ordered(MIN_YEAR as int, 1, 1, y, m, d);
    }
    if !(y == MAX_YEAR && m == 12 && d == 31) {
        days_are_ordered(y, m, d, MAX_YEAR as int, 12, 31);
    }
}

/// The calendar has no gaps: the day behind the last of a month is the first of the next, and
/// behind the last of a year comes the first of the next year.
pub proof fn calendar_has_no_gaps(year: int, month: int)
    requires
        1 <= month <= 12,
    ensures
        month < 12 ==> day_number(year, month + 1, 1) == day_number(year, month, month_days(year, month)) + 1,
        day_number(year + 1, 1, 1) == day_number(year, 12, 31) + 1,
        days_before_year(year + 400) - days_before_year(year) == 146097,
{
    reveal_with_fuel(days_before_month, 13);
    lemma_next_year(year);
    let p = year - 1;
    assert((p + 400) / 4 == p / 4 + 100 && (p + 400) / 100 == p / 100 + 4 && (p + 400) / 400 == p / 400 + 1);
}

} // verus!
