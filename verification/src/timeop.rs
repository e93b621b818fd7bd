//! Points in time and offsets: reading them from text, and moving one by the other.

use vstd::prelude::*;
use vstd::string::*;
use crate::stamp;
use crate::stamp::Stamp;
use crate::text;

verus! {

/// The pattern of EXIF time fields.
pub const EXIF_FMT: &'static str = "%Y:%m:%d %H:%M:%S";

/// An offset. Months and years have no fixed number of seconds, so they are kept apart. The
/// sign is in the fields: negative is back in time.
#[derive(Debug, Clone, Copy, PartialEq, Eq, Structural)]
pub struct Delta {
    pub months: i64,
    pub days: i64,
    pub seconds: i64,
}

impl Delta {
    /// Whether days and seconds, each and together, fit a duration.
    pub open spec fn fits(self) -> bool {
        &&& -(i64::MAX as int) <= self.months
        &&& -stamp::MAX_SECONDS <= self.days * 86400 <= stamp::MAX_SECONDS
        &&& -stamp::MAX_SECONDS <= self.seconds <= stamp::MAX_SECONDS
        &&& -stamp::MAX_SECONDS <= self.days * 86400 + self.seconds <= stamp::MAX_SECONDS
    }

    /// `t` after the month step.
    pub open spec fn after_months(self, t: Stamp) -> Option<Stamp> {
        if self.months == 0 {
            Some(t)
        } else {
            stamp::months_moved(t, self.months as int)
        }
    }

    /// `t` moved by this offset: the months by the calendar first, then the days and seconds.
    pub open spec fn moved(self, t: Stamp) -> Option<Stamp> {
        match self.after_months(t) {
            Some(u) => stamp::seconds_moved(u, self.days * 86400 + self.seconds),
            None => None,
        }
    }

    /// Whether days and seconds, each and together, fit a duration.
    pub fn fits_duration(&self) -> (r: bool)
        ensures
            r == self.fits(),
    {
        if self.months == i64::MIN || self.days < -106_751_991_167 || self.days > 106_751_991_167 {
            return false;
        }
        let d: i64 = self.days * 86400;
        if d < -stamp::MAX_SECONDS || d > stamp::MAX_SECONDS || self.seconds < -stamp::MAX_SECONDS
            || self.seconds > stamp::MAX_SECONDS {
            return false;
        }
        let total: i64 = d + self.seconds;
        -stamp::MAX_SECONDS <= total && total <= stamp::MAX_SECONDS
    }

    /// Moves a stamp by this offset. Months are moved by the calendar (a day that the month does
    /// not have becomes its last), the rest by a fixed length of time. `None` where the calendar
    /// ends.
    pub fn apply(&self, t: Stamp) -> (r: Option<Stamp>)
        requires
            t.valid(),
            self.fits(),
        ensures
            r == self.moved(t),
            r is Some ==> (r->0).valid(),
            self.after_months(t) matches Some(m) ==> m.plain() ==> match r {
                Some(u) => u.seconds() == m.seconds() + self.days * 86400 + self.seconds && u.nanos
                    == m.nanos,
                None => m.seconds() + self.days * 86400 + self.seconds < stamp::min_seconds() || m.seconds()
                    + self.days * 86400 + self.seconds > stamp::max_seconds(),
            },
            t.plain() && self.days == 0 && self.seconds == 0 ==> match r {
                Some(u) => {
                    &&& u.year * 12 + u.month == t.year * 12 + t.month + self.months
                    &&& u.hour == t.hour && u.minute == t.minute && u.second == t.second && u.nanos == t.nanos
                    &&& u.day == t.day || (u.day < t.day && u.day == stamp::month_days(
                        u.year as int,
                        u.month as int,
                    ))
                },
                None => {
                    let month = t.year * 12 + t.month - 1 + self.months;
                    month < stamp::MIN_YEAR * 12 || month >= (stamp::MAX_YEAR + 1) * 12
                },
            },
            t.plain() && self.months == 0 ==> match r {
                Some(u) => u.seconds() - t.seconds() == self.days * 86400 + self.seconds && u.nanos == t.nanos,
                None => !(stamp::min_seconds() <= t.seconds() + self.days * 86400 + self.seconds
                    <= stamp::max_seconds()),
            },
            t.plain() ==> (r matches Some(u) ==> moved_by(*self, t, u)),
    {
        if self.months < -(u32::MAX as i64) || self.months > u32::MAX as i64 {
            return None;
        }
        proof {
            lemma_moved_valid(t, self.months as int);
        }
        let u: Stamp = if self.months > 0 {
            match stamp::add_months(t, self.months as u32) {
                Some(u) => u,
                None => {
                    return None;
                },
            }
        } else if self.months < 0 {
            match stamp::sub_months(t, (0 - self.months) as u32) {
                Some(u) => u,
                None => {
                    return None;
                },
            }
        } else {
            t
        };
        let r: Option<Stamp> = stamp::add_seconds(u, self.days * 86400 + self.seconds);
        proof {
            if t.plain() {
                assert(u.valid() && month_moved(t, u, self.months as int));
                if self.days == 0 && self.seconds == 0 {
                    stamp::seconds_in_range(u);
                    if let Some(v) = r {
                        stamp::seconds_tell_stamps_apart(u, v);
                    }
                }
            }
        }
        r
    }

    /// The offset taken `n` times.
    pub fn scaled(&self, n: i64) -> (r: Delta)
        requires
            i64::MIN <= self.months * n <= i64::MAX,
            i64::MIN <= self.days * n <= i64::MAX,
            i64::MIN <= self.seconds * n <= i64::MAX,
        ensures
            r.months == self.months * n,
            r.days == self.days * n,
            r.seconds == self.seconds * n,
    {
        Delta { months: self.months * n, days: self.days * n, seconds: self.seconds * n }
    }

    /// The offset taken `n` times, or `None` where that does not fit.
    pub fn checked_scaled(&self, n: i64) -> (r: Option<Delta>)
        ensures
            match r {
                Some(d) => d.months == self.months * n && d.days == self.days * n && d.seconds
                    == self.seconds * n,
                None => !(i64::MIN <= self.months * n <= i64::MAX && i64::MIN <= self.days * n <= i64::MAX
                    && i64::MIN <= self.seconds * n <= i64::MAX),
            },
    {
        match (self.months.checked_mul(n), self.days.checked_mul(n), self.seconds.checked_mul(n)) {
            (Some(_), Some(_), Some(_)) => Some(self.scaled(n)),
            _ => None,
        }
    }

    /// Whether the offset moves nothing.
    pub fn is_zero(&self) -> (r: bool)
        ensures
            r == (self.months == 0 && self.days == 0 && self.seconds == 0),
    {
        self.months == 0 && self.days == 0 && self.seconds == 0
    }
}

/// Whether `u` is `t` some months later, or earlier for a negative number: the time of day is the
/// same, and so is the day, or it is the last of a shorter month.
pub open spec fn month_moved(t: Stamp, u: Stamp, months: int) -> bool {
    &&& u.year * 12 + u.month == t.year * 12 + t.month + months
    &&& u.hour == t.hour && u.minute == t.minute && u.second == t.second && u.nanos == t.nanos
    &&& u.day == t.day || (u.day < t.day && u.day == stamp::month_days(u.year as int, u.month as int))
}

/// Whether `u` is `t` moved by an offset: by its months, and from there by its days and seconds.
pub open spec fn moved_by(d: Delta, t: Stamp, u: Stamp) -> bool {
    exists|m: Stamp| #[trigger]
        m.valid() && month_moved(t, m, d.months as int) && u.seconds() - m.seconds() == d.days * 86400 + d.seconds
            && u.nanos == m.nanos
}

/// An offset of days and seconds moves the clock by exactly that, an offset of months the calendar,
/// in the direction of its sign.
pub proof fn offsets_move_the_clock(d: Delta, t: Stamp, u: Stamp)
    requires
        t.valid(),
        u.valid(),
        moved_by(d, t, u),
    ensures
        d.months == 0 ==> u.seconds() == t.seconds() + d.days * 86400 + d.seconds,
        d.days == 0 && d.seconds == 0 ==> u.year * 12 + u.month == t.year * 12 + t.month + d.months,
        d.days == 0 && d.seconds == 0 ==> u.hour == t.hour && u.minute == t.minute && u.second == t.second,
        d.days == 0 && d.seconds == 0 && t.day <= 28 ==> u.day == t.day,
        u.nanos == t.nanos,
{
    let m = choose|m: Stamp| #[trigger]
        m.valid() && month_moved(t, m, d.months as int) && u.seconds() - m.seconds() == d.days * 86400 + d.seconds
            && u.nanos == m.nanos;
    if d.months == 0 {
        assert(m.year == t.year && m.month == t.month);
        assert(t.day <= stamp::month_days(m.year as int, m.month as int));
    }
    if d.days == 0 && d.seconds == 0 {
        stamp::seconds_tell_stamps_apart(u, m);
    }
}

/// Months of an offset move the calendar on or back, as their sign says, by as many as there are; the
/// time of day stays.
pub proof fn months_go_the_way_of_their_sign(d: Delta, t: Stamp)
    requires
        t.valid(),
    ensures
        d.after_months(t) matches Some(u) ==> {
            &&& u.year * 12 + u.month == t.year * 12 + t.month + d.months
            &&& d.months < 0 ==> u.seconds() < t.seconds()
            &&& d.months > 0 ==> u.seconds() > t.seconds()
            &&& u.hour == t.hour && u.minute == t.minute && u.second == t.second && u.nanos == t.nanos
            &&& u.day == t.day || (u.day < t.day && u.day == stamp::month_days(u.year as int, u.month as int))
        },
{
    if let Some(u) = d.after_months(t) {
        lemma_moved_valid(t, d.months as int);
        let (p, q, r) = (t.year as int, t.month as int, t.day as int);
        let (x, y, z) = (u.year as int, u.month as int, u.day as int);
        assert(x * 12 + y == p * 12 + q + d.months);
        if d.months > 0 {
            stamp::days_are_ordered(p, q, r, x, y, z);
        } else if d.months < 0 {
            stamp::days_are_ordered(x, y, z, p, q, r);
        }
    }
}

/// Moving by months and back again gives the stamp back, where every month has the day.
pub proof fn month_moves_are_undone(t: Stamp, there: Stamp, back: Stamp, months: int)
    requires
        t.valid(),
        there.valid(),
        back.valid(),
        t.day <= 28,
        month_moved(t, there, months),
        month_moved(there, back, -months),
    ensures
        back == t,
{
}

/// Moving by months stays in the calendar.
pub proof fn lemma_moved_valid(t: Stamp, months: int)
    requires
        t.valid(),
    ensures
        stamp::months_moved(t, months) is Some ==> (stamp::months_moved(t, months)->0).valid(),
{
}

/// Moving by days and seconds and back again gives the stamp back.
pub proof fn moves_are_undone(t: Stamp, there: Stamp, back: Stamp, seconds: int)
    requires
        t.valid(),
        t.plain(),
        there.valid(),
        back.valid(),
        there.seconds() == t.seconds() + seconds,
        there.nanos == t.nanos,
        back.seconds() == there.seconds() - seconds,
        back.nanos == there.nanos,
    ensures
        back == t,
{
    stamp::seconds_tell_stamps_apart(back, t);
}

/// A month move keeps the time of day, and keeps the day where the month has it.
pub proof fn month_move_keeps_time(t: Stamp, months: int)
    requires
        t.valid(),
        stamp::months_moved(t, months) is Some,
    ensures
        ({
            let u = stamp::months_moved(t, months)->0;
            &&& u.hour == t.hour && u.minute == t.minute && u.second == t.second && u.nanos == t.nanos
            &&& u.year * 12 + u.month == t.year * 12 + t.month + months
            &&& u.day <= t.day
            &&& t.day <= 28 ==> u.day == t.day
        }),
{
}

// ---- reading an offset ------------------------------------------------------------------

/// Why an offset could not be read.
#[derive(Debug)]
pub enum DeltaError {
    /// There is nothing to read.
    Empty,
    /// No number before this character.
    MissingNumber(char),
    /// A number that does not fit.
    NumberTooLarge(String),
    /// No unit behind this number.
    MissingUnit(i64),
    /// A unit that is not known.
    UnknownUnit(String),
    /// No number with a unit.
    Nothing,
    /// The numbers together do not fit.
    Overflow,
}

/// What such an error says.
pub enum DeltaErrorView {
    Empty,
    MissingNumber(char),
    NumberTooLarge(Seq<char>),
    MissingUnit(int),
    UnknownUnit(Seq<char>),
    Nothing,
    Overflow,
}

impl View for DeltaError {
    type V = DeltaErrorView;

    open spec fn view(&self) -> DeltaErrorView {
        match *self {
            DeltaError::Empty => DeltaErrorView::Empty,
            DeltaError::MissingNumber(c) => DeltaErrorView::MissingNumber(c),
            DeltaError::NumberTooLarge(s) => DeltaErrorView::NumberTooLarge(s@),
            DeltaError::MissingUnit(n) => DeltaErrorView::MissingUnit(n as int),
            DeltaError::UnknownUnit(s) => DeltaErrorView::UnknownUnit(s@),
            DeltaError::Nothing => DeltaErrorView::Nothing,
            DeltaError::Overflow => DeltaErrorView::Overflow,
        }
    }
}

/// What is told the user about an error in `input`.
pub open spec fn delta_message(e: DeltaErrorView, input: Seq<char>) -> Seq<char> {
    match e {
        DeltaErrorView::Empty => "偏移量为空"@,
        DeltaErrorView::MissingNumber(c) => "偏移量 `"@ + input + "` 格式错误：单位 `"@ + seq![c]
            + "` 前缺少数字"@,
        DeltaErrorView::NumberTooLarge(s) => "数字过大："@ + s,
        DeltaErrorView::MissingUnit(n) => "偏移量 `"@ + input + "` 格式错误：数字 `"@
            + text::dec_signed(n) + "` 后缺少单位"@,
        DeltaErrorView::UnknownUnit(s) => "偏移量 `"@ + input + "` 含未知单位 `"@ + s + "`"@,
        DeltaErrorView::Nothing => "偏移量 `"@ + input + "` 未包含任何有效的数值-单位组合"@,
        DeltaErrorView::Overflow => "偏移量 `"@ + input + "` 过大"@,
    }
}

impl DeltaError {
    /// The message shown to the user for this error in `input`.
    pub fn message(&self, input: &str) -> (s: String)
        ensures
            s@ == delta_message(self@, input@),
    {
        match self {
            DeltaError::Empty => text::copy_text("偏移量为空"),
            DeltaError::MissingNumber(c) => {
                let mut s: String = text::copy_text("偏移量 `").concat(input).concat(
                    "` 格式错误：单位 `",
                );
                let ghost head = s@;
                s.push(*c);
                assert(s@ =~= head + seq![*c]);
                s.append("` 前缺少数字");
                s
            },
            DeltaError::NumberTooLarge(n) => text::copy_text("数字过大：").concat(n.as_str()),
            DeltaError::MissingUnit(n) => {
                let mut s: String = text::copy_text("偏移量 `").concat(input).concat(
                    "` 格式错误：数字 `",
                );
                text::push_signed(&mut s, *n);
                s.append("` 后缺少单位");
                s
            },
            DeltaError::UnknownUnit(u) => text::copy_text("偏移量 `").concat(input).concat(
                "` 含未知单位 `",
            ).concat(u.as_str()).concat("`"),
            DeltaError::Nothing => text::copy_text("偏移量 `").concat(input).concat(
                "` 未包含任何有效的数值-单位组合",
            ),
            DeltaError::Overflow => text::copy_text("偏移量 `").concat(input).concat("` 过大"),
        }
    }
}

/// Where the digits that begin at `i` end.
pub open spec fn digits_end(s: Seq<char>, i: int) -> int
    decreases s.len() - i,
{
    if 0 <= i < s.len() && text::is_digit(s[i]) {
        digits_end(s, i + 1)
    } else {
        i
    }
}

/// ASCII letters.
pub open spec fn is_letter(c: char) -> bool {
    'a' <= c <= 'z' || 'A' <= c <= 'Z'
}

/// Where the letters that begin at `i` end.
pub open spec fn letters_end(s: Seq<char>, i: int) -> int
    decreases s.len() - i,
{
    if 0 <= i < s.len() && is_letter(s[i]) {
        letters_end(s, i + 1)
    } else {
        i
    }
}

/// What one of a unit is: months, days and seconds.
pub open spec fn unit_of(u: Seq<char>) -> Option<(int, int, int)> {
    if u == "y"@ || u == "yr"@ || u == "yrs"@ || u == "year"@ || u == "years"@ {
        Some((12, 0, 0))
    } else if u == "mo"@ || u == "mon"@ || u == "month"@ || u == "months"@ {
        Some((1, 0, 0))
    } else if u == "w"@ || u == "wk"@ || u == "week"@ || u == "weeks"@ {
        Some((0, 7, 0))
    } else if u == "d"@ || u == "day"@ || u == "days"@ {
        Some((0, 1, 0))
    } else if u == "h"@ || u == "hr"@ || u == "hrs"@ || u == "hour"@ || u == "hours"@ {
        Some((0, 0, 3600))
    } else if u == "m"@ || u == "min"@ || u == "mins"@ || u == "minute"@ || u == "minutes"@ {
        Some((0, 0, 60))
    } else if u == "s"@ || u == "sec"@ || u == "secs"@ || u == "second"@ || u == "seconds"@ {
        Some((0, 0, 1))
    } else {
        None
    }
}

/// Digits and letters end inside the text.
pub proof fn lemma_ends(s: Seq<char>, i: int)
    requires
        0 <= i <= s.len(),
    ensures
        i <= digits_end(s, i) <= s.len(),
        i <= letters_end(s, i) <= s.len(),
        text::all_digits(s.subrange(i, digits_end(s, i))),
    decreases s.len() - i,
{
    if i < s.len() {
        lemma_ends(s, i + 1);
        if text::is_digit(s[i]) {
            let d = s.subrange(i, digits_end(s, i));
            let rest = s.subrange(i + 1, digits_end(s, i));
            assert forall|k: int| 0 <= k < d.len() implies text::is_digit(#[trigger] d[k]) by {
                if k > 0 {
                    assert(d[k] == rest[k - 1]);
                    assert(text::is_digit(rest[k - 1]));
                }
            }
        }
    }
}

/// The sums of months, days and seconds of what stands from `i` on: numbers, each with a unit,
/// with white space before them allowed. `sums` is what was met so far, `any` whether something
/// was.
pub open spec fn sums_from(s: Seq<char>, i: int, sums: (int, int, int), any: bool) -> Result<
    (int, int, int),
    DeltaErrorView,
>
    decreases s.len() - i,
    when 0 <= i <= s.len()
{
    if i == s.len() {
        if any {
            Ok(sums)
        } else {
            Err(DeltaErrorView::Nothing)
        }
    } else if text::is_space(s[i]) {
        sums_from(s, i + 1, sums, any)
    } else {
        let number_end = digits_end(s, i);
        let unit_end = letters_end(s, number_end);
        let number = s.subrange(i, number_end);
        let value = text::digits_value(number);
        let unit = text::lowered(s.subrange(number_end, unit_end));
        if number_end == i {
            Err(DeltaErrorView::MissingNumber(s[i]))
        } else if value > i64::MAX {
            Err(DeltaErrorView::NumberTooLarge(number))
        } else {
            match unit_of(unit) {
                None => if unit_end == number_end {
                    Err(DeltaErrorView::MissingUnit(value as int))
                } else {
                    Err(DeltaErrorView::UnknownUnit(unit))
                },
                Some(one) => {
                    let next = (
                        sums.0 + value * one.0,
                        sums.1 + value * one.1,
                        sums.2 + value * one.2,
                    );
                    if next.0 > i64::MAX || next.1 > i64::MAX || next.2 > i64::MAX {
                        Err(DeltaErrorView::Overflow)
                    } else {
                        proof {
                            lemma_ends(s, i);
                            lemma_ends(s, number_end);
                        }
                        sums_from(s, unit_end, next, true)
                    }
                },
            }
        }
    }
}

/// The offset that a text says: an optional sign, then numbers with units. The sign holds for
/// all of them.
pub open spec fn delta_of(input: Seq<char>) -> Result<Delta, DeltaErrorView> {
    let s = text::trimmed(input);
    if s.len() == 0 {
        Err(DeltaErrorView::Empty)
    } else {
        let rest = if s[0] == '-' || s[0] == '+' {
            s.drop_first()
        } else {
            s
        };
        match sums_from(rest, 0, (0, 0, 0), false) {
            Err(e) => Err(e),
            Ok(sums) => Ok(
                if s[0] == '-' {
                    Delta { months: (-sums.0) as i64, days: (-sums.1) as i64, seconds: (-sums.2) as i64 }
                } else {
                    Delta { months: sums.0 as i64, days: sums.1 as i64, seconds: sums.2 as i64 }
                },
            ),
        }
    }
}

/// What one of a unit is: months, days and seconds.
fn unit_parts(u: &[char]) -> (r: Option<(u64, u64, u64)>)
    ensures
        match r {
            Some((m, d, s)) => unit_of(u@) == Some((m as int, d as int, s as int)) && m <= 12 && d <= 7 && s
                <= 3600,
            None => unit_of(u@) is None,
        },
{
    if text::is_text(u, "y") || text::is_text(u, "yr") || text::is_text(u, "yrs") || text::is_text(u, "year")
        || text::is_text(u, "years") {
        Some((12, 0, 0))
    } else if text::is_text(u, "mo") || text::is_text(u, "mon") || text::is_text(u, "month")
        || text::is_text(u, "months") {
        Some((1, 0, 0))
    } else if text::is_text(u, "w") || text::is_text(u, "wk") || text::is_text(u, "week") || text::is_text(
        u,
        "weeks",
    ) {
        Some((0, 7, 0))
    } else if text::is_text(u, "d") || text::is_text(u, "day") || text::is_text(u, "days") {
        Some((0, 1, 0))
    } else if text::is_text(u, "h") || text::is_text(u, "hr") || text::is_text(u, "hrs") || text::is_text(
        u,
        "hour",
    ) || text::is_text(u, "hours") {
        Some((0, 0, 3600))
    } else if text::is_text(u, "m") || text::is_text(u, "min") || text::is_text(u, "mins") || text::is_text(
        u,
        "minute",
    ) || text::is_text(u, "minutes") {
        Some((0, 0, 60))
    } else if text::is_text(u, "s") || text::is_text(u, "sec") || text::is_text(u, "secs") || text::is_text(
        u,
        "second",
    ) || text::is_text(u, "seconds") {
        Some((0, 0, 1))
    } else {
        None
    }
}

pub(crate) fn find_digits_end(cs: &[char], i: usize) -> (end: usize)
    requires
        i <= cs.len(),
    ensures
        end == digits_end(cs@, i as int),
        i <= end <= cs.len(),
{
    let mut k: usize = i;
    while k < cs.len() && '0' <= cs[k] && cs[k] <= '9'
        invariant
            i <= k <= cs.len(),
            digits_end(cs@, i as int) == digits_end(cs@, k as int),
        decreases cs.len() - k,
    {
        k += 1;
    }
    k
}

fn find_letters_end(cs: &[char], i: usize) -> (end: usize)
    requires
        i <= cs.len(),
    ensures
        end == letters_end(cs@, i as int),
        i <= end <= cs.len(),
{
    let mut k: usize = i;
    while k < cs.len() && (('a' <= cs[k] && cs[k] <= 'z') || ('A' <= cs[k] && cs[k] <= 'Z'))
        invariant
            i <= k <= cs.len(),
            letters_end(cs@, i as int) == letters_end(cs@, k as int),
        decreases cs.len() - k,
    {
        k += 1;
    }
    k
}

/// Adds `value` times `one` to `sum`, if that fits.
fn add_up(sum: i64, value: u64, one: u64) -> (r: Option<i64>)
    requires
        0 <= sum,
        value <= i64::MAX,
        one <= 3600,
    ensures
        match r {
            Some(n) => n == sum + value * one,
            None => sum + value * one > i64::MAX,
        },
{
    assert(0 <= value * one <= 9223372036854775807 * 3600) by (nonlinear_arith)
        requires
            0 <= value <= 9223372036854775807,
            0 <= one <= 3600,
    ;
    let total: i128 = sum as i128 + value as i128 * one as i128;
    if total > i64::MAX as i128 {
        None
    } else {
        Some(total as i64)
    }
}

/// Reads the numbers with units of an offset.
fn read_sums(cs: &[char]) -> (r: Result<(i64, i64, i64), DeltaError>)
    ensures
        match r {
            Ok((m, d, s)) => sums_from(cs@, 0, (0, 0, 0), false) == Ok::<_, DeltaErrorView>(
                (m as int, d as int, s as int),
            ) && 0 <= m && 0 <= d && 0 <= s,
            Err(e) => sums_from(cs@, 0, (0, 0, 0), false) == Err::<(int, int, int), _>(e@),
        },
{
    let mut months: i64 = 0;
    let mut days: i64 = 0;
    let mut seconds: i64 = 0;
    let mut any: bool = false;
    let mut i: usize = 0;
    while i < cs.len()
        invariant
            i <= cs.len(),
            0 <= months,
            0 <= days,
            0 <= seconds,
            sums_from(cs@, 0, (0, 0, 0), false) == sums_from(
                cs@,
                i as int,
                (months as int, days as int, seconds as int),
                any,
            ),
        decreases cs.len() - i,
    {
        if text::is_white_space(cs[i]) {
            i += 1;
        } else {
            let number_end: usize = find_digits_end(cs, i);
            if number_end == i {
                return Err(DeltaError::MissingNumber(cs[i]));
            }
            let unit_end: usize = find_letters_end(cs, number_end);
            let number: &[char] = &cs[i..number_end];
            proof {
                lemma_ends(cs@, i as int);
                assert(number@[0] == cs@[i as int]);
                assert(text::is_digit(number@[0]));
                assert(text::numeral(number@) == Some(text::digits_value(number@)));
            }
            let value: u64 = match text::parse_number(number, i64::MAX as u64) {
                Some(n) => n,
                None => {
                    return Err(DeltaError::NumberTooLarge(text::text_of(number)));
                },
            };
            let unit: Vec<char> = text::lower_chars(&cs[number_end..unit_end]);
            let one: (u64, u64, u64) = match unit_parts(unit.as_slice()) {
                Some(one) => one,
                None => {
                    if unit_end == number_end {
                        return Err(DeltaError::MissingUnit(value as i64));
                    }
                    return Err(DeltaError::UnknownUnit(text::text_of(unit.as_slice())));
                },
            };
            match (add_up(months, value, one.0), add_up(days, value, one.1), add_up(seconds, value, one.2)) {
                (Some(m), Some(d), Some(s)) => {
                    months = m;
                    days = d;
                    seconds = s;
                },
                _ => {
                    return Err(DeltaError::Overflow);
                },
            }
            any = true;
            i = unit_end;
        }
    }
    if any {
        Ok((months, days, seconds))
    } else {
        Err(DeltaError::Nothing)
    }
}

/// Reads an offset such as `+2h`, `-3d`, `+1y2mo` or `-1d12h30m`.
///
/// Units, in any case: `y`, `yr`, `year`; `mo`, `month`; `w`, `week`; `d`, `day`; `h`, `hr`,
/// `hour`; `m`, `min`, `minute`; `s`, `sec`, `second`.
pub fn parse_delta(input: &str) -> (r: Result<Delta, DeltaError>)
    ensures
        match r {
            Ok(d) => delta_of(input@) == Ok::<Delta, DeltaErrorView>(d),
            Err(e) => delta_of(input@) == Err::<Delta, DeltaErrorView>(e@),
        },
{
    let cs: Vec<char> = text::chars_of(input);
    let s: &[char] = text::trim_chars(cs.as_slice());
    if s.len() == 0 {
        return Err(DeltaError::Empty);
    }
    let negative: bool = s[0] == '-';
    let start: usize = if s[0] == '-' || s[0] == '+' { 1 } else { 0 };
    let rest: &[char] = &s[start..s.len()];
    proof {
        if start == 1 {
            assert(rest@ =~= s@.drop_first());
        } else {
            assert(rest@ =~= s@);
        }
    }
    match read_sums(rest) {
        Err(e) => Err(e),
        Ok((months, days, seconds)) => if negative {
            Ok(Delta { months: 0 - months, days: 0 - days, seconds: 0 - seconds })
        } else {
            Ok(Delta { months, days, seconds })
        },
    }
}

// ---- reading and writing a point in time ------------------------------------------------

/// The patterns of a date with a time, in the order in which they are tried.
pub open spec fn time_patterns() -> Seq<Seq<char>> {
    seq![
        "%Y-%m-%d %H:%M:%S"@,
        "%Y:%m:%d %H:%M:%S"@,
        "%Y/%m/%d %H:%M:%S"@,
        "%Y-%m-%dT%H:%M:%S"@,
        "%Y-%m-%d %H:%M"@,
        "%Y:%m:%d %H:%M"@,
        "%Y/%m/%d %H:%M"@,
        "%Y-%m-%dT%H:%M"@,
    ]
}

/// The patterns of a date alone, in the order in which they are tried.
pub open spec fn day_patterns() -> Seq<Seq<char>> {
    seq!["%Y-%m-%d"@, "%Y:%m:%d"@, "%Y/%m/%d"@]
}

/// The first that is there, from `i` on.
pub open spec fn first_there(found: Seq<Option<Stamp>>, i: int) -> Option<Stamp>
    decreases found.len() - i,
{
    if i < 0 || i >= found.len() {
        None
    } else if found[i] is Some {
        found[i]
    } else {
        first_there(found, i + 1)
    }
}

/// The text of a time field without white space and zeros around it.
pub open spec fn bare(s: Seq<char>) -> Seq<char> {
    text::trimmed(text::without_zeros(text::trimmed(s)))
}

/// What the patterns find in a text: with a time first, then a date alone.
pub open spec fn findings(s: Seq<char>) -> Seq<Option<Stamp>> {
    time_patterns().map_values(|p: Seq<char>| stamp::parsed_stamp(s, p)) + day_patterns().map_values(
        |p: Seq<char>| stamp::parsed_day(s, p),
    )
}

/// The point in time that a text says.
pub open spec fn time_in(input: Seq<char>) -> Option<Stamp> {
    first_there(findings(bare(input)), 0)
}

/// The first that is there.
pub fn pick_first(found: &[Option<Stamp>]) -> (r: Option<Stamp>)
    ensures
        r == first_there(found@, 0),
{
    let mut i: usize = 0;
    while i < found.len()
        invariant
            i <= found.len(),
            first_there(found@, 0) == first_there(found@, i as int),
        decreases found.len() - i,
    {
        if found[i].is_some() {
            return found[i];
        }
        i += 1;
    }
    None
}

/// The text of a time field without white space and zeros around it.
fn strip_field(input: &str) -> (s: String)
    ensures
        s@ == bare(input@),
{
    let cs: Vec<char> = text::chars_of(input);
    text::text_of(text::trim_chars(text::drop_zeros(text::trim_chars(cs.as_slice()))))
}

/// What is told the user about a text that is no point in time.
pub open spec fn time_message(input: Seq<char>) -> Seq<char> {
    "无法解析时间 `"@ + input + "`，请用形如 `2024-01-01 12:00:00` 的格式"@
}

/// Whether a layout of a date with a time is one of those that are read.
pub open spec fn is_layout(sep: char, mid: char) -> bool {
    stamp::is_separator(sep) && (mid == ' ' || (mid == 'T' && sep == '-'))
}

/// Reads a point in time: a date with `-`, `:` or `/`, and a time whose seconds, or the whole of
/// which, may be left out. The error is the message for the user.
pub fn parse_datetime(input: &str) -> (r: Result<Stamp, String>)
    ensures
        match r {
            Ok(t) => time_in(input@) == Some(t) && t.valid(),
            Err(e) => time_in(input@) is None && e@ == time_message(input@),
        },
        forall|t: Stamp, sep: char, mid: char, seconds: bool|
            is_layout(sep, mid) && stamp::exif_exact(t) && (seconds || t.second == 0) && bare(input@)
                == #[trigger] stamp::time_text(t, sep, mid, seconds) ==> r == Ok::<Stamp, String>(t),
        forall|t: Stamp, sep: char|
            stamp::is_separator(sep) && stamp::exif_exact(t) && stamp::is_midnight(t) && bare(input@)
                == #[trigger] stamp::day_text(t, sep) ==> r == Ok::<Stamp, String>(t),
        forall|t: Stamp|
            stamp::exif_exact(t) && bare(input@) == #[trigger] stamp::exif_text(t) ==> r == Ok::<
                Stamp,
                String,
            >(t),
{
    let s: String = strip_field(input);
    let f: &str = s.as_str();
    let found: [Option<Stamp>; 11] = [
        stamp::parse_stamp(f, "%Y-%m-%d %H:%M:%S"),
        stamp::parse_stamp(f, EXIF_FMT),
        stamp::parse_stamp(f, "%Y/%m/%d %H:%M:%S"),
        stamp::parse_stamp(f, "%Y-%m-%dT%H:%M:%S"),
        stamp::parse_stamp(f, "%Y-%m-%d %H:%M"),
        stamp::parse_stamp(f, "%Y:%m:%d %H:%M"),
        stamp::parse_stamp(f, "%Y/%m/%d %H:%M"),
        stamp::parse_stamp(f, "%Y-%m-%dT%H:%M"),
        stamp::parse_day(f, "%Y-%m-%d"),
        stamp::parse_day(f, "%Y:%m:%d"),
        stamp::parse_day(f, "%Y/%m/%d"),
    ];
    assert(found@ =~= findings(bare(input@)));
    let r: Option<Stamp> = pick_first(&found);
    proof {
        lemma_first_there(found@, 0);
        lemma_time_patterns();
        lemma_day_patterns();
        assert(marks_agree(found@, f@));
        assert forall|t: Stamp, sep: char, mid: char, seconds: bool|
            is_layout(sep, mid) && stamp::exif_exact(t) && (seconds || t.second == 0) && bare(input@)
                == #[trigger] stamp::time_text(t, sep, mid, seconds) implies r == Some(t) by {
            let k = layout_place(sep, mid, seconds);
            assert(found@[k] == Some(t));
            lemma_time_found(found@, f@, t, sep, mid, seconds);
        }
        assert forall|t: Stamp, sep: char|
            stamp::is_separator(sep) && stamp::exif_exact(t) && stamp::is_midnight(t) && bare(input@)
                == #[trigger] stamp::day_text(t, sep) implies r == Some(t) by {
            assert(found@[day_place(sep)] == Some(t));
            lemma_day_found(found@, f@, t, sep);
        }
        assert forall|t: Stamp| stamp::exif_exact(t) && bare(input@) == #[trigger] stamp::exif_text(
            t,
        ) implies r == Some(t) by {
            lemma_exif_layout(t);
            assert(bare(input@) == stamp::time_text(t, ':', ' ', true));
        }
    }
    match r {
        Some(t) => Ok(t),
        None => Err(
            text::copy_text("无法解析时间 `").concat(input).concat(
                "`，请用形如 `2024-01-01 12:00:00` 的格式",
            ),
        ),
    }
}

/// Where the pattern of a layout stands among those that are tried.
spec fn layout_place(sep: char, mid: char, seconds: bool) -> int {
    (if mid == 'T' {
        3int
    } else if sep == '-' {
        0
    } else if sep == ':' {
        1
    } else {
        2
    }) + if seconds {
        0int
    } else {
        4
    }
}

/// Where the pattern of a date alone stands among those that are tried.
spec fn day_place(sep: char) -> int {
    if sep == '-' {
        8
    } else if sep == ':' {
        9
    } else {
        10
    }
}

/// Each pattern finds only what has its separators.
spec fn marks_agree(found: Seq<Option<Stamp>>, s: Seq<char>) -> bool {
    &&& found.len() == 11
    &&& found[0] is Some ==> stamp::date_marks(s, '-', ' ', 2)
    &&& found[1] is Some ==> stamp::date_marks(s, ':', ' ', 2)
    &&& found[2] is Some ==> stamp::date_marks(s, '/', ' ', 2)
    &&& found[3] is Some ==> stamp::date_marks(s, '-', 'T', 2)
    &&& found[4] is Some ==> stamp::date_marks(s, '-', ' ', 1)
    &&& found[5] is Some ==> stamp::date_marks(s, ':', ' ', 1)
    &&& found[6] is Some ==> stamp::date_marks(s, '/', ' ', 1)
    &&& found[7] is Some ==> stamp::date_marks(s, '-', 'T', 1)
    &&& found[8] is Some ==> stamp::date_marks(s, '-', ' ', 0)
    &&& found[9] is Some ==> stamp::date_marks(s, ':', ' ', 0)
    &&& found[10] is Some ==> stamp::date_marks(s, '/', ' ', 0)
}

proof fn lemma_time_patterns()
    ensures
        stamp::time_pattern('-', ' ', true) == "%Y-%m-%d %H:%M:%S"@,
        stamp::time_pattern(':', ' ', true) == "%Y:%m:%d %H:%M:%S"@,
        stamp::time_pattern('/', ' ', true) == "%Y/%m/%d %H:%M:%S"@,
        stamp::time_pattern('-', 'T', true) == "%Y-%m-%dT%H:%M:%S"@,
        stamp::time_pattern('-', ' ', false) == "%Y-%m-%d %H:%M"@,
        stamp::time_pattern(':', ' ', false) == "%Y:%m:%d %H:%M"@,
        stamp::time_pattern('/', ' ', false) == "%Y/%m/%d %H:%M"@,
        stamp::time_pattern('-', 'T', false) == "%Y-%m-%dT%H:%M"@,
{
    reveal_strlit("%Y");
    reveal_strlit("%m");
    reveal_strlit("%d");
    reveal_strlit("%H:%M");
    reveal_strlit(":%S");
    reveal_strlit("%Y-%m-%d %H:%M:%S");
    reveal_strlit("%Y:%m:%d %H:%M:%S");
    reveal_strlit("%Y/%m/%d %H:%M:%S");
    reveal_strlit("%Y-%m-%dT%H:%M:%S");
    reveal_strlit("%Y-%m-%d %H:%M");
    reveal_strlit("%Y:%m:%d %H:%M");
    reveal_strlit("%Y/%m/%d %H:%M");
    reveal_strlit("%Y-%m-%dT%H:%M");
    assert(stamp::time_pattern('-', ' ', true) =~= "%Y-%m-%d %H:%M:%S"@);
    assert(stamp::time_pattern(':', ' ', true) =~= "%Y:%m:%d %H:%M:%S"@);
    assert(stamp::time_pattern('/', ' ', true) =~= "%Y/%m/%d %H:%M:%S"@);
    assert(stamp::time_pattern('-', 'T', true) =~= "%Y-%m-%dT%H:%M:%S"@);
    assert(stamp::time_pattern('-', ' ', false) =~= "%Y-%m-%d %H:%M"@);
    assert(stamp::time_pattern(':', ' ', false) =~= "%Y:%m:%d %H:%M"@);
    assert(stamp::time_pattern('/', ' ', false) =~= "%Y/%m/%d %H:%M"@);
    assert(stamp::time_pattern('-', 'T', false) =~= "%Y-%m-%dT%H:%M"@);
}

proof fn lemma_day_patterns()
    ensures
        stamp::day_pattern('-') == "%Y-%m-%d"@,
        stamp::day_pattern(':') == "%Y:%m:%d"@,
        stamp::day_pattern('/') == "%Y/%m/%d"@,
{
    reveal_strlit("%Y");
    reveal_strlit("%m");
    reveal_strlit("%d");
    reveal_strlit("%Y-%m-%d");
    reveal_strlit("%Y:%m:%d");
    reveal_strlit("%Y/%m/%d");
    assert(stamp::day_pattern('-') =~= "%Y-%m-%d"@);
    assert(stamp::day_pattern(':') =~= "%Y:%m:%d"@);
    assert(stamp::day_pattern('/') =~= "%Y/%m/%d"@);
}

proof fn lemma_marks_concat(a: Seq<char>, b: Seq<char>, c: char)
    ensures
        stamp::marks(a + b, c) == stamp::marks(a, c) + stamp::marks(b, c),
    decreases b.len(),
{
    if b.len() == 0 {
        assert(a + b =~= a);
    } else {
        lemma_marks_concat(a, b.drop_last(), c);
        assert((a + b).drop_last() =~= a + b.drop_last());
        assert((a + b).last() == b.last());
    }
}

proof fn lemma_marks_one(d: char, c: char)
    ensures
        stamp::marks(seq![d], c) == if d == c { 1nat } else { 0 },
{
    let s = seq![d];
    assert(s.drop_last() =~= Seq::<char>::empty());
    assert(stamp::marks(s.drop_last(), c) == 0);
    assert(s.last() == d);
}

proof fn lemma_marks_digits(s: Seq<char>, c: char)
    requires
        text::all_digits(s),
        !text::is_digit(c),
    ensures
        stamp::marks(s, c) == 0,
    decreases s.len(),
{
    if s.len() > 0 {
        let init = s.drop_last();
        assert forall|i: int| 0 <= i < init.len() implies text::is_digit(#[trigger] init[i]) by {
            assert(init[i] == s[i]);
        }
        lemma_marks_digits(init, c);
        assert(text::is_digit(s[s.len() - 1]));
    }
}

/// How often a character that is no digit stands in a date.
proof fn lemma_day_marks(t: Stamp, sep: char, c: char)
    requires
        !text::is_digit(c),
    ensures
        stamp::marks(stamp::day_text(t, sep), c) == if sep == c { 2nat } else { 0 },
{
    let y = text::zero_padded(text::dec(t.year as nat), 4);
    let m = stamp::two(t.month as int);
    let d = stamp::two(t.day as int);
    lemma_padded_digits(t.year as nat, 4);
    lemma_padded_digits(t.month as nat, 2);
    lemma_padded_digits(t.day as nat, 2);
    lemma_marks_digits(y, c);
    lemma_marks_digits(m, c);
    lemma_marks_digits(d, c);
    lemma_marks_one(sep, c);
    lemma_marks_concat(y, seq![sep], c);
    lemma_marks_concat(y + seq![sep], m, c);
    lemma_marks_concat(y + seq![sep] + m, seq![sep], c);
    lemma_marks_concat(y + seq![sep] + m + seq![sep], d, c);
}

/// How often a character that is no digit stands in a date with a time.
proof fn lemma_time_marks(t: Stamp, sep: char, mid: char, seconds: bool, c: char)
    requires
        !text::is_digit(c),
    ensures
        stamp::marks(stamp::time_text(t, sep, mid, seconds), c) == (if sep == c { 2nat } else { 0 }) + (if mid
            == c { 1nat } else { 0 }) + (if c == ':' { if seconds { 2nat } else { 1 } } else { 0 }),
{
    let day = stamp::day_text(t, sep);
    let h = stamp::two(t.hour as int);
    let m = stamp::two(t.minute as int);
    let s = stamp::two(t.second as int);
    reveal_strlit(":");
    assert(":"@ =~= seq![':']);
    lemma_padded_digits(t.hour as nat, 2);
    lemma_padded_digits(t.minute as nat, 2);
    lemma_padded_digits(t.second as nat, 2);
    lemma_marks_digits(h, c);
    lemma_marks_digits(m, c);
    lemma_marks_digits(s, c);
    lemma_marks_one(mid, c);
    lemma_marks_one(':', c);
    lemma_day_marks(t, sep, c);
    lemma_marks_concat(day, seq![mid], c);
    lemma_marks_concat(day + seq![mid], h, c);
    lemma_marks_concat(day + seq![mid] + h, ":"@, c);
    lemma_marks_concat(day + seq![mid] + h + ":"@, m, c);
    let head = day + seq![mid] + h + ":"@ + m;
    if seconds {
        lemma_marks_concat(":"@, s, c);
        lemma_marks_concat(head, ":"@ + s, c);
    } else {
        lemma_marks_concat(head, Seq::empty(), c);
        assert(stamp::marks(Seq::<char>::empty(), c) == 0);
    }
}

proof fn lemma_first_at(found: Seq<Option<Stamp>>, i: int, k: int)
    requires
        0 <= i <= k < found.len(),
        found[k] is Some,
        forall|j: int| i <= j < k ==> (#[trigger] found[j]) is None,
    ensures
        first_there(found, i) == found[k],
    decreases k - i,
{
    if i < k {
        assert(found[i] is None);
        lemma_first_at(found, i + 1, k);
    }
}

proof fn lemma_time_found(
    found: Seq<Option<Stamp>>,
    s: Seq<char>,
    t: Stamp,
    sep: char,
    mid: char,
    seconds: bool,
)
    requires
        is_layout(sep, mid),
        marks_agree(found, s),
        s == stamp::time_text(t, sep, mid, seconds),
        found[layout_place(sep, mid, seconds)] == Some(t),
    ensures
        first_there(found, 0) == Some(t),
{
    lemma_time_marks(t, sep, mid, seconds, ':');
    lemma_time_marks(t, sep, mid, seconds, '/');
    lemma_time_marks(t, sep, mid, seconds, 'T');
    lemma_time_marks(t, sep, mid, seconds, '-');
    let k = layout_place(sep, mid, seconds);
    assert forall|j: int| 0 <= j < k implies (#[trigger] found[j]) is None by {
        assert(j == 0 || j == 1 || j == 2 || j == 3 || j == 4 || j == 5 || j == 6);
    }
    lemma_first_at(found, 0, k);
}

proof fn lemma_day_found(found: Seq<Option<Stamp>>, s: Seq<char>, t: Stamp, sep: char)
    requires
        stamp::is_separator(sep),
        marks_agree(found, s),
        s == stamp::day_text(t, sep),
        found[day_place(sep)] == Some(t),
    ensures
        first_there(found, 0) == Some(t),
{
    lemma_day_marks(t, sep, ':');
    lemma_day_marks(t, sep, '/');
    lemma_day_marks(t, sep, 'T');
    lemma_day_marks(t, sep, '-');
    let k = day_place(sep);
    assert forall|j: int| 0 <= j < k implies (#[trigger] found[j]) is None by {
        assert(j == 0 || j == 1 || j == 2 || j == 3 || j == 4 || j == 5 || j == 6 || j == 7 || j == 8 || j
            == 9);
    }
    lemma_first_at(found, 0, k);
}

/// What EXIF writes is one of the layouts.
proof fn lemma_exif_layout(t: Stamp)
    ensures
        stamp::exif_text(t) == stamp::time_text(t, ':', ' ', true),
{
    reveal_strlit(":");
    reveal_strlit(" ");
    assert(":"@ =~= seq![':']);
    assert(" "@ =~= seq![' ']);
    let head = stamp::day_text(t, ':') + seq![' '] + stamp::two(t.hour as int) + ":"@ + stamp::two(t.minute as int);
    assert(head + (":"@ + stamp::two(t.second as int)) =~= head + ":"@ + stamp::two(t.second as int));
}

proof fn lemma_first_there(found: Seq<Option<Stamp>>, i: int)
    requires
        0 <= i,
    ensures
        first_there(found, i) is Some ==> exists|k: int| i <= k < found.len() && #[trigger] found[k] == first_there(
            found,
            i,
        ),
    decreases found.len() - i,
{
    if i < found.len() && found[i] is None {
        lemma_first_there(found, i + 1);
    }
}

proof fn lemma_dec_digits(n: nat)
    ensures
        text::all_digits(text::dec(n)),
    decreases n,
{
    if n >= 10 {
        lemma_dec_digits(n / 10);
    }
    let d = text::dec(n);
    assert forall|i: int| 0 <= i < d.len() implies text::is_digit(#[trigger] d[i]) by {
        if n >= 10 && i < d.len() - 1 {
            assert(d[i] == text::dec(n / 10)[i]);
        }
    }
}

proof fn lemma_padded_digits(n: nat, width: nat)
    ensures
        text::all_digits(text::zero_padded(text::dec(n), width)),
{
    lemma_dec_digits(n);
    let d = text::dec(n);
    let p = text::zero_padded(d, width);
    assert forall|i: int| 0 <= i < p.len() implies text::is_digit(#[trigger] p[i]) by {
        if d.len() < width && i >= width - d.len() {
            assert(p[i] == d[i - (width - d.len())]);
        }
    }
}

/// Writes a stamp as EXIF does: `YYYY:MM:DD HH:MM:SS`.
pub fn format_exif(t: &Stamp) -> (s: String)
    requires
        t.valid(),
    ensures
        stamp::formatted(*t, EXIF_FMT@) == Some(s@),
        stamp::exif_exact(*t) ==> s@ == stamp::exif_text(*t),
{
    match stamp::format_stamp(*t, EXIF_FMT) {
        Some(s) => s,
        None => String::new(),
    }
}

} // verus!
