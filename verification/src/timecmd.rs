//! Changing the capture time.

use little_exif::metadata::Metadata;
use vstd::prelude::*;
use vstd::string::*;
use crate::cli::TimeArgs;
use crate::exif;
use crate::exif::TagSelection;
use crate::namedate;
use crate::outcome::{Outcome, OutcomeView};
use crate::stamp;
use crate::stamp::Stamp;
use crate::tags;
use crate::text;
use crate::timeop;
use crate::timeop::Delta;

verus! {

// ---- which fields -----------------------------------------------------------------------

/// A selection with the field that a word names added; `None` for a word that names none.
pub open spec fn selected(sel: TagSelection, word: Seq<char>) -> Option<TagSelection> {
    if word.len() == 0 {
        Some(sel)
    } else if word == "original"@ || word == "datetimeoriginal"@ || word == "o"@ {
        Some(TagSelection { original: true, ..sel })
    } else if word == "digitized"@ || word == "createdate"@ || word == "datetimedigitized"@ || word == "d"@ {
        Some(TagSelection { digitized: true, ..sel })
    } else if word == "modify"@ || word == "modifydate"@ || word == "datetime"@ || word == "m"@ {
        Some(TagSelection { modify: true, ..sel })
    } else if word == "all"@ {
        Some(TagSelection { original: true, digitized: true, modify: true })
    } else {
        None
    }
}

/// The message for a word that names no time field.
pub open spec fn field_message(word: Seq<char>) -> Seq<char> {
    "未知的时间字段 `"@ + word + "`，可用值：original,digitized,modify,all"@
}

/// The selection that the words from `i` on make of `sel`, or the message for the user.
pub open spec fn selection_from(words: Seq<Seq<char>>, i: int, sel: TagSelection) -> Result<
    TagSelection,
    Seq<char>,
>
    decreases words.len() - i,
{
    if i < 0 || i >= words.len() {
        if sel.original || sel.digitized || sel.modify {
            Ok(sel)
        } else {
            Err("--tags 未选择任何字段"@)
        }
    } else {
        let word = text::lowered(text::trimmed(words[i]));
        match selected(sel, word) {
            Some(next) => selection_from(words, i + 1, next),
            None => Err(field_message(word)),
        }
    }
}

/// No field.
pub open spec fn no_fields() -> TagSelection {
    TagSelection { original: false, digitized: false, modify: false }
}

/// The time fields that a list names.
pub open spec fn selection_of(list: Seq<char>) -> Result<TagSelection, Seq<char>> {
    selection_from(text::split_any(list, seq![',']), 0, no_fields())
}

fn add_field(sel: TagSelection, w: &[char]) -> (r: Option<TagSelection>)
    ensures
        r == selected(sel, w@),
{
    if w.len() == 0 {
        Some(sel)
    } else if text::is_text(w, "original") || text::is_text(w, "datetimeoriginal") || text::is_text(w, "o") {
        Some(TagSelection { original: true, digitized: sel.digitized, modify: sel.modify })
    } else if text::is_text(w, "digitized") || text::is_text(w, "createdate") || text::is_text(
        w,
        "datetimedigitized",
    ) || text::is_text(w, "d") {
        Some(TagSelection { original: sel.original, digitized: true, modify: sel.modify })
    } else if text::is_text(w, "modify") || text::is_text(w, "modifydate") || text::is_text(w, "datetime")
        || text::is_text(w, "m") {
        Some(TagSelection { original: sel.original, digitized: sel.digitized, modify: true })
    } else if text::is_text(w, "all") {
        Some(TagSelection { original: true, digitized: true, modify: true })
    } else {
        None
    }
}

/// Reads the time fields to write from a list. The error is the message for the user.
pub fn parse_time_tags(list: &str) -> (r: Result<TagSelection, String>)
    ensures
        match r {
            Ok(sel) => selection_of(list@) == Ok::<TagSelection, Seq<char>>(sel),
            Err(e) => selection_of(list@) == Err::<TagSelection, Seq<char>>(e@),
        },
{
    let cs: Vec<char> = text::chars_of(list);
    let comma: [char; 1] = [','];
    assert(comma@ =~= seq![',']);
    let words: Vec<Vec<char>> = text::split_chars(cs.as_slice(), &comma);
    let ghost all = text::split_any(list@, seq![',']);
    let mut sel: TagSelection = TagSelection { original: false, digitized: false, modify: false };
    let mut i: usize = 0;
    while i < words.len()
        invariant
            i <= words.len(),
            all == text::split_any(list@, seq![',']),
            words@.map_values(|p: Vec<char>| p@) == all,
            selection_from(all, 0, no_fields()) == selection_from(all, i as int, sel),
        decreases words.len() - i,
    {
        assert(all[i as int] == words@.map_values(|p: Vec<char>| p@)[i as int]);
        let word: Vec<char> = text::lower_chars(text::trim_chars(words[i].as_slice()));
        match add_field(sel, word.as_slice()) {
            Some(next) => {
                sel = next;
            },
            None => {
                let shown: String = text::text_of(word.as_slice());
                return Err(
                    text::copy_text("未知的时间字段 `").concat(shown.as_str()).concat(
                        "`，可用值：original,digitized,modify,all",
                    ),
                );
            },
        }
        i += 1;
    }
    if !sel.any() {
        return Err(text::copy_text("--tags 未选择任何字段"));
    }
    Ok(sel)
}

/// The selected fields in words.
pub open spec fn fields_text(sel: TagSelection) -> Seq<char> {
    let names = text::when_listed(sel.original, "拍摄(DateTimeOriginal)"@) + text::when_listed(
        sel.digitized,
        "数字化(CreateDate)"@,
    ) + text::when_listed(sel.modify, "修改(ModifyDate)"@);
    text::joined(names, "、"@)
}

/// The selected fields in words.
pub fn describe_tags(sel: TagSelection) -> (s: String)
    ensures
        s@ == fields_text(sel),
{
    let mut v: Vec<String> = Vec::new();
    if sel.original {
        v.push(text::copy_text("拍摄(DateTimeOriginal)"));
    }
    assert(text::views(v@) =~= text::when_listed(sel.original, "拍摄(DateTimeOriginal)"@));
    let ghost a = text::views(v@);
    if sel.digitized {
        v.push(text::copy_text("数字化(CreateDate)"));
    }
    assert(text::views(v@) =~= a + text::when_listed(sel.digitized, "数字化(CreateDate)"@));
    let ghost b = text::views(v@);
    if sel.modify {
        v.push(text::copy_text("修改(ModifyDate)"));
    }
    assert(text::views(v@) =~= b + text::when_listed(sel.modify, "修改(ModifyDate)"@));
    text::join_texts(v.as_slice(), "、")
}

// ---- which time -------------------------------------------------------------------------

/// How the new time is found.
#[derive(Debug, Clone, Copy, PartialEq, Eq, Structural)]
pub enum TimeMode {
    /// This time.
    Fixed(Stamp),
    /// The old time moved.
    Shift(Delta),
    /// A time that moves on from file to file.
    Sequential { start: Stamp, interval: Delta },
    /// The time in the file name.
    FromName,
}

/// The mode that a request asks for, or the message for the user.
pub open spec fn mode_of(a: TimeArgs) -> Result<TimeMode, Seq<char>> {
    if a.set is Some {
        let s = (a.set->0)@;
        match timeop::time_in(s) {
            Some(t) => Ok(TimeMode::Fixed(t)),
            None => Err("解析 --set 时间失败: "@ + timeop::time_message(s)),
        }
    } else if a.shift is Some {
        let s = (a.shift->0)@;
        match timeop::delta_of(s) {
            Ok(d) => if d.months == 0 && d.days == 0 && d.seconds == 0 {
                Err("--shift 偏移量为零，无需修改"@)
            } else {
                Ok(TimeMode::Shift(d))
            },
            Err(e) => Err("解析 --shift 偏移量失败: "@ + timeop::delta_message(e, s)),
        }
    } else if a.sequential is Some {
        let s = (a.sequential->0)@;
        match timeop::time_in(s) {
            Some(start) => match timeop::delta_of(a.interval@) {
                Ok(interval) => Ok(TimeMode::Sequential { start, interval }),
                Err(e) => Err("解析 --interval 间隔失败: "@ + timeop::delta_message(e, a.interval@)),
            },
            None => Err("解析 --sequential 起始时间失败: "@ + timeop::time_message(s)),
        }
    } else if a.from_name {
        Ok(TimeMode::FromName)
    } else {
        Err("必须指定一种操作：--set / --shift / --sequential / --from-name"@)
    }
}

/// Whether the stamps of a mode are in the calendar.
pub open spec fn mode_valid(mode: TimeMode) -> bool {
    match mode {
        TimeMode::Fixed(t) => t.valid(),
        TimeMode::Sequential { start, interval } => start.valid(),
        _ => true,
    }
}

/// Finds the mode that a request asks for. The error is the message for the user.
pub fn build_time_mode(a: &TimeArgs) -> (r: Result<TimeMode, String>)
    ensures
        match r {
            Ok(mode) => mode_of(*a) == Ok::<TimeMode, Seq<char>>(mode) && mode_valid(mode),
            Err(e) => mode_of(*a) == Err::<TimeMode, Seq<char>>(e@),
        },
{
    if let Some(s) = &a.set {
        return match timeop::parse_datetime(s.as_str()) {
            Ok(t) => Ok(TimeMode::Fixed(t)),
            Err(e) => Err(text::copy_text("解析 --set 时间失败: ").concat(e.as_str())),
        };
    }
    if let Some(s) = &a.shift {
        return match timeop::parse_delta(s.as_str()) {
            Ok(d) => if d.is_zero() {
                Err(text::copy_text("--shift 偏移量为零，无需修改"))
            } else {
                Ok(TimeMode::Shift(d))
            },
            Err(e) => Err(
                text::copy_text("解析 --shift 偏移量失败: ").concat(e.message(s.as_str()).as_str()),
            ),
        };
    }
    if let Some(s) = &a.sequential {
        return match timeop::parse_datetime(s.as_str()) {
            Ok(start) => match timeop::parse_delta(a.interval.as_str()) {
                Ok(interval) => Ok(TimeMode::Sequential { start, interval }),
                Err(e) => Err(
                    text::copy_text("解析 --interval 间隔失败: ").concat(
                        e.message(a.interval.as_str()).as_str(),
                    ),
                ),
            },
            Err(e) => Err(text::copy_text("解析 --sequential 起始时间失败: ").concat(e.as_str())),
        };
    }
    if a.from_name {
        return Ok(TimeMode::FromName);
    }
    Err(text::copy_text("必须指定一种操作：--set / --shift / --sequential / --from-name"))
}

/// `t` moved by an offset; `None` where the offset fits no duration or the calendar ends.
pub open spec fn shifted(d: Delta, t: Stamp) -> Option<Stamp> {
    if d.fits() {
        d.moved(t)
    } else {
        None
    }
}

/// Moves a stamp by an offset; `None` where the offset fits no duration or the calendar ends.
pub fn shift(d: &Delta, t: Stamp) -> (r: Option<Stamp>)
    requires
        t.valid(),
    ensures
        r == shifted(*d, t),
        r is Some ==> (r->0).valid(),
        t.plain() ==> (r matches Some(u) ==> timeop::moved_by(*d, t, u)),
        !d.fits() ==> r is None,
        d.fits() && t.plain() && d.months == 0 && stamp::min_seconds() <= t.seconds() + d.days * 86400 + d.seconds
            <= stamp::max_seconds() ==> r is Some,
{
    if d.fits_duration() {
        d.apply(t)
    } else {
        None
    }
}

/// An offset taken `n` times; `None` where that does not fit.
pub open spec fn times(d: Delta, n: int) -> Option<Delta> {
    if i64::MIN <= d.months * n <= i64::MAX && i64::MIN <= d.days * n <= i64::MAX && i64::MIN <= d.seconds * n
        <= i64::MAX {
        Some(Delta { months: (d.months * n) as i64, days: (d.days * n) as i64, seconds: (d.seconds * n) as i64 })
    } else {
        None
    }
}

/// An offset taken `n` times has `n` times its months, its days and its seconds.
pub proof fn repeated_offsets_multiply(d: Delta, n: int)
    ensures
        times(d, n) matches Some(e) ==> e.months == d.months * n && e.days == d.days * n && e.seconds == d.seconds
            * n,
        times(d, 0) == Some(Delta { months: 0, days: 0, seconds: 0 }),
        times(d, 1) == Some(d),
{
}

/// In a series, the file with number 0 has the start, and each file lies as far behind the one
/// before it as the interval is long, by the clock or by the calendar.
pub proof fn series_goes_on(start: Stamp, interval: Delta, n: int, a: Stamp, b: Stamp)
    requires
        start.valid(),
        a.valid(),
        b.valid(),
        times(interval, n) is Some,
        times(interval, n + 1) is Some,
        timeop::moved_by(times(interval, n)->0, start, a),
        timeop::moved_by(times(interval, n + 1)->0, start, b),
    ensures
        interval.months == 0 ==> b.seconds() - a.seconds() == interval.days * 86400 + interval.seconds,
        interval.days == 0 && interval.seconds == 0 ==> (b.year * 12 + b.month) - (a.year * 12 + a.month)
            == interval.months,
        n == 0 ==> a == start,
{
    repeated_offsets_multiply(interval, n);
    repeated_offsets_multiply(interval, n + 1);
    timeop::offsets_move_the_clock(times(interval, n)->0, start, a);
    timeop::offsets_move_the_clock(times(interval, n + 1)->0, start, b);
    let (m, d, s) = (interval.months as int, interval.days as int, interval.seconds as int);
    assert(m * (n + 1) == m * n + m && d * (n + 1) == d * n + d && s * (n + 1) == s * n + s) by (nonlinear_arith);
    if n == 0 {
        stamp::seconds_tell_stamps_apart(a, start);
    }
}

/// The new time of the file with this number, given its old time and the time in its name.
pub open spec fn target_time(mode: TimeMode, index: int, old: Option<Stamp>, named: Option<Stamp>) -> Result<
    Stamp,
    OutcomeView,
> {
    match mode {
        TimeMode::Fixed(t) => Ok(t),
        TimeMode::Sequential { start, interval } => match times(interval, index) {
            Some(d) => match shifted(d, start) {
                Some(t) => Ok(t),
                None => Err(OutcomeView::Failed("时间计算溢出"@)),
            },
            None => Err(OutcomeView::Failed("时间计算溢出"@)),
        },
        TimeMode::Shift(d) => match old {
            Some(t) => match shifted(d, t) {
                Some(t) => Ok(t),
                None => Err(OutcomeView::Failed("时间计算溢出"@)),
            },
            None => Err(OutcomeView::Skipped("无可解析的原始拍摄时间，偏移模式跳过"@)),
        },
        TimeMode::FromName => match named {
            Some(t) => Ok(t),
            None => Err(OutcomeView::Skipped("文件名中未识别到日期"@)),
        },
    }
}

/// Finds the new time of the file with this number, given its old time and the time in its name.
pub fn choose_target(mode: &TimeMode, index: i64, old: Option<Stamp>, named: Option<Stamp>) -> (r: Result<
    Stamp,
    Outcome,
>)
    requires
        mode_valid(*mode),
        old is Some ==> (old->0).valid(),
        named is Some ==> (named->0).valid(),
    ensures
        match r {
            Ok(t) => target_time(*mode, index as int, old, named) == Ok::<Stamp, OutcomeView>(t) && t.valid(),
            Err(o) => target_time(*mode, index as int, old, named) == Err::<Stamp, OutcomeView>(o@),
        },
        match *mode {
            TimeMode::Fixed(t) => r == Ok::<Stamp, Outcome>(t),
            TimeMode::FromName => match named {
                Some(t) => r == Ok::<Stamp, Outcome>(t),
                None => r is Err,
            },
            TimeMode::Shift(d) => match old {
                Some(t) => t.plain() ==> (r matches Ok(u) ==> timeop::moved_by(d, t, u)),
                None => r is Err,
            },
            TimeMode::Sequential { start, interval } => start.plain() && r is Ok ==> times(interval, index as int)
                is Some && timeop::moved_by(times(interval, index as int)->0, start, r->Ok_0),
        },
{
    match *mode {
        TimeMode::Fixed(t) => Ok(t),
        TimeMode::Sequential { start, interval } => {
            let moved: Option<Stamp> = match interval.checked_scaled(index) {
                Some(d) => shift(&d, start),
                None => None,
            };
            match moved {
                Some(t) => Ok(t),
                None => Err(Outcome::Failed(text::copy_text("时间计算溢出"))),
            }
        },
        TimeMode::Shift(d) => match old {
            Some(t) => match shift(&d, t) {
                Some(t) => Ok(t),
                None => Err(Outcome::Failed(text::copy_text("时间计算溢出"))),
            },
            None => Err(Outcome::Skipped(text::copy_text("无可解析的原始拍摄时间，偏移模式跳过"))),
        },
        TimeMode::FromName => match named {
            Some(t) => Ok(t),
            None => Err(Outcome::Skipped(text::copy_text("文件名中未识别到日期"))),
        },
    }
}

/// A new time, and what there is to tell about it.
#[derive(Debug)]
pub struct TimeChange {
    pub target: Stamp,
    pub detail: String,
}

/// The time that a capture time says, if it can be read.
pub open spec fn readable(capture: Option<Seq<char>>) -> Option<Stamp> {
    match capture {
        Some(s) => timeop::time_in(s),
        None => None,
    }
}

/// Reads a capture time.
pub fn read_time(capture: &Option<String>) -> (r: Option<Stamp>)
    ensures
        r == readable(text::opt(*capture)),
        r is Some ==> (r->0).valid(),
{
    match capture {
        Some(s) => match timeop::parse_datetime(s.as_str()) {
            Ok(t) => Some(t),
            Err(_) => None,
        },
        None => None,
    }
}

/// The new time of a file with these directories and this name.
pub open spec fn target_of(mode: TimeMode, index: int, s: Seq<tags::IfdInfo>, stem: Seq<char>) -> Result<
    Stamp,
    OutcomeView,
> {
    target_time(
        mode,
        index,
        readable(exif::capture_time(s)),
        namedate::first_stamp(namedate::digits_of(stem), 0),
    )
}

/// The directories after a new time was written.
pub open spec fn with_new_time(
    s: Seq<tags::IfdInfo>,
    t: Stamp,
    sel: TagSelection,
    tz: Option<Seq<char>>,
) -> Seq<tags::IfdInfo> {
    let timed = exif::with_times(s, stamp::formatted(t, timeop::EXIF_FMT@)->0, sel);
    match tz {
        Some(tz) => exif::with_offsets(timed, tz, sel),
        None => timed,
    }
}

/// What there is to tell about a new time.
pub open spec fn time_detail(old: Option<Seq<char>>, t: Stamp) -> Seq<char> {
    (match old {
        Some(s) => s,
        None => "(无)"@,
    }) + "  ->  "@ + stamp::formatted(t, timeop::EXIF_FMT@)->0
}

/// Writes the new time of a file into its metadata: the file with this number, whose name
/// without extension is `stem`. Where there is no new time, the metadata stays as it is.
pub fn change_time(
    metadata: &mut Metadata,
    index: i64,
    mode: &TimeMode,
    sel: TagSelection,
    tz: Option<&str>,
    stem: &str,
) -> (r: Result<TimeChange, Outcome>)
    requires
        tags::sound(*old(metadata)),
        mode_valid(*mode),
    ensures
        tags::sound(*final(metadata)),
        ({
            let s = tags::ifds_of(*old(metadata));
            match (r, target_of(*mode, index as int, s, stem@)) {
                (Ok(c), Ok(t)) => c.target == t && t.valid() && c.detail@ == time_detail(
                    exif::capture_time(s),
                    t,
                ) && tags::ifds_of(*final(metadata)) == with_new_time(
                    s,
                    t,
                    sel,
                    match tz {
                        Some(tz) => Some(tz@),
                        None => None,
                    },
                ),
                (Err(o), Err(why)) => o@ == why && *final(metadata) == *old(metadata),
                _ => false,
            }
        }),
        *mode matches TimeMode::Fixed(t) ==> r is Ok && (r->Ok_0).target == t,
        *mode is FromName ==> match namedate::first_stamp(namedate::digits_of(stem@), 0) {
            Some(t) => r is Ok && (r->Ok_0).target == t,
            None => r is Err,
        },
        *mode matches TimeMode::Shift(d) ==> match readable(exif::capture_time(tags::ifds_of(*old(metadata)))) {
            Some(t) => t.plain() && r is Ok ==> timeop::moved_by(d, t, (r->Ok_0).target),
            None => r is Err,
        },
        *mode matches TimeMode::Sequential { start, interval } ==> start.plain() && r is Ok ==> times(
            interval,
            index as int,
        ) is Some && timeop::moved_by(times(interval, index as int)->0, start, (r->Ok_0).target),
        tags::carried(*final(metadata)) == tags::carried(*old(metadata)),
{
    let old: Option<String> = exif::read_capture_time(metadata);
    let before: Option<Stamp> = read_time(&old);
    let named: Option<Stamp> = namedate::extract(stem);
    match choose_target(mode, index, before, named) {
        Ok(target) => {
            exif::apply_datetime(metadata, target, sel);
            if let Some(tz) = tz {
                exif::apply_offset_time(metadata, tz, sel);
            }
            let was: String = match old {
                Some(s) => s,
                None => text::copy_text("(无)"),
            };
            let detail: String = was.concat("  ->  ").concat(timeop::format_exif(&target).as_str());
            Ok(TimeChange { target, detail })
        },
        Err(o) => Err(o),
    }
}

// ---- in words ---------------------------------------------------------------------------

/// The size of a number without its sign.
pub open spec fn size(n: int) -> nat {
    if n < 0 {
        (-n) as nat
    } else {
        n as nat
    }
}

fn size_of(n: i64) -> (r: u64)
    ensures
        r == size(n as int),
{
    if n < 0 {
        (-(n + 1)) as u64 + 1
    } else {
        n as u64
    }
}

/// A number with its unit, where it is not zero.
pub open spec fn amount(n: nat, unit: Seq<char>) -> Seq<char> {
    text::when(n != 0, text::dec(n) + unit)
}

fn push_amount(s: &mut String, n: u64, unit: &str)
    ensures
        final(s)@ == old(s)@ + amount(n as nat, unit@),
{
    let ghost before = s@;
    if n != 0 {
        text::push_dec(s, n);
        s.append(unit);
    }
    assert(s@ =~= before + amount(n as nat, unit@));
}

/// An offset in words.
pub open spec fn delta_text(d: Delta) -> Seq<char> {
    let m = size(d.months as int);
    let secs = size(d.seconds as int);
    if d.months == 0 && d.days == 0 && d.seconds == 0 {
        "0"@
    } else {
        (if d.months < 0 || d.days < 0 || d.seconds < 0 {
            "-"@
        } else {
            "+"@
        }) + amount(m / 12, "年"@) + amount(m % 12, "个月"@) + amount(size(d.days as int), "天"@) + amount(
            secs / 3600,
            "小时"@,
        ) + amount(secs % 3600 / 60, "分"@) + amount(secs % 60, "秒"@)
    }
}

/// An offset in words.
pub fn describe_delta(d: &Delta) -> (s: String)
    ensures
        s@ == delta_text(*d),
{
    if d.is_zero() {
        return text::copy_text("0");
    }
    let negative: bool = d.months < 0 || d.days < 0 || d.seconds < 0;
    let m: u64 = size_of(d.months);
    let secs: u64 = size_of(d.seconds);
    let mut s: String = if negative {
        text::copy_text("-")
    } else {
        text::copy_text("+")
    };
    push_amount(&mut s, m / 12, "年");
    push_amount(&mut s, m % 12, "个月");
    push_amount(&mut s, size_of(d.days), "天");
    push_amount(&mut s, secs / 3600, "小时");
    push_amount(&mut s, secs % 3600 / 60, "分");
    push_amount(&mut s, secs % 60, "秒");
    s
}

/// A mode in words.
pub open spec fn mode_text(mode: TimeMode) -> Seq<char> {
    match mode {
        TimeMode::Fixed(t) => "设为固定时间 "@ + stamp::formatted(t, timeop::EXIF_FMT@)->0,
        TimeMode::Shift(d) => "在原时间上偏移 "@ + delta_text(d),
        TimeMode::Sequential { start, interval } => "从 "@ + stamp::formatted(start, timeop::EXIF_FMT@)->0
            + " 起，每张递增 "@ + delta_text(interval),
        TimeMode::FromName => "从文件名提取日期"@,
    }
}

/// A mode in words.
pub fn describe_time_mode(mode: &TimeMode) -> (s: String)
    requires
        mode_valid(*mode),
    ensures
        s@ == mode_text(*mode),
{
    match *mode {
        TimeMode::Fixed(t) => text::copy_text("设为固定时间 ").concat(timeop::format_exif(&t).as_str()),
        TimeMode::Shift(d) => text::copy_text("在原时间上偏移 ").concat(describe_delta(&d).as_str()),
        TimeMode::Sequential { start, interval } => text::copy_text("从 ").concat(
            timeop::format_exif(&start).as_str(),
        ).concat(" 起，每张递增 ").concat(describe_delta(&interval).as_str()),
        TimeMode::FromName => text::copy_text("从文件名提取日期"),
    }
}

/// What is announced before times are changed.
pub open spec fn time_banner(
    mode: TimeMode,
    sel: TagSelection,
    files: nat,
    tz: Option<Seq<char>>,
    also_file_time: bool,
    dry_run: bool,
) -> Seq<char> {
    "PIC-Killer · 修改拍摄时间\n  操作："@ + mode_text(mode) + "\n  字段："@ + fields_text(sel)
        + "\n  文件："@ + text::dec(files) + " 个\n"@ + (match tz {
        Some(tz) => "  时区：写入 OffsetTime "@ + tz + "\n"@,
        None => Seq::empty(),
    }) + text::when(also_file_time, "  附加：同步设置文件系统修改时间\n"@) + text::when(
        dry_run,
        "  模式：预览（不写入）\n"@,
    )
}

/// What is announced before times are changed.
pub fn time_header(
    mode: &TimeMode,
    sel: TagSelection,
    files: usize,
    tz: Option<&str>,
    also_file_time: bool,
    dry_run: bool,
) -> (s: String)
    requires
        mode_valid(*mode),
    ensures
        s@ == time_banner(
            *mode,
            sel,
            files as nat,
            match tz {
                Some(tz) => Some(tz@),
                None => None,
            },
            also_file_time,
            dry_run,
        ),
{
    let mut s: String = text::copy_text("PIC-Killer · 修改拍摄时间\n  操作：").concat(
        describe_time_mode(mode).as_str(),
    ).concat("\n  字段：").concat(describe_tags(sel).as_str()).concat("\n  文件：");
    text::push_dec(&mut s, files as u64);
    s.append(" 个\n");
    let ghost a = s@;
    if let Some(tz) = tz {
        s.append(text::copy_text("  时区：写入 OffsetTime ").concat(tz).concat("\n").as_str());
    }
    assert(s@ =~= a + (match tz {
        Some(tz) => "  时区：写入 OffsetTime "@ + tz@ + "\n"@,
        None => Seq::empty(),
    }));
    text::push_when(&mut s, also_file_time, "  附加：同步设置文件系统修改时间\n");
    text::push_when(&mut s, dry_run, "  模式：预览（不写入）\n");
    s
}

} // verus!
