//! What changing the capture time comes to.

use vstd::prelude::*;
use vstd::string::*;
use crate::cli::TimeArgs;
use crate::exif;
use crate::exif::TagSelection;
use crate::stamp;
use crate::stamp::Stamp;
use crate::tags;
use crate::tags::IfdInfo;
use crate::text;
use crate::timecmd;
use crate::timecmd::TimeMode;
use crate::timeop;
use crate::timeop::Delta;

verus! {

/// Every time field that is selected holds the time that was written: the time of the picture, of
/// its digitising and of its last change.
pub proof fn selected_times_are_written(s: Seq<IfdInfo>, value: Seq<char>, sel: TagSelection)
    requires
        tags::ifds_ok(s),
        exif::storable(value),
    ensures
        tags::ifds_ok(exif::with_times(s, value, sel)),
        sel.original ==> exif::field_text(exif::with_times(s, value, sel), 1, 0x9003) == Some(value),
        sel.digitized ==> exif::field_text(exif::with_times(s, value, sel), 1, 0x9004) == Some(value),
        sel.modify ==> exif::field_text(exif::with_times(s, value, sel), 0, 0x0132) == Some(value),
{
    let o = exif::text_info(1, 0x9003, value);
    let d = exif::text_info(1, 0x9004, value);
    let m = exif::text_info(0, 0x0132, value);
    exif::text_tag_reads_back(1, 0x9003, value);
    let a = if sel.original {
        tags::with_tag(s, o)
    } else {
        s
    };
    let b = if sel.digitized {
        tags::with_tag(a, d)
    } else {
        a
    };
    if sel.original {
        tags::set_tag_is_found(s, o);
    }
    if sel.digitized {
        tags::set_tag_is_found(a, d);
        tags::set_tag_keeps_others(a, d, 1, 0x9003);
    }
    if sel.modify {
        tags::set_tag_is_found(b, m);
        tags::set_tag_keeps_others(b, m, 1, 0x9003);
        tags::set_tag_keeps_others(b, m, 1, 0x9004);
    }
}

/// Beside every time field that is selected stands the offset from UTC that was written, and no
/// other tag changes.
pub proof fn selected_offsets_are_written(
    s: Seq<IfdInfo>,
    value: Seq<char>,
    sel: TagSelection,
    group: u8,
    hex: u16,
)
    requires
        tags::ifds_ok(s),
        exif::storable(value),
    ensures
        tags::ifds_ok(exif::with_offsets(s, value, sel)),
        sel.original ==> exif::field_text(exif::with_offsets(s, value, sel), 1, 0x9011) == Some(value),
        sel.digitized ==> exif::field_text(exif::with_offsets(s, value, sel), 1, 0x9012) == Some(value),
        sel.modify ==> exif::field_text(exif::with_offsets(s, value, sel), 1, 0x9010) == Some(value),
        !(group == 1 && ((sel.original && hex == 0x9011) || (sel.digitized && hex == 0x9012) || (sel.modify && hex
            == 0x9010))) ==> tags::first_tag(exif::with_offsets(s, value, sel), group, hex) == tags::first_tag(
            s,
            group,
            hex,
        ),
{
    let o = exif::text_info(1, 0x9011, value);
    let d = exif::text_info(1, 0x9012, value);
    let m = exif::text_info(1, 0x9010, value);
    exif::text_tag_reads_back(1, 0x9011, value);
    let a = if sel.original {
        tags::with_tag(s, o)
    } else {
        s
    };
    let b = if sel.digitized {
        tags::with_tag(a, d)
    } else {
        a
    };
    let other = !(group == 1 && ((sel.original && hex == 0x9011) || (sel.digitized && hex == 0x9012) || (sel.modify
        && hex == 0x9010)));
    if sel.original {
        tags::set_tag_is_found(s, o);
        if other {
            tags::set_tag_keeps_others(s, o, group, hex);
        }
    }
    if sel.digitized {
        tags::set_tag_is_found(a, d);
        tags::set_tag_keeps_others(a, d, 1, 0x9011);
        if other {
            tags::set_tag_keeps_others(a, d, group, hex);
        }
    }
    if sel.modify {
        tags::set_tag_is_found(b, m);
        tags::set_tag_keeps_others(b, m, 1, 0x9011);
        tags::set_tag_keeps_others(b, m, 1, 0x9012);
        if other {
            tags::set_tag_keeps_others(b, m, group, hex);
        }
    }
}

/// A new time is in the selected fields, with its offset from UTC beside it where one is given, and
/// nothing else has changed.
pub proof fn new_time_is_written(
    s: Seq<IfdInfo>,
    t: Stamp,
    sel: TagSelection,
    tz: Option<Seq<char>>,
    group: u8,
    hex: u16,
)
    requires
        tags::ifds_ok(s),
        stamp::formatted(t, timeop::EXIF_FMT@) is Some,
        exif::storable(stamp::formatted(t, timeop::EXIF_FMT@)->0),
        tz matches Some(z) ==> exif::storable(z),
    ensures
        ({
            let c = timecmd::with_new_time(s, t, sel, tz);
            let value = stamp::formatted(t, timeop::EXIF_FMT@);
            &&& sel.original ==> exif::field_text(c, 1, 0x9003) == value && exif::capture_time(c) == value
            &&& sel.digitized ==> exif::field_text(c, 1, 0x9004) == value
            &&& sel.modify ==> exif::field_text(c, 0, 0x0132) == value
            &&& tz is Some && sel.original ==> exif::field_text(c, 1, 0x9011) == tz
            &&& tz is Some && sel.digitized ==> exif::field_text(c, 1, 0x9012) == tz
            &&& tz is Some && sel.modify ==> exif::field_text(c, 1, 0x9010) == tz
            &&& !(group == 1 && 0x9003 <= hex <= 0x9012) && !(group == 0 && hex == 0x0132) ==> tags::first_tag(
                c,
                group,
                hex,
            ) == tags::first_tag(s, group, hex)
            &&& tz is None && group == 1 && 0x9010 <= hex <= 0x9012 ==> tags::first_tag(c, group, hex)
                == tags::first_tag(s, group, hex)
        }),
{
    let value = stamp::formatted(t, timeop::EXIF_FMT@)->0;
    let a = exif::with_times(s, value, sel);
    selected_times_are_written(s, value, sel);
    if !(group == 1 && 0x9003 <= hex <= 0x9004) && !(group == 0 && hex == 0x0132) {
        exif::time_write_keeps_others(s, value, sel, group, hex);
    }
    if let Some(z) = tz {
        selected_offsets_are_written(a, z, sel, 1, 0x9003);
        selected_offsets_are_written(a, z, sel, 1, 0x9004);
        selected_offsets_are_written(a, z, sel, 0, 0x0132);
        selected_offsets_are_written(a, z, sel, group, hex);
    }
}

// ---- requests ---------------------------------------------------------------------------

/// A request for a fixed time, an offset, a series or the time in the name is read as such.
pub proof fn requests_are_read(a: TimeArgs)
    ensures
        a.set matches Some(s) ==> match timeop::time_in(s@) {
            Some(t) => timecmd::mode_of(a) == Ok::<TimeMode, Seq<char>>(TimeMode::Fixed(t)),
            None => timecmd::mode_of(a) is Err,
        },
        a.set is None ==> (a.shift matches Some(s) ==> match timeop::delta_of(s@) {
            Ok(d) => (d.months != 0 || d.days != 0 || d.seconds != 0) ==> timecmd::mode_of(a) == Ok::<
                TimeMode,
                Seq<char>,
            >(TimeMode::Shift(d)),
            Err(_) => timecmd::mode_of(a) is Err,
        }),
        a.set is None && a.shift is None ==> (a.sequential matches Some(s) ==> match (
            timeop::time_in(s@),
            timeop::delta_of(a.interval@),
        ) {
            (Some(start), Ok(interval)) => timecmd::mode_of(a) == Ok::<TimeMode, Seq<char>>(
                TimeMode::Sequential { start, interval },
            ),
            _ => timecmd::mode_of(a) is Err,
        }),
        a.set is None && a.shift is None && a.sequential is None ==> (timecmd::mode_of(a) == Ok::<
            TimeMode,
            Seq<char>,
        >(TimeMode::FromName)) == a.from_name,
{
}

/// Whether a word selects the time of the picture.
pub open spec fn says_original(w: Seq<char>) -> bool {
    w == "original"@ || w == "datetimeoriginal"@ || w == "o"@ || w == "all"@
}

/// Whether a word selects the time of digitising.
pub open spec fn says_digitized(w: Seq<char>) -> bool {
    w == "digitized"@ || w == "createdate"@ || w == "datetimedigitized"@ || w == "d"@ || w == "all"@
}

/// Whether a word selects the time of the last change.
pub open spec fn says_modify(w: Seq<char>) -> bool {
    w == "modify"@ || w == "modifydate"@ || w == "datetime"@ || w == "m"@ || w == "all"@
}

/// The word at a place of a list.
pub open spec fn word_at(words: Seq<Seq<char>>, i: int) -> Seq<char> {
    text::lowered(text::trimmed(words[i]))
}

proof fn lemma_word(w: Seq<char>, sel: TagSelection)
    ensures
        match timecmd::selected(sel, w) {
            Some(r) => r.original == (sel.original || says_original(w)) && r.digitized == (sel.digitized
                || says_digitized(w)) && r.modify == (sel.modify || says_modify(w)),
            None => w.len() > 0 && !says_original(w) && !says_digitized(w) && !says_modify(w),
        },
{
    reveal_strlit("original");
    reveal_strlit("datetimeoriginal");
    reveal_strlit("o");
    reveal_strlit("all");
    reveal_strlit("digitized");
    reveal_strlit("createdate");
    reveal_strlit("datetimedigitized");
    reveal_strlit("d");
    reveal_strlit("modify");
    reveal_strlit("modifydate");
    reveal_strlit("datetime");
    reveal_strlit("m");
    if w.len() > 0 {
        assert("original"@[0] == 'o' && "o"@[0] == 'o' && "all"@[0] == 'a' && "datetimeoriginal"@[8] == 'o');
        assert("digitized"@[1] == 'i' && "createdate"@[0] == 'c' && "datetimedigitized"@[8] == 'd');
        assert("modify"@[0] == 'm' && "m"@[0] == 'm' && "modifydate"@[0] == 'm' && "d"@[0] == 'd');
    }
}

/// A list of fields selects exactly those that its words name.
pub proof fn lists_select_what_they_name(words: Seq<Seq<char>>, i: int, sel: TagSelection)
    requires
        0 <= i <= words.len(),
    ensures
        timecmd::selection_from(words, i, sel) matches Ok(r) ==> r.original == (sel.original || exists|k: int|
            i <= k < words.len() && says_original(#[trigger] word_at(words, k))),
        timecmd::selection_from(words, i, sel) matches Ok(r) ==> r.digitized == (sel.digitized || exists|k: int|
            i <= k < words.len() && says_digitized(#[trigger] word_at(words, k))),
        timecmd::selection_from(words, i, sel) matches Ok(r) ==> r.modify == (sel.modify || exists|k: int|
            i <= k < words.len() && says_modify(#[trigger] word_at(words, k))),
        timecmd::selection_from(words, i, sel) matches Ok(r) ==> r.original || r.digitized || r.modify,
    decreases words.len() - i,
{
    if i < words.len() {
        let w = word_at(words, i);
        lemma_word(w, sel);
        if let Some(next) = timecmd::selected(sel, w) {
            lists_select_what_they_name(words, i + 1, next);
            if timecmd::selection_from(words, i, sel) is Ok {
                let r = timecmd::selection_from(words, i, sel)->Ok_0;
                if exists|k: int| i <= k < words.len() && says_original(#[trigger] word_at(words, k)) {
                    let k = choose|k: int| i <= k < words.len() && says_original(#[trigger] word_at(words, k));
                    assert(k == i || says_original(word_at(words, k)));
                }
                if exists|k: int| i <= k < words.len() && says_digitized(#[trigger] word_at(words, k)) {
                    let k = choose|k: int| i <= k < words.len() && says_digitized(#[trigger] word_at(words, k));
                    assert(k == i || says_digitized(word_at(words, k)));
                }
                if exists|k: int| i <= k < words.len() && says_modify(#[trigger] word_at(words, k)) {
                    let k = choose|k: int| i <= k < words.len() && says_modify(#[trigger] word_at(words, k));
                    assert(k == i || says_modify(word_at(words, k)));
                }
            }
        }
    }
}

// ---- in words ---------------------------------------------------------------------------

proof fn lemma_parts(years: int, months: int, hours: int, minutes: int, seconds: int)
    requires
        0 <= years,
        0 <= months < 12,
        0 <= hours,
        0 <= minutes < 60,
        0 <= seconds < 60,
    ensures
        (years * 12 + months) / 12 == years,
        (years * 12 + months) % 12 == months,
        (hours * 3600 + minutes * 60 + seconds) / 3600 == hours,
        (hours * 3600 + minutes * 60 + seconds) % 3600 / 60 == minutes,
        (hours * 3600 + minutes * 60 + seconds) % 60 == seconds,
{
}

/// An offset of years, months, days, hours, minutes and seconds is told as these, those that are
/// zero left out, with its sign in front.
pub proof fn offsets_are_told(
    d: Delta,
    back: bool,
    years: int,
    months: int,
    days: int,
    hours: int,
    minutes: int,
    seconds: int,
)
    requires
        0 <= years,
        0 <= months < 12,
        0 <= days,
        0 <= hours,
        0 <= minutes < 60,
        0 <= seconds < 60,
        !back ==> d.months == years * 12 + months && d.days == days && d.seconds == hours * 3600 + minutes * 60
            + seconds,
        back ==> -d.months == years * 12 + months && -d.days == days && -d.seconds == hours * 3600 + minutes * 60
            + seconds,
        d.months != 0 || d.days != 0 || d.seconds != 0,
    ensures
        timecmd::delta_text(d) == (if back {
            "-"@
        } else {
            "+"@
        }) + told(years, "年"@) + told(months, "个月"@) + told(days, "天"@) + told(hours, "小时"@) + told(
            minutes,
            "分"@,
        ) + told(seconds, "秒"@),
{
    lemma_parts(years, months, hours, minutes, seconds);
    let m = timecmd::size(d.months as int);
    let t = timecmd::size(d.seconds as int);
    assert(m == years * 12 + months);
    assert(t == hours * 3600 + minutes * 60 + seconds);
    assert(m / 12 == years && m % 12 == months);
    assert(t / 3600 == hours && t % 3600 / 60 == minutes && t % 60 == seconds);
    lemma_told(m / 12, "年"@);
    lemma_told(m % 12, "个月"@);
    lemma_told(timecmd::size(d.days as int), "天"@);
    lemma_told(t / 3600, "小时"@);
    lemma_told(t % 3600 / 60, "分"@);
    lemma_told(t % 60, "秒"@);
}

proof fn lemma_told(n: nat, unit: Seq<char>)
    ensures
        timecmd::amount(n, unit) == told(n as int, unit),
{
}

/// A number with its unit, or nothing where it is zero.
pub open spec fn told(n: int, unit: Seq<char>) -> Seq<char> {
    if n == 0 {
        Seq::empty()
    } else {
        text::dec(n as nat) + unit
    }
}

/// What is told about a changed time names the old one first, then the new one.
pub proof fn change_names_both(old: Option<Seq<char>>, t: Stamp)
    ensures
        old matches Some(s) ==> timecmd::time_detail(old, t) == s + "  ->  "@ + stamp::formatted(t, timeop::EXIF_FMT@)->0,
        old is None ==> timecmd::time_detail(old, t) == "(无)"@ + "  ->  "@ + stamp::formatted(
            t,
            timeop::EXIF_FMT@,
        )->0,
{
}

/// The selected fields are named, each if and only if it is selected.
pub proof fn selected_fields_are_named(sel: TagSelection)
    ensures
        sel.original && !sel.digitized && !sel.modify ==> timecmd::fields_text(sel) == "拍摄(DateTimeOriginal)"@,
        !sel.original && sel.digitized && !sel.modify ==> timecmd::fields_text(sel) == "数字化(CreateDate)"@,
        !sel.original && !sel.digitized && sel.modify ==> timecmd::fields_text(sel) == "修改(ModifyDate)"@,
        sel.original && sel.digitized && !sel.modify ==> timecmd::fields_text(sel) == "拍摄(DateTimeOriginal)"@
            + "、"@ + "数字化(CreateDate)"@,
        sel.original && !sel.digitized && sel.modify ==> timecmd::fields_text(sel) == "拍摄(DateTimeOriginal)"@
            + "、"@ + "修改(ModifyDate)"@,
        !sel.original && sel.digitized && sel.modify ==> timecmd::fields_text(sel) == "数字化(CreateDate)"@
            + "、"@ + "修改(ModifyDate)"@,
        sel.original && sel.digitized && sel.modify ==> timecmd::fields_text(sel) == "拍摄(DateTimeOriginal)"@
            + "、"@ + "数字化(CreateDate)"@ + "、"@ + "修改(ModifyDate)"@,
{
    let (o, d, m) = ("拍摄(DateTimeOriginal)"@, "数字化(CreateDate)"@, "修改(ModifyDate)"@);
    let names = text::when_listed(sel.original, o) + text::when_listed(sel.digitized, d) + text::when_listed(
        sel.modify,
        m,
    );
    reveal_with_fuel(text::joined, 4);
    if sel.original && sel.digitized && sel.modify {
        assert(names =~= seq![o, d, m]);
        assert(names.drop_last() =~= seq![o, d]);
        assert(names.drop_last().drop_last() =~= seq![o]);
    } else if sel.original && sel.digitized {
        assert(names =~= seq![o, d]);
        assert(names.drop_last() =~= seq![o]);
    } else if sel.original && sel.modify {
        assert(names =~= seq![o, m]);
        assert(names.drop_last() =~= seq![o]);
    } else if sel.digitized && sel.modify {
        assert(names =~= seq![d, m]);
        assert(names.drop_last() =~= seq![d]);
    } else if sel.original {
        assert(names =~= seq![o]);
    } else if sel.digitized {
        assert(names =~= seq![d]);
    } else if sel.modify {
        assert(names =~= seq![m]);
    }
}

} // verus!
