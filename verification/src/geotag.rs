//! Finding where pictures were taken by when they were taken.

use chrono::{FixedOffset, NaiveDate, TimeZone};
use little_exif::metadata::Metadata;
use vstd::prelude::*;
use vstd::string::*;
use crate::exif;
use crate::gpx;
use crate::gpx::{Fix, Moment, TrackPoint};
use crate::outcome::{Outcome, OutcomeView};
use crate::stamp;
use crate::stamp::Stamp;
use crate::tags;
use crate::text;
use crate::timecmd;
use crate::timeop;
use crate::timeop::Delta;

verus! {

// ---- time zones -------------------------------------------------------------------------

/// The message for what is no time zone.
pub open spec fn zone_message(s: Seq<char>) -> Seq<char> {
    "无效时区 `"@ + s + "`"@
}

/// The hours and minutes of an offset without its sign: `H:M`, `HHMM`, or hours alone.
pub open spec fn zone_parts(rest: Seq<char>) -> (Seq<char>, Seq<char>) {
    match text::cut_at(rest, ':') {
        Some(parts) => parts,
        None => if rest.len() == 4 {
            (rest.subrange(0, 2), rest.subrange(2, 4))
        } else {
            (rest, "0"@)
        },
    }
}

/// An offset from UTC in seconds, given its sign and its hours and minutes.
pub open spec fn zone_from(s: Seq<char>, sign: int, parts: (Seq<char>, Seq<char>)) -> Result<int, Seq<char>> {
    match (
        text::signed_within(parts.0, -0x8000_0000, 0x7fff_ffff),
        text::signed_within(parts.1, -0x8000_0000, 0x7fff_ffff),
    ) {
        (Some(h), Some(m)) => {
            let secs = sign * (h * 3600 + m * 60);
            if -86400 < secs < 86400 {
                Ok(secs)
            } else {
                Err("时区偏移超出范围"@)
            }
        },
        _ => Err(zone_message(s)),
    }
}

/// The offset from UTC in seconds that a text says, or the message for the user.
pub open spec fn zone_of(input: Seq<char>) -> Result<int, Seq<char>> {
    let s = text::trimmed(input);
    if text::lowered(s) == "z"@ || text::lowered(s) == "utc"@ {
        Ok(0)
    } else if s.len() > 0 && s[0] == '-' {
        zone_from(s, -1, zone_parts(s.drop_first()))
    } else if s.len() > 0 && s[0] == '+' {
        zone_from(s, 1, zone_parts(s.drop_first()))
    } else {
        zone_from(s, 1, zone_parts(s))
    }
}

fn split_zone(rest: &[char]) -> (r: (Vec<char>, Vec<char>))
    ensures
        (r.0@, r.1@) == zone_parts(rest@),
{
    let whole: String = text::text_of(rest);
    match text::split_once(whole.as_str(), ':') {
        Some((h, m)) => (text::chars_of(h.as_str()), text::chars_of(m.as_str())),
        None => if rest.len() == 4 {
            let h: String = text::text_of(&rest[0..2]);
            let m: String = text::text_of(&rest[2..4]);
            (text::chars_of(h.as_str()), text::chars_of(m.as_str()))
        } else {
            (text::chars_of(whole.as_str()), text::chars_of("0"))
        },
    }
}

/// Reads an offset from UTC, such as `+08:00`, `-0530`, `+8` or `Z`, in seconds. The error is the
/// message for the user.
pub fn parse_tz(input: &str) -> (r: Result<i32, String>)
    ensures
        match r {
            Ok(secs) => zone_of(input@) == Ok::<int, Seq<char>>(secs as int) && -86400 < secs < 86400 && secs
                % 60 == 0,
            Err(e) => zone_of(input@) == Err::<int, Seq<char>>(e@),
        },
{
    let cs: Vec<char> = text::chars_of(input);
    let s: &[char] = text::trim_chars(cs.as_slice());
    let low: Vec<char> = text::lower_chars(s);
    if text::is_text(low.as_slice(), "z") || text::is_text(low.as_slice(), "utc") {
        return Ok(0);
    }
    let signed: bool = s.len() > 0 && (s[0] == '-' || s[0] == '+');
    let back: bool = s.len() > 0 && s[0] == '-';
    let rest: &[char] = if signed {
        &s[1..s.len()]
    } else {
        s
    };
    proof {
        if signed {
            assert(rest@ =~= s@.drop_first());
        }
    }
    let (h, m): (Vec<char>, Vec<char>) = split_zone(rest);
    let ghost parts = zone_parts(rest@);
    match (text::parse_signed(h.as_slice(), 0x7fff_ffff), text::parse_signed(m.as_slice(), 0x7fff_ffff)) {
        (Some(h), Some(m)) => {
            let size: i64 = h * 3600 + m * 60;
            let secs: i64 = if back {
                -size
            } else {
                size
            };
            assert(secs % 60 == 0) by {
                assert(size == (h * 60 + m) * 60);
            }
            if -86400 < secs && secs < 86400 {
                Ok(secs as i32)
            } else {
                Err(text::copy_text("时区偏移超出范围"))
            }
        },
        _ => {
            let shown: String = text::text_of(s);
            Err(text::copy_text("无效时区 `").concat(shown.as_str()).concat("`"))
        },
    }
}

/// An offset of whole minutes from UTC: `+HH:MM` or `-HH:MM`.
pub open spec fn zone_text(secs: int) -> Seq<char> {
    let minutes = if secs < 0 {
        -secs / 60
    } else {
        secs / 60
    };
    (if secs < 0 {
        "-"@
    } else {
        "+"@
    }) + stamp::two(minutes / 60) + ":"@ + stamp::two(minutes % 60)
}

/// Writes an offset of whole minutes from UTC as `+HH:MM` or `-HH:MM`.
pub fn format_tz(secs: i32) -> (s: String)
    requires
        -86400 < secs < 86400,
        secs % 60 == 0,
    ensures
        s@ == zone_text(secs as int),
{
    let minutes: u32 = if secs < 0 {
        (-secs) as u32 / 60
    } else {
        secs as u32 / 60
    };
    let mut s: String = if secs < 0 {
        text::copy_text("-")
    } else {
        text::copy_text("+")
    };
    text::push_padded(&mut s, (minutes / 60) as u64, 2);
    s.append(":");
    text::push_padded(&mut s, (minutes % 60) as u64, 2);
    s
}

/// `FixedOffset::from_local_datetime`, in UTC: a local time less its offset, or `None` where the
/// calendar ends.
#[verifier::external_body]
fn utc_moment(t: Stamp, offset: i32) -> (r: Option<Moment>)
    requires
        t.valid(),
        -86400 < offset < 86400,
        offset % 60 == 0,
    ensures
        match r {
            Some(m) => m.secs + gpx::UNIX_START == t.seconds() - offset && m.nanos == t.nanos
                && gpx::in_calendar(m),
            None => t.seconds() - offset < stamp::min_seconds() || t.seconds() - offset > stamp::max_seconds(),
        },
{
    let date = NaiveDate::from_ymd_opt(t.year, t.month, t.day)?;
    let local = date.and_hms_nano_opt(t.hour, t.minute, t.second, t.nanos)?;
    let utc = FixedOffset::east_opt(offset)?.from_local_datetime(&local).single()?.to_utc();
    Some(Moment { secs: utc.timestamp(), nanos: utc.timestamp_subsec_nanos() })
}

/// The moment of a local time with this offset from UTC.
pub open spec fn moment_of(t: Stamp, offset: int) -> Option<Moment> {
    let m = Moment { secs: (t.seconds() - offset - gpx::UNIX_START) as i64, nanos: t.nanos };
    if stamp::min_seconds() <= t.seconds() - offset <= stamp::max_seconds() {
        Some(m)
    } else {
        None
    }
}

/// Finds the moment of a local time with an offset of whole minutes from UTC; `None` where the
/// calendar ends.
pub fn photo_to_utc(t: Stamp, offset: i32) -> (r: Option<Moment>)
    requires
        t.valid(),
        -86400 < offset < 86400,
        offset % 60 == 0,
    ensures
        r == moment_of(t, offset as int),
        r is Some ==> gpx::in_calendar(r->0),
        match r {
            Some(m) => m.secs + gpx::UNIX_START + offset == t.seconds() && m.nanos == t.nanos,
            None => !(stamp::min_seconds() <= t.seconds() - offset <= stamp::max_seconds()),
        },
{
    utc_moment(t, offset)
}

/// One hour east of another place, the clock shows an hour more at the same moment.
pub proof fn zones_differ_by_their_offsets(t: Stamp, u: Stamp, east: int)
    requires
        t.valid(),
        u.valid(),
        u.seconds() == t.seconds() + east,
        u.nanos == t.nanos,
    ensures
        moment_of(u, east) == moment_of(t, 0),
{
}

// ---- one picture ------------------------------------------------------------------------

/// The corrected capture time, or what becomes of the file.
pub open spec fn corrected(capture: Option<Stamp>, offset: Option<Delta>) -> Result<Stamp, OutcomeView> {
    match capture {
        None => Err(OutcomeView::Skipped("无拍摄时间，无法地理标记"@)),
        Some(t) => match offset {
            None => Ok(t),
            Some(d) => match timecmd::shifted(d, t) {
                Some(t) => Ok(t),
                None => Err(OutcomeView::Failed("时间偏移溢出"@)),
            },
        },
    }
}

/// Corrects a capture time by an offset of the camera's clock.
pub fn correct_time(capture: Option<Stamp>, offset: Option<Delta>) -> (r: Result<Stamp, Outcome>)
    requires
        capture is Some ==> (capture->0).valid(),
    ensures
        match r {
            Ok(t) => corrected(capture, offset) == Ok::<Stamp, OutcomeView>(t) && t.valid(),
            Err(o) => corrected(capture, offset) == Err::<Stamp, OutcomeView>(o@),
        },
        match (capture, offset) {
            (None, _) => r is Err,
            (Some(t), None) => r == Ok::<Stamp, Outcome>(t),
            (Some(t), Some(d)) => t.plain() ==> (r matches Ok(u) ==> timeop::moved_by(d, t, u)),
        },
{
    match capture {
        None => Err(Outcome::Skipped(text::copy_text("无拍摄时间，无法地理标记"))),
        Some(t) => match offset {
            None => Ok(t),
            Some(d) => match timecmd::shift(&d, t) {
                Some(t) => Ok(t),
                None => Err(Outcome::Failed(text::copy_text("时间偏移溢出"))),
            },
        },
    }
}

/// Finds the corrected capture time of a picture.
pub fn picture_time(metadata: &Metadata, offset: Option<Delta>) -> (r: Result<Stamp, Outcome>)
    ensures
        ({
            let capture = timecmd::readable(exif::capture_time(tags::ifds_of(*metadata)));
            match r {
                Ok(t) => corrected(capture, offset) == Ok::<Stamp, OutcomeView>(t) && t.valid(),
                Err(o) => corrected(capture, offset) == Err::<Stamp, OutcomeView>(o@),
            }
        }),
        match (timecmd::readable(exif::capture_time(tags::ifds_of(*metadata))), offset) {
            (None, _) => r is Err,
            (Some(t), None) => r == Ok::<Stamp, Outcome>(t),
            (Some(t), Some(d)) => t.plain() ==> (r matches Ok(u) ==> timeop::moved_by(d, t, u)),
        },
{
    let capture: Option<String> = exif::read_capture_time(metadata);
    correct_time(timecmd::read_time(&capture), offset)
}

/// Finds where on a track a picture was taken at a moment, or tells why it cannot be found.
pub fn place_on_track(points: &Vec<TrackPoint>, moment: Option<Moment>, max_gap: i64) -> (r: Result<Fix, Outcome>)
    requires
        gpx::in_time_order(gpx::points_view(points@)),
        moment is Some ==> gpx::in_calendar(moment->0),
        forall|i: int| 0 <= i < points@.len() ==> gpx::in_calendar((#[trigger] points@[i]).time),
    ensures
        match moment {
            None => r is Err && (r->Err_0)@ == OutcomeView::Skipped(
                "拍摄时间无法解释为有效时刻（夏令时空档？）"@,
            ),
            Some(t) => {
                &&& (exists|i: int| 0 <= i < points@.len() && (#[trigger] points@[i]).time == t) ==> match r {
                    Ok(Fix::At(k)) => k < points@.len() && points@[k as int].time == t,
                    _ => false,
                }
                &&& forall|i: int|
                    #[trigger] gpx::splits(points@, t, i) ==> match (
                        r,
                        gpx::fix_before(points@, t, max_gap as int, i),
                    ) {
                        (Ok(fix), Some(f)) => fix == f,
                        (Err(o), None) => o@ == OutcomeView::Skipped("轨迹中无匹配时段（超出 --max-gap）"@),
                        _ => false,
                    }
                &&& match r {
                    Ok(Fix::At(k)) => k < points@.len(),
                    Ok(Fix::Between { prev, next, part, whole }) => next == prev + 1 && next < points@.len()
                        && 0 < whole,
                    Err(_) => true,
                }
                &&& gpx::without_leaps(points@, t) ==> gpx::placed(points@, t, max_gap as int, r.ok())
            },
        },
{
    match moment {
        None => Err(
            Outcome::Skipped(text::copy_text("拍摄时间无法解释为有效时刻（夏令时空档？）")),
        ),
        Some(t) => match gpx::locate(points, t, max_gap) {
            Some(fix) => Ok(fix),
            None => Err(Outcome::Skipped(text::copy_text("轨迹中无匹配时段（超出 --max-gap）"))),
        },
    }
}

/// Whether a moment is in the calendar.
pub fn is_moment(m: &Moment) -> (r: bool)
    ensures
        r == gpx::in_calendar(*m),
{
    proof {
        reveal_with_fuel(stamp::days_before_month, 13);
        assert(stamp::min_seconds() == -8272465632000);
        assert(stamp::max_seconds() == 8272402473599);
    }
    -8334601228800 <= m.secs && m.secs <= 8210266876799 && m.nanos < 2_000_000_000 && (m.nanos
        < 1_000_000_000 || (m.secs + 8334601228800) % 60 == 59)
}

/// What is announced before pictures are placed.
pub open spec fn geotag_banner(
    points: nat,
    source: Seq<char>,
    zone: Option<Seq<char>>,
    offset: Option<Seq<char>>,
    max_gap: int,
    files: nat,
    dry_run: bool,
) -> Seq<char> {
    "PIC-Killer · GPX 地理标记\n  轨迹："@ + text::dec(points) + " 个点（"@ + source + "）\n  时区："@ + (
    match zone {
        Some(z) => z,
        None => "系统本地时区"@,
    }) + "\n"@ + (match offset {
        Some(o) => "  时间偏移："@ + o + "\n"@,
        None => Seq::empty(),
    }) + "  最大间隔："@ + text::dec_signed(max_gap) + " 秒\n  文件："@ + text::dec(files) + " 个\n"@
        + text::when(dry_run, "  模式：预览（不写入）\n"@)
}

/// What is announced before pictures are placed.
pub fn geotag_header(
    points: usize,
    source: &str,
    zone: Option<&str>,
    offset: Option<&str>,
    max_gap: i64,
    files: usize,
    dry_run: bool,
) -> (s: String)
    ensures
        s@ == geotag_banner(
            points as nat,
            source@,
            match zone {
                Some(z) => Some(z@),
                None => None,
            },
            match offset {
                Some(o) => Some(o@),
                None => None,
            },
            max_gap as int,
            files as nat,
            dry_run,
        ),
{
    let mut s: String = text::copy_text("PIC-Killer · GPX 地理标记\n  轨迹：");
    text::push_dec(&mut s, points as u64);
    s.append(" 个点（");
    s.append(source);
    s.append("）\n  时区：");
    match zone {
        Some(z) => {
            s.append(z);
        },
        None => {
            s.append("系统本地时区");
        },
    }
    s.append("\n");
    let ghost a = s@;
    if let Some(o) = offset {
        s.append(text::copy_text("  时间偏移：").concat(o).concat("\n").as_str());
    }
    assert(s@ =~= a + (match offset {
        Some(o) => "  时间偏移："@ + o@ + "\n"@,
        None => Seq::empty(),
    }));
    s.append("  最大间隔：");
    text::push_signed(&mut s, max_gap);
    s.append(" 秒\n  文件：");
    text::push_dec(&mut s, files as u64);
    s.append(" 个\n");
    text::push_when(&mut s, dry_run, "  模式：预览（不写入）\n");
    s
}

} // verus!
