//! Tracks in GPX files, and where on a track one was at a given moment.
//!
//! Coordinates are kept as the decimal numerals that stand in the file.

use chrono::{DateTime, Utc};
use vstd::prelude::*;
use vstd::string::*;
use crate::stamp;
use crate::text;
use crate::timeop;
use crate::xml;
use crate::xml::{XmlAttr, XmlEvent};

verus! {

/// A moment: seconds since 1970 in UTC, and nanoseconds.
#[derive(Debug, Clone, Copy, PartialEq, Eq, Structural)]
pub struct Moment {
    pub secs: i64,
    pub nanos: u32,
}

/// Whether `a` is before `b`.
pub open spec fn before(a: Moment, b: Moment) -> bool {
    a.secs < b.secs || (a.secs == b.secs && a.nanos < b.nanos)
}

/// A point of a track. Latitude, longitude and elevation are decimal numerals.
#[derive(Debug, PartialEq)]
pub struct TrackPoint {
    pub time: Moment,
    pub lat: String,
    pub lon: String,
    pub ele: Option<String>,
}

/// What a point says.
pub struct PointView {
    pub time: Moment,
    pub lat: Seq<char>,
    pub lon: Seq<char>,
    pub ele: Option<Seq<char>>,
}

/// What an optional text says.
pub open spec fn option_view(s: Option<String>) -> Option<Seq<char>> {
    match s {
        Some(t) => Some(t@),
        None => None,
    }
}

impl View for TrackPoint {
    type V = PointView;

    open spec fn view(&self) -> PointView {
        PointView { time: self.time, lat: self.lat@, lon: self.lon@, ele: option_view(self.ele) }
    }
}

/// The views of a list of points.
pub open spec fn points_view(v: Seq<TrackPoint>) -> Seq<PointView> {
    v.map_values(|p: TrackPoint| p@)
}

// ---- numerals ---------------------------------------------------------------------------

/// Where an exponent that begins at `i` ends the text: `e`, an optional sign, and digits.
pub open spec fn exponent_ends(s: Seq<char>, i: int) -> bool {
    let start = if i + 1 < s.len() && (s[i + 1] == '+' || s[i + 1] == '-') {
        i + 2
    } else {
        i + 1
    };
    i < s.len() && s[i] == 'e' && start < s.len() && timeop::digits_end(s, start) == s.len()
}

/// Whether the text from `i` on is an unsigned decimal number: digits with an optional point
/// among, before or behind them, and an optional exponent.
pub open spec fn is_unsigned(s: Seq<char>, i: int) -> bool {
    let whole = timeop::digits_end(s, i);
    let (end, any) = if whole < s.len() && s[whole] == '.' {
        (timeop::digits_end(s, whole + 1), whole > i || timeop::digits_end(s, whole + 1) > whole + 1)
    } else {
        (whole, whole > i)
    };
    any && (end == s.len() || exponent_ends(s, end))
}

/// Whether a text is a decimal number, infinite or not a number, in any case, with an optional
/// sign.
pub open spec fn is_number(t: Seq<char>) -> bool {
    let s = text::lowered(t);
    let i = if s.len() > 0 && (s[0] == '+' || s[0] == '-') {
        1int
    } else {
        0
    };
    s.skip(i) == "inf"@ || s.skip(i) == "infinity"@ || s.skip(i) == "nan"@ || is_unsigned(s, i)
}

/// Whether a text is a number that a computer reads.
pub fn is_numeral(t: &str) -> (r: bool)
    ensures
        r == is_number(t@),
{
    let cs: Vec<char> = text::chars_of(t);
    let low: Vec<char> = text::lower_chars(cs.as_slice());
    let s: &[char] = low.as_slice();
    let i: usize = if s.len() > 0 && (s[0] == '+' || s[0] == '-') { 1 } else { 0 };
    assert(s@.subrange(i as int, s@.len() as int) =~= s@.skip(i as int));
    let rest: &[char] = &s[i..s.len()];
    if text::is_text(rest, "inf") || text::is_text(rest, "infinity") || text::is_text(rest, "nan") {
        return true;
    }
    let whole: usize = timeop::find_digits_end(s, i);
    let mut end: usize = whole;
    let mut any: bool = whole > i;
    if whole < s.len() && s[whole] == '.' {
        end = timeop::find_digits_end(s, whole + 1);
        any = any || end > whole + 1;
    }
    if !any {
        return false;
    }
    if end == s.len() {
        return true;
    }
    if s[end] != 'e' {
        return false;
    }
    let start: usize = if end + 1 < s.len() && (s[end + 1] == '+' || s[end + 1] == '-') {
        end + 2
    } else {
        end + 1
    };
    start < s.len() && timeop::find_digits_end(s, start) == s.len()
}

// ---- moments ----------------------------------------------------------------------------

/// The seconds from 1 January of year 1 to 1 January of 1970.
pub const UNIX_START: i64 = 62135596800;

/// Whether a moment is in the calendar. A leap second is the last of a minute.
pub open spec fn in_calendar(m: Moment) -> bool {
    stamp::min_seconds() <= m.secs + UNIX_START <= stamp::max_seconds() && m.nanos < 2_000_000_000 && (m.nanos
        >= 1_000_000_000 ==> m.secs % 60 == 59)
}

/// The moment that a text in the format of RFC 3339 says.
pub uninterp spec fn rfc3339_moment(s: Seq<char>) -> Option<Moment>;

/// `DateTime::parse_from_rfc3339`, in UTC: depends on the text alone, and gives moments of the
/// calendar.
#[verifier::external_body]
fn parse_moment(s: &str) -> (r: Option<Moment>)
    ensures
        r == rfc3339_moment(s@),
        r is Some ==> in_calendar(r->0),
{
    let d = DateTime::parse_from_rfc3339(s).ok()?.with_timezone(&Utc);
    Some(Moment { secs: d.timestamp(), nanos: d.timestamp_subsec_nanos() })
}

/// The whole seconds from `b` to `a`, by the clock of `chrono`.
pub uninterp spec fn seconds_between(a: Moment, b: Moment) -> int;

/// A quotient rounded towards zero.
pub open spec fn towards_zero(n: int, d: int) -> int {
    if n >= 0 {
        n / d
    } else {
        -((-n) / d)
    }
}

/// The difference of two `DateTime` values in whole seconds: depends on the two moments alone.
/// Between moments that are no leap seconds it is their distance rounded towards zero.
#[verifier::external_body]
fn whole_seconds(a: Moment, b: Moment) -> (r: i64)
    requires
        in_calendar(a),
        in_calendar(b),
    ensures
        r == seconds_between(a, b),
        -20_000_000_000_000 < r < 20_000_000_000_000,
        a.nanos < 1_000_000_000 && b.nanos < 1_000_000_000 ==> r == towards_zero(
            (a.secs - b.secs) * 1_000_000_000 + a.nanos - b.nanos,
            1_000_000_000,
        ),
{
    match (DateTime::from_timestamp(a.secs, a.nanos), DateTime::from_timestamp(b.secs, b.nanos)) {
        (Some(x), Some(y)) => (x - y).num_seconds(),
        _ => 0,
    }
}

// ---- reading a track --------------------------------------------------------------------

/// A name without its namespace prefix.
pub open spec fn local_name(name: Seq<char>) -> Seq<char> {
    match text::char_from(name, 0, ':') {
        Some(i) => name.skip(i + 1),
        None => name,
    }
}

/// The tags of points.
pub open spec fn is_point_tag(local: Seq<char>) -> bool {
    local == "trkpt"@ || local == "rtept"@ || local == "wpt"@
}

/// What text is waited for.
pub enum Field {
    Time,
    Ele,
}

/// A text if it is a number.
pub open spec fn if_number(s: Seq<char>) -> Option<Seq<char>> {
    if is_number(s) {
        Some(s)
    } else {
        None
    }
}

/// The number that the last attribute of this name says.
pub open spec fn coordinate(attrs: Seq<xml::AttrView>, name: Seq<char>) -> Option<Seq<char>>
    decreases attrs.len(),
{
    if attrs.len() == 0 {
        None
    } else {
        match attrs.last() {
            xml::AttrView::Pair(key, value) => if local_name(key) == name {
                match value {
                    Ok(v) => if_number(v),
                    Err(_) => None,
                }
            } else {
                coordinate(attrs.drop_last(), name)
            },
            xml::AttrView::Malformed(_) => coordinate(attrs.drop_last(), name),
        }
    }
}

/// How far a track was read.
#[verifier::ext_equal]
pub struct Reading {
    pub lat: Option<Seq<char>>,
    pub lon: Option<Seq<char>>,
    pub ele: Option<Seq<char>>,
    pub time: Option<Moment>,
    pub inside: bool,
    pub target: Option<Field>,
    pub points: Seq<PointView>,
}

/// How reading begins.
pub open spec fn nothing_read() -> Reading {
    Reading {
        lat: None,
        lon: None,
        ele: None,
        time: None,
        inside: false,
        target: None,
        points: Seq::empty(),
    }
}

/// What a tag that opens an element does: a point begins, or the text of a field is waited for.
pub open spec fn after_open(r: Reading, name: Seq<char>, content: Seq<char>) -> Reading {
    let local = local_name(name);
    let attrs = xml::attributes_of(name, content);
    if is_point_tag(local) {
        Reading {
            inside: true,
            lat: coordinate(attrs, "lat"@),
            lon: coordinate(attrs, "lon"@),
            ele: None,
            time: None,
            ..r
        }
    } else if r.inside && local == "time"@ {
        Reading { target: Some(Field::Time), ..r }
    } else if r.inside && local == "ele"@ {
        Reading { target: Some(Field::Ele), ..r }
    } else {
        r
    }
}

/// What a text says without white space around it; nothing where it holds unknown references.
pub open spec fn plain_text(raw: Seq<char>) -> Seq<char> {
    match xml::resolved_text(raw) {
        Some(s) => text::trimmed(s),
        None => text::trimmed(Seq::empty()),
    }
}

/// What an event does.
pub open spec fn after_event(r: Reading, e: xml::EventView) -> Reading {
    match e {
        xml::EventView::Start(name, content, _, _) => after_open(r, name, content),
        xml::EventView::Empty(name, content, _, _) => after_open(r, name, content),
        xml::EventView::Text(raw, _) => match r.target {
            None => r,
            Some(Field::Time) => Reading { target: None, time: rfc3339_moment(plain_text(raw)), ..r },
            Some(Field::Ele) => Reading { target: None, ele: if_number(plain_text(raw)), ..r },
        },
        xml::EventView::End(name, _, _) => if is_point_tag(local_name(name)) {
            Reading {
                target: None,
                inside: false,
                points: match (r.lat, r.lon, r.time) {
                    (Some(lat), Some(lon), Some(time)) => r.points.push(
                        PointView { time, lat, lon, ele: r.ele },
                    ),
                    _ => r.points,
                },
                ..r
            }
        } else {
            Reading { target: None, ..r }
        },
        _ => r,
    }
}

/// What a list of events does.
pub open spec fn after_events(events: Seq<xml::EventView>) -> Reading
    decreases events.len(),
{
    if events.len() == 0 {
        nothing_read()
    } else {
        after_event(after_events(events.drop_last()), events.last())
    }
}

/// `p` put into `s` behind everything that is not after it.
pub open spec fn put_by_time(s: Seq<PointView>, p: PointView) -> Seq<PointView>
    decreases s.len(),
{
    if s.len() == 0 || !before(p.time, s.last().time) {
        s.push(p)
    } else {
        put_by_time(s.drop_last(), p).push(s.last())
    }
}

/// `s` in the order of time; points of one moment keep their order.
pub open spec fn by_time(s: Seq<PointView>) -> Seq<PointView>
    decreases s.len(),
{
    if s.len() == 0 {
        s
    } else {
        put_by_time(by_time(s.drop_last()), s.last())
    }
}

/// Whether points are in the order of time.
pub open spec fn in_time_order(s: Seq<PointView>) -> bool {
    forall|i: int, j: int| 0 <= i < j < s.len() ==> !before((#[trigger] s[j]).time, (#[trigger] s[i]).time)
}

/// The points of a track, or why it cannot be read.
pub open spec fn track_of(events: Seq<xml::EventView>) -> Result<Seq<PointView>, Seq<char>> {
    match events.last() {
        xml::EventView::Failed(why) => Err(why),
        _ => Ok(by_time(after_events(events).points)),
    }
}

proof fn lemma_put_by_time(s: Seq<PointView>, p: PointView)
    requires
        in_time_order(s),
    ensures
        in_time_order(put_by_time(s, p)),
        put_by_time(s, p).len() == s.len() + 1,
        forall|i: int|
            0 <= i < put_by_time(s, p).len() ==> (#[trigger] put_by_time(s, p)[i]) == p || s.contains(
                put_by_time(s, p)[i],
            ),
    decreases s.len(),
{
    let r = put_by_time(s, p);
    if s.len() == 0 || !before(p.time, s.last().time) {
        assert forall|i: int| 0 <= i < r.len() implies (#[trigger] r[i]) == p || s.contains(r[i]) by {
            if i < s.len() {
                assert(s[i] == r[i]);
            }
        }
        assert forall|i: int, j: int| 0 <= i < j < r.len() implies !before(
            (#[trigger] r[j]).time,
            (#[trigger] r[i]).time,
        ) by {
            if j == s.len() && i < s.len() - 1 {
                assert(!before(s[s.len() - 1].time, s[i].time));
            }
        }
    } else {
        let init = s.drop_last();
        lemma_put_by_time(init, p);
        let q = put_by_time(init, p);
        assert forall|i: int| 0 <= i < r.len() implies (#[trigger] r[i]) == p || s.contains(r[i]) by {
            if i < q.len() {
                assert(r[i] == q[i]);
                if q[i] != p {
                    let j = choose|j: int| 0 <= j < init.len() && init[j] == q[i];
                    assert(s[j] == r[i]);
                }
            } else {
                assert(s[s.len() - 1] == r[i]);
            }
        }
        assert forall|i: int, j: int| 0 <= i < j < r.len() implies !before(
            (#[trigger] r[j]).time,
            (#[trigger] r[i]).time,
        ) by {
            if j == q.len() {
                assert(r[i] == q[i]);
                if q[i] != p {
                    let k = choose|k: int| 0 <= k < init.len() && init[k] == q[i];
                    assert(s[k] == q[i]);
                    assert(!before(s[s.len() - 1].time, s[k].time));
                }
            }
        }
    }
}

/// A track that was read is in the order of time, and no point is lost or made up.
pub proof fn track_is_in_time_order(s: Seq<PointView>)
    ensures
        in_time_order(by_time(s)),
        by_time(s).len() == s.len(),
        forall|i: int| 0 <= i < by_time(s).len() ==> s.contains(#[trigger] by_time(s)[i]),
    decreases s.len(),
{
    if s.len() > 0 {
        let init = s.drop_last();
        track_is_in_time_order(init);
        lemma_put_by_time(by_time(init), s.last());
        let r = by_time(s);
        assert forall|i: int| 0 <= i < r.len() implies s.contains(#[trigger] r[i]) by {
            if r[i] == s.last() {
                assert(s[s.len() - 1] == r[i]);
            } else {
                let k = choose|k: int| 0 <= k < by_time(init).len() && by_time(init)[k] == r[i];
                assert(init.contains(by_time(init)[k]));
                let j = choose|j: int| 0 <= j < init.len() && init[j] == r[i];
                assert(s[j] == r[i]);
            }
        }
    }
}

fn local_part(name: &str) -> (v: Vec<char>)
    ensures
        v@ == local_name(name@),
{
    let cs: Vec<char> = text::chars_of(name);
    match text::find_char(cs.as_slice(), 0, ':') {
        Some(i) => {
            let rest: String = text::text_of(&cs[i + 1..cs.len()]);
            assert(cs@.subrange(i + 1, cs@.len() as int) =~= cs@.skip(i + 1));
            text::chars_of(rest.as_str())
        },
        None => cs,
    }
}

fn is_point(local: &[char]) -> (r: bool)
    ensures
        r == is_point_tag(local@),
{
    text::is_text(local, "trkpt") || text::is_text(local, "rtept") || text::is_text(local, "wpt")
}

fn keep_number(s: String) -> (r: Option<String>)
    ensures
        option_view(r) == if_number(s@),
{
    if is_numeral(s.as_str()) {
        Some(s)
    } else {
        None
    }
}

/// The number that the last attribute of this name says.
pub fn find_coordinate(attrs: &Vec<XmlAttr>, name: &str) -> (r: Option<String>)
    ensures
        option_view(r) == coordinate(xml::attrs_view(attrs@), name@),
{
    let ghost all = xml::attrs_view(attrs@);
    let mut i: usize = attrs.len();
    assert(all.take(all.len() as int) =~= all);
    while i > 0
        invariant
            i <= attrs.len(),
            all == xml::attrs_view(attrs@),
            coordinate(all, name@) == coordinate(all.take(i as int), name@),
        decreases i,
    {
        proof {
            let head = all.take(i as int);
            assert(head.last() == attrs@[i - 1]@);
            assert(head.drop_last() =~= all.take(i - 1));
        }
        match &attrs[i - 1] {
            XmlAttr::Pair(key, value) => {
                let local: Vec<char> = local_part(key.as_str());
                if text::is_text(local.as_slice(), name) {
                    return match value {
                        Ok(v) => keep_number(text::copy_text(v.as_str())),
                        Err(_) => None,
                    };
                }
            },
            XmlAttr::Malformed(_) => {},
        }
        i -= 1;
    }
    None
}

/// What a text says without white space around it.
fn read_plain(raw: &str) -> (s: String)
    ensures
        s@ == plain_text(raw@),
{
    match xml::unescape_text(raw) {
        Some(s) => text::trim_text(s.as_str()),
        None => {
            let nothing: String = String::new();
            let s: String = text::trim_text(nothing.as_str());
            assert(nothing@ =~= Seq::<char>::empty());
            s
        },
    }
}

/// Where `p` goes among points in the order of time.
fn place_of(points: &Vec<TrackPoint>, p: &TrackPoint) -> (at: usize)
    ensures
        at <= points.len(),
        put_by_time(points_view(points@), p@) == points_view(points@).insert(at as int, p@),
{
    let ghost s = points_view(points@);
    let mut at: usize = points.len();
    while at > 0 && is_before(p.time, points[at - 1].time)
        invariant
            at <= points.len(),
            s == points_view(points@),
            forall|k: int| at <= k < s.len() ==> before(p@.time, (#[trigger] s[k]).time),
        decreases at,
    {
        assert(s[at - 1] == points@[at - 1]@);
        at -= 1;
    }
    proof {
        if at > 0 {
            assert(s[at - 1] == points@[at - 1]@);
        }
        lemma_put_at(s, p@, at as int);
    }
    at
}

proof fn lemma_put_at(s: Seq<PointView>, p: PointView, at: int)
    requires
        0 <= at <= s.len(),
        forall|k: int| at <= k < s.len() ==> before(p.time, (#[trigger] s[k]).time),
        at > 0 ==> !before(p.time, s[at - 1].time),
    ensures
        put_by_time(s, p) == s.insert(at, p),
    decreases s.len(),
{
    if at == s.len() {
        assert(s.insert(at, p) =~= s.push(p));
    } else {
        let init = s.drop_last();
        assert(before(p.time, s[s.len() - 1].time));
        lemma_put_at(init, p, at);
        assert(init.insert(at, p).push(s.last()) =~= s.insert(at, p));
    }
}

fn is_before(a: Moment, b: Moment) -> (r: bool)
    ensures
        r == before(a, b),
{
    a.secs < b.secs || (a.secs == b.secs && a.nanos < b.nanos)
}

fn copy_option(s: &Option<String>) -> (r: Option<String>)
    ensures
        option_view(r) == option_view(*s),
{
    match s {
        Some(t) => Some(text::copy_text(t.as_str())),
        None => None,
    }
}

impl Clone for TrackPoint {
    fn clone(&self) -> (r: Self)
        ensures
            r@ == self@,
    {
        TrackPoint {
            time: self.time,
            lat: text::copy_text(self.lat.as_str()),
            lon: text::copy_text(self.lon.as_str()),
            ele: copy_option(&self.ele),
        }
    }
}

/// Puts points into the order of time; points of one moment keep their order.
fn sort_points(points: &Vec<TrackPoint>) -> (out: Vec<TrackPoint>)
    ensures
        points_view(out@) == by_time(points_view(points@)),
{
    let ghost all = points_view(points@);
    let mut out: Vec<TrackPoint> = Vec::new();
    let mut i: usize = 0;
    assert(points_view(out@) =~= by_time(all.take(0)));
    while i < points.len()
        invariant
            i <= points.len(),
            all == points_view(points@),
            points_view(out@) == by_time(all.take(i as int)),
        decreases points.len() - i,
    {
        let ghost before_out = points_view(out@);
        let p: TrackPoint = points[i].clone();
        proof {
            let next = all.take(i + 1);
            assert(next.drop_last() =~= all.take(i as int));
            assert(next.last() == p@);
        }
        let at: usize = place_of(&out, &p);
        let ghost one = p@;
        out.insert(at, p);
        assert(points_view(out@) =~= before_out.insert(at as int, one));
        i += 1;
    }
    assert(all.take(all.len() as int) =~= all);
    out
}

/// Reads a track from events.
pub fn read_track(events: &Vec<XmlEvent>) -> (r: Result<Vec<TrackPoint>, String>)
    requires
        events@.len() > 0,
    ensures
        match r {
            Ok(points) => track_of(xml::events_view(events@)) == Ok::<Seq<PointView>, Seq<char>>(
                points_view(points@),
            ) && in_time_order(points_view(points@)) && forall|i: int|
                0 <= i < points@.len() ==> in_calendar((#[trigger] points@[i]).time),
            Err(why) => track_of(xml::events_view(events@)) == Err::<Seq<PointView>, Seq<char>>(why@),
        },
{
    let ghost all = xml::events_view(events@);
    let mut lat: Option<String> = None;
    let mut lon: Option<String> = None;
    let mut ele: Option<String> = None;
    let mut time: Option<Moment> = None;
    let mut inside: bool = false;
    let mut target: Option<Field> = None;
    let mut points: Vec<TrackPoint> = Vec::new();
    let mut i: usize = 0;
    assert(points_view(points@) =~= Seq::<PointView>::empty());
    while i < events.len()
        invariant
            i <= events.len(),
            all == xml::events_view(events@),
            time is Some ==> in_calendar(time->0),
            forall|k: int| 0 <= k < points@.len() ==> in_calendar((#[trigger] points@[k]).time),
            after_events(all.take(i as int)) == (Reading {
                lat: option_view(lat),
                lon: option_view(lon),
                ele: option_view(ele),
                time,
                inside,
                target,
                points: points_view(points@),
            }),
        decreases events.len() - i,
    {
        proof {
            let next = all.take(i + 1);
            assert(next.drop_last() =~= all.take(i as int));
            assert(next.last() == events@[i as int]@);
        }
        let mut opened: Option<(&String, &String)> = None;
        match &events[i] {
            XmlEvent::Start(name, content, _, _) => {
                opened = Some((name, content));
            },
            XmlEvent::Empty(name, content, _, _) => {
                opened = Some((name, content));
            },
            XmlEvent::Text(raw, _) => {
                match target {
                    None => {},
                    Some(Field::Time) => {
                        let s: String = read_plain(raw.as_str());
                        time = parse_moment(s.as_str());
                        target = None;
                    },
                    Some(Field::Ele) => {
                        ele = keep_number(read_plain(raw.as_str()));
                        target = None;
                    },
                }
            },
            XmlEvent::End(name, _, _) => {
                let local: Vec<char> = local_part(name.as_str());
                if is_point(local.as_slice()) {
                    match (&lat, &lon, time) {
                        (Some(la), Some(lo), Some(t)) => {
                            let ghost before = points_view(points@);
                            let p: TrackPoint = TrackPoint {
                                time: t,
                                lat: text::copy_text(la.as_str()),
                                lon: text::copy_text(lo.as_str()),
                                ele: copy_option(&ele),
                            };
                            let ghost one = p@;
                            points.push(p);
                            assert(points_view(points@) =~= before.push(one));
                        },
                        _ => {},
                    }
                    inside = false;
                }
                target = None;
            },
            _ => {},
        }
        match opened {
            Some((name, content)) => {
                let local: Vec<char> = local_part(name.as_str());
                if is_point(local.as_slice()) {
                    let attrs: Vec<XmlAttr> = xml::read_attributes(name.as_str(), content.as_str());
                    inside = true;
                    lat = find_coordinate(&attrs, "lat");
                    lon = find_coordinate(&attrs, "lon");
                    ele = None;
                    time = None;
                } else if inside && text::is_text(local.as_slice(), "time") {
                    target = Some(Field::Time);
                } else if inside && text::is_text(local.as_slice(), "ele") {
                    target = Some(Field::Ele);
                }
            },
            None => {},
        }
        i += 1;
    }
    assert(all.take(all.len() as int) =~= all);
    assert(all.last() == events@[events@.len() - 1]@);
    match &events[events.len() - 1] {
        XmlEvent::Failed(why) => {
            return Err(text::copy_text(why.as_str()));
        },
        _ => {},
    }
    let ghost unsorted = points@;
    let out: Vec<TrackPoint> = sort_points(&points);
    proof {
        track_is_in_time_order(points_view(unsorted));
        assert forall|k: int| 0 <= k < out@.len() implies in_calendar((#[trigger] out@[k]).time) by {
            assert(points_view(out@)[k] == out@[k]@);
            assert(points_view(unsorted).contains(points_view(out@)[k]));
            let j = choose|j: int|
                0 <= j < points_view(unsorted).len() && points_view(unsorted)[j] == points_view(out@)[k];
            assert(unsorted[j]@ == out@[k]@);
        }
    }
    Ok(out)
}

/// What is told the user about a track that cannot be read.
pub open spec fn track_message(why: Seq<char>) -> Seq<char> {
    "解析 GPX 失败："@ + why
}

/// Reads a track: its points with a time and coordinates, in the order of time. The error is
/// the message for the user.
pub fn parse_str(data: &str) -> (r: Result<Vec<TrackPoint>, String>)
    ensures
        match r {
            Ok(points) => track_of(xml::document_events(data@)) == Ok::<Seq<PointView>, Seq<char>>(
                points_view(points@),
            ) && in_time_order(points_view(points@)) && forall|i: int|
                0 <= i < points@.len() ==> in_calendar((#[trigger] points@[i]).time),
            Err(e) => match track_of(xml::document_events(data@)) {
                Err(why) => e@ == track_message(why),
                Ok(_) => false,
            },
        },
{
    let events: Vec<XmlEvent> = xml::read_events(data);
    match read_track(&events) {
        Ok(points) => Ok(points),
        Err(why) => Err(text::copy_text("解析 GPX 失败：").concat(why.as_str())),
    }
}

// ---- finding a place --------------------------------------------------------------------

/// Where on a track one was.
#[derive(Debug, Clone, Copy, PartialEq, Eq, Structural)]
pub enum Fix {
    /// At this point.
    At(usize),
    /// Between two points, `part` seconds of `whole` behind the first.
    Between { prev: usize, next: usize, part: i64, whole: i64 },
}

/// Where one was at a moment that lies before the point `i` and behind the one before it.
/// `max_gap` is how many seconds from a point one may be, and how far apart two points may be
/// to go straight from one to the other.
pub open spec fn fix_before(points: Seq<TrackPoint>, t: Moment, max_gap: int, i: int) -> Option<Fix> {
    if points.len() == 0 {
        None
    } else if i == 0 {
        let d = seconds_between(points[0].time, t);
        if (if d < 0 {
            -d
        } else {
            d
        }) <= max_gap {
            Some(Fix::At(0))
        } else {
            None
        }
    } else if i == points.len() {
        let d = seconds_between(t, points[i - 1].time);
        if (if d < 0 {
            -d
        } else {
            d
        }) <= max_gap {
            Some(Fix::At((i - 1) as usize))
        } else {
            None
        }
    } else {
        let whole = seconds_between(points[i].time, points[i - 1].time);
        let behind = seconds_between(t, points[i - 1].time);
        let ahead = seconds_between(points[i].time, t);
        if whole <= 0 {
            Some(Fix::At((i - 1) as usize))
        } else if whole > max_gap {
            if behind <= ahead && behind <= max_gap {
                Some(Fix::At((i - 1) as usize))
            } else if ahead <= max_gap {
                Some(Fix::At(i as usize))
            } else {
                None
            }
        } else {
            Some(
                Fix::Between {
                    prev: (i - 1) as usize,
                    next: i as usize,
                    part: behind as i64,
                    whole: whole as i64,
                },
            )
        }
    }
}

/// Whether all points before `i` are before `t` and all from `i` on are after it.
pub open spec fn splits(points: Seq<TrackPoint>, t: Moment, i: int) -> bool {
    &&& 0 <= i <= points.len()
    &&& forall|k: int| 0 <= k < i ==> before((#[trigger] points[k]).time, t)
    &&& forall|k: int| i <= k < points.len() ==> before(t, (#[trigger] points[k]).time)
}

/// How many nanoseconds lie between two moments that are no leap seconds.
pub open spec fn nanos_apart(a: Moment, b: Moment) -> int {
    let n = (a.secs - b.secs) * 1_000_000_000 + a.nanos - b.nanos;
    if n < 0 {
        -n
    } else {
        n
    }
}

/// How many whole seconds lie between two moments that are no leap seconds.
pub open spec fn secs_apart(a: Moment, b: Moment) -> int {
    nanos_apart(a, b) / 1_000_000_000
}

/// Whether neither this moment nor that of a point is a leap second.
pub open spec fn without_leaps(points: Seq<TrackPoint>, t: Moment) -> bool {
    t.nanos < 1_000_000_000 && forall|k: int|
        0 <= k < points.len() ==> (#[trigger] points[k]).time.nanos < 1_000_000_000
}

/// Whether a place on a track is one for this moment: between two points, one behind and one
/// ahead of it, by the time since the first of them, or at a point that no other is nearer than.
pub open spec fn placed(points: Seq<TrackPoint>, t: Moment, max_gap: int, r: Option<Fix>) -> bool {
    match r {
        Some(Fix::Between { prev, next, part, whole }) => {
            let (a, b) = (points[prev as int].time, points[next as int].time);
            &&& next == prev + 1 && next < points.len()
            &&& before(a, t) && before(t, b)
            &&& part * 1_000_000_000 <= (t.secs - a.secs) * 1_000_000_000 + t.nanos - a.nanos < (part + 1)
                * 1_000_000_000
            &&& whole * 1_000_000_000 <= (b.secs - a.secs) * 1_000_000_000 + b.nanos - a.nanos < (whole + 1)
                * 1_000_000_000
            &&& 0 < whole <= max_gap
        },
        Some(Fix::At(k)) => {
            &&& k < points.len()
            &&& secs_apart(points[k as int].time, t) <= max_gap || secs_apart(points[k as int].time, t) == 0
            &&& forall|j: int|
                0 <= j < points.len() ==> secs_apart(points[k as int].time, t) <= secs_apart(
                    (#[trigger] points[j]).time,
                    t,
                )
        },
        None => forall|j: int| 0 <= j < points.len() ==> secs_apart((#[trigger] points[j]).time, t) > max_gap,
    }
}

/// Time apart is counted alike from either side, adds up, and grows with the clock.
pub proof fn time_apart_adds_up(a: Moment, b: Moment, c: Moment)
    requires
        a.nanos < 1_000_000_000,
        b.nanos < 1_000_000_000,
        c.nanos < 1_000_000_000,
    ensures
        nanos_apart(a, b) == nanos_apart(b, a),
        nanos_apart(a, b) == 0 <==> a == b,
        !before(b, a) && !before(c, b) ==> nanos_apart(a, c) == nanos_apart(a, b) + nanos_apart(b, c),
        a.nanos == b.nanos && a.secs <= b.secs ==> secs_apart(a, b) == b.secs - a.secs,
{
}

/// On the way from one point to the next, the share of the way grows with time: it is nothing
/// within the first second, all but a second within the last, and later is never less. A second
/// later it is one second more.
pub proof fn later_is_further(
    points: Seq<TrackPoint>,
    t: Moment,
    u: Moment,
    max_gap: int,
    prev: usize,
    next: usize,
    first: i64,
    second: i64,
    whole: i64,
)
    requires
        without_leaps(points, t),
        without_leaps(points, u),
        placed(points, t, max_gap, Some(Fix::Between { prev, next, part: first, whole })),
        placed(points, u, max_gap, Some(Fix::Between { prev, next, part: second, whole })),
    ensures
        0 <= first <= whole,
        before(t, u) ==> first <= second,
        t.nanos == u.nanos ==> second - first == u.secs - t.secs,
        nanos_apart(points[prev as int].time, t) < 1_000_000_000 ==> first == 0,
        nanos_apart(t, points[next as int].time) < 1_000_000_000 ==> whole - first <= 1,
        points[prev as int].time.nanos == t.nanos ==> first == t.secs - points[prev as int].time.secs,
{
}

/// A photo taken on a point in time is at it, and the nearer a point is in time, the sooner it is
/// taken: what is placed at a point is never placed at one that is a second or more further away.
pub proof fn nearer_point_is_taken(points: Seq<TrackPoint>, t: Moment, max_gap: int, k: usize, j: int)
    requires
        without_leaps(points, t),
        placed(points, t, max_gap, Some(Fix::At(k))),
        0 <= j < points.len(),
    ensures
        nanos_apart(points[k as int].time, t) < nanos_apart(points[j].time, t) + 1_000_000_000,
        max_gap >= 0 ==> nanos_apart(points[k as int].time, t) < (max_gap + 1) * 1_000_000_000,
{
    assert(secs_apart(points[k as int].time, t) <= secs_apart(points[j].time, t));
}

/// Between two points, the share of the way is the time since the first of them, out of the time from
/// the first to the second.
pub proof fn share_is_time_since_the_first(points: Seq<TrackPoint>, t: Moment, max_gap: int, i: int)
    requires
        0 < i < points.len() <= usize::MAX,
        i64::MIN <= seconds_between(t, points[i - 1].time) <= i64::MAX,
        i64::MIN <= seconds_between(points[i].time, points[i - 1].time) <= i64::MAX,
    ensures
        fix_before(points, t, max_gap, i) matches Some(Fix::Between { prev, next, part, whole }) ==> prev == i - 1
            && next == i && part == seconds_between(t, points[prev as int].time) && whole == seconds_between(
            points[next as int].time,
            points[prev as int].time,
        ) && 0 < whole <= max_gap,
        0 < seconds_between(points[i].time, points[i - 1].time) <= max_gap ==> fix_before(
            points,
            t,
            max_gap,
            i,
        ) matches Some(Fix::Between { .. }),
{
}

/// The points next to a moment are the nearest on their side.
proof fn lemma_nearest(points: Seq<TrackPoint>, t: Moment, i: int)
    requires
        in_time_order(points_view(points)),
        splits(points, t, i),
        without_leaps(points, t),
    ensures
        forall|j: int|
            0 <= j < i ==> secs_apart((#[trigger] points[j]).time, t) >= secs_apart(points[i - 1].time, t),
        forall|j: int|
            i <= j < points.len() ==> secs_apart((#[trigger] points[j]).time, t) >= secs_apart(points[i].time, t),
{
    let s = points_view(points);
    assert forall|j: int| 0 <= j < i implies secs_apart((#[trigger] points[j]).time, t) >= secs_apart(
        points[i - 1].time,
        t,
    ) by {
        assert(s[j] == points[j]@ && s[i - 1] == points[i - 1]@);
        if j < i - 1 {
            assert(!before(s[i - 1].time, s[j].time));
        }
        assert(before(points[j].time, t) && before(points[i - 1].time, t));
    }
    assert forall|j: int| i <= j < points.len() implies secs_apart((#[trigger] points[j]).time, t) >= secs_apart(
        points[i].time,
        t,
    ) by {
        assert(s[j] == points[j]@ && s[i] == points[i]@);
        if i < j {
            assert(!before(s[j].time, s[i].time));
        }
        assert(before(t, points[j].time) && before(t, points[i].time));
    }
}

/// A moment that is that of a point lies between no two points.
proof fn lemma_not_between(points: Seq<TrackPoint>, t: Moment, m: int, i: int)
    requires
        in_time_order(points_view(points)),
        0 <= m < points.len(),
        points[m].time == t,
        0 <= i < points.len() - 1,
    ensures
        !(before(points[i].time, t) && before(t, points[i + 1].time)),
{
    let s = points_view(points);
    assert(s[m] == points[m]@ && s[i] == points[i]@ && s[i + 1] == points[i + 1]@);
    if m < i {
        assert(!before(s[i].time, s[m].time));
    } else if i + 1 < m {
        assert(!before(s[m].time, s[i + 1].time));
    }
}

/// Whole seconds, rounded towards zero, are the seconds apart but for the sign.
proof fn lemma_rounded(a: Moment, b: Moment)
    requires
        a.nanos < 1_000_000_000,
        b.nanos < 1_000_000_000,
    ensures
        ({
            let d = towards_zero((a.secs - b.secs) * 1_000_000_000 + a.nanos - b.nanos, 1_000_000_000);
            &&& secs_apart(a, b) == if d < 0 {
                -d
            } else {
                d
            }
            &&& secs_apart(b, a) == secs_apart(a, b)
            &&& !before(a, b) ==> d >= 0
        }),
{
}

/// Finds where on a track one was at a moment before the point `i` and behind the one before it.
fn place_before(points: &Vec<TrackPoint>, t: Moment, max_gap: i64, i: usize) -> (r: Option<Fix>)
    requires
        in_time_order(points_view(points@)),
        in_calendar(t),
        forall|i: int| 0 <= i < points@.len() ==> in_calendar((#[trigger] points@[i]).time),
        splits(points@, t, i as int),
    ensures
        r == fix_before(points@, t, max_gap as int, i as int),
        match r {
            Some(Fix::At(k)) => k < points@.len(),
            Some(Fix::Between { prev, next, part, whole }) => next == i && next == prev + 1 && next < points@.len()
                && 0 < whole <= max_gap && (t.nanos < 1_000_000_000 && points@[prev as int].time.nanos
                < 1_000_000_000 && points@[next as int].time.nanos < 1_000_000_000 ==> 0 <= part <= whole && part
                == towards_zero(
                (t.secs - points@[prev as int].time.secs) * 1_000_000_000 + t.nanos
                    - points@[prev as int].time.nanos,
                1_000_000_000,
            ) && whole == towards_zero(
                (points@[next as int].time.secs - points@[prev as int].time.secs) * 1_000_000_000
                    + points@[next as int].time.nanos - points@[prev as int].time.nanos,
                1_000_000_000,
            )),
            None => true,
        },
        without_leaps(points@, t) ==> placed(points@, t, max_gap as int, r),
        without_leaps(points@, t) && 0 < i < points@.len() && 1 <= secs_apart(
            points@[i - 1].time,
            points@[i as int].time,
        ) <= max_gap ==> r is Some && r->0 is Between,
{
    if points.len() == 0 {
        return None;
    }
    proof {
        if without_leaps(points@, t) {
            lemma_nearest(points@, t, i as int);
        }
    }
    if i == 0 {
        proof {
            if without_leaps(points@, t) {
                lemma_rounded(points@[0].time, t);
            }
        }
        let d: i64 = whole_seconds(points[0].time, t);
        let dist: i64 = if d < 0 { 0 - d } else { d };
        return if dist <= max_gap { Some(Fix::At(0)) } else { None };
    }
    if i == points.len() {
        proof {
            if without_leaps(points@, t) {
                lemma_rounded(t, points@[i - 1].time);
            }
        }
        let d: i64 = whole_seconds(t, points[i - 1].time);
        let dist: i64 = if d < 0 { 0 - d } else { d };
        return if dist <= max_gap { Some(Fix::At(i - 1)) } else { None };
    }
    proof {
        assert(before(points@[i - 1].time, t));
        assert(before(t, points@[i as int].time));
        if without_leaps(points@, t) {
            lemma_rounded(t, points@[i - 1].time);
            lemma_rounded(points@[i as int].time, t);
            lemma_rounded(points@[i as int].time, points@[i - 1].time);
        }
    }
    let whole: i64 = whole_seconds(points[i].time, points[i - 1].time);
    let behind: i64 = whole_seconds(t, points[i - 1].time);
    let ahead: i64 = whole_seconds(points[i].time, t);
    if whole <= 0 {
        Some(Fix::At(i - 1))
    } else if whole > max_gap {
        if behind <= ahead && behind <= max_gap {
            Some(Fix::At(i - 1))
        } else if ahead <= max_gap {
            Some(Fix::At(i))
        } else {
            None
        }
    } else {
        Some(Fix::Between { prev: i - 1, next: i, part: behind, whole })
    }
}

/// Finds where on a track one was at a moment. At the moment of a point: there. Between two
/// points that are near enough: between them. Otherwise at the nearer point within `max_gap`
/// seconds, if there is one.
pub fn locate(points: &Vec<TrackPoint>, t: Moment, max_gap: i64) -> (r: Option<Fix>)
    requires
        in_time_order(points_view(points@)),
        in_calendar(t),
        forall|i: int| 0 <= i < points@.len() ==> in_calendar((#[trigger] points@[i]).time),
    ensures
        (exists|i: int| 0 <= i < points@.len() && (#[trigger] points@[i]).time == t) ==> match r {
            Some(Fix::At(k)) => k < points@.len() && points@[k as int].time == t,
            _ => false,
        },
        forall|i: int| #[trigger] splits(points@, t, i) ==> r == fix_before(points@, t, max_gap as int, i),
        match r {
            Some(Fix::At(k)) => k < points@.len(),
            Some(Fix::Between { prev, next, part, whole }) => next == prev + 1 && next < points@.len() && 0
                < whole <= max_gap && (t.nanos < 1_000_000_000 && points@[prev as int].time.nanos
                < 1_000_000_000 && points@[next as int].time.nanos < 1_000_000_000 ==> 0 <= part <= whole),
            None => true,
        },
        without_leaps(points@, t) ==> placed(points@, t, max_gap as int, r),
        forall|i: int|
            #![trigger points@[i]]
            without_leaps(points@, t) && 0 <= i < points@.len() - 1 && before(points@[i].time, t) && before(
                t,
                points@[i + 1].time,
            ) && 1 <= secs_apart(points@[i].time, points@[i + 1].time) <= max_gap ==> (r matches Some(
                Fix::Between { prev, .. },
            ) && prev == i),
        match r {
            Some(Fix::Between { prev, next, part, whole }) => t.nanos < 1_000_000_000 && points@[prev as int].time.nanos
                < 1_000_000_000 && points@[next as int].time.nanos < 1_000_000_000 ==> part == towards_zero(
                (t.secs - points@[prev as int].time.secs) * 1_000_000_000 + t.nanos
                    - points@[prev as int].time.nanos,
                1_000_000_000,
            ) && whole == towards_zero(
                (points@[next as int].time.secs - points@[prev as int].time.secs) * 1_000_000_000
                    + points@[next as int].time.nanos - points@[prev as int].time.nanos,
                1_000_000_000,
            ),
            _ => true,
        },
{
    let ghost s = points_view(points@);
    let mut lo: usize = 0;
    let mut hi: usize = points.len();
    while lo < hi
        invariant
            lo <= hi <= points.len(),
            s == points_view(points@),
            in_time_order(s),
            forall|k: int| 0 <= k < lo ==> before((#[trigger] points@[k]).time, t),
            forall|k: int| hi <= k < points@.len() ==> before(t, (#[trigger] points@[k]).time),
        decreases hi - lo,
    {
        let mid: usize = lo + (hi - lo) / 2;
        let m: Moment = points[mid].time;
        proof {
            assert(s[mid as int] == points@[mid as int]@);
        }
        if is_before(m, t) {
            assert forall|k: int| 0 <= k < mid + 1 implies before((#[trigger] points@[k]).time, t) by {
                assert(s[k] == points@[k]@);
                if k < mid {
                    assert(!before(s[mid as int].time, s[k].time));
                }
            }
            lo = mid + 1;
        } else if is_before(t, m) {
            assert forall|k: int| mid <= k < points@.len() implies before(t, (#[trigger] points@[k]).time) by {
                assert(s[k] == points@[k]@);
                if k > mid {
                    assert(!before(s[k].time, s[mid as int].time));
                }
            }
            hi = mid;
        } else {
            assert(m == t);
            assert(points@[mid as int].time == t);
            proof {
                assert forall|k: int|
                    #![trigger points@[k]]
                    0 <= k < points@.len() - 1 implies !(before(points@[k].time, t) && before(
                    t,
                    points@[k + 1].time,
                )) by {
                    lemma_not_between(points@, t, mid as int, k);
                }
            }
            return Some(Fix::At(mid));
        }
    }
    let i: usize = lo;
    proof {
        assert(splits(points@, t, i as int));
        assert forall|j: int| #[trigger] splits(points@, t, j) implies j == i by {
            if j < i {
                assert(before(points@[j].time, t));
                assert(before(t, points@[j].time));
            } else if j > i {
                assert(before(points@[i as int].time, t));
                assert(before(t, points@[i as int].time));
            }
        }
        assert forall|k: int|
            #![trigger points@[k]]
            0 <= k < points@.len() - 1 && before(points@[k].time, t) && before(t, points@[k + 1].time) implies k + 1
            == i by {
            if k + 1 < i {
                assert(before(points@[k + 1].time, t));
            } else if k >= i {
                assert(before(t, points@[k].time));
            }
        }
    }
    place_before(points, t, max_gap, i)
}

} // verus!
