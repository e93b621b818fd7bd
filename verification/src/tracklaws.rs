//! What is read of a track.

use vstd::prelude::*;
use vstd::string::*;
use crate::gpx;
use crate::gpx::{Moment, PointView, Reading};
use crate::text;
use crate::textlaws;
use crate::timeop;
use crate::xml;
use crate::xml::{AttrView, EventView};

verus! {

/// One moment is before another if fewer seconds have passed, or as many and fewer parts of one.
pub proof fn moments_are_ordered(a: Moment, b: Moment)
    ensures
        gpx::before(a, b) <==> a.secs < b.secs || (a.secs == b.secs && a.nanos < b.nanos),
{
}

proof fn lemma_put(s: Seq<PointView>, p: PointView)
    ensures
        gpx::put_by_time(s, p).to_multiset() == s.to_multiset().insert(p),
    decreases s.len(),
{
    broadcast use vstd::seq_lib::group_to_multiset_ensures;

    if !(s.len() == 0 || !gpx::before(p.time, s.last().time)) {
        lemma_put(s.drop_last(), p);
        assert(s =~= s.drop_last().push(s.last()));
        assert(gpx::put_by_time(s, p).to_multiset() =~= s.to_multiset().insert(p));
    }
}

/// A track has every point that was read, each as often as it was.
pub proof fn points_are_kept(s: Seq<PointView>)
    ensures
        gpx::by_time(s).to_multiset() == s.to_multiset(),
    decreases s.len(),
{
    broadcast use vstd::seq_lib::group_to_multiset_ensures;

    if s.len() > 0 {
        points_are_kept(s.drop_last());
        lemma_put(gpx::by_time(s.drop_last()), s.last());
        assert(s =~= s.drop_last().push(s.last()));
    }
}

/// A name is the same with a prefix and a colon in front.
pub proof fn prefixes_are_dropped(prefix: Seq<char>, name: Seq<char>)
    requires
        !prefix.contains(':'),
    ensures
        gpx::local_name(prefix + ":"@ + name) == name,
        gpx::local_name(prefix) == prefix,
{
    reveal_strlit(":");
    assert(":"@ =~= seq![':']);
    textlaws::lemma_first_char(prefix, ':', name, 0);
    assert((prefix + seq![':'] + name).skip((prefix.len() + 1) as int) =~= name);
    lemma_no_colon(prefix, 0);
}

proof fn lemma_no_colon(s: Seq<char>, from: int)
    requires
        0 <= from,
        !s.contains(':'),
    ensures
        text::char_from(s, from, ':') is None,
    decreases s.len() - from,
{
    if from < s.len() {
        assert(s.contains(s[from]));
        lemma_no_colon(s, from + 1);
    }
}

/// A coordinate is the number that the attribute of its name says, whatever stands around it.
pub proof fn coordinates_are_attributes(before: Seq<AttrView>, key: Seq<char>, value: Seq<char>, behind: Seq<AttrView>)
    requires
        gpx::is_number(value),
        forall|i: int|
            0 <= i < behind.len() ==> ((#[trigger] behind[i]) matches AttrView::Pair(k, _) ==> gpx::local_name(k)
                != gpx::local_name(key)),
    ensures
        gpx::coordinate(before + seq![AttrView::Pair(key, Ok(value))] + behind, gpx::local_name(key)) == Some(value),
    decreases behind.len(),
{
    let one = AttrView::Pair(key, Ok(value));
    let s = before + seq![one] + behind;
    if behind.len() == 0 {
        assert(s.last() == one);
    } else {
        assert(s.last() == behind[behind.len() - 1]);
        assert(s.drop_last() =~= before + seq![one] + behind.drop_last());
        assert forall|i: int| 0 <= i < behind.drop_last().len() implies ((#[trigger] behind.drop_last()[i]) matches AttrView::Pair(
            k,
            _,
        ) ==> gpx::local_name(k) != gpx::local_name(key)) by {
            assert(behind.drop_last()[i] == behind[i]);
        }
        coordinates_are_attributes(before, key, value, behind.drop_last());
    }
}

/// The words of a track, told apart by their lengths.
proof fn lemma_tags()
    ensures
        "trkpt"@.len() == 5,
        "rtept"@.len() == 5,
        "wpt"@.len() == 3 && "wpt"@[0] == 'w',
        "time"@.len() == 4,
        "ele"@.len() == 3 && "ele"@[0] == 'e',
{
    reveal_strlit("trkpt");
    reveal_strlit("rtept");
    reveal_strlit("wpt");
    reveal_strlit("time");
    reveal_strlit("ele");
}

/// A point is read with the position that its tag gives, and with the height and the time that stand
/// in it, in whichever order.
pub proof fn points_are_read(
    r: Reading,
    tag: Seq<char>,
    content: Seq<char>,
    ele: Seq<char>,
    time: Seq<char>,
    height: Seq<char>,
    when: Seq<char>,
    raw: Seq<char>,
    at: int,
)
    requires
        gpx::local_name(tag) == "trkpt"@ || gpx::local_name(tag) == "rtept"@ || gpx::local_name(tag) == "wpt"@,
        gpx::local_name(ele) == "ele"@,
        gpx::local_name(time) == "time"@,
        gpx::coordinate(xml::attributes_of(tag, content), "lat"@) is Some,
        gpx::coordinate(xml::attributes_of(tag, content), "lon"@) is Some,
        gpx::rfc3339_moment(gpx::plain_text(when)) is Some,
        gpx::is_number(gpx::plain_text(height)),
    ensures
        ({
            let begun = gpx::after_event(r, EventView::Start(tag, content, raw, at));
            let high = gpx::after_event(
                gpx::after_event(
                    gpx::after_event(begun, EventView::Start(ele, Seq::empty(), raw, at)),
                    EventView::Text(height, at),
                ),
                EventView::End(ele, raw, at),
            );
            let timed = gpx::after_event(
                gpx::after_event(
                    gpx::after_event(high, EventView::Start(time, Seq::empty(), raw, at)),
                    EventView::Text(when, at),
                ),
                EventView::End(time, raw, at),
            );
            let done = gpx::after_event(timed, EventView::End(tag, raw, at));
            done.points == r.points.push(
                PointView {
                    time: gpx::rfc3339_moment(gpx::plain_text(when))->0,
                    lat: gpx::coordinate(xml::attributes_of(tag, content), "lat"@)->0,
                    lon: gpx::coordinate(xml::attributes_of(tag, content), "lon"@)->0,
                    ele: Some(gpx::plain_text(height)),
                },
            )
        }),
{
    lemma_tags();
}

proof fn lemma_run(s: Seq<char>, i: int, j: int)
    requires
        0 <= i <= j <= s.len(),
        forall|k: int| i <= k < j ==> text::is_digit(#[trigger] s[k]),
        j < s.len() ==> !text::is_digit(s[j]),
    ensures
        timeop::digits_end(s, i) == j,
    decreases j - i,
{
    if i < j {
        lemma_run(s, i + 1, j);
    }
}

/// Digits are a number, with a point among them or without, and with a sign in front or without. Two
/// points make none, and neither does nothing.
pub proof fn digits_are_numbers(a: Seq<char>, b: Seq<char>)
    requires
        a.len() > 0,
        text::all_digits(a),
        text::all_digits(b),
    ensures
        gpx::is_number(a),
        gpx::is_number(a + "."@ + b),
        gpx::is_number("-"@ + a),
        gpx::is_number("-"@ + (a + "."@ + b)),
        gpx::is_number("+"@ + (a + "."@ + b)),
        !gpx::is_number(a + "."@ + b + "."@),
        !gpx::is_number(Seq::<char>::empty()),
{
    reveal_strlit(".");
    reveal_strlit("-");
    reveal_strlit("+");
    let e = Seq::<char>::empty();
    assert("."@ =~= seq!['.'] && "-"@ =~= seq!['-'] && "+"@ =~= seq!['+']);
    let d = a + "."@ + b;
    lemma_number(e, a, e, false, e);
    assert(e + a + e + e =~= a);
    lemma_number(e, a, b, true, e);
    assert(e + a + (seq!['.'] + b) + e =~= d);
    lemma_number(seq!['-'], a, e, false, e);
    assert(seq!['-'] + a + e + e =~= "-"@ + a);
    lemma_number(seq!['-'], a, b, true, e);
    assert(seq!['-'] + a + (seq!['.'] + b) + e =~= "-"@ + d);
    lemma_number(seq!['+'], a, b, true, e);
    assert(seq!['+'] + a + (seq!['.'] + b) + e =~= "+"@ + d);
    lemma_number(e, a, b, true, seq!['.']);
    assert(e + a + (seq!['.'] + b) + seq!['.'] =~= d + "."@);
    reveal_strlit("inf");
    reveal_strlit("infinity");
    reveal_strlit("nan");
    assert(text::lowered(e) =~= e);
    assert(e.skip(0) =~= e);
}

proof fn lemma_number(sign: Seq<char>, a: Seq<char>, b: Seq<char>, point: bool, end: Seq<char>)
    requires
        a.len() > 0,
        text::all_digits(a),
        text::all_digits(b),
        sign.len() == 0 || sign == seq!['-'] || sign == seq!['+'],
        end.len() == 0 || (point && end == seq!['.']),
    ensures
        gpx::is_number(
            sign + a + (if point {
                seq!['.'] + b
            } else {
                Seq::empty()
            }) + end,
        ) == (end.len() == 0),
{
    let rest = if point {
        seq!['.'] + b
    } else {
        Seq::empty()
    };
    let t = sign + a + rest + end;
    let s = text::lowered(t);
    assert(s =~= t) by {
        assert forall|k: int| 0 <= k < t.len() implies text::lower(#[trigger] t[k]) == t[k] by {
            let n = sign.len() + a.len();
            if k < sign.len() {
                assert(t[k] == sign[k]);
            } else if k < n {
                assert(t[k] == a[k - sign.len()]);
            } else if k < n + rest.len() {
                assert(t[k] == rest[k - n]);
                if k > n {
                    assert(rest[k - n] == b[k - n - 1]);
                }
            } else {
                assert(t[k] == end[k - n - rest.len()]);
            }
        }
    }
    let i = sign.len() as int;
    let w = (sign.len() + a.len()) as int;
    assert(s[i] == a[0]);
    if i > 0 {
        assert(s[0] == sign[0]);
    }
    assert forall|k: int| i <= k < w implies text::is_digit(#[trigger] s[k]) by {
        assert(s[k] == a[k - i]);
    }
    if point {
        assert(s[w] == '.');
    }
    lemma_run(s, i, w);
    if point {
        let z = w + 1 + b.len();
        assert forall|k: int| w + 1 <= k < z implies text::is_digit(#[trigger] s[k]) by {
            assert(s[k] == b[k - w - 1]);
        }
        if z < s.len() {
            assert(s[z] == '.');
        }
        lemma_run(s, w + 1, z);
    }
    reveal_strlit("inf");
    reveal_strlit("infinity");
    reveal_strlit("nan");
    assert("inf"@[0] == 'i' && "infinity"@[0] == 'i' && "nan"@[0] == 'n');
    assert(s.skip(i)[0] == s[i]);
}

} // verus!
