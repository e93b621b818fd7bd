//! What a copy of metadata brings along.

use vstd::prelude::*;
use crate::exif;
use crate::tags;
use crate::tags::{IfdInfo, TagInfo};

verus! {

/// Whether a tag of the source is asked for: with `all` whatever does not describe the stored
/// picture or lead to another directory; otherwise the times with `time` and the GPS tags with
/// `gps`.
pub open spec fn asked_for(t: TagInfo, all: bool, time: bool, gps: bool) -> bool {
    ||| all && ![
        0x0100u16,
        0x0101,
        0x0102,
        0x0103,
        0x0106,
        0x0111,
        0x0112,
        0x0115,
        0x0116,
        0x0117,
        0x011c,
        0x0201,
        0x0202,
        0x8769,
        0x8825,
        0xa002,
        0xa003,
        0xa005,
    ]@.contains(t.hex)
    ||| !all && time && [
        0x0132u16,
        0x9003,
        0x9004,
        0x9010,
        0x9011,
        0x9012,
        0x9290,
        0x9291,
        0x9292,
    ]@.contains(t.hex)
    ||| !all && gps && t.group == tags::GPS
}

proof fn lemma_asked_for(t: TagInfo, all: bool, time: bool, gps: bool)
    requires
        asked_for(t, all, time, gps),
    ensures
        exif::is_taken(t, all, time, gps),
{
    if all {
        let kept = [
            0x0100u16,
            0x0101,
            0x0102,
            0x0103,
            0x0106,
            0x0111,
            0x0112,
            0x0115,
            0x0116,
            0x0117,
            0x011c,
            0x0201,
            0x0202,
            0x8769,
            0x8825,
            0xa002,
            0xa003,
            0xa005,
        ]@;
        assert(kept[0] == 0x0100 && kept[1] == 0x0101 && kept[2] == 0x0102 && kept[3] == 0x0103 && kept[4] == 0x0106
            && kept[5] == 0x0111 && kept[6] == 0x0112 && kept[7] == 0x0115 && kept[8] == 0x0116);
        assert(kept[9] == 0x0117 && kept[10] == 0x011c && kept[11] == 0x0201 && kept[12] == 0x0202 && kept[13]
            == 0x8769 && kept[14] == 0x8825 && kept[15] == 0xa002 && kept[16] == 0xa003 && kept[17] == 0xa005);
    }
}

/// Among the tags that are copied, the last of a number is the last of it in the source, if that
/// one is copied.
proof fn lemma_last_taken(v: Seq<TagInfo>, all: bool, time: bool, gps: bool, group: u8, hex: u16)
    requires
        exif::last_set(v, group, hex) is Some,
        exif::is_taken(exif::last_set(v, group, hex)->0, all, time, gps),
    ensures
        exif::last_set(exif::taken(v, all, time, gps), group, hex) == exif::last_set(v, group, hex),
        exif::taken(v, all, time, gps).len() > 0,
    decreases v.len(),
{
    let init = v.drop_last();
    let front = exif::taken(init, all, time, gps);
    assert(front.push(v.last()).drop_last() =~= front);
    if !(v.last().group == group && v.last().hex == hex) {
        lemma_last_taken(init, all, time, gps, group, hex);
    }
}

proof fn lemma_none_taken(v: Seq<TagInfo>, all: bool, time: bool, gps: bool, group: u8, hex: u16)
    requires
        exif::last_set(v, group, hex) is None,
    ensures
        exif::last_set(exif::taken(v, all, time, gps), group, hex) is None,
    decreases v.len(),
{
    if v.len() > 0 {
        lemma_none_taken(v.drop_last(), all, time, gps, group, hex);
        let front = exif::taken(v.drop_last(), all, time, gps);
        assert(front.push(v.last()).drop_last() =~= front);
    }
}

proof fn lemma_groups(from: Seq<IfdInfo>, all: bool, time: bool, gps: bool)
    requires
        tags::tags_ok(from),
    ensures
        forall|i: int|
            0 <= i < exif::copied(from, all, time, gps).len() ==> (#[trigger] exif::copied(from, all, time, gps)[i]).group
                <= 3,
{
    exif::lemma_all_tags(from);
    exif::lemma_taken(exif::all_tags(from), all, time, gps);
    let v = exif::copied(from, all, time, gps);
    assert forall|i: int| 0 <= i < v.len() implies (#[trigger] v[i]).group <= 3 by {
        let k = choose|k: int| 0 <= k < exif::all_tags(from).len() && exif::all_tags(from)[k] == v[i];
        assert(exif::all_tags(from)[k].group <= 3);
    }
}

/// The last of the tags one behind the other, from the `i`th directory on.
proof fn lemma_last_in(s: Seq<IfdInfo>, i: int, j: int)
    requires
        0 <= i < s.len(),
        0 <= j < s[i].tags.len(),
        forall|k: int, l: int|
            i <= k < s.len() && 0 <= l < s[k].tags.len() && (k > i || l > j) ==> !((#[trigger] s[k].tags[l]).group
                == s[i].tags[j].group && s[k].tags[l].hex == s[i].tags[j].hex),
    ensures
        exif::last_set(exif::all_tags(s), s[i].tags[j].group, s[i].tags[j].hex) == Some(s[i].tags[j]),
    decreases s.len(),
{
    let t = s[i].tags[j];
    let last = s.len() - 1;
    let front = exif::all_tags(s.drop_last());
    let own = s[last].tags;
    if i == last {
        lemma_last_of_concat(front, own.take(j + 1), t);
        assert((front + own.take(j + 1)).last() == t);
        lemma_rest_is_other(front, own, j + 1, t);
    } else {
        assert forall|k: int, l: int|
            i <= k < s.drop_last().len() && 0 <= l < s.drop_last()[k].tags.len() && (k > i || l > j) implies !((
        #[trigger] s.drop_last()[k].tags[l]).group == t.group && s.drop_last()[k].tags[l].hex == t.hex) by {
            assert(s.drop_last()[k] == s[k]);
            assert(!(s[k].tags[l].group == t.group && s[k].tags[l].hex == t.hex));
        }
        assert(s.drop_last()[i] == s[i]);
        lemma_last_in(s.drop_last(), i, j);
        assert forall|l: int| 0 <= l < own.len() implies !((#[trigger] own[l]).group == t.group && own[l].hex
            == t.hex) by {
            assert(s[last].tags[l] == own[l]);
        }
        assert(front + own.take(0) =~= front);
        lemma_rest_is_other(front, own, 0, t);
    }
}

proof fn lemma_last_of_concat(front: Seq<TagInfo>, own: Seq<TagInfo>, t: TagInfo)
    requires
        own.len() > 0,
        own.last() == t,
    ensures
        exif::last_set(front + own, t.group, t.hex) == Some(t),
{
    assert((front + own).last() == t);
}

proof fn lemma_rest_is_other(front: Seq<TagInfo>, own: Seq<TagInfo>, n: int, t: TagInfo)
    requires
        0 <= n <= own.len(),
        forall|l: int| n <= l < own.len() ==> !((#[trigger] own[l]).group == t.group && own[l].hex == t.hex),
    ensures
        exif::last_set(front + own, t.group, t.hex) == exif::last_set(front + own.take(n), t.group, t.hex),
    decreases own.len() - n,
{
    if n == own.len() {
        assert(own.take(n) =~= own);
    } else {
        lemma_rest_is_other(front, own, n + 1, t);
        let s = front + own.take(n + 1);
        assert(s.drop_last() =~= front + own.take(n));
        assert(s.last() == own[n]);
    }
}

/// Every tag of the source that is asked for is in the target afterwards, with the value that it
/// has in the source: where the source has it more than once, with the last.
pub proof fn asked_for_tags_are_copied(
    from: Seq<IfdInfo>,
    to: Seq<IfdInfo>,
    all: bool,
    time: bool,
    gps: bool,
    i: int,
    j: int,
)
    requires
        tags::ifds_ok(to),
        tags::tags_ok(from),
        0 <= i < from.len(),
        0 <= j < from[i].tags.len(),
        asked_for(from[i].tags[j], all, time, gps),
        forall|k: int, l: int|
            i <= k < from.len() && 0 <= l < from[k].tags.len() && (k > i || l > j) ==> !((
            #[trigger] from[k].tags[l]).group == from[i].tags[j].group && from[k].tags[l].hex
                == from[i].tags[j].hex),
    ensures
        tags::first_tag(
            exif::with_tags(to, exif::copied(from, all, time, gps)),
            from[i].tags[j].group,
            from[i].tags[j].hex,
        ) == Some(from[i].tags[j]),
        exif::copied(from, all, time, gps).len() > 0,
{
    let t = from[i].tags[j];
    lemma_asked_for(t, all, time, gps);
    lemma_last_in(from, i, j);
    lemma_last_taken(exif::all_tags(from), all, time, gps, t.group, t.hex);
    lemma_groups(from, all, time, gps);
    exif::set_tags_are_found(to, exif::copied(from, all, time, gps), t.group, t.hex);
}

/// Whether a number is in a group of the source at most once: what is found there first is also
/// the last.
pub open spec fn at_most_once(s: Seq<IfdInfo>, group: u8, hex: u16) -> bool {
    tags::first_tag(s, group, hex) == exif::last_set(exif::all_tags(s), group, hex)
}

proof fn lemma_found(
    from: Seq<IfdInfo>,
    to: Seq<IfdInfo>,
    all: bool,
    time: bool,
    gps: bool,
    group: u8,
    hex: u16,
)
    requires
        tags::ifds_ok(to),
        tags::tags_ok(from),
        at_most_once(from, group, hex),
        forall|t: TagInfo| t.group == group && t.hex == hex ==> #[trigger] asked_for(t, all, time, gps),
    ensures
        tags::first_tag(exif::with_tags(to, exif::copied(from, all, time, gps)), group, hex) == if tags::first_tag(
            from,
            group,
            hex,
        ) is Some {
            tags::first_tag(from, group, hex)
        } else {
            tags::first_tag(to, group, hex)
        },
{
    lemma_groups(from, all, time, gps);
    exif::set_tags_are_found(to, exif::copied(from, all, time, gps), group, hex);
    let v = exif::all_tags(from);
    match exif::last_set(v, group, hex) {
        Some(t) => {
            lemma_set_matches(v, group, hex);
            assert(asked_for(t, all, time, gps));
            lemma_asked_for(t, all, time, gps);
            lemma_last_taken(v, all, time, gps, group, hex);
        },
        None => {
            lemma_none_taken(v, all, time, gps, group, hex);
        },
    }
}

proof fn lemma_set_matches(v: Seq<TagInfo>, group: u8, hex: u16)
    ensures
        exif::last_set(v, group, hex) is Some ==> (exif::last_set(v, group, hex)->0).group == group && (
        exif::last_set(v, group, hex)->0).hex == hex,
    decreases v.len(),
{
    if v.len() > 0 {
        lemma_set_matches(v.drop_last(), group, hex);
    }
}

/// With `gps`, or with everything, the target has the position of the source: its latitude and
/// longitude with their sides, and its height.
pub proof fn position_is_copied(from: Seq<IfdInfo>, to: Seq<IfdInfo>, all: bool, time: bool, gps: bool)
    requires
        tags::ifds_ok(to),
        tags::tags_ok(from),
        all || gps,
        exif::position_of(from) is Some,
        forall|hex: u16|
            1 <= hex <= 6 ==> #[trigger] at_most_once(from, 3, hex) && (tags::first_tag(from, 3, hex) is Some
                || tags::first_tag(to, 3, hex) is None),
    ensures
        exif::position_of(exif::with_tags(to, exif::copied(from, all, time, gps))) == exif::position_of(from),
{
    assert forall|hex: u16| 1 <= hex <= 6 implies #[trigger] tags::first_tag(
        exif::with_tags(to, exif::copied(from, all, time, gps)),
        3,
        hex,
    ) == tags::first_tag(from, 3, hex) by {
        assert(at_most_once(from, 3, hex));
        assert forall|t: TagInfo| t.group == 3 && t.hex == hex implies #[trigger] asked_for(t, all, time, gps) by {}
        lemma_found(from, to, all, time, gps, 3, hex);
    }
}

/// With `time`, or with everything, the target has the capture time of the source.
pub proof fn capture_time_is_copied(from: Seq<IfdInfo>, to: Seq<IfdInfo>, all: bool, time: bool, gps: bool)
    requires
        tags::ifds_ok(to),
        tags::tags_ok(from),
        all || time,
        exif::capture_time(from) is Some,
        at_most_once(from, 1, 0x9003),
        at_most_once(from, 1, 0x9004),
        at_most_once(from, 0, 0x0132),
        tags::first_tag(from, 1, 0x9003) is Some || tags::first_tag(to, 1, 0x9003) is None,
        tags::first_tag(from, 1, 0x9004) is Some || tags::first_tag(to, 1, 0x9004) is None,
        tags::first_tag(from, 0, 0x0132) is Some || tags::first_tag(to, 0, 0x0132) is None,
    ensures
        exif::capture_time(exif::with_tags(to, exif::copied(from, all, time, gps))) == exif::capture_time(from),
{
    let times = [0x0132u16, 0x9003, 0x9004, 0x9010, 0x9011, 0x9012, 0x9290, 0x9291, 0x9292]@;
    assert(times[0] == 0x0132 && times[1] == 0x9003 && times[2] == 0x9004);
    lemma_found(from, to, all, time, gps, 1, 0x9003);
    lemma_found(from, to, all, time, gps, 1, 0x9004);
    lemma_found(from, to, all, time, gps, 0, 0x0132);
}

/// The numbers of the tags that describe how a picture is stored: its size, its layout and its
/// orientation.
pub open spec fn describes_picture(hex: u16) -> bool {
    [
        0x0100u16,
        0x0101,
        0x0102,
        0x0103,
        0x0106,
        0x0112,
        0x0115,
        0x0116,
        0x011c,
        0xa002,
        0xa003,
    ]@.contains(hex)
}

/// Whatever is copied, how the target's own picture is stored stays as it was; and what is not
/// asked for stays as well: without `time` and everything the times, without `gps` and everything
/// the GPS tags, and with `time` alone all that is no time.
pub proof fn picture_and_the_rest_stay(
    from: Seq<IfdInfo>,
    to: Seq<IfdInfo>,
    all: bool,
    time: bool,
    gps: bool,
    group: u8,
    hex: u16,
)
    requires
        tags::ifds_ok(to),
        tags::tags_ok(from),
        (describes_picture(hex) && group != 3) || (!all && !gps && group == 3 && !(0x0132 <= hex <= 0x9292)) || (!all
            && !time && group != 3) || (!all && time && group != 3 && ![
            0x0132u16,
            0x9003,
            0x9004,
            0x9010,
            0x9011,
            0x9012,
            0x9290,
            0x9291,
            0x9292,
        ]@.contains(hex)),
    ensures
        tags::first_tag(exif::with_tags(to, exif::copied(from, all, time, gps)), group, hex) == tags::first_tag(
            to,
            group,
            hex,
        ),
{
    let times = [0x0132u16, 0x9003, 0x9004, 0x9010, 0x9011, 0x9012, 0x9290, 0x9291, 0x9292]@;
    assert(times[0] == 0x0132 && times[1] == 0x9003 && times[2] == 0x9004 && times[3] == 0x9010 && times[4] == 0x9011
        && times[5] == 0x9012 && times[6] == 0x9290 && times[7] == 0x9291 && times[8] == 0x9292);
    exif::copy_keeps_others(from, to, all, time, gps, group, hex);
}

} // verus!
