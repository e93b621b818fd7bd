//! What setting, removing and turning come to.

use vstd::prelude::*;
use vstd::string::*;
use crate::cli::{CopyArgs, RotateArgs, SetArgs};
use crate::exif;
use crate::exif::{Position, RotateOp};
use crate::iptc;
use crate::tagcmd;
use crate::tags;
use crate::tags::{IfdInfo, TagInfo};
use crate::text;

verus! {

// ---- names ------------------------------------------------------------------------------

/// The tags that can be set by name are those of the EXIF standard: artist, copyright,
/// description, software, camera, lens, owner, serial number and image id. `n` is the name in
/// lower case without marks.
pub proof fn names_are_standard_tags(name: Seq<char>, n: Seq<char>)
    requires
        n == iptc::canonical(name),
    ensures
        n == "artist"@ ==> exif::text_place(name) == Some((0u8, 0x013bu16)),
        n == "copyright"@ ==> exif::text_place(name) == Some((0u8, 0x8298u16)),
        n == "description"@ || n == "imagedescription"@ ==> exif::text_place(name) == Some((0u8, 0x010eu16)),
        n == "software"@ ==> exif::text_place(name) == Some((0u8, 0x0131u16)),
        n == "make"@ ==> exif::text_place(name) == Some((0u8, 0x010fu16)),
        n == "model"@ ==> exif::text_place(name) == Some((0u8, 0x0110u16)),
        n == "lensmake"@ ==> exif::text_place(name) == Some((1u8, 0xa433u16)),
        n == "lensmodel"@ ==> exif::text_place(name) == Some((1u8, 0xa434u16)),
        n == "owner"@ || n == "ownername"@ ==> exif::text_place(name) == Some((1u8, 0xa430u16)),
        n == "serial"@ || n == "serialnumber"@ ==> exif::text_place(name) == Some((1u8, 0xa431u16)),
        n == "imageid"@ || n == "imageuniqueid"@ ==> exif::text_place(name) == Some((1u8, 0xa420u16)),
        exif::text_place(name) is Some ==> exif::tag_place(name) == exif::text_place(name),
        n == "orientation"@ ==> exif::tag_place(name) == Some((0u8, 0x0112u16)),
        n == "usercomment"@ ==> exif::tag_place(name) == Some((1u8, 0x9286u16)),
        n == "datetimeoriginal"@ || n == "original"@ ==> exif::tag_place(name) == Some((1u8, 0x9003u16)),
        n == "createdate"@ || n == "digitized"@ || n == "datetimedigitized"@ ==> exif::tag_place(name) == Some(
            (1u8, 0x9004u16),
        ),
        n == "modifydate"@ || n == "modify"@ || n == "datetime"@ ==> exif::tag_place(name) == Some((0u8, 0x0132u16)),
{
    lemma_name_letters(n);
}

proof fn lemma_name_letters(n: Seq<char>)
    ensures
        "artist"@.len() == 6 && "artist"@[0] == 'a',
        "copyright"@.len() == 9 && "copyright"@[0] == 'c' && "copyright"@[1] == 'o',
        "description"@.len() == 11 && "description"@[0] == 'd',
        "imagedescription"@.len() == 16 && "imagedescription"@[0] == 'i',
        "software"@.len() == 8 && "software"@[0] == 's' && "software"@[1] == 'o',
        "make"@.len() == 4 && "make"@[0] == 'm',
        "model"@.len() == 5 && "model"@[0] == 'm',
        "lensmake"@.len() == 8 && "lensmake"@[0] == 'l',
        "lensmodel"@.len() == 9 && "lensmodel"@[0] == 'l',
        "owner"@.len() == 5 && "owner"@[0] == 'o',
        "ownername"@.len() == 9 && "ownername"@[0] == 'o' && "ownername"@[1] == 'w',
        "serial"@.len() == 6 && "serial"@[0] == 's',
        "serialnumber"@.len() == 12,
        "imageid"@.len() == 7,
        "imageuniqueid"@.len() == 13,
        "orientation"@.len() == 11 && "orientation"@[0] == 'o',
        "usercomment"@.len() == 11 && "usercomment"@[0] == 'u',
        "datetimeoriginal"@.len() == 16 && "datetimeoriginal"@[0] == 'd',
        "original"@.len() == 8 && "original"@[0] == 'o',
        "createdate"@.len() == 10 && "createdate"@[0] == 'c',
        "digitized"@.len() == 9 && "digitized"@[0] == 'd',
        "datetimedigitized"@.len() == 17,
        "modifydate"@.len() == 10 && "modifydate"@[0] == 'm',
        "modify"@.len() == 6 && "modify"@[0] == 'm',
        "datetime"@.len() == 8 && "datetime"@[0] == 'd',
{
    reveal_strlit("artist");
    reveal_strlit("copyright");
    reveal_strlit("description");
    reveal_strlit("imagedescription");
    reveal_strlit("software");
    reveal_strlit("make");
    reveal_strlit("model");
    reveal_strlit("lensmake");
    reveal_strlit("lensmodel");
    reveal_strlit("owner");
    reveal_strlit("ownername");
    reveal_strlit("serial");
    reveal_strlit("serialnumber");
    reveal_strlit("imageid");
    reveal_strlit("imageuniqueid");
    reveal_strlit("orientation");
    reveal_strlit("usercomment");
    reveal_strlit("datetimeoriginal");
    reveal_strlit("original");
    reveal_strlit("createdate");
    reveal_strlit("digitized");
    reveal_strlit("datetimedigitized");
    reveal_strlit("modifydate");
    reveal_strlit("modify");
    reveal_strlit("datetime");
}

// ---- requests ---------------------------------------------------------------------------

/// How many of these are given.
pub open spec fn given(o: Option<String>) -> int {
    if o is Some {
        1
    } else {
        0
    }
}

proof fn lemma_in_front(a: Seq<TagInfo>, b: Seq<TagInfo>, t: TagInfo)
    ensures
        a.contains(t) ==> (a + b).contains(t),
        b.contains(t) ==> (a + b).contains(t),
{
    if a.contains(t) {
        let i = choose|i: int| 0 <= i < a.len() && a[i] == t;
        assert((a + b)[i] == t);
    }
    if b.contains(t) {
        let i = choose|i: int| 0 <= i < b.len() && b[i] == t;
        assert((a + b)[a.len() + i] == t);
    }
}

/// Each option of a request sets its own tag to its own value, and no option sets more than one.
pub proof fn options_set_their_tags(a: SetArgs)
    ensures
        a.artist matches Some(x) ==> tagcmd::named_tags(a).contains(exif::text_info(0, 0x013b, x@)),
        a.copyright matches Some(x) ==> tagcmd::named_tags(a).contains(exif::text_info(0, 0x8298, x@)),
        a.description matches Some(x) ==> tagcmd::named_tags(a).contains(exif::text_info(0, 0x010e, x@)),
        a.software matches Some(x) ==> tagcmd::named_tags(a).contains(exif::text_info(0, 0x0131, x@)),
        a.make matches Some(x) ==> tagcmd::named_tags(a).contains(exif::text_info(0, 0x010f, x@)),
        a.model matches Some(x) ==> tagcmd::named_tags(a).contains(exif::text_info(0, 0x0110, x@)),
        a.lens_model matches Some(x) ==> tagcmd::named_tags(a).contains(exif::text_info(1, 0xa434, x@)),
        a.owner matches Some(x) ==> tagcmd::named_tags(a).contains(exif::text_info(1, 0xa430, x@)),
        a.user_comment matches Some(x) ==> tagcmd::named_tags(a).contains(exif::comment_info(x@)),
        tagcmd::named_tags(a).len() == given(a.artist) + given(a.copyright) + given(a.description) + given(a.software)
            + given(a.make) + given(a.model) + given(a.lens_model) + given(a.owner) + given(a.user_comment),
{
    let p1 = tagcmd::text_option(0, 0x013b, a.artist);
    let p2 = tagcmd::text_option(0, 0x8298, a.copyright);
    let p3 = tagcmd::text_option(0, 0x010e, a.description);
    let p4 = tagcmd::text_option(0, 0x0131, a.software);
    let p5 = tagcmd::text_option(0, 0x010f, a.make);
    let p6 = tagcmd::text_option(0, 0x0110, a.model);
    let p7 = tagcmd::text_option(1, 0xa434, a.lens_model);
    let p8 = tagcmd::text_option(1, 0xa430, a.owner);
    let p9: Seq<TagInfo> = match a.user_comment {
        Some(s) => seq![exif::comment_info(s@)],
        None => Seq::empty(),
    };
    let s2 = p1 + p2;
    let s3 = s2 + p3;
    let s4 = s3 + p4;
    let s5 = s4 + p5;
    let s6 = s5 + p6;
    let s7 = s6 + p7;
    let s8 = s7 + p8;
    let s9 = s8 + p9;
    assert(s9 == tagcmd::named_tags(a));
    if let Some(x) = a.artist {
        let t = exif::text_info(0, 0x013b, x@);
        assert(p1[0] == t);
        lemma_in_front(p1, p2, t);
        lemma_in_front(s2, p3, t);
        lemma_in_front(s3, p4, t);
        lemma_in_front(s4, p5, t);
        lemma_in_front(s5, p6, t);
        lemma_in_front(s6, p7, t);
        lemma_in_front(s7, p8, t);
        lemma_in_front(s8, p9, t);
    }
    if let Some(x) = a.copyright {
        let t = exif::text_info(0, 0x8298, x@);
        assert(p2[0] == t);
        lemma_in_front(p1, p2, t);
        lemma_in_front(s2, p3, t);
        lemma_in_front(s3, p4, t);
        lemma_in_front(s4, p5, t);
        lemma_in_front(s5, p6, t);
        lemma_in_front(s6, p7, t);
        lemma_in_front(s7, p8, t);
        lemma_in_front(s8, p9, t);
    }
    if let Some(x) = a.description {
        let t = exif::text_info(0, 0x010e, x@);
        assert(p3[0] == t);
        lemma_in_front(s2, p3, t);
        lemma_in_front(s3, p4, t);
        lemma_in_front(s4, p5, t);
        lemma_in_front(s5, p6, t);
        lemma_in_front(s6, p7, t);
        lemma_in_front(s7, p8, t);
        lemma_in_front(s8, p9, t);
    }
    if let Some(x) = a.software {
        let t = exif::text_info(0, 0x0131, x@);
        assert(p4[0] == t);
        lemma_in_front(s3, p4, t);
        lemma_in_front(s4, p5, t);
        lemma_in_front(s5, p6, t);
        lemma_in_front(s6, p7, t);
        lemma_in_front(s7, p8, t);
        lemma_in_front(s8, p9, t);
    }
    if let Some(x) = a.make {
        let t = exif::text_info(0, 0x010f, x@);
        assert(p5[0] == t);
        lemma_in_front(s4, p5, t);
        lemma_in_front(s5, p6, t);
        lemma_in_front(s6, p7, t);
        lemma_in_front(s7, p8, t);
        lemma_in_front(s8, p9, t);
    }
    if let Some(x) = a.model {
        let t = exif::text_info(0, 0x0110, x@);
        assert(p6[0] == t);
        lemma_in_front(s5, p6, t);
        lemma_in_front(s6, p7, t);
        lemma_in_front(s7, p8, t);
        lemma_in_front(s8, p9, t);
    }
    if let Some(x) = a.lens_model {
        let t = exif::text_info(1, 0xa434, x@);
        assert(p7[0] == t);
        lemma_in_front(s6, p7, t);
        lemma_in_front(s7, p8, t);
        lemma_in_front(s8, p9, t);
    }
    if let Some(x) = a.owner {
        let t = exif::text_info(1, 0xa430, x@);
        assert(p8[0] == t);
        lemma_in_front(s7, p8, t);
        lemma_in_front(s8, p9, t);
    }
    if let Some(x) = a.user_comment {
        let t = exif::comment_info(x@);
        assert(p9[0] == t);
        lemma_in_front(s8, p9, t);
    }
}

/// Whether a pair sets this tag: what stands before its first `=` names the tag, what stands
/// behind is the value.
pub open spec fn pair_sets(pair: Seq<char>, t: TagInfo) -> bool {
    match text::cut_at(pair, '=') {
        Some((left, value)) => match exif::text_place(text::trimmed(left)) {
            Some((group, hex)) => t == exif::text_info(group, hex, value),
            None => false,
        },
        None => false,
    }
}

/// Whether a pair names a tag that can be set.
pub open spec fn pair_names_tag(pair: Seq<char>) -> bool {
    match text::cut_at(pair, '=') {
        Some((left, value)) => exif::text_place(text::trimmed(left)) is Some,
        None => false,
    }
}

/// Each pair of name and value sets its tag, in the order of the pairs, behind the tags that are
/// set already; one that names no tag fails the request.
pub proof fn pairs_set_their_tags(pairs: Seq<Seq<char>>, i: int, v: Seq<TagInfo>)
    requires
        0 <= i <= pairs.len(),
    ensures
        tagcmd::paired_tags(pairs, i, v) matches Ok(w) ==> w.len() == v.len() + pairs.len() - i && w.take(
            v.len() as int,
        ) == v && forall|k: int|
            i <= k < pairs.len() ==> pair_sets(#[trigger] pairs[k], w[v.len() + k - i]),
        tagcmd::paired_tags(pairs, i, v) is Err ==> exists|k: int|
            i <= k < pairs.len() && !pair_names_tag(#[trigger] pairs[k]),
    decreases pairs.len() - i,
{
    if i < pairs.len() {
        match text::cut_at(pairs[i], '=') {
            Some((left, value)) => match exif::text_place(text::trimmed(left)) {
                Some((group, hex)) => {
                    let t = exif::text_info(group, hex, value);
                    pairs_set_their_tags(pairs, i + 1, v.push(t));
                    if let Ok(w) = tagcmd::paired_tags(pairs, i, v) {
                        assert(w.take(v.len() as int) =~= w.take((v.len() + 1) as int).take(v.len() as int));
                        assert(v.push(t).take(v.len() as int) =~= v);
                        assert(w.take((v.len() + 1) as int)[v.len() as int] == t);
                        assert forall|k: int| i <= k < pairs.len() implies pair_sets(
                            #[trigger] pairs[k],
                            w[v.len() + k - i],
                        ) by {
                            if k > i {
                                assert(pair_sets(pairs[k], w[v.push(t).len() + k - (i + 1)]));
                            }
                        }
                    } else {
                        let k = choose|k: int|
                            i + 1 <= k < pairs.len() && !pair_names_tag(#[trigger] pairs[k]);
                        assert(i <= k < pairs.len());
                    }
                },
                None => {
                    assert(!pair_names_tag(pairs[i]));
                },
            },
            None => {
                assert(!pair_names_tag(pairs[i]));
            },
        }
    } else {
        assert(v.take(v.len() as int) =~= v);
    }
}

/// Whether a name is that of this tag.
pub open spec fn names_tag(name: Seq<char>, group: u8, hex: u16) -> bool {
    exif::tag_place(name) == Some((group, hex))
}

/// Tags that are removed by name are gone, and all others stay as they were.
pub proof fn named_tags_are_removed(s: Seq<IfdInfo>, names: Seq<Seq<char>>, i: int, group: u8, hex: u16)
    requires
        0 <= i <= names.len(),
    ensures
        tagcmd::without_named(s, names, i) matches Ok(c) ==> {
            &&& (forall|k: int| i <= k < names.len() ==> !names_tag(#[trigger] names[k], group, hex))
                ==> tags::first_tag(c, group, hex) == tags::first_tag(s, group, hex)
            &&& tags::within_images(s, group) && (exists|k: int|
                i <= k < names.len() && names_tag(#[trigger] names[k], group, hex)) ==> tags::first_tag(c, group, hex)
                is None
            &&& tags::first_tag(s, group, hex) is None ==> tags::first_tag(c, group, hex) is None
        },
    decreases names.len() - i,
{
    if i < names.len() {
        if let Some((g, h)) = exif::tag_place(names[i]) {
            let next = tags::without_tag(s, h, g);
            named_tags_are_removed(next, names, i + 1, group, hex);
            tags::removal_keeps_ifds(s, h, g);
            assert(tags::within_images(next, group) == tags::within_images(s, group));
            if g != group || h != hex {
                tags::removal_keeps_others(s, h, g, group, hex);
                assert(!names_tag(names[i], group, hex));
                if exists|k: int| i <= k < names.len() && names_tag(#[trigger] names[k], group, hex) {
                    let k = choose|k: int| i <= k < names.len() && names_tag(#[trigger] names[k], group, hex);
                    assert(i + 1 <= k < names.len());
                }
            } else {
                assert(names_tag(names[i], group, hex));
                if tags::within_images(s, group) {
                    tags::removed_tag_is_gone(s, h, g);
                }
                if tags::first_tag(s, group, hex) is None {
                    tags::lemma_removal_brings_none(s, h, g);
                }
            }
        }
    }
}

// ---- turning ----------------------------------------------------------------------------

/// The words for orientations mean what turning or mirroring a normal picture gives, and a number
/// from 1 to 8 means itself.
pub proof fn words_are_turns(w: Seq<char>)
    ensures
        w == "cw"@ || w == "cw90"@ || w == "90"@ || w == "rotate-cw"@ ==> exif::orientation_code(w) == Some(
            exif::turned(1, RotateOp::Cw),
        ),
        w == "ccw"@ || w == "ccw90"@ || w == "270"@ || w == "rotate-ccw"@ ==> exif::orientation_code(w) == Some(
            exif::turned(1, RotateOp::Ccw),
        ),
        w == "180"@ || w == "rotate-180"@ || w == "bottom-right"@ || w == "br"@ ==> exif::orientation_code(w) == Some(
            exif::turned(1, RotateOp::Rot180),
        ),
        w == "mirror-h"@ || w == "flip-h"@ ==> exif::orientation_code(w) == Some(exif::turned(1, RotateOp::FlipH)),
        w == "mirror-v"@ || w == "flip-v"@ ==> exif::orientation_code(w) == Some(exif::turned(1, RotateOp::FlipV)),
        w == "mirror-h-cw"@ ==> exif::orientation_code(w) == Some(5u16),
        w == "mirror-h-ccw"@ ==> exif::orientation_code(w) == Some(7u16),
        w == "normal"@ || w == "top-left"@ || w == "tl"@ ==> exif::orientation_code(w) == Some(
            exif::turned(1, RotateOp::Reset),
        ),
        forall|n: nat| 1 <= n <= 8 && w == #[trigger] text::dec(n) ==> exif::orientation_code(w) == Some(n as u16),
{
    reveal_strlit("1");
    reveal_strlit("2");
    reveal_strlit("3");
    reveal_strlit("4");
    reveal_strlit("5");
    reveal_strlit("6");
    reveal_strlit("7");
    reveal_strlit("8");
    reveal_strlit("normal");
    reveal_strlit("top-left");
    reveal_strlit("tl");
    reveal_strlit("mirror-h");
    reveal_strlit("flip-h");
    reveal_strlit("180");
    reveal_strlit("rotate-180");
    reveal_strlit("bottom-right");
    reveal_strlit("br");
    reveal_strlit("mirror-v");
    reveal_strlit("flip-v");
    reveal_strlit("mirror-h-cw");
    reveal_strlit("cw");
    reveal_strlit("cw90");
    reveal_strlit("90");
    reveal_strlit("rotate-cw");
    reveal_strlit("mirror-h-ccw");
    reveal_strlit("ccw");
    reveal_strlit("ccw90");
    reveal_strlit("270");
    reveal_strlit("rotate-ccw");
    assert("tl"@[0] == 't' && "br"@[0] == 'b' && "cw"@[0] == 'c' && "90"@[0] == '9');
    assert("180"@[0] == '1' && "ccw"@[0] == 'c' && "270"@[0] == '2');
    assert("normal"@[0] == 'n' && "flip-h"@[0] == 'f' && "flip-v"@[0] == 'f' && "flip-h"@[5] == 'h' && "flip-v"@[5]
        == 'v');
    assert("top-left"@[0] == 't' && "mirror-h"@[0] == 'm' && "mirror-v"@[0] == 'm' && "mirror-h"@[7] == 'h'
        && "mirror-v"@[7] == 'v');
    assert("rotate-180"@[7] == '1' && "rotate-ccw"@[7] == 'c' && "rotate-cw"@.len() == 9);
    exif::turns_follow_table(1, RotateOp::Cw);
    exif::turns_follow_table(1, RotateOp::Ccw);
    exif::turns_follow_table(1, RotateOp::Rot180);
    exif::turns_follow_table(1, RotateOp::FlipH);
    exif::turns_follow_table(1, RotateOp::FlipV);
    assert(exif::turn_table(1, RotateOp::Cw) == 6 && exif::turn_table(1, RotateOp::Ccw) == 8);
    assert("bottom-right"@.len() == 12 && "bottom-right"@[0] == 'b' && "mirror-h-ccw"@.len() == 12
        && "mirror-h-ccw"@[0] == 'm' && "mirror-h-cw"@.len() == 11);
    assert("normal"@.len() == 6 && "top-left"@.len() == 8 && "tl"@.len() == 2 && "br"@.len() == 2 && "cw"@.len() == 2);
    assert("ccw"@.len() == 3 && "ccw"@[1] == 'c' && "180"@.len() == 3 && "270"@.len() == 3 && "90"@.len() == 2);
    assert("1"@.len() == 1 && "2"@.len() == 1 && "3"@.len() == 1 && "4"@.len() == 1 && "5"@.len() == 1);
    assert("6"@.len() == 1 && "7"@.len() == 1 && "8"@.len() == 1 && "flip-h"@.len() == 6 && "flip-v"@.len() == 6);
    assert("cw90"@.len() == 4 && "ccw90"@.len() == 5 && "rotate-ccw"@.len() == 10 && "rotate-180"@.len() == 10);
    assert forall|n: nat| 1 <= n <= 8 && w == #[trigger] text::dec(n) implies exif::orientation_code(w) == Some(
        n as u16,
    ) by {
        assert(w =~= seq![text::digit(n as int)]);
        assert("1"@ =~= seq!['1'] && "2"@ =~= seq!['2'] && "3"@ =~= seq!['3'] && "4"@ =~= seq!['4']);
        assert("5"@ =~= seq!['5'] && "6"@ =~= seq!['6'] && "7"@ =~= seq!['7'] && "8"@ =~= seq!['8']);
        assert(w[0] == text::digit(n as int));
    }
}

/// What an orientation is called is what led there from the normal one.
pub proof fn orientations_are_called_by_turns()
    ensures
        exif::orientation_text(exif::turned(1, RotateOp::Reset)) == "正常"@,
        exif::orientation_text(exif::turned(1, RotateOp::FlipH)) == tagcmd::operation_text(RotateOp::FlipH),
        exif::orientation_text(exif::turned(1, RotateOp::FlipV)) == tagcmd::operation_text(RotateOp::FlipV),
        exif::orientation_text(exif::turned(1, RotateOp::FlipH)) == "水平镜像"@,
        exif::orientation_text(exif::turned(1, RotateOp::FlipV)) == "垂直镜像"@,
        exif::orientation_text(exif::turned(1, RotateOp::Rot180)) == "旋转180°"@,
        exif::orientation_text(exif::turned(1, RotateOp::Cw)) == "顺时针90°"@,
        exif::orientation_text(exif::turned(1, RotateOp::Ccw)) == "逆时针90°"@,
        exif::orientation_text(5) == "转置"@,
        exif::orientation_text(7) == "反对角镜像"@,
        forall|code: u16| code == 0 || code > 8 ==> #[trigger] exif::orientation_text(code) == "未知"@,
        tagcmd::operation_text(RotateOp::Cw) == "顺时针 90°"@,
        tagcmd::operation_text(RotateOp::Ccw) == "逆时针 90°"@,
        tagcmd::operation_text(RotateOp::Rot180) == "旋转 180°"@,
        tagcmd::operation_text(RotateOp::Reset) == "重置为正常"@,
{
    exif::turns_follow_table(1, RotateOp::Cw);
    exif::turns_follow_table(1, RotateOp::Ccw);
    exif::turns_follow_table(1, RotateOp::Rot180);
    exif::turns_follow_table(1, RotateOp::FlipH);
    exif::turns_follow_table(1, RotateOp::FlipV);
}

/// A request that asks for one turn or mirroring gets it; one that asks for none of them resets.
pub proof fn asked_turn_is_made(a: RotateArgs)
    ensures
        a.cw && !a.ccw && !a.r180 && !a.flip_h && !a.flip_v ==> tagcmd::operation_of(a) == RotateOp::Cw,
        !a.cw && a.ccw && !a.r180 && !a.flip_h && !a.flip_v ==> tagcmd::operation_of(a) == RotateOp::Ccw,
        !a.cw && !a.ccw && a.r180 && !a.flip_h && !a.flip_v ==> tagcmd::operation_of(a) == RotateOp::Rot180,
        !a.cw && !a.ccw && !a.r180 && a.flip_h && !a.flip_v ==> tagcmd::operation_of(a) == RotateOp::FlipH,
        !a.cw && !a.ccw && !a.r180 && !a.flip_h && a.flip_v ==> tagcmd::operation_of(a) == RotateOp::FlipV,
        !a.cw && !a.ccw && !a.r180 && !a.flip_h && !a.flip_v ==> tagcmd::operation_of(a) == RotateOp::Reset,
{
}

/// After a turn, the orientation that is read is the old one with the turn added, and nothing but
/// the orientation has changed.
pub proof fn turn_is_written(s: Seq<IfdInfo>, op: RotateOp, group: u8, hex: u16)
    requires
        tags::ifds_ok(s),
    ensures
        ({
            let next = exif::turned(exif::orientation_of(s), op);
            let c = tags::with_tag(s, exif::orientation_info(next));
            &&& exif::orientation_of(c) == next
            &&& group != 0 || hex != 0x0112 ==> tags::first_tag(c, group, hex) == tags::first_tag(s, group, hex)
        }),
{
    let code = exif::orientation_of(s);
    exif::turns_follow_table(code, op);
    let next = exif::turned(code, op);
    exif::written_orientation_reads_back(s, next);
    if group != 0 || hex != 0x0112 {
        tags::set_tag_keeps_others(s, exif::orientation_info(next), group, hex);
    }
}

// ---- copying and the position -----------------------------------------------------------

/// A copy takes what it is asked for, and everything where it is asked for nothing.
pub proof fn scope_is_what_is_asked(a: CopyArgs)
    ensures
        a.all || a.time || a.gps ==> tagcmd::scope_of(a) == (a.all, a.time, a.gps),
        !a.all && !a.time && !a.gps ==> tagcmd::scope_of(a) == (true, false, false),
        tagcmd::scope_text(true, a.time, a.gps) == "全部可复制的元数据"@,
        tagcmd::scope_text(false, true, false) == "拍摄时间"@,
        tagcmd::scope_text(false, false, true) == "GPS"@,
        tagcmd::scope_text(false, true, true) == "拍摄时间"@ + "、"@ + "GPS"@,
{
    let (t, g) = ("拍摄时间"@, "GPS"@);
    reveal_with_fuel(text::joined, 3);
    assert(text::when_listed(true, t) + text::when_listed(false, g) =~= seq![t]);
    assert(text::when_listed(false, t) + text::when_listed(true, g) =~= seq![g]);
    let both = text::when_listed(true, t) + text::when_listed(true, g);
    assert(both =~= seq![t, g]);
    assert(both.drop_last() =~= seq![t]);
}

/// A position that is set is the one that is read; one that is cleared is gone, with its height;
/// and no other tag changes either way.
pub proof fn position_is_changed(s: Seq<IfdInfo>, clear: bool, at: Option<Position>, group: u8, hex: u16)
    requires
        tags::ifds_ok(s),
        tags::within_images(s, 3),
    ensures
        clear && at is None ==> exif::position_of(tagcmd::with_position(s, clear, at)) is None,
        at matches Some(p) && (p.alt is Some || clear || tags::first_tag(s, 3, 6) is None)
            ==> exif::position_of(tagcmd::with_position(s, clear, at)) == at,
        !clear && at is None ==> tagcmd::with_position(s, clear, at) == s,
        group < 3 && !(group == 0 && hex == 0x8825) ==> tags::first_tag(tagcmd::with_position(s, clear, at), group, hex)
            == tags::first_tag(s, group, hex),
{
    let a = if clear {
        exif::without_gps(s)
    } else {
        s
    };
    if clear {
        exif::removed_gps_is_gone(s, 6);
        exif::lemma_without_gps(s);
        if group < 3 && !(group == 0 && hex == 0x8825) {
            exif::gps_removal_keeps_others(s, group, hex);
        }
    }
    if let Some(p) = at {
        if p.alt is Some || clear || tags::first_tag(s, 3, 6) is None {
            exif::written_position_reads_back(a, p);
        }
        if group < 3 && !(group == 0 && hex == 0x8825) {
            let v = exif::position_tags(p);
            exif::lemma_position_groups(p);
            exif::lemma_not_set(v, group, hex);
            exif::set_tags_are_found(a, v, group, hex);
        }
    }
}

} // verus!
