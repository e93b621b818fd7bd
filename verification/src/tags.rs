//! EXIF metadata as directories of tags. `little_exif` holds, reads and writes it; here is what
//! its operations do to the tags.

use little_exif::endian::Endian;
use little_exif::exif_tag::ExifTag;
use little_exif::exif_tag_format::ExifTagFormat;
use little_exif::filetype::FileExtension;
use little_exif::ifd::ExifTagGroup;
use little_exif::metadata::Metadata;
use little_exif::rational::uR64;
use std::str::FromStr;
use vstd::prelude::*;
use vstd::string::*;
use vstd::utf8::{encode_utf8, valid_utf8};
use crate::intake;
use crate::jpeg;
use crate::jxl;
use crate::png;
use crate::text;
use crate::webp;

verus! {

/// The group of the main directory.
pub const GENERIC: u8 = 0;

/// The group of the EXIF directory.
pub const EXIF: u8 = 1;

/// The group of the interoperability directory.
pub const INTEROP: u8 = 2;

/// The group of the GPS directory.
pub const GPS: u8 = 3;

/// Text, with a zero at its end.
pub const TEXT: u16 = 2;

/// Unsigned bytes.
pub const INT8U: u16 = 1;

/// Unsigned 16-bit numbers.
pub const INT16U: u16 = 3;

/// Unsigned 32-bit numbers.
pub const INT32U: u16 = 4;

/// Unsigned fractions.
pub const RATIONAL64U: u16 = 5;

/// Signed bytes.
pub const INT8S: u16 = 6;

/// Bytes without a meaning.
pub const UNDEF: u16 = 7;

/// Signed 16-bit numbers.
pub const INT16S: u16 = 8;

/// Signed 32-bit numbers.
pub const INT32S: u16 = 9;

/// Signed fractions.
pub const RATIONAL64S: u16 = 10;

/// Single precision numbers.
pub const SINGLE: u16 = 11;

/// Double precision numbers.
pub const DOUBLE: u16 = 12;

/// A tag, with its value as little-endian bytes.
#[derive(Debug)]
pub struct Tag {
    pub group: u8,
    pub hex: u16,
    pub format: u16,
    /// Whether the tag has no known meaning.
    pub unknown: bool,
    pub data: Vec<u8>,
}

/// What a tag says.
pub struct TagInfo {
    pub group: u8,
    pub hex: u16,
    pub format: u16,
    pub unknown: bool,
    pub data: Seq<u8>,
}

impl View for Tag {
    type V = TagInfo;

    open spec fn view(&self) -> TagInfo {
        TagInfo {
            group: self.group,
            hex: self.hex,
            format: self.format,
            unknown: self.unknown,
            data: self.data@,
        }
    }
}

/// A directory of tags.
#[derive(Debug)]
pub struct Ifd {
    pub group: u8,
    /// Which image of the file it belongs to.
    pub number: u32,
    pub tags: Vec<Tag>,
}

/// What a directory says.
pub struct IfdInfo {
    pub group: u8,
    pub number: u32,
    pub tags: Seq<TagInfo>,
}

/// The views of a list of tags.
pub open spec fn tags_view(v: Seq<Tag>) -> Seq<TagInfo> {
    v.map_values(|t: Tag| t@)
}

impl View for Ifd {
    type V = IfdInfo;

    open spec fn view(&self) -> IfdInfo {
        IfdInfo { group: self.group, number: self.number, tags: tags_view(self.tags@) }
    }
}

/// The views of a list of directories.
pub open spec fn ifds_view(v: Seq<Ifd>) -> Seq<IfdInfo> {
    v.map_values(|d: Ifd| d@)
}

// ---- what the operations do -------------------------------------------------------------

/// What directories are ordered by.
pub open spec fn ifd_key(d: IfdInfo) -> int {
    d.number * 4 + d.group
}

/// Whether directories stand in order, each once, and are of known groups.
pub open spec fn ifds_ok(s: Seq<IfdInfo>) -> bool {
    &&& forall|i: int| 0 <= i < s.len() ==> (#[trigger] s[i]).group <= 3
    &&& forall|i: int, j: int|
        0 <= i < j < s.len() ==> ifd_key(#[trigger] s[i]) < ifd_key(#[trigger] s[j])
}

/// Whether all tags are of known groups.
pub open spec fn tags_ok(s: Seq<IfdInfo>) -> bool {
    forall|i: int, j: int|
        0 <= i < s.len() && 0 <= j < s[i].tags.len() ==> (#[trigger] s[i].tags[j]).group <= 3
}

/// The place of a directory.
pub open spec fn ifd_from(s: Seq<IfdInfo>, i: int, group: u8, number: u32) -> Option<int>
    decreases s.len() - i,
{
    if i < 0 || i >= s.len() {
        None
    } else if s[i].group == group && s[i].number == number {
        Some(i)
    } else {
        ifd_from(s, i + 1, group, number)
    }
}

/// `s` with a directory put in its place.
pub open spec fn put_ifd(s: Seq<IfdInfo>, d: IfdInfo) -> Seq<IfdInfo>
    decreases s.len(),
{
    if s.len() == 0 || ifd_key(s.last()) < ifd_key(d) {
        s.push(d)
    } else {
        put_ifd(s.drop_last(), d).push(s.last())
    }
}

/// The group in whose directory a group's directory is linked.
pub open spec fn parent(group: u8) -> u8 {
    if group == INTEROP {
        EXIF
    } else {
        GENERIC
    }
}

/// `s` with an empty directory of the first image for this group, and for those it is linked
/// from, where the group has none.
pub open spec fn with_ifd(s: Seq<IfdInfo>, group: u8) -> Seq<IfdInfo>
    decreases group,
{
    if ifd_from(s, 0, group, 0) is Some {
        s
    } else {
        let linked = if group == GENERIC {
            s
        } else {
            with_ifd(s, parent(group))
        };
        put_ifd(linked, IfdInfo { group, number: 0, tags: Seq::empty() })
    }
}

/// The tags without those of this number.
pub open spec fn without_hex(tags: Seq<TagInfo>, hex: u16) -> Seq<TagInfo>
    decreases tags.len(),
{
    if tags.len() == 0 {
        tags
    } else if tags.last().hex == hex {
        without_hex(tags.drop_last(), hex)
    } else {
        without_hex(tags.drop_last(), hex).push(tags.last())
    }
}

/// `t` put into ordered tags behind everything that is not ordered after it.
pub open spec fn put_by_hex(tags: Seq<TagInfo>, t: TagInfo) -> Seq<TagInfo>
    decreases tags.len(),
{
    if tags.len() == 0 || tags.last().hex <= t.hex {
        tags.push(t)
    } else {
        put_by_hex(tags.drop_last(), t).push(tags.last())
    }
}

/// The tags in the order of their numbers; tags of one number keep their order.
pub open spec fn by_hex(tags: Seq<TagInfo>) -> Seq<TagInfo>
    decreases tags.len(),
{
    if tags.len() == 0 {
        tags
    } else {
        put_by_hex(by_hex(tags.drop_last()), tags.last())
    }
}

/// The directories after a tag was set: in the directory of its group for the first image, in
/// place of the tags of its number.
pub open spec fn with_tag(s: Seq<IfdInfo>, t: TagInfo) -> Seq<IfdInfo> {
    let all = with_ifd(s, t.group);
    let i = ifd_from(all, 0, t.group, 0)->0;
    all.update(i, IfdInfo { tags: by_hex(without_hex(all[i].tags, t.hex).push(t)), ..all[i] })
}

/// The number of the last image that has a main directory.
pub open spec fn last_image(s: Seq<IfdInfo>) -> int
    decreases s.len(),
{
    if s.len() == 0 {
        0
    } else if s.last().group == GENERIC && s.last().number > last_image(s.drop_last()) {
        s.last().number as int
    } else {
        last_image(s.drop_last())
    }
}

/// The directories after the tags of a number were taken out of those of a group, up to the
/// last image.
pub open spec fn without_tag(s: Seq<IfdInfo>, hex: u16, group: u8) -> Seq<IfdInfo> {
    s.map_values(
        |d: IfdInfo|
            if d.group == group && d.number <= last_image(s) {
                IfdInfo { tags: by_hex(without_hex(d.tags, hex)), ..d }
            } else {
                d
            },
    )
}

/// How many of the first `n` directories such a removal looks into.
pub open spec fn looked_into(s: Seq<IfdInfo>, group: u8, n: int) -> int
    decreases n,
{
    if n <= 0 {
        0
    } else {
        looked_into(s, group, n - 1) + if s[n - 1].group == group && s[n - 1].number <= last_image(s) {
            1int
        } else {
            0
        }
    }
}

// ---- finding tags -----------------------------------------------------------------------

/// The first tag of this number.
pub open spec fn first_of(tags: Seq<TagInfo>, hex: u16) -> Option<TagInfo>
    decreases tags.len(),
{
    if tags.len() == 0 {
        None
    } else if first_of(tags.drop_last(), hex) is Some {
        first_of(tags.drop_last(), hex)
    } else if tags.last().hex == hex {
        Some(tags.last())
    } else {
        None
    }
}

/// The first tag of this number in the directories of this group.
pub open spec fn first_tag(s: Seq<IfdInfo>, group: u8, hex: u16) -> Option<TagInfo>
    decreases s.len(),
{
    if s.len() == 0 {
        None
    } else if first_tag(s.drop_last(), group, hex) is Some {
        first_tag(s.drop_last(), group, hex)
    } else if s.last().group == group {
        first_of(s.last().tags, hex)
    } else {
        None
    }
}

proof fn lemma_first_of_prefix(tags: Seq<TagInfo>, n: int, hex: u16)
    requires
        0 <= n <= tags.len(),
        first_of(tags.take(n), hex) is Some,
    ensures
        first_of(tags, hex) == first_of(tags.take(n), hex),
    decreases tags.len() - n,
{
    if n == tags.len() {
        assert(tags.take(n) =~= tags);
    } else {
        assert(tags.take(n + 1).drop_last() =~= tags.take(n));
        lemma_first_of_prefix(tags, n + 1, hex);
    }
}

proof fn lemma_first_tag_prefix(s: Seq<IfdInfo>, n: int, group: u8, hex: u16)
    requires
        0 <= n <= s.len(),
        first_tag(s.take(n), group, hex) is Some,
    ensures
        first_tag(s, group, hex) == first_tag(s.take(n), group, hex),
    decreases s.len() - n,
{
    if n == s.len() {
        assert(s.take(n) =~= s);
    } else {
        assert(s.take(n + 1).drop_last() =~= s.take(n));
        lemma_first_tag_prefix(s, n + 1, group, hex);
    }
}

fn find_of(tags: &Vec<Tag>, hex: u16) -> (r: Option<&Tag>)
    ensures
        match r {
            Some(t) => first_of(tags_view(tags@), hex) == Some(t@),
            None => first_of(tags_view(tags@), hex) is None,
        },
{
    let ghost v = tags_view(tags@);
    let mut i: usize = 0;
    assert(v.take(0) =~= Seq::empty());
    while i < tags.len()
        invariant
            i <= tags.len(),
            v == tags_view(tags@),
            first_of(v.take(i as int), hex) is None,
        decreases tags.len() - i,
    {
        proof {
            assert(v.take(i + 1).drop_last() =~= v.take(i as int));
            assert(v[i as int] == tags@[i as int]@);
        }
        if tags[i].hex == hex {
            proof {
                lemma_first_of_prefix(v, i + 1, hex);
            }
            return Some(&tags[i]);
        }
        i += 1;
    }
    assert(v.take(i as int) =~= v);
    None
}

/// The first tag of a number in the directories of a group.
pub fn find_tag(ifds: &Vec<Ifd>, group: u8, hex: u16) -> (r: Option<&Tag>)
    ensures
        match r {
            Some(t) => first_tag(ifds_view(ifds@), group, hex) == Some(t@),
            None => first_tag(ifds_view(ifds@), group, hex) is None,
        },
{
    let ghost v = ifds_view(ifds@);
    let mut i: usize = 0;
    assert(v.take(0) =~= Seq::empty());
    while i < ifds.len()
        invariant
            i <= ifds.len(),
            v == ifds_view(ifds@),
            first_tag(v.take(i as int), group, hex) is None,
        decreases ifds.len() - i,
    {
        proof {
            assert(v.take(i + 1).drop_last() =~= v.take(i as int));
            assert(v[i as int] == ifds@[i as int]@);
        }
        if ifds[i].group == group {
            let found: Option<&Tag> = find_of(&ifds[i].tags, hex);
            if found.is_some() {
                proof {
                    lemma_first_tag_prefix(v, i + 1, group, hex);
                }
                return found;
            }
        }
        i += 1;
    }
    assert(v.take(i as int) =~= v);
    None
}

proof fn lemma_put_by_hex(tags: Seq<TagInfo>, t: TagInfo, hex: u16)
    ensures
        first_of(put_by_hex(tags, t), hex) == (if first_of(tags, hex) is Some {
            first_of(tags, hex)
        } else if t.hex == hex {
            Some(t)
        } else {
            None
        }),
    decreases tags.len(),
{
    if tags.len() == 0 || tags.last().hex <= t.hex {
        assert(tags.push(t).drop_last() =~= tags);
    } else {
        lemma_put_by_hex(tags.drop_last(), t, hex);
        let front = put_by_hex(tags.drop_last(), t);
        assert(front.push(tags.last()).drop_last() =~= front);
    }
}

/// Ordering tags by their numbers does not change which is the first of a number.
pub proof fn order_keeps_first(tags: Seq<TagInfo>, hex: u16)
    ensures
        first_of(by_hex(tags), hex) == first_of(tags, hex),
    decreases tags.len(),
{
    if tags.len() > 0 {
        order_keeps_first(tags.drop_last(), hex);
        lemma_put_by_hex(by_hex(tags.drop_last()), tags.last(), hex);
    }
}

proof fn lemma_without_hex(tags: Seq<TagInfo>, gone: u16, hex: u16)
    ensures
        first_of(without_hex(tags, gone), hex) == (if hex == gone {
            None
        } else {
            first_of(tags, hex)
        }),
    decreases tags.len(),
{
    if tags.len() > 0 {
        lemma_without_hex(tags.drop_last(), gone, hex);
        let front = without_hex(tags.drop_last(), gone);
        assert(front.push(tags.last()).drop_last() =~= front);
    }
}

proof fn lemma_put_ifd(s: Seq<IfdInfo>, d: IfdInfo)
    requires
        ifds_ok(s),
        d.group <= 3,
        forall|i: int| 0 <= i < s.len() ==> ifd_key(#[trigger] s[i]) != ifd_key(d),
    ensures
        ifds_ok(put_ifd(s, d)),
        put_ifd(s, d).contains(d),
        forall|i: int| 0 <= i < s.len() ==> put_ifd(s, d).contains(#[trigger] s[i]),
        forall|i: int|
            0 <= i < put_ifd(s, d).len() ==> #[trigger] put_ifd(s, d)[i] == d || s.contains(put_ifd(s, d)[i]),
    decreases s.len(),
{
    let r = put_ifd(s, d);
    if s.len() == 0 || ifd_key(s.last()) < ifd_key(d) {
        assert(r[s.len() as int] == d);
        assert forall|i: int| 0 <= i < s.len() implies r.contains(#[trigger] s[i]) by {
            assert(r[i] == s[i]);
        }
    } else {
        let front = put_ifd(s.drop_last(), d);
        lemma_put_ifd(s.drop_last(), d);
        assert forall|i: int| 0 <= i < s.len() implies r.contains(#[trigger] s[i]) by {
            if i < s.len() - 1 {
                assert(s.drop_last()[i] == s[i]);
                let k = choose|k: int| 0 <= k < front.len() && front[k] == s[i];
                assert(r[k] == s[i]);
            } else {
                assert(r[front.len() as int] == s[i]);
            }
        }
        let k = choose|k: int| 0 <= k < front.len() && front[k] == d;
        assert(r[k] == d);
        assert forall|i: int| 0 <= i < r.len() implies #[trigger] r[i] == d || s.contains(r[i]) by {
            if i < front.len() {
                assert(r[i] == front[i]);
                if front[i] != d {
                    let k = choose|k: int| 0 <= k < s.drop_last().len() && s.drop_last()[k] == front[i];
                    assert(s[k] == r[i]);
                }
            } else {
                assert(s[s.len() - 1] == r[i]);
            }
        }
        assert forall|i: int, j: int| 0 <= i < j < r.len() implies ifd_key(#[trigger] r[i]) < ifd_key(
            #[trigger] r[j],
        ) by {
            if j < front.len() {
                assert(r[i] == front[i] && r[j] == front[j]);
            } else {
                assert(r[i] == front[i]);
                if front[i] != d {
                    let k = choose|k: int| 0 <= k < s.drop_last().len() && s.drop_last()[k] == front[i];
                    assert(s[k] == front[i]);
                }
            }
        }
    }
}

proof fn lemma_put_ifd_keeps(s: Seq<IfdInfo>, d: IfdInfo, group: u8, hex: u16)
    requires
        d.tags.len() == 0,
    ensures
        first_tag(put_ifd(s, d), group, hex) == first_tag(s, group, hex),
    decreases s.len(),
{
    if s.len() == 0 || ifd_key(s.last()) < ifd_key(d) {
        assert(s.push(d).drop_last() =~= s);
    } else {
        lemma_put_ifd_keeps(s.drop_last(), d, group, hex);
        let front = put_ifd(s.drop_last(), d);
        assert(front.push(s.last()).drop_last() =~= front);
    }
}

proof fn lemma_ifd_from(s: Seq<IfdInfo>, i: int, group: u8, number: u32)
    requires
        0 <= i <= s.len(),
    ensures
        match ifd_from(s, i, group, number) {
            Some(k) => i <= k < s.len() && s[k].group == group && s[k].number == number,
            None => forall|k: int|
                i <= k < s.len() ==> !((#[trigger] s[k]).group == group && s[k].number == number),
        },
    decreases s.len() - i,
{
    if i < s.len() {
        lemma_ifd_from(s, i + 1, group, number);
    }
}

proof fn lemma_with_ifd(s: Seq<IfdInfo>, wanted: u8, group: u8, hex: u16)
    requires
        ifds_ok(s),
        wanted <= 3,
    ensures
        ifds_ok(with_ifd(s, wanted)),
        ifd_from(with_ifd(s, wanted), 0, wanted, 0) is Some,
        first_tag(with_ifd(s, wanted), group, hex) == first_tag(s, group, hex),
        forall|i: int|
            0 <= i < with_ifd(s, wanted).len() ==> s.contains(#[trigger] with_ifd(s, wanted)[i])
                || with_ifd(s, wanted)[i].group <= wanted,
    decreases wanted,
{
    lemma_ifd_from(s, 0, wanted, 0);
    if ifd_from(s, 0, wanted, 0) is None {
        let linked = if wanted == GENERIC {
            s
        } else {
            with_ifd(s, parent(wanted))
        };
        if wanted != GENERIC {
            lemma_with_ifd(s, parent(wanted), group, hex);
        }
        let d = IfdInfo { group: wanted, number: 0, tags: Seq::empty() };
        assert forall|i: int| 0 <= i < linked.len() implies ifd_key(#[trigger] linked[i]) != ifd_key(d) by {
            assert(linked[i].group <= 3);
            if s.contains(linked[i]) {
                let k = choose|k: int| 0 <= k < s.len() && s[k] == linked[i];
                assert(!(s[k].group == wanted && s[k].number == 0));
            }
        }
        lemma_put_ifd(linked, d);
        lemma_put_ifd_keeps(linked, d, group, hex);
        let all = put_ifd(linked, d);
        lemma_ifd_from(all, 0, wanted, 0);
        let k = choose|k: int| 0 <= k < all.len() && all[k] == d;
        assert(all[k].group == wanted && all[k].number == 0);
        assert forall|i: int| 0 <= i < all.len() implies s.contains(#[trigger] all[i]) || all[i].group
            <= wanted by {
            if all[i] != d {
                let k = choose|k: int| 0 <= k < linked.len() && linked[k] == all[i];
                assert(s.contains(linked[k]) || linked[k].group <= wanted);
            }
        }
    } else {
        assert forall|i: int| 0 <= i < s.len() implies s.contains(#[trigger] s[i]) by {}
    }
}

proof fn lemma_update_keeps(s: Seq<IfdInfo>, i: int, d: IfdInfo, group: u8, hex: u16)
    requires
        0 <= i < s.len(),
        d.group == s[i].group,
        d.group == group ==> first_of(d.tags, hex) == first_of(s[i].tags, hex),
    ensures
        first_tag(s.update(i, d), group, hex) == first_tag(s, group, hex),
    decreases s.len(),
{
    if i == s.len() - 1 {
        assert(s.update(i, d).drop_last() =~= s.drop_last());
    } else {
        lemma_update_keeps(s.drop_last(), i, d, group, hex);
        assert(s.update(i, d).drop_last() =~= s.drop_last().update(i, d));
    }
}

proof fn lemma_no_group(s: Seq<IfdInfo>, group: u8, hex: u16)
    requires
        forall|i: int| 0 <= i < s.len() ==> (#[trigger] s[i]).group != group,
    ensures
        first_tag(s, group, hex) is None,
    decreases s.len(),
{
    if s.len() > 0 {
        assert forall|i: int| 0 <= i < s.drop_last().len() implies (#[trigger] s.drop_last()[i]).group
            != group by {
            assert(s.drop_last()[i] == s[i]);
        }
        lemma_no_group(s.drop_last(), group, hex);
    }
}

/// A tag that was set is the one that is found.
pub proof fn set_tag_is_found(s: Seq<IfdInfo>, t: TagInfo)
    requires
        ifds_ok(s),
        t.group <= 3,
    ensures
        first_tag(with_tag(s, t), t.group, t.hex) == Some(t),
        ifds_ok(with_tag(s, t)),
{
    let all = with_ifd(s, t.group);
    lemma_with_ifd(s, t.group, t.group, t.hex);
    lemma_ifd_from(all, 0, t.group, 0);
    let i = ifd_from(all, 0, t.group, 0)->0;
    let kept = without_hex(all[i].tags, t.hex);
    lemma_without_hex(all[i].tags, t.hex, t.hex);
    assert(kept.push(t).drop_last() =~= kept);
    order_keeps_first(kept.push(t), t.hex);
    let c = with_tag(s, t);
    assert forall|k: int| 0 <= k < c.take(i).len() implies (#[trigger] c.take(i)[k]).group != t.group by {
        assert(c[k] == all[k]);
        assert(ifd_key(all[k]) < ifd_key(all[i]));
    }
    lemma_no_group(c.take(i), t.group, t.hex);
    assert(c.take(i + 1).drop_last() =~= c.take(i));
    lemma_first_tag_prefix(c, i + 1, t.group, t.hex);
    assert forall|k: int| 0 <= k < c.len() implies (#[trigger] c[k]).group <= 3 by {
        assert(all[k].group <= 3);
    }
    assert forall|j: int, k: int| 0 <= j < k < c.len() implies ifd_key(#[trigger] c[j]) < ifd_key(
        #[trigger] c[k],
    ) by {
        assert(ifd_key(all[j]) < ifd_key(all[k]));
    }
}

/// Setting a tag leaves all others as they were.
pub proof fn set_tag_keeps_others(s: Seq<IfdInfo>, t: TagInfo, group: u8, hex: u16)
    requires
        ifds_ok(s),
        t.group <= 3,
        group != t.group || hex != t.hex,
    ensures
        first_tag(with_tag(s, t), group, hex) == first_tag(s, group, hex),
{
    let all = with_ifd(s, t.group);
    lemma_with_ifd(s, t.group, group, hex);
    lemma_ifd_from(all, 0, t.group, 0);
    let i = ifd_from(all, 0, t.group, 0)->0;
    let kept = without_hex(all[i].tags, t.hex);
    let d = IfdInfo { tags: by_hex(kept.push(t)), ..all[i] };
    if group == t.group {
        lemma_without_hex(all[i].tags, t.hex, hex);
        assert(kept.push(t).drop_last() =~= kept);
        order_keeps_first(kept.push(t), hex);
    }
    lemma_update_keeps(all, i, d, group, hex);
}

/// A directory after the removal of a tag's number, up to an image.
pub open spec fn ifd_without(d: IfdInfo, hex: u16, group: u8, last: int) -> IfdInfo {
    if d.group == group && d.number <= last {
        IfdInfo { tags: by_hex(without_hex(d.tags, hex)), ..d }
    } else {
        d
    }
}

proof fn lemma_mapped(s: Seq<IfdInfo>, gone: u16, from: u8, last: int, group: u8, hex: u16)
    ensures
        ({
            let r = first_tag(s.map_values(|d: IfdInfo| ifd_without(d, gone, from, last)), group, hex);
            &&& group != from || hex != gone ==> r == first_tag(s, group, hex)
            &&& group == from && hex == gone && (forall|i: int|
                0 <= i < s.len() && (#[trigger] s[i]).group == from ==> s[i].number <= last) ==> r is None
        }),
    decreases s.len(),
{
    let f = |d: IfdInfo| ifd_without(d, gone, from, last);
    if s.len() > 0 {
        lemma_mapped(s.drop_last(), gone, from, last, group, hex);
        assert(s.map_values(f).drop_last() =~= s.drop_last().map_values(f));
        lemma_without_hex(s.last().tags, gone, hex);
        order_keeps_first(without_hex(s.last().tags, gone), hex);
        if forall|i: int| 0 <= i < s.len() && (#[trigger] s[i]).group == from ==> s[i].number <= last {
            assert forall|i: int|
                0 <= i < s.drop_last().len() && (#[trigger] s.drop_last()[i]).group == from implies
                s.drop_last()[i].number <= last by {
                assert(s.drop_last()[i] == s[i]);
            }
            assert(s[s.len() - 1].group == from ==> s[s.len() - 1].number <= last);
        }
    }
}

/// Whether every directory of this group belongs to an image up to the last that has a main
/// directory.
pub open spec fn within_images(s: Seq<IfdInfo>, group: u8) -> bool {
    forall|i: int| 0 <= i < s.len() && (#[trigger] s[i]).group == group ==> s[i].number <= last_image(s)
}

/// A tag that was removed is not found any more.
pub proof fn removed_tag_is_gone(s: Seq<IfdInfo>, hex: u16, group: u8)
    requires
        within_images(s, group),
    ensures
        first_tag(without_tag(s, hex, group), group, hex) is None,
{
    let last = last_image(s);
    lemma_mapped(s, hex, group, last, group, hex);
    assert(without_tag(s, hex, group) =~= s.map_values(|d: IfdInfo| ifd_without(d, hex, group, last)));
}

proof fn lemma_mapped_none(s: Seq<IfdInfo>, gone: u16, from: u8, last: int)
    requires
        first_tag(s, from, gone) is None,
    ensures
        first_tag(s.map_values(|d: IfdInfo| ifd_without(d, gone, from, last)), from, gone) is None,
    decreases s.len(),
{
    let f = |d: IfdInfo| ifd_without(d, gone, from, last);
    if s.len() > 0 {
        lemma_mapped_none(s.drop_last(), gone, from, last);
        assert(s.map_values(f).drop_last() =~= s.drop_last().map_values(f));
        lemma_without_hex(s.last().tags, gone, gone);
        order_keeps_first(without_hex(s.last().tags, gone), gone);
    }
}

/// Removing a tag that is not there brings none.
pub(crate) proof fn lemma_removal_brings_none(s: Seq<IfdInfo>, hex: u16, group: u8)
    requires
        first_tag(s, group, hex) is None,
    ensures
        first_tag(without_tag(s, hex, group), group, hex) is None,
{
    let last = last_image(s);
    lemma_mapped_none(s, hex, group, last);
    assert(without_tag(s, hex, group) =~= s.map_values(|d: IfdInfo| ifd_without(d, hex, group, last)));
}

/// Removing a tag leaves all others as they were.
pub proof fn removal_keeps_others(s: Seq<IfdInfo>, gone: u16, from: u8, group: u8, hex: u16)
    requires
        group != from || hex != gone,
    ensures
        first_tag(without_tag(s, gone, from), group, hex) == first_tag(s, group, hex),
{
    let last = last_image(s);
    lemma_mapped(s, gone, from, last, group, hex);
    assert(without_tag(s, gone, from) =~= s.map_values(|d: IfdInfo| ifd_without(d, gone, from, last)));
}

/// Removing a tag leaves the directories themselves.
pub proof fn removal_keeps_ifds(s: Seq<IfdInfo>, gone: u16, from: u8)
    ensures
        ({
            let c = without_tag(s, gone, from);
            &&& c.len() == s.len()
            &&& forall|i: int|
                0 <= i < s.len() ==> (#[trigger] c[i]).group == s[i].group && c[i].number == s[i].number
            &&& last_image(c) == last_image(s)
            &&& forall|group: u8|
                looked_into(c, group, c.len() as int) == #[trigger] looked_into(s, group, s.len() as int)
            &&& forall|group: u8| within_images(c, group) == #[trigger] within_images(s, group)
            &&& ifds_ok(s) ==> ifds_ok(c)
        }),
{
    let c = without_tag(s, gone, from);
    lemma_same_images(s, c);
    assert forall|group: u8| looked_into(c, group, c.len() as int) == #[trigger] looked_into(
        s,
        group,
        s.len() as int,
    ) by {
        lemma_same_looked(s, c, group, s.len() as int);
    }
    assert forall|group: u8| within_images(c, group) == #[trigger] within_images(s, group) by {
        if within_images(c, group) {
            assert forall|i: int| 0 <= i < s.len() && (#[trigger] s[i]).group == group implies s[i].number
                <= last_image(s) by {
                assert(c[i].group == group);
            }
        }
    }
    if ifds_ok(s) {
        assert forall|i: int, j: int| 0 <= i < j < c.len() implies ifd_key(#[trigger] c[i]) < ifd_key(
            #[trigger] c[j],
        ) by {
            assert(ifd_key(s[i]) < ifd_key(s[j]));
        }
        assert forall|i: int| 0 <= i < c.len() implies (#[trigger] c[i]).group <= 3 by {
            assert(s[i].group <= 3);
        }
    }
}

/// A count is never negative.
pub proof fn lemma_looked_into(s: Seq<IfdInfo>, group: u8, n: int)
    ensures
        looked_into(s, group, n) >= 0,
    decreases n,
{
    if n > 0 {
        lemma_looked_into(s, group, n - 1);
    }
}

proof fn lemma_same_images(s: Seq<IfdInfo>, c: Seq<IfdInfo>)
    requires
        s.len() == c.len(),
        forall|i: int|
            0 <= i < s.len() ==> (#[trigger] c[i]).group == s[i].group && c[i].number == s[i].number,
    ensures
        last_image(c) == last_image(s),
    decreases s.len(),
{
    if s.len() > 0 {
        assert forall|i: int| 0 <= i < s.drop_last().len() implies (#[trigger] c.drop_last()[i]).group
            == s.drop_last()[i].group && c.drop_last()[i].number == s.drop_last()[i].number by {
            assert(c.drop_last()[i] == c[i] && s.drop_last()[i] == s[i]);
        }
        lemma_same_images(s.drop_last(), c.drop_last());
        assert(c[c.len() - 1].group == s[s.len() - 1].group);
    }
}

proof fn lemma_same_looked(s: Seq<IfdInfo>, c: Seq<IfdInfo>, group: u8, n: int)
    requires
        s.len() == c.len(),
        n <= s.len(),
        last_image(c) == last_image(s),
        forall|i: int|
            0 <= i < s.len() ==> (#[trigger] c[i]).group == s[i].group && c[i].number == s[i].number,
    ensures
        looked_into(c, group, n) == looked_into(s, group, n),
    decreases n,
{
    if n > 0 {
        lemma_same_looked(s, c, group, n - 1);
        assert(c[n - 1].group == s[n - 1].group);
    }
}

// ---- the collection ---------------------------------------------------------------------

/// The metadata of an image.
#[verifier::external_type_specification]
#[verifier::external_body]
pub struct ExMetadata(Metadata);

/// The directories of some metadata, with the values of the tags as little-endian bytes.
pub uninterp spec fn ifds_of(m: Metadata) -> Seq<IfdInfo>;

/// What some metadata holds besides the values of its tags: its byte order, and the image data
/// that belongs to the offsets of strips and of the thumbnail.
pub uninterp spec fn carried(m: Metadata) -> Seq<u8>;

/// Whether tags of this number hold image data.
pub open spec fn holds_image(hex: u16) -> bool {
    hex == 0x0111 || hex == 0x0201
}

/// `Metadata::get_ifds`, `ImageFileDirectory::get_tags` and the accessors of `ExifTag`: lists the
/// directories with their tags, which are all of known groups.
#[verifier::external_body]
pub(crate) fn list_ifds(m: &Metadata) -> (r: Vec<Ifd>)
    ensures
        ifds_view(r@) == ifds_of(*m),
        tags_ok(ifds_view(r@)),
{
    m.get_ifds().iter().map(|d| Ifd {
        group: d.get_ifd_type() as u8,
        number: d.get_generic_ifd_nr(),
        tags: d.get_tags().iter().map(|t| Tag {
            group: t.get_group() as u8,
            hex: t.as_u16(),
            format: t.format().as_u16(),
            unknown: t.is_unknown(),
            data: t.value_as_u8_vec(&Endian::Little),
        }).collect(),
    }).collect()
}

/// Whether the directories of some metadata stand in order, each once, as they do after it was
/// made, read or changed tag by tag. Directories that were put in by hand need not.
pub open spec fn sound(m: Metadata) -> bool {
    ifds_ok(ifds_of(m))
}

/// Tests whether the directories of some metadata stand in order, each once.
pub fn is_sound(m: &Metadata) -> (r: bool)
    ensures
        r == sound(*m),
{
    let v: Vec<Ifd> = list_ifds(m);
    ordered(&v)
}

fn ordered(v: &Vec<Ifd>) -> (r: bool)
    ensures
        r == ifds_ok(ifds_view(v@)),
{
    let ghost s = ifds_view(v@);
    let mut i: usize = 0;
    while i < v.len()
        invariant
            i <= v.len(),
            s == ifds_view(v@),
            ifds_ok(s.take(i as int)),
        decreases v.len() - i,
    {
        assert(s[i as int] == v@[i as int]@);
        if v[i].group > 3 {
            return false;
        }
        if i > 0 {
            assert(s[i - 1] == v@[i - 1]@);
            let before: u64 = v[i - 1].number as u64 * 4 + v[i - 1].group as u64;
            let here: u64 = v[i].number as u64 * 4 + v[i].group as u64;
            if before >= here {
                assert(ifd_key(s[i - 1]) >= ifd_key(s[i as int]));
                return false;
            }
        }
        proof {
            let next = s.take(i + 1);
            assert forall|j: int, k: int| 0 <= j < k < next.len() implies ifd_key(#[trigger] next[j]) < ifd_key(
                #[trigger] next[k],
            ) by {
                if k < i {
                    assert(s.take(i as int)[j] == next[j] && s.take(i as int)[k] == next[k]);
                } else if j < i - 1 {
                    assert(s.take(i as int)[j] == next[j] && s.take(i as int)[i - 1] == s[i - 1]);
                }
            }
            assert forall|k: int| 0 <= k < next.len() implies (#[trigger] next[k]).group <= 3 by {
                if k < i {
                    assert(s.take(i as int)[k] == next[k]);
                }
            }
        }
        i += 1;
    }
    assert(s.take(s.len() as int) =~= s);
    true
}

/// Whether the tag of this group and number is one of those that hold text and can be set.
pub open spec fn holds_text(group: u8, hex: u16) -> bool {
    match (group, hex) {
        (0, 0x010e) | (0, 0x010f) | (0, 0x0110) | (0, 0x0131) | (0, 0x0132) | (0, 0x013b) | (0, 0x8298) => true,
        (1, 0x9003) | (1, 0x9004) | (1, 0x9010) | (1, 0x9011) | (1, 0x9012) | (1, 0xa420) => true,
        (1, 0xa430) | (1, 0xa431) | (1, 0xa433) | (1, 0xa434) | (3, 0x0001) | (3, 0x0003) => true,
        _ => false,
    }
}

/// Whether this is a tag that can be made from its number and bytes: one that is known, of the
/// format that belongs to it, with whole components.
pub open spec fn settable(t: TagInfo) -> bool {
    &&& !t.unknown
    &&& if holds_text(t.group, t.hex) {
        t.format == TEXT && t.data.len() > 0 && t.data.last() == 0 && valid_utf8(t.data) && (t.data.len() > 1
            ==> t.data[t.data.len() - 2] != 0)
    } else {
        match (t.group, t.hex) {
            (0, 0x0112) => t.format == INT16U && t.data.len() % 2 == 0,
            (1, 0x9286) => t.format == UNDEF,
            (3, 0x0000) | (3, 0x0005) => t.format == INT8U,
            (3, 0x0002) | (3, 0x0004) | (3, 0x0006) => t.format == RATIONAL64U && t.data.len() % 8 == 0,
            _ => false,
        }
    }
}

/// `ExifTag::from_u16_with_data` and `Metadata::set_tag`: sets a tag in the directory of its
/// group for the first image, which is made where there is none. Byte order and image data stay.
#[verifier::external_body]
pub(crate) fn set_tag(m: &mut Metadata, t: &Tag)
    requires
        sound(*old(m)),
        settable(t@),
    ensures
        ifds_of(*final(m)) == with_tag(ifds_of(*old(m)), t@),
        carried(*final(m)) == carried(*old(m)),
{
    let group = match t.group {
        0 => ExifTagGroup::GENERIC,
        1 => ExifTagGroup::EXIF,
        2 => ExifTagGroup::INTEROP,
        _ => ExifTagGroup::GPS,
    };
    let format = ExifTagFormat::from_u16(t.format).unwrap_or(ExifTagFormat::UNDEF);
    if let Ok(tag) = ExifTag::from_u16_with_data(t.hex, &format, &t.data, &Endian::Little, &group) {
        m.set_tag(tag);
    }
}

/// `Metadata::set_tag` with a tag of other metadata: sets it in the directory of its own group
/// for the first image. Byte order and image data stay, unless the tag brings image data along.
#[verifier::external_body]
pub(crate) fn copy_tag(from: &Metadata, ifd: usize, tag: usize, to: &mut Metadata)
    requires
        sound(*old(to)),
        ifd < ifds_of(*from).len(),
        tag < ifds_of(*from)[ifd as int].tags.len(),
    ensures
        ifds_of(*final(to)) == with_tag(ifds_of(*old(to)), ifds_of(*from)[ifd as int].tags[tag as int]),
        !holds_image(ifds_of(*from)[ifd as int].tags[tag as int].hex) ==> carried(*final(to)) == carried(*old(to)),
{
    to.set_tag(from.get_ifds()[ifd].get_tags()[tag].clone());
}

/// `Metadata::remove_tag_by_hex_group`: takes the tags of a number out of all directories of a
/// group, and counts the directories it looked into. Byte order and image data stay, unless the
/// tags hold image data.
#[verifier::external_body]
pub(crate) fn remove_tag(m: &mut Metadata, hex: u16, group: u8) -> (n: usize)
    requires
        sound(*old(m)),
        group <= 3,
    ensures
        ifds_of(*final(m)) == without_tag(ifds_of(*old(m)), hex, group),
        n == looked_into(ifds_of(*old(m)), group, ifds_of(*old(m)).len() as int),
        !holds_image(hex) ==> carried(*final(m)) == carried(*old(m)),
{
    m.remove_tag_by_hex_group(hex, match group {
        0 => ExifTagGroup::GENERIC,
        1 => ExifTagGroup::EXIF,
        2 => ExifTagGroup::INTEROP,
        _ => ExifTagGroup::GPS,
    })
}

/// Sets a tag, which leaves the directories in order.
pub(crate) fn put_tag(m: &mut Metadata, t: &Tag)
    requires
        sound(*old(m)),
        settable(t@),
    ensures
        ifds_of(*final(m)) == with_tag(ifds_of(*old(m)), t@),
        carried(*final(m)) == carried(*old(m)),
        sound(*final(m)),
{
    proof {
        set_tag_is_found(ifds_of(*m), t@);
    }
    set_tag(m, t);
}

/// Copies a tag, which leaves the directories in order.
pub(crate) fn bring_tag(from: &Metadata, ifd: usize, tag: usize, to: &mut Metadata)
    requires
        sound(*old(to)),
        ifd < ifds_of(*from).len(),
        tag < ifds_of(*from)[ifd as int].tags.len(),
        ifds_of(*from)[ifd as int].tags[tag as int].group <= 3,
    ensures
        ifds_of(*final(to)) == with_tag(ifds_of(*old(to)), ifds_of(*from)[ifd as int].tags[tag as int]),
        !holds_image(ifds_of(*from)[ifd as int].tags[tag as int].hex) ==> carried(*final(to)) == carried(*old(to)),
        sound(*final(to)),
{
    proof {
        set_tag_is_found(ifds_of(*to), ifds_of(*from)[ifd as int].tags[tag as int]);
    }
    copy_tag(from, ifd, tag, to);
}

/// Takes a tag out, which leaves the directories in order.
pub(crate) fn drop_tag(m: &mut Metadata, hex: u16, group: u8) -> (n: usize)
    requires
        sound(*old(m)),
        group <= 3,
    ensures
        ifds_of(*final(m)) == without_tag(ifds_of(*old(m)), hex, group),
        n == looked_into(ifds_of(*old(m)), group, ifds_of(*old(m)).len() as int),
        !holds_image(hex) ==> carried(*final(m)) == carried(*old(m)),
        sound(*final(m)),
{
    proof {
        removal_keeps_ifds(ifds_of(*m), hex, group);
    }
    remove_tag(m, hex, group)
}

/// A fraction.
#[derive(Debug, Clone, Copy, PartialEq, Eq, Structural)]
pub struct Ratio {
    pub num: u32,
    pub den: u32,
}

/// `uR64::from` of a whole number: the number over 1. The largest number of 32 bits is too large
/// for it and becomes the largest positive one with a sign.
#[verifier::external_body]
pub(crate) fn whole_ratio(n: u32) -> (r: Ratio)
    ensures
        r == (Ratio { num: if n == u32::MAX { 0x7FFF_FFFF } else { n }, den: 1 }),
{
    let r = uR64::from(n);
    Ratio { num: r.nominator, den: r.denominator }
}

/// The name of a known tag, and its empty value, as `little_exif` writes it for programmers.
pub uninterp spec fn tag_label(hex: u16, group: u8) -> Option<Seq<char>>;

/// `ExifTag::from_u16`, written out for programmers: depends on the number and the group alone;
/// `None` where the tag is not known.
#[verifier::external_body]
pub(crate) fn label_of(hex: u16, group: u8) -> (r: Option<String>)
    requires
        group <= 3,
    ensures
        match r {
            Some(s) => tag_label(hex, group) == Some(s@),
            None => tag_label(hex, group) is None,
        },
{
    let group = match group {
        0 => ExifTagGroup::GENERIC,
        1 => ExifTagGroup::EXIF,
        2 => ExifTagGroup::INTEROP,
        _ => ExifTagGroup::GPS,
    };
    ExifTag::from_u16(hex, &group).ok().map(|t| format!("{t:?}"))
}

// ---- metadata as bytes ------------------------------------------------------------------

/// How long the pieces of image data are that some metadata holds: its strips and its thumbnails.
pub uninterp spec fn image_sizes(m: Metadata) -> Seq<usize>;

/// The image data in `ExifTag::StripOffsets` and `ExifTag::ThumbnailOffset`, by its lengths.
#[verifier::external_body]
pub(crate) fn list_image_sizes(m: &Metadata) -> (r: Vec<usize>)
    ensures
        r@ == image_sizes(*m),
{
    m.get_ifds().iter().flat_map(|d| d.get_tags().iter()).flat_map(|t| match t {
        ExifTag::StripOffsets(_, strips) => strips.iter().map(|s| s.len()).collect(),
        ExifTag::ThumbnailOffset(_, thumbnail) => vec![thumbnail.len()],
        _ => Vec::new(),
    }).collect()
}

/// Whether a tag can be written: a link to another directory is written by itself and is no tag,
/// and the length of a thumbnail is one number.
pub open spec fn tag_fits(t: TagInfo) -> bool {
    t.unknown || (t.hex != 0x8769 && t.hex != 0x8825 && t.hex != 0xA005 && (t.hex == 0x0202 ==> t.data.len() <= 4))
}

/// A bound on the bytes that tags take, with their entries and paddings.
pub open spec fn tags_weight(s: Seq<TagInfo>) -> int
    decreases s.len(),
{
    if s.len() == 0 {
        0
    } else {
        tags_weight(s.drop_last()) + s.last().data.len() + 1024
    }
}

/// A bound on the bytes that directories take.
pub open spec fn ifds_weight(s: Seq<IfdInfo>) -> int
    decreases s.len(),
{
    if s.len() == 0 {
        0
    } else {
        ifds_weight(s.drop_last()) + tags_weight(s.last().tags) + 1024
    }
}

/// A bound on the bytes that pieces of image data take.
pub open spec fn sizes_weight(s: Seq<usize>) -> int
    decreases s.len(),
{
    if s.len() == 0 {
        0
    } else {
        sizes_weight(s.drop_last()) + s.last() + 16
    }
}

/// The largest weight of metadata that is written: offsets of 32 bits reach everything in it, with
/// room for what an image puts in front.
pub const MAX_WEIGHT: u64 = 0xFFFF_FF00;

/// Whether directories with image data of these sizes can be written: they stand in order, each
/// once, each tag can be written, and offsets of 32 bits reach everything.
pub open spec fn encodable(s: Seq<IfdInfo>, sizes: Seq<usize>) -> bool {
    &&& ifds_ok(s)
    &&& forall|i: int, j: int| 0 <= i < s.len() && 0 <= j < s[i].tags.len() ==> tag_fits(#[trigger] s[i].tags[j])
    &&& ifds_weight(s) + sizes_weight(sizes) <= MAX_WEIGHT
}

proof fn lemma_tags_weight(s: Seq<TagInfo>, n: int)
    requires
        0 <= n <= s.len(),
    ensures
        0 <= tags_weight(s.take(n)) <= tags_weight(s),
    decreases s.len(),
{
    if n < s.len() {
        lemma_tags_weight(s.drop_last(), n);
        assert(s.drop_last().take(n) =~= s.take(n));
    } else {
        assert(s.take(n) =~= s);
        if n > 0 {
            lemma_tags_weight(s.drop_last(), n - 1);
        }
    }
}

proof fn lemma_ifds_weight(s: Seq<IfdInfo>, n: int)
    requires
        0 <= n <= s.len(),
    ensures
        0 <= ifds_weight(s.take(n)) <= ifds_weight(s),
    decreases s.len(),
{
    if s.len() > 0 {
        let last = s.last().tags;
        lemma_tags_weight(last, last.len() as int);
        assert(last.take(last.len() as int) =~= last);
    }
    if n < s.len() {
        lemma_ifds_weight(s.drop_last(), n);
        assert(s.drop_last().take(n) =~= s.take(n));
    } else {
        assert(s.take(n) =~= s);
        if n > 0 {
            lemma_ifds_weight(s.drop_last(), n - 1);
        }
    }
}

proof fn lemma_sizes_weight(s: Seq<usize>, n: int)
    requires
        0 <= n <= s.len(),
    ensures
        0 <= sizes_weight(s.take(n)) <= sizes_weight(s),
    decreases s.len(),
{
    if n < s.len() {
        lemma_sizes_weight(s.drop_last(), n);
        assert(s.drop_last().take(n) =~= s.take(n));
    } else {
        assert(s.take(n) =~= s);
        if n > 0 {
            lemma_sizes_weight(s.drop_last(), n - 1);
        }
    }
}

/// Weighs tags; `None` if one cannot be written or they weigh too much.
fn weigh_tags(v: &Vec<Tag>) -> (r: Option<u64>)
    ensures
        match r {
            Some(w) => w == tags_weight(tags_view(v@)) && w <= MAX_WEIGHT && forall|j: int|
                0 <= j < v@.len() ==> tag_fits(#[trigger] tags_view(v@)[j]),
            None => tags_weight(tags_view(v@)) > MAX_WEIGHT || exists|j: int|
                0 <= j < v@.len() && !tag_fits(#[trigger] tags_view(v@)[j]),
        },
{
    let ghost s = tags_view(v@);
    let mut w: u64 = 0;
    let mut i: usize = 0;
    assert(s.take(0) =~= Seq::<TagInfo>::empty());
    while i < v.len()
        invariant
            i <= v.len(),
            s == tags_view(v@),
            w == tags_weight(s.take(i as int)),
            w <= MAX_WEIGHT,
            forall|j: int| 0 <= j < i ==> tag_fits(#[trigger] s[j]),
        decreases v.len() - i,
    {
        let t: &Tag = &v[i];
        assert(s[i as int] == t@);
        proof {
            assert(s.take(i + 1).drop_last() =~= s.take(i as int));
            lemma_tags_weight(s, i + 1);
        }
        if !(t.unknown || (t.hex != 0x8769 && t.hex != 0x8825 && t.hex != 0xA005 && (t.hex != 0x0202
            || t.data.len() <= 4))) {
            assert(!tag_fits(s[i as int]));
            return None;
        }
        if t.data.len() as u64 > MAX_WEIGHT || w + t.data.len() as u64 + 1024 > MAX_WEIGHT {
            return None;
        }
        w = w + t.data.len() as u64 + 1024;
        i += 1;
    }
    assert(s.take(s.len() as int) =~= s);
    Some(w)
}

/// Weighs pieces of image data; `None` if they weigh too much.
fn weigh_sizes(v: &Vec<usize>) -> (r: Option<u64>)
    ensures
        match r {
            Some(w) => w == sizes_weight(v@) && w <= MAX_WEIGHT,
            None => sizes_weight(v@) > MAX_WEIGHT,
        },
{
    let mut w: u64 = 0;
    let mut i: usize = 0;
    assert(v@.take(0) =~= Seq::<usize>::empty());
    while i < v.len()
        invariant
            i <= v.len(),
            w == sizes_weight(v@.take(i as int)),
            w <= MAX_WEIGHT,
        decreases v.len() - i,
    {
        proof {
            assert(v@.take(i + 1).drop_last() =~= v@.take(i as int));
            lemma_sizes_weight(v@, i + 1);
        }
        if v[i] as u64 > MAX_WEIGHT || w + v[i] as u64 + 16 > MAX_WEIGHT {
            return None;
        }
        w = w + v[i] as u64 + 16;
        i += 1;
    }
    assert(v@.take(v@.len() as int) =~= v@);
    Some(w)
}

/// Tests whether metadata can be written.
pub fn is_encodable(m: &Metadata) -> (r: bool)
    ensures
        r == encodable(ifds_of(*m), image_sizes(*m)),
{
    let v: Vec<Ifd> = list_ifds(m);
    let sizes: Vec<usize> = list_image_sizes(m);
    let ghost s = ifds_view(v@);
    if !ordered(&v) {
        return false;
    }
    proof {
        lemma_ifds_weight(s, 0);
    }
    let mut w: u64 = match weigh_sizes(&sizes) {
        Some(w) => w,
        None => {
            return false;
        },
    };
    let mut i: usize = 0;
    assert(s.take(0) =~= Seq::<IfdInfo>::empty());
    while i < v.len()
        invariant
            i <= v.len(),
            s == ifds_view(v@),
            s == ifds_of(*m),
            ifds_ok(s),
            sizes@ == image_sizes(*m),
            w == ifds_weight(s.take(i as int)) + sizes_weight(sizes@),
            w <= MAX_WEIGHT,
            forall|k: int, j: int| 0 <= k < i && 0 <= j < s[k].tags.len() ==> tag_fits(#[trigger] s[k].tags[j]),
        decreases v.len() - i,
    {
        assert(s[i as int] == v@[i as int]@);
        assert(s[i as int].tags == tags_view(v@[i as int].tags@));
        proof {
            assert(s.take(i + 1).drop_last() =~= s.take(i as int));
            lemma_ifds_weight(s, i as int);
            lemma_ifds_weight(s, i + 1);
            lemma_sizes_weight(sizes@, 0);
        }
        match weigh_tags(&v[i].tags) {
            Some(more) => {
                if w + more + 1024 > MAX_WEIGHT {
                    return false;
                }
                w = w + more + 1024;
            },
            None => {
                return false;
            },
        }
        i += 1;
    }
    assert(s.take(s.len() as int) =~= s);
    true
}

/// The EXIF data that is made of these directories and of what is carried along, or why none can
/// be made.
pub uninterp spec fn exif_bytes(ifds: Seq<IfdInfo>, along: Seq<u8>) -> Result<Seq<u8>, Seq<char>>;

/// `Metadata::encode`: the EXIF data of some metadata, which depends on its directories and on
/// what it carries along.
#[verifier::external_body]
pub(crate) fn exif_data(m: &Metadata) -> (r: Result<Vec<u8>, String>)
    requires
        encodable(ifds_of(*m), image_sizes(*m)),
    ensures
        match r {
            Ok(e) => exif_bytes(ifds_of(*m), carried(*m)) == Ok::<Seq<u8>, Seq<char>>(e@),
            Err(e) => exif_bytes(ifds_of(*m), carried(*m)) == Err::<Seq<u8>, Seq<char>>(e@),
        },
{
    m.encode().map_err(|e| e.to_string())
}

/// What an image of this extension is with these directories in place of its own, and with what
/// is carried along, or why it cannot be written.
pub uninterp spec fn image_with(
    ifds: Seq<IfdInfo>,
    along: Seq<u8>,
    image: Seq<u8>,
    extension: Seq<char>,
) -> Result<Seq<u8>, Seq<char>>;

/// `Metadata::write_to_vec`: writes metadata into the bytes of an image that it can take. What
/// comes out depends on the metadata, the image and the extension alone. A JPEG with a plain
/// header gets one segment with the EXIF data right behind its start in place of those it has. A
/// PNG of less than 4 GiB keeps its image data: only text and EXIF chunks come and go. A JPEG XL
/// image becomes a container with one box of EXIF, or is refused where there is no place for it. A
/// WebP that says that it has no EXIF gets a chunk of it at its end, and flags that say so. How the
/// bytes of other images are laid out is not stated, nor what is in them after a failure.
#[verifier::external_body]
pub(crate) fn write_metadata(m: &Metadata, image: &mut Vec<u8>, extension: &str) -> (r: Result<(), String>)
    requires
        encodable(ifds_of(*m), image_sizes(*m)),
        exif_bytes(ifds_of(*m), carried(*m)) is Ok,
        intake::can_take(old(image)@, extension@, exif_bytes(ifds_of(*m), carried(*m))->Ok_0.len()),
    ensures
        match r {
            Ok(()) => image_with(ifds_of(*m), carried(*m), old(image)@, extension@) == Ok::<Seq<u8>, Seq<char>>(
                final(image)@,
            ),
            Err(e) => image_with(ifds_of(*m), carried(*m), old(image)@, extension@) == Err::<Seq<u8>, Seq<char>>(
                e@,
            ),
        },
        r is Ok && intake::is_jpeg_name(extension@) && jpeg::plain_jpeg(old(image)@) ==> final(image)@
            == jpeg::with_exif(old(image)@, exif_bytes(ifds_of(*m), carried(*m))->Ok_0),
        r is Ok && intake::is_png_name(extension@) && final(image)@.len() <= 0xFFFF_FFFF ==> png::pixels_of(
            final(image)@,
        ) == png::pixels_of(old(image)@),
        intake::is_jxl_name(extension@) ==> match r {
            Ok(()) => jxl::with_exif(old(image)@, exif_bytes(ifds_of(*m), carried(*m))->Ok_0) == Some(final(image)@),
            Err(_) => jxl::with_exif(old(image)@, exif_bytes(ifds_of(*m), carried(*m))->Ok_0) is None,
        },
        r is Ok && intake::is_webp_name(extension@) && webp::denies_exif(old(image)@) ==> webp::gains_exif(
            old(image)@,
            final(image)@,
            exif_bytes(ifds_of(*m), carried(*m))->Ok_0,
        ),
{
    let kind = FileExtension::from_str(extension).map_err(|e| e.to_string())?;
    m.write_to_vec(image, kind).map_err(|e| e.to_string())
}

/// What an image of this extension is without metadata, or why it cannot be cleared.
pub uninterp spec fn image_without(image: Seq<u8>, extension: Seq<char>) -> Result<Seq<u8>, Seq<char>>;

/// `Metadata::clear_metadata`: takes all metadata out of the bytes of an image that it can take
/// and that is no TIFF, whose metadata it would decode. What comes out depends on the image and the
/// extension alone. A JPEG with a plain header loses its EXIF segments and nothing else. A PNG of
/// less than 4 GiB keeps its image data. A JPEG XL container loses its boxes of EXIF and nothing
/// else, and what is no container is refused. A WebP that says that it has no EXIF stays as it is.
/// How the bytes of other images are laid out is not stated, nor what is in them after a failure.
#[verifier::external_body]
pub(crate) fn clear_metadata(image: &mut Vec<u8>, extension: &str) -> (r: Result<(), String>)
    requires
        intake::can_take(old(image)@, extension@, 0),
        !intake::is_tiff_name(extension@),
    ensures
        match r {
            Ok(()) => image_without(old(image)@, extension@) == Ok::<Seq<u8>, Seq<char>>(final(image)@),
            Err(e) => image_without(old(image)@, extension@) == Err::<Seq<u8>, Seq<char>>(e@),
        },
        r is Ok && intake::is_jpeg_name(extension@) && jpeg::plain_jpeg(old(image)@) ==> final(image)@
            == jpeg::without_exif(old(image)@),
        r is Ok && intake::is_png_name(extension@) && final(image)@.len() <= 0xFFFF_FFFF ==> png::pixels_of(
            final(image)@,
        ) == png::pixels_of(old(image)@),
        intake::is_jxl_name(extension@) ==> match r {
            Ok(()) => jxl::is_container(old(image)@) && final(image)@ == jxl::without_exif(old(image)@),
            Err(_) => !jxl::is_container(old(image)@),
        },
        r is Ok && intake::is_webp_name(extension@) && webp::denies_exif(old(image)@) ==> final(image)@
            == old(image)@,
{
    let kind = FileExtension::from_str(extension).map_err(|e| e.to_string())?;
    Metadata::clear_metadata(image, kind).map_err(|e| e.to_string())
}

proof fn lemma_light_tags(v: Seq<TagInfo>)
    requires
        forall|j: int| 0 <= j < v.len() ==> (#[trigger] v[j]).data.len() <= 0x1_0000,
    ensures
        0 <= tags_weight(v) <= v.len() * 0x1_0400,
    decreases v.len(),
{
    if v.len() > 0 {
        let w = v.drop_last();
        assert forall|j: int| 0 <= j < w.len() implies (#[trigger] w[j]).data.len() <= 0x1_0000 by {
            assert(w[j] == v[j]);
        }
        lemma_light_tags(w);
        assert(v[v.len() - 1].data.len() <= 0x1_0000);
    }
}

proof fn lemma_light(s: Seq<IfdInfo>)
    requires
        forall|i: int| 0 <= i < s.len() ==> light(#[trigger] s[i]),
    ensures
        0 <= ifds_weight(s) <= s.len() * 0x104_0400,
    decreases s.len(),
{
    if s.len() > 0 {
        let w = s.drop_last();
        assert forall|i: int| 0 <= i < w.len() implies light(#[trigger] w[i]) by {
            assert(w[i] == s[i]);
        }
        lemma_light(w);
        assert(light(s[s.len() - 1]));
        lemma_light_tags(s.last().tags);
    }
}

/// Whether a directory has at most 256 tags, of at most 65536 bytes each, and no links.
pub open spec fn light(d: IfdInfo) -> bool {
    &&& d.tags.len() <= 256
    &&& forall|j: int|
        0 <= j < d.tags.len() ==> (#[trigger] d.tags[j]).data.len() <= 0x1_0000 && d.tags[j].hex != 0x8769
            && d.tags[j].hex != 0x8825 && d.tags[j].hex != 0xA005 && d.tags[j].hex != 0x0202
}

/// Metadata of ordinary size is written: directories in order, with a few hundred tags each, and no
/// thumbnail.
pub proof fn ordinary_metadata_is_written(s: Seq<IfdInfo>)
    requires
        ifds_ok(s),
        s.len() <= 64,
        forall|i: int| 0 <= i < s.len() ==> light(#[trigger] s[i]),
    ensures
        encodable(s, Seq::empty()),
{
    lemma_light(s);
    assert forall|i: int, j: int| 0 <= i < s.len() && 0 <= j < s[i].tags.len() implies tag_fits(
        #[trigger] s[i].tags[j],
    ) by {
        assert(light(s[i]));
    }
}

} // verus!
