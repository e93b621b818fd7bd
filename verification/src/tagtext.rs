//! How tags are shown.

use little_exif::metadata::Metadata;
use vstd::prelude::*;
use vstd::string::*;
use crate::bytes;
use crate::exif;
use crate::tags;
use crate::tags::{Ifd, Tag};
use crate::text;
use crate::textlaws;

verus! {

/// A tag in words.
#[derive(Debug)]
pub struct TagView {
    pub group: String,
    pub name: String,
    pub hex: u16,
    pub value: String,
}

/// A tag to be shown, with the names of its group and of itself.
#[derive(Debug)]
pub struct TagEntry {
    pub group: &'static str,
    pub name: String,
    pub tag: Tag,
}

/// What is to be shown of a tag.
pub struct EntryView {
    pub group: Seq<char>,
    pub name: Seq<char>,
    pub tag: tags::TagInfo,
}

impl View for TagEntry {
    type V = EntryView;

    open spec fn view(&self) -> EntryView {
        EntryView { group: self.group@, name: self.name@, tag: self.tag@ }
    }
}

/// The views of a list of entries.
pub open spec fn entries_view(v: Seq<TagEntry>) -> Seq<EntryView> {
    v.map_values(|e: TagEntry| e@)
}

/// The name of a group.
pub open spec fn name_of_group(group: u8) -> Seq<char> {
    if group == tags::GENERIC {
        "IFD0"@
    } else if group == tags::EXIF {
        "EXIF"@
    } else if group == tags::INTEROP {
        "Interop"@
    } else {
        "GPS"@
    }
}

/// The name of a group.
pub fn group_name(group: u8) -> (s: &'static str)
    ensures
        s@ == name_of_group(group),
{
    if group == tags::GENERIC {
        "IFD0"
    } else if group == tags::EXIF {
        "EXIF"
    } else if group == tags::INTEROP {
        "Interop"
    } else {
        "GPS"
    }
}

/// The name of a tag without a known one: its number.
pub open spec fn number_name(hex: u16) -> Seq<char> {
    "Unknown_0x"@ + text::hex4(hex as int)
}

/// The name in a label: what stands before the bracket.
pub open spec fn name_in_label(label: Seq<char>) -> Seq<char> {
    match text::char_from(label, 0, '(') {
        Some(i) => label.subrange(0, i),
        None => label,
    }
}

/// The name of a tag, given the label of its number: the number itself where it is unknown.
pub open spec fn name_of_tag(t: tags::TagInfo, label: Option<Seq<char>>) -> Seq<char> {
    if t.unknown {
        number_name(t.hex)
    } else {
        match label {
            Some(label) => name_in_label(label),
            None => number_name(t.hex),
        }
    }
}

/// The name of a tag, given the label of its number.
pub fn labelled_name(t: &Tag, label: Option<&str>) -> (s: String)
    ensures
        s@ == name_of_tag(
            t@,
            match label {
                Some(l) => Some(l@),
                None => None,
            },
        ),
{
    if !t.unknown {
        if let Some(label) = label {
            let cs: Vec<char> = text::chars_of(label);
            return match text::find_char(cs.as_slice(), 0, '(') {
                Some(i) => text::text_of(&cs.as_slice()[0..i]),
                None => text::copy_text(label),
            };
        }
    }
    let mut s: String = text::copy_text("Unknown_0x");
    text::push_hex4(&mut s, t.hex);
    s
}

/// The label of a tag's number, where its group is a known one.
pub open spec fn label_for(t: tags::TagInfo) -> Option<Seq<char>> {
    if t.group <= 3 {
        tags::tag_label(t.hex, t.group)
    } else {
        None
    }
}

/// The name of a tag; of an unknown one, its number.
pub fn tag_name(t: &Tag) -> (s: String)
    ensures
        s@ == name_of_tag(t@, label_for(t@)),
{
    if t.group > 3 {
        return labelled_name(t, None);
    }
    match tags::label_of(t.hex, t.group) {
        Some(label) => labelled_name(t, Some(label.as_str())),
        None => labelled_name(t, None),
    }
}

fn copy_tag(t: &Tag) -> (r: Tag)
    ensures
        r@ == t@,
{
    Tag {
        group: t.group,
        hex: t.hex,
        format: t.format,
        unknown: t.unknown,
        data: bytes::copy_bytes(t.data.as_slice()),
    }
}

/// What is shown of the first `n` tags of a directory: all but links to other directories.
pub open spec fn entries_of(group: u8, v: Seq<tags::TagInfo>, n: int) -> Seq<EntryView>
    decreases n,
{
    if n <= 0 {
        Seq::empty()
    } else if exif::is_link(v[n - 1]) {
        entries_of(group, v, n - 1)
    } else {
        entries_of(group, v, n - 1).push(
            EntryView {
                group: name_of_group(group),
                name: name_of_tag(v[n - 1], label_for(v[n - 1])),
                tag: v[n - 1],
            },
        )
    }
}

/// What is shown of the first `n` directories.
pub open spec fn listed(s: Seq<tags::IfdInfo>, n: int) -> Seq<EntryView>
    decreases n,
{
    if n <= 0 {
        Seq::empty()
    } else {
        listed(s, n - 1) + entries_of(s[n - 1].group, s[n - 1].tags, s[n - 1].tags.len() as int)
    }
}

/// Lists the tags to be shown, in the order of the directories.
pub fn list_tags(metadata: &Metadata) -> (out: Vec<TagEntry>)
    ensures
        entries_view(out@) == listed(tags::ifds_of(*metadata), tags::ifds_of(*metadata).len() as int),
{
    let ifds: Vec<Ifd> = tags::list_ifds(metadata);
    let ghost s = tags::ifds_view(ifds@);
    let mut out: Vec<TagEntry> = Vec::new();
    let mut i: usize = 0;
    assert(entries_view(out@) =~= Seq::empty());
    while i < ifds.len()
        invariant
            i <= ifds.len(),
            s == tags::ifds_view(ifds@),
            entries_view(out@) == listed(s, i as int),
        decreases ifds.len() - i,
    {
        let ghost before = entries_view(out@);
        assert(s[i as int] == ifds@[i as int]@);
        let ghost here = tags::tags_view(ifds@[i as int].tags@);
        let group: u8 = ifds[i].group;
        let mut j: usize = 0;
        assert(before + entries_of(group, here, 0) =~= before);
        while j < ifds[i].tags.len()
            invariant
                i < ifds.len(),
                j <= ifds@[i as int].tags@.len(),
                here == tags::tags_view(ifds@[i as int].tags@),
                entries_view(out@) == before + entries_of(group, here, j as int),
            decreases ifds@[i as int].tags@.len() - j,
        {
            let t: &Tag = &ifds[i].tags[j];
            assert(here[j as int] == t@);
            if !exif::is_link_tag(t) {
                let entry: TagEntry = TagEntry { group: group_name(group), name: tag_name(t), tag: copy_tag(t) };
                let ghost old_view = entries_view(out@);
                let ghost e = entry@;
                out.push(entry);
                assert(entries_view(out@) =~= old_view.push(e));
                assert(old_view.push(e) =~= before + entries_of(group, here, j + 1));
            }
            j += 1;
        }
        i += 1;
    }
    out
}

// ---- values -----------------------------------------------------------------------------

/// How many bytes one component of a format takes.
pub open spec fn width_of(format: u16) -> int {
    if format == tags::INT16U || format == tags::INT16S {
        2
    } else if format == tags::INT32U || format == tags::INT32S || format == tags::SINGLE {
        4
    } else if format == tags::RATIONAL64U || format == tags::RATIONAL64S || format == tags::DOUBLE {
        8
    } else {
        1
    }
}

fn bytes_per_component(format: u16) -> (n: usize)
    ensures
        n == width_of(format),
        n == 1 || n == 2 || n == 4 || n == 8,
{
    if format == tags::INT16U || format == tags::INT16S {
        2
    } else if format == tags::INT32U || format == tags::INT32S || format == tags::SINGLE {
        4
    } else if format == tags::RATIONAL64U || format == tags::RATIONAL64S || format == tags::DOUBLE {
        8
    } else {
        1
    }
}

/// A number taken as one with a sign, where `half` is the first that stands for a negative one.
pub open spec fn signed(n: int, half: int) -> int {
    if n >= half {
        n - 2 * half
    } else {
        n
    }
}

/// The size of a number without its sign.
pub open spec fn size(n: int) -> int {
    if n < 0 {
        -n
    } else {
        n
    }
}

/// The quotient of two numbers, one of which divides the other.
pub open spec fn quotient(num: int, den: int) -> int {
    if (num < 0) == (den < 0) {
        size(num) / size(den)
    } else {
        -(size(num) / size(den))
    }
}

/// A fraction in words: a whole number where it is one, else the fraction and its decimal value.
pub open spec fn ratio_text(num: int, den: int, decimal: Seq<char>) -> Seq<char> {
    if den == 0 {
        "0"@
    } else if size(num) % size(den) == 0 {
        text::dec_signed(quotient(num, den))
    } else {
        text::dec_signed(num) + "/"@ + text::dec_signed(den) + " ("@ + decimal + ")"@
    }
}

/// Shows a fraction. The decimal value is given, for where it is needed.
pub fn fmt_ratio(num: i64, den: i64, decimal: &str) -> (s: String)
    requires
        -0x1_0000_0000 <= num <= 0x1_0000_0000,
        -0x1_0000_0000 <= den <= 0x1_0000_0000,
    ensures
        s@ == ratio_text(num as int, den as int, decimal@),
{
    if den == 0 {
        return text::copy_text("0");
    }
    let n: u64 = if num < 0 {
        (-num) as u64
    } else {
        num as u64
    };
    let d: u64 = if den < 0 {
        (-den) as u64
    } else {
        den as u64
    };
    let mut s: String = String::new();
    if n % d == 0 {
        let q: u64 = n / d;
        proof {
            assert(q <= n) by (nonlinear_arith)
                requires
                    q == n / d,
                    d > 0,
            ;
        }
        let q: i64 = if (num < 0) == (den < 0) {
            q as i64
        } else {
            -(q as i64)
        };
        text::push_signed(&mut s, q);
        assert(s@ =~= ratio_text(num as int, den as int, decimal@));
        return s;
    }
    text::push_signed(&mut s, num);
    s.append("/");
    text::push_signed(&mut s, den);
    s.append(" (");
    s.append(decimal);
    s.append(")");
    assert(s@ =~= ratio_text(num as int, den as int, decimal@));
    s
}

/// Whether bytes can be shown as text: zeros, printable ASCII, and what is not ASCII.
pub open spec fn printable(body: Seq<u8>) -> bool {
    forall|i: int| 0 <= i < body.len() ==> (#[trigger] body[i]) == 0 || 0x20 <= body[i] <= 0x7e || body[i] >= 0x80
}

/// Bytes without the mark of their character set.
pub open spec fn undef_body(data: Seq<u8>) -> Seq<u8> {
    if data.len() > 8 && data.take(5) == exif::ascii_mark().take(5) {
        data.subrange(8, data.len() as int)
    } else {
        data
    }
}

/// Bytes without a meaning in words: as text where they can be, else how many they are.
pub open spec fn undef_text(data: Seq<u8>) -> Seq<char> {
    let body = undef_body(data);
    if printable(body) && body.len() > 0 {
        exif::clean(body)
    } else {
        "<"@ + text::dec(data.len()) + " 字节>"@
    }
}

fn all_printable(body: &[u8]) -> (r: bool)
    ensures
        r == printable(body@),
{
    let mut i: usize = 0;
    while i < body.len()
        invariant
            i <= body.len(),
            forall|k: int|
                0 <= k < i ==> (#[trigger] body@[k]) == 0 || 0x20 <= body@[k] <= 0x7e || body@[k] >= 0x80,
        decreases body.len() - i,
    {
        let b: u8 = body[i];
        if !(b == 0 || (0x20 <= b && b <= 0x7e) || b >= 0x80) {
            assert(body@[i as int] == b);
            return false;
        }
        i += 1;
    }
    true
}

/// Shows bytes without a meaning.
pub fn format_undef(data: &[u8]) -> (s: String)
    ensures
        s@ == undef_text(data@),
{
    let marked: bool = data.len() > 8 && data[0] == 0x41 && data[1] == 0x53 && data[2] == 0x43 && data[3]
        == 0x49 && data[4] == 0x49;
    proof {
        let m = exif::ascii_mark().take(5);
        if data@.len() > 8 {
            let d = data@.take(5);
            assert(m[0] == 0x41 && m[1] == 0x53 && m[2] == 0x43 && m[3] == 0x49 && m[4] == 0x49);
            assert(d[0] == data@[0] && d[1] == data@[1] && d[2] == data@[2] && d[3] == data@[3] && d[4]
                == data@[4]);
            if marked {
                assert(d =~= m);
            }
        }
    }
    let body: &[u8] = if marked {
        &data[8..data.len()]
    } else {
        data
    };
    assert(body@ =~= undef_body(data@));
    if all_printable(body) && body.len() > 0 {
        exif::clean_text(body)
    } else {
        let mut s: String = text::copy_text("<");
        text::push_dec(&mut s, data.len() as u64);
        s.append(" 字节>");
        s
    }
}

/// One component of a tag in words. The decimal value is given, for formats that need one.
pub open spec fn component_text(format: u16, data: Seq<u8>, i: int, decimal: Seq<char>) -> Seq<char> {
    if format == tags::INT8U {
        text::dec(data[i] as nat)
    } else if format == tags::INT8S {
        text::dec_signed(signed(data[i] as int, 0x80))
    } else if format == tags::INT16U {
        text::dec(bytes::le16_at(data, 2 * i) as nat)
    } else if format == tags::INT16S {
        text::dec_signed(signed(bytes::le16_at(data, 2 * i), 0x8000))
    } else if format == tags::INT32U {
        text::dec(bytes::le32_at(data, 4 * i) as nat)
    } else if format == tags::INT32S {
        text::dec_signed(signed(bytes::le32_at(data, 4 * i), 0x8000_0000))
    } else if format == tags::RATIONAL64U {
        ratio_text(bytes::le32_at(data, 8 * i), bytes::le32_at(data, 8 * i + 4), decimal)
    } else if format == tags::RATIONAL64S {
        ratio_text(
            signed(bytes::le32_at(data, 8 * i), 0x8000_0000),
            signed(bytes::le32_at(data, 8 * i + 4), 0x8000_0000),
            decimal,
        )
    } else {
        decimal
    }
}

/// Whether the components of a format need decimal values to be shown.
pub open spec fn needs_decimals(format: u16) -> bool {
    format == tags::RATIONAL64U || format == tags::RATIONAL64S || format == tags::SINGLE || format
        == tags::DOUBLE
}

/// Whether a format is one whose value is a list of numbers.
pub open spec fn is_numeric(format: u16) -> bool {
    1 <= format <= 12 && format != tags::TEXT && format != tags::UNDEF
}

/// How many components a tag has.
pub open spec fn components(t: tags::TagInfo) -> int {
    t.data.len() as int / width_of(t.format)
}

/// The value of a tag in words, given the decimal values of its components.
pub open spec fn value_text(t: tags::TagInfo, decimals: Seq<Seq<char>>) -> Seq<char> {
    if t.format == tags::TEXT {
        exif::clean(t.data)
    } else if is_numeric(t.format) {
        text::joined(
            Seq::new(
                components(t) as nat,
                |i: int|
                    component_text(
                        t.format,
                        t.data,
                        i,
                        if needs_decimals(t.format) {
                            decimals[i]
                        } else {
                            Seq::empty()
                        },
                    ),
            ),
            ", "@,
        )
    } else {
        undef_text(t.data)
    }
}

/// How many decimal values are needed to show a tag.
pub fn decimals_needed(t: &Tag) -> (n: usize)
    ensures
        n == (if needs_decimals(t.format) {
            components(t@)
        } else {
            0
        }),
{
    if t.format == tags::RATIONAL64U || t.format == tags::RATIONAL64S || t.format == tags::SINGLE || t.format
        == tags::DOUBLE {
        t.data.len() / bytes_per_component(t.format)
    } else {
        0
    }
}

fn signed_text(n: i64) -> (s: String)
    ensures
        s@ == text::dec_signed(n as int),
{
    let mut s: String = String::new();
    text::push_signed(&mut s, n);
    assert(s@ =~= text::dec_signed(n as int));
    s
}

fn take_sign(n: u32, half: u32) -> (r: i64)
    requires
        half <= 0x8000_0000,
    ensures
        r == signed(n as int, half as int),
{
    if n >= half {
        n as i64 - 2 * half as i64
    } else {
        n as i64
    }
}

fn format_component(format: u16, data: &Vec<u8>, i: usize, decimal: &str) -> (s: String)
    requires
        i < data.len() as int / width_of(format),
    ensures
        s@ == component_text(format, data@, i as int, decimal@),
{
    let b: &[u8] = data.as_slice();
    if format == tags::INT8U {
        text::dec_text(b[i] as u64)
    } else if format == tags::INT8S {
        signed_text(take_sign(b[i] as u32, 0x80))
    } else if format == tags::INT16U {
        text::dec_text(bytes::read_le16(b, 2 * i) as u64)
    } else if format == tags::INT16S {
        signed_text(take_sign(bytes::read_le16(b, 2 * i) as u32, 0x8000))
    } else if format == tags::INT32U {
        text::dec_text(bytes::read_le32(b, 4 * i) as u64)
    } else if format == tags::INT32S {
        signed_text(take_sign(bytes::read_le32(b, 4 * i), 0x8000_0000))
    } else if format == tags::RATIONAL64U {
        fmt_ratio(bytes::read_le32(b, 8 * i) as i64, bytes::read_le32(b, 8 * i + 4) as i64, decimal)
    } else if format == tags::RATIONAL64S {
        fmt_ratio(
            take_sign(bytes::read_le32(b, 8 * i), 0x8000_0000),
            take_sign(bytes::read_le32(b, 8 * i + 4), 0x8000_0000),
            decimal,
        )
    } else {
        text::copy_text(decimal)
    }
}

/// Shows the value of a tag. The decimal values of fractions and of floating point numbers are
/// given, one for each component.
pub fn format_value(t: &Tag, decimals: &[String]) -> (s: String)
    requires
        needs_decimals(t.format) ==> decimals.len() >= components(t@),
    ensures
        s@ == value_text(t@, text::views(decimals@)),
{
    if t.format == tags::TEXT {
        return exif::clean_text(t.data.as_slice());
    }
    if t.format == tags::UNDEF || t.format < 1 || t.format > 12 {
        return format_undef(t.data.as_slice());
    }
    let n: usize = t.data.len() / bytes_per_component(t.format);
    let need: bool = t.format == tags::RATIONAL64U || t.format == tags::RATIONAL64S || t.format == tags::SINGLE
        || t.format == tags::DOUBLE;
    let ghost whole = Seq::new(
        n as nat,
        |i: int|
            component_text(
                t.format,
                t.data@,
                i,
                if need {
                    text::views(decimals@)[i]
                } else {
                    Seq::empty()
                },
            ),
    );
    let mut items: Vec<String> = Vec::new();
    let mut i: usize = 0;
    while i < n
        invariant
            i <= n,
            n == components(t@),
            need ==> decimals.len() >= n,
            need == needs_decimals(t.format),
            items.len() == i,
            whole == Seq::new(
                n as nat,
                |k: int|
                    component_text(
                        t.format,
                        t.data@,
                        k,
                        if need {
                            text::views(decimals@)[k]
                        } else {
                            Seq::empty()
                        },
                    ),
            ),
            forall|k: int| 0 <= k < i ==> (#[trigger] items@[k])@ == whole[k],
        decreases n - i,
    {
        let item: String = if need {
            format_component(t.format, &t.data, i, decimals[i].as_str())
        } else {
            let item: String = format_component(t.format, &t.data, i, "");
            proof {
                reveal_strlit("");
                assert(""@ =~= Seq::<char>::empty());
            }
            item
        };
        items.push(item);
        i += 1;
    }
    assert(text::views(items@) =~= whole);
    text::join_texts(items.as_slice(), ", ")
}

/// Shows a tag.
pub fn view_tag(entry: &TagEntry, decimals: &[String]) -> (v: TagView)
    requires
        needs_decimals(entry.tag.format) ==> decimals.len() >= components(entry.tag@),
    ensures
        v.group@ == entry.group@,
        v.name@ == entry.name@,
        v.hex == entry.tag.hex,
        v.value@ == value_text(entry.tag@, text::views(decimals@)),
{
    TagView {
        group: text::copy_text(entry.group),
        name: text::copy_text(entry.name.as_str()),
        hex: entry.tag.hex,
        value: format_value(&entry.tag, decimals),
    }
}

// ---- what the list of tags holds --------------------------------------------------------

/// Whether a tag does more than tell where another directory is.
pub open spec fn worth_showing(t: tags::TagInfo) -> bool {
    t.unknown || !((t.group == 0 && t.hex == 0x8769) || (t.group == 0 && t.hex == 0x8825) || (t.group == 1 && t.hex
        == 0xA005))
}

/// How many of the first `n` tags do more than that.
pub open spec fn shown_among(v: Seq<tags::TagInfo>, n: int) -> nat
    decreases n,
{
    if n <= 0 {
        0
    } else if worth_showing(v[n - 1]) {
        shown_among(v, n - 1) + 1
    } else {
        shown_among(v, n - 1)
    }
}

/// How many of the tags in the first `n` directories do more than that.
pub open spec fn shown_in(s: Seq<tags::IfdInfo>, n: int) -> nat
    decreases n,
{
    if n <= 0 {
        0
    } else {
        shown_in(s, n - 1) + shown_among(s[n - 1].tags, s[n - 1].tags.len() as int)
    }
}

/// Whether an entry shows a tag: the tag itself, under the name of the group that it stands in.
pub open spec fn shows(e: EntryView, group: u8, t: tags::TagInfo) -> bool {
    &&& e.tag == t
    &&& e.name == name_of_tag(t, label_for(t))
    &&& group == 0 ==> e.group == "IFD0"@
    &&& group == 1 ==> e.group == "EXIF"@
    &&& group == 2 ==> e.group == "Interop"@
    &&& group == 3 ==> e.group == "GPS"@
}

proof fn lemma_entries(group: u8, v: Seq<tags::TagInfo>, n: int, k: int)
    requires
        0 <= n <= v.len(),
    ensures
        entries_of(group, v, n).len() == shown_among(v, n),
        0 <= k < n && worth_showing(v[k]) ==> shown_among(v, k) < shown_among(v, n) && shows(
            entries_of(group, v, n)[shown_among(v, k) as int],
            group,
            v[k],
        ),
    decreases n,
{
    if n > 0 {
        lemma_entries(group, v, n - 1, k);
    }
}

proof fn lemma_listed(s: Seq<tags::IfdInfo>, n: int, d: int, k: int)
    requires
        0 <= n <= s.len(),
    ensures
        listed(s, n).len() == shown_in(s, n),
        0 <= d < n && 0 <= k < s[d].tags.len() && worth_showing(s[d].tags[k]) ==> shown_in(s, d) + shown_among(
            s[d].tags,
            k,
        ) < shown_in(s, n) && shows(
            listed(s, n)[(shown_in(s, d) + shown_among(s[d].tags, k)) as int],
            s[d].group,
            s[d].tags[k],
        ),
    decreases n,
{
    if n > 0 {
        lemma_listed(s, n - 1, d, k);
        let last = s[n - 1];
        lemma_entries(last.group, last.tags, last.tags.len() as int, k);
    }
}

/// Every tag is listed that does more than tell where another directory is: once, in the order of
/// the directories and of the tags in them, with the name of its group. Nothing else is listed.
pub proof fn tags_are_listed(s: Seq<tags::IfdInfo>)
    ensures
        listed(s, s.len() as int).len() == shown_in(s, s.len() as int),
        forall|d: int, k: int|
            0 <= d < s.len() && 0 <= k < s[d].tags.len() && worth_showing(#[trigger] s[d].tags[k]) ==> shown_in(s, d)
                + shown_among(s[d].tags, k) < listed(s, s.len() as int).len() && shows(
                listed(s, s.len() as int)[(shown_in(s, d) + shown_among(s[d].tags, k)) as int],
                s[d].group,
                s[d].tags[k],
            ),
{
    let n = s.len() as int;
    lemma_listed(s, n, 0, 0);
    assert forall|d: int, k: int|
        0 <= d < s.len() && 0 <= k < s[d].tags.len() && worth_showing(#[trigger] s[d].tags[k]) implies shown_in(s, d)
        + shown_among(s[d].tags, k) < listed(s, n).len() && shows(
        listed(s, n)[(shown_in(s, d) + shown_among(s[d].tags, k)) as int],
        s[d].group,
        s[d].tags[k],
    ) by {
        lemma_listed(s, n, d, k);
    }
}

/// The value of a hexadecimal digit.
pub open spec fn hex_value(c: char) -> int {
    if '0' <= c <= '9' {
        (c as u32) - ('0' as u32)
    } else if 'A' <= c <= 'F' {
        (c as u32) - ('A' as u32) + 10
    } else {
        -1
    }
}

/// A tag is called by what stands before the bracket in its label. One without a label is called by
/// its number, in four hexadecimal digits.
pub proof fn tags_are_called_by_their_labels(t: tags::TagInfo, a: Seq<char>, b: Seq<char>)
    requires
        !a.contains('('),
    ensures
        !t.unknown ==> name_of_tag(t, Some(a + "("@ + b)) == a,
        !t.unknown ==> name_of_tag(t, Some(a)) == a,
        t.unknown ==> name_of_tag(t, Some(a)) == name_of_tag(t, None),
        ({
            let n = name_of_tag(t, None);
            &&& n.len() == 14
            &&& n.take(10) == "Unknown_0x"@
            &&& 0 <= hex_value(n[10]) && 0 <= hex_value(n[11]) && 0 <= hex_value(n[12]) && 0 <= hex_value(n[13])
            &&& hex_value(n[10]) * 4096 + hex_value(n[11]) * 256 + hex_value(n[12]) * 16 + hex_value(n[13]) == t.hex
        }),
{
    reveal_strlit("(");
    reveal_strlit("Unknown_0x");
    assert("("@ =~= seq!['(']);
    textlaws::lemma_first_char(a, '(', b, 0);
    assert((a + seq!['('] + b).subrange(0, a.len() as int) =~= a);
    if text::char_from(a, 0, '(') is Some {
        lemma_char_there(a, 0, '(');
    }
    let n = number_name(t.hex);
    let h = t.hex as int;
    assert(n.take(10) =~= "Unknown_0x"@);
    assert(n[10] == text::hex_digit(h / 4096 % 16));
    assert(n[11] == text::hex_digit(h / 256 % 16));
    assert(n[12] == text::hex_digit(h / 16 % 16));
    assert(n[13] == text::hex_digit(h % 16));
    lemma_hex_digit(h / 4096 % 16);
    lemma_hex_digit(h / 256 % 16);
    lemma_hex_digit(h / 16 % 16);
    lemma_hex_digit(h % 16);
}

proof fn lemma_hex_digit(d: int)
    requires
        0 <= d < 16,
    ensures
        hex_value(text::hex_digit(d)) == d,
{
}

proof fn lemma_char_there(s: Seq<char>, from: int, c: char)
    requires
        0 <= from,
        text::char_from(s, from, c) is Some,
    ensures
        s.contains(c),
    decreases s.len() - from,
{
    if from < s.len() && s[from] != c {
        lemma_char_there(s, from + 1, c);
    }
}

} // verus!
