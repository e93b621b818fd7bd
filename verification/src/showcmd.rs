//! Showing metadata: as text, as JSON and as CSV.

use vstd::prelude::*;
use vstd::string::*;
use vstd::utf8::encode_utf8;
use crate::iptc;
use crate::tagtext::TagView;
use crate::text;

verus! {

/// A position in decimal degrees, and a height in metres.
#[derive(Debug)]
pub struct PositionText {
    pub lat: String,
    pub lon: String,
    pub alt: Option<String>,
}

/// What a position says.
pub struct PositionWords {
    pub lat: Seq<char>,
    pub lon: Seq<char>,
    pub alt: Option<Seq<char>>,
}

impl View for PositionText {
    type V = PositionWords;

    open spec fn view(&self) -> PositionWords {
        PositionWords { lat: self.lat@, lon: self.lon@, alt: text::opt(self.alt) }
    }
}

/// The metadata of a file.
#[derive(Debug)]
pub struct Sheet {
    pub position: Option<PositionText>,
    pub tags: Vec<TagView>,
    pub xmp: Vec<(String, String)>,
    pub iptc: Vec<(String, String)>,
    /// The properties in a file beside it.
    pub sidecar: Vec<(String, String)>,
}

/// What is known of a file.
#[derive(Debug)]
pub enum Content {
    /// It has no place for metadata, with a hint.
    Unsupported(String),
    /// It could not be read, and why; with the properties in a file beside it.
    Unreadable(String, Vec<(String, String)>),
    /// Its metadata.
    Read(Sheet),
}

/// A file to be shown.
#[derive(Debug)]
pub struct ShownFile {
    pub name: String,
    pub content: Content,
}

/// A tag in words.
pub struct TagWords {
    pub group: Seq<char>,
    pub name: Seq<char>,
    pub hex: u16,
    pub value: Seq<char>,
}

impl View for TagView {
    type V = TagWords;

    open spec fn view(&self) -> TagWords {
        TagWords { group: self.group@, name: self.name@, hex: self.hex, value: self.value@ }
    }
}

/// The views of a list of tags.
pub open spec fn words_view(v: Seq<TagView>) -> Seq<TagWords> {
    v.map_values(|t: TagView| t@)
}

/// What the metadata of a file says.
pub struct SheetView {
    pub position: Option<PositionWords>,
    pub tags: Seq<TagWords>,
    pub xmp: iptc::Properties,
    pub iptc: iptc::Properties,
    pub sidecar: iptc::Properties,
}

impl View for Sheet {
    type V = SheetView;

    open spec fn view(&self) -> SheetView {
        SheetView {
            position: match self.position {
                Some(p) => Some(p@),
                None => None,
            },
            tags: words_view(self.tags@),
            xmp: iptc::properties_view(self.xmp@),
            iptc: iptc::properties_view(self.iptc@),
            sidecar: iptc::properties_view(self.sidecar@),
        }
    }
}

/// What is known of a file.
pub enum ContentView {
    Unsupported(Seq<char>),
    Unreadable(Seq<char>, iptc::Properties),
    Read(SheetView),
}

impl View for Content {
    type V = ContentView;

    open spec fn view(&self) -> ContentView {
        match *self {
            Content::Unsupported(hint) => ContentView::Unsupported(hint@),
            Content::Unreadable(why, sidecar) => ContentView::Unreadable(
                why@,
                iptc::properties_view(sidecar@),
            ),
            Content::Read(sheet) => ContentView::Read(sheet@),
        }
    }
}

/// A file to be shown.
pub struct FileView {
    pub name: Seq<char>,
    pub content: ContentView,
}

impl View for ShownFile {
    type V = FileView;

    open spec fn view(&self) -> FileView {
        FileView { name: self.name@, content: self.content@ }
    }
}

/// The views of a list of files.
pub open spec fn files_view(v: Seq<ShownFile>) -> Seq<FileView> {
    v.map_values(|f: ShownFile| f@)
}

// ---- choosing ---------------------------------------------------------------------------

/// Whether something of this name is shown: its name contains the filter, in any letter case.
pub open spec fn passes(name: Seq<char>, filter: Option<Seq<char>>) -> bool {
    match filter {
        Some(f) => text::contains_text(text::lowered(name), text::lowered(f)),
        None => true,
    }
}

/// The properties that are shown.
pub open spec fn passing(s: iptc::Properties, filter: Option<Seq<char>>) -> iptc::Properties
    decreases s.len(),
{
    if s.len() == 0 {
        s
    } else if passes(s.last().0, filter) {
        passing(s.drop_last(), filter).push(s.last())
    } else {
        passing(s.drop_last(), filter)
    }
}

/// The tags that are shown.
pub open spec fn passing_tags(s: Seq<TagWords>, filter: Option<Seq<char>>) -> Seq<TagWords>
    decreases s.len(),
{
    if s.len() == 0 {
        s
    } else if passes(s.last().name, filter) {
        passing_tags(s.drop_last(), filter).push(s.last())
    } else {
        passing_tags(s.drop_last(), filter)
    }
}

/// A filter.
pub open spec fn words_of(filter: Option<&str>) -> Option<Seq<char>> {
    match filter {
        Some(f) => Some(f@),
        None => None,
    }
}

fn passes_filter(name: &str, filter: Option<&str>) -> (r: bool)
    ensures
        r == passes(name@, words_of(filter)),
{
    match filter {
        Some(f) => {
            let n: Vec<char> = text::chars_of(name);
            let low: Vec<char> = text::lower_chars(n.as_slice());
            let f: Vec<char> = text::chars_of(f);
            let f: Vec<char> = text::lower_chars(f.as_slice());
            text::find_chars(low.as_slice(), 0, f.as_slice()).is_some()
        },
        None => true,
    }
}

/// The properties whose names contain the filter, in any letter case.
pub fn filter_props(props: &Vec<(String, String)>, filter: Option<&str>) -> (out: Vec<(String, String)>)
    ensures
        iptc::properties_view(out@) == passing(iptc::properties_view(props@), words_of(filter)),
{
    let ghost all = iptc::properties_view(props@);
    let ghost f = words_of(filter);
    let mut out: Vec<(String, String)> = Vec::new();
    let mut i: usize = 0;
    assert(iptc::properties_view(out@) =~= passing(all.take(0), f));
    while i < props.len()
        invariant
            i <= props.len(),
            all == iptc::properties_view(props@),
            f == words_of(filter),
            iptc::properties_view(out@) == passing(all.take(i as int), f),
        decreases props.len() - i,
    {
        proof {
            assert(all[i as int] == (props@[i as int].0@, props@[i as int].1@));
            assert(all.take(i + 1).drop_last() =~= all.take(i as int));
        }
        if passes_filter(props[i].0.as_str(), filter) {
            let ghost before = iptc::properties_view(out@);
            out.push((text::copy_text(props[i].0.as_str()), text::copy_text(props[i].1.as_str())));
            assert(iptc::properties_view(out@) =~= before.push(all[i as int]));
        }
        i += 1;
    }
    assert(all.take(all.len() as int) =~= all);
    out
}

fn filter_tags(v: &Vec<TagView>, filter: Option<&str>) -> (out: Vec<TagView>)
    ensures
        words_view(out@) == passing_tags(words_view(v@), words_of(filter)),
{
    let ghost all = words_view(v@);
    let ghost f = words_of(filter);
    let mut out: Vec<TagView> = Vec::new();
    let mut i: usize = 0;
    assert(words_view(out@) =~= passing_tags(all.take(0), f));
    while i < v.len()
        invariant
            i <= v.len(),
            all == words_view(v@),
            f == words_of(filter),
            words_view(out@) == passing_tags(all.take(i as int), f),
        decreases v.len() - i,
    {
        proof {
            assert(all[i as int] == v@[i as int]@);
            assert(all.take(i + 1).drop_last() =~= all.take(i as int));
        }
        if passes_filter(v[i].name.as_str(), filter) {
            let ghost before = words_view(out@);
            let t: TagView = TagView {
                group: text::copy_text(v[i].group.as_str()),
                name: text::copy_text(v[i].name.as_str()),
                hex: v[i].hex,
                value: text::copy_text(v[i].value.as_str()),
            };
            assert(t@ == all[i as int]);
            out.push(t);
            assert(words_view(out@) =~= before.push(all[i as int]));
        }
        i += 1;
    }
    assert(all.take(all.len() as int) =~= all);
    out
}

// ---- as text ----------------------------------------------------------------------------

/// The names and values of tags.
pub open spec fn as_properties(v: Seq<TagWords>) -> iptc::Properties {
    v.map_values(|t: TagWords| (t.name, t.value))
}

pub(crate) fn tag_properties(v: &Vec<TagView>) -> (out: Vec<(String, String)>)
    ensures
        iptc::properties_view(out@) == as_properties(words_view(v@)),
{
    let mut out: Vec<(String, String)> = Vec::new();
    let mut i: usize = 0;
    while i < v.len()
        invariant
            i <= v.len(),
            out.len() == i,
            forall|k: int|
                0 <= k < i ==> (#[trigger] out@[k]).0@ == v@[k].name@ && out@[k].1@ == v@[k].value@,
        decreases v.len() - i,
    {
        out.push((text::copy_text(v[i].name.as_str()), text::copy_text(v[i].value.as_str())));
        i += 1;
    }
    assert(iptc::properties_view(out@) =~= as_properties(words_view(v@)));
    out
}

/// The length in bytes of the longest name.
pub open spec fn longest(s: iptc::Properties) -> nat
    decreases s.len(),
{
    if s.len() == 0 {
        0
    } else {
        let front = longest(s.drop_last());
        let here = encode_utf8(s.last().0).len();
        if here > front {
            here
        } else {
            front
        }
    }
}

/// The larger of two numbers.
pub open spec fn larger(a: nat, b: nat) -> nat {
    if a > b {
        a
    } else {
        b
    }
}

/// A column width: at most 28.
pub open spec fn column(n: nat) -> nat {
    if n > 28 {
        28
    } else {
        n
    }
}

fn longest_name(v: &Vec<(String, String)>) -> (n: usize)
    ensures
        n == longest(iptc::properties_view(v@)),
{
    let ghost all = iptc::properties_view(v@);
    let mut n: usize = 0;
    let mut i: usize = 0;
    assert(all.take(0) =~= Seq::empty());
    while i < v.len()
        invariant
            i <= v.len(),
            all == iptc::properties_view(v@),
            n == longest(all.take(i as int)),
        decreases v.len() - i,
    {
        proof {
            assert(all[i as int] == (v@[i as int].0@, v@[i as int].1@));
            assert(all.take(i + 1).drop_last() =~= all.take(i as int));
        }
        let here: usize = v[i].0.as_str().as_bytes().len();
        if here > n {
            n = here;
        }
        i += 1;
    }
    assert(all.take(all.len() as int) =~= all);
    n
}

/// Names and values, one to a line, in columns.
pub open spec fn columns(s: iptc::Properties, width: nat) -> Seq<char>
    decreases s.len(),
{
    if s.len() == 0 {
        Seq::empty()
    } else {
        columns(s.drop_last(), width) + "  "@ + text::padded_right(s.last().0, width) + "  "@ + s.last().1
            + "\n"@
    }
}

fn push_columns(out: &mut String, v: &Vec<(String, String)>, width: usize)
    ensures
        final(out)@ == old(out)@ + columns(iptc::properties_view(v@), width as nat),
{
    let ghost all = iptc::properties_view(v@);
    let ghost start = out@;
    let mut i: usize = 0;
    assert(out@ =~= start + columns(all.take(0), width as nat));
    while i < v.len()
        invariant
            i <= v.len(),
            all == iptc::properties_view(v@),
            out@ == start + columns(all.take(i as int), width as nat),
        decreases v.len() - i,
    {
        proof {
            assert(all[i as int] == (v@[i as int].0@, v@[i as int].1@));
            assert(all.take(i + 1).drop_last() =~= all.take(i as int));
        }
        out.append("  ");
        text::push_padded_right(out, v[i].0.as_str(), width);
        out.append("  ");
        out.append(v[i].1.as_str());
        out.append("\n");
        assert(out@ =~= start + columns(all.take(i + 1), width as nat));
        i += 1;
    }
    assert(all.take(all.len() as int) =~= all);
}

/// A part with its title, if there is anything in it.
pub open spec fn section(title: Seq<char>, s: iptc::Properties, width: nat) -> Seq<char> {
    text::when(s.len() > 0, title + columns(s, width))
}

fn push_section(out: &mut String, title: &str, v: &Vec<(String, String)>, width: usize)
    ensures
        final(out)@ == old(out)@ + section(title@, iptc::properties_view(v@), width as nat),
{
    let ghost start = out@;
    if v.len() > 0 {
        out.append(title);
        push_columns(out, v, width);
    }
    assert(out@ =~= start + section(title@, iptc::properties_view(v@), width as nat));
}

/// A position in words.
pub open spec fn position_line(p: Option<PositionWords>) -> Seq<char> {
    match p {
        Some(p) => "  位置："@ + p.lat + ", "@ + p.lon + (match p.alt {
            Some(a) => "，海拔 "@ + a + "m"@,
            None => Seq::empty(),
        }) + "\n"@,
        None => Seq::empty(),
    }
}

/// The metadata of a file as text.
pub open spec fn sheet_text(s: SheetView, filter: Option<Seq<char>>) -> Seq<char> {
    let shown = as_properties(passing_tags(s.tags, filter));
    let xmp = passing(s.xmp, filter);
    let iptc = passing(s.iptc, filter);
    let sidecar = passing(s.sidecar, filter);
    let width = column(
        larger(larger(larger(longest(shown), longest(xmp)), longest(iptc)), longest(sidecar)),
    );
    position_line(s.position) + if shown.len() == 0 && xmp.len() == 0 && iptc.len() == 0 && sidecar.len() == 0 {
        "  (无匹配的元数据)\n"@
    } else {
        columns(shown, width) + section("  --- XMP ---\n"@, xmp, width) + section(
            "  --- IPTC ---\n"@,
            iptc,
            width,
        ) + section("  --- XMP (sidecar) ---\n"@, sidecar, width)
    }
}

fn position_text(p: &Option<PositionText>) -> (s: String)
    ensures
        s@ == position_line(
            match *p {
                Some(p) => Some(p@),
                None => None,
            },
        ),
{
    match p {
        Some(p) => {
            let mut s: String = text::copy_text("  位置：").concat(p.lat.as_str()).concat(", ").concat(
                p.lon.as_str(),
            );
            let ghost a = s@;
            if let Some(alt) = &p.alt {
                s.append(text::copy_text("，海拔 ").concat(alt.as_str()).concat("m").as_str());
            }
            assert(s@ =~= a + (match p@.alt {
                Some(a) => "，海拔 "@ + a + "m"@,
                None => Seq::empty(),
            }));
            s.append("\n");
            s
        },
        None => {
            let s: String = String::new();
            assert(s@ =~= Seq::empty());
            s
        },
    }
}

fn larger_of(a: usize, b: usize) -> (r: usize)
    ensures
        r == larger(a as nat, b as nat),
{
    if a > b {
        a
    } else {
        b
    }
}

fn shared_width(
    shown: &Vec<(String, String)>,
    xmp: &Vec<(String, String)>,
    iptc: &Vec<(String, String)>,
    sidecar: &Vec<(String, String)>,
) -> (w: usize)
    ensures
        w == column(
            larger(
                larger(
                    larger(longest(iptc::properties_view(shown@)), longest(iptc::properties_view(xmp@))),
                    longest(iptc::properties_view(iptc@)),
                ),
                longest(iptc::properties_view(sidecar@)),
            ),
        ),
{
    let two: usize = larger_of(longest_name(shown), longest_name(xmp));
    let three: usize = larger_of(two, longest_name(iptc));
    let width: usize = larger_of(three, longest_name(sidecar));
    if width > 28 {
        28
    } else {
        width
    }
}

#[verifier::spinoff_prover]
fn show_sheet(sheet: &Sheet, filter: Option<&str>) -> (s: String)
    ensures
        s@ == sheet_text(sheet@, words_of(filter)),
{
    let shown: Vec<(String, String)> = tag_properties(&filter_tags(&sheet.tags, filter));
    let xmp: Vec<(String, String)> = filter_props(&sheet.xmp, filter);
    let iptc: Vec<(String, String)> = filter_props(&sheet.iptc, filter);
    let sidecar: Vec<(String, String)> = filter_props(&sheet.sidecar, filter);
    let mut s: String = position_text(&sheet.position);
    if shown.len() == 0 && xmp.len() == 0 && iptc.len() == 0 && sidecar.len() == 0 {
        s.append("  (无匹配的元数据)\n");
    } else {
        let width: usize = shared_width(&shown, &xmp, &iptc, &sidecar);
        let mut body: String = String::new();
        push_columns(&mut body, &shown, width);
        assert(body@ =~= columns(iptc::properties_view(shown@), width as nat));
        push_section(&mut body, "  --- XMP ---\n", &xmp, width);
        push_section(&mut body, "  --- IPTC ---\n", &iptc, width);
        push_section(&mut body, "  --- XMP (sidecar) ---\n", &sidecar, width);
        s.append(body.as_str());
    }
    s
}

/// What is shown of a file behind its name.
pub open spec fn content_text(c: ContentView, filter: Option<Seq<char>>) -> Seq<char> {
    match c {
        ContentView::Unsupported(hint) => "  "@ + hint + "\n"@,
        ContentView::Unreadable(why, sidecar) => {
            let beside = passing(sidecar, filter);
            if beside.len() == 0 {
                "  读取失败："@ + why + "\n"@
            } else {
                section("  --- XMP (sidecar) ---\n"@, beside, column(longest(beside)))
            }
        },
        ContentView::Read(sheet) => sheet_text(sheet, filter),
    }
}

/// Whether a file counts as failed: it could not be read, and nothing beside it is shown.
pub open spec fn failed_content(c: ContentView, filter: Option<Seq<char>>) -> bool {
    match c {
        ContentView::Unreadable(_, sidecar) => passing(sidecar, filter).len() == 0,
        _ => false,
    }
}

fn show_content(c: &Content, filter: Option<&str>) -> (r: (String, bool))
    ensures
        r.0@ == content_text(c@, words_of(filter)),
        r.1 == failed_content(c@, words_of(filter)),
{
    match c {
        Content::Unsupported(hint) => (text::copy_text("  ").concat(hint.as_str()).concat("\n"), false),
        Content::Unreadable(why, sidecar) => {
            let beside: Vec<(String, String)> = filter_props(sidecar, filter);
            if beside.len() == 0 {
                (text::copy_text("  读取失败：").concat(why.as_str()).concat("\n"), true)
            } else {
                let mut width: usize = longest_name(&beside);
                if width > 28 {
                    width = 28;
                }
                let mut s: String = String::new();
                push_section(&mut s, "  --- XMP (sidecar) ---\n", &beside, width);
                assert(s@ =~= content_text(c@, words_of(filter)));
                (s, false)
            }
        },
        Content::Read(sheet) => (show_sheet(sheet, filter), false),
    }
}

/// What is shown of the first `n` files.
pub open spec fn files_text(v: Seq<FileView>, filter: Option<Seq<char>>, n: int) -> Seq<char>
    decreases n,
{
    if n <= 0 {
        Seq::empty()
    } else {
        files_text(v, filter, n - 1) + text::when(n > 1, "\n"@) + "=== "@ + v[n - 1].name + " ===\n"@
            + content_text(v[n - 1].content, filter)
    }
}

/// How many of the first `n` files count as failed.
pub open spec fn failed_files(v: Seq<FileView>, filter: Option<Seq<char>>, n: int) -> int
    decreases n,
{
    if n <= 0 {
        0
    } else {
        failed_files(v, filter, n - 1) + if failed_content(v[n - 1].content, filter) {
            1int
        } else {
            0
        }
    }
}

/// Shows files as text, and counts those that failed.
pub fn show_text(files: &Vec<ShownFile>, filter: Option<&str>) -> (r: (String, usize))
    ensures
        r.0@ == files_text(files_view(files@), words_of(filter), files@.len() as int),
        r.1 == failed_files(files_view(files@), words_of(filter), files@.len() as int),
{
    let ghost all = files_view(files@);
    let ghost f = words_of(filter);
    let mut s: String = String::new();
    let mut failed: usize = 0;
    let mut i: usize = 0;
    assert(s@ =~= Seq::empty());
    while i < files.len()
        invariant
            i <= files.len(),
            all == files_view(files@),
            f == words_of(filter),
            s@ == files_text(all, f, i as int),
            failed == failed_files(all, f, i as int),
            failed <= i,
        decreases files.len() - i,
    {
        assert(all[i as int] == files@[i as int]@);
        text::push_when(&mut s, i > 0, "\n");
        s.append("=== ");
        s.append(files[i].name.as_str());
        s.append(" ===\n");
        let (shown, bad): (String, bool) = show_content(&files[i].content, filter);
        s.append(shown.as_str());
        if bad {
            failed += 1;
        }
        i += 1;
    }
    (s, failed)
}

// ---- as JSON ----------------------------------------------------------------------------

/// A lower case hexadecimal digit.
pub open spec fn small_hex(d: int) -> char {
    if d < 10 {
        (48 + d) as char
    } else {
        (87 + d) as char
    }
}

/// A character in a JSON string.
pub open spec fn json_char(c: char) -> Seq<char> {
    let n = c as u32;
    if c == '"' {
        seq!['\\', '"']
    } else if c == '\\' {
        seq!['\\', '\\']
    } else if c == '\n' {
        seq!['\\', 'n']
    } else if c == '\r' {
        seq!['\\', 'r']
    } else if c == '\t' {
        seq!['\\', 't']
    } else if n < 0x20 {
        seq!['\\', 'u', '0', '0', small_hex(n as int / 16), small_hex(n as int % 16)]
    } else {
        seq![c]
    }
}

/// A text in a JSON string.
pub open spec fn json_escaped(s: Seq<char>) -> Seq<char>
    decreases s.len(),
{
    if s.len() == 0 {
        s
    } else {
        json_escaped(s.drop_last()) + json_char(s.last())
    }
}

fn push_pair(out: &mut String, a: char, b: char)
    ensures
        final(out)@ == old(out)@ + seq![a, b],
{
    let ghost start = out@;
    out.push(a);
    out.push(b);
    assert(out@ =~= start + seq![a, b]);
}

fn push_json_char(out: &mut String, c: char)
    ensures
        final(out)@ == old(out)@ + json_char(c),
{
    let n: u32 = c as u32;
    let ghost start = out@;
    if c == '"' {
        push_pair(out, '\\', '"');
    } else if c == '\\' {
        push_pair(out, '\\', '\\');
    } else if c == '\n' {
        push_pair(out, '\\', 'n');
    } else if c == '\r' {
        push_pair(out, '\\', 'r');
    } else if c == '\t' {
        push_pair(out, '\\', 't');
    } else if n < 0x20 {
        let hi: u8 = (n / 16) as u8;
        let lo: u8 = (n % 16) as u8;
        push_pair(out, '\\', 'u');
        push_pair(out, '0', '0');
        let h: char = if hi < 10 {
            (48 + hi) as char
        } else {
            (87 + hi) as char
        };
        let l: char = if lo < 10 {
            (48 + lo) as char
        } else {
            (87 + lo) as char
        };
        push_pair(out, h, l);
        assert(out@ =~= start + json_char(c));
    } else {
        out.push(c);
        assert(out@ =~= start + json_char(c));
    }
}

/// A text as it stands in a JSON string.
pub fn json_escape(s: &str) -> (out: String)
    ensures
        out@ == json_escaped(s@),
{
    let cs: Vec<char> = text::chars_of(s);
    let mut out: String = String::new();
    let mut i: usize = 0;
    assert(out@ =~= json_escaped(cs@.take(0)));
    while i < cs.len()
        invariant
            i <= cs.len(),
            out@ == json_escaped(cs@.take(i as int)),
        decreases cs.len() - i,
    {
        push_json_char(&mut out, cs[i]);
        assert(cs@.take(i + 1).drop_last() =~= cs@.take(i as int));
        i += 1;
    }
    assert(cs@.take(cs@.len() as int) =~= cs@);
    out
}

/// Escaped text neither ends the string nor breaks the line.
pub proof fn escaped_text_is_closed(s: Seq<char>)
    ensures
        forall|i: int|
            0 <= i < json_escaped(s).len() ==> (#[trigger] json_escaped(s)[i]) as u32 >= 0x20 && (
            json_escaped(s)[i] == '"' ==> i > 0 && json_escaped(s)[i - 1] == '\\'),
    decreases s.len(),
{
    if s.len() > 0 {
        let front = json_escaped(s.drop_last());
        escaped_text_is_closed(s.drop_last());
        let r = json_escaped(s);
        let last = json_char(s.last());
        assert forall|i: int| 0 <= i < r.len() implies (#[trigger] r[i]) as u32 >= 0x20 && (r[i] == '"' ==> i > 0
            && r[i - 1] == '\\') by {
            if i < front.len() {
                assert(r[i] == front[i]);
                if i > 0 {
                    assert(r[i - 1] == front[i - 1]);
                }
            } else {
                assert(r[i] == last[i - front.len()]);
                if i > front.len() {
                    assert(r[i - 1] == last[i - 1 - front.len()]);
                }
            }
        }
    }
}

/// A comma, unless the item with this number is the last.
pub open spec fn comma(i: int, n: int) -> Seq<char> {
    if i + 1 < n {
        ","@
    } else {
        ""@
    }
}

/// The first `n` tags in JSON.
pub open spec fn json_tags(v: Seq<TagWords>, n: int) -> Seq<char>
    decreases n,
{
    if n <= 0 {
        Seq::empty()
    } else {
        let t = v[n - 1];
        json_tags(v, n - 1) + "      {\"group\": \""@ + t.group + "\", \"name\": \""@ + json_escaped(t.name)
            + "\", \"hex\": \"0x"@ + text::hex4(t.hex as int) + "\", \"value\": \""@ + json_escaped(t.value)
            + "\"}"@ + comma(n - 1, v.len() as int) + "\n"@
    }
}

fn push_json_tags(out: &mut String, v: &Vec<TagView>)
    ensures
        final(out)@ == old(out)@ + json_tags(words_view(v@), v@.len() as int),
{
    let ghost all = words_view(v@);
    let ghost start = out@;
    let mut i: usize = 0;
    assert(out@ =~= start + json_tags(all, 0));
    while i < v.len()
        invariant
            i <= v.len(),
            all == words_view(v@),
            out@ == start + json_tags(all, i as int),
        decreases v.len() - i,
    {
        assert(all[i as int] == v@[i as int]@);
        out.append("      {\"group\": \"");
        out.append(v[i].group.as_str());
        out.append("\", \"name\": \"");
        out.append(json_escape(v[i].name.as_str()).as_str());
        out.append("\", \"hex\": \"0x");
        text::push_hex4(out, v[i].hex);
        out.append("\", \"value\": \"");
        out.append(json_escape(v[i].value.as_str()).as_str());
        out.append("\"}");
        if i + 1 < v.len() {
            out.append(",");
        } else {
            out.append("");
        }
        out.append("\n");
        assert(out@ =~= start + json_tags(all, i + 1));
        i += 1;
    }
}

/// The first `n` properties in JSON.
pub open spec fn json_pairs(s: iptc::Properties, n: int) -> Seq<char>
    decreases n,
{
    if n <= 0 {
        Seq::empty()
    } else {
        json_pairs(s, n - 1) + "      \""@ + json_escaped(s[n - 1].0) + "\": \""@ + json_escaped(s[n - 1].1)
            + "\""@ + comma(n - 1, s.len() as int) + "\n"@
    }
}

/// Properties in JSON under a key, if there are any.
pub open spec fn json_block(key: Seq<char>, s: iptc::Properties) -> Seq<char> {
    text::when(s.len() > 0, ",\n    \""@ + key + "\": {\n"@ + json_pairs(s, s.len() as int) + "    }"@)
}

fn push_json_block(out: &mut String, key: &str, v: &Vec<(String, String)>)
    ensures
        final(out)@ == old(out)@ + json_block(key@, iptc::properties_view(v@)),
{
    let ghost all = iptc::properties_view(v@);
    let ghost begin = out@;
    if v.len() > 0 {
        out.append(",\n    \"");
        out.append(key);
        out.append("\": {\n");
        let ghost start = out@;
        let mut i: usize = 0;
        assert(out@ =~= start + json_pairs(all, 0));
        while i < v.len()
            invariant
                i <= v.len(),
                all == iptc::properties_view(v@),
                out@ == start + json_pairs(all, i as int),
            decreases v.len() - i,
        {
            assert(all[i as int] == (v@[i as int].0@, v@[i as int].1@));
            out.append("      \"");
            out.append(json_escape(v[i].0.as_str()).as_str());
            out.append("\": \"");
            out.append(json_escape(v[i].1.as_str()).as_str());
            out.append("\"");
            if i + 1 < v.len() {
                out.append(",");
            } else {
                out.append("");
            }
            out.append("\n");
            assert(out@ =~= start + json_pairs(all, i + 1));
            i += 1;
        }
        out.append("    }");
    }
    assert(out@ =~= begin + json_block(key@, all));
}

/// The metadata of a file in JSON.
pub open spec fn json_file(name: Seq<char>, s: SheetView, filter: Option<Seq<char>>) -> Seq<char> {
    let shown = passing_tags(s.tags, filter);
    "  {\n    \"file\": \""@ + json_escaped(name) + "\",\n"@ + (match s.position {
        Some(p) => "    \"latitude\": "@ + p.lat + ",\n    \"longitude\": "@ + p.lon + ",\n"@,
        None => Seq::empty(),
    }) + "    \"tags\": [\n"@ + json_tags(shown, shown.len() as int) + "    ]"@ + json_block(
        "xmp"@,
        passing(s.xmp, filter),
    ) + json_block("iptc"@, passing(s.iptc, filter)) + "\n  }"@
}

fn file_json(name: &str, sheet: &Sheet, filter: Option<&str>) -> (s: String)
    ensures
        s@ == json_file(name@, sheet@, words_of(filter)),
{
    let mut s: String = text::copy_text("  {\n    \"file\": \"");
    s.append(json_escape(name).as_str());
    s.append("\",\n");
    let ghost a = s@;
    if let Some(p) = &sheet.position {
        s.append(
            text::copy_text("    \"latitude\": ").concat(p.lat.as_str()).concat(
                ",\n    \"longitude\": ",
            ).concat(p.lon.as_str()).concat(",\n").as_str(),
        );
    }
    assert(s@ =~= a + (match sheet@.position {
        Some(p) => "    \"latitude\": "@ + p.lat + ",\n    \"longitude\": "@ + p.lon + ",\n"@,
        None => Seq::empty(),
    }));
    s.append("    \"tags\": [\n");
    push_json_tags(&mut s, &filter_tags(&sheet.tags, filter));
    s.append("    ]");
    push_json_block(&mut s, "xmp", &filter_props(&sheet.xmp, filter));
    push_json_block(&mut s, "iptc", &filter_props(&sheet.iptc, filter));
    s.append("\n  }");
    s
}

/// The readable files among the first `n`, in JSON.
pub open spec fn json_items(v: Seq<FileView>, filter: Option<Seq<char>>, n: int) -> Seq<Seq<char>>
    decreases n,
{
    if n <= 0 {
        Seq::empty()
    } else {
        match v[n - 1].content {
            ContentView::Read(sheet) => json_items(v, filter, n - 1).push(
                json_file(v[n - 1].name, sheet, filter),
            ),
            _ => json_items(v, filter, n - 1),
        }
    }
}

/// How many of the first `n` files could not be read.
pub open spec fn unreadable_files(v: Seq<FileView>, n: int) -> int
    decreases n,
{
    if n <= 0 {
        0
    } else {
        unreadable_files(v, n - 1) + if v[n - 1].content is Unreadable {
            1int
        } else {
            0
        }
    }
}

/// Shows files as JSON, and counts those that could not be read.
pub fn show_json(files: &Vec<ShownFile>, filter: Option<&str>) -> (r: (String, usize))
    ensures
        r.0@ == "[\n"@ + text::joined(
            json_items(files_view(files@), words_of(filter), files@.len() as int),
            ",\n"@,
        ) + "\n]\n"@,
        r.1 == unreadable_files(files_view(files@), files@.len() as int),
{
    let ghost all = files_view(files@);
    let ghost f = words_of(filter);
    let mut items: Vec<String> = Vec::new();
    let mut failed: usize = 0;
    let mut i: usize = 0;
    assert(text::views(items@) =~= Seq::empty());
    while i < files.len()
        invariant
            i <= files.len(),
            all == files_view(files@),
            f == words_of(filter),
            text::views(items@) == json_items(all, f, i as int),
            failed == unreadable_files(all, i as int),
            failed <= i,
        decreases files.len() - i,
    {
        assert(all[i as int] == files@[i as int]@);
        match &files[i].content {
            Content::Unsupported(_) => {},
            Content::Unreadable(_, _) => {
                failed += 1;
            },
            Content::Read(sheet) => {
                let ghost before = text::views(items@);
                let item: String = file_json(files[i].name.as_str(), sheet, filter);
                let ghost one = item@;
                items.push(item);
                assert(text::views(items@) =~= before.push(one));
            },
        }
        i += 1;
    }
    let body: String = text::join_texts(items.as_slice(), ",\n");
    (text::copy_text("[\n").concat(body.as_str()).concat("\n]\n"), failed)
}

// ---- as CSV -----------------------------------------------------------------------------

/// `s` with every quote doubled.
pub open spec fn doubled_quotes(s: Seq<char>) -> Seq<char>
    decreases s.len(),
{
    if s.len() == 0 {
        s
    } else if s.last() == '"' {
        doubled_quotes(s.drop_last()) + seq!['"', '"']
    } else {
        doubled_quotes(s.drop_last()).push(s.last())
    }
}

/// Whether a field has to be quoted.
pub open spec fn needs_quotes(s: Seq<char>) -> bool {
    s.contains(',') || s.contains('"') || s.contains('\n') || s.contains('\r')
}

/// A text as a CSV field.
pub open spec fn csv_text(s: Seq<char>) -> Seq<char> {
    if needs_quotes(s) {
        seq!['"'] + doubled_quotes(s) + seq!['"']
    } else {
        s
    }
}

/// A text as a CSV field: quoted where it holds a comma, a quote or a line break.
pub fn csv_field(s: &str) -> (out: String)
    ensures
        out@ == csv_text(s@),
{
    let cs: Vec<char> = text::chars_of(s);
    let c: &[char] = cs.as_slice();
    if !(text::has_char(c, ',') || text::has_char(c, '"') || text::has_char(c, '\n') || text::has_char(c, '\r')) {
        return text::copy_text(s);
    }
    let mut out: String = String::new();
    out.push('"');
    let mut i: usize = 0;
    assert(out@ =~= seq!['"'] + doubled_quotes(cs@.take(0)));
    while i < cs.len()
        invariant
            i <= cs.len(),
            out@ == seq!['"'] + doubled_quotes(cs@.take(i as int)),
        decreases cs.len() - i,
    {
        proof {
            assert(cs@.take(i + 1).drop_last() =~= cs@.take(i as int));
        }
        if cs[i] == '"' {
            push_pair(&mut out, '"', '"');
        } else {
            out.push(cs[i]);
        }
        assert(out@ =~= seq!['"'] + doubled_quotes(cs@.take(i + 1)));
        i += 1;
    }
    assert(cs@.take(cs@.len() as int) =~= cs@);
    let ghost before = out@;
    out.push('"');
    assert(out@ =~= before + seq!['"']);
    out
}

/// The first `n` tags of a file in CSV.
pub open spec fn csv_tags(name: Seq<char>, v: Seq<TagWords>, n: int) -> Seq<char>
    decreases n,
{
    if n <= 0 {
        Seq::empty()
    } else {
        let t = v[n - 1];
        csv_tags(name, v, n - 1) + csv_text(name) + ","@ + csv_text(t.group) + ","@ + csv_text(t.name) + ",0x"@
            + text::hex4(t.hex as int) + ","@ + csv_text(t.value) + "\n"@
    }
}

/// The first `n` properties of a file in CSV.
pub open spec fn csv_pairs(name: Seq<char>, mark: Seq<char>, s: iptc::Properties, n: int) -> Seq<char>
    decreases n,
{
    if n <= 0 {
        Seq::empty()
    } else {
        csv_pairs(name, mark, s, n - 1) + csv_text(name) + mark + csv_text(s[n - 1].0) + ",,"@ + csv_text(
            s[n - 1].1,
        ) + "\n"@
    }
}

fn push_csv_tags(out: &mut String, name: &str, v: &Vec<TagView>)
    ensures
        final(out)@ == old(out)@ + csv_tags(name@, words_view(v@), v@.len() as int),
{
    let ghost all = words_view(v@);
    let ghost start = out@;
    let mut i: usize = 0;
    assert(out@ =~= start + csv_tags(name@, all, 0));
    while i < v.len()
        invariant
            i <= v.len(),
            all == words_view(v@),
            out@ == start + csv_tags(name@, all, i as int),
        decreases v.len() - i,
    {
        assert(all[i as int] == v@[i as int]@);
        out.append(csv_field(name).as_str());
        out.append(",");
        out.append(csv_field(v[i].group.as_str()).as_str());
        out.append(",");
        out.append(csv_field(v[i].name.as_str()).as_str());
        out.append(",0x");
        text::push_hex4(out, v[i].hex);
        out.append(",");
        out.append(csv_field(v[i].value.as_str()).as_str());
        out.append("\n");
        assert(out@ =~= start + csv_tags(name@, all, i + 1));
        i += 1;
    }
}

fn push_csv_pairs(out: &mut String, name: &str, mark: &str, v: &Vec<(String, String)>)
    ensures
        final(out)@ == old(out)@ + csv_pairs(name@, mark@, iptc::properties_view(v@), v@.len() as int),
{
    let ghost all = iptc::properties_view(v@);
    let ghost start = out@;
    let mut i: usize = 0;
    assert(out@ =~= start + csv_pairs(name@, mark@, all, 0));
    while i < v.len()
        invariant
            i <= v.len(),
            all == iptc::properties_view(v@),
            out@ == start + csv_pairs(name@, mark@, all, i as int),
        decreases v.len() - i,
    {
        assert(all[i as int] == (v@[i as int].0@, v@[i as int].1@));
        out.append(csv_field(name).as_str());
        out.append(mark);
        out.append(csv_field(v[i].0.as_str()).as_str());
        out.append(",,");
        out.append(csv_field(v[i].1.as_str()).as_str());
        out.append("\n");
        assert(out@ =~= start + csv_pairs(name@, mark@, all, i + 1));
        i += 1;
    }
}

/// The metadata of a file in CSV.
pub open spec fn csv_file(name: Seq<char>, s: SheetView, filter: Option<Seq<char>>) -> Seq<char> {
    let shown = passing_tags(s.tags, filter);
    let xmp = passing(s.xmp, filter);
    let iptc = passing(s.iptc, filter);
    csv_tags(name, shown, shown.len() as int) + csv_pairs(name, ",XMP,"@, xmp, xmp.len() as int) + csv_pairs(
        name,
        ",IPTC,"@,
        iptc,
        iptc.len() as int,
    )
}

/// The readable files among the first `n`, in CSV.
pub open spec fn csv_files(v: Seq<FileView>, filter: Option<Seq<char>>, n: int) -> Seq<char>
    decreases n,
{
    if n <= 0 {
        Seq::empty()
    } else {
        match v[n - 1].content {
            ContentView::Read(sheet) => csv_files(v, filter, n - 1) + csv_file(v[n - 1].name, sheet, filter),
            _ => csv_files(v, filter, n - 1),
        }
    }
}

/// Shows files as CSV, one line for each tag or property, and counts those that could not be
/// read.
pub fn show_csv(files: &Vec<ShownFile>, filter: Option<&str>) -> (r: (String, usize))
    ensures
        r.0@ == "file,group,name,hex,value\n"@ + csv_files(
            files_view(files@),
            words_of(filter),
            files@.len() as int,
        ),
        r.1 == unreadable_files(files_view(files@), files@.len() as int),
{
    let ghost all = files_view(files@);
    let ghost f = words_of(filter);
    let mut out: String = text::copy_text("file,group,name,hex,value\n");
    let ghost start = out@;
    let mut failed: usize = 0;
    let mut i: usize = 0;
    assert(out@ =~= start + csv_files(all, f, 0));
    while i < files.len()
        invariant
            i <= files.len(),
            all == files_view(files@),
            f == words_of(filter),
            out@ == start + csv_files(all, f, i as int),
            failed == unreadable_files(all, i as int),
            failed <= i,
        decreases files.len() - i,
    {
        assert(all[i as int] == files@[i as int]@);
        match &files[i].content {
            Content::Unsupported(_) => {},
            Content::Unreadable(_, _) => {
                failed += 1;
            },
            Content::Read(sheet) => {
                let name: &str = files[i].name.as_str();
                push_csv_tags(&mut out, name, &filter_tags(&sheet.tags, filter));
                push_csv_pairs(&mut out, name, ",XMP,", &filter_props(&sheet.xmp, filter));
                push_csv_pairs(&mut out, name, ",IPTC,", &filter_props(&sheet.iptc, filter));
                assert(out@ =~= start + csv_files(all, f, i + 1));
            },
        }
        i += 1;
    }
    (out, failed)
}

} // verus!
