//! What the listings of metadata hold.

use vstd::prelude::*;
use vstd::string::*;
use crate::iptc;
use crate::showcmd;
use crate::showcmd::{FileView, SheetView, TagWords};
use crate::text;
use crate::wherelaws;

verus! {

/// Whether a name is asked for: the words of the filter stand in it, in any case.
pub open spec fn wanted(name: Seq<char>, filter: Option<Seq<char>>) -> bool {
    filter is None || wherelaws::stands_in(text::lowered(filter->0), text::lowered(name))
}

proof fn lemma_passes(name: Seq<char>, filter: Option<Seq<char>>)
    ensures
        showcmd::passes(name, filter) == wanted(name, filter),
{
    if let Some(f) = filter {
        wherelaws::parts_are_contained(text::lowered(f), text::lowered(name));
    }
}

/// A filter keeps a property if its name is asked for, and keeps those of two lists as it keeps those
/// of each.
pub proof fn filter_keeps_what_is_wanted(
    a: iptc::Properties,
    b: iptc::Properties,
    p: (Seq<char>, Seq<char>),
    filter: Option<Seq<char>>,
)
    ensures
        showcmd::passing(a + b, filter) == showcmd::passing(a, filter) + showcmd::passing(b, filter),
        wanted(p.0, filter) ==> showcmd::passing(seq![p], filter) == seq![p],
        !wanted(p.0, filter) ==> showcmd::passing(seq![p], filter) == Seq::<(Seq<char>, Seq<char>)>::empty(),
    decreases b.len(),
{
    lemma_passes(p.0, filter);
    let one = seq![p];
    assert(one.drop_last() =~= Seq::<(Seq<char>, Seq<char>)>::empty());
    assert(showcmd::passing(one.drop_last(), filter) =~= Seq::<(Seq<char>, Seq<char>)>::empty());
    assert(showcmd::passing(one, filter) =~= if wanted(p.0, filter) {
        one
    } else {
        Seq::empty()
    });
    if b.len() == 0 {
        assert(a + b =~= a);
        assert(showcmd::passing(a, filter) + b =~= showcmd::passing(a, filter));
    } else {
        filter_keeps_what_is_wanted(a, b.drop_last(), p, filter);
        assert((a + b).drop_last() =~= a + b.drop_last());
        assert((a + b).last() == b.last());
        let (x, y) = (showcmd::passing(a, filter), showcmd::passing(b.drop_last(), filter));
        assert((x + y).push(b.last()) =~= x + y.push(b.last()));
    }
}

/// A filter keeps a tag if its name is asked for, and keeps those of two lists as it keeps those of
/// each.
pub proof fn filter_keeps_wanted_tags(
    a: Seq<TagWords>,
    b: Seq<TagWords>,
    t: TagWords,
    filter: Option<Seq<char>>,
)
    ensures
        showcmd::passing_tags(a + b, filter) == showcmd::passing_tags(a, filter) + showcmd::passing_tags(b, filter),
        wanted(t.name, filter) ==> showcmd::passing_tags(seq![t], filter) == seq![t],
        !wanted(t.name, filter) ==> showcmd::passing_tags(seq![t], filter) == Seq::<TagWords>::empty(),
    decreases b.len(),
{
    lemma_passes(t.name, filter);
    let one = seq![t];
    assert(one.drop_last() =~= Seq::<TagWords>::empty());
    assert(showcmd::passing_tags(one.drop_last(), filter) =~= Seq::<TagWords>::empty());
    assert(showcmd::passing_tags(one, filter) =~= if wanted(t.name, filter) {
        one
    } else {
        Seq::empty()
    });
    if b.len() == 0 {
        assert(a + b =~= a);
        assert(showcmd::passing_tags(a, filter) + b =~= showcmd::passing_tags(a, filter));
    } else {
        filter_keeps_wanted_tags(a, b.drop_last(), t, filter);
        assert((a + b).drop_last() =~= a + b.drop_last());
        assert((a + b).last() == b.last());
        let (x, y) = (showcmd::passing_tags(a, filter), showcmd::passing_tags(b.drop_last(), filter));
        assert((x + y).push(b.last()) =~= x + y.push(b.last()));
    }
}

// ---- JSON -------------------------------------------------------------------------------

/// The value of a hexadecimal digit.
pub open spec fn hex_of(c: char) -> int {
    if '0' <= c <= '9' {
        (c as u32) - 48
    } else {
        (c as u32) - 87
    }
}

/// The character that stands at the beginning of a JSON string, and how many characters say it.
pub open spec fn json_first(s: Seq<char>) -> (char, int) {
    if s[0] != '\\' {
        (s[0], 1)
    } else if s[1] == 'n' {
        ('\n', 2)
    } else if s[1] == 'r' {
        ('\r', 2)
    } else if s[1] == 't' {
        ('\t', 2)
    } else if s[1] == 'u' {
        ((hex_of(s[2]) * 4096 + hex_of(s[3]) * 256 + hex_of(s[4]) * 16 + hex_of(s[5])) as char, 6)
    } else {
        (s[1], 2)
    }
}

/// What a JSON string says.
pub open spec fn json_meaning(s: Seq<char>) -> Seq<char>
    decreases s.len(),
{
    if s.len() == 0 {
        s
    } else {
        let (c, n) = json_first(s);
        if n <= s.len() {
            seq![c] + json_meaning(s.skip(n))
        } else {
            Seq::empty()
        }
    }
}

proof fn lemma_json_char(c: char, rest: Seq<char>)
    ensures
        json_first(showcmd::json_char(c) + rest) == (c, showcmd::json_char(c).len() as int),
        showcmd::json_char(c).len() > 0,
{
    let j = showcmd::json_char(c);
    let s = j + rest;
    let n = c as u32;
    assert(s[0] == j[0]);
    if j.len() > 1 {
        assert(s[1] == j[1]);
    }
    if j.len() == 6 {
        assert(s[2] == j[2] && s[3] == j[3] && s[4] == j[4] && s[5] == j[5]);
        let (h, l) = (n as int / 16, n as int % 16);
        assert(hex_of(showcmd::small_hex(h)) == h && hex_of(showcmd::small_hex(l)) == l);
        assert(h * 16 + l == n);
    }
}

proof fn lemma_json_front(s: Seq<char>)
    requires
        s.len() > 0,
    ensures
        showcmd::json_escaped(s) == showcmd::json_char(s[0]) + showcmd::json_escaped(s.drop_first()),
    decreases s.len(),
{
    let e = Seq::<char>::empty();
    assert(showcmd::json_escaped(e) == e);
    if s.len() == 1 {
        assert(s.drop_last() =~= e && s.drop_first() =~= e);
        assert(e + showcmd::json_char(s[0]) =~= showcmd::json_char(s[0]) + e);
    } else {
        lemma_json_front(s.drop_last());
        assert(s.drop_last().drop_first() =~= s.drop_first().drop_last());
        let (a, b, c) = (
            showcmd::json_char(s[0]),
            showcmd::json_escaped(s.drop_first().drop_last()),
            showcmd::json_char(s.last()),
        );
        assert((a + b) + c =~= a + (b + c));
    }
}

/// A text in a JSON string is read back from it.
pub proof fn json_reads_back(s: Seq<char>)
    ensures
        json_meaning(showcmd::json_escaped(s)) == s,
    decreases s.len(),
{
    if s.len() > 0 {
        lemma_json_front(s);
        let rest = showcmd::json_escaped(s.drop_first());
        let j = showcmd::json_char(s[0]);
        lemma_json_char(s[0], rest);
        json_reads_back(s.drop_first());
        assert((j + rest).skip(j.len() as int) =~= rest);
        assert(seq![s[0]] + s.drop_first() =~= s);
    }
}

pub(crate) proof fn lemma_behind(a: Seq<char>, part: Seq<char>, s: Seq<char>, b: Seq<char>)
    requires
        wherelaws::stands_in(part, s),
    ensures
        wherelaws::stands_in(part, a + s + b),
{
    let (x, y) = choose|x: Seq<char>, y: Seq<char>| #[trigger] (x + part + y) == s;
    assert((a + x) + part + (y + b) =~= a + s + b);
}

/// A tag as an object in JSON.
pub open spec fn json_tag(t: TagWords) -> Seq<char> {
    "{\"group\": \""@ + t.group + "\", \"name\": \""@ + showcmd::json_escaped(t.name) + "\", \"hex\": \"0x"@
        + text::hex4(t.hex as int) + "\", \"value\": \""@ + showcmd::json_escaped(t.value) + "\"}"@
}

proof fn lemma_json_tag(v: Seq<TagWords>, n: int, k: int)
    requires
        0 <= k < n,
    ensures
        wherelaws::stands_in(json_tag(v[k]), showcmd::json_tags(v, n)),
    decreases n,
{
    let t = v[n - 1];
    let before = showcmd::json_tags(v, n - 1);
    let after = showcmd::comma(n - 1, v.len() as int) + "\n"@;
    let e = Seq::<char>::empty();
    reveal_strlit("      {\"group\": \"");
    reveal_strlit("{\"group\": \"");
    assert("      {\"group\": \""@ =~= text::spaces(6) + "{\"group\": \""@);
    assert(showcmd::json_tags(v, n) =~= before + text::spaces(6) + json_tag(t) + after);
    if k == n - 1 {
        assert(wherelaws::stands_in(json_tag(t), json_tag(t))) by {
            assert(e + json_tag(t) + e =~= json_tag(t));
        }
        lemma_behind(before + text::spaces(6), json_tag(t), json_tag(t), after);
    } else {
        lemma_json_tag(v, n - 1, k);
        lemma_behind(e, json_tag(v[k]), before, text::spaces(6) + json_tag(t) + after);
        assert(e + before + (text::spaces(6) + json_tag(t) + after) =~= showcmd::json_tags(v, n));
    }
}

/// A property as a member of an object in JSON.
pub open spec fn json_member(p: (Seq<char>, Seq<char>)) -> Seq<char> {
    "\""@ + showcmd::json_escaped(p.0) + "\": \""@ + showcmd::json_escaped(p.1) + "\""@
}

proof fn lemma_json_member(s: iptc::Properties, n: int, k: int)
    requires
        0 <= k < n,
    ensures
        wherelaws::stands_in(json_member(s[k]), showcmd::json_pairs(s, n)),
    decreases n,
{
    let p = s[n - 1];
    let before = showcmd::json_pairs(s, n - 1);
    let after = showcmd::comma(n - 1, s.len() as int) + "\n"@;
    let e = Seq::<char>::empty();
    reveal_strlit("      \"");
    reveal_strlit("\"");
    assert("      \""@ =~= text::spaces(6) + "\""@);
    assert(showcmd::json_pairs(s, n) =~= before + text::spaces(6) + json_member(p) + after);
    if k == n - 1 {
        assert(wherelaws::stands_in(json_member(p), json_member(p))) by {
            assert(e + json_member(p) + e =~= json_member(p));
        }
        lemma_behind(before + text::spaces(6), json_member(p), json_member(p), after);
    } else {
        lemma_json_member(s, n - 1, k);
        lemma_behind(e, json_member(s[k]), before, text::spaces(6) + json_member(p) + after);
        assert(e + before + (text::spaces(6) + json_member(p) + after) =~= showcmd::json_pairs(s, n));
    }
}

spec fn json_begin(name: Seq<char>, s: SheetView) -> Seq<char> {
    "  {\n    \"file\": \""@ + showcmd::json_escaped(name) + "\",\n"@ + (match s.position {
        Some(p) => "    \"latitude\": "@ + p.lat + ",\n    \"longitude\": "@ + p.lon + ",\n"@,
        None => Seq::empty(),
    }) + "    \"tags\": [\n"@
}

proof fn lemma_json_parts(name: Seq<char>, s: SheetView, filter: Option<Seq<char>>)
    ensures
        ({
            let json = showcmd::json_file(name, s, filter);
            let t = showcmd::passing_tags(s.tags, filter);
            let begin = json_begin(name, s);
            let tags = showcmd::json_tags(t, t.len() as int);
            let x = showcmd::json_block("xmp"@, showcmd::passing(s.xmp, filter));
            let i = showcmd::json_block("iptc"@, showcmd::passing(s.iptc, filter));
            &&& json == begin + tags + ("    ]"@ + x + i + "\n  }"@)
            &&& json == (begin + tags + "    ]"@) + x + (i + "\n  }"@)
            &&& json == (begin + tags + "    ]"@ + x) + i + "\n  }"@
        }),
{
    let json = showcmd::json_file(name, s, filter);
    let t = showcmd::passing_tags(s.tags, filter);
    let begin = json_begin(name, s);
    let tags = showcmd::json_tags(t, t.len() as int);
    let x = showcmd::json_block("xmp"@, showcmd::passing(s.xmp, filter));
    let i = showcmd::json_block("iptc"@, showcmd::passing(s.iptc, filter));
    assert(json == begin + tags + "    ]"@ + x + i + "\n  }"@);
    lemma_regrouped(begin, tags, "    ]"@, x, i, "\n  }"@);
}

proof fn lemma_regrouped(a: Seq<char>, b: Seq<char>, c: Seq<char>, d: Seq<char>, e: Seq<char>, f: Seq<char>)
    ensures
        a + b + c + d + e + f == a + b + (c + d + e + f),
        a + b + c + d + e + f == (a + b + c) + d + (e + f),
{
    assert(a + b + c + d + e + f =~= a + b + (c + d + e + f));
    assert(a + b + c + d + e + f =~= (a + b + c) + d + (e + f));
}

proof fn lemma_json_block(key: Seq<char>, v: iptc::Properties, k: int)
    requires
        0 <= k < v.len(),
    ensures
        wherelaws::stands_in(json_member(v[k]), showcmd::json_block(key, v)),
{
    lemma_json_member(v, v.len() as int, k);
    lemma_behind(
        ",\n    \""@ + key + "\": {\n"@,
        json_member(v[k]),
        showcmd::json_pairs(v, v.len() as int),
        "    }"@,
    );
}

/// The JSON object of a file holds every tag, XMP property and IPTC property that the filter keeps.
pub proof fn json_holds_everything(name: Seq<char>, s: SheetView, filter: Option<Seq<char>>, k: int)
    ensures
        ({
            let json = showcmd::json_file(name, s, filter);
            let (t, x, i) = (
                showcmd::passing_tags(s.tags, filter),
                showcmd::passing(s.xmp, filter),
                showcmd::passing(s.iptc, filter),
            );
            &&& 0 <= k < t.len() ==> wherelaws::stands_in(json_tag(t[k]), json)
            &&& 0 <= k < x.len() ==> wherelaws::stands_in(json_member(x[k]), json)
            &&& 0 <= k < i.len() ==> wherelaws::stands_in(json_member(i[k]), json)
        }),
{
    let (t, x, i) = (
        showcmd::passing_tags(s.tags, filter),
        showcmd::passing(s.xmp, filter),
        showcmd::passing(s.iptc, filter),
    );
    let begin = json_begin(name, s);
    let tags = showcmd::json_tags(t, t.len() as int);
    let bx = showcmd::json_block("xmp"@, x);
    let bi = showcmd::json_block("iptc"@, i);
    lemma_json_parts(name, s, filter);
    if 0 <= k < t.len() {
        lemma_json_tag(t, t.len() as int, k);
        lemma_behind(begin, json_tag(t[k]), tags, "    ]"@ + bx + bi + "\n  }"@);
    }
    if 0 <= k < x.len() {
        lemma_json_block("xmp"@, x, k);
        lemma_behind(begin + tags + "    ]"@, json_member(x[k]), bx, bi + "\n  }"@);
    }
    if 0 <= k < i.len() {
        lemma_json_block("iptc"@, i, k);
        lemma_behind(begin + tags + "    ]"@ + bx, json_member(i[k]), bi, "\n  }"@);
    }
}

proof fn lemma_begin_names(name: Seq<char>, s: SheetView)
    ensures
        wherelaws::stands_in("\"file\": \""@ + showcmd::json_escaped(name) + "\""@, json_begin(name, s)),
{
    let file = "\"file\": \""@ + showcmd::json_escaped(name) + "\""@;
    let rest = (match s.position {
        Some(p) => "    \"latitude\": "@ + p.lat + ",\n    \"longitude\": "@ + p.lon + ",\n"@,
        None => Seq::empty(),
    }) + "    \"tags\": [\n"@;
    reveal_strlit("  {\n    \"file\": \"");
    reveal_strlit("\"file\": \"");
    reveal_strlit("\",\n");
    reveal_strlit("\"");
    let lead = seq![' ', ' ', '{', '\n', ' ', ' ', ' ', ' '];
    assert("  {\n    \"file\": \""@ =~= lead + "\"file\": \""@);
    assert("\",\n"@ =~= "\""@ + seq![',', '\n']);
    assert(json_begin(name, s) =~= lead + file + (seq![',', '\n'] + rest));
}

proof fn lemma_begin_places(name: Seq<char>, s: SheetView)
    requires
        s.position is Some,
    ensures
        wherelaws::stands_in(
            "\"latitude\": "@ + (s.position->0).lat + ",\n    \"longitude\": "@ + (s.position->0).lon,
            json_begin(name, s),
        ),
{
    let p = s.position->0;
    reveal_strlit("    \"latitude\": ");
    reveal_strlit("\"latitude\": ");
    let two = "\"latitude\": "@ + p.lat + ",\n    \"longitude\": "@ + p.lon;
    let begin = "  {\n    \"file\": \""@ + showcmd::json_escaped(name) + "\",\n"@;
    assert("    \"latitude\": "@ =~= text::spaces(4) + "\"latitude\": "@);
    assert(json_begin(name, s) =~= (begin + text::spaces(4)) + two + (",\n"@ + "    \"tags\": [\n"@));
}

/// The JSON object of a file says its name and, as latitude and longitude, where it was taken.
pub proof fn json_says_name_and_place(name: Seq<char>, s: SheetView, filter: Option<Seq<char>>)
    ensures
        wherelaws::stands_in(
            "\"file\": \""@ + showcmd::json_escaped(name) + "\""@,
            showcmd::json_file(name, s, filter),
        ),
        s.position is Some ==> wherelaws::stands_in(
            "\"latitude\": "@ + (s.position->0).lat + ",\n    \"longitude\": "@ + (s.position->0).lon,
            showcmd::json_file(name, s, filter),
        ),
{
    let t = showcmd::passing_tags(s.tags, filter);
    let begin = json_begin(name, s);
    let bx = showcmd::json_block("xmp"@, showcmd::passing(s.xmp, filter));
    let bi = showcmd::json_block("iptc"@, showcmd::passing(s.iptc, filter));
    let rest = showcmd::json_tags(t, t.len() as int) + ("    ]"@ + bx + bi + "\n  }"@);
    let e = Seq::<char>::empty();
    lemma_json_parts(name, s, filter);
    assert(e + begin + rest =~= showcmd::json_file(name, s, filter));
    lemma_begin_names(name, s);
    lemma_behind(e, "\"file\": \""@ + showcmd::json_escaped(name) + "\""@, begin, rest);
    if s.position is Some {
        lemma_begin_places(name, s);
        lemma_behind(
            e,
            "\"latitude\": "@ + (s.position->0).lat + ",\n    \"longitude\": "@ + (s.position->0).lon,
            begin,
            rest,
        );
    }
}

// ---- CSV --------------------------------------------------------------------------------

/// The line of a tag in CSV.
pub open spec fn csv_tag_line(name: Seq<char>, t: TagWords) -> Seq<char> {
    showcmd::csv_text(name) + ","@ + showcmd::csv_text(t.group) + ","@ + showcmd::csv_text(t.name) + ",0x"@
        + text::hex4(t.hex as int) + ","@ + showcmd::csv_text(t.value) + "\n"@
}

/// The line of a property in CSV.
pub open spec fn csv_line(name: Seq<char>, kind: Seq<char>, p: (Seq<char>, Seq<char>)) -> Seq<char> {
    showcmd::csv_text(name) + ","@ + kind + ","@ + showcmd::csv_text(p.0) + ",,"@ + showcmd::csv_text(p.1) + "\n"@
}

proof fn lemma_csv_tag(name: Seq<char>, v: Seq<TagWords>, n: int, k: int)
    requires
        0 <= k < n,
    ensures
        wherelaws::stands_in(csv_tag_line(name, v[k]), showcmd::csv_tags(name, v, n)),
    decreases n,
{
    let line = csv_tag_line(name, v[n - 1]);
    let before = showcmd::csv_tags(name, v, n - 1);
    let e = Seq::<char>::empty();
    assert(showcmd::csv_tags(name, v, n) =~= before + line + e);
    if k < n - 1 {
        lemma_csv_tag(name, v, n - 1, k);
        lemma_behind(e, csv_tag_line(name, v[k]), before, line);
        assert(e + before + line =~= showcmd::csv_tags(name, v, n));
    }
}

proof fn lemma_csv_line(name: Seq<char>, mark: Seq<char>, kind: Seq<char>, s: iptc::Properties, n: int, k: int)
    requires
        0 <= k < n,
        mark == ","@ + kind + ","@,
    ensures
        wherelaws::stands_in(csv_line(name, kind, s[k]), showcmd::csv_pairs(name, mark, s, n)),
    decreases n,
{
    let line = csv_line(name, kind, s[n - 1]);
    let before = showcmd::csv_pairs(name, mark, s, n - 1);
    let e = Seq::<char>::empty();
    assert(showcmd::csv_pairs(name, mark, s, n) =~= before + line + e);
    if k < n - 1 {
        lemma_csv_line(name, mark, kind, s, n - 1, k);
        lemma_behind(e, csv_line(name, kind, s[k]), before, line);
        assert(e + before + line =~= showcmd::csv_pairs(name, mark, s, n));
    }
}

/// The CSV of a file has a line for every tag, XMP property and IPTC property that the filter keeps.
pub proof fn csv_holds_everything(name: Seq<char>, s: SheetView, filter: Option<Seq<char>>, k: int)
    ensures
        ({
            let csv = showcmd::csv_file(name, s, filter);
            let (t, x, i) = (
                showcmd::passing_tags(s.tags, filter),
                showcmd::passing(s.xmp, filter),
                showcmd::passing(s.iptc, filter),
            );
            &&& 0 <= k < t.len() ==> wherelaws::stands_in(csv_tag_line(name, t[k]), csv)
            &&& 0 <= k < x.len() ==> wherelaws::stands_in(csv_line(name, "XMP"@, x[k]), csv)
            &&& 0 <= k < i.len() ==> wherelaws::stands_in(csv_line(name, "IPTC"@, i[k]), csv)
        }),
{
    let csv = showcmd::csv_file(name, s, filter);
    let (t, x, i) = (
        showcmd::passing_tags(s.tags, filter),
        showcmd::passing(s.xmp, filter),
        showcmd::passing(s.iptc, filter),
    );
    let e = Seq::<char>::empty();
    let a = showcmd::csv_tags(name, t, t.len() as int);
    let b = showcmd::csv_pairs(name, ",XMP,"@, x, x.len() as int);
    let c = showcmd::csv_pairs(name, ",IPTC,"@, i, i.len() as int);
    reveal_strlit(",XMP,");
    reveal_strlit(",IPTC,");
    reveal_strlit("XMP");
    reveal_strlit("IPTC");
    reveal_strlit(",");
    assert(",XMP,"@ =~= ","@ + "XMP"@ + ","@);
    assert(",IPTC,"@ =~= ","@ + "IPTC"@ + ","@);
    if 0 <= k < t.len() {
        lemma_csv_tag(name, t, t.len() as int, k);
        lemma_behind(e, csv_tag_line(name, t[k]), a, b + c);
        assert(e + a + (b + c) =~= csv);
    }
    if 0 <= k < x.len() {
        lemma_csv_line(name, ",XMP,"@, "XMP"@, x, x.len() as int, k);
        lemma_behind(a, csv_line(name, "XMP"@, x[k]), b, c);
    }
    if 0 <= k < i.len() {
        lemma_csv_line(name, ",IPTC,"@, "IPTC"@, i, i.len() as int, k);
        lemma_behind(a + b, csv_line(name, "IPTC"@, i[k]), c, e);
        assert((a + b) + c + e =~= csv);
    }
}

// ---- text -------------------------------------------------------------------------------

/// The line of a property in a listing: its name, filled up to a width, and its value.
pub open spec fn text_line(p: (Seq<char>, Seq<char>), width: nat) -> Seq<char> {
    "  "@ + text::padded_right(p.0, width) + "  "@ + p.1 + "\n"@
}

proof fn lemma_text_line(s: iptc::Properties, width: nat, k: int)
    requires
        0 <= k < s.len(),
    ensures
        wherelaws::stands_in(text_line(s[k], width), showcmd::columns(s, width)),
    decreases s.len(),
{
    let e = Seq::<char>::empty();
    let before = showcmd::columns(s.drop_last(), width);
    let line = text_line(s.last(), width);
    assert(showcmd::columns(s, width) =~= before + line + e);
    if k < s.len() - 1 {
        lemma_text_line(s.drop_last(), width, k);
        lemma_behind(e, text_line(s[k], width), before, line);
        assert(e + before + line =~= showcmd::columns(s, width));
    }
}

/// Whether a listing has a line for a property.
pub open spec fn has_line(p: (Seq<char>, Seq<char>), listing: Seq<char>) -> bool {
    exists|width: nat| #[trigger] wherelaws::stands_in(text_line(p, width), listing)
}

/// The listing of a file has a line for every tag, XMP property and IPTC property and every property
/// beside it that the filter keeps.
pub proof fn listing_holds_everything(s: SheetView, filter: Option<Seq<char>>, k: int)
    ensures
        ({
            let listing = showcmd::sheet_text(s, filter);
            let (t, x, i, b) = (
                showcmd::passing_tags(s.tags, filter),
                showcmd::passing(s.xmp, filter),
                showcmd::passing(s.iptc, filter),
                showcmd::passing(s.sidecar, filter),
            );
            &&& 0 <= k < t.len() ==> has_line((t[k].name, t[k].value), listing)
            &&& 0 <= k < x.len() ==> has_line(x[k], listing)
            &&& 0 <= k < i.len() ==> has_line(i[k], listing)
            &&& 0 <= k < b.len() ==> has_line(b[k], listing)
        }),
{
    let (t, x, i, b) = (
        showcmd::as_properties(showcmd::passing_tags(s.tags, filter)),
        showcmd::passing(s.xmp, filter),
        showcmd::passing(s.iptc, filter),
        showcmd::passing(s.sidecar, filter),
    );
    if t.len() > 0 || x.len() > 0 || i.len() > 0 || b.len() > 0 {
        let width = showcmd::column(
            showcmd::larger(
                showcmd::larger(
                    showcmd::larger(showcmd::longest(t), showcmd::longest(x)),
                    showcmd::longest(i),
                ),
                showcmd::longest(b),
            ),
        );
        let a = showcmd::position_line(s.position);
        let st = showcmd::columns(t, width);
        let sx = showcmd::section("  --- XMP ---\n"@, x, width);
        let si = showcmd::section("  --- IPTC ---\n"@, i, width);
        let sb = showcmd::section("  --- XMP (sidecar) ---\n"@, b, width);
        let listing = showcmd::sheet_text(s, filter);
        let e = Seq::<char>::empty();
        assert(listing == a + (st + sx + si + sb));
        lemma_four(a, st, sx, si, sb);
        if 0 <= k < t.len() {
            lemma_text_line(t, width, k);
            lemma_behind(a, text_line(t[k], width), st, sx + si + sb);
        }
        if 0 <= k < x.len() {
            lemma_section("  --- XMP ---\n"@, x, width, k);
            lemma_behind(a + st, text_line(x[k], width), sx, si + sb);
        }
        if 0 <= k < i.len() {
            lemma_section("  --- IPTC ---\n"@, i, width, k);
            lemma_behind(a + st + sx, text_line(i[k], width), si, sb);
        }
        if 0 <= k < b.len() {
            lemma_section("  --- XMP (sidecar) ---\n"@, b, width, k);
            lemma_behind(a + st + sx + si, text_line(b[k], width), sb, e);
        }
    }
}

proof fn lemma_four(a: Seq<char>, b: Seq<char>, c: Seq<char>, d: Seq<char>, f: Seq<char>)
    ensures
        a + (b + c + d + f) == a + b + (c + d + f),
        a + (b + c + d + f) == (a + b) + c + (d + f),
        a + (b + c + d + f) == (a + b + c) + d + f,
        a + (b + c + d + f) == (a + b + c + d) + f + Seq::<char>::empty(),
{
    assert(a + (b + c + d + f) =~= a + b + (c + d + f));
    assert(a + (b + c + d + f) =~= (a + b) + c + (d + f));
    assert(a + (b + c + d + f) =~= (a + b + c) + d + f);
    assert(a + (b + c + d + f) =~= (a + b + c + d) + f + Seq::<char>::empty());
}

proof fn lemma_section(title: Seq<char>, v: iptc::Properties, width: nat, k: int)
    requires
        0 <= k < v.len(),
    ensures
        wherelaws::stands_in(text_line(v[k], width), showcmd::section(title, v, width)),
{
    let e = Seq::<char>::empty();
    lemma_text_line(v, width, k);
    lemma_behind(title, text_line(v[k], width), showcmd::columns(v, width), e);
    assert(title + showcmd::columns(v, width) + e =~= showcmd::section(title, v, width));
}

/// The listing of several files names each and holds what is shown of it.
pub proof fn files_are_listed(v: Seq<FileView>, filter: Option<Seq<char>>, n: int, k: int)
    requires
        0 <= k < n,
    ensures
        wherelaws::stands_in(
            "=== "@ + v[k].name + " ===\n"@ + showcmd::content_text(v[k].content, filter),
            showcmd::files_text(v, filter, n),
        ),
    decreases n,
{
    let part = "=== "@ + v[n - 1].name + " ===\n"@ + showcmd::content_text(v[n - 1].content, filter);
    let before = showcmd::files_text(v, filter, n - 1);
    let gap = text::when(n > 1, "\n"@);
    let e = Seq::<char>::empty();
    assert(showcmd::files_text(v, filter, n) =~= (before + gap) + part + e);
    if k < n - 1 {
        let here = "=== "@ + v[k].name + " ===\n"@ + showcmd::content_text(v[k].content, filter);
        files_are_listed(v, filter, n - 1, k);
        lemma_behind(e, here, before, gap + part);
        assert(e + before + (gap + part) =~= showcmd::files_text(v, filter, n));
    }
}

/// Files that were read never count as failed; one that was not counts as failed in JSON and CSV, and
/// in a listing unless something beside it is shown.
pub proof fn failures_are_counted(v: Seq<FileView>, filter: Option<Seq<char>>, n: int)
    requires
        0 <= n,
    ensures
        showcmd::unreadable_files(v, n) - showcmd::unreadable_files(v, n - 1) == if n > 0 && v[n - 1].content is Unreadable {
            1int
        } else {
            0
        },
        showcmd::failed_files(v, filter, n) - showcmd::failed_files(v, filter, n - 1) == if n > 0
            && v[n - 1].content is Unreadable && showcmd::passing(v[n - 1].content->Unreadable_1, filter).len() == 0 {
            1int
        } else {
            0
        },
        0 <= showcmd::failed_files(v, filter, n) <= showcmd::unreadable_files(v, n) <= n,
    decreases n,
{
    if n > 0 {
        failures_are_counted(v, filter, n - 1);
    }
}

} // verus!
