//! What tables say.

use vstd::prelude::*;
use vstd::string::*;
use crate::applycmd;
use crate::applycmd::{RoutedView, RowView};
use crate::exif;
use crate::exif::TagSelection;
use crate::gpx;
use crate::iptc;
use crate::tags;
use crate::text;
use crate::textlaws;
use crate::xmp::ValueView;

verus! {

/// The words, told apart by their lengths and letters.
proof fn lemma_time_words()
    ensures
        "datetimeoriginal"@.len() == 16 && "datetimeoriginal"@[0] == 'd',
        "date"@.len() == 4 && "date"@[0] == 'd',
        "original"@.len() == 8 && "original"@[0] == 'o',
        "createdate"@.len() == 10 && "createdate"@[0] == 'c',
        "digitized"@.len() == 9 && "digitized"@[0] == 'd',
        "datetimedigitized"@.len() == 17 && "datetimedigitized"@[0] == 'd',
        "modifydate"@.len() == 10 && "modifydate"@[0] == 'm',
        "modify"@.len() == 6 && "modify"@[0] == 'm',
        "datetime"@.len() == 8 && "datetime"@[0] == 'd',
        "alldates"@.len() == 8 && "alldates"@[0] == 'a',
        "all"@.len() == 3 && "all"@[0] == 'a',
{
    reveal_strlit("datetimeoriginal");
    reveal_strlit("date");
    reveal_strlit("original");
    reveal_strlit("createdate");
    reveal_strlit("digitized");
    reveal_strlit("datetimedigitized");
    reveal_strlit("modifydate");
    reveal_strlit("modify");
    reveal_strlit("datetime");
    reveal_strlit("alldates");
    reveal_strlit("all");
}

/// The names of the capture times, each the field that it says.
pub proof fn times_have_their_names(f: Seq<char>)
    ensures
        f == "datetimeoriginal"@ || f == "original"@ || f == "date"@ ==> applycmd::time_fields(f) == Some(
            (TagSelection { original: true, digitized: false, modify: false }),
        ),
        f == "createdate"@ || f == "digitized"@ || f == "datetimedigitized"@ ==> applycmd::time_fields(f) == Some(
            (TagSelection { original: false, digitized: true, modify: false }),
        ),
        f == "modifydate"@ || f == "modify"@ || f == "datetime"@ ==> applycmd::time_fields(f) == Some(
            (TagSelection { original: false, digitized: false, modify: true }),
        ),
        f == "alldates"@ || f == "all"@ ==> applycmd::time_fields(f) == Some(
            (TagSelection { original: true, digitized: true, modify: true }),
        ),
{
    lemma_time_words();
}

/// The words, told apart by their lengths and letters.
proof fn lemma_property_words()
    ensures
        "title"@.len() == 5 && "title"@[0] == 't',
        "description"@.len() == 11 && "description"@[0] == 'd',
        "caption"@.len() == 7 && "caption"@[0] == 'c' && "caption"@[1] == 'a',
        "creator"@.len() == 7 && "creator"@[0] == 'c' && "creator"@[1] == 'r',
        "author"@.len() == 6 && "author"@[0] == 'a',
        "rights"@.len() == 6 && "rights"@[0] == 'r' && "rights"@[1] == 'i',
        "copyright"@.len() == 9 && "copyright"@[0] == 'c',
        "rating"@.len() == 6 && "rating"@[0] == 'r' && "rating"@[1] == 'a',
        "label"@.len() == 5 && "label"@[0] == 'l',
        "keywords"@.len() == 8 && "keywords"@[0] == 'k',
        "subject"@.len() == 7 && "subject"@[0] == 's',
        "city"@.len() == 4 && "city"@[0] == 'c',
        "country"@.len() == 7 && "country"@[0] == 'c' && "country"@[1] == 'o',
{
    reveal_strlit("title");
    reveal_strlit("description");
    reveal_strlit("caption");
    reveal_strlit("creator");
    reveal_strlit("author");
    reveal_strlit("rights");
    reveal_strlit("copyright");
    reveal_strlit("rating");
    reveal_strlit("label");
    reveal_strlit("keywords");
    reveal_strlit("subject");
    reveal_strlit("city");
    reveal_strlit("country");
}

/// The words, told apart by their lengths and letters.
proof fn lemma_qualified_words()
    ensures
        "dc:title"@.len() == 8 && "dc:title"@[0] == 'd',
        "dc:description"@.len() == 14 && "dc:description"@[0] == 'd',
        "dc:rights"@.len() == 9 && "dc:rights"@[0] == 'd',
        "dc:creator"@.len() == 10 && "dc:creator"@[0] == 'd' && "dc:creator"@[3] == 'c',
        "dc:subject"@.len() == 10 && "dc:subject"@[0] == 'd' && "dc:subject"@[3] == 's',
{
    reveal_strlit("dc:title");
    reveal_strlit("dc:description");
    reveal_strlit("dc:rights");
    reveal_strlit("dc:creator");
    reveal_strlit("dc:subject");
}

/// Short names stand for properties, each with the form of value that it has.
pub proof fn short_names_are_properties(name: Seq<char>, value: Seq<char>)
    requires
        !name.contains(':'),
    ensures
        ({
            let low = text::lowered(name);
            let p = applycmd::xmp_field(name, value);
            &&& low == "title"@ ==> p == ("dc:title"@, ValueView::LangAlt(value))
            &&& low == "description"@ || low == "caption"@ ==> p == ("dc:description"@, ValueView::LangAlt(value))
            &&& low == "creator"@ || low == "author"@ ==> p == (
                "dc:creator"@,
                ValueView::Ordered(applycmd::several(value)),
            )
            &&& low == "rights"@ || low == "copyright"@ ==> p == ("dc:rights"@, ValueView::LangAlt(value))
            &&& low == "rating"@ ==> p == ("xmp:Rating"@, ValueView::Simple(value))
            &&& low == "label"@ ==> p == ("xmp:Label"@, ValueView::Simple(value))
            &&& low == "keywords"@ || low == "subject"@ ==> p == ("dc:subject"@, ValueView::Bag(applycmd::several(value)))
            &&& low == "city"@ ==> p == ("photoshop:City"@, ValueView::Simple(value))
            &&& low == "country"@ ==> p == ("photoshop:Country"@, ValueView::Simple(value))
        }),
{
    lemma_property_words();
}

/// A name with a colon is the property itself, with the form of value that it has.
pub proof fn full_names_are_properties(name: Seq<char>, value: Seq<char>)
    requires
        name.contains(':'),
    ensures
        ({
            let low = text::lowered(name);
            let p = applycmd::xmp_field(name, value);
            &&& p.0 == name
            &&& low == "dc:title"@ || low == "dc:description"@ || low == "dc:rights"@ ==> p.1 == ValueView::LangAlt(value)
            &&& low == "dc:creator"@ ==> p.1 == ValueView::Ordered(applycmd::several(value))
            &&& low == "dc:subject"@ ==> p.1 == ValueView::Bag(applycmd::several(value))
            &&& low != "dc:title"@ && low != "dc:description"@ && low != "dc:rights"@ && low != "dc:creator"@ && low
                != "dc:subject"@ ==> p.1 == ValueView::Simple(value)
        }),
{
    lemma_qualified_words();
}

// ---- values with several parts ----------------------------------------------------------

/// Another part behind a list, with a separator between, is the last part of the list.
pub proof fn parts_are_listed(list: Seq<char>, part: Seq<char>)
    requires
        part.len() > 0,
        textlaws::is_trimmed(part),
        !part.contains(';'),
        !part.contains('|'),
    ensures
        applycmd::several(part) == seq![part],
        applycmd::several(list + ";"@ + part) == applycmd::several(list).push(part),
        applycmd::several(list + "|"@ + part) == applycmd::several(list).push(part),
{
    reveal_strlit(";");
    reveal_strlit("|");
    let seps = seq![';', '|'];
    assert(";"@ =~= seq![';'] && "|"@ =~= seq!['|']);
    assert(seps[0] == ';' && seps[1] == '|');
    assert forall|i: int| 0 <= i < part.len() implies !seps.contains(#[trigger] part[i]) by {
        assert(part.contains(part[i]));
    }
    textlaws::lists_come_apart(list, ';', part, seps);
    textlaws::lists_come_apart(list, '|', part, seps);
    textlaws::lemma_trimmed_same(part);
    let v = text::split_any(list, seps);
    assert(v.push(part).drop_last() =~= v);
    let e = Seq::<Seq<char>>::empty();
    assert(seq![part].drop_last() =~= e);
    assert(text::filled(e) =~= e);
    assert(text::filled(seq![part]) =~= seq![part]);
}

/// A position is its latitude, its longitude and, if it has one, its height.
pub proof fn positions_are_read(lat: Seq<char>, lon: Seq<char>, alt: Seq<char>)
    requires
        numeral_text(lat),
        numeral_text(lon),
        numeral_text(alt),
    ensures
        applycmd::gps_of(lat + ","@ + lon) == Ok::<(Seq<char>, Seq<char>, Option<Seq<char>>), Seq<char>>(
            (lat, lon, None),
        ),
        applycmd::gps_of(lat + ","@ + lon + ","@ + alt) == Ok::<
            (Seq<char>, Seq<char>, Option<Seq<char>>),
            Seq<char>,
        >((lat, lon, Some(alt))),
{
    reveal_strlit(",");
    let seps = seq![',', ';', ' '];
    assert(","@ =~= seq![',']);
    assert(seps[0] == ',' && seps[1] == ';' && seps[2] == ' ');
    lemma_no_seps(lat);
    lemma_no_seps(lon);
    lemma_no_seps(alt);
    textlaws::lists_come_apart(lat, ',', lon, seps);
    textlaws::lists_come_apart(lat + ","@ + lon, ',', alt, seps);
    textlaws::lists_come_apart(lat, ',', lat, seps);
    textlaws::lemma_trimmed_same(lat);
    textlaws::lemma_trimmed_same(lon);
    textlaws::lemma_trimmed_same(alt);
    let e = Seq::<Seq<char>>::empty();
    let (a, b, c) = (seq![lat], seq![lat, lon], seq![lat, lon, alt]);
    assert(text::split_any(lat, seps) =~= a);
    assert(text::split_any(lat + ","@ + lon, seps) =~= b);
    assert(text::split_any(lat + ","@ + lon + ","@ + alt, seps) =~= c);
    assert(a.drop_last() =~= e && b.drop_last() =~= a && c.drop_last() =~= b);
    assert(text::filled(e) =~= e);
    assert(text::filled(a) =~= a);
    assert(text::filled(b) =~= b);
    assert(text::filled(c) =~= c);
}

/// Whether a text is a number without space in it or around it.
pub open spec fn numeral_text(s: Seq<char>) -> bool {
    &&& gpx::is_number(s)
    &&& s.len() > 0
    &&& textlaws::is_trimmed(s)
    &&& !s.contains(',')
    &&& !s.contains(';')
    &&& !s.contains(' ')
}

proof fn lemma_no_seps(s: Seq<char>)
    requires
        numeral_text(s),
    ensures
        forall|i: int| 0 <= i < s.len() ==> !seq![',', ';', ' '].contains(#[trigger] s[i]),
{
    let seps = seq![',', ';', ' '];
    assert forall|i: int| 0 <= i < s.len() implies !seps.contains(#[trigger] s[i]) by {
        assert(s.contains(s[i]));
    }
}

// ---- where fields go --------------------------------------------------------------------

/// Whether fields are all where they go.
pub open spec fn in_place(fields: iptc::Properties, k: int, r: RoutedView) -> bool {
    let (field, value) = fields[k];
    let low = text::lowered(field);
    if text::has_prefix(low, "xmp:"@) {
        r.xmp.contains(applycmd::xmp_field(field.skip(4), value))
    } else if text::has_prefix(low, "iptc:"@) {
        iptc::field_of(low.skip(5)) matches Some(f) && r.iptc.contains((f.0, f.1, seq![value]))
    } else {
        r.exif.contains((field, value))
    }
}

proof fn lemma_kept<A>(v: Seq<A>, x: A)
    ensures
        v.push(x).contains(x),
        forall|y: A| #[trigger] v.contains(y) ==> v.push(x).contains(y),
{
    assert(v.push(x)[v.len() as int] == x);
    assert forall|y: A| #[trigger] v.contains(y) implies v.push(x).contains(y) by {
        let i = choose|i: int| 0 <= i < v.len() && v[i] == y;
        assert(v.push(x)[i] == y);
    }
}

proof fn lemma_routed(fields: iptc::Properties, i: int, r: RoutedView)
    requires
        0 <= i <= fields.len(),
        applycmd::routed_from(fields, i, r) is Ok,
    ensures
        ({
            let s = applycmd::routed_from(fields, i, r)->Ok_0;
            &&& s.exif.len() + s.xmp.len() + s.iptc.len() == r.exif.len() + r.xmp.len() + r.iptc.len() + fields.len() - i
            &&& forall|x: (Seq<char>, Seq<char>)| #[trigger] r.exif.contains(x) ==> s.exif.contains(x)
            &&& forall|x: (Seq<char>, ValueView)| #[trigger] r.xmp.contains(x) ==> s.xmp.contains(x)
            &&& forall|x: (u8, u8, Seq<Seq<char>>)| #[trigger] r.iptc.contains(x) ==> s.iptc.contains(x)
            &&& forall|k: int| i <= k < fields.len() ==> #[trigger] in_place(fields, k, s)
        }),
    decreases fields.len() - i,
{
    if i < fields.len() {
        let (field, value) = fields[i];
        let low = text::lowered(field);
        let s = applycmd::routed_from(fields, i, r)->Ok_0;
        reveal_strlit("xmp:");
        reveal_strlit("iptc:");
        if text::has_prefix(low, "xmp:"@) {
            let x = applycmd::xmp_field(field.subrange(4, field.len() as int), value);
            assert(field.subrange(4, field.len() as int) =~= field.skip(4));
            lemma_kept(r.xmp, x);
            lemma_routed(fields, i + 1, RoutedView { xmp: r.xmp.push(x), ..r });
        } else if text::has_prefix(low, "iptc:"@) {
            assert(low.subrange(5, low.len() as int) =~= low.skip(5));
            let f = iptc::field_of(low.skip(5))->0;
            let x = (f.0, f.1, seq![value]);
            lemma_kept(r.iptc, x);
            lemma_routed(fields, i + 1, RoutedView { iptc: r.iptc.push(x), ..r });
        } else {
            lemma_kept(r.exif, (field, value));
            lemma_routed(fields, i + 1, RoutedView { exif: r.exif.push((field, value)), ..r });
        }
        assert(in_place(fields, i, s));
    }
}

/// Every field goes to one place: to XMP or IPTC if its name says so, else to EXIF. None is lost.
pub proof fn fields_go_where_they_say(fields: iptc::Properties)
    requires
        applycmd::routed_from(fields, 0, applycmd::nothing_routed()) is Ok,
    ensures
        ({
            let r = applycmd::routed_from(fields, 0, applycmd::nothing_routed())->Ok_0;
            &&& r.exif.len() + r.xmp.len() + r.iptc.len() == fields.len()
            &&& forall|k: int| 0 <= k < fields.len() ==> #[trigger] in_place(fields, k, r)
        }),
{
    lemma_routed(fields, 0, applycmd::nothing_routed());
}

// ---- rows -------------------------------------------------------------------------------

/// The row that a line says, trimmed.
pub open spec fn row_in(line: Seq<char>) -> RowView {
    let cols = applycmd::csv_fields(text::trimmed(line));
    RowView { file: text::trimmed(cols[0]), field: text::trimmed(cols[1]), value: text::trimmed(cols[2]) }
}

/// Whether a line says something of a file.
pub open spec fn says_something(lines: Seq<Seq<char>>, k: int) -> bool {
    let r = row_in(lines[k]);
    &&& text::trimmed(lines[k]).len() > 0
    &&& r.file.len() > 0
    &&& r.field.len() > 0
    &&& !(k == 0 && text::lowered(r.file) == "file"@ && text::lowered(r.field) == "field"@)
}

/// How many of the first `n` lines do.
pub open spec fn telling_lines(lines: Seq<Seq<char>>, n: int) -> nat
    decreases n,
{
    if n <= 0 {
        0
    } else if says_something(lines, n - 1) {
        telling_lines(lines, n - 1) + 1
    } else {
        telling_lines(lines, n - 1)
    }
}

proof fn lemma_telling(lines: Seq<Seq<char>>, i: int, n: int)
    requires
        i <= n,
    ensures
        telling_lines(lines, i) <= telling_lines(lines, n),
    decreases n - i,
{
    if i < n {
        lemma_telling(lines, i, n - 1);
    }
}

proof fn lemma_rows(lines: Seq<Seq<char>>, i: int, rows: Seq<RowView>)
    requires
        0 <= i <= lines.len(),
        applycmd::rows_from(lines, i, rows) is Ok,
        rows.len() == telling_lines(lines, i),
    ensures
        ({
            let r = applycmd::rows_from(lines, i, rows)->Ok_0;
            &&& r.len() == telling_lines(lines, lines.len() as int)
            &&& forall|k: int| 0 <= k < rows.len() ==> #[trigger] r[k] == rows[k]
            &&& forall|k: int|
                i <= k < lines.len() && says_something(lines, k) ==> r[#[trigger] telling_lines(lines, k) as int] == row_in(
                    lines[k],
                )
        }),
    decreases lines.len() - i,
{
    if i < lines.len() {
        let r = applycmd::rows_from(lines, i, rows)->Ok_0;
        if says_something(lines, i) {
            let next = rows.push(row_in(lines[i]));
            lemma_rows(lines, i + 1, next);
            assert(r[rows.len() as int] == next[rows.len() as int]);
            assert forall|k: int| 0 <= k < rows.len() implies #[trigger] r[k] == rows[k] by {
                assert(r[k] == next[k]);
            }
        } else {
            lemma_rows(lines, i + 1, rows);
        }
    }
}

/// Every line of a table that says something of a file is a row, in order: the file, the field and the
/// value. Nothing else is.
pub proof fn lines_are_rows(lines: Seq<Seq<char>>)
    requires
        applycmd::rows_from(lines, 0, Seq::empty()) is Ok,
    ensures
        ({
            let r = applycmd::rows_from(lines, 0, Seq::empty())->Ok_0;
            &&& r.len() == telling_lines(lines, lines.len() as int)
            &&& forall|k: int|
                0 <= k < lines.len() && says_something(lines, k) ==> r[#[trigger] telling_lines(lines, k) as int] == row_in(
                    lines[k],
                )
        }),
{
    lemma_rows(lines, 0, Seq::empty());
}

/// A table whose every line has three columns is taken.
pub proof fn full_lines_are_taken(lines: Seq<Seq<char>>, i: int, rows: Seq<RowView>)
    requires
        0 <= i <= lines.len(),
        forall|k: int|
            i <= k < lines.len() && text::trimmed(#[trigger] lines[k]).len() > 0 ==> applycmd::csv_fields(
                text::trimmed(lines[k]),
            ).len() >= 3,
    ensures
        applycmd::rows_from(lines, i, rows) is Ok,
    decreases lines.len() - i,
{
    if i < lines.len() {
        let r = row_in(lines[i]);
        full_lines_are_taken(lines, i + 1, rows);
        full_lines_are_taken(lines, i + 1, rows.push(r));
    }
}

// ---- what fields set --------------------------------------------------------------------

/// The words, told apart by their lengths and letters.
proof fn lemma_field_words()
    ensures
        "gps"@.len() == 3 && "gps"@[0] == 'g',
        "gpsclear"@.len() == 8 && "gpsclear"@[0] == 'g',
        "cleargps"@.len() == 8 && "cleargps"@[0] == 'c',
        "orientation"@.len() == 11 && "orientation"@[0] == 'o',
        "usercomment"@.len() == 11 && "usercomment"@[0] == 'u',
        "datetimeoriginal"@.len() == 16 && "datetimeoriginal"@[0] == 'd',
        "date"@.len() == 4 && "date"@[0] == 'd',
        "original"@.len() == 8 && "original"@[0] == 'o',
        "createdate"@.len() == 10 && "createdate"@[0] == 'c',
        "digitized"@.len() == 9 && "digitized"@[0] == 'd',
        "datetimedigitized"@.len() == 17 && "datetimedigitized"@[0] == 'd',
        "modifydate"@.len() == 10 && "modifydate"@[0] == 'm',
        "modify"@.len() == 6 && "modify"@[0] == 'm',
        "datetime"@.len() == 8 && "datetime"@[0] == 'd',
        "alldates"@.len() == 8 && "alldates"@[0] == 'a',
        "all"@.len() == 3 && "all"@[0] == 'a',
{
    reveal_strlit("gps");
    reveal_strlit("gpsclear");
    reveal_strlit("cleargps");
    reveal_strlit("orientation");
    reveal_strlit("usercomment");
    reveal_strlit("datetimeoriginal");
    reveal_strlit("date");
    reveal_strlit("original");
    reveal_strlit("createdate");
    reveal_strlit("digitized");
    reveal_strlit("datetimedigitized");
    reveal_strlit("modifydate");
    reveal_strlit("modify");
    reveal_strlit("datetime");
    reveal_strlit("alldates");
    reveal_strlit("all");
}

/// A field sets what its name says: a position where it was taken, the orientation, a comment, or a
/// text; and the position is taken away by a field of that name.
pub proof fn fields_set_what_they_say(
    s: Seq<tags::IfdInfo>,
    field: Seq<char>,
    value: Seq<char>,
    at: Option<exif::Position>,
)
    ensures
        ({
            let f = iptc::canonical(field);
            let r = applycmd::with_field(s, field, value, at);
            &&& f == "gps"@ && applycmd::gps_of(value) is Ok ==> r == Ok::<Seq<tags::IfdInfo>, Seq<char>>(
                exif::with_tags(s, exif::position_tags(at->0)),
            )
            &&& f == "gps"@ && applycmd::gps_of(value) is Err ==> r is Err
            &&& f == "gpsclear"@ || f == "cleargps"@ ==> r == Ok::<Seq<tags::IfdInfo>, Seq<char>>(exif::without_gps(s))
            &&& f == "usercomment"@ ==> r == Ok::<Seq<tags::IfdInfo>, Seq<char>>(
                tags::with_tag(s, exif::comment_info(value)),
            )
            &&& f == "orientation"@ ==> match exif::orientation_code(text::lowered(text::trimmed(value))) {
                Some(code) => r == Ok::<Seq<tags::IfdInfo>, Seq<char>>(tags::with_tag(s, exif::orientation_info(code))),
                None => r is Err,
            }
        }),
{
    lemma_field_words();
}

} // verus!
