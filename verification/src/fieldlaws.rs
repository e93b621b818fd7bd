//! What holds of the names of IPTC fields: numbers and display names lead back to their dataset,
//! and case, dashes, underscores and blanks do not matter.

use vstd::prelude::*;
use vstd::string::*;
use crate::iptc;
use crate::text;
use crate::textlaws;

verus! {

/// The characters that do not matter in a field name.
pub open spec fn idle_marks() -> Seq<char> {
    seq!['-', '_', ' ']
}

proof fn lemma_idle(c: char)
    ensures
        idle_marks().contains(c) <==> c == '-' || c == '_' || c == ' ',
{
    let m = idle_marks();
    assert(m[0] == '-' && m[1] == '_' && m[2] == ' ');
}

proof fn lemma_idle_case()
    ensures
        forall|c: char| idle_marks().contains(#[trigger] text::lower(c)) == idle_marks().contains(c),
{
    assert forall|c: char| idle_marks().contains(#[trigger] text::lower(c)) == idle_marks().contains(c) by {
        lemma_idle(c);
        lemma_idle(text::lower(c));
        textlaws::lemma_lower(c);
    }
}

/// A name that has neither idle marks nor white space is looked up in lower case.
proof fn lemma_bare_name(name: Seq<char>)
    requires
        forall|i: int|
            0 <= i < name.len() ==> !text::is_space(#[trigger] name[i]) && name[i] != '-' && name[i] != '_',
    ensures
        iptc::canonical(name) == text::lowered(name),
{
    textlaws::lemma_trimmed_same(name);
    let l = text::lowered(name);
    assert forall|i: int| 0 <= i < l.len() implies !idle_marks().contains(#[trigger] l[i]) by {
        assert(l[i] == text::lower(name[i]));
        textlaws::lemma_lower(name[i]);
        lemma_idle(l[i]);
        assert(text::is_space(' '));
    }
    textlaws::lemma_without_none(l, idle_marks());
}

proof fn lemma_first_char(s: Seq<char>, from: int, at: int, c: char)
    requires
        0 <= from <= at < s.len(),
        s[at] == c,
        forall|i: int| from <= i < at ==> (#[trigger] s[i]) != c,
    ensures
        text::char_from(s, from, c) == Some(at),
    decreases at - from,
{
    if from < at {
        assert(s[from] != c);
        lemma_first_char(s, from + 1, at, c);
    }
}

proof fn lemma_no_char(s: Seq<char>, from: int, c: char)
    requires
        0 <= from,
        forall|i: int| from <= i < s.len() ==> (#[trigger] s[i]) != c,
    ensures
        text::char_from(s, from, c) is None,
    decreases s.len() - from,
{
    if from < s.len() {
        assert(s[from] != c);
        lemma_no_char(s, from + 1, c);
    }
}

/// A field that is named by its numbers is the dataset of these numbers.
pub proof fn numbers_lead_back(record: u8, number: u8)
    ensures
        iptc::field_of(text::dec(record as nat) + ":"@ + text::dec(number as nat)) == Some((record, number)),
{
    let r = text::dec(record as nat);
    let d = text::dec(number as nat);
    reveal_strlit(":");
    let name = r + ":"@ + d;
    textlaws::lemma_numeral(record as nat);
    textlaws::lemma_numeral(number as nat);
    let colon = r.len() as int;
    assert forall|i: int| 0 <= i < name.len() implies !text::is_space(#[trigger] name[i]) && name[i] != '-'
        && name[i] != '_' && text::lower(name[i]) == name[i] by {
        if i < colon {
            assert(name[i] == r[i]);
            assert(text::is_digit(r[i]));
        } else if i > colon {
            assert(name[i] == d[i - colon - 1]);
            assert(text::is_digit(d[i - colon - 1]));
        }
    }
    lemma_bare_name(name);
    assert(text::lowered(name) =~= name);
    assert forall|i: int| 0 <= i < colon implies (#[trigger] name[i]) != ':' by {
        assert(name[i] == r[i]);
        assert(text::is_digit(r[i]));
    }
    lemma_first_char(name, 0, colon, ':');
    assert(name.subrange(0, colon) =~= r);
    assert(name.subrange(colon + 1, name.len() as int) =~= d);
}

/// Whether a dataset of the application record can be named by its display name.
pub open spec fn named_back(number: u8) -> bool {
    number == 5 || number == 15 || number == 25 || number == 40 || number == 55 || number == 80 || number == 90
        || number == 92 || number == 101 || number == 105 || number == 110 || number == 115 || number == 116
        || number == 120 || number == 122
}

/// The names that are looked up, told apart by their lengths and first letters.
proof fn lemma_names()
    ensures
        "title"@.len() == 5 && "title"@[0] == 't',
        "objectname"@.len() == 10 && "objectname"@[0] == 'o',
        "category"@.len() == 8 && "category"@[0] == 'c',
        "keywords"@.len() == 8 && "keywords"@[0] == 'k',
        "keyword"@.len() == 7 && "keyword"@[0] == 'k',
        "instructions"@.len() == 12 && "instructions"@[0] == 'i',
        "datecreated"@.len() == 11 && "datecreated"@[0] == 'd' && "datecreated"@[1] == 'a',
        "creator"@.len() == 7 && "creator"@[0] == 'c' && "creator"@[1] == 'r',
        "byline"@.len() == 6 && "byline"@[0] == 'b',
        "author"@.len() == 6 && "author"@[0] == 'a',
        "city"@.len() == 4 && "city"@[0] == 'c',
        "sublocation"@.len() == 11 && "sublocation"@[0] == 's',
        "state"@.len() == 5 && "state"@[0] == 's',
        "province"@.len() == 8 && "province"@[0] == 'p',
        "country"@.len() == 7 && "country"@[0] == 'c' && "country"@[1] == 'o',
        "headline"@.len() == 8 && "headline"@[0] == 'h',
        "credit"@.len() == 6 && "credit"@[0] == 'c',
        "source"@.len() == 6 && "source"@[0] == 's',
        "copyright"@.len() == 9 && "copyright"@[0] == 'c',
        "caption"@.len() == 7 && "caption"@[0] == 'c' && "caption"@[1] == 'a',
        "description"@.len() == 11 && "description"@[0] == 'd' && "description"@[1] == 'e',
        "captionwriter"@.len() == 13 && "captionwriter"@[0] == 'c',
{
    reveal_strlit("title");
    reveal_strlit("objectname");
    reveal_strlit("category");
    reveal_strlit("keywords");
    reveal_strlit("keyword");
    reveal_strlit("instructions");
    reveal_strlit("datecreated");
    reveal_strlit("creator");
    reveal_strlit("byline");
    reveal_strlit("author");
    reveal_strlit("city");
    reveal_strlit("sublocation");
    reveal_strlit("state");
    reveal_strlit("province");
    reveal_strlit("country");
    reveal_strlit("headline");
    reveal_strlit("credit");
    reveal_strlit("source");
    reveal_strlit("copyright");
    reveal_strlit("caption");
    reveal_strlit("description");
    reveal_strlit("captionwriter");
}

/// Each looked-up name leads to its number.
proof fn lemma_named()
    ensures
        iptc::named_field("title"@) == Some((2u8, 5u8)),
        iptc::named_field("category"@) == Some((2u8, 15u8)),
        iptc::named_field("keywords"@) == Some((2u8, 25u8)),
        iptc::named_field("instructions"@) == Some((2u8, 40u8)),
        iptc::named_field("datecreated"@) == Some((2u8, 55u8)),
        iptc::named_field("creator"@) == Some((2u8, 80u8)),
        iptc::named_field("city"@) == Some((2u8, 90u8)),
        iptc::named_field("sublocation"@) == Some((2u8, 92u8)),
        iptc::named_field("country"@) == Some((2u8, 101u8)),
        iptc::named_field("headline"@) == Some((2u8, 105u8)),
        iptc::named_field("credit"@) == Some((2u8, 110u8)),
        iptc::named_field("source"@) == Some((2u8, 115u8)),
        iptc::named_field("copyright"@) == Some((2u8, 116u8)),
        iptc::named_field("caption"@) == Some((2u8, 120u8)),
        iptc::named_field("captionwriter"@) == Some((2u8, 122u8)),
{
    lemma_names();
}

/// What a name of letters alone leads to.
proof fn lemma_letters(name: Seq<char>, low: Seq<char>)
    requires
        forall|i: int|
            0 <= i < name.len() ==> ('a' <= (#[trigger] name[i]) <= 'z' || 'A' <= name[i] <= 'Z'),
        text::lowered(name) == low,
    ensures
        iptc::field_of(name) == iptc::named_field(low),
{
    assert forall|i: int| 0 <= i < name.len() implies !text::is_space(#[trigger] name[i]) && name[i] != '-'
        && name[i] != '_' by {}
    lemma_bare_name(name);
    assert forall|i: int| 0 <= i < low.len() implies (#[trigger] low[i]) != ':' by {
        assert(low[i] == text::lower(name[i]));
    }
    lemma_no_char(low, 0, ':');
}

proof fn lemma_lower_names()
    ensures
        text::lowered("Title"@) == "title"@,
        text::lowered("Category"@) == "category"@,
        text::lowered("Keywords"@) == "keywords"@,
        text::lowered("Instructions"@) == "instructions"@,
        text::lowered("DateCreated"@) == "datecreated"@,
        text::lowered("Creator"@) == "creator"@,
        text::lowered("City"@) == "city"@,
        text::lowered("Sublocation"@) == "sublocation"@,
{
    reveal_strlit("Title");
    reveal_strlit("title");
    assert(text::lowered("Title"@) =~= "title"@);
    reveal_strlit("Category");
    reveal_strlit("category");
    assert(text::lowered("Category"@) =~= "category"@);
    reveal_strlit("Keywords");
    reveal_strlit("keywords");
    assert(text::lowered("Keywords"@) =~= "keywords"@);
    reveal_strlit("Instructions");
    reveal_strlit("instructions");
    assert(text::lowered("Instructions"@) =~= "instructions"@);
    reveal_strlit("DateCreated");
    reveal_strlit("datecreated");
    assert(text::lowered("DateCreated"@) =~= "datecreated"@);
    reveal_strlit("Creator");
    reveal_strlit("creator");
    assert(text::lowered("Creator"@) =~= "creator"@);
    reveal_strlit("City");
    reveal_strlit("city");
    assert(text::lowered("City"@) =~= "city"@);
    reveal_strlit("Sublocation");
    reveal_strlit("sublocation");
    assert(text::lowered("Sublocation"@) =~= "sublocation"@);
}

proof fn lemma_more_lower_names()
    ensures
        text::lowered("Country"@) == "country"@,
        text::lowered("Headline"@) == "headline"@,
        text::lowered("Credit"@) == "credit"@,
        text::lowered("Source"@) == "source"@,
        text::lowered("Copyright"@) == "copyright"@,
        text::lowered("Caption"@) == "caption"@,
        text::lowered("CaptionWriter"@) == "captionwriter"@,
{
    reveal_strlit("Country");
    reveal_strlit("country");
    assert(text::lowered("Country"@) =~= "country"@);
    reveal_strlit("Headline");
    reveal_strlit("headline");
    assert(text::lowered("Headline"@) =~= "headline"@);
    reveal_strlit("Credit");
    reveal_strlit("credit");
    assert(text::lowered("Credit"@) =~= "credit"@);
    reveal_strlit("Source");
    reveal_strlit("source");
    assert(text::lowered("Source"@) =~= "source"@);
    reveal_strlit("Copyright");
    reveal_strlit("copyright");
    assert(text::lowered("Copyright"@) =~= "copyright"@);
    reveal_strlit("Caption");
    reveal_strlit("caption");
    assert(text::lowered("Caption"@) =~= "caption"@);
    reveal_strlit("CaptionWriter");
    reveal_strlit("captionwriter");
    assert(text::lowered("CaptionWriter"@) =~= "captionwriter"@);
}

/// Whether a text is made of ASCII letters.
spec fn is_word(s: Seq<char>) -> bool {
    forall|i: int| 0 <= i < s.len() ==> ('a' <= (#[trigger] s[i]) <= 'z' || 'A' <= s[i] <= 'Z')
}

proof fn lemma_words()
    ensures
        forall|n: u8| named_back(n) ==> #[trigger] iptc::known_name(n) is Some && is_word(iptc::known_name(n)->0),
{
    reveal_strlit("Title");
    reveal_strlit("Category");
    reveal_strlit("Keywords");
    reveal_strlit("Instructions");
    reveal_strlit("DateCreated");
    reveal_strlit("Creator");
    reveal_strlit("City");
    reveal_strlit("Sublocation");
    reveal_strlit("Country");
    reveal_strlit("Headline");
    reveal_strlit("Credit");
    reveal_strlit("Source");
    reveal_strlit("Copyright");
    reveal_strlit("Caption");
    reveal_strlit("CaptionWriter");
}

/// The display name of a dataset leads back to it. (`Province/State` and the names that only show
/// what was read do not.)
pub proof fn display_names_lead_back(number: u8)
    requires
        named_back(number),
    ensures
        iptc::field_of(iptc::display_name(2, number)) == Some((2u8, number)),
{
    lemma_words();
    lemma_lower_names();
    lemma_more_lower_names();
    lemma_named();
    let name = iptc::known_name(number)->0;
    lemma_letters(name, text::lowered(name));
}

/// White space around a field name does not matter.
pub proof fn space_around_fields(w: Seq<char>, name: Seq<char>, v: Seq<char>)
    requires
        textlaws::all_space(w),
        textlaws::all_space(v),
    ensures
        iptc::field_of(w + name + v) == iptc::field_of(name),
{
    textlaws::lemma_trimmed_around(w, name, v);
}

/// A field name without the marks that do not matter.
pub open spec fn unmarked(name: Seq<char>) -> Seq<char> {
    text::without_any(name, idle_marks())
}

/// Whether no mark keeps white space other than a blank from being at an end of a name.
pub open spec fn ends_settled(name: Seq<char>) -> bool {
    textlaws::is_trimmed(unmarked(text::trimmed(name)))
}

proof fn lemma_settled(name: Seq<char>)
    requires
        ends_settled(name),
    ensures
        iptc::canonical(name) == text::lowered(text::trimmed(unmarked(name))),
{
    let m = text::trimmed(name);
    let (w, v) = textlaws::lemma_trimmed_parts(name);
    lemma_idle_case();
    textlaws::lemma_without_lowered(m, idle_marks());
    textlaws::lemma_without_concat(w, m, idle_marks());
    textlaws::lemma_without_concat(w + m, v, idle_marks());
    textlaws::lemma_without_kept(w, idle_marks());
    textlaws::lemma_without_kept(v, idle_marks());
    let w2 = unmarked(w);
    let v2 = unmarked(v);
    assert(textlaws::all_space(w2)) by {
        assert forall|i: int| 0 <= i < w2.len() implies text::is_space(#[trigger] w2[i]) by {
            assert(w.contains(w2[i]));
        }
    }
    assert(textlaws::all_space(v2)) by {
        assert forall|i: int| 0 <= i < v2.len() implies text::is_space(#[trigger] v2[i]) by {
            assert(v.contains(v2[i]));
        }
    }
    textlaws::lemma_trimmed_around(w2, unmarked(m), v2);
    textlaws::lemma_trimmed_same(unmarked(m));
}

/// Case, dashes, underscores and blanks do not matter in a field name. (A dash in front of white
/// space other than a blank is left out: it keeps that white space in the name.)
pub proof fn marks_and_case_of_fields(a: Seq<char>, b: Seq<char>)
    requires
        ends_settled(a),
        ends_settled(b),
        text::lowered(unmarked(a)) == text::lowered(unmarked(b)),
    ensures
        iptc::field_of(a) == iptc::field_of(b),
{
    lemma_settled(a);
    lemma_settled(b);
    textlaws::lemma_trimmed_lowered(unmarked(a));
    textlaws::lemma_trimmed_lowered(unmarked(b));
}

/// Case alone does not matter in any field name.
pub proof fn case_of_fields(a: Seq<char>, b: Seq<char>)
    requires
        text::lowered(a) == text::lowered(b),
    ensures
        iptc::field_of(a) == iptc::field_of(b),
{
    textlaws::lemma_trimmed_lowered(a);
    textlaws::lemma_trimmed_lowered(b);
}

/// The names of the fields, in any case, and the numbers of their datasets.
pub proof fn fields_have_their_numbers(name: Seq<char>)
    requires
        forall|i: int|
            0 <= i < name.len() ==> ('a' <= (#[trigger] name[i]) <= 'z' || 'A' <= name[i] <= 'Z'),
    ensures
        text::lowered(name) == "objectname"@ ==> iptc::field_of(name) == Some((2u8, 5u8)),
        text::lowered(name) == "keyword"@ ==> iptc::field_of(name) == Some((2u8, 25u8)),
        text::lowered(name) == "byline"@ ==> iptc::field_of(name) == Some((2u8, 80u8)),
        text::lowered(name) == "author"@ ==> iptc::field_of(name) == Some((2u8, 80u8)),
        text::lowered(name) == "state"@ ==> iptc::field_of(name) == Some((2u8, 95u8)),
        text::lowered(name) == "province"@ ==> iptc::field_of(name) == Some((2u8, 95u8)),
        text::lowered(name) == "description"@ ==> iptc::field_of(name) == Some((2u8, 120u8)),
        text::lowered(name) == "title"@ ==> iptc::field_of(name) == Some((2u8, 5u8)),
        text::lowered(name) == "category"@ ==> iptc::field_of(name) == Some((2u8, 15u8)),
        text::lowered(name) == "keywords"@ ==> iptc::field_of(name) == Some((2u8, 25u8)),
        text::lowered(name) == "instructions"@ ==> iptc::field_of(name) == Some((2u8, 40u8)),
        text::lowered(name) == "datecreated"@ ==> iptc::field_of(name) == Some((2u8, 55u8)),
        text::lowered(name) == "creator"@ ==> iptc::field_of(name) == Some((2u8, 80u8)),
        text::lowered(name) == "city"@ ==> iptc::field_of(name) == Some((2u8, 90u8)),
        text::lowered(name) == "sublocation"@ ==> iptc::field_of(name) == Some((2u8, 92u8)),
        text::lowered(name) == "country"@ ==> iptc::field_of(name) == Some((2u8, 101u8)),
        text::lowered(name) == "headline"@ ==> iptc::field_of(name) == Some((2u8, 105u8)),
        text::lowered(name) == "credit"@ ==> iptc::field_of(name) == Some((2u8, 110u8)),
        text::lowered(name) == "source"@ ==> iptc::field_of(name) == Some((2u8, 115u8)),
        text::lowered(name) == "copyright"@ ==> iptc::field_of(name) == Some((2u8, 116u8)),
        text::lowered(name) == "caption"@ ==> iptc::field_of(name) == Some((2u8, 120u8)),
        text::lowered(name) == "captionwriter"@ ==> iptc::field_of(name) == Some((2u8, 122u8)),
{
    lemma_letters(name, text::lowered(name));
    lemma_names();
    lemma_named();
}

} // verus!
