//! What holds of packets that are written, edited and read again.

use vstd::prelude::*;
use crate::iptc;
use crate::pieces;
use crate::text;
use crate::xml;
use crate::xml::PieceView;
use crate::xmp;
use crate::xmp::{EditView, ValueView};

verus! {

// ---- what a value shows -----------------------------------------------------------------

/// A text as it is shown: trimmed, and not at all where nothing is left.
pub open spec fn shown_part(s: Seq<char>) -> Seq<Seq<char>> {
    if text::trimmed(s).len() > 0 {
        seq![text::trimmed(s)]
    } else {
        Seq::empty()
    }
}

/// Texts as they are shown.
pub open spec fn shown_parts(items: Seq<Seq<char>>) -> Seq<Seq<char>>
    decreases items.len(),
{
    if items.len() == 0 {
        Seq::empty()
    } else {
        shown_parts(items.drop_last()) + shown_part(items.last())
    }
}

/// The text that a value shows: trimmed, several joined by `; `. In front of plain text a byte
/// order mark is passed over.
pub open spec fn shown_value(value: ValueView) -> Seq<char> {
    text::joined(
        match value {
            ValueView::Simple(s) => shown_part(xml::without_mark(s)),
            ValueView::LangAlt(s) => shown_part(s),
            ValueView::Ordered(items) => shown_parts(items),
            ValueView::Bag(items) => shown_parts(items),
        },
        "; "@,
    )
}

/// The properties that are set, with what they show.
pub open spec fn shown_sets(sets: Seq<(Seq<char>, ValueView)>) -> iptc::Properties {
    sets.map_values(|p: (Seq<char>, ValueView)| (p.0, shown_value(p.1)))
}

/// Whether a property of this name can be written as an element: a start tag with this content
/// is read as one of this name, and it is not that of a description.
pub open spec fn name_fits(name: Seq<char>) -> bool {
    &&& xml::piece_ok(PieceView::Open(name))
    &&& forall|i: int| 0 <= i < name.len() ==> !xml::is_gap(#[trigger] name[i])
    &&& name != "rdf:Description"@
}

/// Whether all properties that are set can be written as elements.
pub open spec fn names_fit(sets: Seq<(Seq<char>, ValueView)>) -> bool {
    forall|i: int| 0 <= i < sets.len() ==> name_fits((#[trigger] sets[i]).0)
}

// ---- the pieces of properties -----------------------------------------------------------

/// The pieces of an item of an array.
pub open spec fn item_pieces(s: Seq<char>) -> Seq<PieceView> {
    pieces::element_of("rdf:li"@, pieces::text_pieces(xml::escaped(s)))
}

/// The pieces of the items of an array.
pub open spec fn items_pieces(items: Seq<Seq<char>>) -> Seq<PieceView>
    decreases items.len(),
{
    if items.len() == 0 {
        Seq::empty()
    } else {
        items_pieces(items.drop_last()) + item_pieces(items.last())
    }
}

/// The start tag of the text for all languages.
pub open spec fn default_item() -> Seq<char> {
    xml::tag_content("rdf:li"@, seq![("xml:lang"@, "x-default"@)])
}

/// The pieces of a value.
pub open spec fn value_pieces(value: ValueView) -> Seq<PieceView> {
    match value {
        ValueView::Simple(s) => pieces::text_pieces(xml::escaped(s)),
        ValueView::LangAlt(s) => pieces::element_of(
            "rdf:Alt"@,
            pieces::element_of(default_item(), pieces::text_pieces(xml::escaped(s))),
        ),
        ValueView::Ordered(items) => pieces::element_of("rdf:Seq"@, items_pieces(items)),
        ValueView::Bag(items) => pieces::element_of("rdf:Bag"@, items_pieces(items)),
    }
}

/// The pieces of a property.
pub open spec fn fragment_pieces(name: Seq<char>, value: ValueView) -> Seq<PieceView> {
    pieces::element_of(name, value_pieces(value))
}

/// The pieces of all properties that are set, each on a line of its own.
pub open spec fn fragments_pieces(sets: Seq<(Seq<char>, ValueView)>) -> Seq<PieceView>
    decreases sets.len(),
{
    if sets.len() == 0 {
        Seq::empty()
    } else {
        fragments_pieces(sets.drop_last()) + seq![PieceView::Chars("\n   "@)] + fragment_pieces(
            sets.last().0,
            sets.last().1,
        )
    }
}

proof fn lemma_texts_parts(a: Seq<PieceView>, b: Seq<PieceView>)
    ensures
        pieces::texts_in(a + b) == pieces::texts_in(a) + pieces::texts_in(b),
    decreases b.len(),
{
    if b.len() == 0 {
        assert(a + b =~= a);
        assert(pieces::texts_in(a) + pieces::texts_in(b) =~= pieces::texts_in(a));
    } else {
        assert((a + b).drop_last() =~= a + b.drop_last());
        lemma_texts_parts(a, b.drop_last());
        assert(pieces::texts_in(a + b) =~= pieces::texts_in(a) + pieces::texts_in(b));
    }
}

proof fn lemma_texts_element(content: Seq<char>, inner: Seq<PieceView>)
    ensures
        pieces::texts_in(pieces::element_of(content, inner)) == pieces::texts_in(inner),
{
    let (head, tail) = (seq![PieceView::Open(content)], seq![PieceView::Close(xml::name_in(content))]);
    lemma_texts_parts(head, inner);
    lemma_texts_parts(head + inner, tail);
    assert(head.drop_last() =~= Seq::empty());
    assert(tail.drop_last() =~= Seq::empty());
    assert(pieces::texts_in(Seq::empty()) =~= Seq::empty());
    assert(pieces::texts_in(pieces::element_of(content, inner)) =~= pieces::texts_in(inner));
}

proof fn lemma_texts_escaped(s: Seq<char>)
    ensures
        xml::well_formed(pieces::text_pieces(xml::escaped(s))),
        xml::pieces_text(pieces::text_pieces(xml::escaped(s))) == xml::escaped(s),
        pieces::texts_in(pieces::text_pieces(xml::escaped(s))) == shown_part(s),
{
    let v = pieces::text_pieces(xml::escaped(s));
    pieces::lemma_escaped_clean(s);
    pieces::lemma_text_formed(xml::escaped(s));
    pieces::lemma_text_of(xml::escaped(s));
    if s.len() == 0 {
        assert(text::trimmed(s) =~= s);
        assert(pieces::texts_in(v) =~= shown_part(s));
    } else {
        if xml::escaped(s).len() == 0 {
            assert(xml::escaped(s) =~= xml::escaped(Seq::empty()));
            pieces::lemma_escaped_apart(s, Seq::empty());
        }
        pieces::lemma_known_text(s);
        assert(v.drop_last() =~= Seq::empty());
        assert(pieces::texts_in(Seq::empty()) =~= Seq::empty());
        assert(pieces::texts_in(v) =~= shown_part(s));
    }
}

proof fn lemma_rdf_words()
    ensures
        pieces::tag_word("rdf:li"@),
        pieces::tag_word("rdf:Alt"@),
        pieces::tag_word("rdf:Seq"@),
        pieces::tag_word("rdf:Bag"@),
{
    reveal_strlit("rdf:li");
    reveal_strlit("rdf:Alt");
    reveal_strlit("rdf:Seq");
    reveal_strlit("rdf:Bag");
}

proof fn lemma_items(items: Seq<Seq<char>>)
    ensures
        xml::well_formed(items_pieces(items)),
        xml::pieces_text(items_pieces(items)) == xmp::list_items(items),
        pieces::texts_in(items_pieces(items)) == shown_parts(items),
        items_pieces(items).len() > 0 ==> !(items_pieces(items).last() is Chars),
    decreases items.len(),
{
    if items.len() == 0 {
        pieces::lemma_nothing_formed();
        assert(xml::pieces_text(items_pieces(items)) =~= xmp::list_items(items));
    } else {
        let (front, s) = (items_pieces(items.drop_last()), items.last());
        let inner = pieces::text_pieces(xml::escaped(s));
        lemma_items(items.drop_last());
        lemma_rdf_words();
        pieces::lemma_word_tags("rdf:li"@);
        lemma_texts_escaped(s);
        pieces::lemma_element_formed("rdf:li"@, inner);
        pieces::lemma_element_text("rdf:li"@, inner);
        lemma_texts_element("rdf:li"@, inner);
        pieces::lemma_parts_formed(front, item_pieces(s));
        pieces::lemma_text_parts(front, item_pieces(s));
        lemma_texts_parts(front, item_pieces(s));
        reveal_strlit("<");
        reveal_strlit(">");
        reveal_strlit("</");
        reveal_strlit("rdf:li");
        reveal_strlit("<rdf:li>");
        reveal_strlit("</rdf:li>");
        assert("<rdf:li>"@ =~= "<"@ + "rdf:li"@ + ">"@);
        assert("</rdf:li>"@ =~= "</"@ + "rdf:li"@ + ">"@);
        assert(xml::pieces_text(items_pieces(items)) =~= xmp::list_items(items));
    }
}

proof fn lemma_array(kind: Seq<char>, items: Seq<Seq<char>>)
    requires
        pieces::tag_word(kind),
    ensures
        ({
            let v = pieces::element_of(kind, items_pieces(items));
            &&& xml::well_formed(v)
            &&& xml::pieces_text(v) == "<"@ + kind + ">"@ + xmp::list_items(items) + "</"@ + kind + ">"@
            &&& pieces::shown_in(v) == text::joined(shown_parts(items), "; "@)
        }),
{
    lemma_items(items);
    pieces::lemma_word_tags(kind);
    pieces::lemma_element_formed(kind, items_pieces(items));
    pieces::lemma_element_text(kind, items_pieces(items));
    lemma_texts_element(kind, items_pieces(items));
}

/// What is written for a value.
pub proof fn lemma_value(value: ValueView)
    ensures
        xml::well_formed(value_pieces(value)),
        xml::pieces_text(value_pieces(value)) == xmp::value_text(value),
        pieces::shown_in(value_pieces(value)) == shown_value(value),
{
    reveal_strlit("<");
    reveal_strlit(">");
    reveal_strlit("</");
    lemma_rdf_words();
    match value {
        ValueView::Simple(s) => {
            let v = value_pieces(value);
            lemma_texts_escaped(s);
            lemma_texts_escaped(xml::without_mark(s));
            pieces::lemma_escaped_mark(s);
            assert(v.len() > 0 ==> v.skip(1) =~= Seq::empty());
            assert(pieces::unmarked(v) =~= pieces::text_pieces(xml::escaped(xml::without_mark(s))));
        },
        ValueView::LangAlt(s) => {
            lemma_lang(s);
        },
        ValueView::Ordered(items) => {
            lemma_array("rdf:Seq"@, items);
            reveal_strlit("rdf:Seq");
            reveal_strlit("<rdf:Seq>");
            reveal_strlit("</rdf:Seq>");
            assert("<rdf:Seq>"@ =~= "<"@ + "rdf:Seq"@ + ">"@);
            assert("</rdf:Seq>"@ =~= "</"@ + "rdf:Seq"@ + ">"@);
            assert(xml::pieces_text(value_pieces(value)) =~= xmp::value_text(value));
        },
        ValueView::Bag(items) => {
            lemma_array("rdf:Bag"@, items);
            reveal_strlit("rdf:Bag");
            reveal_strlit("<rdf:Bag>");
            reveal_strlit("</rdf:Bag>");
            assert("<rdf:Bag>"@ =~= "<"@ + "rdf:Bag"@ + ">"@);
            assert("</rdf:Bag>"@ =~= "</"@ + "rdf:Bag"@ + ">"@);
            assert(xml::pieces_text(value_pieces(value)) =~= xmp::value_text(value));
        },
    }
}

/// A start tag with one attribute.
proof fn lemma_single_attribute(name: Seq<char>, key: Seq<char>, value: Seq<char>)
    requires
        pieces::tag_word(name),
        plain_word(key),
        plain_word(value),
    ensures
        ({
            let c = xml::tag_content(name, seq![(key, value)]);
            &&& xml::piece_ok(PieceView::Open(c))
            &&& xml::piece_ok(PieceView::Close(name))
            &&& xml::name_in(c) == name
            &&& c == name + " "@ + key + "=\""@ + value + "\""@
        }),
{
    let list = seq![(key, value)];
    assert forall|i: int, k: int| 0 <= i < list.len() && 0 <= k < list[i].0.len() implies (
    #[trigger] list[i].0[k]) != '"' && list[i].0[k] != '\'' && list[i].0[k] != '>' by {
        assert(!pieces::is_special(key[k]));
    }
    pieces::lemma_attributed_tag(name, list);
    pieces::lemma_word_tags(name);
    pieces::lemma_escaped_plain(value);
    assert(list.drop_last() =~= Seq::empty());
    assert(xml::attributes_text(Seq::empty()) =~= Seq::empty());
    assert(xml::tag_content(name, list) =~= name + " "@ + key + "=\""@ + value + "\""@);
}

proof fn lemma_default_item()
    ensures
        xml::piece_ok(PieceView::Open(default_item())),
        xml::name_in(default_item()) == "rdf:li"@,
        default_item() == "rdf:li"@ + " xml:lang=\"x-default\""@,
{
    reveal_strlit("xml:lang");
    reveal_strlit("x-default");
    lemma_rdf_words();
    lemma_single_attribute("rdf:li"@, "xml:lang"@, "x-default"@);
    reveal_strlit(" ");
    reveal_strlit("=\"");
    reveal_strlit("\"");
    reveal_strlit(" xml:lang=\"x-default\"");
    assert(default_item() =~= "rdf:li"@ + " xml:lang=\"x-default\""@);
}

proof fn lemma_lang_tags()
    ensures
        "<rdf:Alt><rdf:li xml:lang=\"x-default\">"@ == "<"@ + "rdf:Alt"@ + ">"@ + "<"@ + "rdf:li"@
            + " xml:lang=\"x-default\""@ + ">"@,
        "</rdf:li></rdf:Alt>"@ == "</"@ + "rdf:li"@ + ">"@ + "</"@ + "rdf:Alt"@ + ">"@,
{
    reveal_strlit("<");
    reveal_strlit(">");
    reveal_strlit("</");
    reveal_strlit(" xml:lang=\"x-default\"");
    reveal_strlit("rdf:li");
    reveal_strlit("rdf:Alt");
    reveal_strlit("<rdf:Alt><rdf:li xml:lang=\"x-default\">");
    reveal_strlit("</rdf:li></rdf:Alt>");
    assert("<rdf:Alt><rdf:li xml:lang=\"x-default\">"@ =~= "<"@ + "rdf:Alt"@ + ">"@ + "<"@ + "rdf:li"@
        + " xml:lang=\"x-default\""@ + ">"@);
    assert("</rdf:li></rdf:Alt>"@ =~= "</"@ + "rdf:li"@ + ">"@ + "</"@ + "rdf:Alt"@ + ">"@);
}

proof fn lemma_lang(s: Seq<char>)
    ensures
        xml::well_formed(value_pieces(ValueView::LangAlt(s))),
        xml::pieces_text(value_pieces(ValueView::LangAlt(s))) == xmp::value_text(ValueView::LangAlt(s)),
        pieces::shown_in(value_pieces(ValueView::LangAlt(s))) == shown_value(ValueView::LangAlt(s)),
{
    let inner = pieces::text_pieces(xml::escaped(s));
    let item = pieces::element_of(default_item(), inner);
    lemma_rdf_words();
    lemma_texts_escaped(s);
    lemma_default_item();
    pieces::lemma_word_tags("rdf:li"@);
    pieces::lemma_word_tags("rdf:Alt"@);
    pieces::lemma_element_formed(default_item(), inner);
    pieces::lemma_element_text(default_item(), inner);
    lemma_texts_element(default_item(), inner);
    pieces::lemma_element_formed("rdf:Alt"@, item);
    pieces::lemma_element_text("rdf:Alt"@, item);
    lemma_texts_element("rdf:Alt"@, item);
    lemma_lang_tags();
    assert(xml::pieces_text(value_pieces(ValueView::LangAlt(s))) =~= xmp::value_text(ValueView::LangAlt(s)));
}

/// What is written for a property.
pub proof fn lemma_fragment(name: Seq<char>, value: ValueView)
    requires
        name_fits(name),
    ensures
        xml::well_formed(fragment_pieces(name, value)),
        xml::pieces_text(fragment_pieces(name, value)) == xmp::fragment(name, value),
        pieces::properties_in(fragment_pieces(name, value), 0, true, 0) == seq![(name, shown_value(value))],
        pieces::without_descriptions(fragment_pieces(name, value)),
{
    lemma_value(value);
    pieces::lemma_word_name(name);
    pieces::lemma_element_formed(name, value_pieces(value));
    pieces::lemma_element_text(name, value_pieces(value));
    pieces::lemma_child_element(name, value_pieces(value));
}

proof fn lemma_line_break()
    ensures
        xml::piece_ok(PieceView::Chars("\n   "@)),
        xml::piece_ok(PieceView::Chars("\n  "@)),
        xml::piece_ok(PieceView::Chars("\n "@)),
        xml::piece_ok(PieceView::Chars("\n"@)),
{
    reveal_strlit("\n   ");
    reveal_strlit("\n  ");
    reveal_strlit("\n ");
    reveal_strlit("\n");
}

/// Pieces with others on a line of their own behind them.
pub proof fn lemma_new_line(a: Seq<PieceView>, b: Seq<PieceView>)
    requires
        xml::well_formed(a),
        xml::well_formed(b),
        pieces::without_descriptions(a),
        pieces::without_descriptions(b),
        a.len() > 0 ==> !(a.last() is Chars),
        b.len() > 0,
        !(b[0] is Chars),
    ensures
        ({
            let v = a + seq![PieceView::Chars("\n   "@)] + b;
            &&& xml::well_formed(v)
            &&& pieces::without_descriptions(v)
            &&& xml::pieces_text(v) == xml::pieces_text(a) + "\n   "@ + xml::pieces_text(b)
            &&& pieces::properties_in(v, 0, true, 0) == pieces::properties_in(a, 0, true, 0)
                + pieces::properties_in(b, 0, true, 0)
        }),
{
    lemma_line_break();
    let line = seq![PieceView::Chars("\n   "@)];
    pieces::lemma_one_formed(line[0]);
    pieces::lemma_one_text(line[0]);
    pieces::lemma_child_text(line[0]);
    pieces::lemma_parts_formed(a, line);
    pieces::lemma_text_parts(a, line);
    pieces::lemma_children_parts(a, line);
    pieces::lemma_parts_formed(a + line, b);
    pieces::lemma_text_parts(a + line, b);
    pieces::lemma_children_parts(a + line, b);
    let p = pieces::properties_in(a, 0, true, 0);
    assert(p + Seq::<(Seq<char>, Seq<char>)>::empty() =~= p);
}

/// What is written for all properties that are set.
pub proof fn lemma_fragments(sets: Seq<(Seq<char>, ValueView)>)
    requires
        names_fit(sets),
    ensures
        xml::well_formed(fragments_pieces(sets)),
        xml::pieces_text(fragments_pieces(sets)) == xmp::fragments(sets),
        pieces::properties_in(fragments_pieces(sets), 0, true, 0) == shown_sets(sets),
        pieces::without_descriptions(fragments_pieces(sets)),
        fragments_pieces(sets).len() > 0 ==> !(fragments_pieces(sets).last() is Chars),
    decreases sets.len(),
{
    let v = fragments_pieces(sets);
    if sets.len() == 0 {
        pieces::lemma_nothing_formed();
        pieces::lemma_no_children();
        assert(xml::pieces_text(v) =~= xmp::fragments(sets));
        assert(shown_sets(sets) =~= Seq::empty());
    } else {
        let front = sets.drop_last();
        assert forall|i: int| 0 <= i < front.len() implies name_fits((#[trigger] front[i]).0) by {
            assert(front[i] == sets[i]);
        }
        lemma_fragments(front);
        let (name, value) = sets.last();
        assert(name_fits(sets[sets.len() - 1].0));
        lemma_fragment(name, value);
        lemma_new_line(fragments_pieces(front), fragment_pieces(name, value));
        assert(shown_sets(sets) =~= shown_sets(front) + seq![(name, shown_value(value))]);
    }
}

// ---- the description --------------------------------------------------------------------

/// The properties of a packet around its first description: those of its attributes, those
/// inside it, and those behind it.
pub proof fn lemma_described(pre: Seq<PieceView>, content: Seq<char>, w: Seq<PieceView>, post: Seq<PieceView>)
    requires
        forall|i: int| 0 <= i < pre.len() ==> !pieces::begins_description(#[trigger] pre[i]),
        xml::name_in(content) == "rdf:Description"@,
        xml::well_formed(w),
        pieces::without_descriptions(w),
    ensures
        ({
            let v = pre + pieces::element_of(content, w) + post;
            pieces::plain_properties(v) == xmp::attribute_properties(pieces::known_attributes(content))
                + pieces::properties_in(w, 0, true, 0) + pieces::properties_in(
                v,
                (pre.len() + w.len() + 2) as int,
                false,
                0,
            )
        }),
{
    let v = pre + pieces::element_of(content, w) + post;
    let i = pre.len() as int;
    let j = i + 1 + w.len();
    assert forall|k: int| 0 <= k < i implies !pieces::begins_description(#[trigger] v[k]) by {
        assert(v[k] == pre[k]);
    }
    pieces::lemma_outside(v, 0, i, 0);
    assert(v[i] == PieceView::Open(content));
    assert(v[j] == PieceView::Close("rdf:Description"@));
    pieces::lemma_in_description(v, i);
    assert(v.subrange(i + 1, i + 1 + w.len()) =~= w);
    pieces::lemma_frame(v, i + 1, w, 0);
    pieces::lemma_in_closing(v, j);
    let (a, b) = (xmp::attribute_properties(pieces::known_attributes(content)), pieces::properties_in(w, 0, true, 0));
    let c = pieces::properties_in(v, j + 1, false, 0);
    assert(a + (b + c) =~= a + b + c);
}

/// Outside descriptions there are no properties, to the end.
pub proof fn lemma_no_more(v: Seq<PieceView>, i: int)
    requires
        0 <= i <= v.len(),
        forall|k: int| i <= k < v.len() ==> !pieces::begins_description(#[trigger] v[k]),
    ensures
        pieces::properties_in(v, i, false, 0) == Seq::<(Seq<char>, Seq<char>)>::empty(),
{
    pieces::lemma_outside(v, i, v.len() as int, 0);
    pieces::lemma_in_end(v, v.len() as int, false, 0);
}

// ---- declarations of namespaces ---------------------------------------------------------

proof fn lemma_less_apart(a: Seq<char>, b: Seq<char>)
    requires
        text::text_less(a, b),
    ensures
        a != b,
        !text::text_less(b, a),
    decreases a.len(),
{
    if a.len() > 0 && b.len() > 0 && a[0] == b[0] {
        lemma_less_apart(a.drop_first(), b.drop_first());
    }
}

proof fn lemma_less_chain(a: Seq<char>, b: Seq<char>, c: Seq<char>)
    requires
        text::text_less(a, b),
        text::text_less(b, c),
    ensures
        text::text_less(a, c),
    decreases a.len(),
{
    if a.len() > 0 && a[0] == b[0] && b[0] == c[0] {
        lemma_less_chain(a.drop_first(), b.drop_first(), c.drop_first());
    }
}

proof fn lemma_less_total(a: Seq<char>, b: Seq<char>)
    requires
        !text::text_less(a, b),
        a != b,
    ensures
        text::text_less(b, a),
    decreases a.len(),
{
    if a.len() > 0 && b.len() > 0 && a[0] == b[0] {
        if a.drop_first() == b.drop_first() {
            assert(a =~= seq![a[0]] + a.drop_first());
            assert(b =~= seq![b[0]] + b.drop_first());
        }
        lemma_less_total(a.drop_first(), b.drop_first());
    } else if a.len() == 0 {
        assert(b.len() == 0);
        assert(a =~= b);
    }
}

/// Whether texts are in order, each once.
pub open spec fn in_order(list: Seq<Seq<char>>) -> bool {
    forall|i: int, j: int| 0 <= i < j < list.len() ==> text::text_less(#[trigger] list[i], #[trigger] list[j])
}

proof fn lemma_put_sorted(list: Seq<Seq<char>>, s: Seq<char>, bound: Seq<char>)
    requires
        in_order(list),
    ensures
        in_order(xmp::put_sorted(list, s)),
        (forall|i: int| 0 <= i < list.len() ==> text::text_less(#[trigger] list[i], bound)) && text::text_less(
            s,
            bound,
        ) ==> forall|i: int|
            0 <= i < xmp::put_sorted(list, s).len() ==> text::text_less(
                #[trigger] xmp::put_sorted(list, s)[i],
                bound,
            ),
    decreases list.len(),
{
    let out = xmp::put_sorted(list, s);
    if list.len() == 0 || text::text_less(list.last(), s) {
        assert forall|i: int, j: int| 0 <= i < j < out.len() implies text::text_less(
            #[trigger] out[i],
            #[trigger] out[j],
        ) by {
            if j == list.len() {
                if i < list.len() - 1 {
                    assert(text::text_less(list[i], list[list.len() - 1]));
                    lemma_less_chain(list[i], list.last(), s);
                }
            } else {
                assert(out[i] == list[i] && out[j] == list[j]);
            }
        }
    } else if list.last() != s {
        let (front, last) = (list.drop_last(), list.last());
        assert forall|i: int, j: int| 0 <= i < j < front.len() implies text::text_less(
            #[trigger] front[i],
            #[trigger] front[j],
        ) by {
            assert(front[i] == list[i] && front[j] == list[j]);
        }
        lemma_less_total(last, s);
        assert forall|i: int| 0 <= i < front.len() implies text::text_less(#[trigger] front[i], last) by {
            assert(front[i] == list[i] && last == list[list.len() - 1]);
        }
        lemma_put_sorted(front, s, last);
        lemma_put_sorted(front, s, bound);
        let inner = xmp::put_sorted(front, s);
        assert(out == inner.push(last));
        assert forall|i: int, j: int| 0 <= i < j < out.len() implies text::text_less(
            #[trigger] out[i],
            #[trigger] out[j],
        ) by {
            assert(out[i] == inner[i]);
            if j < inner.len() {
                assert(out[j] == inner[j]);
            }
        }
        if (forall|i: int| 0 <= i < list.len() ==> text::text_less(#[trigger] list[i], bound)) && text::text_less(
            s,
            bound,
        ) {
            assert forall|i: int| 0 <= i < front.len() implies text::text_less(#[trigger] front[i], bound) by {
                assert(front[i] == list[i]);
            }
            assert(text::text_less(list[list.len() - 1], bound));
            assert forall|i: int| 0 <= i < out.len() implies text::text_less(#[trigger] out[i], bound) by {
                if i < inner.len() {
                    assert(out[i] == inner[i]);
                }
            }
        }
    }
}

/// The prefixes of the properties that are set are in order, each once.
pub proof fn lemma_prefixes(sets: Seq<(Seq<char>, ValueView)>)
    ensures
        in_order(xmp::prefixes(sets)),
    decreases sets.len(),
{
    if sets.len() > 0 {
        lemma_prefixes(sets.drop_last());
        lemma_put_sorted(
            xmp::prefixes(sets.drop_last()),
            xmp::prefix_of(sets.last().0),
            xmp::prefix_of(sets.last().0),
        );
    }
}

/// The declarations of the known prefixes that are not among `present`, as attributes.
pub open spec fn declaring(list: Seq<Seq<char>>, present: Seq<Seq<char>>) -> Seq<(Seq<char>, Seq<char>)>
    decreases list.len(),
{
    if list.len() == 0 {
        Seq::empty()
    } else {
        let head = declaring(list.drop_last(), present);
        match xmp::namespace(list.last()) {
            Some(uri) => if present.contains(list.last()) {
                head
            } else {
                head.push(("xmlns:"@ + list.last(), uri))
            },
            None => head,
        }
    }
}

/// Whether a text holds nothing that means something in a tag.
pub open spec fn plain_word(s: Seq<char>) -> bool {
    forall|i: int|
        0 <= i < s.len() ==> !xml::is_gap(#[trigger] s[i]) && !pieces::is_special(s[i]) && s[i] != '='
}

proof fn lemma_known_words()
    ensures
        plain_word("xmlns:"@),
        plain_word("rdf"@),
        plain_word("dc"@),
        plain_word("xmp"@),
        plain_word("photoshop"@),
        plain_word("lr"@),
        plain_word("xmpRights"@),
        plain_word("Iptc4xmpCore"@),
{
    reveal_strlit("xmlns:");
    reveal_strlit("rdf");
    reveal_strlit("dc");
    reveal_strlit("xmp");
    reveal_strlit("photoshop");
    reveal_strlit("lr");
    reveal_strlit("xmpRights");
    reveal_strlit("Iptc4xmpCore");
}

proof fn lemma_known_namespaces()
    ensures
        plain_word("http://www.w3.org/1999/02/22-rdf-syntax-ns#"@),
        plain_word("http://purl.org/dc/elements/1.1/"@),
        plain_word("http://ns.adobe.com/xap/1.0/"@),
        plain_word("http://ns.adobe.com/photoshop/1.0/"@),
        plain_word("http://ns.adobe.com/lightroom/1.0/"@),
        plain_word("http://ns.adobe.com/xap/1.0/rights/"@),
        plain_word("http://iptc.org/std/Iptc4xmpCore/1.0/xmlns/"@),
{
    reveal_strlit("http://www.w3.org/1999/02/22-rdf-syntax-ns#");
    reveal_strlit("http://purl.org/dc/elements/1.1/");
    reveal_strlit("http://ns.adobe.com/xap/1.0/");
    reveal_strlit("http://ns.adobe.com/photoshop/1.0/");
    reveal_strlit("http://ns.adobe.com/lightroom/1.0/");
    reveal_strlit("http://ns.adobe.com/xap/1.0/rights/");
    reveal_strlit("http://iptc.org/std/Iptc4xmpCore/1.0/xmlns/");
}

/// The declaration of a known prefix can stand in a tag as it is.
pub proof fn lemma_namespace(prefix: Seq<char>)
    ensures
        match xmp::namespace(prefix) {
            Some(uri) => {
                &&& xml::key_ok("xmlns:"@ + prefix)
                &&& plain_word("xmlns:"@ + prefix)
                &&& xmp::declares("xmlns:"@ + prefix)
                &&& text::has_prefix("xmlns:"@ + prefix, "xmlns"@)
                &&& xmp::without_prefixes("xmlns:"@ + prefix, "xmlns:"@) == prefix
                &&& xml::escaped(uri) == uri
            },
            None => true,
        },
{
    lemma_known_words();
    lemma_known_namespaces();
    reveal_strlit("xmlns:");
    reveal_strlit("xmlns");
    if let Some(uri) = xmp::namespace(prefix) {
        assert(plain_word(prefix));
        let key = "xmlns:"@ + prefix;
        assert forall|i: int| 0 <= i < key.len() implies !xml::is_gap(#[trigger] key[i]) && !pieces::is_special(
            key[i],
        ) && key[i] != '=' by {
            if i >= 6 {
                assert(key[i] == prefix[i - 6]);
            } else {
                assert(key[i] == "xmlns:"@[i]);
            }
        }
        pieces::lemma_escaped_plain(uri);
        assert(key.subrange(0, 6) =~= "xmlns:"@);
        assert(key.subrange(0, 5) =~= "xmlns"@);
        assert(key.skip(6) =~= prefix);
        assert(!text::has_prefix(prefix, "xmlns:"@)) by {
            lemma_known_fronts(prefix);
        }
        assert(xmp::without_prefixes(prefix, "xmlns:"@) == prefix);
    }
}

proof fn lemma_known_fronts(prefix: Seq<char>)
    requires
        xmp::namespace(prefix) is Some,
    ensures
        !text::has_prefix(prefix, "xmlns:"@),
{
    reveal_strlit("xmlns:");
    reveal_strlit("rdf");
    reveal_strlit("dc");
    reveal_strlit("xmp");
    reveal_strlit("photoshop");
    reveal_strlit("lr");
    reveal_strlit("xmpRights");
    reveal_strlit("Iptc4xmpCore");
    if text::has_prefix(prefix, "xmlns:"@) {
        let head = prefix.subrange(0, 6);
        assert(head == "xmlns:"@);
        assert(head[0] == 'x' && head[2] == 'l');
        assert(head[0] == prefix[0] && head[2] == prefix[2]);
    }
}

/// The declarations that are added are plain attributes, each key once, of no property.
pub proof fn lemma_declaring(list: Seq<Seq<char>>, present: Seq<Seq<char>>)
    requires
        in_order(list),
    ensures
        ({
            let out = declaring(list, present);
            &&& xml::attributes_ok(out)
            &&& pieces::keys_plain(out)
            &&& xml::attributes_text(out) == xmp::missing_declarations(list, present)
            &&& xmp::attribute_properties(xml::as_attributes(out)) == Seq::<(Seq<char>, Seq<char>)>::empty()
            &&& forall|k: int|
                0 <= k < out.len() ==> exists|i: int|
                    0 <= i < list.len() && (#[trigger] out[k]).0 == "xmlns:"@ + #[trigger] list[i]
                        && xmp::namespace(list[i]) is Some && !present.contains(list[i])
        }),
    decreases list.len(),
{
    let out = declaring(list, present);
    if list.len() == 0 {
        assert(xml::as_attributes(out) =~= Seq::empty());
        assert(xml::attributes_text(out) =~= xmp::missing_declarations(list, present));
    } else {
        let (front, last) = (list.drop_last(), list.last());
        let head = declaring(front, present);
        assert forall|i: int, j: int| 0 <= i < j < front.len() implies text::text_less(
            #[trigger] front[i],
            #[trigger] front[j],
        ) by {
            assert(front[i] == list[i] && front[j] == list[j]);
        }
        lemma_declaring(front, present);
        lemma_namespace(last);
        assert forall|k: int| 0 <= k < head.len() implies exists|i: int|
            0 <= i < list.len() - 1 && (#[trigger] head[k]).0 == "xmlns:"@ + #[trigger] list[i] && xmp::namespace(
                list[i],
            ) is Some && !present.contains(list[i]) by {
            let i = choose|i: int|
                0 <= i < front.len() && head[k].0 == "xmlns:"@ + #[trigger] front[i] && xmp::namespace(
                    front[i],
                ) is Some && !present.contains(front[i]);
            assert(front[i] == list[i]);
        }
        if xmp::namespace(last) is Some && !present.contains(last) {
            let uri = xmp::namespace(last)->0;
            let key = "xmlns:"@ + last;
            assert(out == head.push((key, uri)));
            assert(out.drop_last() =~= head);
            assert forall|k: int| 0 <= k < head.len() implies (#[trigger] head[k]).0 != key by {
                let i = choose|i: int|
                    0 <= i < list.len() - 1 && head[k].0 == "xmlns:"@ + #[trigger] list[i] && xmp::namespace(
                        list[i],
                    ) is Some && !present.contains(list[i]);
                assert(text::text_less(list[i], list[list.len() - 1]));
                lemma_less_apart(list[i], last);
                reveal_strlit("xmlns:");
                assert(list[i] =~= head[k].0.skip(6));
                assert(last =~= key.skip(6));
            }
            assert(xml::attributes_ok(out));
            assert forall|i: int, k: int| 0 <= i < out.len() && 0 <= k < out[i].0.len() implies (
            #[trigger] out[i].0[k]) != '"' && out[i].0[k] != '\'' && out[i].0[k] != '>' by {
                if i < head.len() {
                    assert(out[i] == head[i]);
                    assert(head[i].0[k] != '"');
                } else {
                    assert(out[i].0 == key);
                    assert(!pieces::is_special(key[k]));
                }
            }
            let all = xml::as_attributes(out);
            assert(all.drop_last() =~= xml::as_attributes(head));
            assert(all.last() == xml::AttrView::Pair(key, Ok(uri)));
            assert(list[list.len() - 1] == last);
            assert(xml::attributes_text(out) =~= xmp::missing_declarations(list, present));
        } else {
            assert(out == head);
        }
    }
}

/// Attributes one behind the other, as they are written and as properties.
pub proof fn lemma_attributes_parts(a: Seq<(Seq<char>, Seq<char>)>, b: Seq<(Seq<char>, Seq<char>)>)
    ensures
        xml::attributes_text(a + b) == xml::attributes_text(a) + xml::attributes_text(b),
        xmp::attribute_properties(xml::as_attributes(a + b)) == xmp::attribute_properties(xml::as_attributes(a))
            + xmp::attribute_properties(xml::as_attributes(b)),
    decreases b.len(),
{
    let (pa, pb) = (
        xmp::attribute_properties(xml::as_attributes(a)),
        xmp::attribute_properties(xml::as_attributes(b)),
    );
    if b.len() == 0 {
        assert(a + b =~= a);
        assert(xml::as_attributes(b) =~= Seq::empty());
        assert(xml::attributes_text(a) + xml::attributes_text(b) =~= xml::attributes_text(a));
        assert(pa + pb =~= pa);
    } else {
        let whole = a + b;
        assert(whole.drop_last() =~= a + b.drop_last());
        lemma_attributes_parts(a, b.drop_last());
        assert(xml::attributes_text(whole) =~= xml::attributes_text(a) + xml::attributes_text(b));
        let (all, some) = (xml::as_attributes(whole), xml::as_attributes(b));
        assert(all.drop_last() =~= xml::as_attributes(whole.drop_last()));
        assert(some.drop_last() =~= xml::as_attributes(b.drop_last()));
        assert(all.last() == some.last());
        assert(xmp::attribute_properties(all) =~= pa + pb);
    }
}

/// Attributes one behind the other are fit for a tag where no key is in both.
pub proof fn lemma_attributes_joined(a: Seq<(Seq<char>, Seq<char>)>, b: Seq<(Seq<char>, Seq<char>)>)
    requires
        xml::attributes_ok(a),
        xml::attributes_ok(b),
        pieces::keys_plain(a),
        pieces::keys_plain(b),
        forall|i: int, j: int|
            0 <= i < a.len() && 0 <= j < b.len() ==> (#[trigger] a[i]).0 != (#[trigger] b[j]).0,
    ensures
        xml::attributes_ok(a + b),
        pieces::keys_plain(a + b),
{
    let v = a + b;
    let n = a.len();
    assert forall|i: int| 0 <= i < v.len() implies xml::key_ok((#[trigger] v[i]).0) by {
        if i < n {
            assert(v[i] == a[i]);
        } else {
            assert(v[i] == b[i - n]);
        }
    }
    assert forall|i: int, j: int| 0 <= i < j < v.len() implies (#[trigger] v[i]).0 != (#[trigger] v[j]).0 by {
        if j < n {
            assert(v[i] == a[i] && v[j] == a[j]);
        } else if i < n {
            assert(v[i] == a[i] && v[j] == b[j - n]);
        } else {
            assert(v[i] == b[i - n] && v[j] == b[j - n]);
        }
    }
    assert forall|i: int, k: int| 0 <= i < v.len() && 0 <= k < v[i].0.len() implies (#[trigger] v[i].0[k]) != '"'
        && v[i].0[k] != '\'' && v[i].0[k] != '>' by {
        if i < n {
            assert(v[i] == a[i]);
            assert(a[i].0[k] != '"');
        } else {
            assert(v[i] == b[i - n]);
            assert(b[i - n].0[k] != '"');
        }
    }
}

// ---- a fresh packet ---------------------------------------------------------------------

/// The attributes of the description of a fresh packet.
pub open spec fn fresh_attributes(sets: Seq<(Seq<char>, ValueView)>) -> Seq<(Seq<char>, Seq<char>)> {
    seq![("rdf:about"@, Seq::<char>::empty())] + declaring(xmp::prefixes(sets), seq!["rdf"@])
}

/// The start tag of the description of a fresh packet.
pub open spec fn fresh_description(sets: Seq<(Seq<char>, ValueView)>) -> Seq<char> {
    xml::tag_content("rdf:Description"@, fresh_attributes(sets))
}

/// The words of a description.
pub proof fn lemma_about()
    ensures
        xml::key_ok("rdf:about"@),
        plain_word("rdf:about"@),
        pieces::tag_word("rdf:Description"@),
        "rdf:about"@[0] != "xmlns:"@[0],
{
    reveal_strlit("rdf:about");
    reveal_strlit("rdf:Description");
    reveal_strlit("xmlns:");
}

proof fn lemma_fresh_declarations(list: Seq<Seq<char>>)
    ensures
        xmp::declarations(list) == xmp::missing_declarations(list, seq!["rdf"@]),
    decreases list.len(),
{
    if list.len() > 0 {
        lemma_fresh_declarations(list.drop_last());
        lemma_namespace(list.last());
        let present = seq!["rdf"@];
        assert(present[0] == "rdf"@);
        assert(present.contains(list.last()) == (list.last() == "rdf"@));
        reveal_strlit(" xmlns:");
        reveal_strlit(" ");
        reveal_strlit("xmlns:");
        assert(" xmlns:"@ =~= " "@ + "xmlns:"@);
        assert(xmp::declarations(list) =~= xmp::missing_declarations(list, present));
    }
}

#[verifier::spinoff_prover]
proof fn lemma_fresh_description(sets: Seq<(Seq<char>, ValueView)>)
    ensures
        ({
            let c = fresh_description(sets);
            &&& xml::piece_ok(PieceView::Open(c))
            &&& xml::name_in(c) == "rdf:Description"@
            &&& c == "rdf:Description"@ + " rdf:about=\"\""@ + xmp::declarations(xmp::prefixes(sets))
            &&& xmp::attribute_properties(pieces::known_attributes(c)) == Seq::<(Seq<char>, Seq<char>)>::empty()
        }),
{
    let list = fresh_attributes(sets);
    let about = seq![("rdf:about"@, Seq::<char>::empty())];
    let added = declaring(xmp::prefixes(sets), seq!["rdf"@]);
    lemma_about();
    lemma_prefixes(sets);
    lemma_declaring(xmp::prefixes(sets), seq!["rdf"@]);
    lemma_fresh_declarations(xmp::prefixes(sets));
    assert forall|i: int, k: int| 0 <= i < about.len() && 0 <= k < about[i].0.len() implies (
    #[trigger] about[i].0[k]) != '"' && about[i].0[k] != '\'' && about[i].0[k] != '>' by {
        assert(about[i].0 == "rdf:about"@);
        assert(!pieces::is_special("rdf:about"@[k]));
    }
    assert forall|i: int, j: int| 0 <= i < about.len() && 0 <= j < added.len() implies (#[trigger] about[i]).0 != (
    #[trigger] added[j]).0 by {
        let prefixes = xmp::prefixes(sets);
        let p = choose|p: int| 0 <= p < prefixes.len() && added[j].0 == "xmlns:"@ + #[trigger] prefixes[p];
        reveal_strlit("xmlns:");
        assert(added[j].0[0] == "xmlns:"@[0]);
    }
    lemma_attributes_joined(about, added);
    lemma_attributes_parts(about, added);
    pieces::lemma_attributed_tag("rdf:Description"@, list);
    pieces::lemma_known_attributes("rdf:Description"@, list);
    lemma_about_text();
    let all = xml::as_attributes(about);
    assert(all.drop_last() =~= Seq::empty());
    assert(all.last() == xml::AttrView::Pair("rdf:about"@, Ok(Seq::<char>::empty())));
    assert(xmp::attribute_properties(Seq::empty()) =~= Seq::empty());
    assert(fresh_description(sets) =~= "rdf:Description"@ + " rdf:about=\"\""@ + xmp::declarations(
        xmp::prefixes(sets),
    ));
    assert(xmp::attribute_properties(xml::as_attributes(list)) =~= Seq::empty());
}

proof fn lemma_about_text()
    ensures
        xml::attributes_text(seq![("rdf:about"@, Seq::<char>::empty())]) == " rdf:about=\"\""@,
{
    let list = seq![("rdf:about"@, Seq::<char>::empty())];
    assert(list.drop_last() =~= Seq::empty());
    assert(xml::attributes_text(Seq::empty()) =~= Seq::empty());
    reveal_strlit(" ");
    reveal_strlit("=\"");
    reveal_strlit("\"");
    reveal_strlit("rdf:about");
    reveal_strlit(" rdf:about=\"\"");
    assert(xml::attributes_text(list) =~= " rdf:about=\"\""@);
}

/// The instruction that a packet begins with.
pub open spec fn packet_begin() -> Seq<char> {
    "<?xpacket begin=\"\u{feff}\" id=\"W5M0MpCehiHzreSzNTczkc9d\"?>"@
}

/// The instruction that a packet ends with.
pub open spec fn packet_end() -> Seq<char> {
    "<?xpacket end=\"w\"?>"@
}

/// The start tag of the outermost element of a packet.
pub open spec fn meta_content() -> Seq<char> {
    xml::tag_content("x:xmpmeta"@, seq![("xmlns:x"@, "adobe:ns:meta/"@)])
}

/// The start tag of the RDF inside a packet.
pub open spec fn rdf_content() -> Seq<char> {
    xml::tag_content("rdf:RDF"@, seq![("xmlns:rdf"@, xmp::rdf_ns())])
}

/// The pieces inside the description of a fresh packet.
pub open spec fn fresh_inside(sets: Seq<(Seq<char>, ValueView)>) -> Seq<PieceView> {
    fragments_pieces(sets) + seq![PieceView::Chars("\n  "@)]
}

/// The pieces of a fresh packet.
pub open spec fn fresh_pieces(edit: EditView) -> Seq<PieceView> {
    let description = pieces::element_of(fresh_description(edit.sets), fresh_inside(edit.sets));
    let rdf = pieces::element_of(
        rdf_content(),
        seq![PieceView::Chars("\n  "@)] + description + seq![PieceView::Chars("\n "@)],
    );
    let meta = pieces::element_of(
        meta_content(),
        seq![PieceView::Chars("\n "@)] + rdf + seq![PieceView::Chars("\n"@)],
    );
    seq![PieceView::Misc(packet_begin()), PieceView::Chars("\n"@)] + meta + seq![
        PieceView::Chars("\n"@),
        PieceView::Misc(packet_end()),
    ]
}

proof fn lemma_meta_content()
    ensures
        xml::piece_ok(PieceView::Open(meta_content())),
        xml::piece_ok(PieceView::Close("x:xmpmeta"@)),
        xml::name_in(meta_content()) == "x:xmpmeta"@,
        "\n"@ + "<"@ + meta_content() + ">"@ == "\n<x:xmpmeta xmlns:x=\"adobe:ns:meta/\">"@,
        "\n"@ + "</"@ + "x:xmpmeta"@ + ">"@ == "\n</x:xmpmeta>"@,
{
    reveal_strlit("x:xmpmeta");
    reveal_strlit("xmlns:x");
    reveal_strlit("adobe:ns:meta/");
    lemma_single_attribute("x:xmpmeta"@, "xmlns:x"@, "adobe:ns:meta/"@);
    reveal_strlit("\n");
    reveal_strlit("<");
    reveal_strlit("</");
    reveal_strlit(">");
    reveal_strlit(" ");
    reveal_strlit("=\"");
    reveal_strlit("\"");
    reveal_strlit("\n<x:xmpmeta xmlns:x=\"adobe:ns:meta/\">");
    reveal_strlit("\n</x:xmpmeta>");
    assert("\n"@ + "<"@ + meta_content() + ">"@ =~= "\n<x:xmpmeta xmlns:x=\"adobe:ns:meta/\">"@);
    assert("\n"@ + "</"@ + "x:xmpmeta"@ + ">"@ =~= "\n</x:xmpmeta>"@);
}

proof fn lemma_rdf_content()
    ensures
        xml::piece_ok(PieceView::Open(rdf_content())),
        xml::piece_ok(PieceView::Close("rdf:RDF"@)),
        xml::name_in(rdf_content()) == "rdf:RDF"@,
        "\n "@ + "<"@ + rdf_content() + ">"@
            == "\n <rdf:RDF xmlns:rdf=\"http://www.w3.org/1999/02/22-rdf-syntax-ns#\">"@,
        "\n "@ + "</"@ + "rdf:RDF"@ + ">"@ == "\n </rdf:RDF>"@,
{
    reveal_strlit("rdf:RDF");
    reveal_strlit("xmlns:rdf");
    lemma_known_namespaces();
    lemma_single_attribute("rdf:RDF"@, "xmlns:rdf"@, xmp::rdf_ns());
    reveal_strlit("\n ");
    reveal_strlit("<");
    reveal_strlit("</");
    reveal_strlit(">");
    reveal_strlit(" ");
    reveal_strlit("=\"");
    reveal_strlit("\"");
    reveal_strlit("http://www.w3.org/1999/02/22-rdf-syntax-ns#");
    reveal_strlit("\n <rdf:RDF xmlns:rdf=\"http://www.w3.org/1999/02/22-rdf-syntax-ns#\">");
    reveal_strlit("\n </rdf:RDF>");
    assert("\n "@ + "<"@ + rdf_content() + ">"@
        =~= "\n <rdf:RDF xmlns:rdf=\"http://www.w3.org/1999/02/22-rdf-syntax-ns#\">"@);
    assert("\n "@ + "</"@ + "rdf:RDF"@ + ">"@ =~= "\n </rdf:RDF>"@);
}

proof fn lemma_description_tags()
    ensures
        xml::piece_ok(PieceView::Close("rdf:Description"@)),
        "\n  "@ + "<"@ + "rdf:Description"@ + " rdf:about=\"\""@ == "\n  <rdf:Description rdf:about=\"\""@,
        "\n  "@ + "</"@ + "rdf:Description"@ + ">"@ == "\n  </rdf:Description>"@,
{
    lemma_about();
    pieces::lemma_word_tags("rdf:Description"@);
    reveal_strlit("\n  ");
    reveal_strlit("<");
    reveal_strlit("</");
    reveal_strlit(">");
    reveal_strlit("rdf:Description");
    reveal_strlit(" rdf:about=\"\"");
    reveal_strlit("\n  <rdf:Description rdf:about=\"\"");
    reveal_strlit("\n  </rdf:Description>");
    assert("\n  "@ + "<"@ + "rdf:Description"@ + " rdf:about=\"\""@ =~= "\n  <rdf:Description rdf:about=\"\""@);
    assert("\n  "@ + "</"@ + "rdf:Description"@ + ">"@ =~= "\n  </rdf:Description>"@);
}

proof fn lemma_packet_frame()
    ensures
        xml::piece_ok(PieceView::Misc(packet_begin())),
        xml::piece_ok(PieceView::Misc(packet_end())),
        "\n"@ + packet_end() == "\n<?xpacket end=\"w\"?>"@,
        packet_begin()[0] == '<',
        packet_begin().len() > 0,
{
    reveal_strlit("<?xpacket begin=\"\u{feff}\" id=\"W5M0MpCehiHzreSzNTczkc9d\"?>");
    reveal_strlit("<?xpacket end=\"w\"?>");
    reveal_strlit("\n<?xpacket end=\"w\"?>");
    reveal_strlit("\n");
    assert("\n"@ + packet_end() =~= "\n<?xpacket end=\"w\"?>"@);
    reveal(xml::is_markup);
}

/// Pieces with a text before and behind them, inside an element.
proof fn lemma_wrapped(content: Seq<char>, before: Seq<char>, inner: Seq<PieceView>, after: Seq<char>)
    requires
        xml::piece_ok(PieceView::Open(content)),
        xml::piece_ok(PieceView::Close(xml::name_in(content))),
        xml::piece_ok(PieceView::Chars(before)),
        xml::piece_ok(PieceView::Chars(after)),
        xml::well_formed(inner),
        inner.len() > 0,
        !(inner[0] is Chars),
        !(inner.last() is Chars),
    ensures
        ({
            let v = pieces::element_of(
                content,
                seq![PieceView::Chars(before)] + inner + seq![PieceView::Chars(after)],
            );
            &&& xml::well_formed(v)
            &&& xml::pieces_text(v) == "<"@ + content + ">"@ + before + xml::pieces_text(inner) + after + "</"@
                + xml::name_in(content) + ">"@
        }),
{
    let (a, b) = (seq![PieceView::Chars(before)], seq![PieceView::Chars(after)]);
    pieces::lemma_one_formed(a[0]);
    pieces::lemma_one_formed(b[0]);
    pieces::lemma_one_text(a[0]);
    pieces::lemma_one_text(b[0]);
    pieces::lemma_parts_formed(a, inner);
    pieces::lemma_text_parts(a, inner);
    pieces::lemma_parts_formed(a + inner, b);
    pieces::lemma_text_parts(a + inner, b);
    pieces::lemma_element_formed(content, a + inner + b);
    pieces::lemma_element_text(content, a + inner + b);
    assert(xml::pieces_text(pieces::element_of(content, a + inner + b)) =~= "<"@ + content + ">"@ + before
        + xml::pieces_text(inner) + after + "</"@ + xml::name_in(content) + ">"@);
}

proof fn lemma_fresh_inside(sets: Seq<(Seq<char>, ValueView)>)
    requires
        names_fit(sets),
    ensures
        xml::well_formed(fresh_inside(sets)),
        xml::pieces_text(fresh_inside(sets)) == xmp::fragments(sets) + "\n  "@,
        pieces::properties_in(fresh_inside(sets), 0, true, 0) == shown_sets(sets),
        pieces::without_descriptions(fresh_inside(sets)),
{
    let end = seq![PieceView::Chars("\n  "@)];
    lemma_fragments(sets);
    lemma_line_break();
    pieces::lemma_one_formed(end[0]);
    pieces::lemma_one_text(end[0]);
    pieces::lemma_child_text(end[0]);
    pieces::lemma_parts_formed(fragments_pieces(sets), end);
    pieces::lemma_text_parts(fragments_pieces(sets), end);
    pieces::lemma_children_parts(fragments_pieces(sets), end);
    assert(shown_sets(sets) + Seq::<(Seq<char>, Seq<char>)>::empty() =~= shown_sets(sets));
}

proof fn lemma_grouped(
    n: Seq<char>,
    c: Seq<char>,
    before: Seq<char>,
    t: Seq<char>,
    after: Seq<char>,
    name: Seq<char>,
)
    ensures
        n + ("<"@ + c + ">"@ + before + t + after + "</"@ + name + ">"@) == (n + "<"@ + c + ">"@) + (before + t) + (
        after + "</"@ + name + ">"@),
{
    assert(n + ("<"@ + c + ">"@ + before + t + after + "</"@ + name + ">"@) =~= (n + "<"@ + c + ">"@) + (before
        + t) + (after + "</"@ + name + ">"@));
}

#[verifier::spinoff_prover]
proof fn lemma_fresh_element(sets: Seq<(Seq<char>, ValueView)>)
    requires
        names_fit(sets),
    ensures
        ({
            let v = pieces::element_of(fresh_description(sets), fresh_inside(sets));
            &&& xml::well_formed(v)
            &&& "\n  "@ + xml::pieces_text(v) == "\n  <rdf:Description rdf:about=\"\""@ + xmp::declarations(
                xmp::prefixes(sets),
            ) + ">"@ + xmp::fragments(sets) + "\n  </rdf:Description>"@
        }),
{
    let c = fresh_description(sets);
    let inside = fresh_inside(sets);
    lemma_fresh_inside(sets);
    lemma_fresh_description(sets);
    lemma_description_tags();
    pieces::lemma_element_formed(c, inside);
    pieces::lemma_element_text(c, inside);
    lemma_element_lines(
        "\n  "@,
        "rdf:Description"@,
        " rdf:about=\"\""@,
        xmp::declarations(xmp::prefixes(sets)),
        xmp::fragments(sets),
    );
}

proof fn lemma_element_lines(n: Seq<char>, name: Seq<char>, about: Seq<char>, d: Seq<char>, f: Seq<char>)
    ensures
        n + ("<"@ + (name + about + d) + ">"@ + (f + n) + "</"@ + name + ">"@) == (n + "<"@ + name + about) + d
            + ">"@ + f + (n + "</"@ + name + ">"@),
{
    assert(n + ("<"@ + (name + about + d) + ">"@ + (f + n) + "</"@ + name + ">"@) =~= (n + "<"@ + name + about) + d
        + ">"@ + f + (n + "</"@ + name + ">"@));
}

#[verifier::spinoff_prover]
proof fn lemma_fresh_formed(edit: EditView)
    requires
        names_fit(edit.sets),
    ensures
        xml::well_formed(fresh_pieces(edit)),
        xml::pieces_text(fresh_pieces(edit)) == xmp::fresh_packet(edit),
{
    let description = pieces::element_of(fresh_description(edit.sets), fresh_inside(edit.sets));
    lemma_fresh_element(edit.sets);
    lemma_line_break();
    lemma_rdf_content();
    lemma_wrapped(rdf_content(), "\n  "@, description, "\n "@);
    let rdf = pieces::element_of(
        rdf_content(),
        seq![PieceView::Chars("\n  "@)] + description + seq![PieceView::Chars("\n "@)],
    );
    lemma_grouped("\n "@, rdf_content(), "\n  "@, xml::pieces_text(description), "\n "@, "rdf:RDF"@);
    lemma_meta_content();
    lemma_wrapped(meta_content(), "\n "@, rdf, "\n"@);
    let meta = pieces::element_of(
        meta_content(),
        seq![PieceView::Chars("\n "@)] + rdf + seq![PieceView::Chars("\n"@)],
    );
    lemma_grouped("\n"@, meta_content(), "\n "@, xml::pieces_text(rdf), "\n"@, "x:xmpmeta"@);
    lemma_fresh_frame(meta);
    lemma_packet_frame();
    let (p, q) = (xmp::declarations(xmp::prefixes(edit.sets)), xmp::fragments(edit.sets));
    lemma_lines(
        packet_begin(),
        "\n<x:xmpmeta xmlns:x=\"adobe:ns:meta/\">"@,
        "\n <rdf:RDF xmlns:rdf=\"http://www.w3.org/1999/02/22-rdf-syntax-ns#\">"@,
        "\n  <rdf:Description rdf:about=\"\""@,
        p,
        q,
        "\n  </rdf:Description>"@,
        "\n </rdf:RDF>"@,
        "\n</x:xmpmeta>"@,
        "\n<?xpacket end=\"w\"?>"@,
    );
    lemma_outer_lines(packet_begin(), "\n"@, xml::pieces_text(meta), packet_end());
}

proof fn lemma_outer_lines(a: Seq<char>, n: Seq<char>, m: Seq<char>, e: Seq<char>)
    ensures
        a + n + m + n + e == a + (n + m) + (n + e),
{
    assert(a + n + m + n + e =~= a + (n + m) + (n + e));
}

proof fn lemma_lines(
    a: Seq<char>,
    b: Seq<char>,
    c: Seq<char>,
    d: Seq<char>,
    p: Seq<char>,
    q: Seq<char>,
    x: Seq<char>,
    y: Seq<char>,
    z: Seq<char>,
    w: Seq<char>,
)
    ensures
        a + (b + (c + (d + p + ">"@ + q + x) + y) + z) + w == a + b + c + d + p + ">"@ + q + x + y + z + w,
{
    assert(a + (b + (c + (d + p + ">"@ + q + x) + y) + z) + w =~= a + b + c + d + p + ">"@ + q + x + y + z + w);
}

#[verifier::spinoff_prover]
proof fn lemma_fresh_frame(meta: Seq<PieceView>)
    requires
        xml::well_formed(meta),
        meta.len() > 0,
        !(meta[0] is Chars),
        !(meta.last() is Chars),
    ensures
        ({
            let v = seq![PieceView::Misc(packet_begin()), PieceView::Chars("\n"@)] + meta + seq![
                PieceView::Chars("\n"@),
                PieceView::Misc(packet_end()),
            ];
            &&& xml::well_formed(v)
            &&& xml::pieces_text(v) == packet_begin() + "\n"@ + xml::pieces_text(meta) + "\n"@ + packet_end()
        }),
{
    let line = seq![PieceView::Chars("\n"@)];
    let (first, last) = (seq![PieceView::Misc(packet_begin())], seq![PieceView::Misc(packet_end())]);
    lemma_line_break();
    lemma_packet_frame();
    pieces::lemma_one_formed(line[0]);
    pieces::lemma_one_formed(first[0]);
    pieces::lemma_one_formed(last[0]);
    pieces::lemma_one_text(line[0]);
    pieces::lemma_one_text(first[0]);
    pieces::lemma_one_text(last[0]);
    let head = seq![PieceView::Misc(packet_begin()), PieceView::Chars("\n"@)];
    let tail = seq![PieceView::Chars("\n"@), PieceView::Misc(packet_end())];
    assert(head =~= first + line);
    assert(tail =~= line + last);
    pieces::lemma_parts_formed(first, line);
    pieces::lemma_text_parts(first, line);
    pieces::lemma_parts_formed(line, last);
    pieces::lemma_text_parts(line, last);
    pieces::lemma_parts_formed(head, meta);
    pieces::lemma_text_parts(head, meta);
    pieces::lemma_parts_formed(head + meta, tail);
    pieces::lemma_text_parts(head + meta, tail);
    assert(xml::pieces_text(head + meta + tail) =~= packet_begin() + "\n"@ + xml::pieces_text(meta) + "\n"@
        + packet_end());
}

/// A packet that is made anew from an edit reads back as exactly the properties that it sets, in
/// order, with what their values show. Their names are such as can stand in a tag. That a packet
/// of well-formed pieces is read as their `plain_properties` is promised by `xmp::read_properties`.
#[verifier::spinoff_prover]
pub proof fn fresh_packet_reads_back(edit: EditView)
    requires
        names_fit(edit.sets),
    ensures
        xml::well_formed(fresh_pieces(edit)),
        xml::without_mark(xmp::fresh_packet(edit)) == xml::pieces_text(fresh_pieces(edit)),
        pieces::plain_properties(fresh_pieces(edit)) == shown_sets(edit.sets),
{
    lemma_fresh_formed(edit);
    lemma_packet_frame();
    assert(xmp::fresh_packet(edit)[0] == packet_begin()[0]);
    let c = fresh_description(edit.sets);
    let inside = fresh_inside(edit.sets);
    lemma_fresh_inside(edit.sets);
    lemma_fresh_description(edit.sets);
    lemma_rdf_content();
    lemma_meta_content();
    let pre = seq![
        PieceView::Misc(packet_begin()),
        PieceView::Chars("\n"@),
        PieceView::Open(meta_content()),
        PieceView::Chars("\n "@),
        PieceView::Open(rdf_content()),
        PieceView::Chars("\n  "@),
    ];
    let post = seq![
        PieceView::Chars("\n "@),
        PieceView::Close("rdf:RDF"@),
        PieceView::Chars("\n"@),
        PieceView::Close("x:xmpmeta"@),
        PieceView::Chars("\n"@),
        PieceView::Misc(packet_end()),
    ];
    let v = pre + pieces::element_of(c, inside) + post;
    assert(v =~= fresh_pieces(edit));
    reveal_strlit("rdf:Description");
    reveal_strlit("x:xmpmeta");
    reveal_strlit("rdf:RDF");
    assert("x:xmpmeta"@.len() != "rdf:Description"@.len());
    assert("rdf:RDF"@.len() != "rdf:Description"@.len());
    lemma_described(pre, c, inside, post);
    let n = (pre.len() + inside.len() + 2) as int;
    assert forall|k: int| n <= k < v.len() implies !pieces::begins_description(#[trigger] v[k]) by {
        assert(v[k] == post[k - n]);
    }
    lemma_no_more(v, n);
    assert(Seq::<(Seq<char>, Seq<char>)>::empty() + shown_sets(edit.sets) + Seq::<(Seq<char>, Seq<char>)>::empty()
        =~= shown_sets(edit.sets));
}

} // verus!
