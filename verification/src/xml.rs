//! XML as a list of events. The parsing and the escaping are done by `quick_xml`; what is
//! built on the events is verified.

use quick_xml::events::attributes::Attributes;
use quick_xml::events::{BytesText, Event};
use quick_xml::reader::Reader;
use quick_xml::writer::Writer;
use vstd::prelude::*;
use vstd::string::*;
use vstd::utf8::{encode_utf8, is_char_boundary};
use crate::text;
use crate::text::utf8_lossy_text;

verus! {

/// An event of an XML document, as plain values.
#[derive(Debug)]
pub enum XmlEvent {
    /// A start tag: its name, everything between `<` and `>`, the tag as it is written out,
    /// and where the reader stands behind it.
    Start(String, String, String, usize),
    /// A tag that closes itself: its name, everything between `<` and `/>`, the tag as it is
    /// written out, and where the reader stands behind it.
    Empty(String, String, String, usize),
    /// An end tag: its name, the tag as it is written out, and where the reader stands.
    End(String, String, usize),
    /// Text: as it stands in the document, escaped, and where the reader stands behind it.
    Text(String, usize),
    /// Anything else that is copied through: as it is written out, and where the reader stands.
    Other(String, usize),
    /// The end of the document.
    Eof,
    /// The document cannot be read on: why.
    Failed(String),
}

/// What an event says.
pub enum EventView {
    Start(Seq<char>, Seq<char>, Seq<char>, int),
    Empty(Seq<char>, Seq<char>, Seq<char>, int),
    End(Seq<char>, Seq<char>, int),
    Text(Seq<char>, int),
    Other(Seq<char>, int),
    Eof,
    Failed(Seq<char>),
}

impl View for XmlEvent {
    type V = EventView;

    open spec fn view(&self) -> EventView {
        match *self {
            XmlEvent::Start(name, content, written, end) => EventView::Start(
                name@,
                content@,
                written@,
                end as int,
            ),
            XmlEvent::Empty(name, content, written, end) => EventView::Empty(
                name@,
                content@,
                written@,
                end as int,
            ),
            XmlEvent::End(name, written, end) => EventView::End(name@, written@, end as int),
            XmlEvent::Text(raw, end) => EventView::Text(raw@, end as int),
            XmlEvent::Other(written, end) => EventView::Other(written@, end as int),
            XmlEvent::Eof => EventView::Eof,
            XmlEvent::Failed(why) => EventView::Failed(why@),
        }
    }
}

/// Whether nothing is read behind this event.
pub open spec fn is_last(e: EventView) -> bool {
    e is Eof || e is Failed
}

/// Where the reader stands behind an event: a number of bytes from the start of the document,
/// a byte order mark in front not counted.
pub open spec fn position(e: EventView) -> int {
    match e {
        EventView::Start(_, _, _, end) => end,
        EventView::Empty(_, _, _, end) => end,
        EventView::End(_, _, end) => end,
        EventView::Text(_, end) => end,
        EventView::Other(_, end) => end,
        EventView::Eof => 0,
        EventView::Failed(_) => 0,
    }
}

/// A document without a byte order mark in front.
pub open spec fn without_mark(document: Seq<char>) -> Seq<char> {
    if document.len() > 0 && document[0] == '\u{feff}' {
        document.drop_first()
    } else {
        document
    }
}

/// Whether the reader stands between two characters behind each event but the last, and never
/// goes back. `document` is without a byte order mark.
pub open spec fn positions_ok(events: Seq<EventView>, document: Seq<char>) -> bool {
    let b = encode_utf8(document);
    &&& forall|i: int|
        0 <= i < events.len() - 1 ==> 0 <= position(#[trigger] events[i]) <= b.len() && is_char_boundary(
            b,
            position(events[i]),
        )
    &&& forall|i: int, j: int|
        0 <= i <= j < events.len() - 1 ==> position(#[trigger] events[i]) <= position(#[trigger] events[j])
}

// ---- the pieces of a document -----------------------------------------------------------

/// A piece of a document, as it is read.
#[derive(Debug)]
pub enum Piece {
    /// A start tag: everything between `<` and `>`.
    Open(String),
    /// A tag that closes itself: everything between `<` and `/>`.
    SelfClosed(String),
    /// An end tag: everything between `</` and `>`, without space behind it.
    Close(String),
    /// Text, as it stands in the document.
    Chars(String),
    /// Anything else, as it is written out.
    Misc(String),
    /// The end of the document.
    Done,
    /// The document cannot be read on: why.
    Broken(String),
}

/// What a piece says.
pub enum PieceView {
    Open(Seq<char>),
    SelfClosed(Seq<char>),
    Close(Seq<char>),
    Chars(Seq<char>),
    Misc(Seq<char>),
    Done,
    Broken(Seq<char>),
}

impl View for Piece {
    type V = PieceView;

    open spec fn view(&self) -> PieceView {
        match *self {
            Piece::Open(s) => PieceView::Open(s@),
            Piece::SelfClosed(s) => PieceView::SelfClosed(s@),
            Piece::Close(s) => PieceView::Close(s@),
            Piece::Chars(s) => PieceView::Chars(s@),
            Piece::Misc(s) => PieceView::Misc(s@),
            Piece::Done => PieceView::Done,
            Piece::Broken(s) => PieceView::Broken(s@),
        }
    }
}

/// Whether a character is space between the words of a tag.
pub open spec fn is_gap(c: char) -> bool {
    c == ' ' || c == '\t' || c == '\r' || c == '\n'
}

/// Where the word that reaches up to `i` ends.
pub open spec fn word_end(s: Seq<char>, i: int) -> int
    decreases s.len() - i,
{
    if i < 0 || i >= s.len() || is_gap(s[i]) {
        i
    } else {
        word_end(s, i + 1)
    }
}

/// The name of a tag with this content: its first word.
pub open spec fn name_in(content: Seq<char>) -> Seq<char> {
    content.take(word_end(content, 0))
}

/// The event that a piece is, with where the reader stands behind it.
pub open spec fn event_of(p: (PieceView, int)) -> EventView {
    match p.0 {
        PieceView::Open(c) => EventView::Start(name_in(c), c, "<"@ + c + ">"@, p.1),
        PieceView::SelfClosed(c) => EventView::Empty(name_in(c), c, "<"@ + c + "/>"@, p.1),
        PieceView::Close(n) => EventView::End(n, "</"@ + n + ">"@, p.1),
        PieceView::Chars(raw) => EventView::Text(raw, p.1),
        PieceView::Misc(written) => EventView::Other(written, p.1),
        PieceView::Done => EventView::Eof,
        PieceView::Broken(why) => EventView::Failed(why),
    }
}

/// The events that pieces are.
pub open spec fn events_of(v: Seq<(PieceView, int)>) -> Seq<EventView> {
    v.map_values(|p: (PieceView, int)| event_of(p))
}

// ---- well-formed pieces -----------------------------------------------------------------

/// A piece as it is written.
pub open spec fn piece_text(p: PieceView) -> Seq<char> {
    match p {
        PieceView::Open(c) => "<"@ + c + ">"@,
        PieceView::SelfClosed(c) => "<"@ + c + "/>"@,
        PieceView::Close(n) => "</"@ + n + ">"@,
        PieceView::Chars(raw) => raw,
        PieceView::Misc(written) => written,
        PieceView::Done => Seq::empty(),
        PieceView::Broken(_) => Seq::empty(),
    }
}

/// Pieces as they are written, one behind the other.
pub open spec fn pieces_text(v: Seq<PieceView>) -> Seq<char>
    decreases v.len(),
{
    if v.len() == 0 {
        Seq::empty()
    } else {
        pieces_text(v.drop_last()) + piece_text(v.last())
    }
}

/// The quote that is open behind the first `n` characters.
pub open spec fn open_quote(s: Seq<char>, n: int) -> Option<char>
    decreases n,
{
    if n <= 0 {
        None
    } else {
        match open_quote(s, n - 1) {
            Some(q) => if s[n - 1] == q {
                None
            } else {
                Some(q)
            },
            None => if s[n - 1] == '"' || s[n - 1] == '\'' {
                Some(s[n - 1])
            } else {
                None
            },
        }
    }
}

/// Whether the `>` behind this content is the first outside quotes.
pub open spec fn ends_tag(content: Seq<char>) -> bool {
    &&& open_quote(content, content.len() as int) is None
    &&& forall|i: int| 0 <= i < content.len() && #[trigger] content[i] == '>' ==> open_quote(content, i) is Some
}

/// Whether a tag with this content is one that opens an element.
pub open spec fn begins_tag(content: Seq<char>) -> bool {
    content.len() > 0 && content[0] != '!' && content[0] != '?' && content[0] != '/'
}

/// Whether a text is a processing instruction, up to the first `?>`.
pub open spec fn is_instruction(w: Seq<char>) -> bool {
    &&& w.len() >= 4
    &&& w[0] == '<' && w[1] == '?'
    &&& w[w.len() - 2] == '?' && w[w.len() - 1] == '>'
    &&& forall|i: int, j: int|
        2 <= j < w.len() - 1 && i == j - 1 && #[trigger] w[j] == '>' ==> #[trigger] w[i] != '?'
}

/// Whether a text is a comment, up to the first `-->`.
pub open spec fn is_comment(w: Seq<char>) -> bool {
    text::has_prefix(w, "<!--"@) && text::find_from(w, 4, "-->"@) == Some(w.len() - 3)
}

/// Whether a text is a section of plain characters, up to the first `]]>`.
pub open spec fn is_section(w: Seq<char>) -> bool {
    text::has_prefix(w, "<![CDATA["@) && text::find_from(w, 9, "]]>"@) == Some(w.len() - 3)
}

/// Whether a text is a document type, with nothing declared inside it.
pub open spec fn is_doctype(w: Seq<char>) -> bool {
    &&& text::has_prefix(w, "<!DOCTYPE "@)
    &&& w.len() > 11 && !is_gap(w[10]) && w.last() == '>'
    &&& forall|j: int| 10 <= j < w.len() - 1 ==> #[trigger] w[j] != '<' && w[j] != '>'
}

/// Whether a text is markup that is no tag.
#[verifier::opaque]
pub open spec fn is_markup(w: Seq<char>) -> bool {
    is_instruction(w) || is_comment(w) || is_section(w) || is_doctype(w)
}

/// Markup begins with `<`.
pub proof fn lemma_markup(w: Seq<char>)
    requires
        is_markup(w),
    ensures
        w.len() > 0,
        w[0] == '<',
{
    reveal(is_markup);
    reveal_strlit("<!--");
    reveal_strlit("<![CDATA[");
    reveal_strlit("<!DOCTYPE ");
    if is_comment(w) {
        assert(w.subrange(0, 4)[0] == w[0]);
    } else if is_section(w) {
        assert(w.subrange(0, 9)[0] == w[0]);
    } else if is_doctype(w) {
        assert(w.subrange(0, 10)[0] == w[0]);
    }
}

/// Whether a piece can stand in a document as it is.
pub open spec fn piece_ok(p: PieceView) -> bool {
    match p {
        PieceView::Open(c) => begins_tag(c) && ends_tag(c) && c.last() != '/',
        PieceView::SelfClosed(c) => begins_tag(c) && ends_tag(c),
        PieceView::Close(n) => n.len() > 0 && ends_tag(n) && !is_gap(n.last()),
        PieceView::Chars(raw) => raw.len() > 0 && !raw.contains('<'),
        PieceView::Misc(w) => is_markup(w),
        PieceView::Done => false,
        PieceView::Broken(_) => false,
    }
}

/// The names of the elements that are open behind the first `n` pieces, or `None` where one was
/// closed by another name.
pub open spec fn open_names(v: Seq<PieceView>, n: int) -> Option<Seq<Seq<char>>>
    decreases n,
{
    if n <= 0 {
        Some(Seq::empty())
    } else {
        match (open_names(v, n - 1), v[n - 1]) {
            (Some(st), PieceView::Open(c)) => Some(st.push(name_in(c))),
            (Some(st), PieceView::Close(name)) => if st.len() > 0 && st.last() == name {
                Some(st.drop_last())
            } else {
                None
            },
            (st, _) => st,
        }
    }
}

/// Whether pieces make a well-formed text: each can stand as it is, every element is closed by
/// its own name, and no text follows a text.
pub open spec fn well_formed(v: Seq<PieceView>) -> bool {
    &&& forall|i: int| 0 <= i < v.len() ==> piece_ok(#[trigger] v[i])
    &&& open_names(v, v.len() as int) == Some(Seq::<Seq<char>>::empty())
    &&& forall|i: int, j: int|
        0 <= i < v.len() && j == i + 1 && j < v.len() && (#[trigger] v[i]) is Chars ==> !((#[trigger] v[j]) is Chars)
}

/// Pieces with where the reader stands behind each, and the end behind them.
pub open spec fn placed(v: Seq<PieceView>) -> Seq<(PieceView, int)> {
    Seq::new(
        v.len(),
        |i: int| (v[i], encode_utf8(pieces_text(v.take(i + 1))).len() as int),
    ).push((PieceView::Done, encode_utf8(pieces_text(v)).len() as int))
}

/// Whether a document that is written from well-formed pieces is read as these pieces, a byte
/// order mark in front passed over.
pub open spec fn reads_plainly(document: Seq<char>) -> bool {
    forall|v: Seq<PieceView>|
        well_formed(v) && without_mark(document) == #[trigger] pieces_text(v) ==> document_pieces(document)
            == placed(v)
}

/// A reader over the bytes of a document.
#[verifier::external_type_specification]
#[verifier::external_body]
#[verifier::reject_recursive_types(R)]
pub struct ExReader<R>(Reader<R>);

/// The pieces that a reader has still to give, up to and with the first that is last, each with
/// where the reader stands behind it.
pub uninterp spec fn pending_pieces(r: Reader<&[u8]>) -> Seq<(PieceView, int)>;

/// The pieces of a document that is read from its start without checking the names of end tags.
pub uninterp spec fn document_pieces(document: Seq<char>) -> Seq<(PieceView, int)>;

/// The events of a document that is read from its start without checking the names of end tags.
pub open spec fn document_events(document: Seq<char>) -> Seq<EventView> {
    events_of(document_pieces(document))
}

/// `Reader::from_str`, with the check of end tag names switched off: the pieces to come depend
/// on the document alone, there is at least one, exactly the final one is last, and the
/// positions behind them lie between characters, in order. What was written from well-formed
/// pieces is read as these pieces, a byte order mark in front passed over.
#[verifier::external_body]
fn open_reader(document: &str) -> (r: Reader<&[u8]>)
    ensures
        pending_pieces(r) == document_pieces(document@),
        forall|v: Seq<PieceView>|
            well_formed(v) && without_mark(document@) == #[trigger] pieces_text(v) ==> pending_pieces(r) == placed(
                v,
            ),
        pending_pieces(r).len() > 0,
        forall|i: int|
            0 <= i < pending_pieces(r).len() ==> (is_last(#[trigger] events_of(pending_pieces(r))[i]) <==> i
                == pending_pieces(r).len() - 1),
        positions_ok(events_of(pending_pieces(r)), without_mark(document@)),
{
    let mut reader = Reader::from_str(document);
    reader.config_mut().check_end_names = false;
    reader
}

/// `Reader::read_event` and `Reader::buffer_position`, put into plain values: gives the first of
/// the pieces to come and goes on to the next. What is neither a tag nor text is given as
/// `Writer::write_event` writes it.
#[verifier::external_body]
fn next_piece(reader: &mut Reader<&[u8]>) -> (p: (Piece, usize))
    requires
        pending_pieces(*old(reader)).len() > 0,
    ensures
        (p.0@, p.1 as int) == pending_pieces(*old(reader))[0],
        pending_pieces(*final(reader)) == pending_pieces(*old(reader)).drop_first(),
{
    let mut writer = Writer::new(Vec::new());
    let piece = match reader.read_event() {
        Ok(Event::Start(e)) => Piece::Open(utf8_lossy_text(&e)),
        Ok(Event::Empty(e)) => Piece::SelfClosed(utf8_lossy_text(&e)),
        Ok(Event::End(e)) => Piece::Close(utf8_lossy_text(&e)),
        Ok(Event::Text(e)) => Piece::Chars(utf8_lossy_text(&e)),
        Ok(Event::Eof) => Piece::Done,
        Ok(e) => {
            let _ = writer.write_event(e);
            Piece::Misc(utf8_lossy_text(&writer.into_inner()))
        },
        Err(e) => Piece::Broken(e.to_string()),
    };
    (piece, reader.buffer_position() as usize)
}

/// Finds where the name of a tag with this content ends.
fn find_name(content: &str) -> (name: String)
    ensures
        name@ == name_in(content@),
{
    let cs: Vec<char> = text::chars_of(content);
    let mut i: usize = 0;
    while i < cs.len() && !(cs[i] == ' ' || cs[i] == '\t' || cs[i] == '\r' || cs[i] == '\n')
        invariant
            i <= cs.len(),
            word_end(cs@, 0) == word_end(cs@, i as int),
        decreases cs.len() - i,
    {
        i += 1;
    }
    assert(cs@.subrange(0, i as int) =~= cs@.take(i as int));
    text::text_of(&cs[0..i])
}

/// Turns a piece into an event.
fn make_event(piece: Piece, end: usize) -> (e: XmlEvent)
    ensures
        e@ == event_of((piece@, end as int)),
{
    match piece {
        Piece::Open(c) => {
            let name: String = find_name(c.as_str());
            let written: String = text::copy_text("<").concat(c.as_str()).concat(">");
            XmlEvent::Start(name, c, written, end)
        },
        Piece::SelfClosed(c) => {
            let name: String = find_name(c.as_str());
            let written: String = text::copy_text("<").concat(c.as_str()).concat("/>");
            XmlEvent::Empty(name, c, written, end)
        },
        Piece::Close(n) => {
            let written: String = text::copy_text("</").concat(n.as_str()).concat(">");
            XmlEvent::End(n, written, end)
        },
        Piece::Chars(raw) => XmlEvent::Text(raw, end),
        Piece::Misc(written) => XmlEvent::Other(written, end),
        Piece::Done => XmlEvent::Eof,
        Piece::Broken(why) => XmlEvent::Failed(why),
    }
}

/// The views of a list of events.
pub open spec fn events_view(v: Seq<XmlEvent>) -> Seq<EventView> {
    v.map_values(|e: XmlEvent| e@)
}

/// Reads a document to its end.
pub fn read_events(document: &str) -> (out: Vec<XmlEvent>)
    ensures
        events_view(out@) == document_events(document@),
        out@.len() > 0,
        forall|i: int| 0 <= i < out@.len() ==> (is_last((#[trigger] out@[i])@) <==> i == out@.len() - 1),
        positions_ok(events_view(out@), without_mark(document@)),
        reads_plainly(document@),
{
    let mut reader = open_reader(document);
    assert(reads_plainly(document@));
    let ghost pieces = document_pieces(document@);
    let ghost all = document_events(document@);
    let mut out: Vec<XmlEvent> = Vec::new();
    assert(events_view(out@) =~= all.take(0));
    assert(pieces.skip(0) =~= pieces);
    loop
        invariant
            reads_plainly(document@),
            pieces == document_pieces(document@),
            all == document_events(document@),
            all == events_of(pieces),
            positions_ok(all, without_mark(document@)),
            forall|i: int| 0 <= i < all.len() ==> (is_last(#[trigger] all[i]) <==> i == all.len() - 1),
            out@.len() < all.len(),
            events_view(out@) == all.take(out@.len() as int),
            pending_pieces(reader) == pieces.skip(out@.len() as int),
        decreases all.len() - out@.len(),
    {
        let ghost n = out@.len() as int;
        let (piece, end): (Piece, usize) = next_piece(&mut reader);
        let event: XmlEvent = make_event(piece, end);
        let last: bool = match &event {
            XmlEvent::Eof => true,
            XmlEvent::Failed(_) => true,
            _ => false,
        };
        out.push(event);
        proof {
            assert(pieces.skip(n)[0] == pieces[n]);
            assert(all[n] == event_of(pieces[n]));
            assert(pieces.skip(n).drop_first() =~= pieces.skip(n + 1));
            assert(events_view(out@) =~= all.take(n + 1));
            assert(is_last(all[n]) == last);
        }
        if last {
            assert(all.take(n + 1) =~= all);
            assert forall|i: int| 0 <= i < out@.len() implies (is_last((#[trigger] out@[i])@) <==> i == out@.len()
                - 1) by {
                assert(events_view(out@)[i] == out@[i]@);
            }
            return out;
        }
    }
}

/// An attribute of a tag, as plain values.
#[derive(Debug)]
pub enum XmlAttr {
    /// Its key and its value with references resolved, or why they cannot be.
    Pair(String, Result<String, String>),
    /// Something that is no attribute: why.
    Malformed(String),
}

/// What an attribute says.
pub enum AttrView {
    Pair(Seq<char>, Result<Seq<char>, Seq<char>>),
    Malformed(Seq<char>),
}

impl View for XmlAttr {
    type V = AttrView;

    open spec fn view(&self) -> AttrView {
        match *self {
            XmlAttr::Pair(key, Ok(value)) => AttrView::Pair(key@, Ok(value@)),
            XmlAttr::Pair(key, Err(why)) => AttrView::Pair(key@, Err(why@)),
            XmlAttr::Malformed(why) => AttrView::Malformed(why@),
        }
    }
}

/// Attributes as they are written.
pub open spec fn attributes_text(list: Seq<(Seq<char>, Seq<char>)>) -> Seq<char>
    decreases list.len(),
{
    if list.len() == 0 {
        Seq::empty()
    } else {
        attributes_text(list.drop_last()) + " "@ + list.last().0 + "=\""@ + escaped(list.last().1) + "\""@
    }
}

/// Whether a word can be the key of an attribute.
pub open spec fn key_ok(key: Seq<char>) -> bool {
    key.len() > 0 && forall|i: int| 0 <= i < key.len() ==> !is_gap(#[trigger] key[i]) && key[i] != '='
}

/// Whether attributes have keys that are words, no two the same.
pub open spec fn attributes_ok(list: Seq<(Seq<char>, Seq<char>)>) -> bool {
    &&& forall|i: int| 0 <= i < list.len() ==> key_ok((#[trigger] list[i]).0)
    &&& forall|i: int, j: int| 0 <= i < j < list.len() ==> (#[trigger] list[i]).0 != (#[trigger] list[j]).0
}

/// The content of a tag with this name and these attributes.
pub open spec fn tag_content(name: Seq<char>, list: Seq<(Seq<char>, Seq<char>)>) -> Seq<char> {
    name + attributes_text(list)
}

/// The `k`th of these attributes.
pub open spec fn nth_attribute(list: Seq<(Seq<char>, Seq<char>)>, k: int) -> Option<AttrView> {
    if 0 <= k < list.len() {
        Some(AttrView::Pair(list[k].0, Ok(list[k].1)))
    } else {
        None
    }
}

/// The `k`th attribute of a tag with this content, whose name takes `name_len` bytes.
pub uninterp spec fn tag_attribute(content: Seq<char>, name_len: int, k: int) -> Option<AttrView>;

/// `Attributes::new` and its `k`th item, the value through `Attribute::unescape_value`: depends
/// on the content, the length of the name and `k` alone, and gives back attributes as they were
/// written.
#[verifier::external_body]
fn attribute_at(content: &str, name_len: usize, k: usize) -> (r: Option<XmlAttr>)
    requires
        name_len <= content.spec_bytes().len(),
    ensures
        match r {
            Some(a) => tag_attribute(content@, name_len as int, k as int) == Some(a@),
            None => tag_attribute(content@, name_len as int, k as int) is None,
        },
        forall|name: Seq<char>, list: Seq<(Seq<char>, Seq<char>)>|
            attributes_ok(list) && content@ == #[trigger] tag_content(name, list) && name_len == encode_utf8(
                name,
            ).len() ==> match r {
                Some(a) => Some(a@) == nth_attribute(list, k as int),
                None => nth_attribute(list, k as int) is None,
            },
{
    let a = match Attributes::new(content, name_len).nth(k)? {
        Ok(a) => a,
        Err(e) => return Some(XmlAttr::Malformed(e.to_string())),
    };
    let value = match a.unescape_value() {
        Ok(v) => Ok(v.into_owned()),
        Err(e) => Err(e.to_string()),
    };
    Some(XmlAttr::Pair(String::from_utf8_lossy(a.key.as_ref()).into_owned(), value))
}

/// The attributes of a tag from the `k`th on. There are no more of them than bytes.
pub open spec fn attributes_from(content: Seq<char>, name_len: int, k: int) -> Seq<AttrView>
    decreases encode_utf8(content).len() - k,
{
    if k >= encode_utf8(content).len() {
        Seq::empty()
    } else {
        match tag_attribute(content, name_len, k) {
            Some(a) => seq![a] + attributes_from(content, name_len, k + 1),
            None => Seq::empty(),
        }
    }
}

/// The attributes of a tag by its name and content.
pub open spec fn attributes_of(name: Seq<char>, content: Seq<char>) -> Seq<AttrView> {
    let len = encode_utf8(name).len() as int;
    if len <= encode_utf8(content).len() {
        attributes_from(content, len, 0)
    } else {
        Seq::empty()
    }
}

/// The views of a list of attributes.
pub open spec fn attrs_view(v: Seq<XmlAttr>) -> Seq<AttrView> {
    v.map_values(|a: XmlAttr| a@)
}

/// These attributes, as they are read.
pub open spec fn as_attributes(list: Seq<(Seq<char>, Seq<char>)>) -> Seq<AttrView> {
    list.map_values(|p: (Seq<char>, Seq<char>)| AttrView::Pair(p.0, Ok(p.1)))
}

/// Whether attributes that were written behind a name are read as they were.
pub open spec fn attributes_known(name: Seq<char>, content: Seq<char>) -> bool {
    forall|list: Seq<(Seq<char>, Seq<char>)>|
        attributes_ok(list) && content == #[trigger] tag_content(name, list) ==> attributes_of(name, content)
            == as_attributes(list)
}

/// The bytes of two texts, one behind the other.
pub proof fn lemma_encoded_parts(a: Seq<char>, b: Seq<char>)
    ensures
        encode_utf8(a + b) == encode_utf8(a) + encode_utf8(b),
    decreases a.len(),
{
    if a.len() == 0 {
        assert(a + b =~= b);
        assert(encode_utf8(a) + encode_utf8(b) =~= encode_utf8(b));
    } else {
        assert((a + b).drop_first() =~= a.drop_first() + b);
        lemma_encoded_parts(a.drop_first(), b);
        assert(encode_utf8(a + b) =~= encode_utf8(a) + encode_utf8(b));
    }
}

/// A text has at least as many bytes as characters.
pub proof fn lemma_encoded_len(a: Seq<char>)
    ensures
        encode_utf8(a).len() >= a.len(),
    decreases a.len(),
{
    if a.len() > 0 {
        lemma_encoded_len(a.drop_first());
    }
}

proof fn lemma_attributes_len(list: Seq<(Seq<char>, Seq<char>)>)
    ensures
        attributes_text(list).len() >= 4 * list.len(),
    decreases list.len(),
{
    if list.len() > 0 {
        lemma_attributes_len(list.drop_last());
        reveal_strlit(" ");
        reveal_strlit("=\"");
        reveal_strlit("\"");
    }
}

/// Reads the attributes of a tag.
pub fn read_attributes(name: &str, content: &str) -> (out: Vec<XmlAttr>)
    ensures
        attrs_view(out@) == attributes_of(name@, content@),
        attributes_known(name@, content@),
{
    let mut out: Vec<XmlAttr> = Vec::new();
    let name_len: usize = name.as_bytes().len();
    let total: usize = content.as_bytes().len();
    if name_len > total {
        assert(attrs_view(out@) =~= Seq::<AttrView>::empty());
        proof {
            assert forall|list: Seq<(Seq<char>, Seq<char>)>|
                attributes_ok(list) && content@ == #[trigger] tag_content(name@, list) implies attributes_of(
                name@,
                content@,
            ) == as_attributes(list) by {
                lemma_encoded_parts(name@, attributes_text(list));
            }
        }
        return out;
    }
    let mut k: usize = 0;
    let ghost all = attributes_of(name@, content@);
    assert(attrs_view(out@) + attributes_from(content@, name_len as int, 0) =~= all);
    while k < total
        invariant
            k <= total,
            out@.len() == k,
            name_len <= total,
            name_len == encode_utf8(name@).len(),
            total == content.spec_bytes().len(),
            attrs_view(out@) + attributes_from(content@, name_len as int, k as int) == all,
            forall|list: Seq<(Seq<char>, Seq<char>)>, j: int|
                #![trigger tag_content(name@, list), out@[j]]
                attributes_ok(list) && content@ == tag_content(name@, list) && 0 <= j < k ==> nth_attribute(list, j)
                    == Some(out@[j]@),
        ensures
            attributes_from(content@, name_len as int, k as int) == Seq::<AttrView>::empty(),
            out@.len() == k,
            k < total ==> forall|list: Seq<(Seq<char>, Seq<char>)>|
                attributes_ok(list) && content@ == #[trigger] tag_content(name@, list) ==> nth_attribute(
                    list,
                    k as int,
                ) is None,
        decreases total - k,
    {
        let ghost before = attrs_view(out@);
        match attribute_at(content, name_len, k) {
            Some(a) => {
                let ghost one = a@;
                out.push(a);
                proof {
                    assert(attrs_view(out@) =~= before.push(one));
                    let rest = attributes_from(content@, name_len as int, k + 1);
                    assert(before.push(one) + rest =~= before + (seq![one] + rest));
                }
            },
            None => {
                break;
            },
        }
        k += 1;
    }
    assert(attrs_view(out@) + Seq::<AttrView>::empty() =~= attrs_view(out@));
    proof {
        assert forall|list: Seq<(Seq<char>, Seq<char>)>|
            attributes_ok(list) && content@ == #[trigger] tag_content(name@, list) implies all == as_attributes(
            list,
        ) by {
            lemma_encoded_parts(name@, attributes_text(list));
            lemma_encoded_len(attributes_text(list));
            lemma_attributes_len(list);
            assert(forall|j: int| 0 <= j < k ==> nth_attribute(list, j) == Some((#[trigger] out@[j])@));
            if k > list.len() {
                assert(nth_attribute(list, list.len() as int) == Some(out@[list.len() as int]@));
            }
            assert(k == list.len());
            assert(all =~= as_attributes(list));
        }
    }
    out
}

/// A text with its references resolved, the five predefined ones and those by number, or `None` if
/// it holds others.
pub uninterp spec fn resolved_text(raw: Seq<char>) -> Option<Seq<char>>;

/// A character as it is written in XML.
pub open spec fn escaped_char(c: char) -> Seq<char> {
    if c == '<' {
        "&lt;"@
    } else if c == '>' {
        "&gt;"@
    } else if c == '&' {
        "&amp;"@
    } else if c == '\'' {
        "&apos;"@
    } else if c == '"' {
        "&quot;"@
    } else {
        seq![c]
    }
}

/// A text as it is written in XML.
pub open spec fn escaped(s: Seq<char>) -> Seq<char>
    decreases s.len(),
{
    if s.len() == 0 {
        s
    } else {
        escaped(s.drop_last()) + escaped_char(s.last())
    }
}

/// Whether an escaped text is resolved to what was escaped.
pub open spec fn resolves(raw: Seq<char>) -> bool {
    forall|s: Seq<char>| raw == #[trigger] escaped(s) ==> resolved_text(raw) == Some(s)
}

/// `BytesText::unescape` of text as it stands in a document: depends on the text alone, and
/// gives back what was escaped.
#[verifier::external_body]
pub(crate) fn unescape_text(raw: &str) -> (r: Option<String>)
    ensures
        match r {
            Some(s) => resolved_text(raw@) == Some(s@),
            None => resolved_text(raw@) is None,
        },
        forall|s: Seq<char>| raw@ == #[trigger] escaped(s) ==> r is Some && (r->0)@ == s,
{
    match BytesText::from_escaped(raw).unescape() {
        Ok(s) => Some(s.into_owned()),
        Err(_) => None,
    }
}

/// `quick_xml::escape::escape`: the characters `<`, `>`, `&`, `'` and `"` as references.
#[verifier::external_body]
pub(crate) fn escape_text(s: &str) -> (r: String)
    ensures
        r@ == escaped(s@),
{
    quick_xml::escape::escape(s).into_owned()
}

} // verus!
