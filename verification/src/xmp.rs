//! XMP (RDF/XML metadata): editing a packet, reading its properties, and storing it in JPEG and
//! PNG files.
//!
//! An edit copies the packet event by event and replaces only the properties it names, so that
//! unknown properties and structure are kept.

use vstd::prelude::*;
use vstd::string::*;
use vstd::utf8::{decode_utf8, encode_utf8, valid_utf8};
use crate::bytes;
use crate::iptc;
use crate::jpeg;
use crate::pieces;
use crate::png;
use crate::text;
use crate::xml;
use crate::xml::{XmlAttr, XmlEvent};
use crate::xmpeffects;
use crate::xmplaws;

pub use crate::jpeg::{is_jpeg, jpeg_app_insert_pos};
pub use crate::png::{crc32, find_png_xmp, is_png, remove_png_xmp};

verus! {

/// The value of a property.
#[derive(Debug)]
pub enum XmpValue {
    /// Plain text, such as xmp:Rating.
    Simple(String),
    /// Text by language (rdf:Alt), such as dc:title.
    LangAlt(String),
    /// An ordered array (rdf:Seq), such as dc:creator.
    Ordered(Vec<String>),
    /// An unordered array (rdf:Bag), such as dc:subject.
    Bag(Vec<String>),
}

/// What a value says.
pub enum ValueView {
    Simple(Seq<char>),
    LangAlt(Seq<char>),
    Ordered(Seq<Seq<char>>),
    Bag(Seq<Seq<char>>),
}

impl View for XmpValue {
    type V = ValueView;

    open spec fn view(&self) -> ValueView {
        match *self {
            XmpValue::Simple(s) => ValueView::Simple(s@),
            XmpValue::LangAlt(s) => ValueView::LangAlt(s@),
            XmpValue::Ordered(v) => ValueView::Ordered(text::views(v@)),
            XmpValue::Bag(v) => ValueView::Bag(text::views(v@)),
        }
    }
}

/// A batch of edits.
#[derive(Debug)]
pub struct XmpEdit {
    /// Qualified names, such as `dc:title`, and values.
    pub sets: Vec<(String, XmpValue)>,
    /// Qualified names to take out.
    pub removes: Vec<String>,
}

/// What an edit says.
pub struct EditView {
    pub sets: Seq<(Seq<char>, ValueView)>,
    pub removes: Seq<Seq<char>>,
}

impl View for XmpEdit {
    type V = EditView;

    open spec fn view(&self) -> EditView {
        EditView {
            sets: self.sets@.map_values(|p: (String, XmpValue)| (p.0@, p.1@)),
            removes: text::views(self.removes@),
        }
    }
}

// ---- model of an edit -------------------------------------------------------------------

impl EditView {
    /// Whether the edit sets or removes this property.
    pub open spec fn manages(self, name: Seq<char>) -> bool {
        set_from(self.sets, 0, name) is Some || self.removes.contains(name)
    }

    /// What the edit writes for this property: the element, or nothing.
    pub open spec fn fragment_of(self, name: Seq<char>) -> Seq<char> {
        match set_from(self.sets, 0, name) {
            Some(i) => fragment(name, self.sets[i].1),
            None => Seq::empty(),
        }
    }
}

/// The first entry at or after `i` that sets this property.
pub open spec fn set_from(sets: Seq<(Seq<char>, ValueView)>, i: int, name: Seq<char>) -> Option<int>
    decreases sets.len() - i,
{
    if i < 0 || i >= sets.len() {
        None
    } else if sets[i].0 == name {
        Some(i)
    } else {
        set_from(sets, i + 1, name)
    }
}

/// An element with this name around `inner`.
pub open spec fn element(name: Seq<char>, inner: Seq<char>) -> Seq<char> {
    "<"@ + name + ">"@ + inner + "</"@ + name + ">"@
}

/// The items of an array, each an element of its own.
pub open spec fn list_items(items: Seq<Seq<char>>) -> Seq<char>
    decreases items.len(),
{
    if items.len() == 0 {
        Seq::empty()
    } else {
        list_items(items.drop_last()) + "<rdf:li>"@ + xml::escaped(items.last()) + "</rdf:li>"@
    }
}

/// What stands inside the element of a property with this value.
pub open spec fn value_text(value: ValueView) -> Seq<char> {
    match value {
        ValueView::Simple(s) => xml::escaped(s),
        ValueView::LangAlt(s) => "<rdf:Alt><rdf:li xml:lang=\"x-default\">"@ + xml::escaped(s)
            + "</rdf:li></rdf:Alt>"@,
        ValueView::Ordered(items) => "<rdf:Seq>"@ + list_items(items) + "</rdf:Seq>"@,
        ValueView::Bag(items) => "<rdf:Bag>"@ + list_items(items) + "</rdf:Bag>"@,
    }
}

/// The element of a property with this value.
pub open spec fn fragment(name: Seq<char>, value: ValueView) -> Seq<char> {
    element(name, value_text(value))
}

/// The part of a qualified name before the colon.
pub open spec fn prefix_of(name: Seq<char>) -> Seq<char> {
    match text::char_from(name, 0, ':') {
        Some(i) => name.take(i),
        None => name,
    }
}

/// `list` with `s` put in its place, unless it is there already.
pub open spec fn put_sorted(list: Seq<Seq<char>>, s: Seq<char>) -> Seq<Seq<char>>
    decreases list.len(),
{
    if list.len() == 0 || text::text_less(list.last(), s) {
        list.push(s)
    } else if list.last() == s {
        list
    } else {
        put_sorted(list.drop_last(), s).push(list.last())
    }
}

/// The namespace prefixes of the properties that are set, sorted, each once.
pub open spec fn prefixes(sets: Seq<(Seq<char>, ValueView)>) -> Seq<Seq<char>>
    decreases sets.len(),
{
    if sets.len() == 0 {
        Seq::empty()
    } else {
        put_sorted(prefixes(sets.drop_last()), prefix_of(sets.last().0))
    }
}

/// The namespace of RDF.
pub open spec fn rdf_ns() -> Seq<char> {
    "http://www.w3.org/1999/02/22-rdf-syntax-ns#"@
}

/// The namespace of a known prefix.
pub open spec fn namespace(prefix: Seq<char>) -> Option<Seq<char>> {
    if prefix == "rdf"@ {
        Some(rdf_ns())
    } else if prefix == "dc"@ {
        Some("http://purl.org/dc/elements/1.1/"@)
    } else if prefix == "xmp"@ {
        Some("http://ns.adobe.com/xap/1.0/"@)
    } else if prefix == "photoshop"@ {
        Some("http://ns.adobe.com/photoshop/1.0/"@)
    } else if prefix == "lr"@ {
        Some("http://ns.adobe.com/lightroom/1.0/"@)
    } else if prefix == "xmpRights"@ {
        Some("http://ns.adobe.com/xap/1.0/rights/"@)
    } else if prefix == "Iptc4xmpCore"@ {
        Some("http://iptc.org/std/Iptc4xmpCore/1.0/xmlns/"@)
    } else {
        None
    }
}

/// The declarations of the known prefixes other than `rdf`.
pub open spec fn declarations(list: Seq<Seq<char>>) -> Seq<char>
    decreases list.len(),
{
    if list.len() == 0 {
        Seq::empty()
    } else {
        let head = declarations(list.drop_last());
        match namespace(list.last()) {
            Some(uri) => if list.last() == "rdf"@ {
                head
            } else {
                head + " xmlns:"@ + list.last() + "=\""@ + uri + "\""@
            },
            None => head,
        }
    }
}

/// The elements of all properties that are set, each on a line of its own.
pub open spec fn fragments(sets: Seq<(Seq<char>, ValueView)>) -> Seq<char>
    decreases sets.len(),
{
    if sets.len() == 0 {
        Seq::empty()
    } else {
        fragments(sets.drop_last()) + "\n   "@ + fragment(sets.last().0, sets.last().1)
    }
}

/// A packet that holds exactly the properties that are set.
pub open spec fn fresh_packet(edit: EditView) -> Seq<char> {
    "<?xpacket begin=\"\u{feff}\" id=\"W5M0MpCehiHzreSzNTczkc9d\"?>"@
        + "\n<x:xmpmeta xmlns:x=\"adobe:ns:meta/\">"@
        + "\n <rdf:RDF xmlns:rdf=\"http://www.w3.org/1999/02/22-rdf-syntax-ns#\">"@
        + "\n  <rdf:Description rdf:about=\"\""@ + declarations(prefixes(edit.sets)) + ">"@ + fragments(edit.sets)
        + "\n  </rdf:Description>"@ + "\n </rdf:RDF>"@ + "\n</x:xmpmeta>"@ + "\n<?xpacket end=\"w\"?>"@
}

// ---- model of editing an existing packet ------------------------------------------------

/// Why a packet could not be edited or stored.
pub enum ErrorView {
    Parse(Seq<char>),
    Skip(Seq<char>),
    MissingEnd(Seq<char>),
    Attribute(Seq<char>),
    AttributeValue(Seq<char>),
    TooLarge(int),
    NoImageData,
    Unsupported,
}

/// An attribute as it is written.
pub open spec fn attribute_text(key: Seq<char>, value: Seq<char>) -> Seq<char> {
    " "@ + key + "=\""@ + xml::escaped(value) + "\""@
}

/// Whether an attribute declares a namespace.
pub open spec fn declares(key: Seq<char>) -> bool {
    text::has_prefix(key, "xmlns:"@) || key == "xmlns"@
}

/// `s` without any repetition of `prefix` in front.
pub open spec fn without_prefixes(s: Seq<char>, prefix: Seq<char>) -> Seq<char>
    decreases s.len(),
{
    if prefix.len() > 0 && text::has_prefix(s, prefix) {
        without_prefixes(s.skip(prefix.len() as int), prefix)
    } else {
        s
    }
}

/// The attributes that an edit keeps, as they are written: all but those of managed properties.
/// The first attribute that cannot be read is the error.
pub open spec fn kept_attributes(attrs: Seq<xml::AttrView>, edit: EditView) -> Result<Seq<char>, ErrorView>
    decreases attrs.len(),
{
    if attrs.len() == 0 {
        Ok(Seq::empty())
    } else {
        match kept_attributes(attrs.drop_last(), edit) {
            Err(e) => Err(e),
            Ok(head) => match attrs.last() {
                xml::AttrView::Malformed(why) => Err(ErrorView::Attribute(why)),
                xml::AttrView::Pair(_, Err(why)) => Err(ErrorView::AttributeValue(why)),
                xml::AttrView::Pair(key, Ok(value)) => if !declares(key) && key != "rdf:about"@
                    && edit.manages(key) {
                    Ok(head)
                } else {
                    Ok(head + attribute_text(key, value))
                },
            },
        }
    }
}

/// The prefixes that attributes declare.
pub open spec fn declared(attrs: Seq<xml::AttrView>) -> Seq<Seq<char>>
    decreases attrs.len(),
{
    if attrs.len() == 0 {
        Seq::empty()
    } else {
        match attrs.last() {
            xml::AttrView::Pair(key, Ok(_)) => if declares(key) {
                declared(attrs.drop_last()).push(without_prefixes(key, "xmlns:"@))
            } else {
                declared(attrs.drop_last())
            },
            _ => declared(attrs.drop_last()),
        }
    }
}

/// The declarations of the known prefixes that are not declared yet.
pub open spec fn missing_declarations(list: Seq<Seq<char>>, present: Seq<Seq<char>>) -> Seq<char>
    decreases list.len(),
{
    if list.len() == 0 {
        Seq::empty()
    } else {
        let head = missing_declarations(list.drop_last(), present);
        match namespace(list.last()) {
            Some(uri) => if present.contains(list.last()) {
                head
            } else {
                head + attribute_text("xmlns:"@ + list.last(), uri)
            },
            None => head,
        }
    }
}

/// The start tag of the description after an edit: its attributes without those of managed
/// properties, and the declarations that the edit needs.
pub open spec fn description_start(name: Seq<char>, content: Seq<char>, edit: EditView) -> Result<
    Seq<char>,
    ErrorView,
> {
    let attrs = xml::attributes_of(name, content);
    match kept_attributes(attrs, edit) {
        Err(e) => Err(e),
        Ok(kept) => Ok(
            "<rdf:Description"@ + kept + missing_declarations(prefixes(edit.sets), declared(attrs)) + ">"@,
        ),
    }
}

/// The event behind the end tag that closes an element of this name, reading from `i` inside
/// it; elements of the same name may nest.
pub open spec fn end_of_element(events: Seq<xml::EventView>, i: int, name: Seq<char>, depth: int) -> Result<
    int,
    ErrorView,
>
    decreases events.len() - i,
{
    if i < 0 || i >= events.len() {
        Err(ErrorView::MissingEnd(name))
    } else {
        match events[i] {
            xml::EventView::Failed(why) => Err(ErrorView::Skip(why)),
            xml::EventView::Eof => Err(ErrorView::MissingEnd(name)),
            xml::EventView::Start(n, _, _, _) => end_of_element(
                events,
                i + 1,
                name,
                if n == name {
                    depth + 1
                } else {
                    depth
                },
            ),
            xml::EventView::End(n, _, _) => if n == name && depth == 0 {
                Ok(i + 1)
            } else {
                end_of_element(
                    events,
                    i + 1,
                    name,
                    if n == name {
                        depth - 1
                    } else {
                        depth
                    },
                )
            },
            _ => end_of_element(events, i + 1, name, depth),
        }
    }
}

/// The end of an element lies behind its start and inside the events.
pub proof fn lemma_end_of_element(events: Seq<xml::EventView>, i: int, name: Seq<char>, depth: int)
    ensures
        match end_of_element(events, i, name, depth) {
            Ok(next) => i < next <= events.len(),
            Err(_) => true,
        },
    decreases events.len() - i,
{
    if 0 <= i < events.len() {
        match events[i] {
            xml::EventView::Start(n, _, _, _) => {
                lemma_end_of_element(
                    events,
                    i + 1,
                    name,
                    if n == name {
                        depth + 1
                    } else {
                        depth
                    },
                );
            },
            xml::EventView::End(n, _, _) => {
                lemma_end_of_element(
                    events,
                    i + 1,
                    name,
                    if n == name {
                        depth - 1
                    } else {
                        depth
                    },
                );
            },
            _ => {
                lemma_end_of_element(events, i + 1, name, depth);
            },
        }
    }
}

/// How far an edit has come.
#[verifier::ext_equal]
pub struct Progress {
    /// No description was met yet.
    pub pending: bool,
    /// Inside the description.
    pub inside: bool,
    /// How deep inside a property.
    pub depth: int,
    /// The properties that were met.
    pub done: Seq<Seq<char>>,
    /// What was written.
    pub out: Seq<char>,
}

/// `done` with `name`, once.
pub open spec fn remembered(done: Seq<Seq<char>>, name: Seq<char>) -> Seq<Seq<char>> {
    if done.contains(name) {
        done
    } else {
        done.push(name)
    }
}

/// What a self-closed description is filled with: the elements of all properties that are set.
pub open spec fn filled(sets: Seq<(Seq<char>, ValueView)>, edit: EditView) -> Seq<char>
    decreases sets.len(),
{
    if sets.len() == 0 {
        Seq::empty()
    } else {
        filled(sets.drop_last(), edit) + edit.fragment_of(sets.last().0)
    }
}

/// `done` with all properties that are set.
pub open spec fn all_done(sets: Seq<(Seq<char>, ValueView)>, done: Seq<Seq<char>>) -> Seq<Seq<char>>
    decreases sets.len(),
{
    if sets.len() == 0 {
        done
    } else {
        remembered(all_done(sets.drop_last(), done), sets.last().0)
    }
}

/// What is added before a description closes: the elements of the properties that were set and
/// not met, each on a line of its own.
pub open spec fn completed(
    sets: Seq<(Seq<char>, ValueView)>,
    edit: EditView,
    done: Seq<Seq<char>>,
) -> Seq<char>
    decreases sets.len(),
{
    if sets.len() == 0 {
        Seq::empty()
    } else if done.contains(sets.last().0) {
        completed(sets.drop_last(), edit, done)
    } else {
        completed(sets.drop_last(), edit, done) + "\n   "@ + edit.fragment_of(sets.last().0)
    }
}

/// What an edit makes of the events from `i` on.
pub open spec fn edited_from(events: Seq<xml::EventView>, i: int, p: Progress, edit: EditView) -> Result<
    Seq<char>,
    ErrorView,
>
    decreases events.len() - i,
{
    if i < 0 || i >= events.len() {
        Ok(p.out)
    } else {
        match events[i] {
            xml::EventView::Start(name, content, written, _) => if p.pending && name
                == "rdf:Description"@ {
                match description_start(name, content, edit) {
                    Err(e) => Err(e),
                    Ok(tag) => edited_from(
                        events,
                        i + 1,
                        Progress { pending: false, inside: true, depth: 0, out: p.out + tag, ..p },
                        edit,
                    ),
                }
            } else if p.inside && p.depth == 0 && edit.manages(name) {
                proof {
                    lemma_end_of_element(events, i + 1, name, 0);
                }
                match end_of_element(events, i + 1, name, 0) {
                    Err(e) => Err(e),
                    Ok(next) => edited_from(
                        events,
                        next,
                        Progress {
                            done: remembered(p.done, name),
                            out: p.out + edit.fragment_of(name),
                            ..p
                        },
                        edit,
                    ),
                }
            } else {
                edited_from(
                    events,
                    i + 1,
                    Progress {
                        depth: if p.inside {
                            p.depth + 1
                        } else {
                            p.depth
                        },
                        out: p.out + written,
                        ..p
                    },
                    edit,
                )
            },
            xml::EventView::Empty(name, content, written, _) => if p.pending && name
                == "rdf:Description"@ {
                match description_start(name, content, edit) {
                    Err(e) => Err(e),
                    Ok(tag) => edited_from(
                        events,
                        i + 1,
                        Progress {
                            pending: false,
                            done: all_done(edit.sets, p.done),
                            out: p.out + tag + filled(edit.sets, edit) + "</rdf:Description>"@,
                            ..p
                        },
                        edit,
                    ),
                }
            } else if p.inside && p.depth == 0 && edit.manages(name) {
                edited_from(
                    events,
                    i + 1,
                    Progress {
                        done: remembered(p.done, name),
                        out: p.out + edit.fragment_of(name),
                        ..p
                    },
                    edit,
                )
            } else {
                edited_from(events, i + 1, Progress { out: p.out + written, ..p }, edit)
            },
            xml::EventView::End(name, written, _) => if p.inside && p.depth == 0 && name
                == "rdf:Description"@ {
                edited_from(
                    events,
                    i + 1,
                    Progress {
                        inside: false,
                        out: p.out + completed(edit.sets, edit, p.done) + written,
                        ..p
                    },
                    edit,
                )
            } else {
                edited_from(
                    events,
                    i + 1,
                    Progress {
                        depth: if p.inside {
                            p.depth - 1
                        } else {
                            p.depth
                        },
                        out: p.out + written,
                        ..p
                    },
                    edit,
                )
            },
            xml::EventView::Text(raw, _) => edited_from(
                events,
                i + 1,
                Progress { out: p.out + raw, ..p },
                edit,
            ),
            xml::EventView::Other(written, _) => edited_from(
                events,
                i + 1,
                Progress { out: p.out + written, ..p },
                edit,
            ),
            xml::EventView::Eof => Ok(p.out),
            xml::EventView::Failed(why) => Err(ErrorView::Parse(why)),
        }
    }
}

/// Whether the attributes of the first description from `i` on are read as they were written.
pub open spec fn description_known(events: Seq<xml::EventView>, i: int) -> bool
    decreases events.len() - i,
{
    if i < 0 || i >= events.len() {
        true
    } else {
        match events[i] {
            xml::EventView::Start(name, content, _, _) => if name == "rdf:Description"@ {
                xml::attributes_known(name, content)
            } else {
                description_known(events, i + 1)
            },
            xml::EventView::Empty(name, content, _, _) => if name == "rdf:Description"@ {
                xml::attributes_known(name, content)
            } else {
                description_known(events, i + 1)
            },
            xml::EventView::Eof => true,
            xml::EventView::Failed(_) => true,
            _ => description_known(events, i + 1),
        }
    }
}

/// How an edit begins.
pub open spec fn at_start() -> Progress {
    Progress { pending: true, inside: false, depth: 0, done: Seq::empty(), out: Seq::empty() }
}

/// What an edit makes of a list of events.
pub open spec fn edited_events(events: Seq<xml::EventView>, edit: EditView) -> Result<Seq<char>, ErrorView> {
    edited_from(events, 0, at_start(), edit)
}

/// What an edit makes of the packet there is, if there is one with a description; a fresh
/// packet otherwise.
pub open spec fn applied(existing: Option<Seq<char>>, edit: EditView) -> Result<Seq<char>, ErrorView> {
    match existing {
        Some(packet) => if text::contains_text(packet, "rdf:Description"@) {
            edited_events(xml::document_events(packet), edit)
        } else {
            Ok(fresh_packet(edit))
        },
        None => Ok(fresh_packet(edit)),
    }
}

// ---- building ---------------------------------------------------------------------------

impl Default for XmpEdit {
    fn default() -> (e: Self)
        ensures
            e.sets@.len() == 0,
            e.removes@.len() == 0,
    {
        XmpEdit { sets: Vec::new(), removes: Vec::new() }
    }
}

impl XmpEdit {
    /// Whether the batch changes nothing.
    pub fn is_empty(&self) -> (r: bool)
        ensures
            r == (self@.sets.len() == 0 && self@.removes.len() == 0),
    {
        self.sets.len() == 0 && self.removes.len() == 0
    }

    /// The first entry that sets this property.
    fn find_set(&self, name: &str) -> (r: Option<usize>)
        ensures
            match r {
                Some(i) => set_from(self@.sets, 0, name@) == Some(i as int) && i < self.sets@.len()
                    && self.sets@[i as int].0@ == name@,
                None => set_from(self@.sets, 0, name@) is None,
            },
    {
        let mut i: usize = 0;
        while i < self.sets.len()
            invariant
                i <= self.sets.len(),
                set_from(self@.sets, 0, name@) == set_from(self@.sets, i as int, name@),
            decreases self.sets.len() - i,
        {
            assert(self@.sets[i as int].0 == self.sets@[i as int].0@);
            if text::same_text(self.sets[i].0.as_str(), name) {
                return Some(i);
            }
            i += 1;
        }
        None
    }

    /// Whether the edit sets or removes this property.
    pub fn is_managed(&self, name: &str) -> (r: bool)
        ensures
            r == self@.manages(name@),
    {
        self.find_set(name).is_some() || text::has_text(self.removes.as_slice(), name)
    }

    /// The element that the edit writes for this property, if it sets it.
    pub fn fragment_for(&self, name: &str) -> (r: Option<String>)
        ensures
            match r {
                Some(s) => set_from(self@.sets, 0, name@) is Some && s@ == self@.fragment_of(name@),
                None => set_from(self@.sets, 0, name@) is None,
            },
    {
        match self.find_set(name) {
            Some(i) => Some(build_fragment(name, &self.sets[i].1)),
            None => None,
        }
    }

    /// Appends what the edit writes for this property: its element, or nothing.
    fn push_fragment(&self, out: &mut String, name: &str)
        ensures
            final(out)@ == old(out)@ + self@.fragment_of(name@),
    {
        match self.fragment_for(name) {
            Some(s) => {
                out.append(s.as_str());
            },
            None => {
                assert(out@ + Seq::<char>::empty() =~= out@);
            },
        }
    }

    /// The namespace prefixes of the properties that are set, sorted, each once.
    pub fn used_prefixes(&self) -> (out: Vec<String>)
        ensures
            text::views(out@) == prefixes(self@.sets),
    {
        let mut out: Vec<String> = Vec::new();
        let mut i: usize = 0;
        assert(text::views(out@) =~= prefixes(self@.sets.take(0)));
        while i < self.sets.len()
            invariant
                i <= self.sets.len(),
                text::views(out@) == prefixes(self@.sets.take(i as int)),
            decreases self.sets.len() - i,
        {
            proof {
                let next = self@.sets.take(i + 1);
                assert(next.drop_last() =~= self@.sets.take(i as int));
                assert(next.last().0 == self.sets@[i as int].0@);
            }
            let cs: Vec<char> = text::chars_of(self.sets[i].0.as_str());
            let end: usize = match text::find_char(cs.as_slice(), 0, ':') {
                Some(colon) => colon,
                None => cs.len(),
            };
            let prefix: String = text::text_of(&cs[0..end]);
            assert(cs@.subrange(0, end as int) =~= prefix_of(cs@));
            insert_sorted(&mut out, prefix);
            i += 1;
        }
        assert(self@.sets.take(self@.sets.len() as int) =~= self@.sets);
        out
    }
}

/// Puts a text in its place in a sorted list, unless it is there already.
fn insert_sorted(list: &mut Vec<String>, s: String)
    ensures
        text::views(final(list)@) == put_sorted(text::views(old(list)@), s@),
{
    let ghost all = text::views(list@);
    let cs: Vec<char> = text::chars_of(s.as_str());
    let mut at: usize = list.len();
    assert(all.take(all.len() as int) =~= all);
    assert(all.skip(all.len() as int) =~= Seq::<Seq<char>>::empty());
    assert(put_sorted(all, s@) + Seq::<Seq<char>>::empty() =~= put_sorted(all, s@));
    while at > 0
        invariant
            at <= list.len(),
            cs@ == s@,
            list@ == old(list)@,
            all == text::views(list@),
            put_sorted(all, s@) == put_sorted(all.take(at as int), s@) + all.skip(at as int),
        ensures
            put_sorted(all, s@) == all.take(at as int).push(s@) + all.skip(at as int),
            at <= list.len(),
            list@ == old(list)@,
        decreases at,
    {
        let ghost head = all.take(at as int);
        assert(head.last() == list@[at - 1]@);
        let other: Vec<char> = text::chars_of(list[at - 1].as_str());
        if text::chars_less(other.as_slice(), cs.as_slice()) {
            break;
        }
        if text::same_chars(other.as_slice(), cs.as_slice()) {
            assert(head + all.skip(at as int) =~= all);
            return;
        }
        proof {
            assert(head.drop_last() =~= all.take(at - 1));
            let p = put_sorted(all.take(at - 1), s@);
            assert(p.push(head.last()) + all.skip(at as int) =~= p + all.skip(at - 1));
        }
        at -= 1;
    }
    list.insert(at, s);
    assert(text::views(list@) =~= all.take(at as int).push(s@) + all.skip(at as int));
}

/// The element of an array property.
fn wrap_array(name: &str, kind: &str, items: &[String]) -> (s: String)
    ensures
        s@ == element(name@, "<rdf:"@ + kind@ + ">"@ + list_items(text::views(items@)) + "</rdf:"@ + kind@
            + ">"@),
{
    let mut inner: String = text::copy_text("<rdf:");
    inner.append(kind);
    inner.append(">");
    let ghost head = inner@;
    let ghost all = text::views(items@);
    let mut i: usize = 0;
    assert(inner@ =~= head + list_items(all.take(0)));
    while i < items.len()
        invariant
            i <= items.len(),
            all == text::views(items@),
            inner@ == head + list_items(all.take(i as int)),
        decreases items.len() - i,
    {
        proof {
            let next = all.take(i + 1);
            assert(next.drop_last() =~= all.take(i as int));
            assert(next.last() == items@[i as int]@);
        }
        inner.append("<rdf:li>");
        inner.append(xml::escape_text(items[i].as_str()).as_str());
        inner.append("</rdf:li>");
        i += 1;
        assert(inner@ =~= head + list_items(all.take(i as int)));
    }
    assert(all.take(all.len() as int) =~= all);
    inner.append("</rdf:");
    inner.append(kind);
    inner.append(">");
    let s: String = wrap_element(name, inner.as_str());
    assert(inner@ =~= "<rdf:"@ + kind@ + ">"@ + list_items(all) + "</rdf:"@ + kind@ + ">"@);
    s
}

/// An element with this name around `inner`.
fn wrap_element(name: &str, inner: &str) -> (s: String)
    ensures
        s@ == element(name@, inner@),
{
    let mut s: String = text::copy_text("<");
    s.append(name);
    s.append(">");
    s.append(inner);
    s.append("</");
    s.append(name);
    s.append(">");
    s
}

/// The element of a property.
pub fn build_fragment(name: &str, value: &XmpValue) -> (s: String)
    ensures
        s@ == fragment(name@, value@),
{
    proof {
        reveal_strlit("<rdf:");
        reveal_strlit("</rdf:");
        reveal_strlit("Seq");
        reveal_strlit("Bag");
        reveal_strlit(">");
        reveal_strlit("<rdf:Seq>");
        reveal_strlit("</rdf:Seq>");
        reveal_strlit("<rdf:Bag>");
        reveal_strlit("</rdf:Bag>");
    }
    match value {
        XmpValue::Simple(v) => wrap_element(name, xml::escape_text(v.as_str()).as_str()),
        XmpValue::LangAlt(v) => {
            let mut inner: String = text::copy_text("<rdf:Alt><rdf:li xml:lang=\"x-default\">");
            inner.append(xml::escape_text(v.as_str()).as_str());
            inner.append("</rdf:li></rdf:Alt>");
            wrap_element(name, inner.as_str())
        },
        XmpValue::Ordered(items) => {
            let s: String = wrap_array(name, "Seq", items.as_slice());
            proof {
                let list = list_items(text::views(items@));
                assert("<rdf:"@ + "Seq"@ + ">"@ =~= "<rdf:Seq>"@);
                assert("<rdf:"@ + "Seq"@ + ">"@ + list + "</rdf:"@ + "Seq"@ + ">"@ =~= "<rdf:Seq>"@ + list
                    + "</rdf:Seq>"@);
            }
            s
        },
        XmpValue::Bag(items) => {
            let s: String = wrap_array(name, "Bag", items.as_slice());
            proof {
                let list = list_items(text::views(items@));
                assert("<rdf:"@ + "Bag"@ + ">"@ =~= "<rdf:Bag>"@);
                assert("<rdf:"@ + "Bag"@ + ">"@ + list + "</rdf:"@ + "Bag"@ + ">"@ =~= "<rdf:Bag>"@ + list
                    + "</rdf:Bag>"@);
            }
            s
        },
    }
}

/// The namespace of a known prefix.
pub fn namespace_uri(prefix: &str) -> (r: Option<&'static str>)
    ensures
        match r {
            Some(uri) => namespace(prefix@) == Some(uri@),
            None => namespace(prefix@) is None,
        },
{
    if text::same_text(prefix, "rdf") {
        Some("http://www.w3.org/1999/02/22-rdf-syntax-ns#")
    } else if text::same_text(prefix, "dc") {
        Some("http://purl.org/dc/elements/1.1/")
    } else if text::same_text(prefix, "xmp") {
        Some("http://ns.adobe.com/xap/1.0/")
    } else if text::same_text(prefix, "photoshop") {
        Some("http://ns.adobe.com/photoshop/1.0/")
    } else if text::same_text(prefix, "lr") {
        Some("http://ns.adobe.com/lightroom/1.0/")
    } else if text::same_text(prefix, "xmpRights") {
        Some("http://ns.adobe.com/xap/1.0/rights/")
    } else if text::same_text(prefix, "Iptc4xmpCore") {
        Some("http://iptc.org/std/Iptc4xmpCore/1.0/xmlns/")
    } else {
        None
    }
}

/// Builds a packet that holds exactly the properties that are set.
pub fn build_fresh(edit: &XmpEdit) -> (s: String)
    ensures
        s@ == fresh_packet(edit@),
{
    let mut s: String = text::copy_text("<?xpacket begin=\"\u{feff}\" id=\"W5M0MpCehiHzreSzNTczkc9d\"?>");
    s.append("\n<x:xmpmeta xmlns:x=\"adobe:ns:meta/\">");
    s.append("\n <rdf:RDF xmlns:rdf=\"http://www.w3.org/1999/02/22-rdf-syntax-ns#\">");
    s.append("\n  <rdf:Description rdf:about=\"\"");
    let ghost head = s@;
    let used: Vec<String> = edit.used_prefixes();
    let ghost list = text::views(used@);
    let mut i: usize = 0;
    assert(s@ =~= head + declarations(list.take(0)));
    while i < used.len()
        invariant
            i <= used.len(),
            list == text::views(used@),
            s@ == head + declarations(list.take(i as int)),
        decreases used.len() - i,
    {
        proof {
            let next = list.take(i + 1);
            assert(next.drop_last() =~= list.take(i as int));
            assert(next.last() == used@[i as int]@);
        }
        let prefix: &str = used[i].as_str();
        match namespace_uri(prefix) {
            Some(uri) => {
                if !text::same_text(prefix, "rdf") {
                    s.append(" xmlns:");
                    s.append(prefix);
                    s.append("=\"");
                    s.append(uri);
                    s.append("\"");
                }
            },
            None => {},
        }
        i += 1;
        assert(s@ =~= head + declarations(list.take(i as int)));
    }
    assert(list.take(list.len() as int) =~= list);
    s.append(">");
    let ghost head2 = s@;
    let mut k: usize = 0;
    assert(s@ =~= head2 + fragments(edit@.sets.take(0)));
    while k < edit.sets.len()
        invariant
            k <= edit.sets.len(),
            s@ == head2 + fragments(edit@.sets.take(k as int)),
        decreases edit.sets.len() - k,
    {
        proof {
            let next = edit@.sets.take(k + 1);
            assert(next.drop_last() =~= edit@.sets.take(k as int));
            assert(next.last() == (edit.sets@[k as int].0@, edit.sets@[k as int].1@));
        }
        s.append("\n   ");
        s.append(build_fragment(edit.sets[k].0.as_str(), &edit.sets[k].1).as_str());
        k += 1;
        assert(s@ =~= head2 + fragments(edit@.sets.take(k as int)));
    }
    assert(edit@.sets.take(edit@.sets.len() as int) =~= edit@.sets);
    s.append("\n  </rdf:Description>");
    s.append("\n </rdf:RDF>");
    s.append("\n</x:xmpmeta>");
    s.append("\n<?xpacket end=\"w\"?>");
    s
}

// ---- editing ----------------------------------------------------------------------------

/// Why a packet could not be edited or stored.
#[derive(Debug)]
pub enum XmpError {
    /// The packet is no readable XML.
    Parse(String),
    /// The inside of a replaced element is no readable XML.
    Skip(String),
    /// A replaced element is not closed.
    MissingEnd(String),
    /// A piece of the description's start tag is no attribute.
    Attribute(String),
    /// An attribute value of the description holds an unknown reference.
    AttributeValue(String),
    /// The packet, of this many bytes, is too large for one segment.
    TooLarge(usize),
    /// The PNG has neither image data nor an end.
    NoImageData,
    /// The file is neither JPEG nor PNG.
    Unsupported,
}

impl View for XmpError {
    type V = ErrorView;

    open spec fn view(&self) -> ErrorView {
        match *self {
            XmpError::Parse(s) => ErrorView::Parse(s@),
            XmpError::Skip(s) => ErrorView::Skip(s@),
            XmpError::MissingEnd(s) => ErrorView::MissingEnd(s@),
            XmpError::Attribute(s) => ErrorView::Attribute(s@),
            XmpError::AttributeValue(s) => ErrorView::AttributeValue(s@),
            XmpError::TooLarge(n) => ErrorView::TooLarge(n as int),
            XmpError::NoImageData => ErrorView::NoImageData,
            XmpError::Unsupported => ErrorView::Unsupported,
        }
    }
}

/// What is told the user about an error.
pub open spec fn error_message(e: ErrorView) -> Seq<char> {
    match e {
        ErrorView::Parse(s) => "解析 XMP 失败："@ + s,
        ErrorView::Skip(s) => s,
        ErrorView::MissingEnd(s) => "ill-formed document: start tag not closed: `</"@ + s
            + ">` not found before end of input"@,
        ErrorView::Attribute(s) => "XMP 属性解析失败："@ + s,
        ErrorView::AttributeValue(s) => "XMP 属性解码失败："@ + s,
        ErrorView::TooLarge(n) => "XMP 数据过大（"@ + text::dec(n as nat)
            + " 字节），暂不支持扩展 XMP 分段写入"@,
        ErrorView::NoImageData => "PNG 结构异常：未找到 IDAT/IEND"@,
        ErrorView::Unsupported => "XMP 目前仅支持 JPEG 与 PNG"@,
    }
}

impl XmpError {
    /// The message shown to the user.
    pub fn message(&self) -> (s: String)
        ensures
            s@ == error_message(self@),
    {
        match self {
            XmpError::Parse(why) => text::copy_text("解析 XMP 失败：").concat(why.as_str()),
            XmpError::Skip(why) => text::copy_text(why.as_str()),
            XmpError::MissingEnd(name) => text::copy_text(
                "ill-formed document: start tag not closed: `</",
            ).concat(name.as_str()).concat(">` not found before end of input"),
            XmpError::Attribute(why) => text::copy_text("XMP 属性解析失败：").concat(why.as_str()),
            XmpError::AttributeValue(why) => text::copy_text("XMP 属性解码失败：").concat(
                why.as_str(),
            ),
            XmpError::TooLarge(n) => {
                let mut s: String = text::copy_text("XMP 数据过大（");
                text::push_dec(&mut s, *n as u64);
                s.append(" 字节），暂不支持扩展 XMP 分段写入");
                s
            },
            XmpError::NoImageData => text::copy_text("PNG 结构异常：未找到 IDAT/IEND"),
            XmpError::Unsupported => text::copy_text("XMP 目前仅支持 JPEG 与 PNG"),
        }
    }
}

/// What a result says.
pub open spec fn result_view(r: Result<String, XmpError>) -> Result<Seq<char>, ErrorView> {
    match r {
        Ok(s) => Ok(s@),
        Err(e) => Err(e@),
    }
}

/// Appends an attribute as it is written.
fn push_attribute(out: &mut String, key: &str, value: &str)
    ensures
        final(out)@ == old(out)@ + attribute_text(key@, value@),
{
    out.append(" ");
    out.append(key);
    out.append("=\"");
    out.append(xml::escape_text(value).as_str());
    out.append("\"");
    assert(out@ =~= old(out)@ + attribute_text(key@, value@));
}

/// `key` without any repetition of `xmlns:` in front.
fn strip_xmlns(key: &str) -> (r: String)
    ensures
        r@ == without_prefixes(key@, "xmlns:"@),
{
    let cs: Vec<char> = text::chars_of(key);
    let prefix: Vec<char> = text::chars_of("xmlns:");
    proof {
        reveal_strlit("xmlns:");
    }
    let mut start: usize = 0;
    assert(cs@.skip(0) =~= cs@);
    while text::stands_at(cs.as_slice(), start, prefix.as_slice())
        invariant
            start <= cs.len(),
            prefix@ == "xmlns:"@,
            prefix@.len() == 6,
            without_prefixes(cs@, prefix@) == without_prefixes(cs@.skip(start as int), prefix@),
        decreases cs.len() - start,
    {
        proof {
            let rest = cs@.skip(start as int);
            assert(rest.subrange(0, 6) =~= cs@.subrange(start as int, start + 6));
            assert(rest.skip(6) =~= cs@.skip(start + 6));
        }
        start += 6;
    }
    proof {
        let rest = cs@.skip(start as int);
        if text::has_prefix(rest, prefix@) {
            assert(rest.subrange(0, 6) =~= cs@.subrange(start as int, start + 6));
        }
        assert(cs@.subrange(start as int, cs@.len() as int) =~= rest);
    }
    text::text_of(&cs[start..cs.len()])
}

/// Whether an attribute declares a namespace.
fn is_declaration(key: &str) -> (r: bool)
    ensures
        r == declares(key@),
{
    let cs: Vec<char> = text::chars_of(key);
    let prefix: Vec<char> = text::chars_of("xmlns:");
    text::stands_at(cs.as_slice(), 0, prefix.as_slice()) || text::is_text(cs.as_slice(), "xmlns")
}

proof fn lemma_kept_error(attrs: Seq<xml::AttrView>, k: int, edit: EditView)
    requires
        0 <= k <= attrs.len(),
        kept_attributes(attrs.take(k), edit) is Err,
    ensures
        kept_attributes(attrs, edit) == kept_attributes(attrs.take(k), edit),
    decreases attrs.len() - k,
{
    if k < attrs.len() {
        assert(attrs.take(k + 1).drop_last() =~= attrs.take(k));
        lemma_kept_error(attrs, k + 1, edit);
    } else {
        assert(attrs.take(k) =~= attrs);
    }
}

/// The start tag of the description after an edit, from the attributes it had.
pub fn rebuild_attributes(attrs: &Vec<XmlAttr>, edit: &XmpEdit) -> (r: Result<String, XmpError>)
    ensures
        result_view(r) == match kept_attributes(xml::attrs_view(attrs@), edit@) {
            Err(e) => Err(e),
            Ok(kept) => Ok(
                "<rdf:Description"@ + kept + missing_declarations(
                    prefixes(edit@.sets),
                    declared(xml::attrs_view(attrs@)),
                ) + ">"@,
            ),
        },
{
    let ghost all = xml::attrs_view(attrs@);
    let mut tag: String = text::copy_text("<rdf:Description");
    let ghost head = tag@;
    let mut present: Vec<String> = Vec::new();
    let ghost mut kept: Seq<char> = Seq::empty();
    let mut i: usize = 0;
    assert(all.take(0) =~= Seq::<xml::AttrView>::empty());
    assert(text::views(present@) =~= declared(all.take(0)));
    while i < attrs.len()
        invariant
            i <= attrs.len(),
            all == xml::attrs_view(attrs@),
            kept_attributes(all.take(i as int), edit@) == Ok::<Seq<char>, ErrorView>(kept),
            tag@ == head + kept,
            text::views(present@) == declared(all.take(i as int)),
        decreases attrs.len() - i,
    {
        proof {
            let next = all.take(i + 1);
            assert(next.drop_last() =~= all.take(i as int));
            assert(next.last() == attrs@[i as int]@);
        }
        let ghost before = text::views(present@);
        match &attrs[i] {
            XmlAttr::Malformed(why) => {
                proof {
                    lemma_kept_error(all, i + 1, edit@);
                }
                return Err(XmpError::Attribute(text::copy_text(why.as_str())));
            },
            XmlAttr::Pair(key, value) => {
                match value {
                    Err(why) => {
                        proof {
                            lemma_kept_error(all, i + 1, edit@);
                        }
                        return Err(XmpError::AttributeValue(text::copy_text(why.as_str())));
                    },
                    Ok(value) => {
                        let declaration: bool = is_declaration(key.as_str());
                        if declaration {
                            let prefix: String = strip_xmlns(key.as_str());
                            let ghost one = prefix@;
                            present.push(prefix);
                            assert(text::views(present@) =~= before.push(one));
                        }
                        if declaration || text::same_text(key.as_str(), "rdf:about") || !edit.is_managed(
                            key.as_str(),
                        ) {
                            push_attribute(&mut tag, key.as_str(), value.as_str());
                            proof {
                                kept = kept + attribute_text(key@, value@);
                            }
                            assert(tag@ =~= head + kept);
                        }
                    },
                }
            },
        }
        i += 1;
    }
    assert(all.take(all.len() as int) =~= all);
    let used: Vec<String> = edit.used_prefixes();
    let ghost list = text::views(used@);
    let ghost head2 = tag@;
    let mut k: usize = 0;
    assert(tag@ =~= head2 + missing_declarations(list.take(0), text::views(present@)));
    while k < used.len()
        invariant
            k <= used.len(),
            list == text::views(used@),
            tag@ == head2 + missing_declarations(list.take(k as int), text::views(present@)),
        decreases used.len() - k,
    {
        proof {
            let next = list.take(k + 1);
            assert(next.drop_last() =~= list.take(k as int));
            assert(next.last() == used@[k as int]@);
        }
        let prefix: &str = used[k].as_str();
        match namespace_uri(prefix) {
            Some(uri) => {
                if !text::has_text(present.as_slice(), prefix) {
                    let key: String = text::copy_text("xmlns:").concat(prefix);
                    push_attribute(&mut tag, key.as_str(), uri);
                }
            },
            None => {},
        }
        k += 1;
        assert(tag@ =~= head2 + missing_declarations(list.take(k as int), text::views(present@)));
    }
    assert(list.take(list.len() as int) =~= list);
    tag.append(">");
    Ok(tag)
}

/// The start tag of the description after an edit.
fn rebuild_desc_start(name: &str, content: &str, edit: &XmpEdit) -> (r: Result<String, XmpError>)
    ensures
        result_view(r) == description_start(name@, content@, edit@),
        xml::attributes_known(name@, content@),
{
    let attrs: Vec<XmlAttr> = xml::read_attributes(name, content);
    rebuild_attributes(&attrs, edit)
}

/// Finds the event behind the end tag that closes an element of this name.
pub fn skip_element(events: &Vec<XmlEvent>, from: usize, name: &str) -> (r: Result<usize, XmpError>)
    requires
        from <= events.len(),
    ensures
        match r {
            Ok(next) => end_of_element(xml::events_view(events@), from as int, name@, 0) == Ok::<int, ErrorView>(
                next as int,
            ) && from < next <= events.len(),
            Err(e) => end_of_element(xml::events_view(events@), from as int, name@, 0) == Err::<int, ErrorView>(
                e@,
            ),
        },
{
    let ghost all = xml::events_view(events@);
    let mut depth: usize = 0;
    let mut i: usize = from;
    while i < events.len()
        invariant
            from <= i <= events.len(),
            depth <= i - from,
            all == xml::events_view(events@),
            end_of_element(all, from as int, name@, 0) == end_of_element(all, i as int, name@, depth as int),
        decreases events.len() - i,
    {
        assert(all[i as int] == events@[i as int]@);
        match &events[i] {
            XmlEvent::Failed(why) => {
                return Err(XmpError::Skip(text::copy_text(why.as_str())));
            },
            XmlEvent::Eof => {
                return Err(XmpError::MissingEnd(text::copy_text(name)));
            },
            XmlEvent::Start(n, _, _, _) => {
                if text::same_text(n.as_str(), name) {
                    depth += 1;
                }
            },
            XmlEvent::End(n, _, _) => {
                if text::same_text(n.as_str(), name) {
                    if depth == 0 {
                        return Ok(i + 1);
                    }
                    depth -= 1;
                }
            },
            _ => {},
        }
        i += 1;
    }
    Err(XmpError::MissingEnd(text::copy_text(name)))
}

/// Adds a name to a list, once.
fn remember(done: &mut Vec<String>, name: &str)
    ensures
        text::views(final(done)@) == remembered(text::views(old(done)@), name@),
{
    if !text::has_text(done.as_slice(), name) {
        done.push(text::copy_text(name));
        assert(text::views(done@) =~= text::views(old(done)@).push(name@));
    }
}

/// Appends the elements of all properties that are set, and notes them as done.
fn fill_description(out: &mut String, done: &mut Vec<String>, edit: &XmpEdit)
    ensures
        final(out)@ == old(out)@ + filled(edit@.sets, edit@),
        text::views(final(done)@) == all_done(edit@.sets, text::views(old(done)@)),
{
    let ghost sets = edit@.sets;
    let mut i: usize = 0;
    assert(out@ =~= old(out)@ + filled(sets.take(0), edit@));
    while i < edit.sets.len()
        invariant
            i <= edit.sets.len(),
            sets == edit@.sets,
            out@ == old(out)@ + filled(sets.take(i as int), edit@),
            text::views(done@) == all_done(sets.take(i as int), text::views(old(done)@)),
        decreases edit.sets.len() - i,
    {
        proof {
            let next = sets.take(i + 1);
            assert(next.drop_last() =~= sets.take(i as int));
            assert(next.last().0 == edit.sets@[i as int].0@);
        }
        edit.push_fragment(out, edit.sets[i].0.as_str());
        remember(done, edit.sets[i].0.as_str());
        i += 1;
        assert(out@ =~= old(out)@ + filled(sets.take(i as int), edit@));
    }
    assert(sets.take(sets.len() as int) =~= sets);
}

/// Appends the elements of the properties that were set and not met.
fn complete_description(out: &mut String, done: &Vec<String>, edit: &XmpEdit)
    ensures
        final(out)@ == old(out)@ + completed(edit@.sets, edit@, text::views(done@)),
{
    let ghost sets = edit@.sets;
    let mut i: usize = 0;
    assert(out@ =~= old(out)@ + completed(sets.take(0), edit@, text::views(done@)));
    while i < edit.sets.len()
        invariant
            i <= edit.sets.len(),
            sets == edit@.sets,
            out@ == old(out)@ + completed(sets.take(i as int), edit@, text::views(done@)),
        decreases edit.sets.len() - i,
    {
        proof {
            let next = sets.take(i + 1);
            assert(next.drop_last() =~= sets.take(i as int));
            assert(next.last().0 == edit.sets@[i as int].0@);
        }
        let name: &str = edit.sets[i].0.as_str();
        if !text::has_text(done.as_slice(), name) {
            out.append("\n   ");
            edit.push_fragment(out, name);
        }
        i += 1;
        assert(out@ =~= old(out)@ + completed(sets.take(i as int), edit@, text::views(done@)));
    }
    assert(sets.take(sets.len() as int) =~= sets);
}

/// Applies an edit to the events of a packet and writes them out. Everything but the managed
/// properties is copied.
pub fn edit_event_list(events: &Vec<XmlEvent>, edit: &XmpEdit) -> (r: Result<String, XmpError>)
    ensures
        result_view(r) == edited_events(xml::events_view(events@), edit@),
        description_known(xml::events_view(events@), 0),
{
    let ghost all = xml::events_view(events@);
    let mut pending: bool = true;
    let mut inside: bool = false;
    let mut depth: i128 = 0;
    let mut done: Vec<String> = Vec::new();
    let mut out: String = String::new();
    let mut i: usize = 0;
    proof {
        assert(text::views(done@) =~= at_start().done);
        assert(out@ =~= at_start().out);
    }
    while i < events.len()
        invariant
            i <= events.len(),
            all == xml::events_view(events@),
            -(i as int) <= depth <= i,
            edited_events(all, edit@) == edited_from(
                all,
                i as int,
                Progress { pending, inside, depth: depth as int, done: text::views(done@), out: out@ },
                edit@,
            ),
            if pending {
                description_known(all, 0) == description_known(all, i as int)
            } else {
                description_known(all, 0)
            },
            !pending || !inside,
        decreases events.len() - i,
    {
        assert(all[i as int] == events@[i as int]@);
        match &events[i] {
            XmlEvent::Start(name, content, written, _) => {
                if pending && text::same_text(name.as_str(), "rdf:Description") {
                    match rebuild_desc_start(name.as_str(), content.as_str(), edit) {
                        Ok(tag) => {
                            out.append(tag.as_str());
                        },
                        Err(e) => {
                            return Err(e);
                        },
                    }
                    pending = false;
                    inside = true;
                    depth = 0;
                    i += 1;
                } else if inside && depth == 0 && edit.is_managed(name.as_str()) {
                    match skip_element(events, i + 1, name.as_str()) {
                        Ok(next) => {
                            i = next;
                        },
                        Err(e) => {
                            return Err(e);
                        },
                    }
                    edit.push_fragment(&mut out, name.as_str());
                    remember(&mut done, name.as_str());
                } else {
                    if inside {
                        depth += 1;
                    }
                    out.append(written.as_str());
                    i += 1;
                }
            },
            XmlEvent::Empty(name, content, written, _) => {
                if pending && text::same_text(name.as_str(), "rdf:Description") {
                    match rebuild_desc_start(name.as_str(), content.as_str(), edit) {
                        Ok(tag) => {
                            out.append(tag.as_str());
                        },
                        Err(e) => {
                            return Err(e);
                        },
                    }
                    pending = false;
                    fill_description(&mut out, &mut done, edit);
                    out.append("</rdf:Description>");
                } else if inside && depth == 0 && edit.is_managed(name.as_str()) {
                    edit.push_fragment(&mut out, name.as_str());
                    remember(&mut done, name.as_str());
                } else {
                    out.append(written.as_str());
                }
                i += 1;
            },
            XmlEvent::End(name, written, _) => {
                if inside && depth == 0 && text::same_text(name.as_str(), "rdf:Description") {
                    complete_description(&mut out, &done, edit);
                    inside = false;
                } else if inside {
                    depth -= 1;
                }
                out.append(written.as_str());
                i += 1;
            },
            XmlEvent::Text(raw, _) => {
                out.append(raw.as_str());
                i += 1;
            },
            XmlEvent::Other(written, _) => {
                out.append(written.as_str());
                i += 1;
            },
            XmlEvent::Eof => {
                return Ok(out);
            },
            XmlEvent::Failed(why) => {
                return Err(XmpError::Parse(text::copy_text(why.as_str())));
            },
        }
    }
    Ok(out)
}

/// Edits an existing packet and keeps everything the edit does not name.
pub fn edit_existing(packet: &str, edit: &XmpEdit) -> (r: Result<String, XmpError>)
    ensures
        result_view(r) == edited_events(xml::document_events(packet@), edit@),
        forall|v: Seq<xml::PieceView>|
            xml::well_formed(v) && xml::without_mark(packet@) == #[trigger] xml::pieces_text(v) ==> result_view(r)
                == edited_events(pieces::plain_events(v), edit@) && description_known(pieces::plain_events(v), 0),
{
    let events: Vec<XmlEvent> = xml::read_events(packet);
    edit_event_list(&events, edit)
}

/// Applies an edit to the packet there is, or makes a fresh one.
pub fn apply(existing: Option<&str>, edit: &XmpEdit) -> (r: Result<String, XmpError>)
    ensures
        result_view(r) == applied(
            match existing {
                Some(packet) => Some(packet@),
                None => None,
            },
            edit@,
        ),
        match existing {
            Some(packet) => text::contains_text(packet@, "rdf:Description"@) ==> forall|v: Seq<xml::PieceView>|
                xml::well_formed(v) && xml::without_mark(packet@) == #[trigger] xml::pieces_text(v)
                    ==> result_view(r) == edited_events(pieces::plain_events(v), edit@) && description_known(
                    pieces::plain_events(v),
                    0,
                ),
            None => true,
        },
        existing matches Some(packet) ==> forall|v: Seq<xml::PieceView>, i: int|
            #[trigger] xmpeffects::described(v, i) && xml::without_mark(packet@) == xml::pieces_text(v)
                && xmplaws::names_fit(edit@.sets) ==> (r matches Ok(s) && xmpeffects::takes_effect(v, i, edit@, s@)),
{
    match existing {
        Some(packet) => {
            proof {
                assert forall|v: Seq<xml::PieceView>, i: int|
                    #[trigger] xmpeffects::described(v, i) && xml::without_mark(packet@) == xml::pieces_text(
                        v,
                    ) implies text::contains_text(packet@, "rdf:Description"@) by {
                    xmpeffects::lemma_word_there(packet@, v, i);
                }
            }
            if text::text_contains(packet, "rdf:Description") {
                let r: Result<String, XmpError> = edit_existing(packet, edit);
                proof {
                    assert forall|v: Seq<xml::PieceView>, i: int|
                        #[trigger] xmpeffects::described(v, i) && xml::without_mark(packet@) == xml::pieces_text(v)
                            && xmplaws::names_fit(edit@.sets) implies (r matches Ok(s) && xmpeffects::takes_effect(
                        v,
                        i,
                        edit@,
                        s@,
                    )) by {
                        let out = xmpeffects::edited_packet_keeps_others(packet@, v, i, edit@);
                        xmpeffects::lemma_takes_effect(packet@, v, i, edit@, xml::pieces_text(out));
                    }
                }
                r
            } else {
                Ok(build_fresh(edit))
            }
        },
        None => Ok(build_fresh(edit)),
    }
}

// ---- reading properties -----------------------------------------------------------------

/// The texts of the text events, trimmed, without empty ones.
pub open spec fn text_parts(events: Seq<xml::EventView>) -> Seq<Seq<char>>
    decreases events.len(),
{
    if events.len() == 0 {
        Seq::empty()
    } else {
        let head = text_parts(events.drop_last());
        match events.last() {
            xml::EventView::Text(raw, _) => match xml::resolved_text(raw) {
                Some(s) => if text::trimmed(s).len() > 0 {
                    head.push(text::trimmed(s))
                } else {
                    head
                },
                None => head,
            },
            _ => head,
        }
    }
}

/// The text inside an element, several pieces joined by `; `.
pub open spec fn inner_text(inner: Seq<char>) -> Seq<char> {
    text::joined(text_parts(xml::document_events(inner)), "; "@)
}

/// The properties in attribute form.
pub open spec fn attribute_properties(attrs: Seq<xml::AttrView>) -> iptc::Properties
    decreases attrs.len(),
{
    if attrs.len() == 0 {
        Seq::empty()
    } else {
        let head = attribute_properties(attrs.drop_last());
        match attrs.last() {
            xml::AttrView::Pair(key, Ok(value)) => if text::has_prefix(key, "xmlns"@) || key
                == "rdf:about"@ {
                head
            } else {
                head.push((key, value))
            },
            _ => head,
        }
    }
}

/// The properties that the events from `i` on hold. `document` is what the events were read
/// from, without a byte order mark.
pub open spec fn properties_from(
    events: Seq<xml::EventView>,
    document: Seq<char>,
    i: int,
    inside: bool,
    depth: int,
) -> iptc::Properties
    decreases events.len() - i,
{
    if i < 0 || i >= events.len() {
        Seq::empty()
    } else {
        match events[i] {
            xml::EventView::Start(name, content, _, end) => if name == "rdf:Description"@ {
                attribute_properties(xml::attributes_of(name, content)) + properties_from(
                    events,
                    document,
                    i + 1,
                    true,
                    0,
                )
            } else if inside && depth == 0 {
                proof {
                    lemma_end_of_element(events, i + 1, name, 0);
                }
                match end_of_element(events, i + 1, name, 0) {
                    Ok(next) => seq![
                        (
                            name,
                            inner_text(text::byte_slice(document, end, xml::position(events[next - 2]))),
                        ),
                    ] + properties_from(events, document, next, inside, depth),
                    Err(_) => Seq::empty(),
                }
            } else {
                properties_from(
                    events,
                    document,
                    i + 1,
                    inside,
                    if inside {
                        depth + 1
                    } else {
                        depth
                    },
                )
            },
            xml::EventView::Empty(name, content, _, _) => if name == "rdf:Description"@ {
                attribute_properties(xml::attributes_of(name, content)) + properties_from(
                    events,
                    document,
                    i + 1,
                    inside,
                    depth,
                )
            } else if inside && depth == 0 {
                seq![(name, Seq::<char>::empty())] + properties_from(events, document, i + 1, inside, depth)
            } else {
                properties_from(events, document, i + 1, inside, depth)
            },
            xml::EventView::End(name, _, _) => if inside && depth == 0 && name == "rdf:Description"@ {
                properties_from(events, document, i + 1, false, depth)
            } else {
                properties_from(
                    events,
                    document,
                    i + 1,
                    inside,
                    if inside {
                        depth - 1
                    } else {
                        depth
                    },
                )
            },
            xml::EventView::Text(_, _) => properties_from(events, document, i + 1, inside, depth),
            xml::EventView::Other(_, _) => properties_from(events, document, i + 1, inside, depth),
            xml::EventView::Eof => Seq::empty(),
            xml::EventView::Failed(_) => Seq::empty(),
        }
    }
}

/// The properties of a packet.
pub open spec fn properties_of(packet: Seq<char>) -> iptc::Properties {
    properties_from(xml::document_events(packet), xml::without_mark(packet), 0, false, 0)
}

/// Collects the texts of the text events.
pub fn collect_texts(events: &Vec<XmlEvent>) -> (parts: Vec<String>)
    ensures
        text::views(parts@) == text_parts(xml::events_view(events@)),
        pieces::texts_resolve(xml::events_view(events@)),
{
    let ghost all = xml::events_view(events@);
    let mut parts: Vec<String> = Vec::new();
    let mut i: usize = 0;
    assert(text::views(parts@) =~= text_parts(all.take(0)));
    while i < events.len()
        invariant
            i <= events.len(),
            all == xml::events_view(events@),
            pieces::texts_resolve(all.take(i as int)),
            text::views(parts@) == text_parts(all.take(i as int)),
        decreases events.len() - i,
    {
        proof {
            let next = all.take(i + 1);
            assert(next.drop_last() =~= all.take(i as int));
            assert(next.last() == events@[i as int]@);
        }
        let ghost before = text::views(parts@);
        match &events[i] {
            XmlEvent::Text(raw, _) => {
                let resolved: Option<String> = xml::unescape_text(raw.as_str());
                assert(xml::resolves(raw@));
                match resolved {
                    Some(s) => {
                        let t: String = text::trim_text(s.as_str());
                        if !t.as_str().is_empty() {
                            let ghost one = t@;
                            parts.push(t);
                            assert(text::views(parts@) =~= before.push(one));
                        }
                    },
                    None => {},
                }
            },
            _ => {},
        }
        proof {
            assert forall|k: int| 0 <= k < all.take(i + 1).len() implies match #[trigger] all.take(i + 1)[k] {
                xml::EventView::Text(raw, _) => xml::resolves(raw),
                _ => true,
            } by {
                if k < i {
                    assert(all.take(i + 1)[k] == all.take(i as int)[k]);
                }
            }
        }
        i += 1;
    }
    assert(all.take(all.len() as int) =~= all);
    parts
}

/// The text inside an element, several pieces joined by `; `.
pub fn extract_text(inner: &str) -> (s: String)
    ensures
        s@ == inner_text(inner@),
        xml::reads_plainly(inner@),
        pieces::texts_resolve(xml::document_events(inner@)),
{
    let events: Vec<XmlEvent> = xml::read_events(inner);
    let parts: Vec<String> = collect_texts(&events);
    text::join_texts(parts.as_slice(), "; ")
}

/// Appends the properties in attribute form.
pub fn push_attribute_properties(out: &mut Vec<(String, String)>, attrs: &Vec<XmlAttr>)
    ensures
        iptc::properties_view(final(out)@) == iptc::properties_view(old(out)@) + attribute_properties(
            xml::attrs_view(attrs@),
        ),
{
    let ghost all = xml::attrs_view(attrs@);
    let ghost head = iptc::properties_view(out@);
    let xmlns: Vec<char> = text::chars_of("xmlns");
    let mut i: usize = 0;
    assert(iptc::properties_view(out@) =~= head + attribute_properties(all.take(0)));
    while i < attrs.len()
        invariant
            i <= attrs.len(),
            xmlns@ == "xmlns"@,
            all == xml::attrs_view(attrs@),
            iptc::properties_view(out@) == head + attribute_properties(all.take(i as int)),
        decreases attrs.len() - i,
    {
        proof {
            let next = all.take(i + 1);
            assert(next.drop_last() =~= all.take(i as int));
            assert(next.last() == attrs@[i as int]@);
        }
        let ghost before = iptc::properties_view(out@);
        match &attrs[i] {
            XmlAttr::Pair(key, value) => {
                match value {
                    Ok(value) => {
                        let cs: Vec<char> = text::chars_of(key.as_str());
                        if !text::stands_at(cs.as_slice(), 0, xmlns.as_slice()) && !text::is_text(
                            cs.as_slice(),
                            "rdf:about",
                        ) {
                            out.push((text::copy_text(key.as_str()), text::copy_text(value.as_str())));
                            assert(iptc::properties_view(out@) =~= before.push((key@, value@)));
                        }
                    },
                    Err(_) => {},
                }
            },
            XmlAttr::Malformed(_) => {},
        }
        i += 1;
        assert(iptc::properties_view(out@) =~= head + attribute_properties(all.take(i as int)));
    }
    assert(all.take(all.len() as int) =~= all);
}

/// Appends the properties in attribute form of a description.
fn collect_attr_props(name: &str, content: &str, out: &mut Vec<(String, String)>)
    ensures
        iptc::properties_view(final(out)@) == iptc::properties_view(old(out)@) + attribute_properties(
            xml::attributes_of(name@, content@),
        ),
        xml::attributes_known(name@, content@),
{
    let attrs: Vec<XmlAttr> = xml::read_attributes(name, content);
    push_attribute_properties(out, &attrs)
}

/// Where the reader stood behind an event.
fn position_of(e: &XmlEvent) -> (n: usize)
    ensures
        n == xml::position(e@),
{
    match e {
        XmlEvent::Start(_, _, _, end) => *end,
        XmlEvent::Empty(_, _, _, end) => *end,
        XmlEvent::End(_, _, end) => *end,
        XmlEvent::Text(_, end) => *end,
        XmlEvent::Other(_, end) => *end,
        XmlEvent::Eof => 0,
        XmlEvent::Failed(_) => 0,
    }
}

/// A text without a byte order mark in front.
pub fn strip_mark(s: &str) -> (r: String)
    ensures
        r@ == xml::without_mark(s@),
{
    let cs: Vec<char> = text::chars_of(s);
    if cs.len() > 0 && cs[0] == '\u{feff}' {
        assert(cs@.subrange(1, cs@.len() as int) =~= cs@.drop_first());
        text::text_of(&cs[1..cs.len()])
    } else {
        text::copy_text(s)
    }
}

/// The properties that a list of events holds. `document` is what they were read from, without
/// a byte order mark.
pub fn properties_of_events(events: &Vec<XmlEvent>, document: &str) -> (out: Vec<(String, String)>)
    requires
        xml::positions_ok(xml::events_view(events@), document@),
        forall|i: int|
            0 <= i < events@.len() ==> (xml::is_last((#[trigger] events@[i])@) <==> i == events@.len() - 1),
    ensures
        iptc::properties_view(out@) == properties_from(
            xml::events_view(events@),
            document@,
            0,
            false,
            0,
        ),
        pieces::read_as_written(xml::events_view(events@), document@, 0, false, 0),
{
    let ghost all = xml::events_view(events@);
    let ghost whole = properties_from(all, document@, 0, false, 0);
    let mut out: Vec<(String, String)> = Vec::new();
    let mut inside: bool = false;
    let mut depth: i128 = 0;
    let mut i: usize = 0;
    assert(iptc::properties_view(out@) + whole =~= whole);
    while i < events.len()
        invariant
            i <= events.len(),
            all == xml::events_view(events@),
            xml::positions_ok(all, document@),
            forall|k: int|
                0 <= k < events@.len() ==> (xml::is_last((#[trigger] events@[k])@) <==> k == events@.len()
                    - 1),
            -(i as int) <= depth <= i,
            iptc::properties_view(out@) + properties_from(all, document@, i as int, inside, depth as int)
                == whole,
            pieces::read_as_written(all, document@, i as int, inside, depth as int)
                ==> pieces::read_as_written(all, document@, 0, false, 0),
        ensures
            iptc::properties_view(out@) == whole,
            pieces::read_as_written(all, document@, 0, false, 0),
        decreases events.len() - i,
    {
        assert(all[i as int] == events@[i as int]@);
        let ghost before = iptc::properties_view(out@);
        let ghost here = properties_from(all, document@, i as int, inside, depth as int);
        match &events[i] {
            XmlEvent::Start(name, content, _, end) => {
                if text::same_text(name.as_str(), "rdf:Description") {
                    collect_attr_props(name.as_str(), content.as_str(), &mut out);
                    inside = true;
                    depth = 0;
                    i += 1;
                    proof {
                        let a = attribute_properties(xml::attributes_of(name@, content@));
                        let rest = properties_from(all, document@, i as int, true, 0);
                        assert(before + a + rest =~= before + (a + rest));
                    }
                } else if inside && depth == 0 {
                    match skip_element(events, i + 1, name.as_str()) {
                        Ok(next) => {
                            let to: usize = position_of(&events[next - 2]);
                            proof {
                                assert(all[next - 2] == events@[next - 2]@);
                                assert(!xml::is_last(events@[i as int]@));
                                lemma_end_is_end(all, i + 1, name@, 0);
                                assert(all[next - 1] == events@[next - 1]@);
                                assert(!xml::is_last(events@[next - 1]@));
                            }
                            let inner: String = text::slice_bytes(document, *end, to);
                            let value: String = extract_text(inner.as_str());
                            let ghost pair = (name@, value@);
                            out.push((text::copy_text(name.as_str()), value));
                            proof {
                                assert(iptc::properties_view(out@) =~= before.push(pair));
                                let rest = properties_from(all, document@, next as int, inside, depth as int);
                                assert(before.push(pair) + rest =~= before + (seq![pair] + rest));
                            }
                            i = next;
                        },
                        Err(_) => {
                            assert(before + here =~= before);
                            break;
                        },
                    }
                } else {
                    if inside {
                        depth += 1;
                    }
                    i += 1;
                }
            },
            XmlEvent::Empty(name, content, _, _) => {
                if text::same_text(name.as_str(), "rdf:Description") {
                    collect_attr_props(name.as_str(), content.as_str(), &mut out);
                    proof {
                        let a = attribute_properties(xml::attributes_of(name@, content@));
                        let rest = properties_from(all, document@, i + 1, inside, depth as int);
                        assert(before + a + rest =~= before + (a + rest));
                    }
                } else if inside && depth == 0 {
                    let value: String = String::new();
                    let ghost pair = (name@, Seq::<char>::empty());
                    out.push((text::copy_text(name.as_str()), value));
                    proof {
                        assert(value@ =~= Seq::<char>::empty());
                        assert(iptc::properties_view(out@) =~= before.push(pair));
                        let rest = properties_from(all, document@, i + 1, inside, depth as int);
                        assert(before.push(pair) + rest =~= before + (seq![pair] + rest));
                    }
                }
                i += 1;
            },
            XmlEvent::End(name, _, _) => {
                if inside && depth == 0 && text::same_text(name.as_str(), "rdf:Description") {
                    inside = false;
                } else if inside {
                    depth -= 1;
                }
                i += 1;
            },
            XmlEvent::Text(_, _) => {
                i += 1;
            },
            XmlEvent::Other(_, _) => {
                i += 1;
            },
            XmlEvent::Eof => {
                assert(before + here =~= before);
                break;
            },
            XmlEvent::Failed(_) => {
                assert(before + here =~= before);
                break;
            },
        }
        proof {
            if i >= events.len() {
                let rest = properties_from(all, document@, i as int, inside, depth as int);
                assert(iptc::properties_view(out@) + rest =~= iptc::properties_view(out@));
            }
        }
    }
    out
}

/// What closes an element is an end tag.
proof fn lemma_end_is_end(events: Seq<xml::EventView>, i: int, name: Seq<char>, depth: int)
    ensures
        match end_of_element(events, i, name, depth) {
            Ok(next) => i < next <= events.len() && events[next - 1] is End && forall|k: int|
                i <= k < next ==> !xml::is_last(#[trigger] events[k]),
            Err(_) => true,
        },
    decreases events.len() - i,
{
    if 0 <= i < events.len() {
        match events[i] {
            xml::EventView::Start(n, _, _, _) => {
                lemma_end_is_end(
                    events,
                    i + 1,
                    name,
                    if n == name {
                        depth + 1
                    } else {
                        depth
                    },
                );
            },
            xml::EventView::End(n, _, _) => {
                lemma_end_is_end(
                    events,
                    i + 1,
                    name,
                    if n == name {
                        depth - 1
                    } else {
                        depth
                    },
                );
            },
            _ => {
                lemma_end_is_end(events, i + 1, name, depth);
            },
        }
    }
}

/// Reads the properties of a packet: qualified names and texts.
pub fn read_properties(packet: &str) -> (out: Vec<(String, String)>)
    ensures
        iptc::properties_view(out@) == properties_of(packet@),
        forall|v: Seq<xml::PieceView>|
            xml::well_formed(v) && (packet@ == #[trigger] xml::pieces_text(v) || xml::without_mark(packet@)
                == xml::pieces_text(v)) ==> iptc::properties_view(out@) == pieces::plain_properties(v),
{
    let events: Vec<XmlEvent> = xml::read_events(packet);
    let document: String = strip_mark(packet);
    let out: Vec<(String, String)> = properties_of_events(&events, document.as_str());
    proof {
        assert forall|v: Seq<xml::PieceView>|
            xml::well_formed(v) && (packet@ == #[trigger] xml::pieces_text(v) || xml::without_mark(packet@)
                == xml::pieces_text(v)) implies iptc::properties_view(out@) == pieces::plain_properties(v) by {
            let w = if packet@ == xml::pieces_text(v) {
                pieces::lemma_unmarked(v);
                pieces::lemma_unmarked_properties(v);
                pieces::unmarked(v)
            } else {
                v
            };
            assert(xml::document_pieces(packet@) == xml::placed(w));
            pieces::lemma_properties(w, 0, false, 0);
        }
    }
    out
}

// ---- storing a packet in a file ---------------------------------------------------------

/// The marker of the segment that holds XMP.
pub const APP1: u8 = 0xE1;

/// The signature of the segment that holds XMP: `http://ns.adobe.com/xap/1.0/` and a zero.
pub open spec fn xmp_signature() -> Seq<u8> {
    seq![
        0x68u8, 0x74, 0x74, 0x70, 0x3A, 0x2F, 0x2F, 0x6E, 0x73, 0x2E, 0x61, 0x64, 0x6F, 0x62, 0x65,
        0x2E, 0x63, 0x6F, 0x6D, 0x2F, 0x78, 0x61, 0x70, 0x2F, 0x31, 0x2E, 0x30, 0x2F, 0x00,
    ]
}

/// The XMP packet of a JPEG or PNG.
pub open spec fn packet_of(b: Seq<u8>) -> Option<Seq<u8>> {
    if jpeg::is_jpeg_bytes(b) {
        jpeg::segment_body(b, APP1, xmp_signature())
    } else {
        png::xmp_of(b)
    }
}

/// Whether a packet of this size fits in one segment.
pub open spec fn packet_fits(len: int) -> bool {
    29 + len + 2 <= 0xFFFF
}

fn signature_bytes() -> (sig: [u8; 29])
    ensures
        sig@ == xmp_signature(),
{
    let sig: [u8; 29] = [
        0x68, 0x74, 0x74, 0x70, 0x3A, 0x2F, 0x2F, 0x6E, 0x73, 0x2E, 0x61, 0x64, 0x6F, 0x62, 0x65, 0x2E,
        0x63, 0x6F, 0x6D, 0x2F, 0x78, 0x61, 0x70, 0x2F, 0x31, 0x2E, 0x30, 0x2F, 0x00,
    ];
    assert(sig@ =~= xmp_signature());
    sig
}

/// Finds the XMP segment of a JPEG: its start, its end and the packet.
pub fn find_jpeg_xmp(bytes: &[u8]) -> (r: Option<(usize, usize, Vec<u8>)>)
    ensures
        match r {
            Some((start, end, packet)) => jpeg::segment_of(bytes@, APP1, xmp_signature()) == Some(start as int)
                && jpeg::segment_end(bytes@, start as int) == Some(end as int)
                && jpeg::segment_body(bytes@, APP1, xmp_signature()) == Some(packet@)
                && start <= end <= bytes.len(),
            None => jpeg::segment_of(bytes@, APP1, xmp_signature()) is None,
        },
{
    let sig: [u8; 29] = signature_bytes();
    match jpeg::find_segment(bytes, APP1, &sig) {
        Some((start, end)) => {
            let packet: Vec<u8> = bytes::copy_bytes(&bytes[start + 4 + 29..end]);
            proof {
                let p = jpeg::payload(bytes@, start as int);
                assert(p.subrange(29, p.len() as int) =~= packet@);
            }
            Some((start, end, packet))
        },
        None => None,
    }
}

/// Sets the XMP segment of a JPEG: replaces it, or adds one behind the leading application
/// segments, so that an EXIF segment stays the first APP1.
pub fn set_jpeg_xmp(bytes: &mut Vec<u8>, packet: &str) -> (r: Result<(), XmpError>)
    ensures
        match r {
            Ok(()) => packet_fits(encode_utf8(packet@).len() as int) && final(bytes)@ == jpeg::with_segment(
                old(bytes)@,
                APP1,
                xmp_signature(),
                encode_utf8(packet@),
            ),
            Err(e) => !packet_fits(encode_utf8(packet@).len() as int) && e@ == ErrorView::TooLarge(
                encode_utf8(packet@).len() as int,
            ) && final(bytes)@ == old(bytes)@,
        },
{
    let body: &[u8] = packet.as_bytes();
    if body.len() > 0xFFFF - 31 {
        return Err(XmpError::TooLarge(body.len()));
    }
    let sig: [u8; 29] = signature_bytes();
    jpeg::put_segment(bytes, APP1, &sig, body);
    Ok(())
}

/// Takes the XMP segment out of a JPEG; says whether there was one.
pub fn remove_jpeg_xmp(bytes: &mut Vec<u8>) -> (removed: bool)
    ensures
        removed == (jpeg::segment_of(old(bytes)@, APP1, xmp_signature()) is Some),
        final(bytes)@ == jpeg::without_segment(old(bytes)@, APP1, xmp_signature()),
{
    let sig: [u8; 29] = signature_bytes();
    jpeg::cut_segment(bytes, APP1, &sig)
}

/// Sets the XMP chunk of a PNG: replaces it, or adds one before the image data.
pub fn set_png_xmp(bytes: &mut Vec<u8>, packet: &str) -> (r: Result<(), XmpError>)
    ensures
        match r {
            Ok(()) => png::place_start(old(bytes)@) is Some && final(bytes)@ == png::with_xmp(
                old(bytes)@,
                encode_utf8(packet@),
            ),
            Err(e) => png::place_start(old(bytes)@) is None && e@ == ErrorView::NoImageData && final(bytes)@
                == old(bytes)@,
        },
{
    if png::put_xmp(bytes, packet.as_bytes()) {
        Ok(())
    } else {
        Err(XmpError::NoImageData)
    }
}

/// Takes the XMP packet out of the bytes of a JPEG or PNG.
pub fn extract_packet_bytes(bytes: &[u8]) -> (r: Option<Vec<u8>>)
    ensures
        match r {
            Some(p) => packet_of(bytes@) == Some(p@),
            None => packet_of(bytes@) is None,
        },
{
    if is_jpeg(bytes) {
        match find_jpeg_xmp(bytes) {
            Some((_, _, packet)) => Some(packet),
            None => None,
        }
    } else {
        match find_png_xmp(bytes) {
            Some((_, _, packet)) => Some(packet),
            None => None,
        }
    }
}

/// The properties of the XMP packet in a file's bytes; none where there is no packet, or it is no
/// text.
pub open spec fn stored_properties(b: Seq<u8>) -> iptc::Properties {
    match packet_of(b) {
        Some(p) => if valid_utf8(p) {
            properties_of(decode_utf8(p))
        } else {
            Seq::empty()
        },
        None => Seq::empty(),
    }
}

/// Reads the properties of the XMP packet in a file's bytes.
pub fn read_stored(bytes: &[u8]) -> (out: Vec<(String, String)>)
    ensures
        iptc::properties_view(out@) == stored_properties(bytes@),
{
    if let Some(packet) = extract_packet_bytes(bytes) {
        if let Some(s) = text::utf8_text(packet.as_slice()) {
            return read_properties(s.as_str());
        }
    }
    let out: Vec<(String, String)> = Vec::new();
    assert(iptc::properties_view(out@) =~= Seq::empty());
    out
}

/// A JPEG or PNG with a packet stored in it, or why it cannot be.
pub open spec fn stored(b: Seq<u8>, packet: Seq<u8>) -> Result<Seq<u8>, ErrorView> {
    if jpeg::is_jpeg_bytes(b) {
        if packet_fits(packet.len() as int) {
            Ok(jpeg::with_segment(b, APP1, xmp_signature(), packet))
        } else {
            Err(ErrorView::TooLarge(packet.len() as int))
        }
    } else if png::is_png_bytes(b) {
        if png::place_start(b) is Some {
            Ok(png::with_xmp(b, packet))
        } else {
            Err(ErrorView::NoImageData)
        }
    } else {
        Err(ErrorView::Unsupported)
    }
}

/// Stores a packet in a JPEG or PNG.
pub fn write_packet(bytes: &mut Vec<u8>, packet: &str) -> (r: Result<(), XmpError>)
    ensures
        match (r, stored(old(bytes)@, encode_utf8(packet@))) {
            (Ok(()), Ok(b)) => final(bytes)@ == b,
            (Err(e), Err(why)) => e@ == why && final(bytes)@ == old(bytes)@,
            _ => false,
        },
{
    if is_jpeg(bytes) {
        set_jpeg_xmp(bytes, packet)
    } else if is_png(bytes) {
        set_png_xmp(bytes, packet)
    } else {
        Err(XmpError::Unsupported)
    }
}

/// A JPEG or PNG without its packet.
pub open spec fn cleared(b: Seq<u8>) -> Seq<u8> {
    if jpeg::is_jpeg_bytes(b) {
        jpeg::without_segment(b, APP1, xmp_signature())
    } else {
        png::without_xmp(b)
    }
}

/// Takes the XMP out of a JPEG or PNG; says whether there was any.
pub fn remove_packet(bytes: &mut Vec<u8>) -> (removed: bool)
    ensures
        removed == (packet_of(old(bytes)@) is Some),
        final(bytes)@ == cleared(old(bytes)@),
{
    if is_jpeg(bytes) {
        remove_jpeg_xmp(bytes)
    } else {
        proof {
            png::lemma_found_holds(bytes@);
        }
        remove_png_xmp(bytes)
    }
}

/// Whether a file of this kind can hold XMP.
pub fn supports_xmp(bytes: &[u8]) -> (r: bool)
    ensures
        r == (jpeg::is_jpeg_bytes(bytes@) || png::is_png_bytes(bytes@)),
{
    is_jpeg(bytes) || is_png(bytes)
}

/// The last dot in `s` before `n`.
pub open spec fn last_dot(s: Seq<char>, n: int) -> Option<int>
    decreases n,
{
    if n <= 0 {
        None
    } else if s[n - 1] == '.' {
        Some(n - 1)
    } else {
        last_dot(s, n - 1)
    }
}

/// A file name without its extension. A dot at the beginning begins no extension.
pub open spec fn stem_of(name: Seq<char>) -> Seq<char> {
    match last_dot(name, name.len() as int) {
        Some(i) => if i == 0 {
            name
        } else {
            name.take(i)
        },
        None => name,
    }
}

/// The name of the file beside an image that holds its XMP: the image's name with the extension
/// `xmp` in place of its own.
pub fn sidecar_path(file_name: &str) -> (s: String)
    ensures
        s@ == stem_of(file_name@) + ".xmp"@,
{
    let cs: Vec<char> = text::chars_of(file_name);
    let mut n: usize = cs.len();
    while n > 0 && cs[n - 1] != '.'
        invariant
            cs@ == file_name@,
            n <= cs.len(),
            last_dot(file_name@, file_name@.len() as int) == last_dot(file_name@, n as int),
        decreases n,
    {
        n -= 1;
    }
    let stem: String = if n > 1 {
        assert(cs@.subrange(0, n - 1) =~= file_name@.take(n - 1));
        text::text_of(&cs.as_slice()[0..n - 1])
    } else {
        text::copy_text(file_name)
    };
    stem.concat(".xmp")
}

/// The names under which the file beside an image is looked for: with the extension `xmp` in
/// place of its own, then behind its own.
pub fn sidecar_candidates(file_name: &str) -> (r: (String, String))
    ensures
        r.0@ == stem_of(file_name@) + ".xmp"@,
        r.1@ == file_name@ + ".xmp"@,
{
    (sidecar_path(file_name), text::copy_text(file_name).concat(".xmp"))
}

/// A packet that was stored can be read back. A PNG chunk holds less than 4 GiB.
pub proof fn stored_packet_reads_back(b: Seq<u8>, packet: Seq<u8>)
    requires
        stored(b, packet) is Ok,
        packet.len() + 22 < 0x1_0000_0000,
    ensures
        packet_of(stored(b, packet)->Ok_0) == Some(packet),
{
    if jpeg::is_jpeg_bytes(b) {
        jpeg::read_back_segment(b, APP1, xmp_signature(), packet);
    } else {
        png::read_back_xmp(b, packet);
        png::lemma_png_is_no_jpeg(png::with_xmp(b, packet));
    }
}

/// The packet that was stored last is the one that counts: what was stored before leaves no
/// trace.
pub proof fn last_packet_wins(b: Seq<u8>, first: Seq<u8>, second: Seq<u8>)
    requires
        stored(b, first) is Ok,
        stored(b, second) is Ok,
        first.len() + 22 < 0x1_0000_0000,
        second.len() + 22 < 0x1_0000_0000,
    ensures
        stored(stored(b, first)->Ok_0, second) == stored(b, second),
{
    if jpeg::is_jpeg_bytes(b) {
        jpeg::read_back_segment(b, APP1, xmp_signature(), first);
        jpeg::last_segment_write_wins(b, APP1, xmp_signature(), first, second);
    } else {
        png::read_back_xmp(b, first);
        png::lemma_png_is_no_jpeg(png::with_xmp(b, first));
        png::last_xmp_write_wins(b, first, second);
    }
}

/// Removing the packet after it was stored is the same as removing the one that was there.
pub proof fn removal_forgets_packet(b: Seq<u8>, packet: Seq<u8>)
    requires
        stored(b, packet) is Ok,
        packet.len() + 22 < 0x1_0000_0000,
    ensures
        cleared(stored(b, packet)->Ok_0) == cleared(b),
{
    if jpeg::is_jpeg_bytes(b) {
        jpeg::read_back_segment(b, APP1, xmp_signature(), packet);
        jpeg::remove_forgets_segment_write(b, APP1, xmp_signature(), packet);
    } else {
        png::read_back_xmp(b, packet);
        png::lemma_png_is_no_jpeg(png::with_xmp(b, packet));
        png::remove_forgets_xmp_write(b, packet);
    }
}

/// Removing a packet that is not there changes nothing.
pub proof fn removal_of_nothing(b: Seq<u8>)
    requires
        packet_of(b) is None,
    ensures
        cleared(b) == b,
{
    if jpeg::is_jpeg_bytes(b) {
        jpeg::removal_of_nothing(b, APP1, xmp_signature());
    } else {
        png::lemma_found_holds(b);
    }
}

/// Storing a packet leaves the picture itself as it was, byte for byte.
pub proof fn stored_packet_keeps_picture(b: Seq<u8>, packet: Seq<u8>)
    requires
        stored(b, packet) is Ok,
        packet.len() + 22 < 0x1_0000_0000,
    ensures
        jpeg::is_jpeg_bytes(b) ==> jpeg::picture_of(stored(b, packet)->Ok_0) == jpeg::picture_of(b),
        !jpeg::is_jpeg_bytes(b) ==> png::pixels_of(stored(b, packet)->Ok_0) == png::pixels_of(b),
{
    if jpeg::is_jpeg_bytes(b) {
        jpeg::write_keeps_picture(b, APP1, xmp_signature(), packet);
    } else {
        png::write_keeps_pixels(b, packet);
    }
}

/// In a JPEG whose first APP1 segment, which is that of EXIF, stands before the place of XMP, it
/// stays the first, where it was and as it was, when a packet is stored.
pub proof fn exif_stays_first(b: Seq<u8>, packet: Seq<u8>)
    requires
        jpeg::is_jpeg_bytes(b),
        stored(b, packet) is Ok,
        jpeg::segment_of(b, APP1, Seq::empty()) is Some,
        jpeg::segment_of(b, APP1, Seq::empty())->0 < jpeg::place_start(b, APP1, xmp_signature()),
    ensures
        jpeg::segment_of(stored(b, packet)->Ok_0, APP1, Seq::empty()) == jpeg::segment_of(
            b,
            APP1,
            Seq::empty(),
        ),
        jpeg::segment_body(stored(b, packet)->Ok_0, APP1, Seq::empty()) == jpeg::segment_body(
            b,
            APP1,
            Seq::empty(),
        ),
{
    jpeg::earlier_segment_is_kept(b, APP1, xmp_signature(), packet, APP1, Seq::empty());
}

/// XMP and IPTC do not disturb each other in a JPEG, nor EXIF: writing one leaves the others as
/// they were.
pub proof fn xmp_and_iptc_leave_the_others(b: Seq<u8>, packet: Seq<u8>, blocks: Seq<iptc::IrbView>)
    requires
        jpeg::is_jpeg_bytes(b),
        packet_fits(packet.len() as int),
        iptc::blocks_fit(blocks),
    ensures
        ({
            let c = jpeg::with_segment(b, APP1, xmp_signature(), packet);
            let d = iptc::with_blocks(b, blocks);
            let (marker, sig) = (jpeg::EXIF_MARKER, jpeg::exif_signature());
            &&& iptc::datasets_of(c) == iptc::datasets_of(b)
            &&& jpeg::segment_body(c, marker, sig) == jpeg::segment_body(b, marker, sig)
            &&& packet_of(d) == packet_of(b)
            &&& jpeg::segment_body(d, marker, sig) == jpeg::segment_body(b, marker, sig)
        }),
{
    let (marker, sig) = (jpeg::EXIF_MARKER, jpeg::exif_signature());
    let stream = iptc::irb_stream(blocks);
    assert(xmp_signature()[0] != sig[0]);
    jpeg::other_segments_are_kept(b, APP1, xmp_signature(), packet, iptc::APP13, iptc::ps_signature());
    jpeg::other_segments_are_kept(b, APP1, xmp_signature(), packet, marker, sig);
    jpeg::other_segments_are_kept(b, iptc::APP13, iptc::ps_signature(), stream, APP1, xmp_signature());
    jpeg::other_segments_are_kept(b, iptc::APP13, iptc::ps_signature(), stream, marker, sig);
    jpeg::read_back_segment(b, iptc::APP13, iptc::ps_signature(), stream);
}

} // verus!
