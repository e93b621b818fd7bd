//! What an edit of a packet comes to for whoever reads it: properties that the edit does not name
//! are as they were, those it sets show their new values, and those it removes are gone.

use vstd::prelude::*;
use vstd::string::*;
use crate::iptc;
use crate::pieces;
use crate::text;
use crate::xml;
use crate::xml::PieceView;
use crate::xmp;
use crate::xmp::{EditView, ValueView};
use crate::xmpedits;
use crate::xmplaws;

verus! {

// ---- what an edit comes to --------------------------------------------------------------

/// Whether no property is set twice.
pub open spec fn sets_distinct(sets: Seq<(Seq<char>, ValueView)>) -> bool {
    forall|i: int, j: int| 0 <= i < j < sets.len() ==> (#[trigger] sets[i]).0 != (#[trigger] sets[j]).0
}

/// Whether every property that an edit names shows what it was set to; one that is removed is
/// not there.
pub open spec fn as_edited(props: iptc::Properties, edit: EditView) -> bool {
    forall|k: int|
        0 <= k < props.len() && edit.manages((#[trigger] props[k]).0) ==> (xmp::set_from(edit.sets, 0, props[k].0)
            matches Some(i) && props[k].1 == xmplaws::shown_value(edit.sets[i].1))
}

/// Whether every property that an edit sets is there.
pub open spec fn all_there(props: iptc::Properties, edit: EditView) -> bool {
    forall|i: int|
        0 <= i < edit.sets.len() ==> props.contains(
            ((#[trigger] edit.sets[i]).0, xmplaws::shown_value(edit.sets[i].1)),
        )
}

proof fn lemma_set_first(sets: Seq<(Seq<char>, ValueView)>, from: int, i: int)
    requires
        sets_distinct(sets),
        0 <= from <= i < sets.len(),
    ensures
        xmp::set_from(sets, from, sets[i].0) == Some(i),
    decreases i - from,
{
    if from < i {
        assert(sets[from].0 != sets[i].0);
        lemma_set_first(sets, from + 1, i);
    }
}

proof fn lemma_some_set(sets: Seq<(Seq<char>, ValueView)>, from: int, i: int)
    requires
        0 <= from <= i < sets.len(),
    ensures
        xmp::set_from(sets, from, sets[i].0) is Some,
    decreases i - from,
{
    if from < i && sets[from].0 != sets[i].0 {
        lemma_some_set(sets, from + 1, i);
    }
}

// ---- properties that are not named ------------------------------------------------------

proof fn lemma_unnamed_parts(a: iptc::Properties, b: iptc::Properties, edit: EditView)
    ensures
        xmpedits::unnamed(a + b, edit) == xmpedits::unnamed(a, edit) + xmpedits::unnamed(b, edit),
    decreases b.len(),
{
    let left = xmpedits::unnamed(a, edit);
    if b.len() == 0 {
        assert(a + b =~= a);
        assert(left + xmpedits::unnamed(b, edit) =~= left);
    } else {
        lemma_unnamed_parts(a, b.drop_last(), edit);
        assert((a + b).drop_last() =~= a + b.drop_last());
        assert((a + b).last() == b.last());
        let right = xmpedits::unnamed(b.drop_last(), edit);
        assert((left + right).push(b.last()) =~= left + right.push(b.last()));
    }
}

proof fn lemma_unnamed_one(p: (Seq<char>, Seq<char>), edit: EditView)
    ensures
        xmpedits::unnamed(seq![p], edit) == if edit.manages(p.0) {
            Seq::<(Seq<char>, Seq<char>)>::empty()
        } else {
            seq![p]
        },
{
    let one = seq![p];
    let none = Seq::<(Seq<char>, Seq<char>)>::empty();
    assert(one.drop_last() =~= none);
    assert(xmpedits::unnamed(one.drop_last(), edit) =~= none);
    assert(one.last() == p);
    assert(none.push(p) =~= one);
}

proof fn lemma_unnamed_twice(props: iptc::Properties, edit: EditView)
    ensures
        xmpedits::unnamed(xmpedits::unnamed(props, edit), edit) == xmpedits::unnamed(props, edit),
        forall|k: int|
            0 <= k < xmpedits::unnamed(props, edit).len() ==> !edit.manages(
                (#[trigger] xmpedits::unnamed(props, edit)[k]).0,
            ),
    decreases props.len(),
{
    if props.len() > 0 {
        lemma_unnamed_twice(props.drop_last(), edit);
        let front = xmpedits::unnamed(props.drop_last(), edit);
        assert(front.push(props.last()).drop_last() =~= front);
    }
}

proof fn lemma_anew_named(name: Seq<char>, edit: EditView)
    requires
        edit.manages(name),
    ensures
        xmpedits::unnamed(xmpedits::set_anew(name, edit), edit) == Seq::<(Seq<char>, Seq<char>)>::empty(),
{
    match xmp::set_from(edit.sets, 0, name) {
        Some(i) => {
            lemma_unnamed_one((name, xmplaws::shown_value(edit.sets[i].1)), edit);
        },
        None => {},
    }
}

proof fn lemma_unnamed_replaced(props: iptc::Properties, edit: EditView)
    ensures
        xmpedits::unnamed(xmpedits::replaced(props, edit), edit) == xmpedits::unnamed(props, edit),
    decreases props.len(),
{
    if props.len() > 0 {
        let rest = props.drop_first();
        lemma_unnamed_replaced(rest, edit);
        let one = seq![props[0]];
        assert(props =~= one + rest);
        lemma_unnamed_parts(one, rest, edit);
        lemma_unnamed_one(props[0], edit);
        let head = if edit.manages(props[0].0) {
            xmpedits::set_anew(props[0].0, edit)
        } else {
            one
        };
        if edit.manages(props[0].0) {
            lemma_anew_named(props[0].0, edit);
        }
        lemma_unnamed_parts(head, xmpedits::replaced(rest, edit), edit);
    }
}

proof fn lemma_unnamed_added(sets: Seq<(Seq<char>, ValueView)>, edit: EditView, done: Seq<Seq<char>>)
    requires
        forall|i: int| 0 <= i < sets.len() ==> edit.manages((#[trigger] sets[i]).0),
    ensures
        xmpedits::unnamed(xmpedits::added(sets, edit, done), edit) == Seq::<(Seq<char>, Seq<char>)>::empty(),
    decreases sets.len(),
{
    if sets.len() > 0 {
        let front = sets.drop_last();
        assert forall|i: int| 0 <= i < front.len() implies edit.manages((#[trigger] front[i]).0) by {
            assert(front[i] == sets[i]);
        }
        lemma_unnamed_added(front, edit, done);
        assert(edit.manages(sets[sets.len() - 1].0));
        lemma_anew_named(sets.last().0, edit);
        lemma_unnamed_parts(xmpedits::added(front, edit, done), xmpedits::set_anew(sets.last().0, edit), edit);
        assert(Seq::<(Seq<char>, Seq<char>)>::empty() + Seq::<(Seq<char>, Seq<char>)>::empty()
            =~= Seq::<(Seq<char>, Seq<char>)>::empty());
    }
}

proof fn lemma_sets_managed(edit: EditView)
    ensures
        forall|i: int| 0 <= i < edit.sets.len() ==> edit.manages((#[trigger] edit.sets[i]).0),
{
    assert forall|i: int| 0 <= i < edit.sets.len() implies edit.manages((#[trigger] edit.sets[i]).0) by {
        lemma_some_set(edit.sets, 0, i);
    }
}

// ---- properties that are named ----------------------------------------------------------

proof fn lemma_edited_parts(a: iptc::Properties, b: iptc::Properties, edit: EditView)
    requires
        as_edited(a, edit),
        as_edited(b, edit),
    ensures
        as_edited(a + b, edit),
{
    let c = a + b;
    assert forall|k: int| 0 <= k < c.len() && edit.manages((#[trigger] c[k]).0) implies (xmp::set_from(
        edit.sets,
        0,
        c[k].0,
    ) matches Some(i) && c[k].1 == xmplaws::shown_value(edit.sets[i].1)) by {
        if k < a.len() {
            assert(c[k] == a[k]);
        } else {
            assert(c[k] == b[k - a.len()]);
        }
    }
}

proof fn lemma_anew_edited(name: Seq<char>, edit: EditView)
    ensures
        as_edited(xmpedits::set_anew(name, edit), edit),
{
}

proof fn lemma_replaced_edited(props: iptc::Properties, edit: EditView)
    ensures
        as_edited(xmpedits::replaced(props, edit), edit),
        forall|k: int|
            0 <= k < props.len() && (xmp::set_from(edit.sets, 0, (#[trigger] props[k]).0) is Some)
                ==> xmpedits::replaced(props, edit).contains(
                (
                    props[k].0,
                    xmplaws::shown_value(edit.sets[xmp::set_from(edit.sets, 0, props[k].0)->0].1),
                ),
            ),
    decreases props.len(),
{
    if props.len() > 0 {
        let rest = props.drop_first();
        lemma_replaced_edited(rest, edit);
        let head = if edit.manages(props[0].0) {
            xmpedits::set_anew(props[0].0, edit)
        } else {
            seq![props[0]]
        };
        lemma_anew_edited(props[0].0, edit);
        assert(as_edited(head, edit));
        let tail = xmpedits::replaced(rest, edit);
        lemma_edited_parts(head, tail, edit);
        assert forall|k: int|
            0 <= k < props.len() && (xmp::set_from(edit.sets, 0, (#[trigger] props[k]).0) is Some) implies (head
            + tail).contains(
            (props[k].0, xmplaws::shown_value(edit.sets[xmp::set_from(edit.sets, 0, props[k].0)->0].1)),
        ) by {
            let wanted = (
                props[k].0,
                xmplaws::shown_value(edit.sets[xmp::set_from(edit.sets, 0, props[k].0)->0].1),
            );
            if k == 0 {
                assert(head[0] == wanted);
                assert((head + tail)[0] == wanted);
            } else {
                assert(rest[k - 1] == props[k]);
                assert(tail.contains(wanted));
                let m = choose|m: int| 0 <= m < tail.len() && tail[m] == wanted;
                assert((head + tail)[head.len() + m] == wanted);
            }
        }
    }
}

proof fn lemma_added_edited(sets: Seq<(Seq<char>, ValueView)>, edit: EditView, done: Seq<Seq<char>>)
    ensures
        as_edited(xmpedits::added(sets, edit, done), edit),
        forall|k: int|
            0 <= k < sets.len() && !done.contains((#[trigger] sets[k]).0) && (xmp::set_from(
                edit.sets,
                0,
                sets[k].0,
            ) is Some) ==> xmpedits::added(sets, edit, done).contains(
                (sets[k].0, xmplaws::shown_value(edit.sets[xmp::set_from(edit.sets, 0, sets[k].0)->0].1)),
            ),
    decreases sets.len(),
{
    if sets.len() > 0 {
        let front = sets.drop_last();
        lemma_added_edited(front, edit, done);
        let head = xmpedits::added(front, edit, done);
        let name = sets.last().0;
        let tail = if done.contains(name) {
            Seq::<(Seq<char>, Seq<char>)>::empty()
        } else {
            xmpedits::set_anew(name, edit)
        };
        let all = xmpedits::added(sets, edit, done);
        assert(all =~= head + tail);
        lemma_anew_edited(name, edit);
        lemma_edited_parts(head, tail, edit);
        assert forall|k: int|
            0 <= k < sets.len() && !done.contains((#[trigger] sets[k]).0) && (xmp::set_from(
                edit.sets,
                0,
                sets[k].0,
            ) is Some) implies all.contains(
            (sets[k].0, xmplaws::shown_value(edit.sets[xmp::set_from(edit.sets, 0, sets[k].0)->0].1)),
        ) by {
            let wanted = (
                sets[k].0,
                xmplaws::shown_value(edit.sets[xmp::set_from(edit.sets, 0, sets[k].0)->0].1),
            );
            if k < front.len() {
                assert(front[k] == sets[k]);
                assert(head.contains(wanted));
                let m = choose|m: int| 0 <= m < head.len() && head[m] == wanted;
                assert(all[m] == wanted);
            } else {
                assert(tail[0] == wanted);
                assert(all[head.len() as int] == wanted);
            }
        }
    }
}

/// What was met among properties is one of them.
proof fn lemma_met(props: iptc::Properties, edit: EditView, done: Seq<Seq<char>>, name: Seq<char>)
    requires
        xmpedits::met(props, edit, done).contains(name),
    ensures
        done.contains(name) || exists|k: int| 0 <= k < props.len() && (#[trigger] props[k]).0 == name,
    decreases props.len(),
{
    if props.len() > 0 {
        let rest = props.drop_first();
        let next = if edit.manages(props[0].0) {
            xmp::remembered(done, props[0].0)
        } else {
            done
        };
        lemma_met(rest, edit, next, name);
        if next.contains(name) {
            if !done.contains(name) {
                assert(props[0].0 == name);
            }
        } else {
            let k = choose|k: int| 0 <= k < rest.len() && (#[trigger] rest[k]).0 == name;
            assert(props[k + 1] == rest[k]);
        }
    }
}

proof fn lemma_contains_part(a: iptc::Properties, b: iptc::Properties, c: iptc::Properties, p: (Seq<char>, Seq<char>))
    requires
        b.contains(p),
    ensures
        (a + b + c).contains(p),
{
    let m = choose|m: int| 0 <= m < b.len() && b[m] == p;
    assert((a + b + c)[a.len() + m] == p);
}

/// The properties inside a description after an edit: all that are set are there.
proof fn lemma_inside_there(inside: iptc::Properties, edit: EditView)
    requires
        sets_distinct(edit.sets),
    ensures
        ({
            let done = xmpedits::met(inside, edit, Seq::empty());
            let props = xmpedits::replaced(inside, edit) + xmpedits::added(edit.sets, edit, done);
            as_edited(props, edit) && all_there(props, edit)
        }),
{
    let done = xmpedits::met(inside, edit, Seq::empty());
    let a = xmpedits::replaced(inside, edit);
    let b = xmpedits::added(edit.sets, edit, done);
    lemma_replaced_edited(inside, edit);
    lemma_added_edited(edit.sets, edit, done);
    lemma_edited_parts(a, b, edit);
    let props = a + b;
    assert forall|i: int| 0 <= i < edit.sets.len() implies props.contains(
        ((#[trigger] edit.sets[i]).0, xmplaws::shown_value(edit.sets[i].1)),
    ) by {
        let name = edit.sets[i].0;
        let wanted = (name, xmplaws::shown_value(edit.sets[i].1));
        lemma_set_first(edit.sets, 0, i);
        if done.contains(name) {
            lemma_met(inside, edit, Seq::empty(), name);
            let k = choose|k: int| 0 <= k < inside.len() && (#[trigger] inside[k]).0 == name;
            assert(a.contains((inside[k].0, xmplaws::shown_value(edit.sets[i].1))));
            let m = choose|m: int| 0 <= m < a.len() && a[m] == wanted;
            assert(props[m] == wanted);
        } else {
            assert(b.contains(wanted));
            let m = choose|m: int| 0 <= m < b.len() && b[m] == wanted;
            assert(props[a.len() + m] == wanted);
        }
    }
}

// ---- packets ----------------------------------------------------------------------------

/// What stands between the angle brackets of a tag that opens an element.
pub open spec fn tag_inside(p: PieceView) -> Seq<char> {
    match p {
        PieceView::Open(c) => c,
        PieceView::SelfClosed(c) => c,
        _ => Seq::empty(),
    }
}

/// Whether the attributes of a tag are names, each once, with values.
pub open spec fn listed(content: Seq<char>) -> bool {
    exists|list: Seq<(Seq<char>, Seq<char>)>|
        pieces::known_attributes(content) == #[trigger] xml::as_attributes(list) && xml::attributes_ok(list)
            && pieces::keys_plain(list)
}

/// Where the description that begins at `i` ends.
pub open spec fn description_end(v: Seq<PieceView>, i: int) -> int {
    match v[i] {
        PieceView::Open(_) => xmp::end_of_element(pieces::plain_events(v), i + 1, "rdf:Description"@, 0)->Ok_0,
        _ => i + 1,
    }
}

/// Whether these are the pieces of a packet whose first description begins at `i`, with attributes
/// that are names and values, and with no description for a property.
pub open spec fn described(v: Seq<PieceView>, i: int) -> bool {
    &&& xml::well_formed(v)
    &&& 0 <= i < v.len()
    &&& pieces::begins_description(v[i])
    &&& forall|k: int| 0 <= k < i ==> !pieces::begins_description(#[trigger] v[k])
    &&& listed(tag_inside(v[i]))
    &&& v[i] is Open ==> pieces::without_descriptions(v.subrange(i + 1, description_end(v, i) - 1))
}

/// Whether there is no description behind the one that begins at `i`.
pub open spec fn described_once(v: Seq<PieceView>, i: int) -> bool {
    forall|k: int| description_end(v, i) <= k < v.len() ==> !pieces::begins_description(#[trigger] v[k])
}

proof fn lemma_occurs(s: Seq<char>, from: int, at: int, pattern: Seq<char>)
    requires
        0 <= from <= at,
        text::occurs_at(s, at, pattern),
    ensures
        text::find_from(s, from, pattern) is Some,
    decreases at - from,
{
    if from < at && !text::occurs_at(s, from, pattern) {
        lemma_occurs(s, from + 1, at, pattern);
    }
}

proof fn lemma_word_front(s: Seq<char>, i: int)
    requires
        0 <= i <= s.len(),
    ensures
        i <= xml::word_end(s, i) <= s.len(),
    decreases s.len() - i,
{
    if i < s.len() {
        lemma_word_front(s, i + 1);
    }
}

/// A packet with a description holds the word by which it is known.
pub proof fn lemma_word_there(packet: Seq<char>, v: Seq<PieceView>, i: int)
    requires
        xml::without_mark(packet) == xml::pieces_text(v),
        0 <= i < v.len(),
        pieces::begins_description(v[i]),
    ensures
        text::contains_text(packet, "rdf:Description"@),
{
    let word = "rdf:Description"@;
    let c = tag_inside(v[i]);
    let front = v.take(i);
    let back = v.skip(i + 1);
    assert(v =~= front + (seq![v[i]] + back));
    pieces::lemma_text_parts(front, seq![v[i]] + back);
    pieces::lemma_text_parts(seq![v[i]], back);
    pieces::lemma_one_text(v[i]);
    reveal_strlit("<");
    lemma_word_front(c, 0);
    let n = xml::word_end(c, 0);
    let all = xml::pieces_text(v);
    let at = xml::pieces_text(front).len() as int + 1;
    assert(all.subrange(at, at + n) =~= c.take(n));
    let shift = packet.len() - all.len();
    assert(packet.subrange(at + shift, at + shift + n) =~= all.subrange(at, at + n));
    lemma_occurs(packet, 0, at + shift, word);
}

/// What an edit of a packet gives: pieces that can be read, with the properties that it does not
/// name as they were, and, where there is no further description, with those that it sets and
/// without those that it removes.
#[verifier::spinoff_prover]
proof fn lemma_packet(v: Seq<PieceView>, i: int, edit: EditView) -> (out: Seq<PieceView>)
    requires
        described(v, i),
        xmplaws::names_fit(edit.sets),
        xmp::description_known(pieces::plain_events(v), 0),
    ensures
        xmp::edited_events(pieces::plain_events(v), edit) == Ok::<Seq<char>, xmp::ErrorView>(xml::pieces_text(out)),
        xml::well_formed(out),
        xmpedits::unnamed(pieces::plain_properties(out), edit) == xmpedits::unnamed(
            pieces::plain_properties(v),
            edit,
        ),
        sets_distinct(edit.sets) && described_once(v, i) ==> as_edited(pieces::plain_properties(out), edit)
            && all_there(pieces::plain_properties(out), edit),
{
    let content = tag_inside(v[i]);
    let list = choose|list: Seq<(Seq<char>, Seq<char>)>|
        pieces::known_attributes(content) == #[trigger] xml::as_attributes(list) && xml::attributes_ok(list)
            && pieces::keys_plain(list);
    let end = description_end(v, i);
    let pre = v.take(i);
    assert forall|k: int| 0 <= k < pre.len() implies !pieces::begins_description(#[trigger] pre[k]) by {
        assert(pre[k] == v[k]);
    }
    if v[i] is Open {
        pieces::lemma_element(v, i);
    }
    let post = v.skip(end);
    let attributes = xmp::attribute_properties(xml::as_attributes(list));
    let behind = pieces::properties_in(post, 0, false, 0);
    if described_once(v, i) {
        assert forall|k: int| 0 <= k < post.len() implies !pieces::begins_description(#[trigger] post[k]) by {
            assert(post[k] == v[end + k]);
        }
        pieces::lemma_outside(post, 0, post.len() as int, 0);
        pieces::lemma_in_end(post, post.len() as int, false, 0);
    }
    lemma_unnamed_twice(attributes, edit);
    lemma_sets_managed(edit);
    assert(as_edited(xmpedits::unnamed(attributes, edit), edit));
    match v[i] {
        PieceView::Open(c) => {
            let w = v.subrange(i + 1, end - 1);
            assert(v =~= pre + pieces::element_of(c, w) + post);
            let out = xmpedits::edit_keeps_the_rest(pre, c, w, post, list, edit);
            let inside = pieces::properties_in(w, 0, true, 0);
            lemma_sums(attributes, inside, behind, edit, xmpedits::met(inside, edit, Seq::empty()));
            if sets_distinct(edit.sets) && described_once(v, i) {
                lemma_inside_there(inside, edit);
                lemma_whole(attributes, inside, behind, edit);
            }
            out
        },
        _ => {
            assert(v =~= pre + seq![PieceView::SelfClosed(content)] + post);
            let out = xmpedits::edit_fills_the_description(pre, content, post, list, edit);
            let none = Seq::<(Seq<char>, Seq<char>)>::empty();
            assert(xmpedits::replaced(none, edit) =~= none);
            assert(xmpedits::met(none, edit, Seq::empty()) == Seq::<Seq<char>>::empty());
            let fresh = xmpedits::added(edit.sets, edit, Seq::empty());
            assert(none + fresh =~= fresh);
            assert(attributes + none =~= attributes);
            lemma_sums(attributes, none, behind, edit, Seq::empty());
            if sets_distinct(edit.sets) && described_once(v, i) {
                lemma_inside_there(none, edit);
                lemma_whole(attributes, none, behind, edit);
            }
            out
        },
    }
}

/// The properties that an edit does not name, of everything that it makes.
proof fn lemma_sums(
    attributes: iptc::Properties,
    inside: iptc::Properties,
    behind: iptc::Properties,
    edit: EditView,
    done: Seq<Seq<char>>,
)
    ensures
        xmpedits::unnamed(
            xmpedits::unnamed(attributes, edit) + (xmpedits::replaced(inside, edit) + xmpedits::added(
                edit.sets,
                edit,
                done,
            )) + behind,
            edit,
        ) == xmpedits::unnamed(attributes + inside + behind, edit),
{
    let a = xmpedits::unnamed(attributes, edit);
    let r = xmpedits::replaced(inside, edit);
    let n = xmpedits::added(edit.sets, edit, done);
    lemma_unnamed_twice(attributes, edit);
    lemma_unnamed_replaced(inside, edit);
    lemma_sets_managed(edit);
    lemma_unnamed_added(edit.sets, edit, done);
    lemma_unnamed_parts(r, n, edit);
    lemma_unnamed_parts(a, r + n, edit);
    lemma_unnamed_parts(a + (r + n), behind, edit);
    lemma_unnamed_parts(attributes, inside, edit);
    lemma_unnamed_parts(attributes + inside, behind, edit);
    let plain = xmpedits::unnamed(inside, edit);
    assert(plain + Seq::<(Seq<char>, Seq<char>)>::empty() =~= plain);
}

proof fn lemma_whole(
    attributes: iptc::Properties,
    inside: iptc::Properties,
    behind: iptc::Properties,
    edit: EditView,
)
    requires
        behind.len() == 0,
        ({
            let done = xmpedits::met(inside, edit, Seq::empty());
            let props = xmpedits::replaced(inside, edit) + xmpedits::added(edit.sets, edit, done);
            as_edited(props, edit) && all_there(props, edit)
        }),
    ensures
        ({
            let done = xmpedits::met(inside, edit, Seq::empty());
            let props = xmpedits::unnamed(attributes, edit) + (xmpedits::replaced(inside, edit) + xmpedits::added(
                edit.sets,
                edit,
                done,
            )) + behind;
            as_edited(props, edit) && all_there(props, edit)
        }),
{
    let done = xmpedits::met(inside, edit, Seq::empty());
    let a = xmpedits::unnamed(attributes, edit);
    let b = xmpedits::replaced(inside, edit) + xmpedits::added(edit.sets, edit, done);
    lemma_unnamed_twice(attributes, edit);
    lemma_edited_parts(a, b, edit);
    lemma_edited_parts(a + b, behind, edit);
    let props = a + b + behind;
    assert forall|i: int| 0 <= i < edit.sets.len() implies props.contains(
        ((#[trigger] edit.sets[i]).0, xmplaws::shown_value(edit.sets[i].1)),
    ) by {
        lemma_contains_part(a, b, behind, (edit.sets[i].0, xmplaws::shown_value(edit.sets[i].1)));
    }
}

/// Whether a text is what an edit should make of a packet with the pieces `v`: it can be read, the
/// properties that the edit does not name are as they were, and, where the description at `i` is the
/// only one and no property is set twice, those that it names are as it says.
pub open spec fn takes_effect(v: Seq<PieceView>, i: int, edit: EditView, text: Seq<char>) -> bool {
    exists|o: Seq<PieceView>|
        xml::well_formed(o) && text == #[trigger] xml::pieces_text(o) && xmpedits::unnamed(
            pieces::plain_properties(o),
            edit,
        ) == xmpedits::unnamed(pieces::plain_properties(v), edit) && (sets_distinct(edit.sets) && described_once(
            v,
            i,
        ) ==> as_edited(pieces::plain_properties(o), edit) && all_there(pieces::plain_properties(o), edit))
}

/// What `xmp::apply` gives for a packet takes effect.
pub proof fn lemma_takes_effect(packet: Seq<char>, v: Seq<PieceView>, i: int, edit: EditView, text: Seq<char>)
    requires
        xml::without_mark(packet) == xml::pieces_text(v),
        described(v, i),
        xmp::description_known(pieces::plain_events(v), 0),
        xmplaws::names_fit(edit.sets),
        xmp::edited_events(pieces::plain_events(v), edit) == Ok::<Seq<char>, xmp::ErrorView>(text),
    ensures
        takes_effect(v, i, edit, text),
{
    let out = lemma_packet(v, i, edit);
    assert(text == xml::pieces_text(out));
}

/// Editing a packet leaves every property that the edit does not name as it was, in its order. The
/// outcome of `xmp::apply` on the packet is the text of `out`, which `xmp::read_properties` reads
/// as its `plain_properties`, as it reads the packet as those of `v`. That the attributes of the
/// description are read as they were written (`description_known`) is promised by `xmp::apply`.
pub proof fn edited_packet_keeps_others(packet: Seq<char>, v: Seq<PieceView>, i: int, edit: EditView) -> (out: Seq<
    PieceView,
>)
    requires
        xml::without_mark(packet) == xml::pieces_text(v),
        described(v, i),
        xmp::description_known(pieces::plain_events(v), 0),
        xmplaws::names_fit(edit.sets),
    ensures
        text::contains_text(packet, "rdf:Description"@),
        xmp::edited_events(pieces::plain_events(v), edit) == Ok::<Seq<char>, xmp::ErrorView>(xml::pieces_text(out)),
        xml::well_formed(out),
        xmpedits::unnamed(pieces::plain_properties(out), edit) == xmpedits::unnamed(
            pieces::plain_properties(v),
            edit,
        ),
{
    lemma_word_there(packet, v, i);
    lemma_packet(v, i, edit)
}

/// Editing a packet that has one description sets what the edit sets and takes out what it
/// removes: each property that is set is there, every property of its name shows the value it was
/// set to, and one that is removed and not set is not there.
pub proof fn edited_packet_shows_the_edit(packet: Seq<char>, v: Seq<PieceView>, i: int, edit: EditView) -> (out: Seq<
    PieceView,
>)
    requires
        xml::without_mark(packet) == xml::pieces_text(v),
        described(v, i),
        described_once(v, i),
        xmp::description_known(pieces::plain_events(v), 0),
        xmplaws::names_fit(edit.sets),
        sets_distinct(edit.sets),
    ensures
        text::contains_text(packet, "rdf:Description"@),
        xmp::edited_events(pieces::plain_events(v), edit) == Ok::<Seq<char>, xmp::ErrorView>(xml::pieces_text(out)),
        xml::well_formed(out),
        as_edited(pieces::plain_properties(out), edit),
        all_there(pieces::plain_properties(out), edit),
{
    lemma_word_there(packet, v, i);
    lemma_packet(v, i, edit)
}

/// The same of a packet that is made anew.
pub proof fn fresh_packet_shows_the_edit(edit: EditView)
    requires
        xmplaws::names_fit(edit.sets),
        sets_distinct(edit.sets),
    ensures
        xml::well_formed(xmplaws::fresh_pieces(edit)),
        xml::without_mark(xmp::fresh_packet(edit)) == xml::pieces_text(xmplaws::fresh_pieces(edit)),
        as_edited(pieces::plain_properties(xmplaws::fresh_pieces(edit)), edit),
        all_there(pieces::plain_properties(xmplaws::fresh_pieces(edit)), edit),
{
    xmplaws::fresh_packet_reads_back(edit);
    let props = xmplaws::shown_sets(edit.sets);
    assert forall|k: int| 0 <= k < props.len() && edit.manages((#[trigger] props[k]).0) implies (xmp::set_from(
        edit.sets,
        0,
        props[k].0,
    ) matches Some(i) && props[k].1 == xmplaws::shown_value(edit.sets[i].1)) by {
        lemma_set_first(edit.sets, 0, k);
    }
    assert forall|i: int| 0 <= i < edit.sets.len() implies props.contains(
        ((#[trigger] edit.sets[i]).0, xmplaws::shown_value(edit.sets[i].1)),
    ) by {
        assert(props[i] == (edit.sets[i].0, xmplaws::shown_value(edit.sets[i].1)));
    }
}

} // verus!
