//! What an edit does to the properties of a packet: those it names are set or taken out, all
//! others stay.

use vstd::prelude::*;
use crate::iptc;
use crate::pieces;
use crate::text;
use crate::xml;
use crate::xml::PieceView;
use crate::xmp;
use crate::xmp::{EditView, Progress, ValueView};
use crate::xmplaws;

verus! {

// ---- what an edit makes of properties ---------------------------------------------------

/// What an edit puts in the place of a property it names: the property with its new value, or
/// nothing.
pub open spec fn set_anew(name: Seq<char>, edit: EditView) -> iptc::Properties {
    match xmp::set_from(edit.sets, 0, name) {
        Some(i) => seq![(name, xmplaws::shown_value(edit.sets[i].1))],
        None => Seq::empty(),
    }
}

/// Properties after an edit, each in its place.
pub open spec fn replaced(props: iptc::Properties, edit: EditView) -> iptc::Properties
    decreases props.len(),
{
    if props.len() == 0 {
        Seq::empty()
    } else {
        (if edit.manages(props[0].0) {
            set_anew(props[0].0, edit)
        } else {
            seq![props[0]]
        }) + replaced(props.drop_first(), edit)
    }
}

/// `done` with the properties that an edit names and meets among these.
pub open spec fn met(props: iptc::Properties, edit: EditView, done: Seq<Seq<char>>) -> Seq<Seq<char>>
    decreases props.len(),
{
    if props.len() == 0 {
        done
    } else {
        met(
            props.drop_first(),
            edit,
            if edit.manages(props[0].0) {
                xmp::remembered(done, props[0].0)
            } else {
                done
            },
        )
    }
}

/// The properties that are set and are not among `done`.
pub open spec fn added(
    sets: Seq<(Seq<char>, ValueView)>,
    edit: EditView,
    done: Seq<Seq<char>>,
) -> iptc::Properties
    decreases sets.len(),
{
    if sets.len() == 0 {
        Seq::empty()
    } else if done.contains(sets.last().0) {
        added(sets.drop_last(), edit, done)
    } else {
        added(sets.drop_last(), edit, done) + set_anew(sets.last().0, edit)
    }
}

/// The properties that an edit does not name.
pub open spec fn unnamed(props: iptc::Properties, edit: EditView) -> iptc::Properties
    decreases props.len(),
{
    if props.len() == 0 {
        Seq::empty()
    } else if edit.manages(props.last().0) {
        unnamed(props.drop_last(), edit)
    } else {
        unnamed(props.drop_last(), edit).push(props.last())
    }
}

// ---- copying ----------------------------------------------------------------------------

proof fn lemma_first_text(v: Seq<PieceView>, i: int, j: int)
    requires
        0 <= i < j <= v.len(),
    ensures
        xml::pieces_text(v.subrange(i, j)) == xml::piece_text(v[i]) + xml::pieces_text(v.subrange(i + 1, j)),
{
    assert(v.subrange(i, j) =~= seq![v[i]] + v.subrange(i + 1, j));
    pieces::lemma_text_parts(seq![v[i]], v.subrange(i + 1, j));
    pieces::lemma_one_text(v[i]);
}

/// Outside the description an edit copies everything.
proof fn lemma_copied(v: Seq<PieceView>, i: int, j: int, p: Progress, edit: EditView)
    requires
        0 <= i <= j <= v.len(),
        forall|k: int| i <= k < j ==> xml::piece_ok(#[trigger] v[k]),
        p.pending ==> forall|k: int| i <= k < j ==> !pieces::begins_description(#[trigger] v[k]),
        !p.inside,
    ensures
        xmp::edited_from(pieces::plain_events(v), i, p, edit) == xmp::edited_from(
            pieces::plain_events(v),
            j,
            Progress { out: p.out + xml::pieces_text(v.subrange(i, j)), ..p },
            edit,
        ),
    decreases j - i,
{
    if i == j {
        assert(v.subrange(i, j) =~= Seq::empty());
        assert(p.out + xml::pieces_text(v.subrange(i, j)) =~= p.out);
    } else {
        pieces::lemma_event(v, i);
        lemma_first_text(v, i, j);
        assert(xml::piece_ok(v[i]));
        assert(p.pending ==> !pieces::begins_description(v[i]));
        let one = xml::piece_text(v[i]);
        let rest = xml::pieces_text(v.subrange(i + 1, j));
        let q = Progress { out: p.out + one, ..p };
        lemma_copied(v, i + 1, j, q, edit);
        assert(p.out + one + rest =~= p.out + (one + rest));
    }
}

/// Deep inside a property an edit copies everything.
proof fn lemma_copied_deep(
    v: Seq<PieceView>,
    at: int,
    w: Seq<PieceView>,
    k: int,
    end: int,
    p: Progress,
    edit: EditView,
)
    requires
        0 <= at,
        at + w.len() <= v.len(),
        v.subrange(at, at + w.len()) == w,
        xml::well_formed(w),
        0 <= k <= end <= w.len(),
        forall|m: int|
            k <= m < end ==> (#[trigger] xml::open_names(w, m)) is Some && xml::open_names(w, m)->0.len() > 0,
        xml::open_names(w, k) is Some,
        xml::open_names(w, end) is Some,
        p.inside,
        !p.pending,
        p.depth == xml::open_names(w, k)->0.len(),
    ensures
        xmp::edited_from(pieces::plain_events(v), at + k, p, edit) == xmp::edited_from(
            pieces::plain_events(v),
            at + end,
            Progress {
                depth: xml::open_names(w, end)->0.len() as int,
                out: p.out + xml::pieces_text(w.subrange(k, end)),
                ..p
            },
            edit,
        ),
    decreases end - k,
{
    if k == end {
        assert(w.subrange(k, end) =~= Seq::empty());
        assert(p.out + xml::pieces_text(w.subrange(k, end)) =~= p.out);
    } else {
        assert(v.subrange(at, at + w.len())[k] == v[at + k]);
        pieces::lemma_event(v, at + k);
        lemma_first_text(w, k, end);
        assert(xml::piece_ok(w[k]));
        assert(xml::open_names(w, k) is Some && xml::open_names(w, k)->0.len() > 0);
        pieces::lemma_names_before(w, k + 1, w.len() as int);
        let one = xml::piece_text(w[k]);
        let rest = xml::pieces_text(w.subrange(k + 1, end));
        let q = Progress {
            depth: xml::open_names(w, k + 1)->0.len() as int,
            out: p.out + one,
            ..p
        };
        lemma_copied_deep(v, at, w, k + 1, end, q, edit);
        assert(p.out + one + rest =~= p.out + (one + rest));
    }
}

// ---- inside the description -------------------------------------------------------------

proof fn lemma_replaced_parts(a: iptc::Properties, b: iptc::Properties, edit: EditView, done: Seq<Seq<char>>)
    ensures
        replaced(a + b, edit) == replaced(a, edit) + replaced(b, edit),
        met(a + b, edit, done) == met(b, edit, met(a, edit, done)),
    decreases a.len(),
{
    if a.len() == 0 {
        assert(a + b =~= b);
        assert(replaced(a, edit) + replaced(b, edit) =~= replaced(b, edit));
    } else {
        assert((a + b).drop_first() =~= a.drop_first() + b);
        assert((a + b)[0] == a[0]);
        lemma_replaced_parts(
            a.drop_first(),
            b,
            edit,
            if edit.manages(a[0].0) {
                xmp::remembered(done, a[0].0)
            } else {
                done
            },
        );
        assert(replaced(a + b, edit) =~= replaced(a, edit) + replaced(b, edit));
    }
}

proof fn lemma_replaced_one(name: Seq<char>, shown: Seq<char>, edit: EditView, done: Seq<Seq<char>>)
    ensures
        replaced(seq![(name, shown)], edit) == if edit.manages(name) {
            set_anew(name, edit)
        } else {
            seq![(name, shown)]
        },
        met(seq![(name, shown)], edit, done) == if edit.manages(name) {
            xmp::remembered(done, name)
        } else {
            done
        },
{
    let one = seq![(name, shown)];
    let none = Seq::<(Seq<char>, Seq<char>)>::empty();
    assert(one.drop_first() =~= none);
    assert(replaced(none, edit) =~= none);
    assert(set_anew(name, edit) + none =~= set_anew(name, edit));
    assert(one + none =~= one);
    let next = if edit.manages(name) {
        xmp::remembered(done, name)
    } else {
        done
    };
    assert(met(none, edit, next) == next);
}

/// The pieces that an edit puts in the place of a property it names.
pub open spec fn anew_pieces(name: Seq<char>, edit: EditView) -> Seq<PieceView> {
    match xmp::set_from(edit.sets, 0, name) {
        Some(i) => xmplaws::fragment_pieces(name, edit.sets[i].1),
        None => Seq::empty(),
    }
}

proof fn lemma_set_from(sets: Seq<(Seq<char>, ValueView)>, i: int, name: Seq<char>)
    requires
        0 <= i,
    ensures
        match xmp::set_from(sets, i, name) {
            Some(k) => i <= k < sets.len() && sets[k].0 == name,
            None => forall|k: int| i <= k < sets.len() ==> (#[trigger] sets[k]).0 != name,
        },
    decreases sets.len() - i,
{
    if i < sets.len() && sets[i].0 != name {
        lemma_set_from(sets, i + 1, name);
    }
}

proof fn lemma_anew(name: Seq<char>, edit: EditView)
    requires
        xmplaws::names_fit(edit.sets),
    ensures
        xml::well_formed(anew_pieces(name, edit)),
        pieces::without_descriptions(anew_pieces(name, edit)),
        xml::pieces_text(anew_pieces(name, edit)) == edit.fragment_of(name),
        pieces::properties_in(anew_pieces(name, edit), 0, true, 0) == set_anew(name, edit),
        xmp::set_from(edit.sets, 0, name) is Some ==> anew_pieces(name, edit).len() > 0 && !(anew_pieces(
            name,
            edit,
        )[0] is Chars) && !(anew_pieces(name, edit).last() is Chars),
{
    lemma_set_from(edit.sets, 0, name);
    match xmp::set_from(edit.sets, 0, name) {
        Some(i) => {
            assert(xmplaws::name_fits(edit.sets[i].0));
            xmplaws::lemma_fragment(name, edit.sets[i].1);
        },
        None => {
            pieces::lemma_nothing_formed();
            pieces::lemma_no_children();
            assert(xml::pieces_text(anew_pieces(name, edit)) =~= edit.fragment_of(name));
        },
    }
}

/// What an edit makes of an element right inside the description.
#[verifier::spinoff_prover]
#[verifier::rlimit(80)]
proof fn lemma_element_edited(
    v: Seq<PieceView>,
    at: int,
    w: Seq<PieceView>,
    j: int,
    p: Progress,
    edit: EditView,
) -> (r: (Seq<PieceView>, int, iptc::Properties))
    requires
        0 <= at,
        at + w.len() <= v.len(),
        v.subrange(at, at + w.len()) == w,
        xml::well_formed(w),
        pieces::without_descriptions(w),
        0 <= j < w.len(),
        xml::open_names(w, j) == Some(Seq::<Seq<char>>::empty()),
        xmplaws::names_fit(edit.sets),
        p.inside,
        !p.pending,
        p.depth == 0,
        w[j] is Open,
    ensures
        ({
            let (one, n, head) = r;
            &&& j < n <= w.len()
            &&& xml::open_names(w, n) == Some(Seq::<Seq<char>>::empty())
            &&& xml::well_formed(one)
            &&& pieces::without_descriptions(one)
            &&& pieces::properties_in(w, j, true, 0) == head + pieces::properties_in(w, n, true, 0)
            &&& pieces::properties_in(one, 0, true, 0) == replaced(head, edit)
            &&& xmp::edited_from(pieces::plain_events(v), at + j, p, edit) == xmp::edited_from(
                pieces::plain_events(v),
                at + n,
                Progress { done: met(head, edit, p.done), out: p.out + xml::pieces_text(one), ..p },
                edit,
            )
        }),
{
    let c = w[j]->Open_0;
    let name = xml::name_in(c);
    assert(!pieces::begins_description(w[j])) by {
        reveal(pieces::without_descriptions);
    }
    pieces::lemma_element(w, j);
    pieces::lemma_frame_element(v, at, w, j);
    pieces::lemma_end_same(v, at, w, j + 1, name, 0);
    let n = xmp::end_of_element(pieces::plain_events(w), j + 1, name, 0)->Ok_0;
    let inner = w.subrange(j + 1, n - 1);
    let head = seq![(name, pieces::shown_in(inner))];
    assert(v.subrange(at, at + w.len())[j] == v[at + j]);
    pieces::lemma_event(v, at + j);
    lemma_replaced_one(name, pieces::shown_in(inner), edit, p.done);
    assert(xml::piece_ok(w[j]));
    if edit.manages(name) {
        lemma_anew(name, edit);
        (anew_pieces(name, edit), n, head)
    } else {
        let one = w.subrange(j, n);
        assert(one =~= pieces::element_of(c, inner));
        assert(xml::piece_ok(w[n - 1]));
        pieces::lemma_element_formed(c, inner);
        pieces::lemma_child_element(c, inner);
        let q = Progress { depth: 1, out: p.out + xml::piece_text(w[j]), ..p };
        assert(xml::open_names(w, j + 1) == Some(Seq::<Seq<char>>::empty().push(name)));
        lemma_copied_deep(v, at, w, j + 1, n, q, edit);
        lemma_first_text(w, j, n);
        assert(p.out + xml::piece_text(w[j]) + xml::pieces_text(w.subrange(j + 1, n)) =~= p.out + xml::pieces_text(
            one,
        ));
        (one, n, head)
    }
}

/// What an edit makes of one thing right inside the description.
#[verifier::spinoff_prover]
#[verifier::rlimit(80)]
proof fn lemma_child_edited(
    v: Seq<PieceView>,
    at: int,
    w: Seq<PieceView>,
    j: int,
    p: Progress,
    edit: EditView,
) -> (r: (Seq<PieceView>, int, iptc::Properties))
    requires
        0 <= at,
        at + w.len() <= v.len(),
        v.subrange(at, at + w.len()) == w,
        xml::well_formed(w),
        pieces::without_descriptions(w),
        0 <= j < w.len(),
        xml::open_names(w, j) == Some(Seq::<Seq<char>>::empty()),
        xmplaws::names_fit(edit.sets),
        p.inside,
        !p.pending,
        p.depth == 0,
    ensures
        ({
            let (one, n, head) = r;
            &&& j < n <= w.len()
            &&& xml::open_names(w, n) == Some(Seq::<Seq<char>>::empty())
            &&& xml::well_formed(one)
            &&& pieces::without_descriptions(one)
            &&& pieces::properties_in(w, j, true, 0) == head + pieces::properties_in(w, n, true, 0)
            &&& pieces::properties_in(one, 0, true, 0) == replaced(head, edit)
            &&& xmp::edited_from(pieces::plain_events(v), at + j, p, edit) == xmp::edited_from(
                pieces::plain_events(v),
                at + n,
                Progress { done: met(head, edit, p.done), out: p.out + xml::pieces_text(one), ..p },
                edit,
            )
        }),
{
    assert(v.subrange(at, at + w.len())[j] == v[at + j]);
    pieces::lemma_event(v, at + j);
    assert(xml::piece_ok(w[j]));
    pieces::lemma_names_before(w, j + 1, w.len() as int);
    assert(!pieces::begins_description(w[j])) by {
        reveal(pieces::without_descriptions);
    }
    match w[j] {
        PieceView::Open(_) => lemma_element_edited(v, at, w, j, p, edit),
        PieceView::SelfClosed(c) => {
            let name = xml::name_in(c);
            let head = seq![(name, Seq::<char>::empty())];
            pieces::lemma_in_single(w, j);
            lemma_replaced_one(name, Seq::empty(), edit, p.done);
            if edit.manages(name) {
                lemma_anew(name, edit);
                (anew_pieces(name, edit), j + 1, head)
            } else {
                let one = seq![w[j]];
                pieces::lemma_one_formed(w[j]);
                pieces::lemma_one_text(w[j]);
                pieces::lemma_child_single(c);
                (one, j + 1, head)
            }
        },
        _ => {
            let one = seq![w[j]];
            let head = Seq::<(Seq<char>, Seq<char>)>::empty();
            let rest = pieces::properties_in(w, j + 1, true, 0);
            pieces::lemma_in_text(w, j, true, 0);
            pieces::lemma_one_formed(w[j]);
            pieces::lemma_one_text(w[j]);
            pieces::lemma_child_text(w[j]);
            assert(head + rest =~= rest);
            assert(replaced(head, edit) =~= head);
            assert(met(head, edit, p.done) == p.done);
            (one, j + 1, head)
        },
    }
}

/// What an edit makes of everything inside the description from `j` on.
#[verifier::spinoff_prover]
proof fn lemma_inside_edited(
    v: Seq<PieceView>,
    at: int,
    w: Seq<PieceView>,
    j: int,
    p: Progress,
    edit: EditView,
) -> (out: Seq<PieceView>)
    requires
        0 <= at,
        at + w.len() <= v.len(),
        v.subrange(at, at + w.len()) == w,
        xml::well_formed(w),
        pieces::without_descriptions(w),
        0 <= j <= w.len(),
        xml::open_names(w, j) == Some(Seq::<Seq<char>>::empty()),
        xmplaws::names_fit(edit.sets),
        p.inside,
        !p.pending,
        p.depth == 0,
    ensures
        xml::well_formed(out),
        pieces::without_descriptions(out),
        pieces::properties_in(out, 0, true, 0) == replaced(pieces::properties_in(w, j, true, 0), edit),
        xmp::edited_from(pieces::plain_events(v), at + j, p, edit) == xmp::edited_from(
            pieces::plain_events(v),
            at + w.len(),
            Progress {
                done: met(pieces::properties_in(w, j, true, 0), edit, p.done),
                out: p.out + xml::pieces_text(out),
                ..p
            },
            edit,
        ),
    decreases w.len() - j,
{
    if j == w.len() {
        pieces::lemma_nothing_formed();
        pieces::lemma_no_children();
        pieces::lemma_in_end(w, j, true, 0);
        let out = Seq::<PieceView>::empty();
        let none = Seq::<(Seq<char>, Seq<char>)>::empty();
        assert(replaced(none, edit) =~= none);
        assert(met(none, edit, p.done) == p.done);
        assert(p.out + xml::pieces_text(out) =~= p.out);
        out
    } else {
        let (one, n, head) = lemma_child_edited(v, at, w, j, p, edit);
        let q = Progress { done: met(head, edit, p.done), out: p.out + xml::pieces_text(one), ..p };
        let rest = lemma_inside_edited(v, at, w, n, q, edit);
        pieces::lemma_joined(one, rest);
        lemma_replaced_parts(head, pieces::properties_in(w, n, true, 0), edit, p.done);
        let out = pieces::joined_pieces(one, rest);
        assert(p.out + xml::pieces_text(one) + xml::pieces_text(rest) =~= p.out + xml::pieces_text(out));
        out
    }
}

// ---- what is added ----------------------------------------------------------------------

/// The pieces that are added before the description closes.
proof fn lemma_completed(sets: Seq<(Seq<char>, ValueView)>, edit: EditView, done: Seq<Seq<char>>) -> (out: Seq<
    PieceView,
>)
    requires
        xmplaws::names_fit(edit.sets),
        forall|i: int|
            0 <= i < sets.len() ==> xmp::set_from(edit.sets, 0, (#[trigger] sets[i]).0) is Some,
    ensures
        xml::well_formed(out),
        pieces::without_descriptions(out),
        xml::pieces_text(out) == xmp::completed(sets, edit, done),
        pieces::properties_in(out, 0, true, 0) == added(sets, edit, done),
        out.len() > 0 ==> !(out.last() is Chars),
    decreases sets.len(),
{
    if sets.len() == 0 {
        pieces::lemma_nothing_formed();
        pieces::lemma_no_children();
        let out = Seq::<PieceView>::empty();
        assert(xml::pieces_text(out) =~= xmp::completed(sets, edit, done));
        out
    } else {
        let front = sets.drop_last();
        assert forall|i: int| 0 <= i < front.len() implies xmp::set_from(
            edit.sets,
            0,
            (#[trigger] front[i]).0,
        ) is Some by {
            assert(front[i] == sets[i]);
        }
        let head = lemma_completed(front, edit, done);
        let name = sets.last().0;
        if done.contains(name) {
            head
        } else {
            assert(xmp::set_from(edit.sets, 0, sets[sets.len() - 1].0) is Some);
            lemma_anew(name, edit);
            xmplaws::lemma_new_line(head, anew_pieces(name, edit));
            head + seq![PieceView::Chars("\n   "@)] + anew_pieces(name, edit)
        }
    }
}

/// The pieces that fill a description that closed itself.
proof fn lemma_filled(sets: Seq<(Seq<char>, ValueView)>, edit: EditView) -> (out: Seq<PieceView>)
    requires
        xmplaws::names_fit(edit.sets),
    ensures
        xml::well_formed(out),
        pieces::without_descriptions(out),
        xml::pieces_text(out) == xmp::filled(sets, edit),
        pieces::properties_in(out, 0, true, 0) == added(sets, edit, Seq::empty()),
    decreases sets.len(),
{
    if sets.len() == 0 {
        pieces::lemma_nothing_formed();
        pieces::lemma_no_children();
        let out = Seq::<PieceView>::empty();
        assert(xml::pieces_text(out) =~= xmp::filled(sets, edit));
        out
    } else {
        let head = lemma_filled(sets.drop_last(), edit);
        let name = sets.last().0;
        lemma_anew(name, edit);
        pieces::lemma_joined(head, anew_pieces(name, edit));
        pieces::joined_pieces(head, anew_pieces(name, edit))
    }
}

proof fn lemma_all_set(edit: EditView)
    ensures
        forall|i: int|
            0 <= i < edit.sets.len() ==> xmp::set_from(edit.sets, 0, (#[trigger] edit.sets[i]).0) is Some,
{
    assert forall|i: int| 0 <= i < edit.sets.len() implies xmp::set_from(
        edit.sets,
        0,
        (#[trigger] edit.sets[i]).0,
    ) is Some by {
        lemma_set_from(edit.sets, 0, edit.sets[i].0);
    }
}

// ---- the start tag of the description ---------------------------------------------------

/// The attributes of a description that an edit keeps.
pub open spec fn kept_list(list: Seq<(Seq<char>, Seq<char>)>, edit: EditView) -> Seq<(Seq<char>, Seq<char>)>
    decreases list.len(),
{
    if list.len() == 0 {
        Seq::empty()
    } else {
        let key = list.last().0;
        if !xmp::declares(key) && key != "rdf:about"@ && edit.manages(key) {
            kept_list(list.drop_last(), edit)
        } else {
            kept_list(list.drop_last(), edit).push(list.last())
        }
    }
}

/// The attributes of a description after an edit.
pub open spec fn new_list(list: Seq<(Seq<char>, Seq<char>)>, edit: EditView) -> Seq<(Seq<char>, Seq<char>)> {
    kept_list(list, edit) + xmplaws::declaring(
        xmp::prefixes(edit.sets),
        xmp::declared(xml::as_attributes(list)),
    )
}

proof fn lemma_attributes_front(list: Seq<(Seq<char>, Seq<char>)>)
    requires
        list.len() > 0,
        xml::attributes_ok(list),
        pieces::keys_plain(list),
    ensures
        xml::attributes_ok(list.drop_last()),
        pieces::keys_plain(list.drop_last()),
        xml::as_attributes(list).drop_last() == xml::as_attributes(list.drop_last()),
        xml::as_attributes(list).last() == xml::AttrView::Pair(list.last().0, Ok(list.last().1)),
{
    let front = list.drop_last();
    assert forall|i: int| 0 <= i < front.len() implies xml::key_ok((#[trigger] front[i]).0) by {
        assert(front[i] == list[i]);
    }
    assert forall|i: int, j: int| 0 <= i < j < front.len() implies (#[trigger] front[i]).0 != (
    #[trigger] front[j]).0 by {
        assert(front[i] == list[i] && front[j] == list[j]);
    }
    assert forall|i: int, k: int| 0 <= i < front.len() && 0 <= k < front[i].0.len() implies (
    #[trigger] front[i].0[k]) != '"' && front[i].0[k] != '\'' && front[i].0[k] != '>' by {
        assert(front[i] == list[i]);
        assert(list[i].0[k] != '"');
    }
    assert(xml::as_attributes(list).drop_last() =~= xml::as_attributes(front));
}

#[verifier::spinoff_prover]
proof fn lemma_kept(list: Seq<(Seq<char>, Seq<char>)>, edit: EditView)
    requires
        xml::attributes_ok(list),
        pieces::keys_plain(list),
    ensures
        ({
            let kept = kept_list(list, edit);
            &&& xml::attributes_ok(kept)
            &&& pieces::keys_plain(kept)
            &&& xmp::kept_attributes(xml::as_attributes(list), edit) == Ok::<Seq<char>, xmp::ErrorView>(
                xml::attributes_text(kept),
            )
            &&& xmp::attribute_properties(xml::as_attributes(kept)) == unnamed(
                xmp::attribute_properties(xml::as_attributes(list)),
                edit,
            )
            &&& forall|i: int|
                0 <= i < kept.len() ==> exists|k: int|
                    0 <= k < list.len() && (#[trigger] kept[i]) == #[trigger] list[k]
        }),
    decreases list.len(),
{
    let kept = kept_list(list, edit);
    let all = xml::as_attributes(list);
    if list.len() == 0 {
        assert(all =~= Seq::empty());
        assert(xml::as_attributes(kept) =~= Seq::empty());
        assert(xml::attributes_text(kept) =~= Seq::empty());
    } else {
        let (front, last) = (list.drop_last(), list.last());
        lemma_attributes_front(list);
        lemma_kept(front, edit);
        let head = kept_list(front, edit);
        let props = xmp::attribute_properties(xml::as_attributes(front));
        lemma_declares_xmlns(last.0);
        assert(props.push((last.0, last.1)).drop_last() =~= props);
        assert forall|i: int| 0 <= i < head.len() implies exists|k: int|
            0 <= k < list.len() - 1 && (#[trigger] head[i]) == #[trigger] list[k] by {
            let k = choose|k: int| 0 <= k < front.len() && head[i] == #[trigger] front[k];
            assert(front[k] == list[k]);
        }
        if kept == head {
        } else {
            assert(kept == head.push(last));
            assert(kept.drop_last() =~= head);
            assert(list[list.len() - 1] == last);
            assert(xml::key_ok(last.0));
            assert forall|i: int| 0 <= i < head.len() implies (#[trigger] head[i]).0 != last.0 by {
                let k = choose|k: int| 0 <= k < list.len() - 1 && head[i] == #[trigger] list[k];
                assert(list[k].0 != list[list.len() - 1].0);
            }
            assert forall|i: int, k: int| 0 <= i < kept.len() && 0 <= k < kept[i].0.len() implies (
            #[trigger] kept[i].0[k]) != '"' && kept[i].0[k] != '\'' && kept[i].0[k] != '>' by {
                if i < head.len() {
                    assert(kept[i] == head[i]);
                    assert(head[i].0[k] != '"');
                } else {
                    assert(list[list.len() - 1].0[k] != '"');
                }
            }
            assert(xml::as_attributes(kept).drop_last() =~= xml::as_attributes(head));
            assert(xml::as_attributes(kept).last() == all.last());
            assert(xml::attributes_text(kept) =~= xml::attributes_text(head) + xmp::attribute_text(
                last.0,
                last.1,
            ));
        }
    }
}

proof fn lemma_declares_xmlns(key: Seq<char>)
    ensures
        xmp::declares(key) ==> text::has_prefix(key, "xmlns"@),
{
    reveal_strlit("xmlns");
    reveal_strlit("xmlns:");
    if text::has_prefix(key, "xmlns:"@) {
        assert(key.subrange(0, 6) == "xmlns:"@);
        assert forall|i: int| 0 <= i < 5 implies key.subrange(0, 5)[i] == "xmlns"@[i] by {
            assert(key.subrange(0, 6)[i] == "xmlns:"@[i]);
        }
        assert(key.subrange(0, 5) =~= "xmlns"@);
    } else if key == "xmlns"@ {
        assert(key.subrange(0, 5) =~= "xmlns"@);
    }
}

proof fn lemma_declared(list: Seq<(Seq<char>, Seq<char>)>, i: int)
    requires
        0 <= i < list.len(),
        xmp::declares(list[i].0),
    ensures
        xmp::declared(xml::as_attributes(list)).contains(xmp::without_prefixes(list[i].0, "xmlns:"@)),
    decreases list.len(),
{
    let all = xml::as_attributes(list);
    let front = list.drop_last();
    let word = xmp::without_prefixes(list[i].0, "xmlns:"@);
    assert(all.drop_last() =~= xml::as_attributes(front));
    assert(all.last() == xml::AttrView::Pair(list.last().0, Ok(list.last().1)));
    let before = xmp::declared(xml::as_attributes(front));
    let found = xmp::declared(all);
    if i == list.len() - 1 {
        assert(found == before.push(word));
        assert(found[before.len() as int] == word);
    } else {
        assert(front[i] == list[i]);
        lemma_declared(front, i);
        let k = choose|k: int| 0 <= k < before.len() && before[k] == word;
        assert(found[k] == before[k]);
    }
}

/// The start tag of the description after an edit.
#[verifier::spinoff_prover]
proof fn lemma_new_tag(content: Seq<char>, list: Seq<(Seq<char>, Seq<char>)>, edit: EditView)
    requires
        xml::name_in(content) == "rdf:Description"@,
        xml::attributes_known("rdf:Description"@, content),
        pieces::known_attributes(content) == xml::as_attributes(list),
        xml::attributes_ok(list),
        pieces::keys_plain(list),
    ensures
        ({
            let c = xml::tag_content("rdf:Description"@, new_list(list, edit));
            &&& xml::piece_ok(PieceView::Open(c))
            &&& xml::piece_ok(PieceView::Close("rdf:Description"@))
            &&& xml::name_in(c) == "rdf:Description"@
            &&& xmp::description_start("rdf:Description"@, content, edit) == Ok::<Seq<char>, xmp::ErrorView>(
                "<"@ + c + ">"@,
            )
            &&& xmp::attribute_properties(pieces::known_attributes(c)) == unnamed(
                xmp::attribute_properties(pieces::known_attributes(content)),
                edit,
            )
        }),
{
    let name = "rdf:Description"@;
    let present = xmp::declared(xml::as_attributes(list));
    let kept = kept_list(list, edit);
    let words = xmp::prefixes(edit.sets);
    let more = xmplaws::declaring(words, present);
    let all = new_list(list, edit);
    pieces::lemma_attributes_read(content);
    lemma_kept(list, edit);
    xmplaws::lemma_prefixes(edit.sets);
    xmplaws::lemma_declaring(words, present);
    assert forall|i: int, j: int| 0 <= i < kept.len() && 0 <= j < more.len() implies (#[trigger] kept[i]).0 != (
    #[trigger] more[j]).0 by {
        let k = choose|k: int| 0 <= k < list.len() && kept[i] == #[trigger] list[k];
        let m = choose|m: int|
            0 <= m < words.len() && more[j].0 == "xmlns:"@ + #[trigger] words[m] && xmp::namespace(
                words[m],
            ) is Some && !present.contains(words[m]);
        xmplaws::lemma_namespace(words[m]);
        if kept[i].0 == more[j].0 {
            lemma_declared(list, k);
        }
    }
    xmplaws::lemma_attributes_joined(kept, more);
    xmplaws::lemma_attributes_parts(kept, more);
    xmplaws::lemma_about();
    pieces::lemma_word_tags(name);
    let c = xml::tag_content(name, all);
    if all.len() > 0 {
        pieces::lemma_attributed_tag(name, all);
    } else {
        assert(xml::attributes_text(all) =~= Seq::empty());
        assert(c =~= name);
    }
    pieces::lemma_known_attributes(name, all);
    reveal_strlit("<");
    reveal_strlit("rdf:Description");
    reveal_strlit("<rdf:Description");
    assert("<rdf:Description"@ =~= "<"@ + name);
    assert("<rdf:Description"@ + xml::attributes_text(kept) + xml::attributes_text(more) + ">"@ =~= "<"@ + c + ">"@);
    let props = xmp::attribute_properties(xml::as_attributes(kept));
    assert(props + Seq::<(Seq<char>, Seq<char>)>::empty() =~= props);
}

// ---- the laws of editing ----------------------------------------------------------------

/// The text of an element between others.
proof fn lemma_between(pre: Seq<PieceView>, content: Seq<char>, w: Seq<PieceView>, post: Seq<PieceView>)
    requires
        xml::name_in(content) == "rdf:Description"@,
    ensures
        xml::pieces_text(pre + pieces::element_of(content, w) + post) == xml::pieces_text(pre) + ("<"@ + content
            + ">"@) + xml::pieces_text(w) + "</rdf:Description>"@ + xml::pieces_text(post),
{
    let e = pieces::element_of(content, w);
    pieces::lemma_text_parts(pre, e);
    pieces::lemma_text_parts(pre + e, post);
    pieces::lemma_element_text(content, w);
    reveal_strlit("</");
    reveal_strlit(">");
    reveal_strlit("rdf:Description");
    reveal_strlit("</rdf:Description>");
    assert("</rdf:Description>"@ =~= "</"@ + "rdf:Description"@ + ">"@);
    assert(xml::pieces_text(pre + e + post) =~= xml::pieces_text(pre) + ("<"@ + content + ">"@) + xml::pieces_text(w)
        + "</rdf:Description>"@ + xml::pieces_text(post));
}

/// Up to the first description an edit copies.
proof fn lemma_reached(pre: Seq<PieceView>, rest: Seq<PieceView>, edit: EditView)
    requires
        xml::well_formed(pre + rest),
        forall|i: int| 0 <= i < pre.len() ==> !pieces::begins_description(#[trigger] pre[i]),
    ensures
        xmp::edited_events(pieces::plain_events(pre + rest), edit) == xmp::edited_from(
            pieces::plain_events(pre + rest),
            pre.len() as int,
            Progress { out: xml::pieces_text(pre), ..xmp::at_start() },
            edit,
        ),
{
    let v = pre + rest;
    assert forall|k: int| 0 <= k < pre.len() implies !pieces::begins_description(#[trigger] v[k]) by {
        assert(v[k] == pre[k]);
    }
    lemma_copied(v, 0, pre.len() as int, xmp::at_start(), edit);
    assert(v.subrange(0, pre.len() as int) =~= pre);
    assert(xmp::at_start().out + xml::pieces_text(pre) =~= xml::pieces_text(pre));
}

/// Behind the description an edit copies to the end.
proof fn lemma_finished(front: Seq<PieceView>, post: Seq<PieceView>, p: Progress, edit: EditView)
    requires
        xml::well_formed(front + post),
        !p.inside,
        !p.pending,
    ensures
        xmp::edited_from(pieces::plain_events(front + post), front.len() as int, p, edit) == Ok::<
            Seq<char>,
            xmp::ErrorView,
        >(p.out + xml::pieces_text(post)),
{
    let v = front + post;
    let ev = pieces::plain_events(v);
    lemma_copied(v, front.len() as int, v.len() as int, p, edit);
    assert(v.subrange(front.len() as int, v.len() as int) =~= post);
    assert(ev.len() == v.len() + 1);
    assert(ev[v.len() as int] is Eof);
}

/// Where the description closes, an edit adds what was not met.
proof fn lemma_closed(front: Seq<PieceView>, post: Seq<PieceView>, p: Progress, edit: EditView)
    requires
        xml::well_formed(front + seq![PieceView::Close("rdf:Description"@)] + post),
        p.inside,
        !p.pending,
        p.depth == 0,
    ensures
        xmp::edited_from(
            pieces::plain_events(front + seq![PieceView::Close("rdf:Description"@)] + post),
            front.len() as int,
            p,
            edit,
        ) == Ok::<Seq<char>, xmp::ErrorView>(
            p.out + xmp::completed(edit.sets, edit, p.done) + "</rdf:Description>"@ + xml::pieces_text(post),
        ),
{
    let head = front + seq![PieceView::Close("rdf:Description"@)];
    let v = head + post;
    let j = front.len() as int;
    pieces::lemma_event(v, j);
    assert(v[j] == PieceView::Close("rdf:Description"@));
    reveal_strlit("</");
    reveal_strlit(">");
    reveal_strlit("rdf:Description");
    reveal_strlit("</rdf:Description>");
    assert("</rdf:Description>"@ =~= "</"@ + "rdf:Description"@ + ">"@);
    let q = Progress {
        inside: false,
        out: p.out + xmp::completed(edit.sets, edit, p.done) + "</rdf:Description>"@,
        ..p
    };
    assert(xmp::edited_from(pieces::plain_events(v), j, p, edit) == xmp::edited_from(
        pieces::plain_events(v),
        j + 1,
        q,
        edit,
    ));
    lemma_finished(head, post, q, edit);
}

/// The first description is the one behind pieces that begin none.
proof fn lemma_description_known(pre: Seq<PieceView>, rest: Seq<PieceView>, i: int)
    requires
        0 <= i <= pre.len(),
        xml::well_formed(pre + rest),
        forall|k: int| 0 <= k < pre.len() ==> !pieces::begins_description(#[trigger] pre[k]),
        rest.len() > 0,
        xmp::description_known(pieces::plain_events(pre + rest), i),
    ensures
        match rest[0] {
            PieceView::Open(c) => xml::name_in(c) == "rdf:Description"@ ==> xml::attributes_known(
                "rdf:Description"@,
                c,
            ),
            PieceView::SelfClosed(c) => xml::name_in(c) == "rdf:Description"@ ==> xml::attributes_known(
                "rdf:Description"@,
                c,
            ),
            _ => true,
        },
    decreases pre.len() - i,
{
    let v = pre + rest;
    pieces::lemma_event(v, i);
    assert(xml::piece_ok(v[i]));
    if i < pre.len() {
        assert(v[i] == pre[i]);
        lemma_description_known(pre, rest, i + 1);
    } else {
        assert(v[i] == rest[0]);
    }
}

/// How far an edit has come behind the start tag of the description.
pub open spec fn opened(pre: Seq<PieceView>, list: Seq<(Seq<char>, Seq<char>)>, edit: EditView) -> Progress {
    Progress {
        pending: false,
        inside: true,
        depth: 0,
        done: Seq::empty(),
        out: xml::pieces_text(pre) + ("<"@ + xml::tag_content("rdf:Description"@, new_list(list, edit)) + ">"@),
    }
}

/// Where the description opens, an edit writes its start tag anew.
#[verifier::spinoff_prover]
proof fn lemma_opened(
    pre: Seq<PieceView>,
    content: Seq<char>,
    rest: Seq<PieceView>,
    list: Seq<(Seq<char>, Seq<char>)>,
    edit: EditView,
)
    requires
        xml::well_formed(pre + (seq![PieceView::Open(content)] + rest)),
        forall|i: int| 0 <= i < pre.len() ==> !pieces::begins_description(#[trigger] pre[i]),
        xml::name_in(content) == "rdf:Description"@,
        xml::attributes_known("rdf:Description"@, content),
        pieces::known_attributes(content) == xml::as_attributes(list),
        xml::attributes_ok(list),
        pieces::keys_plain(list),
    ensures
        ({
            let ev = pieces::plain_events(pre + (seq![PieceView::Open(content)] + rest));
            xmp::edited_events(ev, edit) == xmp::edited_from(
                ev,
                (pre.len() + 1) as int,
                opened(pre, list, edit),
                edit,
            )
        }),
{
    let tail = seq![PieceView::Open(content)] + rest;
    let v = pre + tail;
    let i = pre.len() as int;
    assert(v[i] == PieceView::Open(content));
    lemma_reached(pre, tail, edit);
    lemma_new_tag(content, list, edit);
    pieces::lemma_event(v, i);
    let p = Progress { out: xml::pieces_text(pre), ..xmp::at_start() };
    assert(xmp::edited_from(pieces::plain_events(v), i, p, edit) == xmp::edited_from(
        pieces::plain_events(v),
        i + 1,
        opened(pre, list, edit),
        edit,
    ));
}

/// What an edit writes for a packet with a description around `w`.
#[verifier::spinoff_prover]
proof fn lemma_packet_edited(
    pre: Seq<PieceView>,
    content: Seq<char>,
    w: Seq<PieceView>,
    post: Seq<PieceView>,
    list: Seq<(Seq<char>, Seq<char>)>,
    edit: EditView,
) -> (out: Seq<PieceView>)
    requires
        xml::well_formed(pre + pieces::element_of(content, w) + post),
        forall|i: int| 0 <= i < pre.len() ==> !pieces::begins_description(#[trigger] pre[i]),
        xml::name_in(content) == "rdf:Description"@,
        xml::well_formed(w),
        pieces::without_descriptions(w),
        xml::attributes_known("rdf:Description"@, content),
        pieces::known_attributes(content) == xml::as_attributes(list),
        xml::attributes_ok(list),
        pieces::keys_plain(list),
        xmplaws::names_fit(edit.sets),
    ensures
        ({
            let v = pre + pieces::element_of(content, w) + post;
            let inside = pieces::properties_in(w, 0, true, 0);
            let c = xml::tag_content("rdf:Description"@, new_list(list, edit));
            &&& xml::well_formed(out)
            &&& pieces::without_descriptions(out)
            &&& pieces::properties_in(out, 0, true, 0) == replaced(inside, edit) + added(
                edit.sets,
                edit,
                met(inside, edit, Seq::empty()),
            )
            &&& xmp::edited_events(pieces::plain_events(v), edit) == Ok::<Seq<char>, xmp::ErrorView>(
                xml::pieces_text(pre + pieces::element_of(c, out) + post),
            )
        }),
{
    let v = pre + pieces::element_of(content, w) + post;
    let ev = pieces::plain_events(v);
    let i = pre.len() as int;
    let c = xml::tag_content("rdf:Description"@, new_list(list, edit));
    let close = seq![PieceView::Close("rdf:Description"@)];
    assert(v =~= pre + (seq![PieceView::Open(content)] + (w + close + post)));
    lemma_opened(pre, content, w + close + post, list, edit);
    assert(v.subrange(i + 1, i + 1 + w.len()) =~= w);
    let q = opened(pre, list, edit);
    let first = lemma_inside_edited(v, i + 1, w, 0, q, edit);
    let done = met(pieces::properties_in(w, 0, true, 0), edit, Seq::empty());
    let r = Progress { done, out: q.out + xml::pieces_text(first), ..q };
    let front = pre + seq![PieceView::Open(content)] + w;
    assert(v =~= front + close + post);
    lemma_closed(front, post, r, edit);
    lemma_all_set(edit);
    let last = lemma_completed(edit.sets, edit, done);
    pieces::lemma_joined(first, last);
    let out = pieces::joined_pieces(first, last);
    lemma_new_tag(content, list, edit);
    lemma_between_grouped(pre, c, first, last, out, post);
    out
}

proof fn lemma_between_grouped(
    pre: Seq<PieceView>,
    c: Seq<char>,
    first: Seq<PieceView>,
    last: Seq<PieceView>,
    out: Seq<PieceView>,
    post: Seq<PieceView>,
)
    requires
        xml::name_in(c) == "rdf:Description"@,
        xml::pieces_text(out) == xml::pieces_text(first) + xml::pieces_text(last),
    ensures
        xml::pieces_text(pre + pieces::element_of(c, out) + post) == xml::pieces_text(pre) + ("<"@ + c + ">"@)
            + xml::pieces_text(first) + xml::pieces_text(last) + "</rdf:Description>"@ + xml::pieces_text(post),
{
    lemma_between(pre, c, out, post);
    let (a, b, x, y) = (
        xml::pieces_text(pre),
        "<"@ + c + ">"@,
        xml::pieces_text(first),
        xml::pieces_text(last),
    );
    assert(a + b + (x + y) =~= a + b + x + y);
}

/// An edit sets what it sets, takes out what it removes and keeps everything else. In a packet
/// whose first description has an element of its own, around `w`: the properties in attribute
/// form that the edit does not name stay; those inside the description stay in their places, but
/// for those it names, which are set anew or go; those that it sets and that were not there
/// follow; and everything behind the description stays. The outcome is a well-formed packet
/// again. That the attributes are read as they were written (`description_known`) is promised by
/// `xmp::edit_existing` of every packet; that `out` is read as its `plain_properties`, by
/// `xmp::read_properties`.
#[verifier::spinoff_prover]
pub proof fn edit_keeps_the_rest(
    pre: Seq<PieceView>,
    content: Seq<char>,
    w: Seq<PieceView>,
    post: Seq<PieceView>,
    list: Seq<(Seq<char>, Seq<char>)>,
    edit: EditView,
) -> (out: Seq<PieceView>)
    requires
        xml::well_formed(pre + pieces::element_of(content, w) + post),
        forall|i: int| 0 <= i < pre.len() ==> !pieces::begins_description(#[trigger] pre[i]),
        xml::name_in(content) == "rdf:Description"@,
        xml::well_formed(w),
        pieces::without_descriptions(w),
        xmp::description_known(pieces::plain_events(pre + pieces::element_of(content, w) + post), 0),
        pieces::known_attributes(content) == xml::as_attributes(list),
        xml::attributes_ok(list),
        pieces::keys_plain(list),
        xmplaws::names_fit(edit.sets),
    ensures
        ({
            let v = pre + pieces::element_of(content, w) + post;
            let attributes = xmp::attribute_properties(xml::as_attributes(list));
            let inside = pieces::properties_in(w, 0, true, 0);
            let behind = pieces::properties_in(post, 0, false, 0);
            &&& pieces::plain_properties(v) == attributes + inside + behind
            &&& xmp::edited_events(pieces::plain_events(v), edit) == Ok::<Seq<char>, xmp::ErrorView>(
                xml::pieces_text(out),
            )
            &&& xml::well_formed(out)
            &&& pieces::plain_properties(out) == unnamed(attributes, edit) + (replaced(inside, edit) + added(
                edit.sets,
                edit,
                met(inside, edit, Seq::empty()),
            )) + behind
        }),
{
    assert(pre + pieces::element_of(content, w) + post =~= pre + (pieces::element_of(content, w) + post));
    lemma_description_known(pre, pieces::element_of(content, w) + post, 0);
    let inner = lemma_packet_edited(pre, content, w, post, list, edit);
    let c = xml::tag_content("rdf:Description"@, new_list(list, edit));
    lemma_new_tag(content, list, edit);
    let (old_element, new_element) = (pieces::element_of(content, w), pieces::element_of(c, inner));
    let v = pre + old_element + post;
    assert(v[pre.len() as int] == PieceView::Open(content));
    assert(xml::piece_ok(v[pre.len() as int]));
    pieces::lemma_element_formed(content, w);
    pieces::lemma_element_formed(c, inner);
    pieces::lemma_replaced(pre, old_element, new_element, post);
    xmplaws::lemma_described(pre, content, w, post);
    xmplaws::lemma_described(pre, c, inner, post);
    pieces::lemma_behind(pre + old_element, post, 0, false, 0);
    pieces::lemma_behind(pre + new_element, post, 0, false, 0);
    pre + new_element + post
}

/// The same of a packet whose first description closes itself: its properties are all in
/// attribute form, and those that the edit sets become elements inside it.
#[verifier::spinoff_prover]
pub proof fn edit_fills_the_description(
    pre: Seq<PieceView>,
    content: Seq<char>,
    post: Seq<PieceView>,
    list: Seq<(Seq<char>, Seq<char>)>,
    edit: EditView,
) -> (out: Seq<PieceView>)
    requires
        xml::well_formed(pre + seq![PieceView::SelfClosed(content)] + post),
        forall|i: int| 0 <= i < pre.len() ==> !pieces::begins_description(#[trigger] pre[i]),
        xml::name_in(content) == "rdf:Description"@,
        xmp::description_known(pieces::plain_events(pre + seq![PieceView::SelfClosed(content)] + post), 0),
        pieces::known_attributes(content) == xml::as_attributes(list),
        xml::attributes_ok(list),
        pieces::keys_plain(list),
        xmplaws::names_fit(edit.sets),
    ensures
        ({
            let v = pre + seq![PieceView::SelfClosed(content)] + post;
            let attributes = xmp::attribute_properties(xml::as_attributes(list));
            let behind = pieces::properties_in(post, 0, false, 0);
            &&& pieces::plain_properties(v) == attributes + behind
            &&& xmp::edited_events(pieces::plain_events(v), edit) == Ok::<Seq<char>, xmp::ErrorView>(
                xml::pieces_text(out),
            )
            &&& xml::well_formed(out)
            &&& pieces::plain_properties(out) == unnamed(attributes, edit) + added(
                edit.sets,
                edit,
                Seq::empty(),
            ) + behind
        }),
{
    let single = seq![PieceView::SelfClosed(content)];
    let v = pre + single + post;
    let ev = pieces::plain_events(v);
    let i = pre.len() as int;
    let c = xml::tag_content("rdf:Description"@, new_list(list, edit));
    assert(v =~= pre + (single + post));
    lemma_description_known(pre, single + post, 0);
    let inner = lemma_filled(edit.sets, edit);
    lemma_single_edited(pre, content, post, list, edit, inner);
    lemma_new_tag(content, list, edit);
    let new_element = pieces::element_of(c, inner);
    assert(v[i] == PieceView::SelfClosed(content));
    assert(xml::piece_ok(v[i]));
    pieces::lemma_one_formed(single[0]);
    pieces::lemma_element_formed(c, inner);
    pieces::lemma_replaced(pre, single, new_element, post);
    assert forall|k: int| 0 <= k < i implies !pieces::begins_description(#[trigger] v[k]) by {
        assert(v[k] == pre[k]);
    }
    pieces::lemma_outside(v, 0, i, 0);
    pieces::lemma_in_attributes(v, i);
    pieces::lemma_behind(pre + single, post, 0, false, 0);
    xmplaws::lemma_described(pre, c, inner, post);
    pieces::lemma_behind(pre + new_element, post, 0, false, 0);
    pre + new_element + post
}

/// What an edit writes for a packet whose description closes itself.
proof fn lemma_single_edited(
    pre: Seq<PieceView>,
    content: Seq<char>,
    post: Seq<PieceView>,
    list: Seq<(Seq<char>, Seq<char>)>,
    edit: EditView,
    inner: Seq<PieceView>,
)
    requires
        xml::well_formed(pre + seq![PieceView::SelfClosed(content)] + post),
        forall|i: int| 0 <= i < pre.len() ==> !pieces::begins_description(#[trigger] pre[i]),
        xml::name_in(content) == "rdf:Description"@,
        xml::attributes_known("rdf:Description"@, content),
        pieces::known_attributes(content) == xml::as_attributes(list),
        xml::attributes_ok(list),
        pieces::keys_plain(list),
        xml::pieces_text(inner) == xmp::filled(edit.sets, edit),
    ensures
        ({
            let v = pre + seq![PieceView::SelfClosed(content)] + post;
            let c = xml::tag_content("rdf:Description"@, new_list(list, edit));
            xmp::edited_events(pieces::plain_events(v), edit) == Ok::<Seq<char>, xmp::ErrorView>(
                xml::pieces_text(pre + pieces::element_of(c, inner) + post),
            )
        }),
{
    let single = seq![PieceView::SelfClosed(content)];
    let v = pre + single + post;
    let ev = pieces::plain_events(v);
    let i = pre.len() as int;
    let c = xml::tag_content("rdf:Description"@, new_list(list, edit));
    assert(v[i] == PieceView::SelfClosed(content));
    assert(v =~= pre + (single + post));
    lemma_reached(pre, single + post, edit);
    lemma_new_tag(content, list, edit);
    pieces::lemma_event(v, i);
    let p = Progress { out: xml::pieces_text(pre), ..xmp::at_start() };
    let q = Progress {
        pending: false,
        done: xmp::all_done(edit.sets, p.done),
        out: p.out + ("<"@ + c + ">"@) + xmp::filled(edit.sets, edit) + "</rdf:Description>"@,
        ..p
    };
    assert(xmp::edited_from(ev, i, p, edit) == xmp::edited_from(ev, i + 1, q, edit));
    lemma_finished(pre + single, post, q, edit);
    lemma_between(pre, c, inner, post);
}

} // verus!
