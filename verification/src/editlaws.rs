//! What requests for XMP and IPTC ask for.

use vstd::prelude::*;
use vstd::string::*;
use crate::cli::{IptcArgs, XmpArgs};
use crate::editcmd;
use crate::editcmd::{Fields, Sets};
use crate::iptc;
use crate::text;
use crate::textlaws;
use crate::xmp::ValueView;

verus! {

proof fn lemma_either<A>(a: Seq<A>, b: Seq<A>, x: A)
    ensures
        (a + b).contains(x) <==> a.contains(x) || b.contains(x),
{
    let s = a + b;
    if a.contains(x) {
        let i = choose|i: int| 0 <= i < a.len() && a[i] == x;
        assert(s[i] == x);
    }
    if b.contains(x) {
        let i = choose|i: int| 0 <= i < b.len() && b[i] == x;
        assert(s[a.len() + i] == x);
    }
    if s.contains(x) {
        let i = choose|i: int| 0 <= i < s.len() && s[i] == x;
        if i < a.len() {
            assert(a[i] == x);
        } else {
            assert(b[i - a.len()] == x);
        }
    }
}

proof fn lemma_only<A>(y: A, x: A)
    ensures
        seq![y].contains(x) <==> x == y,
{
    assert(seq![y][0] == y);
}

proof fn lemma_named_parts(a: XmpArgs, x: (Seq<char>, ValueView))
    ensures
        editcmd::named_sets(a).contains(x) <==> {
            ||| editcmd::lang_set("dc:title"@, a.title).contains(x)
            ||| editcmd::lang_set("dc:description"@, a.description).contains(x)
            ||| a.creator@.len() > 0 && x == ("dc:creator"@, ValueView::Ordered(text::views(a.creator@)))
            ||| editcmd::lang_set("dc:rights"@, a.rights).contains(x)
            ||| a.rating is Some && x == ("xmp:Rating"@, ValueView::Simple(text::dec(a.rating->0 as nat)))
            ||| editcmd::plain_set("xmp:Label"@, a.label).contains(x)
            ||| a.keywords is Some && x == ("dc:subject"@, ValueView::Bag(editcmd::listed((a.keywords->0)@)))
            ||| editcmd::plain_set("photoshop:City"@, a.city).contains(x)
            ||| editcmd::plain_set("photoshop:Country"@, a.country).contains(x)
        },
{
    let t = editcmd::lang_set("dc:title"@, a.title);
    let d = editcmd::lang_set("dc:description"@, a.description);
    let c: Sets = if a.creator@.len() > 0 {
        seq![("dc:creator"@, ValueView::Ordered(text::views(a.creator@)))]
    } else {
        Seq::empty()
    };
    let r = editcmd::lang_set("dc:rights"@, a.rights);
    let n: Sets = match a.rating {
        Some(r) => seq![("xmp:Rating"@, ValueView::Simple(text::dec(r as nat)))],
        None => Seq::empty(),
    };
    let l = editcmd::plain_set("xmp:Label"@, a.label);
    let k: Sets = match a.keywords {
        Some(s) => seq![("dc:subject"@, ValueView::Bag(editcmd::listed(s@)))],
        None => Seq::empty(),
    };
    let y = editcmd::plain_set("photoshop:City"@, a.city);
    let z = editcmd::plain_set("photoshop:Country"@, a.country);
    assert(editcmd::named_sets(a) == t + d + c + r + n + l + k + y + z);
    lemma_either(t, d, x);
    lemma_either(t + d, c, x);
    lemma_either(t + d + c, r, x);
    lemma_either(t + d + c + r, n, x);
    lemma_either(t + d + c + r + n, l, x);
    lemma_either(t + d + c + r + n + l, k, x);
    lemma_either(t + d + c + r + n + l + k, y, x);
    lemma_either(t + d + c + r + n + l + k + y, z, x);
    lemma_only(("dc:creator"@, ValueView::Ordered(text::views(a.creator@))), x);
    lemma_only(("xmp:Rating"@, ValueView::Simple(text::dec(a.rating->0 as nat))), x);
    lemma_only(("dc:subject"@, ValueView::Bag(editcmd::listed((a.keywords->0)@))), x);
}

proof fn lemma_paired(pairs: Seq<Seq<char>>, i: int, sets: Sets)
    requires
        0 <= i <= pairs.len(),
        editcmd::paired_sets(pairs, i, sets) is Ok,
    ensures
        ({
            let r = editcmd::paired_sets(pairs, i, sets)->Ok_0;
            &&& r.len() == sets.len() + pairs.len() - i
            &&& forall|k: int| 0 <= k < sets.len() ==> #[trigger] r[k] == sets[k]
            &&& forall|k: int|
                i <= k < pairs.len() ==> {
                    let cut = text::cut_at(#[trigger] pairs[k], '=');
                    cut is Some && r[sets.len() + k - i] == (
                        text::trimmed((cut->0).0),
                        ValueView::Simple((cut->0).1),
                    )
                }
        }),
    decreases pairs.len() - i,
{
    if i < pairs.len() {
        let cut = text::cut_at(pairs[i], '=');
        let (left, value) = cut->0;
        let next = sets.push((text::trimmed(left), ValueView::Simple(value)));
        lemma_paired(pairs, i + 1, next);
        let r = editcmd::paired_sets(pairs, i, sets)->Ok_0;
        assert(r[sets.len() as int] == next[sets.len() as int]);
        assert forall|k: int| 0 <= k < sets.len() implies #[trigger] r[k] == sets[k] by {
            assert(r[k] == next[k]);
        }
    }
}

/// What a request for XMP sets: each option its property, in the form that it has there, and each
/// pair the property that it names. What it removes are the names that it gives.
pub proof fn options_set_their_properties(a: XmpArgs)
    requires
        editcmd::xmp_edit_of(a) is Ok,
    ensures
        ({
            let sets = (editcmd::xmp_edit_of(a)->Ok_0).sets;
            let removes = (editcmd::xmp_edit_of(a)->Ok_0).removes;
            &&& a.title is Some ==> sets.contains(("dc:title"@, ValueView::LangAlt((a.title->0)@)))
            &&& a.description is Some ==> sets.contains(("dc:description"@, ValueView::LangAlt((a.description->0)@)))
            &&& a.creator@.len() > 0 ==> sets.contains(("dc:creator"@, ValueView::Ordered(text::views(a.creator@))))
            &&& a.rights is Some ==> sets.contains(("dc:rights"@, ValueView::LangAlt((a.rights->0)@)))
            &&& a.rating is Some ==> 0 <= a.rating->0 <= 5 && sets.contains(
                ("xmp:Rating"@, ValueView::Simple(text::dec(a.rating->0 as nat))),
            )
            &&& a.label is Some ==> sets.contains(("xmp:Label"@, ValueView::Simple((a.label->0)@)))
            &&& a.keywords is Some ==> sets.contains(
                ("dc:subject"@, ValueView::Bag(editcmd::listed((a.keywords->0)@))),
            )
            &&& a.city is Some ==> sets.contains(("photoshop:City"@, ValueView::Simple((a.city->0)@)))
            &&& a.country is Some ==> sets.contains(("photoshop:Country"@, ValueView::Simple((a.country->0)@)))
            &&& removes.len() == a.remove@.len()
            &&& forall|i: int| 0 <= i < removes.len() ==> #[trigger] removes[i] == text::trimmed(a.remove@[i]@)
        }),
{
    let sets = (editcmd::xmp_edit_of(a)->Ok_0).sets;
    let named = editcmd::named_sets(a);
    lemma_paired(text::views(a.set@), 0, named);
    assert forall|x: (Seq<char>, ValueView)| #[trigger] named.contains(x) implies sets.contains(x) by {
        let i = choose|i: int| 0 <= i < named.len() && named[i] == x;
        assert(sets[i] == x);
    }
    let t = ("dc:title"@, ValueView::LangAlt((a.title->0)@));
    let d = ("dc:description"@, ValueView::LangAlt((a.description->0)@));
    let r = ("dc:rights"@, ValueView::LangAlt((a.rights->0)@));
    let l = ("xmp:Label"@, ValueView::Simple((a.label->0)@));
    let y = ("photoshop:City"@, ValueView::Simple((a.city->0)@));
    let z = ("photoshop:Country"@, ValueView::Simple((a.country->0)@));
    lemma_only(t, t);
    lemma_only(d, d);
    lemma_only(r, r);
    lemma_only(l, l);
    lemma_only(y, y);
    lemma_only(z, z);
    lemma_named_parts(a, t);
    lemma_named_parts(a, d);
    lemma_named_parts(a, r);
    lemma_named_parts(a, l);
    lemma_named_parts(a, y);
    lemma_named_parts(a, z);
    lemma_named_parts(a, ("dc:creator"@, ValueView::Ordered(text::views(a.creator@))));
    lemma_named_parts(a, ("xmp:Rating"@, ValueView::Simple(text::dec(a.rating->0 as nat))));
    lemma_named_parts(a, ("dc:subject"@, ValueView::Bag(editcmd::listed((a.keywords->0)@))));
}

/// A pair of a request for XMP sets the property in front of the equals sign to what is behind it.
pub proof fn pairs_set_their_properties(a: XmpArgs, k: int)
    requires
        editcmd::xmp_edit_of(a) is Ok,
        0 <= k < a.set@.len(),
    ensures
        ({
            let sets = (editcmd::xmp_edit_of(a)->Ok_0).sets;
            let cut = text::cut_at(a.set@[k]@, '=');
            &&& cut is Some
            &&& sets.contains((text::trimmed((cut->0).0), ValueView::Simple((cut->0).1)))
        }),
{
    let pairs = text::views(a.set@);
    let named = editcmd::named_sets(a);
    lemma_paired(pairs, 0, named);
    let sets = (editcmd::xmp_edit_of(a)->Ok_0).sets;
    assert(pairs[k] == a.set@[k]@);
    let cut = text::cut_at(pairs[k], '=');
    assert(sets[named.len() + k] == (text::trimmed((cut->0).0), ValueView::Simple((cut->0).1)));
}

/// A rating that there is none of is refused, and so is a request that both removes the packet and
/// changes it, or asks for nothing.
pub proof fn senseless_requests_are_refused(a: XmpArgs)
    ensures
        a.rating is Some && (a.rating->0 < 0 || a.rating->0 > 5) ==> editcmd::xmp_request_of(a) is Err,
        a.clear && (a.title is Some || a.description is Some || a.creator@.len() > 0 || a.rights is Some
            || a.rating is Some || a.label is Some || a.keywords is Some || a.city is Some || a.country is Some
            || a.set@.len() > 0 || a.remove@.len() > 0) ==> editcmd::xmp_request_of(a) is Err,
        !a.clear && a.title is None && a.description is None && a.creator@.len() == 0 && a.rights is None
            && a.rating is None && a.label is None && a.keywords is None && a.city is None && a.country is None
            && a.set@.len() == 0 && a.remove@.len() == 0 ==> editcmd::xmp_request_of(a) is Err,
        editcmd::xmp_request_of(a) is Ok ==> editcmd::xmp_request_of(a) == editcmd::xmp_edit_of(a),
{
    if a.set@.len() == 0 {
        assert(text::views(a.set@).len() == 0);
    }
}

/// Another keyword behind a list, with a comma between, is the last of the list.
pub proof fn keywords_are_listed(list: Seq<char>, word: Seq<char>)
    requires
        word.len() > 0,
        textlaws::is_trimmed(word),
        !word.contains(','),
    ensures
        editcmd::listed(word) == seq![word],
        editcmd::listed(list + ","@ + word) == editcmd::listed(list).push(word),
{
    reveal_strlit(",");
    let seps = seq![','];
    assert(","@ =~= seps);
    assert(seps[0] == ',');
    assert forall|i: int| 0 <= i < word.len() implies !seps.contains(#[trigger] word[i]) by {
        assert(word.contains(word[i]));
    }
    textlaws::lists_come_apart(list, ',', word, seps);
    textlaws::lemma_trimmed_same(word);
    let v = text::split_any(list, seps);
    assert(v.push(word).drop_last() =~= v);
    let e = Seq::<Seq<char>>::empty();
    assert(seq![word].drop_last() =~= e);
    assert(text::filled(e) =~= e);
    assert(text::filled(seq![word]) =~= seq![word]);
}

// ---- IPTC -------------------------------------------------------------------------------

proof fn lemma_named_field(a: IptcArgs, x: (u8, u8, Seq<Seq<char>>))
    ensures
        editcmd::named_fields(a).contains(x) <==> {
            ||| editcmd::one_field(5, a.title).contains(x)
            ||| editcmd::one_field(120, a.description).contains(x)
            ||| editcmd::one_field(105, a.headline).contains(x)
            ||| editcmd::one_field(90, a.city).contains(x)
            ||| editcmd::one_field(95, a.state).contains(x)
            ||| editcmd::one_field(101, a.country).contains(x)
            ||| editcmd::one_field(116, a.copyright).contains(x)
            ||| editcmd::one_field(110, a.credit).contains(x)
            ||| editcmd::one_field(115, a.source).contains(x)
            ||| editcmd::one_field(40, a.instructions).contains(x)
            ||| a.keywords is Some && x == (2u8, 25u8, editcmd::listed((a.keywords->0)@))
            ||| a.creator@.len() > 0 && x == (2u8, 80u8, text::views(a.creator@))
        },
{
    let f1 = editcmd::one_field(5, a.title);
    let f2 = editcmd::one_field(120, a.description);
    let f3 = editcmd::one_field(105, a.headline);
    let f4 = editcmd::one_field(90, a.city);
    let f5 = editcmd::one_field(95, a.state);
    let f6 = editcmd::one_field(101, a.country);
    let f7 = editcmd::one_field(116, a.copyright);
    let f8 = editcmd::one_field(110, a.credit);
    let f9 = editcmd::one_field(115, a.source);
    let f10 = editcmd::one_field(40, a.instructions);
    let f11: Fields = match a.keywords {
        Some(s) => seq![(2u8, 25u8, editcmd::listed(s@))],
        None => Seq::empty(),
    };
    let f12: Fields = if a.creator@.len() > 0 {
        seq![(2u8, 80u8, text::views(a.creator@))]
    } else {
        Seq::empty()
    };
    assert(editcmd::named_fields(a) == f1 + f2 + f3 + f4 + f5 + f6 + f7 + f8 + f9 + f10 + f11 + f12);
    lemma_either(f1, f2, x);
    lemma_either(f1 + f2, f3, x);
    lemma_either(f1 + f2 + f3, f4, x);
    lemma_either(f1 + f2 + f3 + f4, f5, x);
    lemma_either(f1 + f2 + f3 + f4 + f5, f6, x);
    lemma_either(f1 + f2 + f3 + f4 + f5 + f6, f7, x);
    lemma_either(f1 + f2 + f3 + f4 + f5 + f6 + f7, f8, x);
    lemma_either(f1 + f2 + f3 + f4 + f5 + f6 + f7 + f8, f9, x);
    lemma_either(f1 + f2 + f3 + f4 + f5 + f6 + f7 + f8 + f9, f10, x);
    lemma_either(f1 + f2 + f3 + f4 + f5 + f6 + f7 + f8 + f9 + f10, f11, x);
    lemma_either(f1 + f2 + f3 + f4 + f5 + f6 + f7 + f8 + f9 + f10 + f11, f12, x);
    lemma_only((2u8, 25u8, editcmd::listed((a.keywords->0)@)), x);
    lemma_only((2u8, 80u8, text::views(a.creator@)), x);
}

proof fn lemma_one_field(a: IptcArgs, number: u8, value: Option<String>)
    requires
        value is Some,
    ensures
        editcmd::one_field(number, value).contains((2u8, number, seq![(value->0)@])),
{
    lemma_only((2u8, number, seq![(value->0)@]), (2u8, number, seq![(value->0)@]));
}

proof fn lemma_paired_fields(pairs: Seq<Seq<char>>, i: int, fields: Fields)
    requires
        0 <= i <= pairs.len(),
        editcmd::paired_fields(pairs, i, fields) is Ok,
    ensures
        ({
            let r = editcmd::paired_fields(pairs, i, fields)->Ok_0;
            &&& r.len() == fields.len() + pairs.len() - i
            &&& forall|k: int| 0 <= k < fields.len() ==> #[trigger] r[k] == fields[k]
            &&& forall|k: int|
                i <= k < pairs.len() ==> {
                    let cut = text::cut_at(#[trigger] pairs[k], '=');
                    let f = iptc::field_of((cut->0).0);
                    cut is Some && f is Some && r[fields.len() + k - i] == ((f->0).0, (f->0).1, seq![(cut->0).1])
                }
        }),
    decreases pairs.len() - i,
{
    if i < pairs.len() {
        let (name, value) = text::cut_at(pairs[i], '=')->0;
        let (record, number) = iptc::field_of(name)->0;
        let next = fields.push((record, number, seq![value]));
        lemma_paired_fields(pairs, i + 1, next);
        let r = editcmd::paired_fields(pairs, i, fields)->Ok_0;
        assert(r[fields.len() as int] == next[fields.len() as int]);
        assert forall|k: int| 0 <= k < fields.len() implies #[trigger] r[k] == fields[k] by {
            assert(r[k] == next[k]);
        }
    }
}

proof fn lemma_removed(names: Seq<Seq<char>>, i: int, v: Seq<(u8, u8)>)
    requires
        0 <= i <= names.len(),
        editcmd::removed_fields(names, i, v) is Ok,
    ensures
        ({
            let r = editcmd::removed_fields(names, i, v)->Ok_0;
            &&& r.len() == v.len() + names.len() - i
            &&& forall|k: int| 0 <= k < v.len() ==> #[trigger] r[k] == v[k]
            &&& forall|k: int|
                i <= k < names.len() ==> iptc::field_of(#[trigger] names[k]) == Some(r[v.len() + k - i])
        }),
    decreases names.len() - i,
{
    if i < names.len() {
        let next = v.push(iptc::field_of(names[i])->0);
        lemma_removed(names, i + 1, next);
        let r = editcmd::removed_fields(names, i, v)->Ok_0;
        assert(r[v.len() as int] == next[v.len() as int]);
        assert forall|k: int| 0 <= k < v.len() implies #[trigger] r[k] == v[k] by {
            assert(r[k] == next[k]);
        }
    }
}

/// What a request for IPTC sets: each option the field of its number.
pub proof fn options_set_their_fields(a: IptcArgs)
    requires
        editcmd::iptc_edit_of(a) is Ok,
    ensures
        ({
            let f = (editcmd::iptc_edit_of(a)->Ok_0).0;
            &&& a.title is Some ==> f.contains((2u8, 5u8, seq![(a.title->0)@]))
            &&& a.description is Some ==> f.contains((2u8, 120u8, seq![(a.description->0)@]))
            &&& a.headline is Some ==> f.contains((2u8, 105u8, seq![(a.headline->0)@]))
            &&& a.city is Some ==> f.contains((2u8, 90u8, seq![(a.city->0)@]))
            &&& a.state is Some ==> f.contains((2u8, 95u8, seq![(a.state->0)@]))
            &&& a.country is Some ==> f.contains((2u8, 101u8, seq![(a.country->0)@]))
            &&& a.copyright is Some ==> f.contains((2u8, 116u8, seq![(a.copyright->0)@]))
            &&& a.credit is Some ==> f.contains((2u8, 110u8, seq![(a.credit->0)@]))
            &&& a.source is Some ==> f.contains((2u8, 115u8, seq![(a.source->0)@]))
            &&& a.instructions is Some ==> f.contains((2u8, 40u8, seq![(a.instructions->0)@]))
            &&& a.keywords is Some ==> f.contains((2u8, 25u8, editcmd::listed((a.keywords->0)@)))
            &&& a.creator@.len() > 0 ==> f.contains((2u8, 80u8, text::views(a.creator@)))
        }),
{
    let f = (editcmd::iptc_edit_of(a)->Ok_0).0;
    let named = editcmd::named_fields(a);
    lemma_paired_fields(text::views(a.set@), 0, named);
    assert forall|x: (u8, u8, Seq<Seq<char>>)| #[trigger] named.contains(x) implies f.contains(x) by {
        let i = choose|i: int| 0 <= i < named.len() && named[i] == x;
        assert(f[i] == x);
    }
    if a.title is Some {
        lemma_one_field(a, 5, a.title);
        lemma_named_field(a, (2u8, 5u8, seq![(a.title->0)@]));
    }
    if a.description is Some {
        lemma_one_field(a, 120, a.description);
        lemma_named_field(a, (2u8, 120u8, seq![(a.description->0)@]));
    }
    if a.headline is Some {
        lemma_one_field(a, 105, a.headline);
        lemma_named_field(a, (2u8, 105u8, seq![(a.headline->0)@]));
    }
    if a.city is Some {
        lemma_one_field(a, 90, a.city);
        lemma_named_field(a, (2u8, 90u8, seq![(a.city->0)@]));
    }
    if a.state is Some {
        lemma_one_field(a, 95, a.state);
        lemma_named_field(a, (2u8, 95u8, seq![(a.state->0)@]));
    }
    if a.country is Some {
        lemma_one_field(a, 101, a.country);
        lemma_named_field(a, (2u8, 101u8, seq![(a.country->0)@]));
    }
    if a.copyright is Some {
        lemma_one_field(a, 116, a.copyright);
        lemma_named_field(a, (2u8, 116u8, seq![(a.copyright->0)@]));
    }
    if a.credit is Some {
        lemma_one_field(a, 110, a.credit);
        lemma_named_field(a, (2u8, 110u8, seq![(a.credit->0)@]));
    }
    if a.source is Some {
        lemma_one_field(a, 115, a.source);
        lemma_named_field(a, (2u8, 115u8, seq![(a.source->0)@]));
    }
    if a.instructions is Some {
        lemma_one_field(a, 40, a.instructions);
        lemma_named_field(a, (2u8, 40u8, seq![(a.instructions->0)@]));
    }
    lemma_named_field(a, (2u8, 25u8, editcmd::listed((a.keywords->0)@)));
    lemma_named_field(a, (2u8, 80u8, text::views(a.creator@)));
}

/// A pair of a request for IPTC sets the field in front of the equals sign to what is behind it, and
/// the names of fields to remove are those that are removed.
pub proof fn pairs_set_their_fields(a: IptcArgs, k: int)
    requires
        editcmd::iptc_edit_of(a) is Ok,
    ensures
        ({
            let (fields, removes) = editcmd::iptc_edit_of(a)->Ok_0;
            &&& 0 <= k < a.set@.len() ==> {
                let cut = text::cut_at(a.set@[k]@, '=');
                let f = iptc::field_of((cut->0).0);
                cut is Some && f is Some && fields.contains(((f->0).0, (f->0).1, seq![(cut->0).1]))
            }
            &&& removes.len() == a.remove@.len()
            &&& 0 <= k < a.remove@.len() ==> iptc::field_of(a.remove@[k]@) == Some(removes[k])
        }),
{
    let (fields, removes) = editcmd::iptc_edit_of(a)->Ok_0;
    let pairs = text::views(a.set@);
    let named = editcmd::named_fields(a);
    lemma_paired_fields(pairs, 0, named);
    lemma_removed(text::views(a.remove@), 0, Seq::empty());
    if 0 <= k < a.set@.len() {
        assert(pairs[k] == a.set@[k]@);
        let cut = text::cut_at(pairs[k], '=');
        let f = iptc::field_of((cut->0).0);
        assert(fields[named.len() + k] == ((f->0).0, (f->0).1, seq![(cut->0).1]));
    }
    if 0 <= k < a.remove@.len() {
        assert(text::views(a.remove@)[k] == a.remove@[k]@);
    }
}

} // verus!
