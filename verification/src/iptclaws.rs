//! What is shown of IPTC, in terms of the datasets and of the edits that made them.

use vstd::prelude::*;
use vstd::string::*;
use vstd::utf8::encode_utf8;
use crate::iptc;
use crate::iptc::{DatasetView, IptcEdit};
use crate::jpeg;
use crate::text;

verus! {

/// The datasets that are shown under a name, in their order.
pub open spec fn shown_as(s: Seq<DatasetView>, name: Seq<char>) -> Seq<DatasetView> {
    s.filter(|d: DatasetView| d.record != 1 && iptc::display_name(d.record, d.number) == name)
}

/// Their texts.
pub open spec fn texts_of(s: Seq<DatasetView>, utf8: bool, name: Seq<char>) -> Seq<Seq<char>> {
    shown_as(s, name).map_values(|d: DatasetView| iptc::dataset_text(d.data, utf8))
}

proof fn lemma_entry(s: iptc::Properties, i: int, name: Seq<char>)
    requires
        0 <= i <= s.len(),
    ensures
        match iptc::entry_from(s, i, name) {
            Some(k) => i <= k < s.len() && s[k].0 == name,
            None => forall|k: int| i <= k < s.len() ==> (#[trigger] s[k]).0 != name,
        },
    decreases s.len() - i,
{
    if i < s.len() && s[i].0 != name {
        lemma_entry(s, i + 1, name);
    }
}

proof fn lemma_texts_step(s: Seq<DatasetView>, utf8: bool, name: Seq<char>)
    requires
        s.len() > 0,
    ensures
        texts_of(s, utf8, name) == if s.last().record != 1 && iptc::display_name(s.last().record, s.last().number)
            == name {
            texts_of(s.drop_last(), utf8, name).push(iptc::dataset_text(s.last().data, utf8))
        } else {
            texts_of(s.drop_last(), utf8, name)
        },
{
    reveal(Seq::filter);
    let d = s.last();
    if d.record != 1 && iptc::display_name(d.record, d.number) == name {
        assert(shown_as(s, name) =~= shown_as(s.drop_last(), name).push(d));
        assert(texts_of(s, utf8, name) =~= texts_of(s.drop_last(), utf8, name).push(
            iptc::dataset_text(d.data, utf8),
        ));
    } else {
        assert(shown_as(s, name) =~= shown_as(s.drop_last(), name));
    }
}

/// What is shown under a name is the texts of all datasets of that name outside the envelope
/// record, in their order, with a semicolon and a space between. Each name is shown once, and no
/// dataset outside the envelope record is left out.
pub proof fn repeated_fields_are_listed(s: Seq<DatasetView>, utf8: bool)
    ensures
        forall|i: int|
            0 <= i < iptc::shown(s, utf8).len() ==> (#[trigger] iptc::shown(s, utf8)[i]).1 == text::joined(
                texts_of(s, utf8, iptc::shown(s, utf8)[i].0),
                "; "@,
            ),
        forall|i: int, j: int|
            0 <= i < j < iptc::shown(s, utf8).len() ==> (#[trigger] iptc::shown(s, utf8)[i]).0 != (
            #[trigger] iptc::shown(s, utf8)[j]).0,
        forall|name: Seq<char>|
            (#[trigger] texts_of(s, utf8, name)).len() > 0 <==> exists|i: int|
                0 <= i < iptc::shown(s, utf8).len() && (#[trigger] iptc::shown(s, utf8)[i]).0 == name,
    decreases s.len(),
{
    let out = iptc::shown(s, utf8);
    if s.len() == 0 {
        reveal(Seq::filter);
        assert forall|name: Seq<char>| (#[trigger] texts_of(s, utf8, name)).len() == 0 by {
            assert(shown_as(s, name) =~= s);
        }
    } else {
        let init = s.drop_last();
        let before = iptc::shown(init, utf8);
        let d = s.last();
        let own = iptc::display_name(d.record, d.number);
        let value = iptc::dataset_text(d.data, utf8);
        repeated_fields_are_listed(init, utf8);
        assert forall|name: Seq<char>| #[trigger] texts_of(s, utf8, name) == if d.record != 1 && own == name {
            texts_of(init, utf8, name).push(value)
        } else {
            texts_of(init, utf8, name)
        } by {
            lemma_texts_step(s, utf8, name);
        }
        if d.record != 1 {
            lemma_entry(before, 0, own);
            match iptc::entry_from(before, 0, own) {
                Some(k) => {
                    assert forall|i: int| 0 <= i < out.len() implies (#[trigger] out[i]).1 == text::joined(
                        texts_of(s, utf8, out[i].0),
                        "; "@,
                    ) by {
                        if i == k {
                            let parts = texts_of(init, utf8, own);
                            assert(before[k].1 == text::joined(parts, "; "@));
                            assert(parts.len() > 0);
                            assert(parts.push(value).drop_last() =~= parts);
                            assert(parts.push(value).last() == value);
                        } else {
                            assert(out[i] == before[i]);
                            assert(before[i].0 != before[k].0);
                        }
                    }
                    assert forall|i: int, j: int| 0 <= i < j < out.len() implies (#[trigger] out[i]).0 != (
                    #[trigger] out[j]).0 by {
                        assert(out[i].0 == before[i].0 && out[j].0 == before[j].0);
                    }
                    assert forall|name: Seq<char>| (#[trigger] texts_of(s, utf8, name)).len() > 0 <==> exists|i: int|
                        0 <= i < out.len() && (#[trigger] out[i]).0 == name by {
                        lemma_same_names(before, out, name);
                        if name == own {
                            assert(out[k].0 == own);
                        }
                    }
                },
                None => {
                    let last = out.len() - 1;
                    assert(texts_of(init, utf8, own).len() == 0);
                    assert forall|i: int| 0 <= i < out.len() implies (#[trigger] out[i]).1 == text::joined(
                        texts_of(s, utf8, out[i].0),
                        "; "@,
                    ) by {
                        if i < last {
                            assert(out[i] == before[i]);
                        } else {
                            assert(texts_of(s, utf8, own)[0] == value);
                        }
                    }
                    assert forall|i: int, j: int| 0 <= i < j < out.len() implies (#[trigger] out[i]).0 != (
                    #[trigger] out[j]).0 by {
                        assert(out[i] == before[i]);
                        if j < last {
                            assert(out[j] == before[j]);
                        }
                    }
                    assert forall|name: Seq<char>| (#[trigger] texts_of(s, utf8, name)).len() > 0 <==> exists|i: int|
                        0 <= i < out.len() && (#[trigger] out[i]).0 == name by {
                        if name == own {
                            assert(out[last].0 == own);
                        } else {
                            if texts_of(init, utf8, name).len() > 0 {
                                let i = choose|i: int| 0 <= i < before.len() && (#[trigger] before[i]).0 == name;
                                assert(out[i].0 == name);
                            }
                            if exists|i: int| 0 <= i < out.len() && (#[trigger] out[i]).0 == name {
                                let i = choose|i: int| 0 <= i < out.len() && (#[trigger] out[i]).0 == name;
                                assert(before[i].0 == name);
                            }
                        }
                    }
                },
            }
        }
    }
}

proof fn lemma_same_names(a: iptc::Properties, b: iptc::Properties, name: Seq<char>)
    requires
        a.len() == b.len(),
        forall|i: int| 0 <= i < a.len() ==> (#[trigger] a[i]).0 == b[i].0,
    ensures
        (exists|i: int| 0 <= i < a.len() && (#[trigger] a[i]).0 == name) <==> (exists|i: int|
            0 <= i < b.len() && (#[trigger] b[i]).0 == name),
{
    if exists|i: int| 0 <= i < a.len() && (#[trigger] a[i]).0 == name {
        let i = choose|i: int| 0 <= i < a.len() && (#[trigger] a[i]).0 == name;
        assert(b[i].0 == name);
    }
    if exists|i: int| 0 <= i < b.len() && (#[trigger] b[i]).0 == name {
        let i = choose|i: int| 0 <= i < b.len() && (#[trigger] b[i]).0 == name;
        assert(a[i].0 == name);
    }
}

proof fn lemma_in_number(s: Seq<DatasetView>, d: DatasetView)
    ensures
        s.contains(d) <==> iptc::of_number(s, d.record, d.number).contains(d),
    decreases s.len(),
{
    if s.len() > 0 {
        let init = s.drop_last();
        let r = iptc::of_number(s, d.record, d.number);
        let q = iptc::of_number(init, d.record, d.number);
        lemma_in_number(init, d);
        if s.contains(d) {
            let k = choose|k: int| 0 <= k < s.len() && s[k] == d;
            if k < init.len() {
                assert(init[k] == d);
                let j = choose|j: int| 0 <= j < q.len() && q[j] == d;
                assert(r[j] == d);
            } else {
                assert(r[r.len() - 1] == d);
            }
        }
        if r.contains(d) {
            let j = choose|j: int| 0 <= j < r.len() && r[j] == d;
            if j < q.len() {
                assert(q[j] == d);
                let k = choose|k: int| 0 <= k < init.len() && init[k] == d;
                assert(s[k] == d);
            } else {
                assert(s[s.len() - 1] == d);
            }
        }
    }
}

proof fn lemma_added(sets: Seq<(u8, u8, Vec<String>)>, k: int, j: int)
    requires
        0 <= k < sets.len(),
        0 <= j < sets[k].2@.len(),
    ensures
        iptc::added(sets).contains(
            (DatasetView { record: sets[k].0, number: sets[k].1, data: encode_utf8(sets[k].2@[j]@) }),
        ),
    decreases sets.len(),
{
    let d = DatasetView { record: sets[k].0, number: sets[k].1, data: encode_utf8(sets[k].2@[j]@) };
    let all = iptc::added(sets);
    let init = iptc::added(sets.drop_last());
    if k == sets.len() - 1 {
        assert(all[init.len() + j] == d);
    } else {
        lemma_added(sets.drop_last(), k, j);
        let i = choose|i: int| 0 <= i < init.len() && init[i] == d;
        assert(all[i] == d);
    }
}

/// A part of a list stands in the joined list.
proof fn lemma_part_in_joined(parts: Seq<Seq<char>>, sep: Seq<char>, i: int) -> (at: int)
    requires
        0 <= i < parts.len(),
    ensures
        text::occurs_at(text::joined(parts, sep), at, parts[i]),
    decreases parts.len(),
{
    let whole = text::joined(parts, sep);
    if parts.len() == 1 {
        assert(whole.subrange(0, whole.len() as int) =~= parts[0]);
        0
    } else if i == parts.len() - 1 {
        let head = text::joined(parts.drop_last(), sep) + sep;
        assert(whole.subrange(head.len() as int, whole.len() as int) =~= parts[i]);
        head.len() as int
    } else {
        let head = text::joined(parts.drop_last(), sep);
        let at = lemma_part_in_joined(parts.drop_last(), sep, i);
        assert(whole.subrange(at, at + parts[i].len()) =~= head.subrange(at, at + parts[i].len()));
        at
    }
}

proof fn lemma_shown_dataset(s: Seq<DatasetView>, utf8: bool, k: int) -> (i: int)
    requires
        0 <= k < s.len(),
        s[k].record != 1,
    ensures
        0 <= i < texts_of(s, utf8, iptc::display_name(s[k].record, s[k].number)).len(),
        texts_of(s, utf8, iptc::display_name(s[k].record, s[k].number))[i] == iptc::dataset_text(s[k].data, utf8),
    decreases s.len(),
{
    let name = iptc::display_name(s[k].record, s[k].number);
    lemma_texts_step(s, utf8, name);
    if k == s.len() - 1 {
        texts_of(s, utf8, name).len() - 1
    } else {
        let i = lemma_shown_dataset(s.drop_last(), utf8, k);
        i
    }
}

/// Every value that an edit sets is there when the picture is read again: under the name of its
/// field stands a text that has the value in it. (Values longer than a dataset can be are cut.)
pub proof fn set_values_are_shown(b: Seq<u8>, edit: &IptcEdit, k: int, j: int)
    requires
        jpeg::is_jpeg_bytes(b),
        iptc::blocks_fit(
            iptc::blocks_with(iptc::blocks_of(b), iptc::edited(iptc::datasets_of(b), edit)),
        ),
        0 <= k < edit.sets@.len(),
        edit.sets@[k].0 != 1,
        0 <= j < edit.sets@[k].2@.len(),
        encode_utf8(edit.sets@[k].2@[j]@).len() <= 0x7FFF,
    ensures
        ({
            let c = iptc::with_blocks(
                b,
                iptc::blocks_with(iptc::blocks_of(b), iptc::edited(iptc::datasets_of(b), edit)),
            );
            let out = iptc::shown(iptc::datasets_of(c), iptc::marked_utf8(iptc::datasets_of(c)));
            exists|i: int, at: int|
                0 <= i < out.len() && out[i].0 == iptc::display_name(edit.sets@[k].0, edit.sets@[k].1)
                    && #[trigger] text::occurs_at(out[i].1, at, edit.sets@[k].2@[j]@)
        }),
{
    let (record, number) = (edit.sets@[k].0, edit.sets@[k].1);
    let value = edit.sets@[k].2@[j]@;
    let d = DatasetView { record, number, data: encode_utf8(value) };
    let old = iptc::datasets_of(b);
    let new = iptc::edited(old, edit);
    let c = iptc::with_blocks(b, iptc::blocks_with(iptc::blocks_of(b), new));
    iptc::read_back_datasets(b, new);
    let read = iptc::datasets_of(c);
    lemma_added(edit.sets@, k, j);
    lemma_in_number(iptc::added(edit.sets@), d);
    iptc::edit_sets(old, edit, record, number);
    iptc::order_is_stable(new, record, number);
    lemma_in_number(iptc::in_order(new), d);
    let ordered = iptc::in_order(new);
    let m = choose|m: int| 0 <= m < ordered.len() && ordered[m] == d;
    assert(read[m] == iptc::cut(d));
    assert(read[m] == d);
    let utf8 = iptc::marked_utf8(read);
    let name = iptc::display_name(record, number);
    vstd::utf8::encode_utf8_valid_utf8(value);
    vstd::utf8::encode_utf8_decode_utf8(value);
    assert(iptc::dataset_text(d.data, utf8) == value);
    let p = lemma_shown_dataset(read, utf8, m);
    repeated_fields_are_listed(read, utf8);
    let out = iptc::shown(read, utf8);
    let i = choose|i: int| 0 <= i < out.len() && (#[trigger] out[i]).0 == name;
    let at = lemma_part_in_joined(texts_of(read, utf8, name), "; "@, p);
    assert(text::occurs_at(out[i].1, at, value));
}

/// A field that an edit sets once holds one dataset for each value, in the order of the values.
pub proof fn set_values_are_stored(s: Seq<DatasetView>, edit: &IptcEdit, k: int)
    requires
        0 <= k < edit.sets@.len(),
        !(edit.sets@[k].0 == 1 && edit.sets@[k].1 == 90),
        forall|i: int|
            0 <= i < edit.sets@.len() && i != k ==> !((#[trigger] edit.sets@[i]).0 == edit.sets@[k].0
                && edit.sets@[i].1 == edit.sets@[k].1),
    ensures
        ({
            let stored = iptc::of_number(iptc::edited(s, edit), edit.sets@[k].0, edit.sets@[k].1);
            &&& stored.len() == edit.sets@[k].2@.len()
            &&& forall|j: int|
                0 <= j < stored.len() ==> (#[trigger] stored[j]).data == encode_utf8(edit.sets@[k].2@[j]@)
        }),
{
    let (record, number) = (edit.sets@[k].0, edit.sets@[k].1);
    iptc::edit_sets(s, edit, record, number);
    lemma_added_once(edit.sets@, k, edit.sets@.len() as int);
    assert(edit.sets@.take(edit.sets@.len() as int) =~= edit.sets@);
}

proof fn lemma_own_values(a: Seq<DatasetView>, record: u8, number: u8, values: Seq<String>, n: int)
    requires
        0 <= n <= values.len(),
    ensures
        iptc::of_number(a + iptc::added_values(record, number, values).take(n), record, number)
            == iptc::of_number(a, record, number) + iptc::added_values(record, number, values).take(n),
    decreases n,
{
    let all = iptc::added_values(record, number, values);
    if n == 0 {
        assert(a + all.take(0) =~= a);
        assert(iptc::of_number(a, record, number) + all.take(0) =~= iptc::of_number(a, record, number));
    } else {
        lemma_own_values(a, record, number, values, n - 1);
        let s = a + all.take(n);
        assert(s.drop_last() =~= a + all.take(n - 1));
        assert(s.last() == all[n - 1]);
        assert((iptc::of_number(a, record, number) + all.take(n - 1)).push(all[n - 1]) =~= iptc::of_number(
            a,
            record,
            number,
        ) + all.take(n));
    }
}

proof fn lemma_other_values(
    a: Seq<DatasetView>,
    record: u8,
    number: u8,
    values: Seq<String>,
    r: u8,
    m: u8,
    n: int,
)
    requires
        0 <= n <= values.len(),
        !(r == record && m == number),
    ensures
        iptc::of_number(a + iptc::added_values(record, number, values).take(n), r, m) == iptc::of_number(a, r, m),
    decreases n,
{
    let all = iptc::added_values(record, number, values);
    if n == 0 {
        assert(a + all.take(0) =~= a);
    } else {
        lemma_other_values(a, record, number, values, r, m, n - 1);
        let s = a + all.take(n);
        assert(s.drop_last() =~= a + all.take(n - 1));
        assert(s.last() == all[n - 1]);
    }
}

proof fn lemma_added_once(sets: Seq<(u8, u8, Vec<String>)>, k: int, n: int)
    requires
        0 <= k < sets.len(),
        0 <= n <= sets.len(),
        forall|i: int|
            0 <= i < sets.len() && i != k ==> !((#[trigger] sets[i]).0 == sets[k].0 && sets[i].1 == sets[k].1),
    ensures
        iptc::of_number(iptc::added(sets.take(n)), sets[k].0, sets[k].1) == if k < n {
            iptc::added_values(sets[k].0, sets[k].1, sets[k].2@)
        } else {
            Seq::empty()
        },
    decreases n,
{
    if n > 0 {
        lemma_added_once(sets, k, n - 1);
        let s = sets.take(n);
        assert(s.drop_last() =~= sets.take(n - 1));
        assert(s.last() == sets[n - 1]);
        let a = iptc::added(sets.take(n - 1));
        let values = sets[n - 1].2@;
        let all = iptc::added_values(sets[n - 1].0, sets[n - 1].1, values);
        assert(all.take(values.len() as int) =~= all);
        if n - 1 == k {
            lemma_own_values(a, sets[k].0, sets[k].1, values, values.len() as int);
            assert(Seq::<DatasetView>::empty() + all =~= all);
        } else {
            lemma_other_values(
                a,
                sets[n - 1].0,
                sets[n - 1].1,
                values,
                sets[k].0,
                sets[k].1,
                values.len() as int,
            );
        }
    } else {
        assert(iptc::of_number(iptc::added(sets.take(0)), sets[k].0, sets[k].1) =~= Seq::empty());
    }
}

} // verus!
