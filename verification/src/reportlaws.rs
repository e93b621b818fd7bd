//! What reports count and find.

use vstd::prelude::*;
use vstd::string::*;
use crate::reportcmd;
use crate::reportcmd::{Cameras, CheckedView, Counts, FactsView, IssueView, Severity};
use crate::showcmd::TagWords;
use crate::showlaws;
use crate::stamp;
use crate::stamp::Stamp;
use crate::text;
use crate::textlaws;
use crate::wherelaws;

verus! {

// ---- counting ---------------------------------------------------------------------------

/// How many of the first `n` things are of a kind.
pub open spec fn how_many<A>(v: Seq<A>, kind: spec_fn(A) -> bool, n: int) -> int
    decreases n,
{
    if n <= 0 {
        0
    } else {
        how_many(v, kind, n - 1) + if kind(v[n - 1]) {
            1int
        } else {
            0
        }
    }
}

proof fn lemma_front<A>(v: Seq<A>, kind: spec_fn(A) -> bool, n: int)
    requires
        0 <= n < v.len(),
    ensures
        how_many(v.drop_last(), kind, n) == how_many(v, kind, n),
    decreases n,
{
    if n > 0 {
        lemma_front(v, kind, n - 1);
    }
}

/// The counts are those of the files that have a capture time, that have a position, and that could
/// not be read.
pub proof fn files_are_counted(v: Seq<Option<FactsView>>)
    ensures
        reportcmd::counts_of(v).dated == how_many(
            v,
            |f: Option<FactsView>| f is Some && (f->0).date is Some,
            v.len() as int,
        ),
        reportcmd::counts_of(v).placed == how_many(v, |f: Option<FactsView>| f is Some && (f->0).gps, v.len() as int),
        reportcmd::counts_of(v).unreadable == how_many(v, |f: Option<FactsView>| f is None, v.len() as int),
    decreases v.len(),
{
    let dated = |f: Option<FactsView>| f is Some && (f->0).date is Some;
    let placed = |f: Option<FactsView>| f is Some && (f->0).gps;
    let unread = |f: Option<FactsView>| f is None;
    if v.len() > 0 {
        files_are_counted(v.drop_last());
        let n = v.len() - 1;
        lemma_front(v, dated, n);
        lemma_front(v, placed, n);
        lemma_front(v, unread, n);
    }
}

/// Texts are in the order of their first characters that differ.
pub proof fn texts_are_ordered(a: Seq<char>, b: Seq<char>, c: Seq<char>)
    ensures
        !text::text_less(a, a),
        a == b || text::text_less(a, b) || text::text_less(b, a),
        text::text_less(a, b) ==> !text::text_less(b, a),
        text::text_less(a, b) && text::text_less(b, c) ==> text::text_less(a, c),
        a.len() > 0 && b.len() > 0 && a[0] < b[0] ==> text::text_less(a, b),
        a.len() > 0 && b.len() > 0 && a[0] == b[0] ==> text::text_less(a, b) == text::text_less(
            a.drop_first(),
            b.drop_first(),
        ),
        a.len() == 0 && b.len() > 0 ==> text::text_less(a, b),
    decreases a.len() + b.len() + c.len(),
{
    let (x, y, z) = (a.drop_first(), b.drop_first(), c.drop_first());
    if a.len() > 0 && b.len() > 0 && c.len() > 0 {
        texts_are_ordered(x, y, z);
    } else if a.len() > 0 && b.len() > 0 {
        texts_are_ordered(x, y, c);
    } else if a.len() > 0 {
        texts_are_ordered(x, b, c);
    }
    if a.len() > 0 && b.len() > 0 && a[0] == b[0] && x == y {
        assert(seq![a[0]] + x =~= a && seq![b[0]] + y =~= b);
    }
    if a.len() == 0 && b.len() == 0 {
        assert(a =~= b);
    }
}

/// Whether the file at `i` was taken at `d`.
pub open spec fn dated_at(v: Seq<Option<FactsView>>, i: int, d: Seq<char>) -> bool {
    0 <= i < v.len() && v[i] is Some && (v[i]->0).date == Some(d)
}

proof fn lemma_dated_before(v: Seq<Option<FactsView>>, d: Seq<char>)
    requires
        v.len() > 0,
    ensures
        forall|i: int| dated_at(v.drop_last(), i, d) ==> #[trigger] dated_at(v, i, d),
        forall|i: int| #[trigger] dated_at(v, i, d) ==> i == v.len() - 1 || dated_at(v.drop_last(), i, d),
{
    let w = v.drop_last();
    assert forall|i: int| dated_at(w, i, d) implies #[trigger] dated_at(v, i, d) by {
        assert(w[i] == v[i]);
    }
    assert forall|i: int| #[trigger] dated_at(v, i, d) implies i == v.len() - 1 || dated_at(w, i, d) by {
        if i < v.len() - 1 {
            assert(w[i] == v[i]);
        }
    }
}

/// The span of time begins with a capture time that no other comes before, and ends with one that no
/// other comes behind. There is none only if no file has a capture time.
pub proof fn span_is_reached(v: Seq<Option<FactsView>>, i: int, d: Seq<char>)
    ensures
        ({
            let c = reportcmd::counts_of(v);
            &&& c.first is Some ==> exists|k: int| dated_at(v, k, c.first->0)
            &&& c.last is Some ==> exists|k: int| dated_at(v, k, c.last->0)
            &&& dated_at(v, i, d) ==> c.first is Some && !text::text_less(d, c.first->0)
            &&& dated_at(v, i, d) ==> c.last is Some && !text::text_less(c.last->0, d)
        }),
    decreases v.len(),
{
    let c = reportcmd::counts_of(v);
    if v.len() > 0 {
        let w = v.drop_last();
        let b = reportcmd::counts_of(w);
        let n = v.len() - 1;
        span_is_reached(w, i, d);
        lemma_dated_before(v, d);
        if let Some(m) = b.first {
            lemma_dated_before(v, m);
            let k = choose|k: int| dated_at(w, k, m);
            assert(dated_at(v, k, m));
        }
        if let Some(m) = b.last {
            lemma_dated_before(v, m);
            let k = choose|k: int| dated_at(w, k, m);
            assert(dated_at(v, k, m));
        }
        if let Some(f) = v.last() {
            if let Some(e) = f.date {
                assert(dated_at(v, n, e));
                texts_are_ordered(e, e, e);
                if let Some(m) = b.first {
                    texts_are_ordered(d, e, m);
                    texts_are_ordered(e, m, d);
                }
                if let Some(m) = b.last {
                    texts_are_ordered(m, e, d);
                    texts_are_ordered(m, d, e);
                    texts_are_ordered(e, d, m);
                    texts_are_ordered(e, m, d);
                }
            }
        }
        if dated_at(v, i, d) && i < n {
            assert(dated_at(w, i, d));
        }
    }
}

// ---- cameras ----------------------------------------------------------------------------

/// The tag that comes first among those of a name gives its value.
pub proof fn first_tag_counts(v: Seq<TagWords>, k: int, name: Seq<char>)
    ensures
        0 <= k < v.len() && v[k].name == name && (forall|i: int| 0 <= i < k ==> (#[trigger] v[i]).name != name)
            ==> reportcmd::value_of(v, name) == Some(v[k].value),
        (forall|i: int| 0 <= i < v.len() ==> (#[trigger] v[i]).name != name) ==> reportcmd::value_of(v, name) is None,
{
    lemma_first_tag(v, 0, k, name);
}

proof fn lemma_first_tag(v: Seq<TagWords>, from: int, k: int, name: Seq<char>)
    requires
        0 <= from,
    ensures
        from <= k < v.len() && v[k].name == name && (forall|i: int| from <= i < k ==> (#[trigger] v[i]).name != name)
            ==> reportcmd::value_from(v, from, name) == Some(v[k].value),
        (forall|i: int| from <= i < v.len() ==> (#[trigger] v[i]).name != name) ==> reportcmd::value_from(
            v,
            from,
            name,
        ) is None,
    decreases v.len() - from,
{
    if from < v.len() {
        lemma_first_tag(v, from + 1, k, name);
    }
}

/// A camera is called by its make and its model, as far as it has them.
pub proof fn cameras_are_called_by_make_and_model(v: Seq<TagWords>)
    ensures
        match (reportcmd::value_of(v, "Make"@), reportcmd::value_of(v, "Model"@)) {
            (Some(make), Some(model)) => make.len() > 0 && model.len() > 0 && textlaws::is_trimmed(make)
                && textlaws::is_trimmed(model) ==> reportcmd::camera_of(v) == make + " "@ + model,
            (Some(make), None) => make.len() > 0 && textlaws::is_trimmed(make) ==> reportcmd::camera_of(v) == make,
            (None, Some(model)) => model.len() > 0 && textlaws::is_trimmed(model) ==> reportcmd::camera_of(v) == model,
            (None, None) => reportcmd::camera_of(v) == "(无相机信息)"@,
        },
{
    reveal_strlit(" ");
    let e = Seq::<char>::empty();
    let gap = " "@;
    assert(textlaws::all_space(gap));
    assert(textlaws::all_space(e));
    match (reportcmd::value_of(v, "Make"@), reportcmd::value_of(v, "Model"@)) {
        (Some(make), Some(model)) => {
            let s = make + gap + model;
            if make.len() > 0 && model.len() > 0 && textlaws::is_trimmed(make) && textlaws::is_trimmed(model) {
                assert(s[0] == make[0] && s.last() == model.last());
                textlaws::lemma_trimmed_same(s);
            }
        },
        (Some(make), None) => {
            if textlaws::is_trimmed(make) {
                assert(make + gap + e =~= e + make + gap);
                textlaws::lemma_trimmed_around(e, make, gap);
                textlaws::lemma_trimmed_same(make);
            }
        },
        (None, Some(model)) => {
            if textlaws::is_trimmed(model) {
                assert(e + gap + model =~= gap + model + e);
                textlaws::lemma_trimmed_around(gap, model, e);
                textlaws::lemma_trimmed_same(model);
            }
        },
        (None, None) => {
            assert(e + gap + e =~= gap + e + e);
            textlaws::lemma_trimmed_around(gap, e, e);
            textlaws::lemma_trimmed_same(e);
        },
    }
}

/// How many pictures a list gives a camera.
pub open spec fn count_for(v: Cameras, name: Seq<char>) -> int
    decreases v.len(),
{
    if v.len() == 0 {
        0
    } else {
        count_for(v.drop_last(), name) + if v.last().0 == name {
            v.last().1 as int
        } else {
            0
        }
    }
}

proof fn lemma_count_update(v: Cameras, i: int, name: Seq<char>, other: Seq<char>)
    requires
        0 <= i < v.len(),
        v[i].0 == name,
    ensures
        count_for(v.update(i, (name, v[i].1 + 1)), other) == count_for(v, other) + if other == name {
            1int
        } else {
            0
        },
    decreases v.len(),
{
    let w = v.update(i, (name, v[i].1 + 1));
    if i == v.len() - 1 {
        assert(w.drop_last() =~= v.drop_last());
    } else {
        lemma_count_update(v.drop_last(), i, name, other);
        assert(w.drop_last() =~= v.drop_last().update(i, (name, v[i].1 + 1)));
    }
}

/// Every camera is listed once.
pub open spec fn once_each(v: Cameras) -> bool {
    forall|i: int, j: int| 0 <= i < j < v.len() ==> (#[trigger] v[i]).0 != (#[trigger] v[j]).0
}

proof fn lemma_camera_place(v: Cameras, i: int, name: Seq<char>)
    requires
        0 <= i,
    ensures
        match reportcmd::camera_from(v, i, name) {
            Some(k) => i <= k < v.len() && v[k].0 == name,
            None => forall|k: int| i <= k < v.len() ==> (#[trigger] v[k]).0 != name,
        },
    decreases v.len() - i,
{
    if i < v.len() {
        lemma_camera_place(v, i + 1, name);
    }
}

/// A camera is listed once, with as many pictures as there are files that name it.
pub proof fn pictures_are_counted_by_camera(v: Seq<Option<FactsView>>, name: Seq<char>)
    ensures
        once_each(reportcmd::counts_of(v).cameras),
        count_for(reportcmd::counts_of(v).cameras, name) == how_many(
            v,
            |f: Option<FactsView>| f is Some && reportcmd::camera_of((f->0).tags) == name,
            v.len() as int,
        ),
    decreases v.len(),
{
    let kind = |f: Option<FactsView>| f is Some && reportcmd::camera_of((f->0).tags) == name;
    if v.len() > 0 {
        let w = v.drop_last();
        pictures_are_counted_by_camera(w, name);
        lemma_front(v, kind, v.len() - 1);
        let b = reportcmd::counts_of(w).cameras;
        if let Some(f) = v.last() {
            let own = reportcmd::camera_of(f.tags);
            lemma_camera_place(b, 0, own);
            match reportcmd::camera_from(b, 0, own) {
                Some(i) => {
                    lemma_count_update(b, i, own, name);
                    assert(b.update(i, (own, b[i].1 + 1))[i].0 == b[i].0);
                },
                None => {
                    assert(b.push((own, 1)).drop_last() =~= b);
                },
            }
        }
    }
}

/// Whether no camera has fewer pictures than one behind it, and those with as many are by name.
pub open spec fn by_pictures(v: Cameras) -> bool {
    forall|i: int, j: int|
        0 <= i < j < v.len() ==> (#[trigger] v[i]).1 > (#[trigger] v[j]).1 || (v[i].1 == v[j].1 && !text::text_less(
            v[j].0,
            v[i].0,
        ))
}

proof fn lemma_put_in_order(v: Cameras, c: (Seq<char>, nat))
    requires
        by_pictures(v),
    ensures
        by_pictures(reportcmd::put_camera(v, c)),
        reportcmd::put_camera(v, c).to_multiset() == v.to_multiset().insert(c),
        forall|i: int|
            0 <= i < reportcmd::put_camera(v, c).len() ==> #[trigger] reportcmd::put_camera(v, c)[i] == c || v.contains(
                reportcmd::put_camera(v, c)[i],
            ),
    decreases v.len(),
{
    broadcast use vstd::seq_lib::group_to_multiset_ensures;

    let w = reportcmd::put_camera(v, c);
    if v.len() == 0 || !reportcmd::shown_before(c, v.last()) {
        assert(w =~= v.push(c));
        assert forall|i: int, j: int| 0 <= i < j < w.len() implies (#[trigger] w[i]).1 > (#[trigger] w[j]).1 || (w[i].1
            == w[j].1 && !text::text_less(w[j].0, w[i].0)) by {
            if j == v.len() {
                let l = v.last();
                if i < v.len() - 1 {
                    assert(v[i].1 > l.1 || (v[i].1 == l.1 && !text::text_less(l.0, v[i].0)));
                    texts_are_ordered(v[i].0, l.0, c.0);
                    texts_are_ordered(c.0, v[i].0, l.0);
                    texts_are_ordered(l.0, c.0, v[i].0);
                    texts_are_ordered(c.0, l.0, v[i].0);
                }
            } else {
                assert(w[i] == v[i] && w[j] == v[j]);
            }
        }
        assert forall|i: int| 0 <= i < w.len() implies #[trigger] w[i] == c || v.contains(w[i]) by {
            if i < v.len() {
                assert(w[i] == v[i]);
            }
        }
    } else {
        let front = v.drop_last();
        assert forall|i: int, j: int| 0 <= i < j < front.len() implies (#[trigger] front[i]).1 > (#[trigger] front[j]).1
            || (front[i].1 == front[j].1 && !text::text_less(front[j].0, front[i].0)) by {
            assert(front[i] == v[i] && front[j] == v[j]);
        }
        lemma_put_in_order(front, c);
        let put = reportcmd::put_camera(front, c);
        let l = v.last();
        assert(w =~= put.push(l));
        assert(v =~= front.push(l));
        assert forall|i: int| 0 <= i < put.len() implies (#[trigger] put[i]).1 > l.1 || (put[i].1 == l.1
            && !text::text_less(l.0, put[i].0)) by {
            if put[i] == c {
                texts_are_ordered(c.0, l.0, l.0);
            } else {
                let k = choose|k: int| 0 <= k < front.len() && front[k] == put[i];
                assert(v[k] == put[i] && v[v.len() - 1] == l);
            }
        }
        assert forall|i: int, j: int| 0 <= i < j < w.len() implies (#[trigger] w[i]).1 > (#[trigger] w[j]).1 || (w[i].1
            == w[j].1 && !text::text_less(w[j].0, w[i].0)) by {
            if j == put.len() {
                assert(w[i] == put[i]);
            } else {
                assert(w[i] == put[i] && w[j] == put[j]);
            }
        }
        assert forall|i: int| 0 <= i < w.len() implies #[trigger] w[i] == c || v.contains(w[i]) by {
            if i < put.len() {
                assert(w[i] == put[i]);
                if put[i] != c {
                    let k = choose|k: int| 0 <= k < front.len() && front[k] == put[i];
                    assert(v[k] == put[i]);
                }
            } else {
                assert(v[v.len() - 1] == l);
            }
        }
        assert(w.to_multiset() =~= v.to_multiset().insert(c));
    }
}

/// The cameras are shown with the most pictures first, those with as many by name, and all are shown.
pub proof fn cameras_are_in_order(v: Cameras)
    ensures
        by_pictures(reportcmd::in_order(v)),
        reportcmd::in_order(v).to_multiset() == v.to_multiset(),
    decreases v.len(),
{
    broadcast use vstd::seq_lib::group_to_multiset_ensures;

    if v.len() > 0 {
        cameras_are_in_order(v.drop_last());
        lemma_put_in_order(reportcmd::in_order(v.drop_last()), v.last());
        assert(v =~= v.drop_last().push(v.last()));
    }
}

proof fn lemma_label_words() -> (r: (Seq<char>, Seq<char>, Seq<char>))
    ensures
        "PIC-Killer · 元数据统计\n  共 "@ == r.0 + "共 "@,
        " 张照片\n\n  拍摄时间："@ == r.1 + "拍摄时间："@,
        " 无\n  GPS 定位："@ == r.2 + "GPS 定位："@,
{
    reveal_strlit("PIC-Killer · 元数据统计\n  共 ");
    reveal_strlit("共 ");
    reveal_strlit(" 张照片\n\n  拍摄时间：");
    reveal_strlit("拍摄时间：");
    reveal_strlit(" 无\n  GPS 定位：");
    reveal_strlit("GPS 定位：");
    let a = "PIC-Killer · 元数据统计\n  共 "@;
    let b = " 张照片\n\n  拍摄时间："@;
    let c = " 无\n  GPS 定位："@;
    let r = (a.take(a.len() - 2), b.take(b.len() - 5), c.take(c.len() - 7));
    assert(a =~= r.0 + "共 "@);
    assert(b =~= r.1 + "拍摄时间："@);
    assert(c =~= r.2 + "GPS 定位："@);
    r
}

proof fn lemma_labelled(
    a: Seq<char>,
    n: Seq<char>,
    b: Seq<char>,
    d: Seq<char>,
    w: Seq<char>,
    u: Seq<char>,
    c: Seq<char>,
    p: Seq<char>,
    q: Seq<char>,
    z: Seq<char>,
    rest: Seq<char>,
    r: (Seq<char>, Seq<char>, Seq<char>),
    l: (Seq<char>, Seq<char>, Seq<char>),
)
    requires
        a == r.0 + l.0,
        b == r.1 + l.1,
        c == r.2 + l.2,
    ensures
        ({
            let s = a + n + b + d + w + u + c + p + w + q + z + rest;
            &&& wherelaws::stands_in(l.0 + n, s)
            &&& wherelaws::stands_in(l.1 + d + w + u, s)
            &&& wherelaws::stands_in(l.2 + p + w + q, s)
        }),
{
    let s = a + n + b + d + w + u + c + p + w + q + z + rest;
    assert(s =~= r.0 + (l.0 + n) + (b + d + w + u + c + p + w + q + z + rest));
    assert(s =~= (a + n + r.1) + (l.1 + d + w + u) + (c + p + w + q + z + rest));
    assert(s =~= (a + n + b + d + w + u + r.2) + (l.2 + p + w + q) + (z + rest));
}

/// A report says how many pictures there are, and how many of those that could be read have a capture
/// time and a position and how many have none.
pub proof fn reports_say_the_counts(c: Counts, total: nat)
    ensures
        wherelaws::stands_in("共 "@ + text::dec(total), reportcmd::report(c, total)),
        wherelaws::stands_in(
            "拍摄时间："@ + text::dec(c.dated as nat) + " 有，"@ + text::dec((total - c.dated - c.unreadable) as nat),
            reportcmd::report(c, total),
        ),
        wherelaws::stands_in(
            "GPS 定位："@ + text::dec(c.placed as nat) + " 有，"@ + text::dec((total - c.placed - c.unreadable) as nat),
            reportcmd::report(c, total),
        ),
{
    let r = lemma_label_words();
    let cams = reportcmd::in_order(c.cameras);
    let unread = text::when(c.unreadable > 0, "  无法读取："@ + text::dec(c.unreadable as nat) + "\n"@);
    let span = match (c.first, c.last) {
        (Some(lo), Some(hi)) => "  时间跨度："@ + lo + "  ~  "@ + hi + "\n"@,
        _ => Seq::empty(),
    };
    let lines = reportcmd::camera_lines(cams, reportcmd::camera_column(reportcmd::widest(cams)));
    let head = "PIC-Killer · 元数据统计\n  共 "@ + text::dec(total) + " 张照片\n\n  拍摄时间："@ + text::dec(
        c.dated as nat,
    ) + " 有，"@ + text::dec((total - c.dated - c.unreadable) as nat) + " 无\n  GPS 定位："@ + text::dec(
        c.placed as nat,
    ) + " 有，"@ + text::dec((total - c.placed - c.unreadable) as nat) + " 无\n"@;
    let title = "\n  相机分布：\n"@;
    let rest = unread + span + title + lines;
    assert(reportcmd::report(c, total) == head + unread + span + title + lines);
    lemma_tail(head, unread, span, title, lines);
    lemma_labelled(
        "PIC-Killer · 元数据统计\n  共 "@,
        text::dec(total),
        " 张照片\n\n  拍摄时间："@,
        text::dec(c.dated as nat),
        " 有，"@,
        text::dec((total - c.dated - c.unreadable) as nat),
        " 无\n  GPS 定位："@,
        text::dec(c.placed as nat),
        text::dec((total - c.placed - c.unreadable) as nat),
        " 无\n"@,
        rest,
        r,
        ("共 "@, "拍摄时间："@, "GPS 定位："@),
    );
}

proof fn lemma_tail(a: Seq<char>, b: Seq<char>, c: Seq<char>, d: Seq<char>, e: Seq<char>)
    ensures
        a + b + c + d + e == a + (b + c + d + e),
{
    assert(a + b + c + d + e =~= a + (b + c + d + e));
}

// ---- what is wrong ----------------------------------------------------------------------

/// One point in time is before another if it is fewer seconds from the beginning of the calendar, or
/// as many and fewer parts of one.
pub proof fn time_runs_forward(a: Stamp, b: Stamp)
    requires
        a.valid(),
        b.valid(),
    ensures
        reportcmd::stamp_before(a, b) <==> a.seconds() < b.seconds() || (a.seconds() == b.seconds() && a.nanos
            < b.nanos),
{
    let (p, q, r) = (a.year as int, a.month as int, a.day as int);
    let (x, y, z) = (b.year as int, b.month as int, b.day as int);
    if p < x || (p == x && q < y) || (p == x && q == y && r < z) {
        stamp::days_are_ordered(p, q, r, x, y, z);
    } else if x < p || (x == p && y < q) || (x == p && y == q && z < r) {
        stamp::days_are_ordered(x, y, z, p, q, r);
    }
}

/// Whether an orientation is a whole number, but none of those that there are.
pub open spec fn odd_orientation(v: Seq<TagWords>) -> bool {
    reportcmd::value_of(v, "Orientation"@) matches Some(o) && (text::signed_numeral(text::trimmed(o)) matches Some(n)
        && i64::MIN <= n <= i64::MAX && (n < 1 || n > 8))
}

/// Whether the capture time of a file is no time.
pub open spec fn no_time(v: Seq<TagWords>, taken: Option<Stamp>) -> bool {
    reportcmd::value_of(v, "DateTimeOriginal"@) is Some && taken is None
}

/// Whether a picture was taken at a time that is still to come.
pub open spec fn still_to_come(v: Seq<TagWords>, taken: Option<Stamp>, now: Stamp) -> bool {
    reportcmd::value_of(v, "DateTimeOriginal"@) is Some && (taken matches Some(t) && (now.seconds() < t.seconds() || (
    now.seconds() == t.seconds() && now.nanos < t.nanos)))
}

/// Whether a picture has two capture times.
pub open spec fn two_times(v: Seq<TagWords>) -> bool {
    match (reportcmd::value_of(v, "DateTimeOriginal"@), reportcmd::value_of(v, "CreateDate"@)) {
        (Some(d), Some(c)) => d != c,
        _ => false,
    }
}

/// What is wrong with a file is an error if its capture time is no time, its position not on the
/// earth or its orientation none, and a warning if it was taken in the future or at two times. Nothing
/// else is wrong, and each is told once.
pub proof fn issues_are_what_is_wrong(v: Seq<TagWords>, taken: Option<Stamp>, now: Stamp, astray: Option<Seq<char>>)
    requires
        now.valid(),
        taken is Some ==> (taken->0).valid(),
    ensures
        ({
            let issues = reportcmd::issues_of(v, taken, now, astray);
            let one = |b: bool| if b { 1int } else { 0 };
            &&& reportcmd::has_error(issues) <==> no_time(v, taken) || astray is Some || odd_orientation(v)
            &&& issues.len() == one(no_time(v, taken)) + one(still_to_come(v, taken, now)) + one(two_times(v)) + one(
                astray is Some,
            ) + one(odd_orientation(v))
            &&& no_time(v, taken) ==> issues.contains(
                (Severity::Error, "拍摄时间格式异常："@ + reportcmd::value_of(v, "DateTimeOriginal"@)->0),
            )
            &&& still_to_come(v, taken, now) ==> issues.contains(
                (Severity::Warn, "拍摄时间在未来："@ + reportcmd::value_of(v, "DateTimeOriginal"@)->0),
            )
            &&& astray is Some ==> issues.contains((Severity::Error, "GPS 坐标越界："@ + astray->0))
        }),
{
    if taken is Some {
        time_runs_forward(now, taken->0);
    }
    let issues = reportcmd::issues_of(v, taken, now, astray);
    let a = match reportcmd::value_of(v, "DateTimeOriginal"@) {
        Some(d) => reportcmd::time_issue(d, taken, now),
        None => Seq::empty(),
    };
    let b = if two_times(v) {
        let d = reportcmd::value_of(v, "DateTimeOriginal"@)->0;
        let c = reportcmd::value_of(v, "CreateDate"@)->0;
        seq![(Severity::Warn, "DateTimeOriginal("@ + d + ") 与 CreateDate("@ + c + ") 不一致"@)]
    } else {
        Seq::empty()
    };
    let g = match astray {
        Some(p) => seq![(Severity::Error, "GPS 坐标越界："@ + p)],
        None => Seq::<IssueView>::empty(),
    };
    let o = reportcmd::orientation_issues(v);
    assert(reportcmd::time_issues(v, taken, now) =~= a + b);
    assert(issues =~= a + b + g + o);
    assert(odd_orientation(v) == (o.len() == 1) && o.len() <= 1);
    let (na, nb, ng) = (a.len() as int, b.len() as int, g.len() as int);
    if na == 1 {
        assert(issues[0] == a[0]);
    }
    if nb == 1 {
        assert(issues[na] == b[0]);
    }
    if ng == 1 {
        assert(issues[na + nb] == g[0]);
    }
    if o.len() == 1 {
        assert(issues[na + nb + ng] == o[0]);
    }
}

/// A file that has an error is a problem, and one that has only warnings is warned of.
pub proof fn verdicts_are_counted(v: Seq<CheckedView>)
    ensures
        reportcmd::problems(v) == how_many(
            v,
            |c: CheckedView| exists|i: int| 0 <= i < c.issues.len() && (#[trigger] c.issues[i]).0 == Severity::Error,
            v.len() as int,
        ),
        reportcmd::warnings(v) == how_many(
            v,
            |c: CheckedView|
                c.issues.len() > 0 && forall|i: int|
                    0 <= i < c.issues.len() ==> (#[trigger] c.issues[i]).0 == Severity::Warn,
            v.len() as int,
        ),
    decreases v.len(),
{
    let bad = |c: CheckedView|
        exists|i: int| 0 <= i < c.issues.len() && (#[trigger] c.issues[i]).0 == Severity::Error;
    let warned = |c: CheckedView|
        c.issues.len() > 0 && forall|i: int| 0 <= i < c.issues.len() ==> (#[trigger] c.issues[i]).0 == Severity::Warn;
    if v.len() > 0 {
        verdicts_are_counted(v.drop_last());
        lemma_front(v, bad, v.len() - 1);
        lemma_front(v, warned, v.len() - 1);
    }
}

proof fn lemma_issue_line(v: Seq<IssueView>, k: int)
    requires
        0 <= k < v.len(),
    ensures
        wherelaws::stands_in(
            (if v[k].0 == Severity::Error {
                "  ✗ "@
            } else {
                "  ! "@
            }) + v[k].1 + "\n"@,
            reportcmd::issue_lines(v),
        ),
    decreases v.len(),
{
    let e = Seq::<char>::empty();
    let before = reportcmd::issue_lines(v.drop_last());
    let line = (if v.last().0 == Severity::Error {
        "  ✗ "@
    } else {
        "  ! "@
    }) + v.last().1 + "\n"@;
    assert(reportcmd::issue_lines(v) =~= before + line + e);
    if k < v.len() - 1 {
        lemma_issue_line(v.drop_last(), k);
        let own = (if v[k].0 == Severity::Error {
            "  ✗ "@
        } else {
            "  ! "@
        }) + v[k].1 + "\n"@;
        showlaws::lemma_behind(e, own, before, line);
        assert(e + before + line =~= reportcmd::issue_lines(v));
    }
}

/// Everything that is wrong with a file is told, and nothing of a file with which nothing is wrong.
pub proof fn issues_are_told(c: CheckedView, k: int)
    ensures
        c.issues.len() == 0 ==> reportcmd::file_lines(c) == Seq::<char>::empty(),
        0 <= k < c.issues.len() ==> wherelaws::stands_in(
            (if c.issues[k].0 == Severity::Error {
                "  ✗ "@
            } else {
                "  ! "@
            }) + c.issues[k].1 + "\n"@,
            reportcmd::file_lines(c),
        ),
        c.issues.len() > 0 ==> wherelaws::stands_in(c.name, reportcmd::file_lines(c)),
{
    let e = Seq::<char>::empty();
    let head = if reportcmd::has_error(c.issues) {
        "[问题] "@
    } else {
        "[警告] "@
    };
    if c.issues.len() > 0 {
        let lines = reportcmd::issue_lines(c.issues);
        assert(reportcmd::file_lines(c) =~= head + c.name + ("\n"@ + lines));
        if 0 <= k < c.issues.len() {
            let own = (if c.issues[k].0 == Severity::Error {
                "  ✗ "@
            } else {
                "  ! "@
            }) + c.issues[k].1 + "\n"@;
            lemma_issue_line(c.issues, k);
            showlaws::lemma_behind(head + c.name + "\n"@, own, lines, e);
            assert(head + c.name + "\n"@ + lines + e =~= reportcmd::file_lines(c));
        }
    }
}

/// What is told of several files is what is told of each, in order.
pub proof fn files_are_told(v: Seq<CheckedView>, w: Seq<CheckedView>)
    ensures
        reportcmd::all_lines(v + w) == reportcmd::all_lines(v) + reportcmd::all_lines(w),
    decreases w.len(),
{
    if w.len() == 0 {
        assert(v + w =~= v);
        assert(reportcmd::all_lines(v) + reportcmd::all_lines(w) =~= reportcmd::all_lines(v));
    } else {
        files_are_told(v, w.drop_last());
        assert((v + w).drop_last() =~= v + w.drop_last());
        assert((v + w).last() == w.last());
        let (a, b, c) = (
            reportcmd::all_lines(v),
            reportcmd::all_lines(w.drop_last()),
            reportcmd::file_lines(w.last()),
        );
        assert((a + b) + c =~= a + (b + c));
    }
}

} // verus!
