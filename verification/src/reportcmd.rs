//! Counting over many files, and looking for what is wrong with them.

use vstd::prelude::*;
use vstd::string::*;
use crate::showcmd;
use crate::showcmd::TagWords;
use crate::stamp::Stamp;
use crate::tagtext::TagView;
use crate::text;
use crate::timeop;

verus! {

/// The value of the first tag of this name from `i` on.
pub open spec fn value_from(v: Seq<TagWords>, i: int, name: Seq<char>) -> Option<Seq<char>>
    decreases v.len() - i,
{
    if i < 0 || i >= v.len() {
        None
    } else if v[i].name == name {
        Some(v[i].value)
    } else {
        value_from(v, i + 1, name)
    }
}

/// The value of the first tag of this name.
pub open spec fn value_of(v: Seq<TagWords>, name: Seq<char>) -> Option<Seq<char>> {
    value_from(v, 0, name)
}

fn find_value(v: &Vec<TagView>, name: &str) -> (r: Option<String>)
    ensures
        match r {
            Some(s) => value_of(showcmd::words_view(v@), name@) == Some(s@),
            None => value_of(showcmd::words_view(v@), name@) is None,
        },
{
    let ghost all = showcmd::words_view(v@);
    let mut i: usize = 0;
    while i < v.len()
        invariant
            i <= v.len(),
            all == showcmd::words_view(v@),
            value_of(all, name@) == value_from(all, i as int, name@),
        decreases v.len() - i,
    {
        assert(all[i as int] == v@[i as int]@);
        if text::same_text(v[i].name.as_str(), name) {
            return Some(text::copy_text(v[i].value.as_str()));
        }
        i += 1;
    }
    None
}

// ---- counting ---------------------------------------------------------------------------

/// What is counted of a file.
#[derive(Debug)]
pub struct PhotoFacts {
    /// When the picture was taken.
    pub date: Option<String>,
    /// Whether there is a position.
    pub gps: bool,
    pub tags: Vec<TagView>,
}

/// What is counted of a file.
pub struct FactsView {
    pub date: Option<Seq<char>>,
    pub gps: bool,
    pub tags: Seq<TagWords>,
}

impl View for PhotoFacts {
    type V = FactsView;

    open spec fn view(&self) -> FactsView {
        FactsView { date: text::opt(self.date), gps: self.gps, tags: showcmd::words_view(self.tags@) }
    }
}

/// The facts of files; nothing of those that could not be read.
pub open spec fn facts_view(v: Seq<Option<PhotoFacts>>) -> Seq<Option<FactsView>> {
    v.map_values(
        |f: Option<PhotoFacts>|
            match f {
                Some(f) => Some(f@),
                None => None::<FactsView>,
            },
    )
}

/// A text, or nothing.
pub open spec fn or_nothing(s: Option<Seq<char>>) -> Seq<char> {
    match s {
        Some(s) => s,
        None => Seq::empty(),
    }
}

/// The name of the camera.
pub open spec fn camera_of(tags: Seq<TagWords>) -> Seq<char> {
    let name = text::trimmed(
        or_nothing(value_of(tags, "Make"@)) + " "@ + or_nothing(value_of(tags, "Model"@)),
    );
    if name.len() == 0 {
        "(无相机信息)"@
    } else {
        name
    }
}

fn find_camera(tags: &Vec<TagView>) -> (s: String)
    ensures
        s@ == camera_of(showcmd::words_view(tags@)),
{
    let mut s: String = String::new();
    assert(s@ =~= Seq::empty());
    if let Some(make) = find_value(tags, "Make") {
        s = make;
    }
    s.append(" ");
    let ghost before = s@;
    if let Some(model) = find_value(tags, "Model") {
        s.append(model.as_str());
    }
    assert(s@ =~= before + or_nothing(value_of(showcmd::words_view(tags@), "Model"@)));
    let name: String = text::trim_text(s.as_str());
    if text::is_blank(name.as_str()) {
        text::copy_text("(无相机信息)")
    } else {
        name
    }
}

/// Cameras with how many pictures each took.
pub type Cameras = Seq<(Seq<char>, nat)>;

/// The views of cameras and counts.
pub open spec fn cameras_view(v: Seq<(String, usize)>) -> Cameras {
    v.map_values(|p: (String, usize)| (p.0@, p.1 as nat))
}

/// The entry of a camera at or after `i`.
pub open spec fn camera_from(v: Cameras, i: int, name: Seq<char>) -> Option<int>
    decreases v.len() - i,
{
    if i < 0 || i >= v.len() {
        None
    } else if v[i].0 == name {
        Some(i)
    } else {
        camera_from(v, i + 1, name)
    }
}

/// The cameras with one more picture of this one.
pub open spec fn counted_in(v: Cameras, name: Seq<char>) -> Cameras {
    match camera_from(v, 0, name) {
        Some(i) => v.update(i, (name, v[i].1 + 1)),
        None => v.push((name, 1)),
    }
}

/// Whether one camera is shown before another: with more pictures first, then by name.
pub open spec fn shown_before(a: (Seq<char>, nat), b: (Seq<char>, nat)) -> bool {
    a.1 > b.1 || (a.1 == b.1 && text::text_less(a.0, b.0))
}

/// `c` put among cameras that are in order.
pub open spec fn put_camera(v: Cameras, c: (Seq<char>, nat)) -> Cameras
    decreases v.len(),
{
    if v.len() == 0 || !shown_before(c, v.last()) {
        v.push(c)
    } else {
        put_camera(v.drop_last(), c).push(v.last())
    }
}

/// The cameras in the order in which they are shown.
pub open spec fn in_order(v: Cameras) -> Cameras
    decreases v.len(),
{
    if v.len() == 0 {
        v
    } else {
        put_camera(in_order(v.drop_last()), v.last())
    }
}

/// What was counted.
pub struct Counts {
    pub dated: int,
    pub placed: int,
    pub unreadable: int,
    pub first: Option<Seq<char>>,
    pub last: Option<Seq<char>>,
    pub cameras: Cameras,
}

/// Nothing counted yet.
pub open spec fn no_counts() -> Counts {
    Counts { dated: 0, placed: 0, unreadable: 0, first: None, last: None, cameras: Seq::empty() }
}

/// The earlier of two dates as text.
pub open spec fn earlier(a: Option<Seq<char>>, d: Seq<char>) -> Option<Seq<char>> {
    match a {
        Some(m) => if text::text_less(d, m) {
            Some(d)
        } else {
            a
        },
        None => Some(d),
    }
}

/// The later of two dates as text.
pub open spec fn later(a: Option<Seq<char>>, d: Seq<char>) -> Option<Seq<char>> {
    match a {
        Some(m) => if text::text_less(m, d) {
            Some(d)
        } else {
            a
        },
        None => Some(d),
    }
}

/// The counts with one more file.
pub open spec fn with_file(c: Counts, f: Option<FactsView>) -> Counts {
    match f {
        None => Counts { unreadable: c.unreadable + 1, ..c },
        Some(f) => Counts {
            dated: c.dated + if f.date is Some {
                1int
            } else {
                0
            },
            placed: c.placed + if f.gps {
                1int
            } else {
                0
            },
            unreadable: c.unreadable,
            first: match f.date {
                Some(d) => earlier(c.first, d),
                None => c.first,
            },
            last: match f.date {
                Some(d) => later(c.last, d),
                None => c.last,
            },
            cameras: counted_in(c.cameras, camera_of(f.tags)),
        },
    }
}

/// The counts over files.
pub open spec fn counts_of(v: Seq<Option<FactsView>>) -> Counts
    decreases v.len(),
{
    if v.len() == 0 {
        no_counts()
    } else {
        with_file(counts_of(v.drop_last()), v.last())
    }
}

/// How many pictures the cameras took together.
pub open spec fn pictures(v: Cameras) -> nat
    decreases v.len(),
{
    if v.len() == 0 {
        0
    } else {
        pictures(v.drop_last()) + v.last().1
    }
}

proof fn lemma_pictures_update(v: Cameras, i: int, name: Seq<char>)
    requires
        0 <= i < v.len(),
    ensures
        pictures(v.update(i, (name, v[i].1 + 1))) == pictures(v) + 1,
    decreases v.len(),
{
    let w = v.update(i, (name, v[i].1 + 1));
    if i == v.len() - 1 {
        assert(w.drop_last() =~= v.drop_last());
    } else {
        lemma_pictures_update(v.drop_last(), i, name);
        assert(w.drop_last() =~= v.drop_last().update(i, (name, v[i].1 + 1)));
    }
}

proof fn lemma_camera_from(v: Cameras, i: int, name: Seq<char>)
    requires
        0 <= i,
    ensures
        match camera_from(v, i, name) {
            Some(k) => i <= k < v.len() && v[k].0 == name,
            None => true,
        },
    decreases v.len() - i,
{
    if i < v.len() {
        lemma_camera_from(v, i + 1, name);
    }
}

/// Every file is counted: those that could not be read apart, the others under their cameras. No
/// count goes beyond the files.
pub proof fn counts_add_up(v: Seq<Option<FactsView>>)
    ensures
        counts_of(v).unreadable + pictures(counts_of(v).cameras) == v.len(),
        0 <= counts_of(v).dated <= v.len() - counts_of(v).unreadable,
        0 <= counts_of(v).placed <= v.len() - counts_of(v).unreadable,
        0 <= counts_of(v).unreadable,
    decreases v.len(),
{
    if v.len() > 0 {
        counts_add_up(v.drop_last());
        let before = counts_of(v.drop_last());
        if let Some(f) = v.last() {
            let name = camera_of(f.tags);
            lemma_camera_from(before.cameras, 0, name);
            match camera_from(before.cameras, 0, name) {
                Some(i) => {
                    lemma_pictures_update(before.cameras, i, name);
                },
                None => {
                    assert(before.cameras.push((name, 1)).drop_last() =~= before.cameras);
                },
            }
        }
    }
}

proof fn lemma_put_camera(v: Cameras, c: (Seq<char>, nat))
    ensures
        pictures(put_camera(v, c)) == pictures(v) + c.1,
    decreases v.len(),
{
    if v.len() == 0 || !shown_before(c, v.last()) {
        assert(v.push(c).drop_last() =~= v);
    } else {
        lemma_put_camera(v.drop_last(), c);
        let front = put_camera(v.drop_last(), c);
        assert(front.push(v.last()).drop_last() =~= front);
    }
}

/// Putting cameras in order loses none of their pictures.
pub proof fn order_keeps_pictures(v: Cameras)
    ensures
        pictures(in_order(v)) == pictures(v),
    decreases v.len(),
{
    if v.len() > 0 {
        order_keeps_pictures(v.drop_last());
        lemma_put_camera(in_order(v.drop_last()), v.last());
    }
}

/// Counts over files.
#[derive(Debug)]
pub struct Tally {
    pub dated: usize,
    pub placed: usize,
    pub unreadable: usize,
    pub first: Option<String>,
    pub last: Option<String>,
    /// Cameras with how many pictures each took, in the order of their first pictures.
    pub cameras: Vec<(String, usize)>,
}

impl View for Tally {
    type V = Counts;

    open spec fn view(&self) -> Counts {
        Counts {
            dated: self.dated as int,
            placed: self.placed as int,
            unreadable: self.unreadable as int,
            first: text::opt(self.first),
            last: text::opt(self.last),
            cameras: cameras_view(self.cameras@),
        }
    }
}

fn is_less(a: &str, b: &str) -> (r: bool)
    ensures
        r == text::text_less(a@, b@),
{
    let a: Vec<char> = text::chars_of(a);
    let b: Vec<char> = text::chars_of(b);
    text::chars_less(a.as_slice(), b.as_slice())
}

fn take_earlier(a: &Option<String>, d: &str) -> (r: Option<String>)
    ensures
        text::opt(r) == earlier(text::opt(*a), d@),
{
    match a {
        Some(m) => if is_less(d, m.as_str()) {
            Some(text::copy_text(d))
        } else {
            Some(text::copy_text(m.as_str()))
        },
        None => Some(text::copy_text(d)),
    }
}

fn take_later(a: &Option<String>, d: &str) -> (r: Option<String>)
    ensures
        text::opt(r) == later(text::opt(*a), d@),
{
    match a {
        Some(m) => if is_less(m.as_str(), d) {
            Some(text::copy_text(d))
        } else {
            Some(text::copy_text(m.as_str()))
        },
        None => Some(text::copy_text(d)),
    }
}

fn count_camera(v: &mut Vec<(String, usize)>, name: String)
    requires
        pictures(cameras_view(old(v)@)) < usize::MAX,
    ensures
        cameras_view(final(v)@) == counted_in(cameras_view(old(v)@), name@),
{
    let ghost all = cameras_view(v@);
    let mut i: usize = 0;
    while i < v.len()
        invariant
            i <= v.len(),
            *v == *old(v),
            all == cameras_view(old(v)@),
            pictures(all) < usize::MAX,
            camera_from(all, 0, name@) == camera_from(all, i as int, name@),
        decreases v.len() - i,
    {
        assert(all[i as int] == (v@[i as int].0@, v@[i as int].1 as nat));
        if text::same_text(v[i].0.as_str(), name.as_str()) {
            proof {
                lemma_at_most(all, i as int);
            }
            let n: usize = v[i].1 + 1;
            v.set(i, (name, n));
            assert(cameras_view(v@) =~= all.update(i as int, (all[i as int].0, (all[i as int].1 + 1) as nat)));
            return;
        }
        i += 1;
    }
    let ghost one = name@;
    v.push((name, 1));
    assert(cameras_view(v@) =~= all.push((one, 1)));
}

proof fn lemma_at_most(v: Cameras, i: int)
    requires
        0 <= i < v.len(),
    ensures
        v[i].1 <= pictures(v),
    decreases v.len(),
{
    if i < v.len() - 1 {
        lemma_at_most(v.drop_last(), i);
    }
}

/// Counts over files.
pub fn count_files(files: &Vec<Option<PhotoFacts>>) -> (t: Tally)
    ensures
        t@ == counts_of(facts_view(files@)),
{
    let ghost all = facts_view(files@);
    let mut t: Tally = Tally {
        dated: 0,
        placed: 0,
        unreadable: 0,
        first: None,
        last: None,
        cameras: Vec::new(),
    };
    let mut i: usize = 0;
    assert(all.take(0) =~= Seq::empty());
    assert(cameras_view(t.cameras@) =~= Seq::empty());
    while i < files.len()
        invariant
            i <= files.len(),
            all == facts_view(files@),
            t@ == counts_of(all.take(i as int)),
        decreases files.len() - i,
    {
        proof {
            counts_add_up(all.take(i as int));
            assert(all.take(i + 1).drop_last() =~= all.take(i as int));
            assert(all.take(i + 1).last() == all[i as int]);
        }
        let ghost before = t@;
        match &files[i] {
            None => {
                t.unreadable += 1;
            },
            Some(f) => {
                assert(all[i as int] == Some(f@));
                if let Some(d) = &f.date {
                    t.dated += 1;
                    t.first = take_earlier(&t.first, d.as_str());
                    t.last = take_later(&t.last, d.as_str());
                }
                if f.gps {
                    t.placed += 1;
                }
                count_camera(&mut t.cameras, find_camera(&f.tags));
            },
        }
        assert(t@ == with_file(before, all[i as int]));
        i += 1;
    }
    assert(all.take(all.len() as int) =~= all);
    t
}

fn is_shown_before(a: &(String, usize), b: &(String, usize)) -> (r: bool)
    ensures
        r == shown_before((a.0@, a.1 as nat), (b.0@, b.1 as nat)),
{
    a.1 > b.1 || (a.1 == b.1 && is_less(a.0.as_str(), b.0.as_str()))
}

fn copy_entry(p: &(String, usize)) -> (r: (String, usize))
    ensures
        r.0@ == p.0@,
        r.1 == p.1,
{
    (text::copy_text(p.0.as_str()), p.1)
}

proof fn lemma_put_at(v: Cameras, c: (Seq<char>, nat), at: int)
    requires
        0 <= at <= v.len(),
        at == 0 || !shown_before(c, v[at - 1]),
        forall|k: int| at <= k < v.len() ==> shown_before(c, #[trigger] v[k]),
    ensures
        put_camera(v, c) == v.insert(at, c),
    decreases v.len(),
{
    if at == v.len() {
        assert(v.insert(at, c) =~= v.push(c));
    } else {
        assert(shown_before(c, v[v.len() - 1]));
        let front = v.drop_last();
        assert forall|k: int| at <= k < front.len() implies shown_before(c, #[trigger] front[k]) by {
            assert(front[k] == v[k]);
        }
        lemma_put_at(front, c, at);
        assert(v.insert(at, c) =~= front.insert(at, c).push(v.last()));
    }
}

/// Puts cameras in the order in which they are shown: with more pictures first, then by name.
pub fn sort_cameras(v: &Vec<(String, usize)>) -> (out: Vec<(String, usize)>)
    ensures
        cameras_view(out@) == in_order(cameras_view(v@)),
{
    let ghost all = cameras_view(v@);
    let mut out: Vec<(String, usize)> = Vec::new();
    let mut i: usize = 0;
    assert(cameras_view(out@) =~= in_order(all.take(0)));
    while i < v.len()
        invariant
            i <= v.len(),
            all == cameras_view(v@),
            cameras_view(out@) == in_order(all.take(i as int)),
        decreases v.len() - i,
    {
        let ghost c = all[i as int];
        let ghost before = cameras_view(out@);
        assert(c == (v@[i as int].0@, v@[i as int].1 as nat));
        assert(all.take(i + 1).drop_last() =~= all.take(i as int));
        let mut at: usize = out.len();
        while at > 0 && is_shown_before(&v[i], &out[at - 1])
            invariant
                i < v.len(),
                at <= out.len(),
                c == (v@[i as int].0@, v@[i as int].1 as nat),
                before == cameras_view(out@),
                forall|k: int| at <= k < before.len() ==> shown_before(c, #[trigger] before[k]),
            decreases at,
        {
            assert(before[at - 1] == (out@[at - 1].0@, out@[at - 1].1 as nat));
            at -= 1;
        }
        proof {
            if at > 0 {
                assert(before[at - 1] == (out@[at - 1].0@, out@[at - 1].1 as nat));
            }
            lemma_put_at(before, c, at as int);
        }
        let entry: (String, usize) = copy_entry(&v[i]);
        out.insert(at, entry);
        assert(cameras_view(out@) =~= before.insert(at as int, c));
        i += 1;
    }
    assert(all.take(all.len() as int) =~= all);
    out
}

/// The length of the longest name.
pub open spec fn widest(v: Cameras) -> nat
    decreases v.len(),
{
    if v.len() == 0 {
        0
    } else {
        showcmd::larger(widest(v.drop_last()), v.last().0.len())
    }
}

/// A column width: at most 32.
pub open spec fn camera_column(n: nat) -> nat {
    if n > 32 {
        32
    } else {
        n
    }
}

/// Cameras and counts, one to a line.
pub open spec fn camera_lines(v: Cameras, width: nat) -> Seq<char>
    decreases v.len(),
{
    if v.len() == 0 {
        Seq::empty()
    } else {
        camera_lines(v.drop_last(), width) + "    "@ + text::padded_right(v.last().0, width) + "  "@ + text::dec(
            v.last().1,
        ) + "\n"@
    }
}

/// The counts in words.
pub open spec fn report(c: Counts, total: nat) -> Seq<char> {
    let cams = in_order(c.cameras);
    "PIC-Killer · 元数据统计\n  共 "@ + text::dec(total) + " 张照片\n\n  拍摄时间："@ + text::dec(c.dated as nat)
        + " 有，"@ + text::dec((total - c.dated - c.unreadable) as nat) + " 无\n  GPS 定位："@ + text::dec(
        c.placed as nat,
    ) + " 有，"@ + text::dec((total - c.placed - c.unreadable) as nat) + " 无\n"@ + text::when(
        c.unreadable > 0,
        "  无法读取："@ + text::dec(c.unreadable as nat) + "\n"@,
    ) + (match (c.first, c.last) {
        (Some(lo), Some(hi)) => "  时间跨度："@ + lo + "  ~  "@ + hi + "\n"@,
        _ => Seq::empty(),
    }) + "\n  相机分布：\n"@ + camera_lines(cams, camera_column(widest(cams)))
}

fn widest_name(v: &Vec<(String, usize)>) -> (n: usize)
    ensures
        n == widest(cameras_view(v@)),
{
    let ghost all = cameras_view(v@);
    let mut n: usize = 0;
    let mut i: usize = 0;
    assert(all.take(0) =~= Seq::empty());
    while i < v.len()
        invariant
            i <= v.len(),
            all == cameras_view(v@),
            n == widest(all.take(i as int)),
        decreases v.len() - i,
    {
        proof {
            assert(all[i as int] == (v@[i as int].0@, v@[i as int].1 as nat));
            assert(all.take(i + 1).drop_last() =~= all.take(i as int));
        }
        let cs: Vec<char> = text::chars_of(v[i].0.as_str());
        if cs.len() > n {
            n = cs.len();
        }
        i += 1;
    }
    assert(all.take(all.len() as int) =~= all);
    n
}

fn push_camera_lines(s: &mut String, v: &Vec<(String, usize)>, width: usize)
    ensures
        final(s)@ == old(s)@ + camera_lines(cameras_view(v@), width as nat),
{
    let ghost all = cameras_view(v@);
    let ghost start = s@;
    let mut i: usize = 0;
    assert(s@ =~= start + camera_lines(all.take(0), width as nat));
    while i < v.len()
        invariant
            i <= v.len(),
            all == cameras_view(v@),
            s@ == start + camera_lines(all.take(i as int), width as nat),
        decreases v.len() - i,
    {
        proof {
            assert(all[i as int] == (v@[i as int].0@, v@[i as int].1 as nat));
            assert(all.take(i + 1).drop_last() =~= all.take(i as int));
        }
        s.append("    ");
        text::push_padded_right(s, v[i].0.as_str(), width);
        s.append("  ");
        text::push_dec(s, v[i].1 as u64);
        s.append("\n");
        assert(s@ =~= start + camera_lines(all.take(i + 1), width as nat));
        i += 1;
    }
    assert(all.take(all.len() as int) =~= all);
}

/// Counts over files, in words.
pub fn report_text(files: &Vec<Option<PhotoFacts>>) -> (s: String)
    ensures
        s@ == report(counts_of(facts_view(files@)), files@.len()),
{
    let t: Tally = count_files(files);
    let total: usize = files.len();
    proof {
        counts_add_up(facts_view(files@));
    }
    let mut s: String = text::copy_text("PIC-Killer · 元数据统计\n  共 ");
    text::push_dec(&mut s, total as u64);
    s.append(" 张照片\n\n  拍摄时间：");
    text::push_dec(&mut s, t.dated as u64);
    s.append(" 有，");
    text::push_dec(&mut s, (total - t.unreadable - t.dated) as u64);
    s.append(" 无\n  GPS 定位：");
    text::push_dec(&mut s, t.placed as u64);
    s.append(" 有，");
    text::push_dec(&mut s, (total - t.unreadable - t.placed) as u64);
    s.append(" 无\n");
    let ghost a = s@;
    if t.unreadable > 0 {
        s.append("  无法读取：");
        text::push_dec(&mut s, t.unreadable as u64);
        s.append("\n");
    }
    assert(s@ =~= a + text::when(
        t.unreadable > 0,
        "  无法读取："@ + text::dec(t.unreadable as nat) + "\n"@,
    ));
    let ghost b = s@;
    if let (Some(lo), Some(hi)) = (&t.first, &t.last) {
        s.append(
            text::copy_text("  时间跨度：").concat(lo.as_str()).concat("  ~  ").concat(hi.as_str()).concat(
                "\n",
            ).as_str(),
        );
    }
    assert(s@ =~= b + (match (t@.first, t@.last) {
        (Some(lo), Some(hi)) => "  时间跨度："@ + lo + "  ~  "@ + hi + "\n"@,
        _ => Seq::empty(),
    }));
    s.append("\n  相机分布：\n");
    let cams: Vec<(String, usize)> = sort_cameras(&t.cameras);
    let mut width: usize = widest_name(&cams);
    if width > 32 {
        width = 32;
    }
    push_camera_lines(&mut s, &cams, width);
    s
}

// ---- looking for what is wrong ----------------------------------------------------------

/// How bad something is.
#[derive(Debug, Clone, Copy, PartialEq, Eq, Structural)]
pub enum Severity {
    Error,
    Warn,
}

/// Something that is wrong with a file.
pub type IssueView = (Severity, Seq<char>);

/// The views of issues.
pub open spec fn issues_view(v: Seq<(Severity, String)>) -> Seq<IssueView> {
    v.map_values(|p: (Severity, String)| (p.0, p.1@))
}

/// Whether one point in time is before another.
pub open spec fn stamp_before(a: Stamp, b: Stamp) -> bool {
    if a.year != b.year {
        a.year < b.year
    } else if a.month != b.month {
        a.month < b.month
    } else if a.day != b.day {
        a.day < b.day
    } else if a.hour != b.hour {
        a.hour < b.hour
    } else if a.minute != b.minute {
        a.minute < b.minute
    } else if a.second != b.second {
        a.second < b.second
    } else {
        a.nanos < b.nanos
    }
}

fn is_stamp_before(a: &Stamp, b: &Stamp) -> (r: bool)
    ensures
        r == stamp_before(*a, *b),
{
    if a.year != b.year {
        a.year < b.year
    } else if a.month != b.month {
        a.month < b.month
    } else if a.day != b.day {
        a.day < b.day
    } else if a.hour != b.hour {
        a.hour < b.hour
    } else if a.minute != b.minute {
        a.minute < b.minute
    } else if a.second != b.second {
        a.second < b.second
    } else {
        a.nanos < b.nanos
    }
}

/// What is wrong with a capture time, given the point in time that it says.
pub open spec fn time_issue(d: Seq<char>, taken: Option<Stamp>, now: Stamp) -> Seq<IssueView> {
    match taken {
        Some(t) => if stamp_before(now, t) {
            seq![(Severity::Warn, "拍摄时间在未来："@ + d)]
        } else {
            Seq::empty()
        },
        None => seq![(Severity::Error, "拍摄时间格式异常："@ + d)],
    }
}

/// What is wrong with the capture times, given the point in time that the original one says.
pub open spec fn time_issues(v: Seq<TagWords>, taken: Option<Stamp>, now: Stamp) -> Seq<IssueView> {
    match value_of(v, "DateTimeOriginal"@) {
        None => Seq::empty(),
        Some(d) => time_issue(d, taken, now) + (match value_of(v, "CreateDate"@) {
            Some(c) => if c != d {
                seq![(Severity::Warn, "DateTimeOriginal("@ + d + ") 与 CreateDate("@ + c + ") 不一致"@)]
            } else {
                Seq::empty()
            },
            None => Seq::empty(),
        }),
    }
}

/// What is wrong with the orientation.
pub open spec fn orientation_issues(v: Seq<TagWords>) -> Seq<IssueView> {
    match value_of(v, "Orientation"@) {
        None => Seq::empty(),
        Some(o) => match text::signed_within(text::trimmed(o), i64::MIN as int, i64::MAX as int) {
            Some(n) => if 1 <= n <= 8 {
                Seq::empty()
            } else {
                seq![(Severity::Error, "方向值异常："@ + text::dec_signed(n) + "（应为 1-8）"@)]
            },
            None => Seq::empty(),
        },
    }
}

/// What is wrong with a file that was read, given the point in time that its capture time says,
/// and its position in words if that is not on the earth.
pub open spec fn issues_of(
    v: Seq<TagWords>,
    taken: Option<Stamp>,
    now: Stamp,
    astray: Option<Seq<char>>,
) -> Seq<IssueView> {
    time_issues(v, taken, now) + (match astray {
        Some(p) => seq![(Severity::Error, "GPS 坐标越界："@ + p)],
        None => Seq::empty(),
    }) + orientation_issues(v)
}

fn push_issue(out: &mut Vec<(Severity, String)>, severity: Severity, what: String)
    ensures
        issues_view(final(out)@) == issues_view(old(out)@) + seq![(severity, what@)],
{
    let ghost before = issues_view(out@);
    let ghost w = what@;
    out.push((severity, what));
    assert(issues_view(out@) =~= before + seq![(severity, w)]);
}

fn check_times(tags: &Vec<TagView>, taken: Option<Stamp>, now: &Stamp) -> (out: Vec<(Severity, String)>)
    ensures
        issues_view(out@) == time_issues(showcmd::words_view(tags@), taken, *now),
{
    let mut out: Vec<(Severity, String)> = Vec::new();
    assert(issues_view(out@) =~= Seq::empty());
    if let Some(d) = find_value(tags, "DateTimeOriginal") {
        match taken {
            Some(t) => {
                if is_stamp_before(now, &t) {
                    push_issue(
                        &mut out,
                        Severity::Warn,
                        text::copy_text("拍摄时间在未来：").concat(d.as_str()),
                    );
                }
            },
            None => {
                push_issue(
                    &mut out,
                    Severity::Error,
                    text::copy_text("拍摄时间格式异常：").concat(d.as_str()),
                );
            },
        }
        assert(issues_view(out@) =~= time_issue(d@, taken, *now));
        let ghost before = issues_view(out@);
        if let Some(c) = find_value(tags, "CreateDate") {
            if !text::same_text(c.as_str(), d.as_str()) {
                push_issue(
                    &mut out,
                    Severity::Warn,
                    text::copy_text("DateTimeOriginal(").concat(d.as_str()).concat(
                        ") 与 CreateDate(",
                    ).concat(c.as_str()).concat(") 不一致"),
                );
            }
        }
        assert(issues_view(out@) =~= time_issues(showcmd::words_view(tags@), taken, *now));
    }
    out
}

/// Looks for what is wrong with a file that was read, given the point in time that its capture
/// time says, and its position in words if that is not on the earth.
pub fn find_issues(tags: &Vec<TagView>, taken: Option<Stamp>, now: &Stamp, astray: Option<&str>) -> (out: Vec<
    (Severity, String),
>)
    ensures
        issues_view(out@) == issues_of(
            showcmd::words_view(tags@),
            taken,
            *now,
            match astray {
                Some(p) => Some(p@),
                None => None,
            },
        ),
{
    let mut out: Vec<(Severity, String)> = check_times(tags, taken, now);
    let ghost a = issues_view(out@);
    if let Some(p) = astray {
        push_issue(&mut out, Severity::Error, text::copy_text("GPS 坐标越界：").concat(p));
    }
    let ghost position: Option<Seq<char>> = match astray {
        Some(p) => Some(p@),
        None => None,
    };
    assert(issues_view(out@) =~= a + (match position {
        Some(p) => seq![(Severity::Error, "GPS 坐标越界："@ + p)],
        None => Seq::empty(),
    }));
    let ghost b = issues_view(out@);
    if let Some(o) = find_value(tags, "Orientation") {
        let cs: Vec<char> = text::chars_of(o.as_str());
        if let Some(n) = text::parse_signed(text::trim_chars(cs.as_slice()), i64::MAX) {
            if n < 1 || n > 8 {
                let mut what: String = text::copy_text("方向值异常：");
                text::push_signed(&mut what, n);
                what.append("（应为 1-8）");
                push_issue(&mut out, Severity::Error, what);
            }
        }
    }
    assert(issues_view(out@) =~= b + orientation_issues(showcmd::words_view(tags@)));
    out
}

/// The point in time that the original capture time says.
pub open spec fn taken_at(v: Seq<TagWords>) -> Option<Stamp> {
    match value_of(v, "DateTimeOriginal"@) {
        Some(d) => timeop::time_in(d),
        None => None,
    }
}

/// Looks for what is wrong with a file: with its tags, given its position in words if that is not
/// on the earth; or that it could not be read.
pub fn check_file(tags: Option<&Vec<TagView>>, now: &Stamp, astray: Option<&str>) -> (out: Vec<
    (Severity, String),
>)
    ensures
        issues_view(out@) == match tags {
            None => seq![(Severity::Error, "无法读取元数据（可能损坏或不支持）"@)],
            Some(v) => issues_of(
                showcmd::words_view(v@),
                taken_at(showcmd::words_view(v@)),
                *now,
                match astray {
                    Some(p) => Some(p@),
                    None => None,
                },
            ),
        },
{
    match tags {
        None => {
            let mut out: Vec<(Severity, String)> = Vec::new();
            assert(issues_view(out@) =~= Seq::empty());
            push_issue(
                &mut out,
                Severity::Error,
                text::copy_text("无法读取元数据（可能损坏或不支持）"),
            );
            assert(issues_view(out@) =~= seq![
                (Severity::Error, "无法读取元数据（可能损坏或不支持）"@),
            ]);
            out
        },
        Some(v) => {
            let taken: Option<Stamp> = match find_value(v, "DateTimeOriginal") {
                Some(d) => match timeop::parse_datetime(d.as_str()) {
                    Ok(t) => Some(t),
                    Err(_) => None,
                },
                None => None,
            };
            find_issues(v, taken, now, astray)
        },
    }
}

// ---- what is told -----------------------------------------------------------------------

/// A file and what is wrong with it.
#[derive(Debug)]
pub struct Checked {
    pub name: String,
    pub issues: Vec<(Severity, String)>,
}

/// A file and what is wrong with it.
pub struct CheckedView {
    pub name: Seq<char>,
    pub issues: Seq<IssueView>,
}

impl View for Checked {
    type V = CheckedView;

    open spec fn view(&self) -> CheckedView {
        CheckedView { name: self.name@, issues: issues_view(self.issues@) }
    }
}

/// The views of checked files.
pub open spec fn checked_view(v: Seq<Checked>) -> Seq<CheckedView> {
    v.map_values(|c: Checked| c@)
}

/// Whether one of the issues is an error.
pub open spec fn has_error(v: Seq<IssueView>) -> bool {
    exists|i: int| 0 <= i < v.len() && (#[trigger] v[i]).0 == Severity::Error
}

/// The issues, one to a line.
pub open spec fn issue_lines(v: Seq<IssueView>) -> Seq<char>
    decreases v.len(),
{
    if v.len() == 0 {
        Seq::empty()
    } else {
        issue_lines(v.drop_last()) + (if v.last().0 == Severity::Error {
            "  ✗ "@
        } else {
            "  ! "@
        }) + v.last().1 + "\n"@
    }
}

/// What is told about a file.
pub open spec fn file_lines(c: CheckedView) -> Seq<char> {
    text::when(
        c.issues.len() > 0,
        (if has_error(c.issues) {
            "[问题] "@
        } else {
            "[警告] "@
        }) + c.name + "\n"@ + issue_lines(c.issues),
    )
}

/// What is told about files.
pub open spec fn all_lines(v: Seq<CheckedView>) -> Seq<char>
    decreases v.len(),
{
    if v.len() == 0 {
        Seq::empty()
    } else {
        all_lines(v.drop_last()) + file_lines(v.last())
    }
}

/// How many files have an error.
pub open spec fn problems(v: Seq<CheckedView>) -> int
    decreases v.len(),
{
    if v.len() == 0 {
        0
    } else {
        problems(v.drop_last()) + if has_error(v.last().issues) {
            1int
        } else {
            0
        }
    }
}

/// How many files have issues, but no error.
pub open spec fn warnings(v: Seq<CheckedView>) -> int
    decreases v.len(),
{
    if v.len() == 0 {
        0
    } else {
        warnings(v.drop_last()) + if v.last().issues.len() > 0 && !has_error(v.last().issues) {
            1int
        } else {
            0
        }
    }
}

/// What is told about files, with the counts at the end.
pub open spec fn verdict(v: Seq<CheckedView>) -> Seq<char> {
    all_lines(v) + "\n共 "@ + text::dec(v.len()) + " 张：正常 "@ + text::dec(
        (v.len() - problems(v) - warnings(v)) as nat,
    ) + "，问题 "@ + text::dec(problems(v) as nat) + "，警告 "@ + text::dec(warnings(v) as nat) + "\n"@
        + text::when(problems(v) == 0 && warnings(v) == 0, "未发现元数据问题 ✓\n"@)
}

/// No file is counted twice.
pub proof fn verdict_adds_up(v: Seq<CheckedView>)
    ensures
        problems(v) >= 0,
        warnings(v) >= 0,
        problems(v) + warnings(v) <= v.len(),
    decreases v.len(),
{
    if v.len() > 0 {
        verdict_adds_up(v.drop_last());
    }
}

fn any_error(v: &Vec<(Severity, String)>) -> (r: bool)
    ensures
        r == has_error(issues_view(v@)),
{
    let ghost all = issues_view(v@);
    let mut i: usize = 0;
    while i < v.len()
        invariant
            i <= v.len(),
            all == issues_view(v@),
            forall|k: int| 0 <= k < i ==> (#[trigger] all[k]).0 != Severity::Error,
        decreases v.len() - i,
    {
        assert(all[i as int] == (v@[i as int].0, v@[i as int].1@));
        if v[i].0 == Severity::Error {
            return true;
        }
        i += 1;
    }
    false
}

fn push_file_lines(s: &mut String, c: &Checked)
    ensures
        final(s)@ == old(s)@ + file_lines(c@),
{
    let ghost start = s@;
    if c.issues.len() > 0 {
        if any_error(&c.issues) {
            s.append("[问题] ");
        } else {
            s.append("[警告] ");
        }
        s.append(c.name.as_str());
        s.append("\n");
        let ghost head = s@;
        let ghost all = issues_view(c.issues@);
        let mut i: usize = 0;
        assert(s@ =~= head + issue_lines(all.take(0)));
        while i < c.issues.len()
            invariant
                i <= c.issues.len(),
                all == issues_view(c.issues@),
                s@ == head + issue_lines(all.take(i as int)),
            decreases c.issues.len() - i,
        {
            proof {
                assert(all[i as int] == (c.issues@[i as int].0, c.issues@[i as int].1@));
                assert(all.take(i + 1).drop_last() =~= all.take(i as int));
            }
            if c.issues[i].0 == Severity::Error {
                s.append("  ✗ ");
            } else {
                s.append("  ! ");
            }
            s.append(c.issues[i].1.as_str());
            s.append("\n");
            assert(s@ =~= head + issue_lines(all.take(i + 1)));
            i += 1;
        }
        assert(all.take(all.len() as int) =~= all);
    }
    assert(s@ =~= start + file_lines(c@));
}

/// Tells what is wrong with files, and counts those with an error.
pub fn verify_text(files: &Vec<Checked>) -> (r: (String, usize))
    ensures
        r.0@ == verdict(checked_view(files@)),
        r.1 == problems(checked_view(files@)),
{
    let ghost all = checked_view(files@);
    let mut s: String = String::new();
    let mut bad: usize = 0;
    let mut warned: usize = 0;
    let mut i: usize = 0;
    assert(all.take(0) =~= Seq::empty());
    assert(s@ =~= Seq::empty());
    while i < files.len()
        invariant
            i <= files.len(),
            all == checked_view(files@),
            s@ == all_lines(all.take(i as int)),
            bad == problems(all.take(i as int)),
            warned == warnings(all.take(i as int)),
        decreases files.len() - i,
    {
        proof {
            verdict_adds_up(all.take(i as int));
            assert(all[i as int] == files@[i as int]@);
            assert(all.take(i + 1).drop_last() =~= all.take(i as int));
        }
        push_file_lines(&mut s, &files[i]);
        if any_error(&files[i].issues) {
            bad += 1;
        } else if files[i].issues.len() > 0 {
            warned += 1;
        }
        i += 1;
    }
    proof {
        assert(all.take(all.len() as int) =~= all);
        verdict_adds_up(all);
    }
    s.append("\n共 ");
    text::push_dec(&mut s, files.len() as u64);
    s.append(" 张：正常 ");
    text::push_dec(&mut s, (files.len() - bad - warned) as u64);
    s.append("，问题 ");
    text::push_dec(&mut s, bad as u64);
    s.append("，警告 ");
    text::push_dec(&mut s, warned as u64);
    s.append("\n");
    text::push_when(&mut s, bad == 0 && warned == 0, "未发现元数据问题 ✓\n");
    (s, bad)
}

} // verus!
