//! What is written from well-formed pieces, and what is read of it again.

use vstd::prelude::*;
use vstd::utf8::encode_utf8;
use crate::iptc;
use crate::text;
use crate::xml;
use crate::xml::{EventView, PieceView};
use crate::xmp;

verus! {

// ---- texts of pieces --------------------------------------------------------------------

/// Pieces one behind the other are written one behind the other.
pub proof fn lemma_text_parts(a: Seq<PieceView>, b: Seq<PieceView>)
    ensures
        xml::pieces_text(a + b) == xml::pieces_text(a) + xml::pieces_text(b),
    decreases b.len(),
{
    if b.len() == 0 {
        assert(a + b =~= a);
        assert(xml::pieces_text(a) + xml::pieces_text(b) =~= xml::pieces_text(a));
    } else {
        assert((a + b).drop_last() =~= a + b.drop_last());
        lemma_text_parts(a, b.drop_last());
        assert(xml::pieces_text(a + b) =~= xml::pieces_text(a) + xml::pieces_text(b));
    }
}

/// How many bytes pieces take.
pub open spec fn bytes_len(v: Seq<PieceView>) -> int {
    encode_utf8(xml::pieces_text(v)).len() as int
}

/// The text between the places behind `i` and behind `j` pieces is that of the pieces between.
pub proof fn lemma_slice(v: Seq<PieceView>, i: int, j: int)
    requires
        0 <= i <= j <= v.len(),
    ensures
        text::byte_slice(xml::pieces_text(v), bytes_len(v.take(i)), bytes_len(v.take(j))) == xml::pieces_text(
            v.subrange(i, j),
        ),
{
    let (a, b, c) = (v.take(i), v.subrange(i, j), v.skip(j));
    assert(v.take(j) =~= a + b);
    assert(v =~= (a + b) + c);
    lemma_text_parts(a, b);
    lemma_text_parts(a + b, c);
    let (x, y, z) = (xml::pieces_text(a), xml::pieces_text(b), xml::pieces_text(c));
    xml::lemma_encoded_parts(x, y);
    xml::lemma_encoded_parts(x + y, z);
    assert(encode_utf8(xml::pieces_text(v)).subrange(bytes_len(a), bytes_len(a + b)) =~= encode_utf8(y));
    vstd::utf8::encode_utf8_decode_utf8(y);
}

/// The pieces of a text: none where there is no text.
pub open spec fn text_pieces(raw: Seq<char>) -> Seq<PieceView> {
    if raw.len() == 0 {
        Seq::empty()
    } else {
        seq![PieceView::Chars(raw)]
    }
}

/// Pieces without a byte order mark in front of all.
pub open spec fn unmarked(v: Seq<PieceView>) -> Seq<PieceView> {
    if v.len() > 0 && v[0] is Chars {
        text_pieces(xml::without_mark(v[0]->Chars_0)) + v.skip(1)
    } else {
        v
    }
}

/// The pieces of a text are written as the text.
pub proof fn lemma_text_of(raw: Seq<char>)
    ensures
        xml::pieces_text(text_pieces(raw)) == raw,
{
    if raw.len() > 0 {
        lemma_one_text(PieceView::Chars(raw));
    } else {
        assert(xml::pieces_text(text_pieces(raw)) =~= raw);
    }
}

/// The pieces of a text without `<` are well-formed.
pub proof fn lemma_text_formed(raw: Seq<char>)
    requires
        !raw.contains('<'),
    ensures
        xml::well_formed(text_pieces(raw)),
{
    if raw.len() > 0 {
        lemma_one_formed(PieceView::Chars(raw));
    } else {
        lemma_nothing_formed();
    }
}

/// What is written from well-formed pieces, without a byte order mark in front.
pub proof fn lemma_unmarked(v: Seq<PieceView>)
    requires
        xml::well_formed(v),
    ensures
        xml::well_formed(unmarked(v)),
        xml::pieces_text(unmarked(v)) == xml::without_mark(xml::pieces_text(v)),
{
    if v.len() > 0 {
        let (a, b) = (v.take(1), v.skip(1));
        assert(a =~= seq![v[0]]);
        assert(v =~= a + b);
        lemma_text_parts(a, b);
        lemma_one_text(v[0]);
        assert(xml::piece_ok(v[0]));
        if v[0] is Chars {
            let raw = v[0]->Chars_0;
            let rest = xml::without_mark(raw);
            assert(!rest.contains('<')) by {
                if rest.contains('<') {
                    let i = choose|i: int| 0 <= i < rest.len() && rest[i] == '<';
                    assert(raw.contains('<')) by {
                        assert(raw[i + raw.len() - rest.len()] == '<');
                    }
                }
            }
            lemma_text_formed(rest);
            lemma_text_of(rest);
            assert forall|k: int| 1 <= k <= v.len() implies (#[trigger] xml::open_names(v, k)) is Some by {
                lemma_names_before(v, k, v.len() as int);
            }
            assert(xml::open_names(v, 1) == xml::open_names(v, 0));
            lemma_inside(v, 1, v.len() as int);
            assert(v.subrange(1, v.len() as int) =~= b);
            assert(b.len() > 0 ==> b[0] == v[1]);
            lemma_parts_formed(text_pieces(rest), b);
            lemma_text_parts(text_pieces(rest), b);
            assert(xml::pieces_text(v)[0] == raw[0]);
            assert(xml::without_mark(xml::pieces_text(v)) =~= rest + xml::pieces_text(b));
        } else {
            reveal_strlit("<");
            reveal_strlit("</");
            if v[0] is Misc {
                xml::lemma_markup(v[0]->Misc_0);
            }
            assert(xml::pieces_text(v)[0] == xml::piece_text(v[0])[0]);
        }
    }
}

// ---- nesting ----------------------------------------------------------------------------

/// Where the open names are known, they are known before.
pub proof fn lemma_names_before(v: Seq<PieceView>, k: int, n: int)
    requires
        0 <= k <= n <= v.len(),
        xml::open_names(v, n) is Some,
    ensures
        xml::open_names(v, k) is Some,
    decreases n - k,
{
    if k < n {
        lemma_names_before(v, k, n - 1);
    }
}

/// How often a name is among the open ones from `from` on.
pub open spec fn times(st: Seq<Seq<char>>, from: int, name: Seq<char>) -> int
    decreases st.len(),
{
    if st.len() <= from || st.len() == 0 {
        0
    } else {
        times(st.drop_last(), from, name) + if st.last() == name {
            1int
        } else {
            0
        }
    }
}

proof fn lemma_times(st: Seq<Seq<char>>, from: int, name: Seq<char>)
    ensures
        times(st, from, name) >= 0,
    decreases st.len(),
{
    if st.len() > from && st.len() > 0 {
        lemma_times(st.drop_last(), from, name);
    }
}

/// The events that well-formed pieces are read as.
pub open spec fn plain_events(v: Seq<PieceView>) -> Seq<EventView> {
    xml::events_of(xml::placed(v))
}

/// The event that the `i`th of well-formed pieces is.
pub proof fn lemma_event(v: Seq<PieceView>, i: int)
    requires
        0 <= i < v.len(),
    ensures
        plain_events(v).len() == v.len() + 1,
        plain_events(v)[i] == xml::event_of((v[i], bytes_len(v.take(i + 1)))),
{
}

/// What closes an element is found where its name is taken off the open ones.
pub proof fn lemma_end_found(v: Seq<PieceView>, i: int, name: Seq<char>, b: int)
    requires
        xml::well_formed(v),
        0 <= b,
        0 <= i <= v.len(),
        xml::open_names(v, i) is Some,
        (xml::open_names(v, i)->0).len() > b,
        (xml::open_names(v, i)->0)[b] == name,
    ensures
        ({
            let st = xml::open_names(v, i)->0;
            match xmp::end_of_element(plain_events(v), i, name, times(st, b + 1, name)) {
                Ok(next) => {
                    &&& i < next <= v.len()
                    &&& v[next - 1] == PieceView::Close(name)
                    &&& xml::open_names(v, next) == Some(st.take(b))
                    &&& forall|k: int|
                        i <= k < next ==> (#[trigger] xml::open_names(v, k)) is Some && xml::open_names(
                            v,
                            k,
                        )->0.len() > b && (xml::open_names(v, k)->0).take(b + 1) == st.take(b + 1)
                },
                Err(_) => false,
            }
        }),
    decreases v.len() - i,
{
    let st = xml::open_names(v, i)->0;
    if i < v.len() {
        lemma_event(v, i);
        assert(xml::piece_ok(v[i]));
        lemma_names_before(v, i + 1, v.len() as int);
        let next_st = xml::open_names(v, i + 1)->0;
        match v[i] {
            PieceView::Open(c) => {
                assert(next_st == st.push(xml::name_in(c)));
                assert(next_st.drop_last() =~= st);
                assert(next_st.take(b + 1) =~= st.take(b + 1));
                assert(next_st.take(b) =~= st.take(b));
                lemma_end_found(v, i + 1, name, b);
            },
            PieceView::Close(m) => {
                assert(next_st == st.drop_last());
                assert(st.last() == m);
                if st.len() == b + 1 {
                    assert(st.drop_last() =~= st.take(b));
                    assert(m == name);
                    assert(times(st, b + 1, name) == 0);
                } else {
                    lemma_times(st.drop_last(), b + 1, name);
                    assert(next_st.take(b + 1) =~= st.take(b + 1));
                    assert(next_st.take(b) =~= st.take(b));
                    lemma_end_found(v, i + 1, name, b);
                }
            },
            _ => {
                assert(next_st == st);
                lemma_end_found(v, i + 1, name, b);
            },
        }
    }
}

proof fn lemma_inner_names(v: Seq<PieceView>, i: int, end: int, b: int, n: int)
    requires
        0 <= i <= end <= v.len(),
        0 <= n <= end - i,
        xml::open_names(v, i) is Some,
        (xml::open_names(v, i)->0).len() == b,
        forall|k: int|
            i <= k <= end ==> (#[trigger] xml::open_names(v, k)) is Some && xml::open_names(v, k)->0.len() >= b,
    ensures
        xml::open_names(v.subrange(i, end), n) is Some,
        xml::open_names(v.subrange(i, end), n)->0 == (xml::open_names(v, i + n)->0).skip(b),
    decreases n,
{
    let w = v.subrange(i, end);
    if n == 0 {
        assert(xml::open_names(v, i + n)->0.skip(b) =~= Seq::empty());
    } else {
        lemma_inner_names(v, i, end, b, n - 1);
        assert(w[n - 1] == v[i + n - 1]);
        let before = xml::open_names(v, i + n - 1)->0;
        let after = xml::open_names(v, i + n)->0;
        match v[i + n - 1] {
            PieceView::Open(c) => {
                assert(after == before.push(xml::name_in(c)));
                assert(after.skip(b) =~= before.skip(b).push(xml::name_in(c)));
            },
            PieceView::Close(m) => {
                assert(after == before.drop_last());
                assert(after.skip(b) =~= before.skip(b).drop_last());
                assert(before.skip(b).last() == before.last());
            },
            _ => {},
        }
    }
}

/// What stands inside an element of a well-formed text is well-formed.
pub proof fn lemma_inside(v: Seq<PieceView>, i: int, end: int)
    requires
        xml::well_formed(v),
        0 <= i <= end <= v.len(),
        xml::open_names(v, i) is Some,
        xml::open_names(v, end) == xml::open_names(v, i),
        forall|k: int|
            i <= k <= end ==> (#[trigger] xml::open_names(v, k)) is Some && xml::open_names(v, k)->0.len()
                >= xml::open_names(v, i)->0.len(),
    ensures
        xml::well_formed(v.subrange(i, end)),
{
    let w = v.subrange(i, end);
    let b = (xml::open_names(v, i)->0).len() as int;
    lemma_inner_names(v, i, end, b, end - i);
    assert((xml::open_names(v, i)->0).skip(b) =~= Seq::empty());
    assert forall|k: int| 0 <= k < w.len() implies xml::piece_ok(#[trigger] w[k]) by {
        assert(w[k] == v[i + k]);
    }
    assert forall|h: int, k: int|
        0 <= h < w.len() && k == h + 1 && k < w.len() && (#[trigger] w[h]) is Chars implies !((
    #[trigger] w[k]) is Chars) by {
        assert(w[k] == v[i + k]);
        assert(w[k - 1] == v[i + k - 1]);
    }
}

// ---- escaped texts and written attributes -----------------------------------------------

/// What an escaped text stands for; other texts as they are resolved.
pub open spec fn known_text(raw: Seq<char>) -> Option<Seq<char>> {
    if exists|s: Seq<char>| raw == #[trigger] xml::escaped(s) {
        Some(choose|s: Seq<char>| raw == #[trigger] xml::escaped(s))
    } else {
        xml::resolved_text(raw)
    }
}

proof fn lemma_escaped_parts(a: Seq<char>, b: Seq<char>)
    ensures
        xml::escaped(a + b) == xml::escaped(a) + xml::escaped(b),
    decreases b.len(),
{
    if b.len() == 0 {
        assert(a + b =~= a);
        assert(xml::escaped(a) + xml::escaped(b) =~= xml::escaped(a));
    } else {
        assert((a + b).drop_last() =~= a + b.drop_last());
        lemma_escaped_parts(a, b.drop_last());
        assert(xml::escaped(a + b) =~= xml::escaped(a) + xml::escaped(b));
    }
}

proof fn lemma_references()
    ensures
        "&lt;"@ == seq!['&', 'l', 't', ';'],
        "&gt;"@ == seq!['&', 'g', 't', ';'],
        "&amp;"@ == seq!['&', 'a', 'm', 'p', ';'],
        "&apos;"@ == seq!['&', 'a', 'p', 'o', 's', ';'],
        "&quot;"@ == seq!['&', 'q', 'u', 'o', 't', ';'],
{
    reveal_strlit("&lt;");
    reveal_strlit("&gt;");
    reveal_strlit("&amp;");
    reveal_strlit("&apos;");
    reveal_strlit("&quot;");
    assert("&lt;"@ =~= seq!['&', 'l', 't', ';']);
    assert("&gt;"@ =~= seq!['&', 'g', 't', ';']);
    assert("&amp;"@ =~= seq!['&', 'a', 'm', 'p', ';']);
    assert("&apos;"@ =~= seq!['&', 'a', 'p', 'o', 's', ';']);
    assert("&quot;"@ =~= seq!['&', 'q', 'u', 'o', 't', ';']);
}

proof fn lemma_escaped_front(s: Seq<char>)
    requires
        s.len() > 0,
    ensures
        xml::escaped(s) == xml::escaped_char(s[0]) + xml::escaped(s.drop_first()),
{
    let head = seq![s[0]];
    assert(s =~= head + s.drop_first());
    lemma_escaped_parts(head, s.drop_first());
    assert(head.drop_last() =~= Seq::empty());
    assert(xml::escaped(head.drop_last()) =~= Seq::empty());
    assert(xml::escaped(head) =~= xml::escaped_char(s[0]));
}

proof fn lemma_same_reference(c: char, d: char, x: Seq<char>, y: Seq<char>)
    requires
        xml::escaped_char(c) + x == xml::escaped_char(d) + y,
    ensures
        c == d,
        x == y,
{
    lemma_references();
    let (a, b) = (xml::escaped_char(c), xml::escaped_char(d));
    let whole = a + x;
    assert(whole[0] == a[0] && whole[0] == b[0]);
    assert(a.len() > 1 ==> whole[1] == a[1]);
    assert(a.len() > 2 ==> whole[2] == a[2]);
    assert(whole == b + y);
    assert(b.len() > 1 ==> whole[1] == b[1]);
    assert(b.len() > 2 ==> whole[2] == b[2]);
    assert(c == d);
    assert(x =~= whole.skip(a.len() as int));
    assert(y =~= whole.skip(b.len() as int));
}

/// No two texts are escaped to the same.
pub proof fn lemma_escaped_apart(s: Seq<char>, t: Seq<char>)
    requires
        xml::escaped(s) == xml::escaped(t),
    ensures
        s == t,
    decreases s.len(),
{
    lemma_references();
    if s.len() == 0 || t.len() == 0 {
        if s.len() > 0 {
            lemma_escaped_front(s);
        }
        if t.len() > 0 {
            lemma_escaped_front(t);
        }
        assert(s.len() == 0 && t.len() == 0);
        assert(s =~= t);
    } else {
        lemma_escaped_front(s);
        lemma_escaped_front(t);
        lemma_same_reference(s[0], t[0], xml::escaped(s.drop_first()), xml::escaped(t.drop_first()));
        lemma_escaped_apart(s.drop_first(), t.drop_first());
        assert(s =~= seq![s[0]] + s.drop_first());
        assert(t =~= seq![t[0]] + t.drop_first());
    }
}

/// An escaped text stands for what was escaped.
pub proof fn lemma_known_text(s: Seq<char>)
    ensures
        known_text(xml::escaped(s)) == Some(s),
{
    let t = choose|t: Seq<char>| xml::escaped(s) == #[trigger] xml::escaped(t);
    lemma_escaped_apart(s, t);
}

/// Whether a character is one of those that are written as references.
pub open spec fn is_special(c: char) -> bool {
    c == '<' || c == '>' || c == '&' || c == '\'' || c == '"'
}

/// An escaped text holds no quote and neither `<` nor `>`.
pub proof fn lemma_escaped_clean(s: Seq<char>)
    ensures
        forall|i: int|
            0 <= i < xml::escaped(s).len() ==> (#[trigger] xml::escaped(s)[i]) != '"' && xml::escaped(s)[i]
                != '\'' && xml::escaped(s)[i] != '<' && xml::escaped(s)[i] != '>',
    decreases s.len(),
{
    if s.len() > 0 {
        lemma_references();
        lemma_escaped_clean(s.drop_last());
        let (a, b) = (xml::escaped(s.drop_last()), xml::escaped_char(s.last()));
        assert forall|i: int| 0 <= i < (a + b).len() implies (#[trigger] (a + b)[i]) != '"' && (a + b)[i] != '\''
            && (a + b)[i] != '<' && (a + b)[i] != '>' by {
            if i >= a.len() {
                assert((a + b)[i] == b[i - a.len()]);
            }
        }
    }
}

/// A text without special characters is escaped to itself.
pub proof fn lemma_escaped_plain(s: Seq<char>)
    requires
        forall|i: int| 0 <= i < s.len() ==> !is_special(#[trigger] s[i]),
    ensures
        xml::escaped(s) == s,
    decreases s.len(),
{
    if s.len() > 0 {
        lemma_escaped_plain(s.drop_last());
        assert(s =~= s.drop_last() + seq![s.last()]);
    }
}

/// A byte order mark in front of a text stays in front of it when it is escaped.
pub proof fn lemma_escaped_mark(s: Seq<char>)
    ensures
        xml::without_mark(xml::escaped(s)) == xml::escaped(xml::without_mark(s)),
{
    if s.len() > 0 {
        lemma_references();
        lemma_escaped_front(s);
        if s[0] == '\u{feff}' {
            assert(xml::escaped(s).drop_first() =~= xml::escaped(s.drop_first()));
        }
    }
}

/// The attributes of a tag with this content: as they were written, if they were; otherwise as
/// they are read.
pub open spec fn known_attributes(content: Seq<char>) -> Seq<xml::AttrView> {
    let name = xml::name_in(content);
    if exists|list: Seq<(Seq<char>, Seq<char>)>|
        xml::attributes_ok(list) && content == #[trigger] xml::tag_content(name, list) {
        xml::as_attributes(
            choose|list: Seq<(Seq<char>, Seq<char>)>|
                xml::attributes_ok(list) && content == #[trigger] xml::tag_content(name, list),
        )
    } else {
        xml::attributes_of(name, content)
    }
}

proof fn lemma_last_attribute(
    x: Seq<char>,
    k: Seq<char>,
    e: Seq<char>,
    y: Seq<char>,
    l: Seq<char>,
    f: Seq<char>,
)
    requires
        x + " "@ + k + "=\""@ + e + "\""@ == y + " "@ + l + "=\""@ + f + "\""@,
        xml::key_ok(k),
        xml::key_ok(l),
        forall|i: int| 0 <= i < e.len() ==> (#[trigger] e[i]) != '"',
        forall|i: int| 0 <= i < f.len() ==> (#[trigger] f[i]) != '"',
    ensures
        x == y,
        k == l,
        e == f,
{
    reveal_strlit(" ");
    reveal_strlit("=\"");
    reveal_strlit("\"");
    let s = x + " "@ + k + "=\""@ + e + "\""@;
    let t = y + " "@ + l + "=\""@ + f + "\""@;
    let n = s.len() as int;
    assert(s == t);
    let p = n - 2 - e.len();
    let q = n - 2 - f.len();
    assert(s[p] == '"' && t[q] == '"');
    assert(forall|i: int| p < i < n - 1 ==> (#[trigger] s[i]) == e[i - p - 1]);
    assert(forall|i: int| q < i < n - 1 ==> (#[trigger] t[i]) == f[i - q - 1]);
    assert(p == q) by {
        if p < q {
            assert(s[q] == e[q - p - 1]);
        }
        if q < p {
            assert(t[p] == f[p - q - 1]);
        }
    }
    assert(e =~= s.subrange(p + 1, n - 1));
    assert(f =~= t.subrange(p + 1, n - 1));
    let a = p - 1 - k.len();
    let b = p - 1 - l.len();
    assert(s[a - 1] == ' ' && t[b - 1] == ' ');
    assert(forall|i: int| a <= i < p - 1 ==> (#[trigger] s[i]) == k[i - a]);
    assert(forall|i: int| b <= i < p - 1 ==> (#[trigger] t[i]) == l[i - b]);
    assert(a == b) by {
        if a < b {
            assert(s[b - 1] == k[b - 1 - a]);
        }
        if b < a {
            assert(t[a - 1] == l[a - 1 - b]);
        }
    }
    assert(k =~= s.subrange(a, p - 1));
    assert(l =~= t.subrange(a, p - 1));
    assert(x =~= s.take(a - 1));
    assert(y =~= t.take(a - 1));
}

/// No two lists of attributes are written the same.
pub proof fn lemma_attributes_apart(l: Seq<(Seq<char>, Seq<char>)>, m: Seq<(Seq<char>, Seq<char>)>)
    requires
        xml::attributes_ok(l),
        xml::attributes_ok(m),
        xml::attributes_text(l) == xml::attributes_text(m),
    ensures
        l == m,
    decreases l.len(),
{
    reveal_strlit(" ");
    if l.len() == 0 || m.len() == 0 {
        assert(l.len() > 0 ==> xml::attributes_text(l).len() > 0);
        assert(m.len() > 0 ==> xml::attributes_text(m).len() > 0);
        assert(l =~= m);
    } else {
        let (a, b) = (l.last(), m.last());
        lemma_escaped_clean(a.1);
        lemma_escaped_clean(b.1);
        assert(xml::key_ok(l[l.len() - 1].0) && xml::key_ok(m[m.len() - 1].0));
        lemma_last_attribute(
            xml::attributes_text(l.drop_last()),
            a.0,
            xml::escaped(a.1),
            xml::attributes_text(m.drop_last()),
            b.0,
            xml::escaped(b.1),
        );
        lemma_escaped_apart(a.1, b.1);
        lemma_front_ok(l);
        lemma_front_ok(m);
        lemma_attributes_apart(l.drop_last(), m.drop_last());
        assert(l =~= l.drop_last().push(a));
        assert(m =~= m.drop_last().push(b));
    }
}

proof fn lemma_front_ok(l: Seq<(Seq<char>, Seq<char>)>)
    requires
        xml::attributes_ok(l),
        l.len() > 0,
    ensures
        xml::attributes_ok(l.drop_last()),
{
    let f = l.drop_last();
    assert forall|i: int| 0 <= i < f.len() implies xml::key_ok((#[trigger] f[i]).0) by {
        assert(f[i] == l[i]);
    }
    assert forall|i: int, j: int| 0 <= i < j < f.len() implies (#[trigger] f[i]).0 != (#[trigger] f[j]).0 by {
        assert(f[i] == l[i] && f[j] == l[j]);
    }
}

/// Attributes that were written behind a name are those of the tag.
pub proof fn lemma_known_attributes(name: Seq<char>, list: Seq<(Seq<char>, Seq<char>)>)
    requires
        xml::attributes_ok(list),
        xml::name_in(xml::tag_content(name, list)) == name,
    ensures
        known_attributes(xml::tag_content(name, list)) == xml::as_attributes(list),
{
    let content = xml::tag_content(name, list);
    let other = choose|other: Seq<(Seq<char>, Seq<char>)>|
        xml::attributes_ok(other) && content == #[trigger] xml::tag_content(name, other);
    assert(xml::attributes_ok(other) && content == xml::tag_content(name, other));
    assert(xml::attributes_text(list) =~= content.skip(name.len() as int));
    assert(xml::attributes_text(other) =~= content.skip(name.len() as int));
    lemma_attributes_apart(list, other);
}

// ---- properties of pieces ---------------------------------------------------------------

/// The texts among pieces, resolved and trimmed, without empty ones.
pub open spec fn texts_in(v: Seq<PieceView>) -> Seq<Seq<char>>
    decreases v.len(),
{
    if v.len() == 0 {
        Seq::empty()
    } else {
        let head = texts_in(v.drop_last());
        match v.last() {
            PieceView::Chars(raw) => match known_text(raw) {
                Some(s) => if text::trimmed(s).len() > 0 {
                    head.push(text::trimmed(s))
                } else {
                    head
                },
                None => head,
            },
            _ => head,
        }
    }
}

/// The text that pieces show: several joined by `; `, without a byte order mark in front.
pub open spec fn shown_in(v: Seq<PieceView>) -> Seq<char> {
    text::joined(texts_in(unmarked(v)), "; "@)
}

proof fn lemma_texts(v: Seq<PieceView>, n: int)
    requires
        0 <= n <= v.len(),
        texts_resolve(plain_events(v)),
    ensures
        xmp::text_parts(plain_events(v).take(n)) == texts_in(v.take(n)),
    decreases n,
{
    let ev = plain_events(v);
    if n == 0 {
        assert(ev.take(0) =~= Seq::empty());
        assert(v.take(0) =~= Seq::empty());
    } else {
        lemma_texts(v, n - 1);
        lemma_event(v, n - 1);
        assert(ev.take(n).drop_last() =~= ev.take(n - 1));
        assert(v.take(n).drop_last() =~= v.take(n - 1));
        assert(ev.take(n).last() == ev[n - 1]);
        assert(v.take(n).last() == v[n - 1]);
        if let PieceView::Chars(raw) = v[n - 1] {
            assert(ev[n - 1] == EventView::Text(raw, bytes_len(v.take(n))));
            assert(xml::resolves(raw));
            if exists|s: Seq<char>| raw == #[trigger] xml::escaped(s) {
                let t = choose|s: Seq<char>| raw == #[trigger] xml::escaped(s);
                assert(raw == xml::escaped(t));
            }
            assert(known_text(raw) == xml::resolved_text(raw));
        }
    }
}

/// The text inside an element that was written from well-formed pieces is what they show.
pub proof fn lemma_inner_text(v: Seq<PieceView>)
    requires
        xml::well_formed(v),
        xml::reads_plainly(xml::pieces_text(v)),
        texts_resolve(xml::document_events(xml::pieces_text(v))),
    ensures
        xmp::inner_text(xml::pieces_text(v)) == shown_in(v),
{
    let w = unmarked(v);
    let ev = plain_events(w);
    lemma_unmarked(v);
    assert(xml::document_pieces(xml::pieces_text(v)) == xml::placed(w));
    assert(xml::document_events(xml::pieces_text(v)) == ev);
    lemma_texts(w, w.len() as int);
    assert(ev.len() == w.len() + 1);
    assert(ev.drop_last() =~= ev.take(w.len() as int));
    assert(w.take(w.len() as int) =~= w);
    assert(ev.last() is Eof);
}

/// The properties of a packet that is written from these pieces, from the `i`th on.
#[verifier::opaque]
pub open spec fn properties_in(v: Seq<PieceView>, i: int, inside: bool, depth: int) -> iptc::Properties
    decreases v.len() + 1 - i,
{
    if i < 0 || i >= v.len() {
        Seq::empty()
    } else {
        match v[i] {
            PieceView::Open(c) => if xml::name_in(c) == "rdf:Description"@ {
                xmp::attribute_properties(known_attributes(c)) + properties_in(
                    v,
                    i + 1,
                    true,
                    0,
                )
            } else if inside && depth == 0 {
                proof {
                    xmp::lemma_end_of_element(plain_events(v), i + 1, xml::name_in(c), 0);
                }
                match xmp::end_of_element(plain_events(v), i + 1, xml::name_in(c), 0) {
                    Ok(next) => seq![(xml::name_in(c), shown_in(v.subrange(i + 1, next - 1)))] + properties_in(
                        v,
                        next,
                        inside,
                        depth,
                    ),
                    Err(_) => Seq::empty(),
                }
            } else {
                properties_in(
                    v,
                    i + 1,
                    inside,
                    if inside {
                        depth + 1
                    } else {
                        depth
                    },
                )
            },
            PieceView::SelfClosed(c) => if xml::name_in(c) == "rdf:Description"@ {
                xmp::attribute_properties(known_attributes(c)) + properties_in(
                    v,
                    i + 1,
                    inside,
                    depth,
                )
            } else if inside && depth == 0 {
                seq![(xml::name_in(c), Seq::<char>::empty())] + properties_in(v, i + 1, inside, depth)
            } else {
                properties_in(v, i + 1, inside, depth)
            },
            PieceView::Close(name) => if inside && depth == 0 && name == "rdf:Description"@ {
                properties_in(v, i + 1, false, depth)
            } else {
                properties_in(
                    v,
                    i + 1,
                    inside,
                    if inside {
                        depth - 1
                    } else {
                        depth
                    },
                )
            },
            _ => properties_in(v, i + 1, inside, depth),
        }
    }
}

/// The properties of a packet that is written from these pieces.
pub open spec fn plain_properties(v: Seq<PieceView>) -> iptc::Properties {
    properties_in(v, 0, false, 0)
}

/// Whether what was written inside the properties from `i` on is read as it was, and so are the
/// attributes of descriptions.
pub open spec fn read_as_written(
    events: Seq<EventView>,
    document: Seq<char>,
    i: int,
    inside: bool,
    depth: int,
) -> bool
    decreases events.len() - i,
{
    if i < 0 || i >= events.len() {
        true
    } else {
        match events[i] {
            EventView::Start(name, content, _, end) => if name == "rdf:Description"@ {
                xml::attributes_known(name, content) && read_as_written(events, document, i + 1, true, 0)
            } else if inside && depth == 0 {
                proof {
                    xmp::lemma_end_of_element(events, i + 1, name, 0);
                }
                match xmp::end_of_element(events, i + 1, name, 0) {
                    Ok(next) => {
                        let inner = text::byte_slice(document, end, xml::position(events[next - 2]));
                        &&& xml::reads_plainly(inner)
                        &&& texts_resolve(xml::document_events(inner))
                        &&& read_as_written(events, document, next, inside, depth)
                    },
                    Err(_) => true,
                }
            } else {
                read_as_written(
                    events,
                    document,
                    i + 1,
                    inside,
                    if inside {
                        depth + 1
                    } else {
                        depth
                    },
                )
            },
            EventView::Empty(name, content, _, _) => if name == "rdf:Description"@ {
                xml::attributes_known(name, content) && read_as_written(events, document, i + 1, inside, depth)
            } else {
                read_as_written(events, document, i + 1, inside, depth)
            },
            EventView::End(name, _, _) => if inside && depth == 0 && name == "rdf:Description"@ {
                read_as_written(events, document, i + 1, false, depth)
            } else {
                read_as_written(
                    events,
                    document,
                    i + 1,
                    inside,
                    if inside {
                        depth - 1
                    } else {
                        depth
                    },
                )
            },
            EventView::Text(_, _) => read_as_written(events, document, i + 1, inside, depth),
            EventView::Other(_, _) => read_as_written(events, document, i + 1, inside, depth),
            EventView::Eof => true,
            EventView::Failed(_) => true,
        }
    }
}

/// Whether escaped texts among events are resolved to what was escaped.
pub open spec fn texts_resolve(events: Seq<EventView>) -> bool {
    forall|i: int| 0 <= i < events.len() ==> match #[trigger] events[i] {
        EventView::Text(raw, _) => xml::resolves(raw),
        _ => true,
    }
}

/// An element of a well-formed text: where it ends, and what stands inside.
pub proof fn lemma_element(v: Seq<PieceView>, i: int)
    requires
        xml::well_formed(v),
        0 <= i < v.len(),
        v[i] is Open,
    ensures
        ({
            let name = xml::name_in(v[i]->Open_0);
            match xmp::end_of_element(plain_events(v), i + 1, name, 0) {
                Ok(next) => {
                    &&& i + 1 < next <= v.len()
                    &&& v[next - 1] == PieceView::Close(name)
                    &&& xml::open_names(v, next) == xml::open_names(v, i)
                    &&& forall|k: int|
                        i < k < next ==> (#[trigger] xml::open_names(v, k)) is Some && xml::open_names(v, k)->0.len()
                            > xml::open_names(v, i)->0.len()
                    &&& xml::well_formed(v.subrange(i + 1, next - 1))
                    &&& text::byte_slice(
                        xml::pieces_text(v),
                        xml::position(plain_events(v)[i]),
                        xml::position(plain_events(v)[next - 2]),
                    ) == xml::pieces_text(v.subrange(i + 1, next - 1))
                },
                Err(_) => false,
            }
        }),
{
    let name = xml::name_in(v[i]->Open_0);
    lemma_names_before(v, i, v.len() as int);
    lemma_names_before(v, i + 1, v.len() as int);
    let st = xml::open_names(v, i)->0;
    let b = st.len() as int;
    let opened = xml::open_names(v, i + 1)->0;
    assert(opened == st.push(name));
    assert(times(opened, b + 1, name) == 0);
    lemma_end_found(v, i + 1, name, b);
    assert(opened.take(b) =~= st);
    match xmp::end_of_element(plain_events(v), i + 1, name, 0) {
        Ok(next) => {
            lemma_event(v, i);
            lemma_event(v, next - 2);
            let last = xml::open_names(v, next - 1)->0;
            assert(last.drop_last() == st);
            assert(last =~= opened) by {
                assert(last.take(b + 1) == opened.take(b + 1));
                assert(last.take(b + 1) =~= last);
                assert(opened.take(b + 1) =~= opened);
            }
            lemma_inside(v, i + 1, next - 1);
            lemma_slice(v, i + 1, next - 1);
        },
        Err(_) => {},
    }
}

/// Attributes that are read as they were written are the known ones.
pub proof fn lemma_attributes_read(content: Seq<char>)
    requires
        xml::attributes_known(xml::name_in(content), content),
    ensures
        known_attributes(content) == xml::attributes_of(xml::name_in(content), content),
{
    let name = xml::name_in(content);
    if exists|list: Seq<(Seq<char>, Seq<char>)>|
        xml::attributes_ok(list) && content == #[trigger] xml::tag_content(name, list) {
        let list = choose|list: Seq<(Seq<char>, Seq<char>)>|
            xml::attributes_ok(list) && content == #[trigger] xml::tag_content(name, list);
        assert(xml::attributes_ok(list) && content == xml::tag_content(name, list));
    }
}

/// The properties that are read of what was written from well-formed pieces.
pub proof fn lemma_properties(v: Seq<PieceView>, i: int, inside: bool, depth: int)
    requires
        xml::well_formed(v),
        0 <= i <= v.len(),
        read_as_written(plain_events(v), xml::pieces_text(v), i, inside, depth),
    ensures
        xmp::properties_from(plain_events(v), xml::pieces_text(v), i, inside, depth) == properties_in(
            v,
            i,
            inside,
            depth,
        ),
    decreases v.len() - i,
{
    reveal(properties_in);
    let ev = plain_events(v);
    assert(ev.len() == v.len() + 1);
    if i == v.len() {
        assert(ev[i] is Eof);
    } else {
        lemma_event(v, i);
        assert(xml::piece_ok(v[i]));
        match v[i] {
            PieceView::Open(c) => {
                let name = xml::name_in(c);
                if name == "rdf:Description"@ {
                    lemma_attributes_read(c);
                    lemma_properties(v, i + 1, true, 0);
                } else if inside && depth == 0 {
                    lemma_element(v, i);
                    match xmp::end_of_element(ev, i + 1, name, 0) {
                        Ok(next) => {
                            lemma_inner_text(v.subrange(i + 1, next - 1));
                            lemma_properties(v, next, inside, depth);
                        },
                        Err(_) => {},
                    }
                } else {
                    lemma_properties(
                        v,
                        i + 1,
                        inside,
                        if inside {
                            depth + 1
                        } else {
                            depth
                        },
                    );
                }
            },
            PieceView::SelfClosed(c) => {
                if xml::name_in(c) == "rdf:Description"@ {
                    lemma_attributes_read(c);
                }
                lemma_properties(v, i + 1, inside, depth);
            },
            PieceView::Close(name) => {
                if inside && depth == 0 && name == "rdf:Description"@ {
                    lemma_properties(v, i + 1, false, depth);
                } else {
                    lemma_properties(
                        v,
                        i + 1,
                        inside,
                        if inside {
                            depth - 1
                        } else {
                            depth
                        },
                    );
                }
            },
            _ => {
                lemma_properties(v, i + 1, inside, depth);
            },
        }
    }
}

// ---- putting pieces together ------------------------------------------------------------

proof fn lemma_names_front(a: Seq<PieceView>, b: Seq<PieceView>, k: int)
    requires
        0 <= k <= a.len(),
    ensures
        xml::open_names(a + b, k) == xml::open_names(a, k),
    decreases k,
{
    if k > 0 {
        lemma_names_front(a, b, k - 1);
        assert((a + b)[k - 1] == a[k - 1]);
    }
}

proof fn lemma_names_back(a: Seq<PieceView>, b: Seq<PieceView>, k: int)
    requires
        0 <= k <= b.len(),
        xml::open_names(a, a.len() as int) is Some,
        xml::open_names(b, k) is Some,
    ensures
        xml::open_names(a + b, a.len() + k) == Some(
            (xml::open_names(a, a.len() as int)->0) + (xml::open_names(b, k)->0),
        ),
    decreases k,
{
    let st = xml::open_names(a, a.len() as int)->0;
    if k == 0 {
        lemma_names_front(a, b, a.len() as int);
        assert(st + Seq::<Seq<char>>::empty() =~= st);
    } else {
        lemma_names_before(b, k - 1, k);
        lemma_names_back(a, b, k - 1);
        assert((a + b)[a.len() + k - 1] == b[k - 1]);
        let before = xml::open_names(b, k - 1)->0;
        let after = xml::open_names(b, k)->0;
        match b[k - 1] {
            PieceView::Open(c) => {
                assert((st + before).push(xml::name_in(c)) =~= st + after);
            },
            PieceView::Close(m) => {
                assert((st + before).last() == before.last());
                assert((st + before).drop_last() =~= st + after);
            },
            _ => {},
        }
    }
}

/// Well-formed texts one behind the other make a well-formed text, where no text meets a text.
pub proof fn lemma_parts_formed(a: Seq<PieceView>, b: Seq<PieceView>)
    requires
        xml::well_formed(a),
        xml::well_formed(b),
        a.len() == 0 || b.len() == 0 || !(a.last() is Chars) || !(b[0] is Chars),
    ensures
        xml::well_formed(a + b),
{
    let v = a + b;
    lemma_names_back(a, b, b.len() as int);
    assert(Seq::<Seq<char>>::empty() + Seq::<Seq<char>>::empty() =~= Seq::<Seq<char>>::empty());
    assert forall|i: int| 0 <= i < v.len() implies xml::piece_ok(#[trigger] v[i]) by {
        if i < a.len() {
            assert(v[i] == a[i]);
        } else {
            assert(v[i] == b[i - a.len()]);
        }
    }
    assert forall|h: int, i: int|
        0 <= h < v.len() && i == h + 1 && i < v.len() && (#[trigger] v[h]) is Chars implies !((
    #[trigger] v[i]) is Chars) by {
        if i < a.len() {
            assert(v[i] == a[i] && v[i - 1] == a[i - 1]);
        } else if i > a.len() {
            assert(v[i] == b[i - a.len()] && v[i - 1] == b[i - a.len() - 1]);
        } else {
            assert(v[i] == b[0] && v[i - 1] == a.last());
        }
    }
}

/// A piece that is no start or end tag is a well-formed text.
pub proof fn lemma_one_formed(p: PieceView)
    requires
        xml::piece_ok(p),
        !(p is Open),
        !(p is Close),
    ensures
        xml::well_formed(seq![p]),
{
    let v = seq![p];
    assert(xml::open_names(v, 0) == Some(Seq::<Seq<char>>::empty()));
    assert(xml::open_names(v, 1) == xml::open_names(v, 0));
}

/// Nothing is a well-formed text.
pub proof fn lemma_nothing_formed()
    ensures
        xml::well_formed(Seq::empty()),
{
    assert(xml::open_names(Seq::empty(), 0) == Some(Seq::<Seq<char>>::empty()));
}

/// An element: its start tag, what stands inside, and its end tag.
pub open spec fn element_of(content: Seq<char>, inner: Seq<PieceView>) -> Seq<PieceView> {
    seq![PieceView::Open(content)] + inner + seq![PieceView::Close(xml::name_in(content))]
}

proof fn lemma_element_names(content: Seq<char>, inner: Seq<PieceView>, k: int)
    requires
        xml::well_formed(inner),
        0 <= k <= inner.len(),
    ensures
        xml::open_names(element_of(content, inner), k + 1) == Some(
            seq![xml::name_in(content)] + (xml::open_names(inner, k)->0),
        ),
{
    let name = xml::name_in(content);
    let head = seq![PieceView::Open(content)];
    let tail = seq![PieceView::Close(name)];
    assert(xml::open_names(head, 0) == Some(Seq::<Seq<char>>::empty()));
    assert(xml::open_names(head, 1) == Some(Seq::<Seq<char>>::empty().push(name)));
    assert(Seq::<Seq<char>>::empty().push(name) =~= seq![name]);
    lemma_names_before(inner, k, inner.len() as int);
    lemma_names_back(head, inner, k);
    lemma_names_front(head + inner, tail, k + 1);
}

/// An element around a well-formed text is a well-formed text.
pub proof fn lemma_element_formed(content: Seq<char>, inner: Seq<PieceView>)
    requires
        xml::piece_ok(PieceView::Open(content)),
        xml::piece_ok(PieceView::Close(xml::name_in(content))),
        xml::well_formed(inner),
    ensures
        xml::well_formed(element_of(content, inner)),
{
    let name = xml::name_in(content);
    let v = element_of(content, inner);
    let n = inner.len() as int;
    lemma_element_names(content, inner, n);
    assert(seq![name] + Seq::<Seq<char>>::empty() =~= seq![name]);
    assert(v[n + 1] == PieceView::Close(name));
    assert(seq![name].drop_last() =~= Seq::empty());
    assert(xml::open_names(v, n + 2) == Some(Seq::<Seq<char>>::empty()));
    assert forall|i: int| 0 <= i < v.len() implies xml::piece_ok(#[trigger] v[i]) by {
        if 0 < i <= n {
            assert(v[i] == inner[i - 1]);
        }
    }
    assert forall|h: int, i: int|
        0 <= h < v.len() && i == h + 1 && i < v.len() && (#[trigger] v[h]) is Chars implies !((
    #[trigger] v[i]) is Chars) by {
        if 1 < i <= n {
            assert(v[i] == inner[i - 1] && v[i - 1] == inner[i - 2]);
        }
    }
}

/// An element as it is written.
pub proof fn lemma_element_text(content: Seq<char>, inner: Seq<PieceView>)
    ensures
        xml::pieces_text(element_of(content, inner)) == "<"@ + content + ">"@ + xml::pieces_text(inner) + "</"@
            + xml::name_in(content) + ">"@,
{
    let (head, tail) = (seq![PieceView::Open(content)], seq![PieceView::Close(xml::name_in(content))]);
    lemma_text_parts(head, inner);
    lemma_text_parts(head + inner, tail);
    lemma_one_text(head[0]);
    lemma_one_text(tail[0]);
    assert(xml::pieces_text(element_of(content, inner)) =~= "<"@ + content + ">"@ + xml::pieces_text(inner)
        + "</"@ + xml::name_in(content) + ">"@);
}

/// One piece as it is written.
pub proof fn lemma_one_text(p: PieceView)
    ensures
        xml::pieces_text(seq![p]) == xml::piece_text(p),
{
    let v = seq![p];
    assert(v.drop_last() =~= Seq::empty());
    assert(xml::pieces_text(v.drop_last()) =~= Seq::empty());
    assert(xml::pieces_text(v) =~= xml::piece_text(p));
}

// ---- properties of what is put together -------------------------------------------------

/// Whether a piece begins a description.
pub open spec fn begins_description(p: PieceView) -> bool {
    match p {
        PieceView::Open(c) => xml::name_in(c) == "rdf:Description"@,
        PieceView::SelfClosed(c) => xml::name_in(c) == "rdf:Description"@,
        _ => false,
    }
}

/// Whether no description stands among pieces but inside elements.
#[verifier::opaque]
pub open spec fn without_descriptions(v: Seq<PieceView>) -> bool {
    forall|i: int|
        0 <= i < v.len() && xml::open_names(v, i) == Some(Seq::<Seq<char>>::empty()) ==> !begins_description(
            #[trigger] v[i],
        )
}

/// Where an element ends does not depend on what stands around it.
pub proof fn lemma_end_same(v: Seq<PieceView>, p: int, w: Seq<PieceView>, k: int, name: Seq<char>, depth: int)
    requires
        0 <= p,
        p + w.len() <= v.len(),
        v.subrange(p, p + w.len()) == w,
        0 <= k,
        xmp::end_of_element(plain_events(w), k, name, depth) is Ok,
    ensures
        ({
            let n = xmp::end_of_element(plain_events(w), k, name, depth)->Ok_0;
            n <= w.len() && xmp::end_of_element(plain_events(v), p + k, name, depth) == Ok::<int, xmp::ErrorView>(
                p + n,
            )
        }),
    decreases w.len() + 1 - k,
{
    assert(plain_events(w).len() == w.len() + 1);
    if k < w.len() {
        lemma_event(w, k);
        lemma_event(v, p + k);
        assert(v.subrange(p, p + w.len())[k] == v[p + k]);
        match w[k] {
            PieceView::Open(c) => {
                lemma_end_same(
                    v,
                    p,
                    w,
                    k + 1,
                    name,
                    if xml::name_in(c) == name {
                        depth + 1
                    } else {
                        depth
                    },
                );
            },
            PieceView::Close(m) => {
                if !(m == name && depth == 0) {
                    lemma_end_same(
                        v,
                        p,
                        w,
                        k + 1,
                        name,
                        if m == name {
                            depth - 1
                        } else {
                            depth
                        },
                    );
                }
            },
            PieceView::Done => {},
            PieceView::Broken(_) => {},
            _ => {
                lemma_end_same(v, p, w, k + 1, name, depth);
            },
        }
    } else if k == w.len() {
        assert(plain_events(w)[k] is Eof);
    }
}

/// Behind all pieces there are no properties.
pub proof fn lemma_in_end(v: Seq<PieceView>, i: int, inside: bool, depth: int)
    requires
        i >= v.len(),
    ensures
        properties_in(v, i, inside, depth) == Seq::<(Seq<char>, Seq<char>)>::empty(),
{
    reveal(properties_in);
}

/// An element inside a description is a property.
pub proof fn lemma_in_element(v: Seq<PieceView>, i: int)
    requires
        0 <= i < v.len(),
        v[i] is Open,
        !begins_description(v[i]),
    ensures
        match xmp::end_of_element(plain_events(v), i + 1, xml::name_in(v[i]->Open_0), 0) {
            Ok(n) => properties_in(v, i, true, 0) == seq![
                (xml::name_in(v[i]->Open_0), shown_in(v.subrange(i + 1, n - 1))),
            ] + properties_in(v, n, true, 0),
            Err(_) => true,
        },
{
    reveal(properties_in);
}

/// The attributes of a description, and what stands inside it.
pub proof fn lemma_in_description(v: Seq<PieceView>, i: int)
    requires
        0 <= i < v.len(),
        v[i] is Open,
        begins_description(v[i]),
    ensures
        properties_in(v, i, false, 0) == xmp::attribute_properties(known_attributes(v[i]->Open_0)) + properties_in(
            v,
            i + 1,
            true,
            0,
        ),
{
    reveal(properties_in);
}

/// The attributes of a description that closes itself.
pub proof fn lemma_in_attributes(v: Seq<PieceView>, i: int)
    requires
        0 <= i < v.len(),
        v[i] is SelfClosed,
        begins_description(v[i]),
    ensures
        properties_in(v, i, false, 0) == xmp::attribute_properties(known_attributes(v[i]->SelfClosed_0))
            + properties_in(v, i + 1, false, 0),
{
    reveal(properties_in);
}

/// Behind the end of a description.
pub proof fn lemma_in_closing(v: Seq<PieceView>, i: int)
    requires
        0 <= i < v.len(),
        v[i] == PieceView::Close("rdf:Description"@),
    ensures
        properties_in(v, i, true, 0) == properties_in(v, i + 1, false, 0),
{
    reveal(properties_in);
}

/// An element without content inside a description is a property.
pub proof fn lemma_in_single(v: Seq<PieceView>, i: int)
    requires
        0 <= i < v.len(),
        v[i] is SelfClosed,
        !begins_description(v[i]),
    ensures
        properties_in(v, i, true, 0) == seq![(xml::name_in(v[i]->SelfClosed_0), Seq::<char>::empty())]
            + properties_in(v, i + 1, true, 0),
{
    reveal(properties_in);
}

/// What is no tag is passed over.
pub proof fn lemma_in_text(v: Seq<PieceView>, i: int, inside: bool, depth: int)
    requires
        0 <= i < v.len(),
        v[i] is Chars || v[i] is Misc,
    ensures
        properties_in(v, i, inside, depth) == properties_in(v, i + 1, inside, depth),
{
    reveal(properties_in);
}

/// An element inside a description is the same property whatever stands around it.
pub proof fn lemma_frame_element(v: Seq<PieceView>, p: int, w: Seq<PieceView>, j: int)
    requires
        xml::well_formed(w),
        0 <= p,
        p + w.len() <= v.len(),
        v.subrange(p, p + w.len()) == w,
        0 <= j < w.len(),
        w[j] is Open,
        !begins_description(w[j]),
    ensures
        ({
            let name = xml::name_in(w[j]->Open_0);
            match xmp::end_of_element(plain_events(w), j + 1, name, 0) {
                Ok(n) => {
                    let one = seq![(name, shown_in(w.subrange(j + 1, n - 1)))];
                    &&& j < n <= w.len()
                    &&& xml::open_names(w, n) == xml::open_names(w, j)
                    &&& properties_in(w, j, true, 0) == one + properties_in(w, n, true, 0)
                    &&& properties_in(v, p + j, true, 0) == one + properties_in(v, p + n, true, 0)
                },
                Err(_) => false,
            }
        }),
{
    let name = xml::name_in(w[j]->Open_0);
    assert(v.subrange(p, p + w.len())[j] == v[p + j]);
    lemma_element(w, j);
    lemma_end_same(v, p, w, j + 1, name, 0);
    match xmp::end_of_element(plain_events(w), j + 1, name, 0) {
        Ok(n) => {
            lemma_in_element(w, j);
            lemma_in_element(v, p + j);
            assert(v.subrange(p + j + 1, p + n - 1) =~= w.subrange(j + 1, n - 1));
        },
        Err(_) => {},
    }
}

/// The properties of a well-formed text inside a description do not depend on what stands around
/// it.
pub proof fn lemma_frame(v: Seq<PieceView>, p: int, w: Seq<PieceView>, j: int)
    requires
        xml::well_formed(w),
        without_descriptions(w),
        0 <= p,
        p + w.len() <= v.len(),
        v.subrange(p, p + w.len()) == w,
        0 <= j <= w.len(),
        xml::open_names(w, j) == Some(Seq::<Seq<char>>::empty()),
    ensures
        properties_in(v, p + j, true, 0) == properties_in(w, j, true, 0) + properties_in(
            v,
            p + w.len(),
            true,
            0,
        ),
    decreases w.len() - j,
{
    let rest = properties_in(v, p + w.len(), true, 0);
    if j == w.len() {
        lemma_in_end(w, j, true, 0);
        assert(properties_in(w, j, true, 0) + rest =~= rest);
    } else {
        assert(v.subrange(p, p + w.len())[j] == v[p + j]);
        assert(!begins_description(w[j])) by {
            reveal(without_descriptions);
        }
        lemma_names_before(w, j + 1, w.len() as int);
        match w[j] {
            PieceView::Open(c) => {
                lemma_frame_element(v, p, w, j);
                match xmp::end_of_element(plain_events(w), j + 1, xml::name_in(c), 0) {
                    Ok(n) => {
                        lemma_frame(v, p, w, n);
                        let one = seq![(xml::name_in(c), shown_in(w.subrange(j + 1, n - 1)))];
                        let more = properties_in(w, n, true, 0);
                        assert(one + (more + rest) =~= one + more + rest);
                    },
                    Err(_) => {},
                }
            },
            PieceView::SelfClosed(c) => {
                lemma_in_single(w, j);
                lemma_in_single(v, p + j);
                lemma_frame(v, p, w, j + 1);
                let one = seq![(xml::name_in(c), Seq::<char>::empty())];
                let more = properties_in(w, j + 1, true, 0);
                assert(one + (more + rest) =~= one + more + rest);
            },
            _ => {
                assert(xml::piece_ok(w[j]));
                lemma_in_text(w, j, true, 0);
                lemma_in_text(v, p + j, true, 0);
                lemma_frame(v, p, w, j + 1);
            },
        }
    }
}

/// The properties of well-formed texts one behind the other inside a description.
pub proof fn lemma_children_parts(a: Seq<PieceView>, b: Seq<PieceView>)
    requires
        xml::well_formed(a),
        xml::well_formed(b),
        without_descriptions(a),
        without_descriptions(b),
    ensures
        properties_in(a + b, 0, true, 0) == properties_in(a, 0, true, 0) + properties_in(b, 0, true, 0),
        without_descriptions(a + b),
{
    reveal(without_descriptions);
    let v = a + b;
    assert(v.subrange(0, a.len() as int) =~= a);
    assert(v.subrange(a.len() as int, (a.len() + b.len()) as int) =~= b);
    lemma_frame(v, 0, a, 0);
    lemma_frame(v, a.len() as int, b, 0);
    lemma_in_end(v, (a.len() + b.len()) as int, true, 0);
    assert(properties_in(b, 0, true, 0) + Seq::<(Seq<char>, Seq<char>)>::empty() =~= properties_in(b, 0, true, 0));
    assert forall|i: int|
        0 <= i < v.len() && xml::open_names(v, i) == Some(Seq::<Seq<char>>::empty()) implies !begins_description(
        #[trigger] v[i],
    ) by {
        if i < a.len() {
            lemma_names_front(a, b, i);
            assert(v[i] == a[i]);
        } else {
            let k = i - a.len();
            lemma_names_before(b, k, b.len() as int);
            lemma_names_back(a, b, k);
            assert(Seq::<Seq<char>>::empty() + (xml::open_names(b, k)->0) =~= xml::open_names(b, k)->0);
            assert(v[i] == b[k]);
        }
    }
}

/// The property that an element inside a description is.
pub proof fn lemma_child_element(content: Seq<char>, inner: Seq<PieceView>)
    requires
        xml::piece_ok(PieceView::Open(content)),
        xml::piece_ok(PieceView::Close(xml::name_in(content))),
        xml::well_formed(inner),
        xml::name_in(content) != "rdf:Description"@,
    ensures
        properties_in(element_of(content, inner), 0, true, 0) == seq![(xml::name_in(content), shown_in(inner))],
        without_descriptions(element_of(content, inner)),
{
    reveal(without_descriptions);
    let name = xml::name_in(content);
    let v = element_of(content, inner);
    lemma_element_formed(content, inner);
    lemma_element(v, 0);
    assert(xml::open_names(v, 0) == Some(Seq::<Seq<char>>::empty()));
    assert forall|k: int| 0 < k < v.len() implies #[trigger] xml::open_names(v, k) != Some(
        Seq::<Seq<char>>::empty(),
    ) by {
        lemma_element_names(content, inner, k - 1);
        assert((seq![name] + (xml::open_names(inner, k - 1)->0)).len() > 0);
    }
    match xmp::end_of_element(plain_events(v), 1, name, 0) {
        Ok(next) => {
            assert(next == v.len());
            assert(v.subrange(1, next - 1) =~= inner);
            let one = seq![(name, shown_in(inner))];
            lemma_in_element(v, 0);
            lemma_in_end(v, next, true, 0);
            assert(one + Seq::<(Seq<char>, Seq<char>)>::empty() =~= one);
        },
        Err(_) => {},
    }
    assert forall|i: int|
        0 <= i < v.len() && xml::open_names(v, i) == Some(Seq::<Seq<char>>::empty()) implies !begins_description(
        #[trigger] v[i],
    ) by {
        assert(i == 0);
    }
}

/// A piece inside a description that is no tag is no property.
pub proof fn lemma_child_text(p: PieceView)
    requires
        xml::piece_ok(p),
        p is Chars || p is Misc,
    ensures
        properties_in(seq![p], 0, true, 0) == Seq::<(Seq<char>, Seq<char>)>::empty(),
        without_descriptions(seq![p]),
{
    reveal(without_descriptions);
    let v = seq![p];
    lemma_in_text(v, 0, true, 0);
    lemma_in_end(v, 1, true, 0);
}

/// Where nothing stands inside a description there is no property.
pub proof fn lemma_no_children()
    ensures
        properties_in(Seq::empty(), 0, true, 0) == Seq::<(Seq<char>, Seq<char>)>::empty(),
        without_descriptions(Seq::empty()),
{
    reveal(without_descriptions);
    lemma_in_end(Seq::empty(), 0, true, 0);
}

/// Outside descriptions there are no properties.
pub proof fn lemma_outside(v: Seq<PieceView>, i: int, j: int, depth: int)
    requires
        0 <= i <= j <= v.len(),
        forall|k: int| i <= k < j ==> !begins_description(#[trigger] v[k]),
    ensures
        properties_in(v, i, false, depth) == properties_in(v, j, false, depth),
    decreases j - i,
{
    if i < j {
        reveal(properties_in);
        assert(!begins_description(v[i]));
        lemma_outside(v, i + 1, j, depth);
    }
}

/// A tag that closes itself inside a description is a property.
pub proof fn lemma_child_single(content: Seq<char>)
    requires
        xml::name_in(content) != "rdf:Description"@,
    ensures
        properties_in(seq![PieceView::SelfClosed(content)], 0, true, 0) == seq![
            (xml::name_in(content), Seq::<char>::empty()),
        ],
        without_descriptions(seq![PieceView::SelfClosed(content)]),
{
    reveal(without_descriptions);
    let v = seq![PieceView::SelfClosed(content)];
    lemma_in_single(v, 0);
    lemma_in_end(v, 1, true, 0);
    let one = seq![(xml::name_in(content), Seq::<char>::empty())];
    assert(one + Seq::<(Seq<char>, Seq<char>)>::empty() =~= one);
}

// ---- joining texts ----------------------------------------------------------------------

/// Pieces one behind the other, where a text that meets a text is one with it.
pub open spec fn joined_pieces(a: Seq<PieceView>, b: Seq<PieceView>) -> Seq<PieceView> {
    if a.len() > 0 && b.len() > 0 && a.last() is Chars && b[0] is Chars {
        a.drop_last() + seq![PieceView::Chars(a.last()->Chars_0 + b[0]->Chars_0)] + b.skip(1)
    } else {
        a + b
    }
}

proof fn lemma_descriptions_apart(a: Seq<PieceView>, b: Seq<PieceView>)
    requires
        xml::well_formed(a),
        xml::well_formed(b),
        without_descriptions(a + b),
    ensures
        without_descriptions(a),
        without_descriptions(b),
{
    reveal(without_descriptions);
    let v = a + b;
    assert forall|i: int|
        0 <= i < a.len() && xml::open_names(a, i) == Some(Seq::<Seq<char>>::empty()) implies !begins_description(
        #[trigger] a[i],
    ) by {
        lemma_names_front(a, b, i);
        assert(v[i] == a[i]);
    }
    assert forall|i: int|
        0 <= i < b.len() && xml::open_names(b, i) == Some(Seq::<Seq<char>>::empty()) implies !begins_description(
        #[trigger] b[i],
    ) by {
        lemma_names_back(a, b, i);
        assert(Seq::<Seq<char>>::empty() + Seq::<Seq<char>>::empty() =~= Seq::<Seq<char>>::empty());
        assert(v[a.len() + i] == b[i]);
    }
}

/// A well-formed text without a text at its end.
proof fn lemma_without_last(a: Seq<PieceView>)
    requires
        xml::well_formed(a),
        without_descriptions(a),
        a.len() > 0,
        a.last() is Chars,
    ensures
        xml::well_formed(a.drop_last()),
        without_descriptions(a.drop_last()),
        xml::pieces_text(a) == xml::pieces_text(a.drop_last()) + a.last()->Chars_0,
        properties_in(a, 0, true, 0) == properties_in(a.drop_last(), 0, true, 0),
        a.len() > 1 ==> !(a.drop_last().last() is Chars),
{
    let n = a.len() - 1;
    let (front, last) = (a.drop_last(), seq![a.last()]);
    assert(a =~= front + last);
    assert forall|k: int| 0 <= k <= n implies (#[trigger] xml::open_names(a, k)) is Some by {
        lemma_names_before(a, k, a.len() as int);
    }
    assert(xml::open_names(a, n + 1) == xml::open_names(a, n));
    lemma_inside(a, 0, n);
    assert(a.subrange(0, n) =~= front);
    assert(xml::piece_ok(a[n]));
    assert(n > 0 ==> !(a[n - 1] is Chars));
    lemma_one_formed(a.last());
    lemma_descriptions_apart(front, last);
    lemma_children_parts(front, last);
    lemma_child_text(a.last());
    lemma_one_text(a.last());
    lemma_text_parts(front, last);
    let p = properties_in(front, 0, true, 0);
    assert(p + Seq::<(Seq<char>, Seq<char>)>::empty() =~= p);
}

/// A well-formed text without a text at its start.
proof fn lemma_without_first(b: Seq<PieceView>)
    requires
        xml::well_formed(b),
        without_descriptions(b),
        b.len() > 0,
        b[0] is Chars,
    ensures
        xml::well_formed(b.skip(1)),
        without_descriptions(b.skip(1)),
        xml::pieces_text(b) == b[0]->Chars_0 + xml::pieces_text(b.skip(1)),
        properties_in(b, 0, true, 0) == properties_in(b.skip(1), 0, true, 0),
        b.len() > 1 ==> !(b.skip(1)[0] is Chars),
{
    let (first, rest) = (seq![b[0]], b.skip(1));
    assert(b =~= first + rest);
    assert forall|k: int| 1 <= k <= b.len() implies (#[trigger] xml::open_names(b, k)) is Some by {
        lemma_names_before(b, k, b.len() as int);
    }
    assert(xml::open_names(b, 1) == xml::open_names(b, 0));
    lemma_inside(b, 1, b.len() as int);
    assert(b.subrange(1, b.len() as int) =~= rest);
    assert(xml::piece_ok(b[0]));
    assert(b.len() > 1 ==> !(b[1] is Chars));
    lemma_one_formed(b[0]);
    lemma_descriptions_apart(first, rest);
    lemma_children_parts(first, rest);
    lemma_child_text(b[0]);
    lemma_one_text(b[0]);
    lemma_text_parts(first, rest);
    let p = properties_in(rest, 0, true, 0);
    assert(Seq::<(Seq<char>, Seq<char>)>::empty() + p =~= p);
}

/// What is joined is written one behind the other, and so are its properties inside a
/// description.
pub proof fn lemma_joined(a: Seq<PieceView>, b: Seq<PieceView>)
    requires
        xml::well_formed(a),
        xml::well_formed(b),
        without_descriptions(a),
        without_descriptions(b),
    ensures
        xml::well_formed(joined_pieces(a, b)),
        without_descriptions(joined_pieces(a, b)),
        xml::pieces_text(joined_pieces(a, b)) == xml::pieces_text(a) + xml::pieces_text(b),
        properties_in(joined_pieces(a, b), 0, true, 0) == properties_in(a, 0, true, 0) + properties_in(
            b,
            0,
            true,
            0,
        ),
{
    if a.len() > 0 && b.len() > 0 && a.last() is Chars && b[0] is Chars {
        let (x, y) = (a.last()->Chars_0, b[0]->Chars_0);
        let (front, rest) = (a.drop_last(), b.skip(1));
        let m = seq![PieceView::Chars(x + y)];
        lemma_without_last(a);
        lemma_without_first(b);
        assert(xml::piece_ok(a[a.len() - 1]));
        assert(xml::piece_ok(b[0]));
        assert(!(x + y).contains('<')) by {
            if (x + y).contains('<') {
                let i = choose|i: int| 0 <= i < (x + y).len() && (x + y)[i] == '<';
                if i < x.len() {
                    assert(x[i] == '<');
                    assert(x.contains('<'));
                } else {
                    assert(y[i - x.len()] == '<');
                    assert(y.contains('<'));
                }
            }
        }
        lemma_one_formed(m[0]);
        lemma_one_text(m[0]);
        lemma_child_text(m[0]);
        lemma_parts_formed(front, m);
        lemma_text_parts(front, m);
        lemma_children_parts(front, m);
        lemma_parts_formed(front + m, rest);
        lemma_text_parts(front + m, rest);
        lemma_children_parts(front + m, rest);
        assert(xml::pieces_text(joined_pieces(a, b)) =~= xml::pieces_text(a) + xml::pieces_text(b));
        let (p, q) = (properties_in(front, 0, true, 0), properties_in(rest, 0, true, 0));
        assert(p + Seq::<(Seq<char>, Seq<char>)>::empty() + q =~= p + q);
    } else {
        lemma_parts_formed(a, b);
        lemma_text_parts(a, b);
        lemma_children_parts(a, b);
    }
}

// ---- what stands behind -----------------------------------------------------------------

proof fn lemma_end_behind(a: Seq<PieceView>, b: Seq<PieceView>, k: int, name: Seq<char>, depth: int)
    requires
        0 <= k,
    ensures
        match xmp::end_of_element(plain_events(b), k, name, depth) {
            Ok(n) => xmp::end_of_element(plain_events(a + b), a.len() + k, name, depth) == Ok::<int, xmp::ErrorView>(
                a.len() + n,
            ),
            Err(e) => xmp::end_of_element(plain_events(a + b), a.len() + k, name, depth) is Err,
        },
    decreases b.len() + 1 - k,
{
    let v = a + b;
    assert(plain_events(b).len() == b.len() + 1);
    assert(plain_events(v).len() == v.len() + 1);
    if k < b.len() {
        lemma_event(b, k);
        lemma_event(v, a.len() + k);
        assert(v[a.len() + k] == b[k]);
        match b[k] {
            PieceView::Open(c) => {
                lemma_end_behind(
                    a,
                    b,
                    k + 1,
                    name,
                    if xml::name_in(c) == name {
                        depth + 1
                    } else {
                        depth
                    },
                );
            },
            PieceView::Close(m) => {
                if !(m == name && depth == 0) {
                    lemma_end_behind(
                        a,
                        b,
                        k + 1,
                        name,
                        if m == name {
                            depth - 1
                        } else {
                            depth
                        },
                    );
                }
            },
            PieceView::Done => {},
            PieceView::Broken(_) => {},
            _ => {
                lemma_end_behind(a, b, k + 1, name, depth);
            },
        }
    } else if k == b.len() {
        assert(plain_events(b)[k] is Eof);
        assert(plain_events(v)[a.len() + k] is Eof);
    }
}

/// The properties from a place on depend on what stands behind it alone.
pub proof fn lemma_behind(a: Seq<PieceView>, b: Seq<PieceView>, k: int, inside: bool, depth: int)
    requires
        0 <= k <= b.len(),
    ensures
        properties_in(a + b, a.len() + k, inside, depth) == properties_in(b, k, inside, depth),
    decreases b.len() - k,
{
    reveal(properties_in);
    let v = a + b;
    if k < b.len() {
        assert(v[a.len() + k] == b[k]);
        match b[k] {
            PieceView::Open(c) => {
                let name = xml::name_in(c);
                if name == "rdf:Description"@ {
                    lemma_behind(a, b, k + 1, true, 0);
                } else if inside && depth == 0 {
                    lemma_end_behind(a, b, k + 1, name, 0);
                    xmp::lemma_end_of_element(plain_events(b), k + 1, name, 0);
                    match xmp::end_of_element(plain_events(b), k + 1, name, 0) {
                        Ok(n) => {
                            assert(plain_events(b).len() == b.len() + 1);
                            lemma_end_inside(b, k + 1, name, 0);
                            lemma_behind(a, b, n, inside, depth);
                            assert(v.subrange(a.len() + k + 1, a.len() + n - 1) =~= b.subrange(k + 1, n - 1));
                        },
                        Err(_) => {},
                    }
                } else {
                    lemma_behind(
                        a,
                        b,
                        k + 1,
                        inside,
                        if inside {
                            depth + 1
                        } else {
                            depth
                        },
                    );
                }
            },
            PieceView::Close(name) => {
                if inside && depth == 0 && name == "rdf:Description"@ {
                    lemma_behind(a, b, k + 1, false, depth);
                } else {
                    lemma_behind(
                        a,
                        b,
                        k + 1,
                        inside,
                        if inside {
                            depth - 1
                        } else {
                            depth
                        },
                    );
                }
            },
            _ => {
                lemma_behind(a, b, k + 1, inside, depth);
            },
        }
    }
}

proof fn lemma_end_inside(b: Seq<PieceView>, k: int, name: Seq<char>, depth: int)
    requires
        0 <= k,
        xmp::end_of_element(plain_events(b), k, name, depth) is Ok,
    ensures
        xmp::end_of_element(plain_events(b), k, name, depth)->Ok_0 <= b.len(),
{
    assert(b.subrange(0, b.len() as int) =~= b);
    lemma_end_same(b, 0, b, k, name, depth);
}

/// A byte order mark in front of a packet does not change its properties.
pub proof fn lemma_unmarked_properties(v: Seq<PieceView>)
    ensures
        plain_properties(unmarked(v)) == plain_properties(v),
{
    if v.len() > 0 && v[0] is Chars {
        let head = text_pieces(xml::without_mark(v[0]->Chars_0));
        let rest = v.skip(1);
        assert(v =~= seq![v[0]] + rest);
        lemma_in_text(v, 0, false, 0);
        lemma_behind(seq![v[0]], rest, 0, false, 0);
        lemma_behind(head, rest, 0, false, 0);
        if head.len() > 0 {
            assert(unmarked(v)[0] == head[0]);
            lemma_in_text(unmarked(v), 0, false, 0);
        }
    }
}

/// A well-formed text stays so when an element in it is replaced by another.
pub proof fn lemma_replaced(pre: Seq<PieceView>, e: Seq<PieceView>, f: Seq<PieceView>, post: Seq<PieceView>)
    requires
        xml::well_formed(pre + e + post),
        xml::well_formed(e),
        xml::well_formed(f),
        f.len() > 0,
        !(f[0] is Chars),
        !(f.last() is Chars),
    ensures
        xml::well_formed(pre + f + post),
{
    let (v, w) = (pre + e + post, pre + f + post);
    let (i, j) = ((pre + e).len() as int, (pre + f).len() as int);
    lemma_names_before(v, pre.len() as int, v.len() as int);
    assert(v =~= pre + (e + post));
    lemma_names_front(pre, e + post, pre.len() as int);
    lemma_names_back(pre, e, e.len() as int);
    lemma_names_back(pre, f, f.len() as int);
    lemma_names_front(pre + e, post, i);
    lemma_names_front(pre + f, post, j);
    assert(xml::open_names(w, j) == xml::open_names(v, i));
    lemma_names_alike(pre + e, pre + f, post, post.len() as int);
    assert forall|k: int| 0 <= k < w.len() implies xml::piece_ok(#[trigger] w[k]) by {
        if k < pre.len() {
            assert(w[k] == v[k]);
        } else if k < j {
            assert(w[k] == f[k - pre.len()]);
        } else {
            assert(w[k] == v[k - j + i]);
        }
    }
    assert forall|h: int, k: int|
        0 <= h < w.len() && k == h + 1 && k < w.len() && (#[trigger] w[h]) is Chars implies !((
    #[trigger] w[k]) is Chars) by {
        if k < pre.len() {
            assert(w[h] == v[h] && w[k] == v[k]);
        } else if k == pre.len() {
            assert(w[k] == f[0]);
        } else if k < j {
            assert(w[h] == f[h - pre.len()] && w[k] == f[k - pre.len()]);
        } else if k == j {
            assert(w[h] == f.last());
        } else {
            assert(w[h] == v[h - j + i] && w[k] == v[k - j + i]);
        }
    }
}

proof fn lemma_names_alike(a: Seq<PieceView>, b: Seq<PieceView>, post: Seq<PieceView>, k: int)
    requires
        0 <= k <= post.len(),
        xml::open_names(a + post, a.len() as int) == xml::open_names(b + post, b.len() as int),
    ensures
        xml::open_names(a + post, a.len() + k) == xml::open_names(b + post, b.len() + k),
    decreases k,
{
    if k > 0 {
        lemma_names_alike(a, b, post, k - 1);
        assert((a + post)[a.len() + k - 1] == post[k - 1]);
        assert((b + post)[b.len() + k - 1] == post[k - 1]);
    }
}

// ---- tags -------------------------------------------------------------------------------

/// Whether a word can be the name of an element.
pub open spec fn tag_word(s: Seq<char>) -> bool {
    &&& xml::begins_tag(s)
    &&& s.last() != '/'
    &&& forall|i: int|
        0 <= i < s.len() ==> !xml::is_gap(#[trigger] s[i]) && s[i] != '"' && s[i] != '\'' && s[i] != '>'
}

proof fn lemma_no_quote(s: Seq<char>, n: int)
    requires
        0 <= n <= s.len(),
        forall|i: int| 0 <= i < s.len() ==> (#[trigger] s[i]) != '"' && s[i] != '\'',
    ensures
        xml::open_quote(s, n) is None,
    decreases n,
{
    if n > 0 {
        lemma_no_quote(s, n - 1);
    }
}

proof fn lemma_word_end(s: Seq<char>, i: int, n: int)
    requires
        0 <= i <= n <= s.len(),
        forall|k: int| i <= k < n ==> !xml::is_gap(#[trigger] s[k]),
        n == s.len() || xml::is_gap(s[n]),
    ensures
        xml::word_end(s, i) == n,
    decreases n - i,
{
    if i < n {
        lemma_word_end(s, i + 1, n);
    }
}

/// A word makes a start tag and an end tag, and is its name.
pub proof fn lemma_word_tags(s: Seq<char>)
    requires
        tag_word(s),
    ensures
        xml::piece_ok(PieceView::Open(s)),
        xml::piece_ok(PieceView::Close(s)),
        xml::name_in(s) == s,
{
    lemma_no_quote(s, s.len() as int);
    lemma_word_end(s, 0, s.len() as int);
    assert(s.take(s.len() as int) =~= s);
    assert(!xml::is_gap(s[s.len() - 1]));
}

/// A word that makes a start tag makes an end tag, and is its name.
pub proof fn lemma_word_name(s: Seq<char>)
    requires
        xml::piece_ok(PieceView::Open(s)),
        forall|i: int| 0 <= i < s.len() ==> !xml::is_gap(#[trigger] s[i]),
    ensures
        xml::piece_ok(PieceView::Close(s)),
        xml::name_in(s) == s,
{
    lemma_word_end(s, 0, s.len() as int);
    assert(s.take(s.len() as int) =~= s);
    assert(!xml::is_gap(s[s.len() - 1]));
}

/// Whether keys can stand in a tag.
pub open spec fn keys_plain(list: Seq<(Seq<char>, Seq<char>)>) -> bool {
    forall|i: int, k: int|
        0 <= i < list.len() && 0 <= k < list[i].0.len() ==> (#[trigger] list[i].0[k]) != '"' && list[i].0[k] != '\''
            && list[i].0[k] != '>'
}

proof fn lemma_quote_parts(a: Seq<char>, b: Seq<char>, k: int)
    requires
        0 <= k <= b.len(),
        xml::open_quote(a, a.len() as int) is None,
    ensures
        xml::open_quote(a + b, a.len() + k) == xml::open_quote(b, k),
    decreases k,
{
    if k > 0 {
        lemma_quote_parts(a, b, k - 1);
        assert((a + b)[a.len() + k - 1] == b[k - 1]);
    } else {
        lemma_quote_front(a, b, a.len() as int);
    }
}

proof fn lemma_quote_front(a: Seq<char>, b: Seq<char>, k: int)
    requires
        0 <= k <= a.len(),
    ensures
        xml::open_quote(a + b, k) == xml::open_quote(a, k),
    decreases k,
{
    if k > 0 {
        lemma_quote_front(a, b, k - 1);
        assert((a + b)[k - 1] == a[k - 1]);
    }
}

proof fn lemma_inside_quote(e: Seq<char>, n: int)
    requires
        0 <= n <= e.len(),
        forall|i: int| 0 <= i < e.len() ==> (#[trigger] e[i]) != '"',
    ensures
        xml::open_quote(seq!['"'] + e + seq!['"'], n + 1) == Some('"'),
    decreases n,
{
    let s = seq!['"'] + e + seq!['"'];
    if n == 0 {
        assert(xml::open_quote(s, 0) is None);
        assert(s[0] == '"');
    } else {
        lemma_inside_quote(e, n - 1);
        assert(s[n] == e[n - 1]);
    }
}

proof fn lemma_attributes_close(list: Seq<(Seq<char>, Seq<char>)>)
    requires
        keys_plain(list),
    ensures
        xml::open_quote(xml::attributes_text(list), xml::attributes_text(list).len() as int) is None,
        forall|i: int|
            0 <= i < xml::attributes_text(list).len() ==> (#[trigger] xml::attributes_text(list)[i]) != '>',
        list.len() > 0 ==> xml::attributes_text(list).len() > 0 && xml::attributes_text(list)[0] == ' '
            && xml::attributes_text(list).last() == '"',
    decreases list.len(),
{
    if list.len() > 0 {
        reveal_strlit(" ");
        reveal_strlit("=\"");
        reveal_strlit("\"");
        let front = list.drop_last();
        assert forall|i: int, k: int| 0 <= i < front.len() && 0 <= k < front[i].0.len() implies (
        #[trigger] front[i].0[k]) != '"' && front[i].0[k] != '\'' && front[i].0[k] != '>' by {
            assert(front[i] == list[i]);
            assert(list[i].0[k] != '"');
        }
        lemma_attributes_close(front);
        let (key, e) = (list.last().0, xml::escaped(list.last().1));
        lemma_escaped_clean(list.last().1);
        let a = xml::attributes_text(front);
        let u = " "@ + key + "="@;
        let q = seq!['"'] + e + seq!['"'];
        reveal_strlit("=");
        let whole = xml::attributes_text(list);
        assert(whole =~= a + (u + q));
        assert forall|i: int| 0 <= i < u.len() implies (#[trigger] u[i]) != '"' && u[i] != '\'' && u[i] != '>' by {
            if 0 < i <= key.len() {
                assert(u[i] == key[i - 1]);
                assert(list[list.len() - 1].0[i - 1] != '"');
            }
        }
        lemma_no_quote(u, u.len() as int);
        lemma_inside_quote(e, e.len() as int);
        assert(q[q.len() - 1] == '"');
        assert(xml::open_quote(q, q.len() as int) is None);
        lemma_quote_parts(u, q, q.len() as int);
        lemma_quote_parts(a, u + q, (u + q).len() as int);
        assert forall|i: int| 0 <= i < whole.len() implies (#[trigger] whole[i]) != '>' by {
            if i < a.len() {
                assert(whole[i] == a[i]);
            } else if i < a.len() + u.len() {
                assert(whole[i] == u[i - a.len()]);
            } else {
                let k = i - a.len() - u.len();
                assert(whole[i] == q[k]);
                if 0 < k <= e.len() {
                    assert(q[k] == e[k - 1]);
                }
            }
        }
    }
}

/// A word with attributes makes a start tag, and is its name.
pub proof fn lemma_attributed_tag(name: Seq<char>, list: Seq<(Seq<char>, Seq<char>)>)
    requires
        tag_word(name),
        keys_plain(list),
        list.len() > 0,
    ensures
        xml::piece_ok(PieceView::Open(xml::tag_content(name, list))),
        xml::name_in(xml::tag_content(name, list)) == name,
{
    let c = xml::tag_content(name, list);
    let a = xml::attributes_text(list);
    lemma_attributes_close(list);
    lemma_no_quote(name, name.len() as int);
    lemma_quote_parts(name, a, a.len() as int);
    assert(c[name.len() as int] == a[0]);
    assert forall|k: int| 0 <= k < name.len() implies !xml::is_gap(#[trigger] c[k]) by {
        assert(c[k] == name[k]);
    }
    lemma_word_end(c, 0, name.len() as int);
    assert(c.take(name.len() as int) =~= name);
    assert forall|i: int| 0 <= i < c.len() implies (#[trigger] c[i]) != '>' by {
        if i < name.len() {
            assert(c[i] == name[i]);
        } else {
            assert(c[i] == a[i - name.len()]);
        }
    }
    assert(c[0] == name[0]);
    assert(c.last() == a.last());
}

} // verus!
