//! What holds of trimming, lower case, leaving characters out, and numerals.

use vstd::prelude::*;
use crate::text;

verus! {

/// Whether every character is white space.
pub open spec fn all_space(s: Seq<char>) -> bool {
    forall|i: int| 0 <= i < s.len() ==> text::is_space(#[trigger] s[i])
}

/// Whether a text neither begins nor ends with white space.
pub open spec fn is_trimmed(s: Seq<char>) -> bool {
    s.len() == 0 || (!text::is_space(s[0]) && !text::is_space(s.last()))
}

/// Lower case keeps what is white space, what is a digit, and what is neither letter.
pub proof fn lemma_lower(c: char)
    ensures
        text::is_space(text::lower(c)) == text::is_space(c),
        text::is_digit(text::lower(c)) == text::is_digit(c),
        text::is_digit(c) ==> text::lower(c) == c,
        text::lower(text::lower(c)) == text::lower(c),
        text::lower(c) == '-' <==> c == '-',
        text::lower(c) == '_' <==> c == '_',
        text::lower(c) == ' ' <==> c == ' ',
        text::lower(c) == '+' <==> c == '+',
{
}

proof fn lemma_front_lowered(s: Seq<char>)
    ensures
        text::trimmed_front(text::lowered(s)) == text::lowered(text::trimmed_front(s)),
    decreases s.len(),
{
    let l = text::lowered(s);
    if s.len() > 0 {
        lemma_lower(s[0]);
        assert(l[0] == text::lower(s[0]));
        if text::is_space(s[0]) {
            lemma_front_lowered(s.drop_first());
            assert(l.drop_first() =~= text::lowered(s.drop_first()));
        }
    }
}

proof fn lemma_back_lowered(s: Seq<char>)
    ensures
        text::trimmed_back(text::lowered(s)) == text::lowered(text::trimmed_back(s)),
    decreases s.len(),
{
    let l = text::lowered(s);
    if s.len() > 0 {
        lemma_lower(s.last());
        assert(l.last() == text::lower(s.last()));
        if text::is_space(s.last()) {
            lemma_back_lowered(s.drop_last());
            assert(l.drop_last() =~= text::lowered(s.drop_last()));
        }
    }
}

/// Trimming and lower case can be done in either order.
pub proof fn lemma_trimmed_lowered(s: Seq<char>)
    ensures
        text::trimmed(text::lowered(s)) == text::lowered(text::trimmed(s)),
{
    lemma_front_lowered(s);
    lemma_back_lowered(text::trimmed_front(s));
}

proof fn lemma_front_parts(s: Seq<char>) -> (w: Seq<char>)
    ensures
        all_space(w),
        s == w + text::trimmed_front(s),
        text::trimmed_front(s).len() == 0 || !text::is_space(text::trimmed_front(s)[0]),
    decreases s.len(),
{
    if s.len() > 0 && text::is_space(s[0]) {
        let v = lemma_front_parts(s.drop_first());
        let w = seq![s[0]] + v;
        let rest = text::trimmed_front(s.drop_first());
        assert(s =~= seq![s[0]] + s.drop_first());
        assert(seq![s[0]] + (v + rest) =~= w + rest);
        assert forall|i: int| 0 <= i < w.len() implies text::is_space(#[trigger] w[i]) by {
            if i > 0 {
                assert(w[i] == v[i - 1]);
            }
        }
        w
    } else {
        assert(s =~= Seq::<char>::empty() + s);
        Seq::empty()
    }
}

proof fn lemma_back_parts(s: Seq<char>) -> (w: Seq<char>)
    ensures
        all_space(w),
        s == text::trimmed_back(s) + w,
        text::trimmed_back(s).len() == 0 || (!text::is_space(text::trimmed_back(s).last())
            && text::trimmed_back(s)[0] == s[0]),
    decreases s.len(),
{
    if s.len() > 0 && text::is_space(s.last()) {
        let v = lemma_back_parts(s.drop_last());
        let w = v.push(s.last());
        let rest = text::trimmed_back(s.drop_last());
        assert(s =~= s.drop_last().push(s.last()));
        assert((rest + v).push(s.last()) =~= rest + w);
        assert forall|i: int| 0 <= i < w.len() implies text::is_space(#[trigger] w[i]) by {
            if i < v.len() {
                assert(w[i] == v[i]);
            }
        }
        w
    } else {
        assert(s =~= s + Seq::<char>::empty());
        Seq::empty()
    }
}

/// A text is its trimmed form with white space on either side.
pub proof fn lemma_trimmed_parts(s: Seq<char>) -> (r: (Seq<char>, Seq<char>))
    ensures
        all_space(r.0),
        all_space(r.1),
        s == r.0 + text::trimmed(s) + r.1,
        is_trimmed(text::trimmed(s)),
{
    let front = lemma_front_parts(s);
    let inner = text::trimmed_front(s);
    let back = lemma_back_parts(inner);
    assert(s =~= front + text::trimmed(s) + back);
    (front, back)
}

proof fn lemma_front_space(w: Seq<char>, s: Seq<char>)
    requires
        all_space(w),
    ensures
        text::trimmed_front(w + s) == text::trimmed_front(s),
    decreases w.len(),
{
    if w.len() == 0 {
        assert(w + s =~= s);
    } else {
        let v = w.drop_first();
        assert forall|i: int| 0 <= i < v.len() implies text::is_space(#[trigger] v[i]) by {
            assert(v[i] == w[i + 1]);
        }
        lemma_front_space(v, s);
        assert((w + s).drop_first() =~= v + s);
        assert((w + s)[0] == w[0]);
    }
}

proof fn lemma_back_space(s: Seq<char>, w: Seq<char>)
    requires
        all_space(w),
    ensures
        text::trimmed_back(s + w) == text::trimmed_back(s),
    decreases w.len(),
{
    if w.len() == 0 {
        assert(s + w =~= s);
    } else {
        let v = w.drop_last();
        assert forall|i: int| 0 <= i < v.len() implies text::is_space(#[trigger] v[i]) by {
            assert(v[i] == w[i]);
        }
        lemma_back_space(s, v);
        assert((s + w).drop_last() =~= s + v);
        assert((s + w).last() == w[w.len() - 1]);
    }
}

proof fn lemma_space_behind(s: Seq<char>, w: Seq<char>)
    requires
        all_space(w),
    ensures
        text::trimmed(s + w) == text::trimmed(s),
    decreases s.len(),
{
    if s.len() == 0 {
        let e = Seq::<char>::empty();
        assert(s + w =~= w);
        assert(w =~= w + e);
        lemma_front_space(w, e);
        assert(s =~= e);
    } else if text::is_space(s[0]) {
        lemma_space_behind(s.drop_first(), w);
        assert((s + w).drop_first() =~= s.drop_first() + w);
        assert((s + w)[0] == s[0]);
    } else {
        assert((s + w)[0] == s[0]);
        lemma_back_space(s, w);
    }
}

/// White space around a text does not matter to trimming.
pub proof fn lemma_trimmed_around(w: Seq<char>, s: Seq<char>, v: Seq<char>)
    requires
        all_space(w),
        all_space(v),
    ensures
        text::trimmed(w + s + v) == text::trimmed(s),
{
    lemma_space_behind(w + s, v);
    lemma_front_space(w, s);
}

/// What is trimmed stays as it is.
pub proof fn lemma_trimmed_same(s: Seq<char>)
    requires
        is_trimmed(s),
    ensures
        text::trimmed(s) == s,
{
}

/// Leaving characters out of two texts one behind the other.
pub proof fn lemma_without_concat(a: Seq<char>, b: Seq<char>, unwanted: Seq<char>)
    ensures
        text::without_any(a + b, unwanted) == text::without_any(a, unwanted) + text::without_any(b, unwanted),
    decreases b.len(),
{
    let left = text::without_any(a, unwanted);
    if b.len() == 0 {
        assert(a + b =~= a);
        assert(left + text::without_any(b, unwanted) =~= left);
    } else {
        lemma_without_concat(a, b.drop_last(), unwanted);
        assert((a + b).drop_last() =~= a + b.drop_last());
        assert((a + b).last() == b.last());
        let right = text::without_any(b.drop_last(), unwanted);
        assert((left + right).push(b.last()) =~= left + right.push(b.last()));
    }
}

/// A text without any of the unwanted characters stays as it is.
pub proof fn lemma_without_none(s: Seq<char>, unwanted: Seq<char>)
    requires
        forall|i: int| 0 <= i < s.len() ==> !unwanted.contains(#[trigger] s[i]),
    ensures
        text::without_any(s, unwanted) == s,
    decreases s.len(),
{
    if s.len() > 0 {
        let init = s.drop_last();
        assert forall|i: int| 0 <= i < init.len() implies !unwanted.contains(#[trigger] init[i]) by {
            assert(init[i] == s[i]);
        }
        lemma_without_none(init, unwanted);
        assert(!unwanted.contains(s[s.len() - 1]));
        assert(init.push(s.last()) =~= s);
    }
}

/// What is left when characters are left out was in the text and is wanted.
pub proof fn lemma_without_kept(s: Seq<char>, unwanted: Seq<char>)
    ensures
        forall|i: int|
            0 <= i < text::without_any(s, unwanted).len() ==> s.contains(
                #[trigger] text::without_any(s, unwanted)[i],
            ) && !unwanted.contains(text::without_any(s, unwanted)[i]),
    decreases s.len(),
{
    if s.len() > 0 {
        let init = s.drop_last();
        lemma_without_kept(init, unwanted);
        let r = text::without_any(s, unwanted);
        let before = text::without_any(init, unwanted);
        assert forall|i: int| 0 <= i < r.len() implies s.contains(#[trigger] r[i]) && !unwanted.contains(r[i]) by {
            if i < before.len() {
                assert(r[i] == before[i]);
                let k = choose|k: int| 0 <= k < init.len() && init[k] == before[i];
                assert(s[k] == r[i]);
            } else {
                assert(s[s.len() - 1] == r[i]);
            }
        }
    }
}

/// Leaving characters out and lower case can be done in either order, where case does not matter to
/// what is left out.
pub proof fn lemma_without_lowered(s: Seq<char>, unwanted: Seq<char>)
    requires
        forall|c: char| unwanted.contains(#[trigger] text::lower(c)) == unwanted.contains(c),
    ensures
        text::without_any(text::lowered(s), unwanted) == text::lowered(text::without_any(s, unwanted)),
    decreases s.len(),
{
    let l = text::lowered(s);
    if s.len() > 0 {
        lemma_without_lowered(s.drop_last(), unwanted);
        assert(l.drop_last() =~= text::lowered(s.drop_last()));
        assert(l.last() == text::lower(s.last()));
        let before = text::without_any(s.drop_last(), unwanted);
        assert(text::lowered(before.push(s.last())) =~= text::lowered(before).push(text::lower(s.last())));
    } else {
        assert(l =~= s);
        assert(text::without_any(l, unwanted) =~= s);
        assert(text::lowered(text::without_any(s, unwanted)) =~= s);
    }
}

/// A numeral is read as the number that was written.
pub proof fn lemma_numeral(n: nat)
    ensures
        text::all_digits(text::dec(n)),
        text::dec(n).len() > 0,
        text::digits_value(text::dec(n)) == n,
        text::numeral(text::dec(n)) == Some(n),
    decreases n,
{
    let d = text::dec(n);
    if n < 10 {
        assert(d.drop_last() =~= Seq::<char>::empty());
        assert(text::digits_value(d.drop_last()) == 0);
        assert(d[0] == text::digit(n as int));
    } else {
        lemma_numeral(n / 10);
        assert(d.drop_last() =~= text::dec(n / 10));
        assert forall|i: int| 0 <= i < d.len() implies text::is_digit(#[trigger] d[i]) by {
            if i < d.len() - 1 {
                assert(d[i] == text::dec(n / 10)[i]);
            }
        }
    }
    assert(text::is_digit(d[0]));
}

/// Two lists of texts one behind the other are joined as the two joined lists are.
pub proof fn lemma_joined_parts(a: Seq<Seq<char>>, b: Seq<Seq<char>>, sep: Seq<char>)
    requires
        a.len() > 0,
        b.len() > 0,
    ensures
        text::joined(a + b, sep) == text::joined(a, sep) + sep + text::joined(b, sep),
    decreases b.len(),
{
    assert((a + b).drop_last() =~= a + b.drop_last());
    assert((a + b).last() == b.last());
    if b.len() == 1 {
        assert(a + b.drop_last() =~= a);
    } else {
        lemma_joined_parts(a, b.drop_last(), sep);
        let (x, y) = (text::joined(a, sep), text::joined(b.drop_last(), sep));
        assert((x + sep + y) + sep + b.last() =~= x + sep + (y + sep + b.last()));
    }
}

/// The first of a character in a text that has none of it before.
pub proof fn lemma_first_char(a: Seq<char>, c: char, b: Seq<char>, from: int)
    requires
        0 <= from <= a.len(),
        !a.contains(c),
    ensures
        text::char_from(a + seq![c] + b, from, c) == Some(a.len() as int),
    decreases a.len() - from,
{
    let s = a + seq![c] + b;
    if from < a.len() {
        assert(s[from] == a[from]);
        assert(a.contains(a[from]));
        lemma_first_char(a, c, b, from + 1);
    } else {
        assert(s[from] == c);
    }
}

/// A text is cut at the first of a character: what was put together with it comes apart again.
pub proof fn texts_come_apart(a: Seq<char>, c: char, b: Seq<char>)
    requires
        !a.contains(c),
    ensures
        text::cut_at(a + seq![c] + b, c) == Some((a, b)),
{
    let s = a + seq![c] + b;
    lemma_first_char(a, c, b, 0);
    assert(s.subrange(0, a.len() as int) =~= a);
    assert(s.subrange((a.len() + 1) as int, s.len() as int) =~= b);
}

proof fn lemma_some_part(a: Seq<char>, seps: Seq<char>)
    ensures
        text::split_any(a, seps).len() > 0,
    decreases a.len(),
{
    if a.len() > 0 {
        lemma_some_part(a.drop_last(), seps);
    }
}

proof fn lemma_last_part(a: Seq<char>, b: Seq<char>, seps: Seq<char>)
    requires
        forall|i: int| 0 <= i < b.len() ==> !seps.contains(#[trigger] b[i]),
    ensures
        ({
            let s = text::split_any(a, seps);
            text::split_any(a + b, seps) == s.drop_last().push(s.last() + b)
        }),
    decreases b.len(),
{
    let s = text::split_any(a, seps);
    lemma_some_part(a, seps);
    if b.len() == 0 {
        assert(a + b =~= a);
        assert(s.last() + b =~= s.last());
        assert(s.drop_last().push(s.last()) =~= s);
    } else {
        let c = b.drop_last();
        assert forall|i: int| 0 <= i < c.len() implies !seps.contains(#[trigger] c[i]) by {
            assert(c[i] == b[i]);
        }
        lemma_last_part(a, c, seps);
        assert((a + b).drop_last() =~= a + c);
        assert((a + b).last() == b[b.len() - 1]);
        let t = s.drop_last().push(s.last() + c);
        assert(t.drop_last() =~= s.drop_last());
        assert((s.last() + c).push(b.last()) =~= s.last() + b);
    }
}

/// A part behind a list, with a separator between, is one part more. A text without separators is one
/// part.
pub proof fn lists_come_apart(list: Seq<char>, sep: char, part: Seq<char>, seps: Seq<char>)
    requires
        seps.contains(sep),
        forall|i: int| 0 <= i < part.len() ==> !seps.contains(#[trigger] part[i]),
    ensures
        text::split_any(list + seq![sep] + part, seps) == text::split_any(list, seps).push(part),
        text::split_any(part, seps) == seq![part],
{
    let head = list + seq![sep];
    assert(head.drop_last() =~= list);
    assert(head.last() == sep);
    let s = text::split_any(list, seps);
    let e = Seq::<char>::empty();
    assert(text::split_any(head, seps) == s.push(e));
    lemma_last_part(head, part, seps);
    assert(s.push(e).drop_last() =~= s);
    assert(e + part =~= part);
    lemma_last_part(e, part, seps);
    assert(text::split_any(e, seps) =~= seq![e]);
    assert(seq![e].drop_last() =~= Seq::<Seq<char>>::empty());
    assert(Seq::<Seq<char>>::empty().push(part) =~= seq![part]);
}

} // verus!
