//! What conditions ask of a file.

use vstd::prelude::*;
use vstd::string::*;
use crate::iptc;
use crate::text;
use crate::textlaws;
use crate::whereexpr;
use crate::whereexpr::{ConditionView, FileFacts, Op};

verus! {

/// Whether the characters of `part` stand somewhere in `s`, one behind the other.
pub open spec fn stands_in(part: Seq<char>, s: Seq<char>) -> bool {
    exists|a: Seq<char>, b: Seq<char>| #[trigger] (a + part + b) == s
}

proof fn lemma_found(s: Seq<char>, from: int, part: Seq<char>)
    requires
        0 <= from,
    ensures
        text::find_from(s, from, part) is Some <==> exists|k: int| from <= k && #[trigger] text::occurs_at(s, k, part),
    decreases s.len() - from + 1,
{
    if from + part.len() <= s.len() && !text::occurs_at(s, from, part) {
        lemma_found(s, from + 1, part);
    }
}

/// A text holds another if that stands in it, wherever.
pub proof fn parts_are_contained(part: Seq<char>, s: Seq<char>)
    ensures
        text::contains_text(s, part) <==> stands_in(part, s),
{
    lemma_found(s, 0, part);
    if text::contains_text(s, part) {
        let k = choose|k: int| 0 <= k && #[trigger] text::occurs_at(s, k, part);
        let n = s.len() as int;
        assert(s.subrange(0, k) + part + s.subrange(k + part.len(), n) =~= s);
    }
    if stands_in(part, s) {
        let (a, b) = choose|a: Seq<char>, b: Seq<char>| #[trigger] (a + part + b) == s;
        assert(s.subrange(a.len() as int, (a.len() + part.len()) as int) =~= part);
        assert(text::occurs_at(s, a.len() as int, part));
    }
}

/// Whether `name` stands in the name of property `i` of a file, in any case.
pub open spec fn property_called(f: FileFacts, i: int, name: Seq<char>) -> bool {
    0 <= i < f.props@.len() && stands_in(text::lowered(name), text::lowered(f.props@[i].0@))
}

/// Whether a file has a property of this name and value, in any case.
pub open spec fn has_equal(f: FileFacts, name: Seq<char>, value: Seq<char>) -> bool {
    exists|i: int| #[trigger] property_called(f, i, name) && text::lowered(f.props@[i].1@) == text::lowered(value)
}

/// Whether a file has a property of this name in whose value `value` stands, in any case.
pub open spec fn has_part(f: FileFacts, name: Seq<char>, value: Seq<char>) -> bool {
    exists|i: int|
        #[trigger] property_called(f, i, name) && stands_in(text::lowered(value), text::lowered(f.props@[i].1@))
}

/// Whether a text says a condition that holds of a file exactly if `answer` does.
pub open spec fn asks(expr: Seq<char>, f: FileFacts, answer: bool) -> bool {
    whereexpr::condition_of(expr) matches Ok(c) && whereexpr::holds(c, f) == answer
}

/// Whether a text can name a property in a comparison.
pub open spec fn can_name(name: Seq<char>) -> bool {
    &&& name.len() > 0
    &&& textlaws::is_trimmed(name)
    &&& !name.contains('=')
    &&& !name.contains('~')
    &&& !name.contains('!')
    &&& !name.contains(':')
}

proof fn lemma_named(f: FileFacts, name: Seq<char>, value: Seq<char>)
    ensures
        ({
            let p = iptc::properties_view(f.props@);
            &&& whereexpr::some_named(p, name) == exists|i: int| property_called(f, i, name)
            &&& whereexpr::some_equal(p, name, value) == has_equal(f, name, value)
            &&& whereexpr::some_containing(p, name, value) == has_part(f, name, value)
        }),
{
    let p = iptc::properties_view(f.props@);
    assert forall|i: int| 0 <= i < p.len() implies whereexpr::named_like(#[trigger] p[i], name) == property_called(
        f,
        i,
        name,
    ) && text::contains_text(text::lowered(p[i].1), text::lowered(value)) == stands_in(
        text::lowered(value),
        text::lowered(f.props@[i].1@),
    ) && p[i].1 == f.props@[i].1@ by {
        parts_are_contained(text::lowered(name), text::lowered(p[i].0));
        parts_are_contained(text::lowered(value), text::lowered(p[i].1));
    }
    if exists|i: int| property_called(f, i, name) {
        let i = choose|i: int| property_called(f, i, name);
        assert(whereexpr::named_like(p[i], name));
    }
    if has_equal(f, name, value) {
        let i = choose|i: int|
            #[trigger] property_called(f, i, name) && text::lowered(f.props@[i].1@) == text::lowered(value);
        assert(whereexpr::named_like(p[i], name));
    }
    if has_part(f, name, value) {
        let i = choose|i: int|
            #[trigger] property_called(f, i, name) && stands_in(
                text::lowered(value),
                text::lowered(f.props@[i].1@),
            );
        assert(whereexpr::named_like(p[i], name));
    }
}

proof fn lemma_operator(name: Seq<char>, op: Seq<char>, value: Seq<char>, i: int)
    requires
        can_name(name),
        0 <= i <= name.len(),
        op == seq!['='] || op == seq!['~'] || op == seq!['!', '='] || op == seq!['!', '~'],
    ensures
        whereexpr::op_from(name + op + value, i) == Some(name.len() as int),
    decreases name.len() - i,
{
    let e = name + op + value;
    if i < name.len() {
        assert(e[i] == name[i]);
        assert(name.contains(name[i]));
        lemma_operator(name, op, value, i + 1);
    } else {
        assert(e[i] == op[0]);
        if op.len() == 2 {
            assert(e[i + 1] == op[1]);
        }
    }
}

spec fn markless(s: Seq<char>) -> bool {
    forall|i: int| 0 <= i < s.len() ==> (#[trigger] s[i]) != '=' && s[i] != '~' && s[i] != ':'
}

/// A text in which one of these characters stands is no word for a condition.
proof fn lemma_no_word(e: Seq<char>, k: int)
    requires
        0 <= k < e.len(),
        e[k] == '=' || e[k] == '~' || e[k] == ':',
    ensures
        whereexpr::word_condition(text::lowered(e)) is None,
{
    reveal_strlit("has-gps");
    reveal_strlit("gps");
    reveal_strlit("no-gps");
    reveal_strlit("has-date");
    reveal_strlit("date");
    reveal_strlit("no-date");
    reveal_strlit("has-xmp");
    reveal_strlit("xmp");
    reveal_strlit("no-xmp");
    let l = text::lowered(e);
    assert(l[k] == e[k]);
    assert(markless("has-gps"@));
    assert(markless("gps"@));
    assert(markless("no-gps"@));
    assert(markless("has-date"@));
    assert(markless("date"@));
    assert(markless("no-date"@));
    assert(markless("has-xmp"@));
    assert(markless("xmp"@));
    assert(markless("no-xmp"@));
    assert(!markless(l));
}

proof fn lemma_no_prefix(name: Seq<char>, op: Seq<char>, value: Seq<char>)
    requires
        can_name(name),
        op.len() > 0,
        op[0] == '=' || op[0] == '~' || op[0] == '!',
    ensures
        whereexpr::after_prefix(name + op + value, "has:"@) is None,
        whereexpr::after_prefix(name + op + value, "no:"@) is None,
{
    reveal_strlit("has:");
    reveal_strlit("no:");
    let e = name + op + value;
    let l = text::lowered(e);
    let n = name.len() as int;
    assert(e[n] == op[0] && l[n] == text::lower(e[n]));
    assert forall|i: int| 0 <= i < n implies (#[trigger] l[i]) != ':' by {
        assert(e[i] == name[i] && name.contains(name[i]));
        assert(l[i] == text::lower(e[i]));
    }
    if text::has_prefix(l, "has:"@) {
        let h = l.subrange(0, 4);
        assert(h[0] == l[0] && h[1] == l[1] && h[2] == l[2] && h[3] == l[3]);
        assert(l[0] == 'h' && l[1] == 'a' && l[2] == 's' && l[3] == ':');
        assert(false);
    }
    if text::has_prefix(l, "no:"@) {
        let h = l.subrange(0, 3);
        assert(h[0] == l[0] && h[1] == l[1] && h[2] == l[2]);
        assert(l[0] == 'n' && l[1] == 'o' && l[2] == ':');
        assert(false);
    }
}

proof fn lemma_compared(name: Seq<char>, op: Seq<char>, what: Op, value: Seq<char>)
    requires
        can_name(name),
        textlaws::is_trimmed(value),
        (op == seq!['='] && what == Op::Eq) || (op == seq!['~'] && what == Op::Contains) || (op == seq!['!', '=']
            && what == Op::Ne) || (op == seq!['!', '~'] && what == Op::NotContains),
    ensures
        whereexpr::condition_of(name + op + value) == Ok::<ConditionView, whereexpr::WhereError>(
            ConditionView::Tag(name, what, value),
        ),
{
    let e = name + op + value;
    let n = name.len() as int;
    assert(e[0] == name[0]);
    assert(e.last() == if value.len() > 0 { value.last() } else { op.last() });
    textlaws::lemma_trimmed_same(e);
    textlaws::lemma_trimmed_same(name);
    textlaws::lemma_trimmed_same(value);
    assert(e[n] == op[0]);
    if op.len() == 2 {
        assert(e[n + 1] == op[1]);
        lemma_no_word(e, n + 1);
    } else {
        lemma_no_word(e, n);
    }
    lemma_no_prefix(name, op, value);
    lemma_operator(name, op, value, 0);
    assert(e.take(n) =~= name);
    assert(e.skip(n + op.len()) =~= value);
}

/// A name, a mark and a value ask whether the file has a property of that name with that value (`=`)
/// or with a value in which it stands (`~`); with `!` in front of the mark they ask whether it has
/// none.
pub proof fn comparisons_ask_for_values(name: Seq<char>, value: Seq<char>, f: FileFacts)
    requires
        can_name(name),
        textlaws::is_trimmed(value),
    ensures
        asks(name + "="@ + value, f, has_equal(f, name, value)),
        asks(name + "!="@ + value, f, !has_equal(f, name, value)),
        asks(name + "~"@ + value, f, has_part(f, name, value)),
        asks(name + "!~"@ + value, f, !has_part(f, name, value)),
{
    reveal_strlit("=");
    reveal_strlit("!=");
    reveal_strlit("~");
    reveal_strlit("!~");
    assert("="@ =~= seq!['='] && "!="@ =~= seq!['!', '='] && "~"@ =~= seq!['~'] && "!~"@ =~= seq!['!', '~']);
    lemma_compared(name, "="@, Op::Eq, value);
    lemma_compared(name, "!="@, Op::Ne, value);
    lemma_compared(name, "~"@, Op::Contains, value);
    lemma_compared(name, "!~"@, Op::NotContains, value);
    lemma_named(f, name, value);
}

/// `has:` and `no:` ask whether the file has a property of the name behind them.
pub proof fn presence_is_asked(name: Seq<char>, f: FileFacts)
    requires
        name.len() > 0,
        textlaws::is_trimmed(name),
    ensures
        asks("has:"@ + name, f, exists|i: int| property_called(f, i, name)),
        asks("no:"@ + name, f, !exists|i: int| property_called(f, i, name)),
{
    reveal_strlit("has:");
    reveal_strlit("no:");
    lemma_named(f, name, name);
    textlaws::lemma_trimmed_same(name);
    let h = "has:"@ + name;
    assert(h[0] == 'h' && h.last() == name.last());
    textlaws::lemma_trimmed_same(h);
    assert(h[3] == ':');
    lemma_no_word(h, 3);
    let l = text::lowered(h);
    assert(l.subrange(0, 4) =~= "has:"@);
    assert(h.skip(4) =~= name);
    let g = "no:"@ + name;
    assert(g[0] == 'n' && g.last() == name.last());
    textlaws::lemma_trimmed_same(g);
    assert(g[2] == ':');
    lemma_no_word(g, 2);
    let m = text::lowered(g);
    assert(m.subrange(0, 3) =~= "no:"@);
    assert(m[0] == 'n');
    if text::has_prefix(m, "has:"@) {
        assert(m.subrange(0, 4)[0] == 'h');
    }
    assert(g.skip(3) =~= name);
}

/// The words ask whether the file has a position, a capture time or an XMP packet, whatever their
/// case and the space around them.
pub proof fn words_ask_for_facts(expr: Seq<char>, f: FileFacts)
    ensures
        text::lowered(text::trimmed(expr)) == "has-gps"@ ==> asks(expr, f, f.gps),
        text::lowered(text::trimmed(expr)) == "gps"@ ==> asks(expr, f, f.gps),
        text::lowered(text::trimmed(expr)) == "no-gps"@ ==> asks(expr, f, !f.gps),
        text::lowered(text::trimmed(expr)) == "has-date"@ ==> asks(expr, f, f.date),
        text::lowered(text::trimmed(expr)) == "date"@ ==> asks(expr, f, f.date),
        text::lowered(text::trimmed(expr)) == "no-date"@ ==> asks(expr, f, !f.date),
        text::lowered(text::trimmed(expr)) == "has-xmp"@ ==> asks(expr, f, f.xmp),
        text::lowered(text::trimmed(expr)) == "xmp"@ ==> asks(expr, f, f.xmp),
        text::lowered(text::trimmed(expr)) == "no-xmp"@ ==> asks(expr, f, !f.xmp),
        text::trimmed(expr).len() == 0 ==> whereexpr::condition_of(expr) == Err::<
            ConditionView,
            whereexpr::WhereError,
        >(whereexpr::WhereError::Empty),
{
    reveal_strlit("has-gps");
    reveal_strlit("gps");
    reveal_strlit("no-gps");
    reveal_strlit("has-date");
    reveal_strlit("date");
    reveal_strlit("no-date");
    reveal_strlit("has-xmp");
    reveal_strlit("xmp");
    reveal_strlit("no-xmp");
    assert("has-gps"@[4] == 'g' && "has-xmp"@[4] == 'x' && "gps"@[0] == 'g' && "xmp"@[0] == 'x');
    assert("no-gps"@[3] == 'g' && "no-xmp"@[3] == 'x');
    assert("no-date"@.len() == 7 && "no-date"@[0] == 'n' && "has-gps"@[0] == 'h' && "has-xmp"@[0] == 'h');
    assert(text::lowered(text::trimmed(expr)).len() == text::trimmed(expr).len());
}

proof fn lemma_mark_place(a: Seq<char>, m: char, b: Seq<char>, from: int)
    requires
        !a.contains(m),
        0 <= from <= a.len(),
    ensures
        text::find_from(a + seq![m, m] + b, from, seq![m, m]) == Some(a.len() as int),
    decreases a.len() - from,
{
    let s = a + seq![m, m] + b;
    let mark = seq![m, m];
    if from < a.len() {
        assert(s[from] == a[from] && a.contains(a[from]));
        if text::occurs_at(s, from, mark) {
            assert(s.subrange(from, from + 2)[0] == s[from]);
            assert(false);
        }
        lemma_mark_place(a, m, b, from + 1);
    } else {
        assert(s.subrange(from, from + 2) =~= mark);
    }
}

proof fn lemma_no_mark(s: Seq<char>, m: char, from: int)
    requires
        0 <= from,
        forall|i: int| from <= i < s.len() ==> (#[trigger] s[i]) != m,
    ensures
        text::find_from(s, from, seq![m, m]) is None,
    decreases s.len() - from + 1,
{
    let mark = seq![m, m];
    if from + 2 <= s.len() {
        if text::occurs_at(s, from, mark) {
            assert(s.subrange(from, from + 2)[0] == s[from]);
            assert(false);
        }
        lemma_no_mark(s, m, from + 1);
    }
}

proof fn lemma_two_parts(a: Seq<char>, m: char, b: Seq<char>)
    requires
        !a.contains(m),
        !b.contains(m),
    ensures
        whereexpr::parts_from(a + seq![m, m] + b, seq![m, m], 0) == seq![a, b],
        whereexpr::parts_from(a, seq![m, m], 0) == seq![a],
{
    let s = a + seq![m, m] + b;
    let mark = seq![m, m];
    lemma_mark_place(a, m, b, 0);
    let n = a.len() + 2;
    assert forall|i: int| n <= i < s.len() implies (#[trigger] s[i]) != m by {
        assert(s[i] == b[i - n]);
        assert(b.contains(b[i - n]));
    }
    lemma_no_mark(s, m, n as int);
    assert(s.subrange(0, a.len() as int) =~= a);
    assert(s.skip(n as int) =~= b);
    assert(whereexpr::parts_from(s, mark, n as int) =~= seq![b]);
    assert(seq![a] + seq![b] =~= seq![a, b]);
    assert forall|i: int| 0 <= i < a.len() implies (#[trigger] a[i]) != m by {
        assert(a.contains(a[i]));
    }
    lemma_no_mark(a, m, 0);
    assert(a.skip(0) =~= a);
}

/// Two conditions with `&&` between them hold if both do, and with `||` between them if one does.
pub proof fn marks_join_conditions(a: Seq<char>, b: Seq<char>, f: FileFacts)
    requires
        !a.contains('&') && !a.contains('|'),
        !b.contains('&') && !b.contains('|'),
        whereexpr::condition_of(a) is Ok,
        whereexpr::condition_of(b) is Ok,
    ensures
        ({
            let (c, d) = (whereexpr::condition_of(a)->Ok_0, whereexpr::condition_of(b)->Ok_0);
            &&& whereexpr::expr_of(a + "&&"@ + b) matches Ok(x) && whereexpr::expr_holds(x, f) == (whereexpr::holds(
                c,
                f,
            ) && whereexpr::holds(d, f))
            &&& whereexpr::expr_of(a + "||"@ + b) matches Ok(x) && whereexpr::expr_holds(x, f) == (whereexpr::holds(
                c,
                f,
            ) || whereexpr::holds(d, f))
        }),
{
    reveal_strlit("&&");
    reveal_strlit("||");
    assert("&&"@ =~= seq!['&', '&'] && "||"@ =~= seq!['|', '|']);
    let (c, d) = (whereexpr::condition_of(a)->Ok_0, whereexpr::condition_of(b)->Ok_0);
    lemma_two_parts(a, '&', b);
    lemma_two_parts(b, '&', a);
    lemma_two_parts(a, '|', b);
    let both = a + "&&"@ + b;
    let e = Seq::<char>::empty();
    assert(!both.contains('|')) by {
        if both.contains('|') {
            let i = choose|i: int| 0 <= i < both.len() && both[i] == '|';
            if i < a.len() {
                assert(a.contains(a[i]));
            } else if i >= a.len() + 2 {
                assert(b.contains(b[i - a.len() - 2]));
            }
        }
    }
    assert(!e.contains('|'));
    lemma_two_parts(both, '|', e);
    reveal_with_fuel(whereexpr::group_of, 3);
    reveal_with_fuel(whereexpr::groups_of, 3);
    let none = Seq::<ConditionView>::empty();
    let g = none.push(c).push(d);
    assert(whereexpr::group_of(seq![a, b], 2) == Ok::<Seq<ConditionView>, Seq<char>>(g));
    let x = Seq::<Seq<ConditionView>>::empty().push(g);
    assert(whereexpr::expr_of(both) == Ok::<Seq<Seq<ConditionView>>, Seq<char>>(x));
    assert(x[0] == g && g[0] == c && g[1] == d);
    assert(whereexpr::all_hold(g, f) == (whereexpr::holds(c, f) && whereexpr::holds(d, f)));
    assert(whereexpr::expr_holds(x, f) == whereexpr::all_hold(x[0], f));
    let (p, q) = (none.push(c), none.push(d));
    assert(whereexpr::group_of(seq![a], 1) == Ok::<Seq<ConditionView>, Seq<char>>(p));
    assert(whereexpr::group_of(seq![b], 1) == Ok::<Seq<ConditionView>, Seq<char>>(q));
    let y = Seq::<Seq<ConditionView>>::empty().push(p).push(q);
    assert(whereexpr::expr_of(a + "||"@ + b) == Ok::<Seq<Seq<ConditionView>>, Seq<char>>(y));
    assert(y[0] == p && y[1] == q && p[0] == c && q[0] == d);
    assert(whereexpr::all_hold(p, f) == whereexpr::holds(c, f));
    assert(whereexpr::all_hold(q, f) == whereexpr::holds(d, f));
    assert(whereexpr::expr_holds(y, f) == (whereexpr::all_hold(y[0], f) || whereexpr::all_hold(y[1], f)));
}

} // verus!
