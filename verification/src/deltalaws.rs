//! What holds of reading offsets: of their sign, of several in a row, and of upper and lower case.

use vstd::prelude::*;
use vstd::string::*;
use crate::text;
use crate::textlaws;
use crate::timeop;
use crate::timeop::{Delta, DeltaErrorView};

verus! {

/// The sums that a text gives, without a sign in front.
spec fn sums(s: Seq<char>) -> Result<(int, int, int), DeltaErrorView> {
    timeop::sums_from(s, 0, (0, 0, 0), false)
}

proof fn lemma_digits_suffix(a: Seq<char>, t: Seq<char>, j: int)
    requires
        0 <= j <= t.len(),
    ensures
        timeop::digits_end(a + t, a.len() + j) == a.len() + timeop::digits_end(t, j),
        timeop::letters_end(a + t, a.len() + j) == a.len() + timeop::letters_end(t, j),
    decreases t.len() - j,
{
    if j < t.len() {
        assert((a + t)[a.len() + j] == t[j]);
        lemma_digits_suffix(a, t, j + 1);
    }
}

/// What stands in front does not matter to what is read from behind it.
proof fn lemma_suffix(a: Seq<char>, t: Seq<char>, j: int, x: (int, int, int), any: bool)
    requires
        0 <= j <= t.len(),
    ensures
        timeop::sums_from(a + t, a.len() + j, x, any) == timeop::sums_from(t, j, x, any),
    decreases t.len() - j,
{
    let b = a + t;
    let n = a.len() as int;
    if j < t.len() {
        assert(b[n + j] == t[j]);
        if text::is_space(t[j]) {
            lemma_suffix(a, t, j + 1, x, any);
        } else {
            let number_end = timeop::digits_end(t, j);
            timeop::lemma_ends(t, j);
            lemma_digits_suffix(a, t, j);
            lemma_digits_suffix(a, t, number_end);
            timeop::lemma_ends(t, number_end);
            let unit_end = timeop::letters_end(t, number_end);
            assert(b.subrange(n + j, n + number_end) =~= t.subrange(j, number_end));
            assert(b.subrange(n + number_end, n + unit_end) =~= t.subrange(number_end, unit_end));
            let value = text::digits_value(t.subrange(j, number_end));
            match timeop::unit_of(text::lowered(t.subrange(number_end, unit_end))) {
                Some(one) => {
                    if number_end > j {
                        lemma_suffix(
                            a,
                            t,
                            unit_end,
                            (x.0 + value * one.0, x.1 + value * one.1, x.2 + value * one.2),
                            true,
                        );
                    }
                },
                None => {},
            }
        }
    }
}

proof fn lemma_digits_prefix(s: Seq<char>, t: Seq<char>, i: int)
    requires
        0 <= i <= s.len(),
    ensures
        (t.len() == 0 || !text::is_digit(t[0]) || timeop::digits_end(s, i) < s.len()) ==> timeop::digits_end(s + t, i)
            == timeop::digits_end(s, i),
        (t.len() == 0 || !timeop::is_letter(t[0])) ==> timeop::letters_end(s + t, i) == timeop::letters_end(s, i),
    decreases s.len() - i,
{
    if i < s.len() {
        assert((s + t)[i] == s[i]);
        lemma_digits_prefix(s, t, i + 1);
        timeop::lemma_ends(s, i);
    } else if t.len() > 0 {
        assert((s + t)[i] == t[0]);
    }
}

proof fn lemma_spaces_read(s: Seq<char>, i: int, x: (int, int, int), any: bool)
    requires
        0 <= i <= s.len(),
        forall|k: int| i <= k < s.len() ==> text::is_space(#[trigger] s[k]),
    ensures
        timeop::sums_from(s, i, x, any) == timeop::sums_from(s, s.len() as int, x, any),
    decreases s.len() - i,
{
    if i < s.len() {
        lemma_spaces_read(s, i + 1, x, any);
    }
}

/// White space behind does not matter.
proof fn lemma_space_behind(s: Seq<char>, w: Seq<char>, i: int, x: (int, int, int), any: bool)
    requires
        0 <= i <= s.len(),
        textlaws::all_space(w),
    ensures
        timeop::sums_from(s + w, i, x, any) == timeop::sums_from(s, i, x, any),
    decreases s.len() - i,
{
    let b = s + w;
    if i == s.len() {
        assert forall|k: int| i <= k < b.len() implies text::is_space(#[trigger] b[k]) by {
            assert(b[k] == w[k - s.len()]);
        }
        lemma_spaces_read(b, i, x, any);
    } else {
        assert(b[i] == s[i]);
        if text::is_space(s[i]) {
            lemma_space_behind(s, w, i + 1, x, any);
        } else {
            let number_end = timeop::digits_end(s, i);
            timeop::lemma_ends(s, i);
            timeop::lemma_ends(s, number_end);
            let unit_end = timeop::letters_end(s, number_end);
            assert(w.len() > 0 ==> text::is_space(w[0]));
            lemma_digits_prefix(s, w, i);
            lemma_digits_prefix(s, w, number_end);
            assert(b.subrange(i, number_end) =~= s.subrange(i, number_end));
            assert(b.subrange(number_end, unit_end) =~= s.subrange(number_end, unit_end));
            let value = text::digits_value(s.subrange(i, number_end));
            match timeop::unit_of(text::lowered(s.subrange(number_end, unit_end))) {
                Some(one) => {
                    if number_end > i {
                        lemma_space_behind(
                            s,
                            w,
                            unit_end,
                            (x.0 + value * one.0, x.1 + value * one.1, x.2 + value * one.2),
                            true,
                        );
                    }
                },
                None => {},
            }
        }
    }
}

proof fn lemma_space_before(w: Seq<char>, s: Seq<char>, i: int)
    requires
        0 <= i <= w.len(),
        textlaws::all_space(w),
    ensures
        timeop::sums_from(w + s, i, (0, 0, 0), false) == sums(s),
    decreases w.len() - i,
{
    if i == w.len() {
        lemma_suffix(w, s, 0, (0, 0, 0), false);
    } else {
        assert((w + s)[i] == w[i]);
        lemma_space_before(w, s, i + 1);
    }
}

/// White space around does not matter.
proof fn lemma_space_around(s: Seq<char>)
    ensures
        sums(s) == sums(text::trimmed(s)),
{
    let (w, v) = textlaws::lemma_trimmed_parts(s);
    let m = text::trimmed(s);
    lemma_space_behind(w + m, v, 0, (0, 0, 0), false);
    lemma_space_before(w, m, 0);
}

/// There is no unit without letters.
proof fn lemma_empty_unit(u: Seq<char>)
    requires
        u.len() == 0,
    ensures
        timeop::unit_of(u) is None,
{
    reveal_strlit("y");
    reveal_strlit("yr");
    reveal_strlit("yrs");
    reveal_strlit("year");
    reveal_strlit("years");
    reveal_strlit("mo");
    reveal_strlit("mon");
    reveal_strlit("month");
    reveal_strlit("months");
    reveal_strlit("w");
    reveal_strlit("wk");
    reveal_strlit("week");
    reveal_strlit("weeks");
    reveal_strlit("d");
    reveal_strlit("day");
    reveal_strlit("days");
    reveal_strlit("h");
    reveal_strlit("hr");
    reveal_strlit("hrs");
    reveal_strlit("hour");
    reveal_strlit("hours");
    reveal_strlit("m");
    reveal_strlit("min");
    reveal_strlit("mins");
    reveal_strlit("minute");
    reveal_strlit("minutes");
    reveal_strlit("s");
    reveal_strlit("sec");
    reveal_strlit("secs");
    reveal_strlit("second");
    reveal_strlit("seconds");
}

proof fn lemma_unit_parts(u: Seq<char>)
    ensures
        timeop::unit_of(u) matches Some(one) ==> 0 <= one.0 && 0 <= one.1 && 0 <= one.2,
{
}

/// A text that can be read is read to its end where another stands behind it.
proof fn lemma_first_text(s: Seq<char>, t: Seq<char>, i: int, x: (int, int, int), any: bool)
    requires
        0 <= i <= s.len(),
        t.len() == 0 || !timeop::is_letter(t[0]),
        timeop::sums_from(s, i, x, any) is Ok,
    ensures
        timeop::sums_from(s + t, i, x, any) == timeop::sums_from(
            s + t,
            s.len() as int,
            timeop::sums_from(s, i, x, any)->Ok_0,
            true,
        ),
    decreases s.len() - i,
{
    let b = s + t;
    if i < s.len() {
        assert(b[i] == s[i]);
        if text::is_space(s[i]) {
            lemma_first_text(s, t, i + 1, x, any);
        } else {
            let number_end = timeop::digits_end(s, i);
            timeop::lemma_ends(s, i);
            timeop::lemma_ends(s, number_end);
            let unit_end = timeop::letters_end(s, number_end);
            let unit = text::lowered(s.subrange(number_end, unit_end));
            if unit_end == number_end {
                lemma_empty_unit(unit);
            }
            lemma_digits_prefix(s, t, i);
            lemma_digits_prefix(s, t, number_end);
            assert(b.subrange(i, number_end) =~= s.subrange(i, number_end));
            assert(b.subrange(number_end, unit_end) =~= s.subrange(number_end, unit_end));
            let value = text::digits_value(s.subrange(i, number_end));
            let one = timeop::unit_of(unit)->0;
            lemma_first_text(
                s,
                t,
                unit_end,
                (x.0 + value * one.0, x.1 + value * one.1, x.2 + value * one.2),
                true,
            );
        }
    }
}

/// What was met before is added to what is met.
proof fn lemma_shifted(s: Seq<char>, i: int, x: (int, int, int), any: bool, z: (int, int, int))
    requires
        0 <= i <= s.len(),
        0 <= z.0,
        0 <= z.1,
        0 <= z.2,
        timeop::sums_from(s, i, x, any) is Ok,
        ({
            let y = timeop::sums_from(s, i, x, any)->Ok_0;
            y.0 + z.0 <= i64::MAX && y.1 + z.1 <= i64::MAX && y.2 + z.2 <= i64::MAX
        }),
    ensures
        ({
            let y = timeop::sums_from(s, i, x, any)->Ok_0;
            &&& x.0 <= y.0 && x.1 <= y.1 && x.2 <= y.2
            &&& timeop::sums_from(s, i, (x.0 + z.0, x.1 + z.1, x.2 + z.2), true) == Ok::<_, DeltaErrorView>(
                (y.0 + z.0, y.1 + z.1, y.2 + z.2),
            )
        }),
    decreases s.len() - i,
{
    if i < s.len() {
        if text::is_space(s[i]) {
            lemma_shifted(s, i + 1, x, any, z);
        } else {
            let number_end = timeop::digits_end(s, i);
            timeop::lemma_ends(s, i);
            timeop::lemma_ends(s, number_end);
            let unit_end = timeop::letters_end(s, number_end);
            let unit = text::lowered(s.subrange(number_end, unit_end));
            lemma_unit_parts(unit);
            let value = text::digits_value(s.subrange(i, number_end));
            let one = timeop::unit_of(unit)->0;
            assert(0 <= value * one.0 && 0 <= value * one.1 && 0 <= value * one.2) by (nonlinear_arith)
                requires
                    0 <= value,
                    0 <= one.0,
                    0 <= one.1,
                    0 <= one.2,
            ;
            let next = (x.0 + value * one.0, x.1 + value * one.1, x.2 + value * one.2);
            lemma_shifted(s, unit_end, next, true, z);
        }
    }
}

/// Whether a text holds no sign.
pub open spec fn unsigned(s: Seq<char>) -> bool {
    forall|i: int| 0 <= i < s.len() ==> (#[trigger] s[i]) != '+' && s[i] != '-'
}

/// The offset back by as much.
pub open spec fn negated(d: Delta) -> Delta {
    Delta { months: (-d.months) as i64, days: (-d.days) as i64, seconds: (-d.seconds) as i64 }
}

/// What an unsigned text gives.
proof fn lemma_unsigned(s: Seq<char>)
    requires
        unsigned(s),
    ensures
        match timeop::delta_of(s) {
            Ok(d) => sums(s) == Ok::<_, DeltaErrorView>((d.months as int, d.days as int, d.seconds as int)) && d.months
                >= 0 && d.days >= 0 && d.seconds >= 0 && text::trimmed(s).len() > 0,
            Err(_) => sums(s) is Err,
        },
        sums(s) matches Ok(y) ==> 0 <= y.0 <= i64::MAX && 0 <= y.1 <= i64::MAX && 0 <= y.2 <= i64::MAX,
{
    let m = text::trimmed(s);
    let (w, v) = textlaws::lemma_trimmed_parts(s);
    lemma_space_around(s);
    if m.len() > 0 {
        assert(s[w.len() as int] == m[0]);
    }
    if sums(s) is Ok {
        lemma_bounded(s, 0, (0, 0, 0), false);
        lemma_grows(s, 0, (0, 0, 0), false);
    }
}

proof fn lemma_grows(s: Seq<char>, i: int, x: (int, int, int), any: bool)
    requires
        0 <= i <= s.len(),
        timeop::sums_from(s, i, x, any) is Ok,
    ensures
        ({
            let y = timeop::sums_from(s, i, x, any)->Ok_0;
            x.0 <= y.0 && x.1 <= y.1 && x.2 <= y.2
        }),
    decreases s.len() - i,
{
    if i < s.len() {
        if text::is_space(s[i]) {
            lemma_grows(s, i + 1, x, any);
        } else {
            let number_end = timeop::digits_end(s, i);
            timeop::lemma_ends(s, i);
            timeop::lemma_ends(s, number_end);
            let unit_end = timeop::letters_end(s, number_end);
            let unit = text::lowered(s.subrange(number_end, unit_end));
            lemma_unit_parts(unit);
            let value = text::digits_value(s.subrange(i, number_end));
            let one = timeop::unit_of(unit)->0;
            assert(0 <= value * one.0 && 0 <= value * one.1 && 0 <= value * one.2) by (nonlinear_arith)
                requires
                    0 <= value,
                    0 <= one.0,
                    0 <= one.1,
                    0 <= one.2,
            ;
            lemma_grows(s, unit_end, (x.0 + value * one.0, x.1 + value * one.1, x.2 + value * one.2), true);
        }
    }
}

proof fn lemma_bounded(s: Seq<char>, i: int, x: (int, int, int), any: bool)
    requires
        0 <= i <= s.len(),
        x.0 <= i64::MAX,
        x.1 <= i64::MAX,
        x.2 <= i64::MAX,
        timeop::sums_from(s, i, x, any) is Ok,
    ensures
        ({
            let y = timeop::sums_from(s, i, x, any)->Ok_0;
            y.0 <= i64::MAX && y.1 <= i64::MAX && y.2 <= i64::MAX
        }),
    decreases s.len() - i,
{
    if i < s.len() {
        if text::is_space(s[i]) {
            lemma_bounded(s, i + 1, x, any);
        } else {
            let number_end = timeop::digits_end(s, i);
            timeop::lemma_ends(s, i);
            timeop::lemma_ends(s, number_end);
            let unit_end = timeop::letters_end(s, number_end);
            let unit = text::lowered(s.subrange(number_end, unit_end));
            let value = text::digits_value(s.subrange(i, number_end));
            let one = timeop::unit_of(unit)->0;
            lemma_bounded(s, unit_end, (x.0 + value * one.0, x.1 + value * one.1, x.2 + value * one.2), true);
        }
    }
}

proof fn lemma_signed(sign: char, s: Seq<char>)
    requires
        sign == '+' || sign == '-',
        text::trimmed(s).len() > 0,
    ensures
        ({
            let q = text::trimmed(seq![sign] + s);
            q.len() > 0 && q[0] == sign && sums(q.drop_first()) == sums(s)
        }),
{
    let m = text::trimmed(s);
    let (w, v) = textlaws::lemma_trimmed_parts(s);
    let q = seq![sign] + (w + m);
    let none = Seq::<char>::empty();
    assert(seq![sign] + s =~= none + q + v);
    assert(textlaws::all_space(none));
    textlaws::lemma_trimmed_around(none, q, v);
    assert(q.last() == m.last());
    textlaws::lemma_trimmed_same(q);
    assert(q.drop_first() =~= w + m);
    lemma_space_before(w, m, 0);
    lemma_space_around(s);
}

/// A plus in front of an offset changes nothing, and a minus turns it round.
pub proof fn signs_of_offsets(s: Seq<char>)
    requires
        unsigned(s),
        timeop::delta_of(s) is Ok,
    ensures
        timeop::delta_of(seq!['+'] + s) == timeop::delta_of(s),
        timeop::delta_of(seq!['-'] + s) == Ok::<_, DeltaErrorView>(negated(timeop::delta_of(s)->Ok_0)),
{
    lemma_unsigned(s);
    lemma_signed('+', s);
    lemma_signed('-', s);
}

proof fn lemma_joined(s: Seq<char>, t: Seq<char>)
    requires
        unsigned(s),
        unsigned(t),
        timeop::delta_of(s) is Ok,
        timeop::delta_of(t) is Ok,
        ({
            let a = timeop::delta_of(s)->Ok_0;
            let b = timeop::delta_of(t)->Ok_0;
            a.months + b.months <= i64::MAX && a.days + b.days <= i64::MAX && a.seconds + b.seconds <= i64::MAX
        }),
    ensures
        ({
            let a = timeop::delta_of(s)->Ok_0;
            let b = timeop::delta_of(t)->Ok_0;
            timeop::delta_of(s + t) == Ok::<_, DeltaErrorView>(
                Delta {
                    months: (a.months + b.months) as i64,
                    days: (a.days + b.days) as i64,
                    seconds: (a.seconds + b.seconds) as i64,
                },
            )
        }),
{
    lemma_unsigned(s);
    lemma_unsigned(t);
    let a = timeop::delta_of(s)->Ok_0;
    let x = (a.months as int, a.days as int, a.seconds as int);
    if t.len() > 0 && timeop::is_letter(t[0]) {
        assert(timeop::digits_end(t, 0) == 0);
        assert(!text::is_space(t[0]));
        assert(sums(t) is Err);
    }
    lemma_first_text(s, t, 0, (0, 0, 0), false);
    lemma_suffix(s, t, 0, x, true);
    lemma_shifted(t, 0, (0, 0, 0), false, x);
    assert(timeop::sums_from(t, 0, (0 + x.0, 0 + x.1, 0 + x.2), true) is Ok);
    assert(unsigned(s + t)) by {
        assert forall|i: int| 0 <= i < (s + t).len() implies (#[trigger] (s + t)[i]) != '+' && (s + t)[i] != '-' by {
            if i < s.len() {
                assert((s + t)[i] == s[i]);
            } else {
                assert((s + t)[i] == t[i - s.len()]);
            }
        }
    }
    lemma_unsigned(s + t);
}

/// Two offsets one behind the other are their sum, in either order.
pub proof fn offsets_add_up(s: Seq<char>, t: Seq<char>)
    requires
        unsigned(s),
        unsigned(t),
        timeop::delta_of(s) is Ok,
        timeop::delta_of(t) is Ok,
        ({
            let a = timeop::delta_of(s)->Ok_0;
            let b = timeop::delta_of(t)->Ok_0;
            a.months + b.months <= i64::MAX && a.days + b.days <= i64::MAX && a.seconds + b.seconds <= i64::MAX
        }),
    ensures
        ({
            let a = timeop::delta_of(s)->Ok_0;
            let b = timeop::delta_of(t)->Ok_0;
            timeop::delta_of(s + t) == Ok::<_, DeltaErrorView>(
                Delta {
                    months: (a.months + b.months) as i64,
                    days: (a.days + b.days) as i64,
                    seconds: (a.seconds + b.seconds) as i64,
                },
            )
        }),
        timeop::delta_of(t + s) == timeop::delta_of(s + t),
{
    lemma_joined(s, t);
    lemma_joined(t, s);
}

/// Whether two texts differ at most in the case of ASCII letters.
pub open spec fn same_but_case(s: Seq<char>, t: Seq<char>) -> bool {
    text::lowered(s) == text::lowered(t)
}

proof fn lemma_case_at(s: Seq<char>, t: Seq<char>, i: int)
    requires
        same_but_case(s, t),
        0 <= i < s.len(),
    ensures
        s.len() == t.len(),
        text::is_space(s[i]) == text::is_space(t[i]),
        text::is_digit(s[i]) == text::is_digit(t[i]),
        timeop::is_letter(s[i]) == timeop::is_letter(t[i]),
        text::is_digit(s[i]) ==> s[i] == t[i],
        s[i] == '-' <==> t[i] == '-',
        s[i] == '+' <==> t[i] == '+',
{
    assert(text::lowered(s).len() == s.len() && text::lowered(t).len() == t.len());
    assert(text::lowered(s)[i] == text::lower(s[i]));
    assert(text::lowered(t)[i] == text::lower(t[i]));
    textlaws::lemma_lower(s[i]);
    textlaws::lemma_lower(t[i]);
}

proof fn lemma_case_ends(s: Seq<char>, t: Seq<char>, i: int)
    requires
        same_but_case(s, t),
        0 <= i <= s.len(),
    ensures
        s.len() == t.len(),
        timeop::digits_end(s, i) == timeop::digits_end(t, i),
        timeop::letters_end(s, i) == timeop::letters_end(t, i),
    decreases s.len() - i,
{
    assert(text::lowered(s).len() == s.len() && text::lowered(t).len() == t.len());
    if i < s.len() {
        lemma_case_at(s, t, i);
        lemma_case_ends(s, t, i + 1);
    }
}

proof fn lemma_case(s: Seq<char>, t: Seq<char>, i: int, x: (int, int, int), any: bool)
    requires
        same_but_case(s, t),
        0 <= i <= s.len(),
        timeop::sums_from(s, i, x, any) is Ok,
    ensures
        timeop::sums_from(t, i, x, any) == timeop::sums_from(s, i, x, any),
    decreases s.len() - i,
{
    lemma_case_ends(s, t, i);
    if i < s.len() {
        lemma_case_at(s, t, i);
        if text::is_space(s[i]) {
            lemma_case(s, t, i + 1, x, any);
        } else {
            let number_end = timeop::digits_end(s, i);
            timeop::lemma_ends(s, i);
            timeop::lemma_ends(s, number_end);
            lemma_case_ends(s, t, number_end);
            let unit_end = timeop::letters_end(s, number_end);
            let number = s.subrange(i, number_end);
            assert forall|k: int| 0 <= k < number.len() implies number[k] == #[trigger] t.subrange(i, number_end)[k] by {
                lemma_case_at(s, t, i + k);
                assert(text::is_digit(number[k]));
            }
            assert(number =~= t.subrange(i, number_end));
            let unit = text::lowered(s.subrange(number_end, unit_end));
            assert(unit =~= text::lowered(s).subrange(number_end, unit_end));
            assert(text::lowered(t.subrange(number_end, unit_end)) =~= text::lowered(t).subrange(
                number_end,
                unit_end,
            ));
            let value = text::digits_value(number);
            let one = timeop::unit_of(unit)->0;
            lemma_case(s, t, unit_end, (x.0 + value * one.0, x.1 + value * one.1, x.2 + value * one.2), true);
        }
    }
}

/// Case does not matter to an offset.
pub proof fn case_of_offsets(s: Seq<char>, t: Seq<char>)
    requires
        same_but_case(s, t),
        timeop::delta_of(s) is Ok,
    ensures
        timeop::delta_of(t) == timeop::delta_of(s),
{
    let p = text::trimmed(s);
    let q = text::trimmed(t);
    textlaws::lemma_trimmed_lowered(s);
    textlaws::lemma_trimmed_lowered(t);
    assert(same_but_case(p, q));
    lemma_case_at(p, q, 0);
    if p[0] == '-' || p[0] == '+' {
        assert(text::lowered(p.drop_first()) =~= text::lowered(p).drop_first());
        assert(text::lowered(q.drop_first()) =~= text::lowered(q).drop_first());
        lemma_case(p.drop_first(), q.drop_first(), 0, (0, 0, 0), false);
    } else {
        lemma_case(p, q, 0, (0, 0, 0), false);
    }
}


// ---- units ------------------------------------------------------------------------------

/// The words for years.
pub open spec fn says_years(u: Seq<char>) -> bool {
    u == "y"@ || u == "yr"@ || u == "yrs"@ || u == "year"@ || u == "years"@
}

/// The words for months.
pub open spec fn says_months(u: Seq<char>) -> bool {
    u == "mo"@ || u == "mon"@ || u == "month"@ || u == "months"@
}

/// The words for weeks.
pub open spec fn says_weeks(u: Seq<char>) -> bool {
    u == "w"@ || u == "wk"@ || u == "week"@ || u == "weeks"@
}

/// The words for days.
pub open spec fn says_days(u: Seq<char>) -> bool {
    u == "d"@ || u == "day"@ || u == "days"@
}

/// The words for hours.
pub open spec fn says_hours(u: Seq<char>) -> bool {
    u == "h"@ || u == "hr"@ || u == "hrs"@ || u == "hour"@ || u == "hours"@
}

/// The words for minutes.
pub open spec fn says_minutes(u: Seq<char>) -> bool {
    u == "m"@ || u == "min"@ || u == "mins"@ || u == "minute"@ || u == "minutes"@
}

/// The words for seconds.
pub open spec fn says_seconds(u: Seq<char>) -> bool {
    u == "s"@ || u == "sec"@ || u == "secs"@ || u == "second"@ || u == "seconds"@
}

proof fn lemma_unit_letters()
    ensures
        "y"@.len() == 1 && "y"@[0] == 'y',
        "yr"@.len() == 2 && "yr"@[0] == 'y',
        "yrs"@.len() == 3 && "yrs"@[0] == 'y',
        "year"@.len() == 4 && "year"@[0] == 'y',
        "years"@.len() == 5 && "years"@[0] == 'y',
        "mo"@.len() == 2 && "mo"@[0] == 'm' && "mo"@[1] == 'o',
        "mon"@.len() == 3 && "mon"@[0] == 'm' && "mon"@[1] == 'o',
        "month"@.len() == 5 && "month"@[0] == 'm' && "month"@[1] == 'o',
        "months"@.len() == 6 && "months"@[0] == 'm' && "months"@[1] == 'o',
        "w"@.len() == 1 && "w"@[0] == 'w',
        "wk"@.len() == 2 && "wk"@[0] == 'w',
        "week"@.len() == 4 && "week"@[0] == 'w',
        "weeks"@.len() == 5 && "weeks"@[0] == 'w',
        "d"@.len() == 1 && "d"@[0] == 'd',
        "day"@.len() == 3 && "day"@[0] == 'd',
        "days"@.len() == 4 && "days"@[0] == 'd',
        "h"@.len() == 1 && "h"@[0] == 'h',
        "hr"@.len() == 2 && "hr"@[0] == 'h',
        "hrs"@.len() == 3 && "hrs"@[0] == 'h',
        "hour"@.len() == 4 && "hour"@[0] == 'h',
        "hours"@.len() == 5 && "hours"@[0] == 'h',
        "m"@.len() == 1 && "m"@[0] == 'm',
        "min"@.len() == 3 && "min"@[0] == 'm' && "min"@[1] == 'i',
        "mins"@.len() == 4 && "mins"@[0] == 'm' && "mins"@[1] == 'i',
        "minute"@.len() == 6 && "minute"@[0] == 'm' && "minute"@[1] == 'i',
        "minutes"@.len() == 7 && "minutes"@[0] == 'm' && "minutes"@[1] == 'i',
        "s"@.len() == 1 && "s"@[0] == 's',
        "sec"@.len() == 3 && "sec"@[0] == 's',
        "secs"@.len() == 4 && "secs"@[0] == 's',
        "second"@.len() == 6 && "second"@[0] == 's',
        "seconds"@.len() == 7 && "seconds"@[0] == 's',
{
    reveal_strlit("y");
    reveal_strlit("yr");
    reveal_strlit("yrs");
    reveal_strlit("year");
    reveal_strlit("years");
    reveal_strlit("mo");
    reveal_strlit("mon");
    reveal_strlit("month");
    reveal_strlit("months");
    reveal_strlit("w");
    reveal_strlit("wk");
    reveal_strlit("week");
    reveal_strlit("weeks");
    reveal_strlit("d");
    reveal_strlit("day");
    reveal_strlit("days");
    reveal_strlit("h");
    reveal_strlit("hr");
    reveal_strlit("hrs");
    reveal_strlit("hour");
    reveal_strlit("hours");
    reveal_strlit("m");
    reveal_strlit("min");
    reveal_strlit("mins");
    reveal_strlit("minute");
    reveal_strlit("minutes");
    reveal_strlit("s");
    reveal_strlit("sec");
    reveal_strlit("secs");
    reveal_strlit("second");
    reveal_strlit("seconds");
}

/// Whether a text is of small letters.
pub open spec fn small_letters(u: Seq<char>) -> bool {
    u.len() > 0 && forall|i: int| 0 <= i < u.len() ==> 'a' <= #[trigger] u[i] <= 'z'
}

proof fn lemma_years(u: Seq<char>)
    requires
        says_years(u),
    ensures
        timeop::unit_of(u) == Some((12int, 0int, 0int)),
        small_letters(u),
{
    lemma_unit_letters();
    reveal_strlit("y");
    reveal_strlit("yr");
    reveal_strlit("yrs");
    reveal_strlit("year");
    reveal_strlit("years");
}

proof fn lemma_months(u: Seq<char>)
    requires
        says_months(u),
    ensures
        timeop::unit_of(u) == Some((1int, 0int, 0int)),
        small_letters(u),
{
    lemma_unit_letters();
    reveal_strlit("mo");
    reveal_strlit("mon");
    reveal_strlit("month");
    reveal_strlit("months");
}

proof fn lemma_weeks(u: Seq<char>)
    requires
        says_weeks(u),
    ensures
        timeop::unit_of(u) == Some((0int, 7int, 0int)),
        small_letters(u),
{
    lemma_unit_letters();
    reveal_strlit("w");
    reveal_strlit("wk");
    reveal_strlit("week");
    reveal_strlit("weeks");
}

proof fn lemma_days(u: Seq<char>)
    requires
        says_days(u),
    ensures
        timeop::unit_of(u) == Some((0int, 1int, 0int)),
        small_letters(u),
{
    lemma_unit_letters();
    reveal_strlit("d");
    reveal_strlit("day");
    reveal_strlit("days");
}

proof fn lemma_hours(u: Seq<char>)
    requires
        says_hours(u),
    ensures
        timeop::unit_of(u) == Some((0int, 0int, 3600int)),
        small_letters(u),
{
    lemma_unit_letters();
    reveal_strlit("h");
    reveal_strlit("hr");
    reveal_strlit("hrs");
    reveal_strlit("hour");
    reveal_strlit("hours");
}

proof fn lemma_minutes(u: Seq<char>)
    requires
        says_minutes(u),
    ensures
        timeop::unit_of(u) == Some((0int, 0int, 60int)),
        small_letters(u),
{
    lemma_unit_letters();
    reveal_strlit("m");
    reveal_strlit("min");
    reveal_strlit("mins");
    reveal_strlit("minute");
    reveal_strlit("minutes");
}

proof fn lemma_seconds(u: Seq<char>)
    requires
        says_seconds(u),
    ensures
        timeop::unit_of(u) == Some((0int, 0int, 1int)),
        small_letters(u),
{
    lemma_unit_letters();
    reveal_strlit("s");
    reveal_strlit("sec");
    reveal_strlit("secs");
    reveal_strlit("second");
    reveal_strlit("seconds");
}

proof fn lemma_run(n: nat, u: Seq<char>, i: int)
    requires
        small_letters(u),
        0 <= i <= text::dec(n).len(),
    ensures
        timeop::digits_end(text::dec(n) + u, i) == text::dec(n).len(),
    decreases text::dec(n).len() - i,
{
    let d = text::dec(n);
    let s = d + u;
    textlaws::lemma_numeral(n);
    if i < d.len() {
        assert(s[i] == d[i]);
        assert(text::is_digit(d[i]));
        lemma_run(n, u, i + 1);
    } else {
        assert(s[i] == u[0]);
    }
}

proof fn lemma_letters_run(d: Seq<char>, u: Seq<char>, i: int)
    requires
        small_letters(u),
        0 <= i <= u.len(),
    ensures
        timeop::letters_end(d + u, d.len() + i) == d.len() + u.len(),
    decreases u.len() - i,
{
    if i < u.len() {
        assert((d + u)[d.len() + i] == u[i]);
        lemma_letters_run(d, u, i + 1);
    }
}

proof fn lemma_number_with_unit(n: nat, u: Seq<char>, one: (int, int, int))
    requires
        small_letters(u),
        timeop::unit_of(u) == Some(one),
        n <= i64::MAX,
        0 <= one.0 && 0 <= one.1 && 0 <= one.2,
        n * one.0 <= i64::MAX,
        n * one.1 <= i64::MAX,
        n * one.2 <= i64::MAX,
    ensures
        timeop::delta_of(text::dec(n) + u) == Ok::<_, DeltaErrorView>(
            Delta { months: (n * one.0) as i64, days: (n * one.1) as i64, seconds: (n * one.2) as i64 },
        ),
{
    let d = text::dec(n);
    let s = d + u;
    textlaws::lemma_numeral(n);
    assert(text::is_digit(d[0]));
    assert(s[0] == d[0]);
    assert(s.last() == u.last());
    assert(!text::is_space(s[0]) && !text::is_space(s.last()));
    textlaws::lemma_trimmed_same(s);
    lemma_run(n, u, 0);
    lemma_letters_run(d, u, 0);
    assert(s.subrange(0, d.len() as int) =~= d);
    let unit = s.subrange(d.len() as int, s.len() as int);
    assert(unit =~= u);
    assert(text::lowered(u) =~= u);
    let next = (0 + n * one.0, 0 + n * one.1, 0 + n * one.2);
    assert(n * one.0 >= 0 && n * one.1 >= 0 && n * one.2 >= 0) by (nonlinear_arith)
        requires
            n >= 0,
            one.0 >= 0,
            one.1 >= 0,
            one.2 >= 0,
    ;
    assert(timeop::sums_from(s, s.len() as int, next, true) == Ok::<(int, int, int), DeltaErrorView>(next));
    assert(timeop::sums_from(s, 0, (0, 0, 0), false) == Ok::<(int, int, int), DeltaErrorView>(next));
}

/// A number with a unit is that many of it: twelve months in a year, seven days in a week, and
/// days, hours, minutes and seconds by the clock.
pub proof fn units_are_what_they_are(n: nat, u: Seq<char>)
    requires
        n <= 0x7fff_ffff_ffff,
    ensures
        says_years(u) ==> timeop::delta_of(text::dec(n) + u) == Ok::<_, DeltaErrorView>(
            Delta { months: (n * 12) as i64, days: (0) as i64, seconds: (0) as i64 },
        ),
        says_months(u) ==> timeop::delta_of(text::dec(n) + u) == Ok::<_, DeltaErrorView>(
            Delta { months: (n) as i64, days: (0) as i64, seconds: (0) as i64 },
        ),
        says_weeks(u) ==> timeop::delta_of(text::dec(n) + u) == Ok::<_, DeltaErrorView>(
            Delta { months: (0) as i64, days: (n * 7) as i64, seconds: (0) as i64 },
        ),
        says_days(u) ==> timeop::delta_of(text::dec(n) + u) == Ok::<_, DeltaErrorView>(
            Delta { months: (0) as i64, days: (n) as i64, seconds: (0) as i64 },
        ),
        says_hours(u) ==> timeop::delta_of(text::dec(n) + u) == Ok::<_, DeltaErrorView>(
            Delta { months: (0) as i64, days: (0) as i64, seconds: (n * 3600) as i64 },
        ),
        says_minutes(u) ==> timeop::delta_of(text::dec(n) + u) == Ok::<_, DeltaErrorView>(
            Delta { months: (0) as i64, days: (0) as i64, seconds: (n * 60) as i64 },
        ),
        says_seconds(u) ==> timeop::delta_of(text::dec(n) + u) == Ok::<_, DeltaErrorView>(
            Delta { months: (0) as i64, days: (0) as i64, seconds: (n) as i64 },
        ),
{
    if says_years(u) {
        lemma_years(u);
        lemma_number_with_unit(n, u, (12, 0, 0));
    }
    if says_months(u) {
        lemma_months(u);
        lemma_number_with_unit(n, u, (1, 0, 0));
    }
    if says_weeks(u) {
        lemma_weeks(u);
        lemma_number_with_unit(n, u, (0, 7, 0));
    }
    if says_days(u) {
        lemma_days(u);
        lemma_number_with_unit(n, u, (0, 1, 0));
    }
    if says_hours(u) {
        lemma_hours(u);
        lemma_number_with_unit(n, u, (0, 0, 3600));
    }
    if says_minutes(u) {
        lemma_minutes(u);
        lemma_number_with_unit(n, u, (0, 0, 60));
    }
    if says_seconds(u) {
        lemma_seconds(u);
        lemma_number_with_unit(n, u, (0, 0, 1));
    }
}

} // verus!
