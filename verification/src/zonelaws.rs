//! Time zones as texts.

use vstd::prelude::*;
use vstd::string::*;
use crate::geotag;
use crate::stamp;
use crate::text;
use crate::textlaws;

verus! {

proof fn lemma_two_digits(n: int)
    requires
        0 <= n < 100,
    ensures
        stamp::two(n) == seq![text::digit(n / 10), text::digit(n % 10)],
        text::numeral(stamp::two(n)) == Some(n as nat),
        text::signed_numeral(stamp::two(n)) == Some(n),
        !stamp::two(n).contains(':'),
{
    reveal_with_fuel(text::dec, 3);
    let d = text::dec(n as nat);
    let t = stamp::two(n);
    let s = seq![text::digit(n / 10), text::digit(n % 10)];
    if n < 10 {
        assert(d =~= seq![text::digit(n)]);
        assert(text::zeros(1) =~= seq!['0']);
        assert(t =~= s);
    } else {
        assert(d =~= s);
    }
    assert(text::is_digit(s[0]) && text::is_digit(s[1]));
    assert(s.drop_last() =~= seq![text::digit(n / 10)]);
    assert(s.drop_last().drop_last() =~= Seq::<char>::empty());
    reveal_with_fuel(text::digits_value, 3);
    assert(text::digits_value(s) == n);
    assert(text::all_digits(s));
    assert(s[0] != '+' && s[0] != '-' && s[0] != ':' && s[1] != ':');
}

proof fn lemma_not_utc(s: Seq<char>)
    requires
        s.len() > 0,
        s[0] != 'z' && s[0] != 'Z' && s[0] != 'u' && s[0] != 'U',
    ensures
        text::lowered(s) != "z"@,
        text::lowered(s) != "utc"@,
{
    reveal_strlit("z");
    reveal_strlit("utc");
    let l = text::lowered(s);
    assert(l[0] == text::lower(s[0]));
    assert("z"@[0] == 'z' && "utc"@[0] == 'u');
}

/// A sign in front of hours and minutes makes an offset east (`+`) or west (`-`) of UTC; minutes
/// stand behind a colon.
pub proof fn signed_hours_are_offsets(h: int, m: int, west: bool)
    requires
        0 <= h < 24,
        0 <= m < 60,
    ensures
        geotag::zone_of((if west { "-"@ } else { "+"@ }) + stamp::two(h) + ":"@ + stamp::two(m)) == Ok::<
            int,
            Seq<char>,
        >(if west { -(h * 3600 + m * 60) } else { h * 3600 + m * 60 }),
{
    reveal_strlit("-");
    reveal_strlit("+");
    reveal_strlit(":");
    lemma_two_digits(h);
    lemma_two_digits(m);
    let sign = if west { "-"@ } else { "+"@ };
    let rest = stamp::two(h) + seq![':'] + stamp::two(m);
    let s = sign + stamp::two(h) + ":"@ + stamp::two(m);
    assert(":"@ =~= seq![':']);
    assert(s =~= sign + rest);
    assert(s[0] == sign[0]);
    assert(s.last() == text::digit(m % 10));
    textlaws::lemma_trimmed_same(s);
    lemma_not_utc(s);
    assert(s.drop_first() =~= rest);
    textlaws::texts_come_apart(stamp::two(h), ':', stamp::two(m));
    assert(geotag::zone_parts(rest) == (stamp::two(h), stamp::two(m)));
}

/// An offset that is written is the one that is read.
pub proof fn written_offset_reads_back(secs: int)
    requires
        -86400 < secs < 86400,
        secs % 60 == 0,
    ensures
        geotag::zone_of(geotag::zone_text(secs)) == Ok::<int, Seq<char>>(secs),
{
    let minutes = if secs < 0 { -secs / 60 } else { secs / 60 };
    let (h, m) = (minutes / 60, minutes % 60);
    assert(minutes * 60 == if secs < 0 { -secs } else { secs });
    assert(h * 60 + m == minutes);
    assert(0 <= h < 24 && 0 <= m < 60);
    signed_hours_are_offsets(h, m, secs < 0);
}

/// Hours alone, or four digits, say the same as hours and minutes with a colon, and UTC is no
/// offset at all.
pub proof fn short_zones_are_offsets(h: int, m: int)
    requires
        0 <= h < 24,
        0 <= m < 60,
    ensures
        geotag::zone_of("+"@ + text::dec(h as nat)) == Ok::<int, Seq<char>>(h * 3600),
        geotag::zone_of("-"@ + text::dec(h as nat)) == Ok::<int, Seq<char>>(-(h * 3600)),
        geotag::zone_of("+"@ + stamp::two(h) + stamp::two(m)) == Ok::<int, Seq<char>>(h * 3600 + m * 60),
        geotag::zone_of("-"@ + stamp::two(h) + stamp::two(m)) == Ok::<int, Seq<char>>(-(h * 3600 + m * 60)),
        geotag::zone_of("z"@) == Ok::<int, Seq<char>>(0),
        geotag::zone_of("utc"@) == Ok::<int, Seq<char>>(0),
{
    lemma_short('+', h, m);
    lemma_short('-', h, m);
    assert("+"@ == seq!['+'] && "-"@ == seq!['-']) by {
        reveal_strlit("-");
        reveal_strlit("+");
        assert("+"@ =~= seq!['+'] && "-"@ =~= seq!['-']);
    }
    lemma_grouped("+"@, stamp::two(h), stamp::two(m));
    lemma_grouped("-"@, stamp::two(h), stamp::two(m));
    lemma_utc();
}

proof fn lemma_grouped(a: Seq<char>, b: Seq<char>, c: Seq<char>)
    ensures
        a + b + c == a + (b + c),
{
    assert(a + b + c =~= a + (b + c));
}

proof fn lemma_utc()
    ensures
        geotag::zone_of("z"@) == Ok::<int, Seq<char>>(0),
        geotag::zone_of("utc"@) == Ok::<int, Seq<char>>(0),
{
    reveal_strlit("z");
    reveal_strlit("utc");
    textlaws::lemma_trimmed_same("z"@);
    textlaws::lemma_trimmed_same("utc"@);
    assert(text::lowered("z"@) =~= "z"@);
    assert(text::lowered("utc"@) =~= "utc"@);
}

proof fn lemma_short(sign: char, h: int, m: int)
    requires
        sign == '+' || sign == '-',
        0 <= h < 24,
        0 <= m < 60,
    ensures
        geotag::zone_of(seq![sign] + text::dec(h as nat)) == Ok::<int, Seq<char>>(
            if sign == '-' { -(h * 3600) } else { h * 3600 },
        ),
        geotag::zone_of(seq![sign] + (stamp::two(h) + stamp::two(m))) == Ok::<int, Seq<char>>(
            if sign == '-' { -(h * 3600 + m * 60) } else { h * 3600 + m * 60 },
        ),
{
    reveal_strlit("0");
    lemma_two_digits(h);
    lemma_two_digits(m);
    let d = text::dec(h as nat);
    textlaws::lemma_numeral(h as nat);
    reveal_with_fuel(text::dec, 3);
    assert(d.len() <= 2);
    let s = seq![sign] + d;
    assert(text::is_digit(d[0]) && text::is_digit(d[d.len() - 1]));
    assert(s[0] == sign && s.last() == d[d.len() - 1]);
    textlaws::lemma_trimmed_same(s);
    lemma_not_utc(s);
    assert(s.drop_first() =~= d);
    assert forall|i: int| 0 <= i < d.len() implies (#[trigger] d[i]) != ':' by {
        assert(text::is_digit(d[i]));
    }
    lemma_no_colon(d, 0);
    let zero = "0"@;
    assert(zero =~= seq!['0']);
    assert(zero.drop_last() =~= Seq::<char>::empty());
    reveal_with_fuel(text::digits_value, 2);
    assert(text::digits_value(zero) == 0);
    assert(text::all_digits(zero));
    assert(text::signed_numeral(zero) == Some(0int));
    assert(d[0] != '-' && d[0] != '+');
    let four = stamp::two(h) + stamp::two(m);
    let t = seq![sign] + four;
    assert(four.len() == 4);
    assert(t[0] == sign && t.last() == stamp::two(m)[1]);
    textlaws::lemma_trimmed_same(t);
    lemma_not_utc(t);
    assert(t.drop_first() =~= four);
    assert forall|i: int| 0 <= i < four.len() implies (#[trigger] four[i]) != ':' by {
        if i < 2 {
            assert(four[i] == stamp::two(h)[i]);
        } else {
            assert(four[i] == stamp::two(m)[i - 2]);
        }
    }
    lemma_no_colon(four, 0);
    assert(four.subrange(0, 2) =~= stamp::two(h));
    assert(four.subrange(2, 4) =~= stamp::two(m));
}

proof fn lemma_no_colon(s: Seq<char>, from: int)
    requires
        0 <= from,
        forall|i: int| 0 <= i < s.len() ==> (#[trigger] s[i]) != ':',
    ensures
        text::char_from(s, from, ':') is None,
    decreases s.len() - from,
{
    if from < s.len() {
        assert(s[from] != ':');
        lemma_no_colon(s, from + 1);
    }
}

} // verus!
