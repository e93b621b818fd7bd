//! The date and time of a photo from its file name.
//!
//! All digits of the name are taken in a row, whatever stands between them. The first eight that
//! make a date are the date; six more, if they make a time, are the time. So
//! `IMG_20230115_143022`, `2023-01-15 14.30.22` and `20230115143022123` all are understood.

use vstd::prelude::*;
use crate::stamp;
use crate::stamp::Stamp;
use crate::text;

verus! {

/// The digits of a name, as numbers.
pub open spec fn digits_of(name: Seq<char>) -> Seq<int>
    decreases name.len(),
{
    if name.len() == 0 {
        Seq::empty()
    } else if text::is_digit(name.last()) {
        digits_of(name.drop_last()).push((name.last() as u32) - 48)
    } else {
        digits_of(name.drop_last())
    }
}

/// The number that `n` digits from `i` on make.
pub open spec fn number_at(d: Seq<int>, i: int, n: int) -> int
    decreases n,
{
    if n <= 0 {
        0
    } else {
        number_at(d, i, n - 1) * 10 + d[i + n - 1]
    }
}

/// The stamp that the digits from `i` on make: a date of the years 1970 to 2099, and a time
/// where six more digits make one, midnight otherwise.
pub open spec fn stamp_at(d: Seq<int>, i: int) -> Option<Stamp> {
    let (year, month, day) = (number_at(d, i, 4), number_at(d, i + 4, 2), number_at(d, i + 6, 2));
    let (h, m, s) = (number_at(d, i + 8, 2), number_at(d, i + 10, 2), number_at(d, i + 12, 2));
    let timed = i + 14 <= d.len() && h < 24 && m < 60 && s < 60;
    if i + 8 <= d.len() && 1970 <= year <= 2099 && stamp::is_date(year, month, day) {
        Some(
            Stamp {
                year: year as i32,
                month: month as u32,
                day: day as u32,
                hour: if timed {
                    h as u32
                } else {
                    0
                },
                minute: if timed {
                    m as u32
                } else {
                    0
                },
                second: if timed {
                    s as u32
                } else {
                    0
                },
                nanos: 0,
            },
        )
    } else {
        None
    }
}

/// The first stamp that the digits make, from `i` on.
pub open spec fn first_stamp(d: Seq<int>, i: int) -> Option<Stamp>
    decreases d.len() - i,
{
    if i < 0 || i + 8 > d.len() {
        None
    } else if stamp_at(d, i) is Some {
        stamp_at(d, i)
    } else {
        first_stamp(d, i + 1)
    }
}

/// The digits as numbers.
pub open spec fn as_ints(v: Seq<u8>) -> Seq<int> {
    v.map_values(|b: u8| b as int)
}

fn collect_digits(name: &[char]) -> (v: Vec<u8>)
    ensures
        as_ints(v@) == digits_of(name@),
        forall|k: int| 0 <= k < v@.len() ==> #[trigger] v@[k] < 10,
{
    let mut v: Vec<u8> = Vec::new();
    let mut i: usize = 0;
    assert(as_ints(v@) =~= digits_of(name@.take(0)));
    while i < name.len()
        invariant
            i <= name.len(),
            as_ints(v@) == digits_of(name@.take(i as int)),
            forall|k: int| 0 <= k < v@.len() ==> #[trigger] v@[k] < 10,
        decreases name.len() - i,
    {
        proof {
            let next = name@.take(i + 1);
            assert(next.drop_last() =~= name@.take(i as int));
            assert(next.last() == name@[i as int]);
        }
        let ghost before = as_ints(v@);
        let c: char = name[i];
        if '0' <= c && c <= '9' {
            let d: u8 = (c as u8) - 48;
            v.push(d);
            assert(as_ints(v@) =~= before.push(d as int));
        }
        i += 1;
    }
    assert(name@.take(name@.len() as int) =~= name@);
    v
}

/// Reads the number that two digits make.
fn two_digits(d: &Vec<u8>, i: usize) -> (n: u32)
    requires
        i + 2 <= d.len(),
        forall|k: int| 0 <= k < d@.len() ==> #[trigger] d@[k] < 10,
    ensures
        n == number_at(as_ints(d@), i as int, 2),
        n < 100,
{
    proof {
        reveal_with_fuel(number_at, 3);
    }
    let a: u8 = d[i];
    let b: u8 = d[i + 1];
    assert(as_ints(d@)[i as int] == a && as_ints(d@)[i + 1] == b);
    assert(d@[i as int] < 10 && d@[i + 1] < 10);
    a as u32 * 10 + b as u32
}

/// Reads the number that four digits make.
fn four_digits(d: &Vec<u8>, i: usize) -> (n: u32)
    requires
        i + 4 <= d.len(),
        forall|k: int| 0 <= k < d@.len() ==> #[trigger] d@[k] < 10,
    ensures
        n == number_at(as_ints(d@), i as int, 4),
        n < 10000,
{
    proof {
        reveal_with_fuel(number_at, 5);
    }
    let hi: u32 = two_digits(d, i);
    let lo: u32 = two_digits(d, i + 2);
    hi * 100 + lo
}

/// Takes the date and time out of a file name, with or without its extension.
pub fn extract(file_stem: &str) -> (r: Option<Stamp>)
    ensures
        r == first_stamp(digits_of(file_stem@), 0),
        r is Some ==> (r->0).valid(),
{
    let cs: Vec<char> = text::chars_of(file_stem);
    let d: Vec<u8> = collect_digits(cs.as_slice());
    let ghost all = digits_of(file_stem@);
    let mut i: usize = 0;
    while d.len() - i >= 8
        invariant
            i <= d.len(),
            all == digits_of(file_stem@),
            as_ints(d@) == all,
            forall|k: int| 0 <= k < d@.len() ==> #[trigger] d@[k] < 10,
            first_stamp(all, 0) == first_stamp(all, i as int),
        decreases d.len() - i,
    {
        let year: u32 = four_digits(&d, i);
        let month: u32 = two_digits(&d, i + 4);
        let day: u32 = two_digits(&d, i + 6);
        if 1970 <= year && year <= 2099 && stamp::date_exists(year as i32, month, day) {
            let mut hour: u32 = 0;
            let mut minute: u32 = 0;
            let mut second: u32 = 0;
            if d.len() - i >= 14 {
                let h: u32 = two_digits(&d, i + 8);
                let m: u32 = two_digits(&d, i + 10);
                let s: u32 = two_digits(&d, i + 12);
                if h < 24 && m < 60 && s < 60 {
                    hour = h;
                    minute = m;
                    second = s;
                }
            }
            return Some(Stamp { year: year as i32, month, day, hour, minute, second, nanos: 0 });
        }
        i += 1;
    }
    None
}

// ---- reading names that tell a time -----------------------------------------------------

proof fn lemma_digits_of_two_texts(a: Seq<char>, b: Seq<char>)
    ensures
        digits_of(a + b) == digits_of(a) + digits_of(b),
    decreases b.len(),
{
    if b.len() == 0 {
        assert(a + b =~= a);
        assert(digits_of(a) + digits_of(b) =~= digits_of(a));
    } else {
        assert((a + b).drop_last() =~= a + b.drop_last());
        lemma_digits_of_two_texts(a, b.drop_last());
        assert(digits_of(a + b) =~= digits_of(a) + digits_of(b));
    }
}

proof fn lemma_digit(d: int)
    requires
        0 <= d < 10,
    ensures
        text::is_digit(text::digit(d)),
        text::digit(d) as u32 == 48 + d,
{
}

proof fn lemma_one(d: int)
    requires
        0 <= d < 10,
    ensures
        digits_of(seq![text::digit(d)]) == seq![d],
{
    lemma_digit(d);
    let s = seq![text::digit(d)];
    assert(s.drop_last() =~= Seq::empty());
    assert(digits_of(s.drop_last()) =~= Seq::empty());
    assert(digits_of(s) =~= seq![d]);
}

proof fn lemma_two(n: int)
    requires
        0 <= n < 100,
    ensures
        digits_of(stamp::two(n)) == seq![n / 10, n % 10],
{
    lemma_one(n / 10);
    lemma_one(n % 10);
    let (a, b) = (seq![text::digit(n / 10)], seq![text::digit(n % 10)]);
    lemma_digits_of_two_texts(a, b);
    if n < 10 {
        assert(text::digit(0) == '0');
        assert(text::zeros(1) =~= a);
        assert(stamp::two(n) =~= a + b);
    } else {
        assert(text::dec((n / 10) as nat) =~= a);
        assert(stamp::two(n) =~= a + b);
    }
    assert(digits_of(stamp::two(n)) =~= seq![n / 10, n % 10]);
}

proof fn lemma_four(n: int)
    requires
        1000 <= n < 10000,
    ensures
        digits_of(text::zero_padded(text::dec(n as nat), 4)) == seq![n / 1000, n / 100 % 10, n / 10 % 10, n % 10],
{
    let (a, b, c, d) = (n / 1000, n / 100 % 10, n / 10 % 10, n % 10);
    let s = seq![text::digit(a)] + seq![text::digit(b)] + seq![text::digit(c)] + seq![text::digit(d)];
    lemma_one(a);
    lemma_one(b);
    lemma_one(c);
    lemma_one(d);
    lemma_digits_of_two_texts(seq![text::digit(a)], seq![text::digit(b)]);
    lemma_digits_of_two_texts(seq![text::digit(a)] + seq![text::digit(b)], seq![text::digit(c)]);
    lemma_digits_of_two_texts(
        seq![text::digit(a)] + seq![text::digit(b)] + seq![text::digit(c)],
        seq![text::digit(d)],
    );
    reveal_with_fuel(text::dec, 4);
    assert(text::dec(n as nat) =~= s);
    assert(digits_of(s) =~= seq![a, b, c, d]);
}

proof fn lemma_name_digits(t: Stamp)
    requires
        stamp::exif_exact(t),
        1970 <= t.year <= 2099,
    ensures
        digits_of(stamp::name_text(t)) == seq![
            t.year as int / 1000,
            t.year as int / 100 % 10,
            t.year as int / 10 % 10,
            t.year as int % 10,
            t.month as int / 10,
            t.month as int % 10,
            t.day as int / 10,
            t.day as int % 10,
            t.hour as int / 10,
            t.hour as int % 10,
            t.minute as int / 10,
            t.minute as int % 10,
            t.second as int / 10,
            t.second as int % 10,
        ],
{
    let y = text::zero_padded(text::dec(t.year as nat), 4);
    let (mo, d) = (stamp::two(t.month as int), stamp::two(t.day as int));
    let (h, m, s) = (stamp::two(t.hour as int), stamp::two(t.minute as int), stamp::two(t.second as int));
    lemma_four(t.year as int);
    lemma_two(t.month as int);
    lemma_two(t.day as int);
    lemma_two(t.hour as int);
    lemma_two(t.minute as int);
    lemma_two(t.second as int);
    reveal_strlit("_");
    assert("_"@ =~= seq!['_']);
    assert("_"@.drop_last() =~= Seq::empty());
    assert(digits_of("_"@.drop_last()) =~= Seq::empty());
    assert(digits_of("_"@) =~= Seq::empty());
    lemma_digits_of_two_texts(y, mo);
    lemma_digits_of_two_texts(y + mo, d);
    lemma_digits_of_two_texts(y + mo + d, "_"@);
    lemma_digits_of_two_texts(y + mo + d + "_"@, h);
    lemma_digits_of_two_texts(y + mo + d + "_"@ + h, m);
    lemma_digits_of_two_texts(y + mo + d + "_"@ + h + m, s);
    assert(digits_of(stamp::name_text(t)) =~= digits_of(y) + digits_of(mo) + digits_of(d) + digits_of(h)
        + digits_of(m) + digits_of(s));
}

proof fn lemma_numbers(d: Seq<int>, i: int)
    ensures
        number_at(d, i, 2) == d[i] * 10 + d[i + 1],
        number_at(d, i, 4) == ((d[i] * 10 + d[i + 1]) * 10 + d[i + 2]) * 10 + d[i + 3],
{
    reveal_with_fuel(number_at, 5);
}

/// A name that tells a time is read as that time, whatever follows: naming files by their time
/// and taking times from names undo each other.
pub proof fn named_time_reads_back(t: Stamp, rest: Seq<char>)
    requires
        stamp::exif_exact(t),
        1970 <= t.year <= 2099,
    ensures
        first_stamp(digits_of(stamp::name_text(t) + rest), 0) == Some(t),
{
    lemma_name_digits(t);
    lemma_digits_of_two_texts(stamp::name_text(t), rest);
    let d = digits_of(stamp::name_text(t) + rest);
    let y = t.year as int;
    assert(d[0] == y / 1000 && d[1] == y / 100 % 10 && d[2] == y / 10 % 10 && d[3] == y % 10);
    lemma_numbers(d, 0);
    assert(number_at(d, 0, 4) == y);
    lemma_numbers(d, 4);
    assert(d[4] == t.month as int / 10 && d[5] == t.month as int % 10);
    assert(number_at(d, 4, 2) == t.month);
    lemma_numbers(d, 6);
    assert(d[6] == t.day as int / 10 && d[7] == t.day as int % 10);
    assert(number_at(d, 6, 2) == t.day);
    lemma_numbers(d, 8);
    assert(d[8] == t.hour as int / 10 && d[9] == t.hour as int % 10);
    assert(number_at(d, 8, 2) == t.hour);
    lemma_numbers(d, 10);
    assert(d[10] == t.minute as int / 10 && d[11] == t.minute as int % 10);
    assert(number_at(d, 10, 2) == t.minute);
    lemma_numbers(d, 12);
    assert(d[12] == t.second as int / 10 && d[13] == t.second as int % 10);
    assert(number_at(d, 12, 2) == t.second);
    assert(stamp_at(d, 0) == Some(t));
}

/// Only the digits of a name matter.
pub proof fn other_characters_do_not_matter(a: Seq<char>, c: char, b: Seq<char>)
    requires
        !('0' <= c <= '9'),
    ensures
        first_stamp(digits_of(a + seq![c] + b), 0) == first_stamp(digits_of(a + b), 0),
        digits_of(a + b) == digits_of(a) + digits_of(b),
{
    lemma_digits_of_two_texts(a, seq![c]);
    lemma_digits_of_two_texts(a + seq![c], b);
    lemma_digits_of_two_texts(a, b);
    let one = seq![c];
    assert(one.drop_last() =~= Seq::empty());
    assert(digits_of(one.drop_last()) =~= Seq::empty());
    assert(digits_of(one) =~= Seq::empty());
    assert(digits_of(a) + Seq::<int>::empty() =~= digits_of(a));
}

/// Whether eight digits from `i` on are this date: four for the year, two for the month and two for
/// the day.
pub open spec fn says_date(d: Seq<int>, i: int, t: Stamp) -> bool {
    &&& 0 <= i
    &&& i + 8 <= d.len()
    &&& t.year == ((d[i] * 10 + d[i + 1]) * 10 + d[i + 2]) * 10 + d[i + 3]
    &&& t.month == d[i + 4] * 10 + d[i + 5]
    &&& t.day == d[i + 6] * 10 + d[i + 7]
}

/// Whether six more digits from `i` on make a time of day.
pub open spec fn makes_time(d: Seq<int>, i: int) -> bool {
    i + 6 <= d.len() && d[i] * 10 + d[i + 1] < 24 && d[i + 2] * 10 + d[i + 3] < 60 && d[i + 4] * 10 + d[i + 5] < 60
}

/// Whether the digits from `i` on begin with a date of the years that names are searched for.
pub open spec fn date_begins(d: Seq<int>, i: int) -> bool {
    exists|t: Stamp|
        #[trigger] says_date(d, i, t) && 1970 <= t.year <= 2099 && stamp::is_date(
            t.year as int,
            t.month as int,
            t.day as int,
        )
}

proof fn lemma_at(d: Seq<int>, i: int)
    requires
        0 <= i,
        forall|k: int| 0 <= k < d.len() ==> 0 <= (#[trigger] d[k]) < 10,
    ensures
        stamp_at(d, i) is Some <==> date_begins(d, i),
        stamp_at(d, i) matches Some(t) ==> says_date(d, i, t) && 1970 <= t.year <= 2099 && t.valid() && t.nanos == 0
            && (makes_time(d, i + 8) ==> t.hour == d[i + 8] * 10 + d[i + 9] && t.minute == d[i + 10] * 10 + d[i + 11]
            && t.second == d[i + 12] * 10 + d[i + 13]) && (!makes_time(d, i + 8) ==> t.hour == 0 && t.minute == 0
            && t.second == 0),
{
    lemma_numbers(d, i);
    lemma_numbers(d, i + 4);
    lemma_numbers(d, i + 6);
    lemma_numbers(d, i + 8);
    lemma_numbers(d, i + 10);
    lemma_numbers(d, i + 12);
    if i + 14 <= d.len() {
        assert(0 <= d[i + 8] < 10 && 0 <= d[i + 9] < 10 && 0 <= d[i + 10] < 10);
        assert(0 <= d[i + 11] < 10 && 0 <= d[i + 12] < 10 && 0 <= d[i + 13] < 10);
    }
    if stamp_at(d, i) is Some {
        assert(says_date(d, i, stamp_at(d, i)->0));
    }
    if date_begins(d, i) {
        let t = choose|t: Stamp|
            #[trigger] says_date(d, i, t) && 1970 <= t.year <= 2099 && stamp::is_date(
                t.year as int,
                t.month as int,
                t.day as int,
            );
        assert(stamp_at(d, i) is Some);
    }
}

/// A name says the first date in its digits, with the time of day in the six digits behind it if they
/// make one, and midnight if not; it says none only if no date stands in its digits.
pub proof fn first_date_counts(d: Seq<int>, i: int) -> (at: int)
    requires
        0 <= i,
        forall|k: int| 0 <= k < d.len() ==> 0 <= (#[trigger] d[k]) < 10,
    ensures
        match first_stamp(d, i) {
            Some(t) => {
                &&& i <= at
                &&& forall|k: int| i <= k < at ==> !(#[trigger] date_begins(d, k))
                &&& says_date(d, at, t) && 1970 <= t.year <= 2099 && t.valid() && t.nanos == 0
                &&& makes_time(d, at + 8) ==> t.hour == d[at + 8] * 10 + d[at + 9] && t.minute == d[at + 10] * 10 + d[at
                    + 11] && t.second == d[at + 12] * 10 + d[at + 13]
                &&& !makes_time(d, at + 8) ==> t.hour == 0 && t.minute == 0 && t.second == 0
            },
            None => forall|k: int| i <= k ==> !(#[trigger] date_begins(d, k)),
        },
    decreases d.len() - i,
{
    if i + 8 > d.len() {
        i
    } else {
        lemma_at(d, i);
        if stamp_at(d, i) is Some {
            i
        } else {
            let at = first_date_counts(d, i + 1);
            assert(!date_begins(d, i));
            at
        }
    }
}

} // verus!
