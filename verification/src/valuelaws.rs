//! What the values of tags look like, in terms of the numbers that were stored.

use vstd::prelude::*;
use vstd::string::*;
use crate::bytes;
use crate::exif;
use crate::tags;
use crate::tags::{Ratio, TagInfo};
use crate::tagtext;
use crate::text;
use crate::textlaws;

verus! {

/// The number below `top` that stands for `n`, where negative ones count down from `top`.
pub open spec fn stored(n: int, top: int) -> int {
    if n < 0 {
        n + top
    } else {
        n
    }
}

proof fn lemma_whole(num: int, den: int, q: int)
    requires
        den != 0,
        num == q * den,
    ensures
        tagtext::size(num) % tagtext::size(den) == 0,
        tagtext::quotient(num, den) == q,
{
    let n = tagtext::size(num);
    let d = tagtext::size(den);
    let s = tagtext::size(q);
    assert(n == s * d) by (nonlinear_arith)
        requires
            num == q * den,
            n == if num < 0 { -num } else { num },
            d == if den < 0 { -den } else { den },
            s == if q < 0 { -q } else { q },
    ;
    assert(num < 0 <==> (q != 0 && (q < 0) != (den < 0))) by (nonlinear_arith)
        requires
            num == q * den,
            den != 0,
    ;
    vstd::arithmetic::div_mod::lemma_fundamental_div_mod_converse(n, d, s, 0);
}

proof fn lemma_not_whole(num: int, den: int)
    requires
        den != 0,
        forall|q: int| #[trigger] (q * den) != num,
    ensures
        tagtext::size(num) % tagtext::size(den) != 0,
{
    let n = tagtext::size(num);
    let d = tagtext::size(den);
    if n % d == 0 {
        vstd::arithmetic::div_mod::lemma_fundamental_div_mod(n, d);
        let q = if (num < 0) == (den < 0) { n / d } else { -(n / d) };
        assert(q * den == num) by (nonlinear_arith)
            requires
                n == d * (n / d),
                n == if num < 0 { -num } else { num },
                d == if den < 0 { -den } else { den },
                q == if (num < 0) == (den < 0) { n / d } else { -(n / d) },
        ;
    }
}

/// Whether a text shows the fraction of two numbers: `0` over zero, a whole number where it is
/// one, else the numerator, a slash, the denominator, and the decimal value in brackets.
pub open spec fn shows_fraction(s: Seq<char>, num: int, den: int, decimal: Seq<char>) -> bool {
    &&& den == 0 ==> s == "0"@
    &&& forall|q: int| den != 0 && #[trigger] (q * den) == num ==> s == text::dec_signed(q)
    &&& den != 0 && (forall|q: int| #[trigger] (q * den) != num) ==> s == text::dec_signed(num) + "/"@
        + text::dec_signed(den) + " ("@ + decimal + ")"@
}

/// A fraction is shown as the fraction that it is.
pub proof fn fractions_show_themselves(num: int, den: int, decimal: Seq<char>)
    ensures
        shows_fraction(tagtext::ratio_text(num, den, decimal), num, den, decimal),
{
    assert forall|q: int| den != 0 && #[trigger] (q * den) == num implies tagtext::ratio_text(num, den, decimal)
        == text::dec_signed(q) by {
        lemma_whole(num, den, q);
    }
    if den != 0 && forall|q: int| #[trigger] (q * den) != num {
        lemma_not_whole(num, den);
    }
}

proof fn lemma_one(t: TagInfo, decimals: Seq<Seq<char>>)
    requires
        tagtext::is_numeric(t.format),
        t.data.len() == tagtext::width_of(t.format),
        tagtext::needs_decimals(t.format) ==> decimals.len() == 1,
    ensures
        tagtext::value_text(t, decimals) == tagtext::component_text(
            t.format,
            t.data,
            0,
            if tagtext::needs_decimals(t.format) {
                decimals[0]
            } else {
                Seq::empty()
            },
        ),
{
    assert(tagtext::components(t) == 1);
}

/// A tag that stores a fraction, the numerator in front of the denominator, shows it, whether the
/// two numbers have signs or not.
pub proof fn stored_fraction_is_shown(t: TagInfo, num: int, den: int, decimal: Seq<char>)
    requires
        t.format == tags::RATIONAL64U ==> 0 <= num < 0x1_0000_0000 && 0 <= den < 0x1_0000_0000,
        t.format == tags::RATIONAL64S ==> -0x8000_0000 <= num < 0x8000_0000 && -0x8000_0000 <= den < 0x8000_0000,
        t.format == tags::RATIONAL64U || t.format == tags::RATIONAL64S,
        t.data == bytes::le32_bytes(stored(num, 0x1_0000_0000)) + bytes::le32_bytes(stored(den, 0x1_0000_0000)),
    ensures
        shows_fraction(tagtext::value_text(t, seq![decimal]), num, den, decimal),
{
    let a = stored(num, 0x1_0000_0000);
    let b = stored(den, 0x1_0000_0000);
    bytes::lemma_le32_round_trip(a);
    bytes::lemma_le32_round_trip(b);
    let (x, y) = (bytes::le32_bytes(a), bytes::le32_bytes(b));
    assert(t.data[0] == x[0] && t.data[1] == x[1] && t.data[2] == x[2] && t.data[3] == x[3]);
    assert(t.data[4] == y[0] && t.data[5] == y[1] && t.data[6] == y[2] && t.data[7] == y[3]);
    assert(bytes::le32_at(t.data, 0) == a);
    assert(bytes::le32_at(t.data, 4) == b);
    lemma_one(t, seq![decimal]);
    fractions_show_themselves(num, den, decimal);
}

/// The fractions that positions are made of are shown as they were written.
pub proof fn written_fraction_is_shown(t: TagInfo, r: Ratio, decimal: Seq<char>)
    requires
        t.format == tags::RATIONAL64U,
        t.data == exif::ratio_bytes(r),
    ensures
        shows_fraction(tagtext::value_text(t, seq![decimal]), r.num as int, r.den as int, decimal),
{
    stored_fraction_is_shown(t, r.num as int, r.den as int, decimal);
}

/// A tag that stores one whole number, least significant byte first, shows it in decimal, with its
/// sign where the format has one.
pub proof fn stored_number_is_shown(t: TagInfo, n: int)
    requires
        t.format == tags::INT8U ==> 0 <= n < 0x100 && t.data == seq![n as u8],
        t.format == tags::INT8S ==> -0x80 <= n < 0x80 && t.data == seq![stored(n, 0x100) as u8],
        t.format == tags::INT16U ==> 0 <= n < 0x1_0000 && t.data == seq![(n % 256) as u8, (n / 256) as u8],
        t.format == tags::INT16S ==> -0x8000 <= n < 0x8000 && t.data == seq![
            (stored(n, 0x1_0000) % 256) as u8,
            (stored(n, 0x1_0000) / 256) as u8,
        ],
        t.format == tags::INT32U ==> 0 <= n < 0x1_0000_0000 && t.data == bytes::le32_bytes(n),
        t.format == tags::INT32S ==> -0x8000_0000 <= n < 0x8000_0000 && t.data == bytes::le32_bytes(
            stored(n, 0x1_0000_0000),
        ),
        t.format == tags::INT8U || t.format == tags::INT8S || t.format == tags::INT16U || t.format == tags::INT16S
            || t.format == tags::INT32U || t.format == tags::INT32S,
    ensures
        tagtext::value_text(t, Seq::empty()) == text::dec_signed(n),
{
    lemma_one(t, Seq::empty());
    if t.format == tags::INT32U || t.format == tags::INT32S {
        bytes::lemma_le32_round_trip(stored(n, 0x1_0000_0000));
    }
}

/// A tag with several numbers shows them one behind the other, with a comma and a space between.
pub proof fn numbers_are_listed(t: TagInfo, a: TagInfo, b: TagInfo, da: Seq<Seq<char>>, db: Seq<Seq<char>>)
    requires
        tagtext::is_numeric(t.format),
        a.format == t.format,
        b.format == t.format,
        t.data == a.data + b.data,
        a.data.len() >= tagtext::width_of(t.format),
        b.data.len() >= tagtext::width_of(t.format),
        a.data.len() as int % tagtext::width_of(t.format) == 0,
        tagtext::needs_decimals(t.format) ==> da.len() == tagtext::components(a) && db.len() == tagtext::components(b),
    ensures
        tagtext::value_text(t, da + db) == tagtext::value_text(a, da) + ", "@ + tagtext::value_text(b, db),
        tagtext::components(t) == tagtext::components(a) + tagtext::components(b),
{
    let w = tagtext::width_of(t.format);
    let (m, n) = (tagtext::components(a), tagtext::components(b));
    let la = a.data.len() as int;
    let lb = b.data.len() as int;
    assert(la == m * w) by {
        vstd::arithmetic::div_mod::lemma_fundamental_div_mod(la, w);
        assert(w * (la / w) == m * w) by (nonlinear_arith)
            requires
                m == la / w,
        ;
    }
    vstd::arithmetic::div_mod::lemma_hoist_over_denominator(lb, m, w as nat);
    vstd::arithmetic::div_mod::lemma_div_non_zero(la, w);
    vstd::arithmetic::div_mod::lemma_div_non_zero(lb, w);
    assert(m >= 1 && n >= 1 && (la + lb) / w == m + n);
    assert(tagtext::components(t) == m + n);
    let need = tagtext::needs_decimals(t.format);
    let pa = Seq::new(
        m as nat,
        |i: int|
            tagtext::component_text(
                a.format,
                a.data,
                i,
                if need {
                    da[i]
                } else {
                    Seq::empty()
                },
            ),
    );
    let pb = Seq::new(
        n as nat,
        |i: int|
            tagtext::component_text(
                b.format,
                b.data,
                i,
                if need {
                    db[i]
                } else {
                    Seq::empty()
                },
            ),
    );
    let dt = da + db;
    let pt = Seq::new(
        (m + n) as nat,
        |i: int|
            tagtext::component_text(
                t.format,
                t.data,
                i,
                if need {
                    dt[i]
                } else {
                    Seq::empty()
                },
            ),
    );
    assert(t.data.subrange(0, la) =~= a.data);
    assert forall|i: int| 0 <= i < m + n implies #[trigger] pt[i] == (pa + pb)[i] by {
        if i < m {
            lemma_same_component(t, a, i, i);
        } else {
            assert((pa + pb)[i] == pb[i - m]);
            lemma_shifted_component(t, a, b, i, m);
            if need {
                assert(dt[i] == db[i - m]);
            }
        }
    }
    assert(pt =~= pa + pb);
    textlaws::lemma_joined_parts(pa, pb, ", "@);
}

proof fn lemma_same_component(t: TagInfo, a: TagInfo, i: int, j: int)
    requires
        tagtext::is_numeric(t.format),
        i == j,
        0 <= i < tagtext::components(a),
        a.format == t.format,
        a.data.len() <= t.data.len(),
        t.data.subrange(0, a.data.len() as int) == a.data,
    ensures
        forall|d: Seq<char>|
            tagtext::component_text(t.format, t.data, i, d) == #[trigger] tagtext::component_text(
                a.format,
                a.data,
                j,
                d,
            ),
{
    let w = tagtext::width_of(t.format);
    let la = a.data.len() as int;
    assert forall|k: int| 0 <= k < la implies t.data[k] == a.data[k] by {
        assert(t.data.subrange(0, la)[k] == t.data[k]);
    }
    assert(w * i + w <= la) by {
        if w == 1 {
        } else if w == 2 {
        } else if w == 4 {
        } else {
            assert(w == 8);
        }
    }
}

proof fn lemma_shifted_component(t: TagInfo, a: TagInfo, b: TagInfo, i: int, m: int)
    requires
        tagtext::is_numeric(t.format),
        b.format == t.format,
        t.data == a.data + b.data,
        a.data.len() == m * tagtext::width_of(t.format),
        0 <= m <= i,
        i - m < tagtext::components(b),
    ensures
        forall|d: Seq<char>|
            tagtext::component_text(t.format, t.data, i, d) == #[trigger] tagtext::component_text(
                b.format,
                b.data,
                i - m,
                d,
            ),
{
    let w = tagtext::width_of(t.format);
    let la = a.data.len() as int;
    let lb = b.data.len() as int;
    assert forall|k: int| la <= k < la + lb implies t.data[k] == b.data[k - la] by {
    }
    if w == 1 {
        assert(t.data[i] == b.data[i - m]);
    } else if w == 2 {
        assert(2 * i == la + 2 * (i - m));
    } else if w == 4 {
        assert(4 * i == la + 4 * (i - m));
    } else {
        assert(w == 8);
        assert(8 * i == la + 8 * (i - m));
    }
}

/// Bytes without a meaning are counted if one of them cannot be printed, or there are none. Of bytes
/// that may begin with the mark of a character set, only one behind the first eight counts.
pub proof fn unprintable_bytes_are_counted(data: Seq<u8>, i: int)
    ensures
        data.len() == 0 ==> tagtext::undef_text(data) == "<"@ + text::dec(0) + " 字节>"@,
        0 <= i < data.len() && (0 < data[i] < 0x20 || data[i] == 0x7F) && (i >= 8 || data[0] != 0x41)
            ==> tagtext::undef_text(data) == "<"@ + text::dec(data.len()) + " 字节>"@,
{
    if 0 <= i < data.len() && (0 < data[i] < 0x20 || data[i] == 0x7F) && (i >= 8 || data[0] != 0x41) {
        let body = tagtext::undef_body(data);
        if data.len() > 8 && data.take(5) == exif::ascii_mark().take(5) {
            assert(data.take(5)[0] == data[0] && exif::ascii_mark().take(5)[0] == 0x41);
            assert(body[i - 8] == data[i]);
        } else {
            assert(body[i] == data[i]);
        }
    }
}

/// Bytes without a meaning that can all be printed are shown as text, without the mark of ASCII in
/// front.
pub proof fn printable_bytes_are_text(data: Seq<u8>)
    requires
        data.len() > 0,
        forall|i: int| 0 <= i < data.len() ==> 0x20 <= (#[trigger] data[i]) <= 0x7E,
    ensures
        data.len() <= 8 || data[0] != 0x41 ==> tagtext::undef_text(data) == exif::clean(data),
        tagtext::undef_text(exif::ascii_mark() + data) == exif::clean(data),
{
    let marked = exif::ascii_mark() + data;
    assert(marked.take(5) =~= exif::ascii_mark().take(5));
    assert(marked.subrange(8, marked.len() as int) =~= data);
    if data.len() > 8 && data[0] != 0x41 {
        assert(data.take(5)[0] == data[0] && exif::ascii_mark().take(5)[0] == 0x41);
    }
}

} // verus!
