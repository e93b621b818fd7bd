//! JPEG XL: a bare codestream, or a container built of boxes. A box starts with its size, in four
//! bytes, and its type, in four more. EXIF has a box of its own.

use vstd::prelude::*;
use crate::bytes;

verus! {

/// The type of a box that holds EXIF, and what a compressed box of EXIF has in front of its data:
/// `Exif`.
pub open spec fn exif_type() -> Seq<u8> {
    seq![0x45u8, 0x78, 0x69, 0x66]
}

/// The type of a box with compressed data: `brob`.
pub open spec fn packed_type() -> Seq<u8> {
    seq![0x62u8, 0x72, 0x6F, 0x62]
}

/// The type of the first box of a container: `JXL ` with a space.
pub open spec fn mark_type() -> Seq<u8> {
    seq![0x4Au8, 0x58, 0x4C, 0x20]
}

/// The type of the box that names the format: `ftyp`.
pub open spec fn format_type() -> Seq<u8> {
    seq![0x66u8, 0x74, 0x79, 0x70]
}

/// The type of a box that holds a whole codestream: `jxlc`.
pub open spec fn codestream_type() -> Seq<u8> {
    seq![0x6Au8, 0x78, 0x6C, 0x63]
}

/// The first box of a container, whole.
pub open spec fn mark_box() -> Seq<u8> {
    seq![0u8, 0, 0, 0x0C, 0x4A, 0x58, 0x4C, 0x20, 0x0D, 0x0A, 0x87, 0x0A]
}

/// The box that names the format, whole.
pub open spec fn format_box() -> Seq<u8> {
    seq![
        0u8,
        0,
        0,
        0x14,
        0x66,
        0x74,
        0x79,
        0x70,
        0x6A,
        0x78,
        0x6C,
        0x20,
        0,
        0,
        0,
        0,
        0x6A,
        0x78,
        0x6C,
        0x20,
    ]
}

/// Whether these bytes begin as a bare codestream.
pub open spec fn is_bare(b: Seq<u8>) -> bool {
    b.len() >= 2 && b[0] == 0xFF && b[1] == 0x0A
}

/// Whether these bytes begin as a container.
pub open spec fn is_container(b: Seq<u8>) -> bool {
    bytes::begins_with(b, mark_box())
}

/// The size of the box at `i`, its head counted.
pub open spec fn box_size(b: Seq<u8>, i: int) -> int {
    bytes::be32_at(b, i)
}

/// The type of the box at `i`.
pub open spec fn box_type(b: Seq<u8>, i: int) -> Seq<u8> {
    b.subrange(i + 4, i + 8)
}

/// Whether the box at `i` holds EXIF, as it is or compressed.
pub open spec fn holds_exif(b: Seq<u8>, i: int) -> bool {
    box_type(b, i) == exif_type() || (box_type(b, i) == packed_type() && b.subrange(i + 8, i + 12) == exif_type())
}

/// Where the box at `i` ends, or the bytes, if that comes first.
pub open spec fn box_end(b: Seq<u8>, i: int) -> int {
    if i + box_size(b, i) <= b.len() {
        i + box_size(b, i)
    } else {
        b.len() as int
    }
}

/// The boxes from `i` on, but for those that hold EXIF.
pub open spec fn kept_boxes(b: Seq<u8>, i: int) -> Seq<u8>
    decreases b.len() - i,
{
    if i < 0 || i >= b.len() {
        Seq::empty()
    } else if box_size(b, i) <= 0 {
        b.subrange(i, b.len() as int)
    } else if holds_exif(b, i) {
        kept_boxes(b, box_end(b, i))
    } else {
        b.subrange(i, box_end(b, i)) + kept_boxes(b, box_end(b, i))
    }
}

/// A container without EXIF.
pub open spec fn without_exif(b: Seq<u8>) -> Seq<u8> {
    kept_boxes(b, 0)
}

/// An image as a container: a bare codestream is put into one, all else stays as it is.
pub open spec fn contained(b: Seq<u8>) -> Seq<u8> {
    if is_bare(b) {
        mark_box() + format_box() + bytes::be32_bytes((b.len() + 8) as int) + codestream_type() + b
    } else {
        b
    }
}

/// Where the first box from `i` on begins that neither marks a container nor names the format; no
/// place if the bytes end before it or a size is too small for the head of a box.
pub open spec fn exif_place(b: Seq<u8>, i: int) -> Option<int>
    decreases b.len() - i,
{
    if i < 0 || i + 8 > b.len() || box_size(b, i) < 8 {
        None
    } else if box_type(b, i) == mark_type() || box_type(b, i) == format_type() {
        exif_place(b, box_end(b, i))
    } else {
        Some(i)
    }
}

/// A box of EXIF with this data.
pub open spec fn exif_box(data: Seq<u8>) -> Seq<u8> {
    bytes::be32_bytes((data.len() + 18) as int) + exif_type() + seq![0u8, 0, 0, 6, 0x45, 0x78, 0x69, 0x66, 0, 0] + data
}

/// An image with one box of EXIF, behind the boxes that start a container, in place of those it
/// has; nothing if there is no place for it.
pub open spec fn with_exif(b: Seq<u8>, data: Seq<u8>) -> Option<Seq<u8>> {
    let kept = without_exif(contained(b));
    if !is_container(contained(b)) {
        None
    } else {
        match exif_place(kept, 0) {
            None => None,
            Some(p) => Some(kept.take(p) + exif_box(data) + kept.skip(p)),
        }
    }
}

/// The data of the first box of EXIF from `i` on that is not compressed.
pub open spec fn exif_from(b: Seq<u8>, i: int) -> Option<Seq<u8>>
    decreases b.len() - i,
{
    if i < 0 || i + 18 > b.len() || box_size(b, i) < 8 {
        None
    } else if box_type(b, i) == exif_type() {
        Some(b.subrange(i + 18, box_end(b, i)))
    } else {
        exif_from(b, box_end(b, i))
    }
}

// ---- what writing and taking out come to -------------------------------------------------

/// Whether the boxes from `i` on are whole enough to be told apart by their own bytes: each has a
/// head and four bytes behind it. The last may say that it is longer than the bytes are.
pub open spec fn plain_boxes(b: Seq<u8>, i: int) -> bool
    decreases b.len() - i,
{
    i >= b.len() || (0 <= i && i + 12 <= b.len() && box_size(b, i) >= 12 && plain_boxes(b, box_end(b, i)))
}

/// Whether these are the bytes of a container with plain boxes.
pub open spec fn plain_container(b: Seq<u8>) -> bool {
    is_container(b) && plain_boxes(b, 0)
}

/// Two boxes that begin with the same twelve bytes are of the same size and kind.
proof fn lemma_same_head(b: Seq<u8>, i: int, c: Seq<u8>, j: int)
    requires
        0 <= i,
        i + 12 <= b.len(),
        0 <= j,
        j + 12 <= c.len(),
        b.subrange(i, i + 12) == c.subrange(j, j + 12),
    ensures
        box_size(c, j) == box_size(b, i),
        box_type(c, j) == box_type(b, i),
        holds_exif(c, j) == holds_exif(b, i),
{
    let x = b.subrange(i, i + 12);
    let y = c.subrange(j, j + 12);
    assert(x[0] == b[i] && x[1] == b[i + 1] && x[2] == b[i + 2] && x[3] == b[i + 3]);
    assert(y[0] == c[j] && y[1] == c[j + 1] && y[2] == c[j + 2] && y[3] == c[j + 3]);
    assert(box_type(b, i) =~= x.subrange(4, 8));
    assert(box_type(c, j) =~= y.subrange(4, 8));
    assert(b.subrange(i + 8, i + 12) =~= x.subrange(8, 12));
    assert(c.subrange(j + 8, j + 12) =~= y.subrange(8, 12));
}

/// What is kept of plain boxes is plain, and nothing more is taken out of it.
proof fn lemma_kept(b: Seq<u8>, i: int, c: Seq<u8>, j: int)
    requires
        0 <= i,
        plain_boxes(b, i),
        0 <= j <= c.len(),
        c.subrange(j, c.len() as int) == kept_boxes(b, i),
    ensures
        plain_boxes(c, j),
        kept_boxes(c, j) == kept_boxes(b, i),
    decreases b.len() - i,
{
    let rest = c.subrange(j, c.len() as int);
    assert(rest.len() == c.len() - j);
    if i < b.len() {
        let end = box_end(b, i);
        if holds_exif(b, i) {
            lemma_kept(b, end, c, j);
        } else {
            let here = b.subrange(i, end);
            let more = kept_boxes(b, end);
            let n = end - i;
            assert(rest == here + more);
            assert(c.subrange(j, j + n) =~= here) by {
                assert(rest.subrange(0, n) =~= here);
                assert(c.subrange(j, j + n) =~= rest.subrange(0, n));
            }
            assert(c.subrange(j + n, c.len() as int) =~= more) by {
                assert(rest.subrange(n, rest.len() as int) =~= more);
                assert(c.subrange(j + n, c.len() as int) =~= rest.subrange(n, rest.len() as int));
            }
            assert(b.subrange(i, i + 12) =~= here.subrange(0, 12));
            assert(c.subrange(j, j + 12) =~= here.subrange(0, 12));
            lemma_same_head(b, i, c, j);
            lemma_kept(b, end, c, j + n);
            if end < b.len() {
                assert(box_end(c, j) == j + n);
            } else {
                assert(more.len() == 0);
                assert(c.len() == j + n);
                assert(box_end(c, j) == j + n);
            }
        }
    }
}

/// The first box of a container stays the first.
proof fn lemma_mark_kept(b: Seq<u8>)
    requires
        is_container(b),
    ensures
        box_size(b, 0) == 12,
        box_type(b, 0) == mark_type(),
        !holds_exif(b, 0),
        is_container(without_exif(b)),
{
    let m = mark_box();
    assert(b.subrange(0, 12) == m);
    assert(b[0] == b.subrange(0, 12)[0] && b[1] == b.subrange(0, 12)[1] && b[2] == b.subrange(0, 12)[2] && b[3]
        == b.subrange(0, 12)[3]);
    assert(box_size(b, 0) == 12);
    assert(box_type(b, 0) =~= b.subrange(0, 12).subrange(4, 8));
    assert(box_type(b, 0) =~= mark_type());
    assert(mark_type()[0] != exif_type()[0] && mark_type()[0] != packed_type()[0]);
    let c = without_exif(b);
    assert(c == b.subrange(0, 12) + kept_boxes(b, 12));
    assert(c.subrange(0, 12) =~= m);
}

/// Nothing of what is kept holds EXIF.
proof fn lemma_none_left(b: Seq<u8>, i: int, c: Seq<u8>, j: int)
    requires
        0 <= i,
        plain_boxes(b, i),
        0 <= j <= c.len(),
        c.subrange(j, c.len() as int) == kept_boxes(b, i),
    ensures
        exif_from(c, j) is None,
    decreases b.len() - i,
{
    let rest = c.subrange(j, c.len() as int);
    assert(rest.len() == c.len() - j);
    if i < b.len() {
        let end = box_end(b, i);
        if holds_exif(b, i) {
            lemma_none_left(b, end, c, j);
        } else {
            let here = b.subrange(i, end);
            let more = kept_boxes(b, end);
            let n = end - i;
            assert(rest == here + more);
            assert(c.subrange(j, j + 12) =~= here.subrange(0, 12)) by {
                assert(c.subrange(j, j + 12) =~= rest.subrange(0, 12));
                assert(rest.subrange(0, 12) =~= here.subrange(0, 12));
            }
            assert(b.subrange(i, i + 12) =~= here.subrange(0, 12));
            assert(c.subrange(j + n, c.len() as int) =~= more) by {
                assert(rest.subrange(n, rest.len() as int) =~= more);
                assert(c.subrange(j + n, c.len() as int) =~= rest.subrange(n, rest.len() as int));
            }
            lemma_same_head(b, i, c, j);
            lemma_none_left(b, end, c, j + n);
            if end == b.len() {
                assert(more.len() == 0);
            }
            assert(box_end(c, j) == j + n);
        }
    }
}

/// Taking EXIF out of a container with plain boxes leaves such a container, in which none
/// is found and from which nothing more is taken.
pub proof fn removed_exif_is_gone(b: Seq<u8>)
    requires
        plain_container(b),
    ensures
        plain_container(without_exif(b)),
        without_exif(without_exif(b)) == without_exif(b),
        exif_from(without_exif(b), 0) is None,
{
    let c = without_exif(b);
    assert(c.subrange(0, c.len() as int) =~= c);
    lemma_kept(b, 0, c, 0);
    lemma_none_left(b, 0, c, 0);
    lemma_mark_kept(b);
}

/// Where EXIF has its place, a box begins.
proof fn lemma_place(b: Seq<u8>, i: int)
    requires
        exif_place(b, i) is Some,
    ensures
        0 <= i <= exif_place(b, i)->0,
        exif_place(b, i)->0 + 8 <= b.len(),
    decreases b.len() - i,
{
    if box_type(b, i) == mark_type() || box_type(b, i) == format_type() {
        lemma_place(b, box_end(b, i));
    }
}

/// A box of EXIF is one.
proof fn lemma_exif_box(c: Seq<u8>, p: int, data: Seq<u8>)
    requires
        0 <= p,
        p + 18 + data.len() <= c.len(),
        data.len() + 18 <= 0xFFFF_FFFF,
        c.subrange(p, p + 18 + data.len()) == exif_box(data),
    ensures
        box_size(c, p) == data.len() + 18,
        box_type(c, p) == exif_type(),
        c.subrange(p + 18, p + 18 + data.len()) == data,
{
    let x = exif_box(data);
    let size = bytes::be32_bytes((data.len() + 18) as int);
    bytes::lemma_be32_round_trip((data.len() + 18) as int);
    assert(x[0] == size[0] && x[1] == size[1] && x[2] == size[2] && x[3] == size[3]);
    assert(c[p] == c.subrange(p, p + 18 + data.len())[0]);
    assert(c[p + 1] == c.subrange(p, p + 18 + data.len())[1]);
    assert(c[p + 2] == c.subrange(p, p + 18 + data.len())[2]);
    assert(c[p + 3] == c.subrange(p, p + 18 + data.len())[3]);
    assert(box_type(c, p) =~= x.subrange(4, 8));
    assert(x.subrange(4, 8) =~= exif_type());
    assert(c.subrange(p + 18, p + 18 + data.len()) =~= x.subrange(18, (18 + data.len()) as int));
    assert(x.subrange(18, (18 + data.len()) as int) =~= data);
}

/// With a box of EXIF at its place, the other boxes are kept, and its data is found.
proof fn lemma_written(k: Seq<u8>, i: int, c: Seq<u8>, data: Seq<u8>)
    requires
        0 <= i,
        plain_boxes(k, i),
        kept_boxes(k, i) == k.subrange(i, k.len() as int),
        exif_place(k, i) is Some,
        data.len() + 18 <= 0xFFFF_FFFF,
        c == k.take(exif_place(k, i)->0) + exif_box(data) + k.skip(exif_place(k, i)->0),
    ensures
        plain_boxes(c, i),
        kept_boxes(c, i) == k.subrange(i, k.len() as int),
        exif_from(c, i) == Some(data),
    decreases k.len() - i,
{
    let p = exif_place(k, i)->0;
    let n = data.len() + 18;
    lemma_place(k, i);
    bytes::lemma_be32_round_trip(n as int);
    assert(exif_box(data).len() == n);
    if box_type(k, i) == mark_type() || box_type(k, i) == format_type() {
        let end = box_end(k, i);
        lemma_place(k, end);
        assert(mark_type()[0] != exif_type()[0] && format_type()[0] != exif_type()[0]);
        assert(mark_type()[0] != packed_type()[0] && format_type()[0] != packed_type()[0]);
        assert(!holds_exif(k, i));
        let whole = k.subrange(i, k.len() as int);
        assert(whole.subrange(end - i, whole.len() as int) =~= kept_boxes(k, end)) by {
            assert(whole == k.subrange(i, end) + kept_boxes(k, end));
        }
        assert(whole.subrange(end - i, whole.len() as int) =~= k.subrange(end, k.len() as int));
        assert(c.subrange(i, end) =~= k.subrange(i, end));
        assert(k.subrange(i, i + 12) =~= k.subrange(i, end).subrange(0, 12));
        assert(c.subrange(i, i + 12) =~= k.subrange(i, end).subrange(0, 12));
        lemma_same_head(k, i, c, i);
        lemma_written(k, end, c, data);
        assert(box_end(c, i) == end);
        assert(kept_boxes(c, i) == c.subrange(i, end) + kept_boxes(c, end));
        assert(kept_boxes(c, i) =~= whole);
    } else {
        let j = p + n;
        assert(c.subrange(p, j) =~= exif_box(data));
        lemma_exif_box(c, p, data);
        assert(box_end(c, p) == j);
        assert(c.subrange(j, c.len() as int) =~= k.subrange(p, k.len() as int));
        lemma_kept(k, p, c, j);
        assert(holds_exif(c, p));
    }
}

/// What is written is a container with plain boxes again. Taking EXIF out of it undoes the writing,
/// up to the EXIF that was there before: all other boxes stay as they were, byte for byte and in
/// their order. The data that was written is what is found.
pub proof fn exif_removal_undoes_writing(b: Seq<u8>, data: Seq<u8>)
    requires
        plain_container(contained(b)),
        data.len() + 18 <= 0xFFFF_FFFF,
        with_exif(b, data) is Some,
    ensures
        plain_container(with_exif(b, data)->0),
        without_exif(with_exif(b, data)->0) == without_exif(contained(b)),
        exif_from(with_exif(b, data)->0, 0) == Some(data),
{
    let w = contained(b);
    let k = without_exif(w);
    let c = with_exif(b, data)->0;
    removed_exif_is_gone(w);
    assert(k.subrange(0, k.len() as int) =~= k);
    lemma_written(k, 0, c, data);
    let p = exif_place(k, 0)->0;
    lemma_mark_kept(k);
    lemma_place(k, box_end(k, 0));
    assert(p >= 12);
    assert(c.subrange(0, 12) =~= k.subrange(0, 12));
}

/// Writing twice is as good as writing once: only what was written last counts.
pub proof fn exif_written_last_counts(b: Seq<u8>, first: Seq<u8>, second: Seq<u8>)
    requires
        plain_container(contained(b)),
        first.len() + 18 <= 0xFFFF_FFFF,
        with_exif(b, first) is Some,
    ensures
        with_exif(with_exif(b, first)->0, second) == with_exif(b, second),
{
    let c = with_exif(b, first)->0;
    exif_removal_undoes_writing(b, first);
    assert(c[0] == c.subrange(0, 12)[0]);
    assert(mark_box()[0] == 0);
    assert(!is_bare(c));
}

/// A bare codestream can always be written to: it becomes a container, whose last box is the
/// codestream as it was.
pub proof fn bare_codestream_is_contained(b: Seq<u8>, data: Seq<u8>)
    requires
        is_bare(b),
        4 <= b.len() <= 0xFFFF_FFFF - 8,
    ensures
        plain_container(contained(b)),
        without_exif(contained(b)) == contained(b),
        with_exif(b, data) == Some(mark_box() + format_box() + exif_box(data) + contained(b).skip(32)),
        contained(b).skip(40) == b,
{
    let w = contained(b);
    let n = b.len() + 8;
    let size = bytes::be32_bytes(n as int);
    bytes::lemma_be32_round_trip(n as int);
    assert(w.len() == 40 + b.len());
    assert(w.subrange(0, 12) =~= mark_box());
    lemma_mark_kept(w);
    let f = format_box();
    assert(w.subrange(12, 32) =~= f);
    assert(w[12] == f[0] && w[13] == f[1] && w[14] == f[2] && w[15] == f[3]);
    assert(box_size(w, 12) == 20);
    assert(box_type(w, 12) =~= f.subrange(4, 8));
    assert(f.subrange(4, 8) =~= format_type());
    assert(w[32] == size[0] && w[33] == size[1] && w[34] == size[2] && w[35] == size[3]);
    assert(box_size(w, 32) == n);
    assert(box_type(w, 32) =~= codestream_type());
    let t = codestream_type();
    assert(t[0] == 0x6A && format_type()[0] == 0x66);
    assert(exif_type()[0] == 0x45 && packed_type()[0] == 0x62 && mark_type()[0] == 0x4A);
    assert(!holds_exif(w, 12) && !holds_exif(w, 32));
    assert(box_end(w, 0) == 12 && box_end(w, 12) == 32 && box_end(w, 32) == w.len());
    assert(plain_boxes(w, w.len() as int));
    assert(plain_boxes(w, 32));
    assert(plain_boxes(w, 12));
    assert(kept_boxes(w, w.len() as int) == Seq::<u8>::empty());
    assert(kept_boxes(w, 32) =~= w.subrange(32, w.len() as int));
    assert(kept_boxes(w, 12) =~= w.subrange(12, w.len() as int));
    assert(kept_boxes(w, 0) =~= w);
    assert(exif_place(w, 32) == Some(32int));
    assert(exif_place(w, 12) == Some(32int));
    assert(exif_place(w, 0) == Some(32int));
    assert(w.take(32) =~= mark_box() + format_box());
    assert(w.skip(40) =~= b);
}

} // verus!
