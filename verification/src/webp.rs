//! WebP: a head, and chunks of a type, a size and data, padded to an even length. EXIF has a chunk
//! of its own, and a chunk with flags says whether it is there.

use vstd::prelude::*;
use crate::bytes;
use crate::intake;

verus! {

/// The type of the chunk with flags: `VP8X`.
pub open spec fn flags_type() -> Seq<u8> {
    seq![0x56u8, 0x50, 0x38, 0x58]
}

/// The type of a chunk with a lossless image: `VP8L`.
pub open spec fn lossless_type() -> Seq<u8> {
    seq![0x56u8, 0x50, 0x38, 0x4C]
}

/// The type of a chunk with a lossy image: `VP8 ` with a space.
pub open spec fn lossy_type() -> Seq<u8> {
    seq![0x56u8, 0x50, 0x38, 0x20]
}

/// The type of a chunk with EXIF: `EXIF`.
pub open spec fn exif_type() -> Seq<u8> {
    seq![0x45u8, 0x58, 0x49, 0x46]
}

/// The type of the chunk at `i`.
pub open spec fn chunk_type(b: Seq<u8>, i: int) -> Seq<u8> {
    b.subrange(i, i + 4)
}

/// Whether a WebP begins with a chunk of this type.
pub open spec fn starts_with(b: Seq<u8>, kind: Seq<u8>) -> bool {
    intake::is_webp_bytes(b) && b.len() >= 20 && chunk_type(b, 12) == kind
}

/// Whether a WebP begins with flags, which say that there is no EXIF.
pub open spec fn flags_deny_exif(b: Seq<u8>) -> bool {
    starts_with(b, flags_type()) && b.len() >= 24 && bytes::le32_at(b, 16) >= 4 && b[20] & 8 == 0
}

/// Whether a WebP says that it has no EXIF: by its flags, or because it has none.
pub open spec fn denies_exif(b: Seq<u8>) -> bool {
    flags_deny_exif(b) || starts_with(b, lossless_type()) || starts_with(b, lossy_type())
}

/// The head of a WebP of which this many bytes follow behind its size.
pub open spec fn head(size: int) -> Seq<u8> {
    seq![0x52u8, 0x49, 0x46, 0x46] + bytes::le32_bytes(size) + seq![0x57u8, 0x45, 0x42, 0x50]
}

/// A chunk of EXIF with this data.
pub open spec fn exif_chunk(data: Seq<u8>) -> Seq<u8> {
    exif_type() + bytes::le32_bytes(data.len() as int) + data + if data.len() % 2 == 1 {
        seq![0u8]
    } else {
        Seq::empty()
    }
}

/// Whether `c` is `b`, a WebP that says that it has no EXIF, with a chunk of EXIF at its end. The
/// flags say so, and a lossless image that has none gets them in front, together with the size of
/// the image, of which nothing is said here.
pub open spec fn gains_exif(b: Seq<u8>, c: Seq<u8>, data: Seq<u8>) -> bool {
    let more = exif_chunk(data);
    if flags_deny_exif(b) {
        c == head(b.len() - 8 + more.len()) + b.subrange(12, 20) + seq![b[20] | 8] + b.skip(21) + more
    } else {
        &&& c.len() == b.len() + 18 + more.len()
        &&& c.take(24) == head(b.len() - 8 + 18 + more.len()) + flags_type() + seq![10u8, 0, 0, 0, 8, 0, 0, 0]
        &&& c.skip(30) == b.skip(12) + more
    }
}

/// The chunks from `i` on, whole, but for flags and EXIF.
pub open spec fn picture_from(b: Seq<u8>, i: int) -> Seq<u8>
    decreases b.len() - i,
{
    if i < 0 || i + 8 > b.len() || intake::riff_end(b, i) > b.len() {
        Seq::empty()
    } else if chunk_type(b, i) == flags_type() || chunk_type(b, i) == exif_type() {
        picture_from(b, intake::riff_end(b, i))
    } else {
        b.subrange(i, intake::riff_end(b, i)) + picture_from(b, intake::riff_end(b, i))
    }
}

/// The picture in a WebP, with all that belongs to it but flags and EXIF.
pub open spec fn picture_of(b: Seq<u8>) -> Seq<u8> {
    picture_from(b, 12)
}

/// Whether whole chunks lead from `i` to the end of the bytes.
pub open spec fn whole_chunks(b: Seq<u8>, i: int) -> bool
    decreases b.len() - i,
{
    i == b.len() || (0 <= i && i + 8 <= b.len() && intake::riff_end(b, i) <= b.len() && whole_chunks(
        b,
        intake::riff_end(b, i),
    ))
}

proof fn lemma_exif_chunk(c: Seq<u8>, j: int, data: Seq<u8>)
    requires
        0 <= j <= c.len(),
        data.len() <= 0x7FFF_FFFF,
        c.subrange(j, c.len() as int) == exif_chunk(data),
    ensures
        j + 8 <= c.len(),
        chunk_type(c, j) == exif_type(),
        intake::riff_end(c, j) == c.len(),
        picture_from(c, j) == Seq::<u8>::empty(),
{
    let x = c.subrange(j, c.len() as int);
    let size = bytes::le32_bytes(data.len() as int);
    bytes::lemma_le32_round_trip(data.len() as int);
    assert(x.len() == c.len() - j);
    assert(x[4] == size[0] && x[5] == size[1] && x[6] == size[2] && x[7] == size[3]);
    assert(c[j + 4] == x[4] && c[j + 5] == x[5] && c[j + 6] == x[6] && c[j + 7] == x[7]);
    assert(bytes::le32_at(c, j + 4) == data.len());
    assert(chunk_type(c, j) =~= x.subrange(0, 4));
    assert(x.subrange(0, 4) =~= exif_type());
    assert(picture_from(c, c.len() as int) == Seq::<u8>::empty());
}

/// A chunk of EXIF behind whole chunks adds nothing to the picture.
proof fn lemma_same_picture(b: Seq<u8>, i: int, c: Seq<u8>, j: int, data: Seq<u8>)
    requires
        0 <= i <= b.len(),
        whole_chunks(b, i),
        0 <= j <= c.len(),
        data.len() <= 0x7FFF_FFFF,
        c.subrange(j, c.len() as int) == b.subrange(i, b.len() as int) + exif_chunk(data),
    ensures
        picture_from(c, j) == picture_from(b, i),
        whole_chunks(c, j),
    decreases b.len() - i,
{
    let x = b.subrange(i, b.len() as int);
    let y = c.subrange(j, c.len() as int);
    assert(x.len() == b.len() - i && y.len() == c.len() - j);
    if i == b.len() {
        assert(y =~= exif_chunk(data));
        lemma_exif_chunk(c, j, data);
        assert(whole_chunks(c, c.len() as int));
    } else {
        let n = intake::riff_end(b, i) - i;
        assert(y[4] == x[4] && y[5] == x[5] && y[6] == x[6] && y[7] == x[7]);
        assert(b[i + 4] == x[4] && b[i + 5] == x[5] && b[i + 6] == x[6] && b[i + 7] == x[7]);
        assert(c[j + 4] == y[4] && c[j + 5] == y[5] && c[j + 6] == y[6] && c[j + 7] == y[7]);
        assert(bytes::le32_at(c, j + 4) == bytes::le32_at(b, i + 4));
        assert(intake::riff_end(c, j) == j + n);
        assert(chunk_type(b, i) =~= x.subrange(0, 4));
        assert(chunk_type(c, j) =~= y.subrange(0, 4));
        assert(y.subrange(0, 4) =~= x.subrange(0, 4));
        assert(b.subrange(i, i + n) =~= x.subrange(0, n));
        assert(c.subrange(j, j + n) =~= y.subrange(0, n));
        assert(y.subrange(0, n) =~= x.subrange(0, n));
        assert(b.subrange(i + n, b.len() as int) =~= x.subrange(n, x.len() as int));
        assert(c.subrange(j + n, c.len() as int) =~= y.subrange(n, y.len() as int));
        assert(y.subrange(n, y.len() as int) =~= x.subrange(n, x.len() as int) + exif_chunk(data));
        lemma_same_picture(b, i + n, c, j + n, data);
    }
}

proof fn lemma_head(c: Seq<u8>, size: int)
    requires
        c.len() == size + 8,
        c.len() >= 20,
        0 <= size < 0x1_0000_0000,
        c.take(12) == head(size),
    ensures
        intake::is_webp_bytes(c),
{
    let x = c.take(12);
    let s = bytes::le32_bytes(size);
    bytes::lemma_le32_round_trip(size);
    assert(x[4] == s[0] && x[5] == s[1] && x[6] == s[2] && x[7] == s[3]);
    assert(c[4] == x[4] && c[5] == x[5] && c[6] == x[6] && c[7] == x[7]);
    assert(c.subrange(0, 4) =~= x.subrange(0, 4));
    assert(x.subrange(0, 4) =~= seq![0x52u8, 0x49, 0x46, 0x46]);
    assert(c.subrange(8, 12) =~= x.subrange(8, 12));
    assert(x.subrange(8, 12) =~= seq![0x57u8, 0x45, 0x42, 0x50]);
}

/// A WebP of whole chunks that says that it has no EXIF keeps its picture when EXIF is written:
/// every chunk but the flags stays as it was, byte for byte and in its order, and what comes out is
/// a WebP of whole chunks.
pub proof fn exif_write_keeps_the_picture(b: Seq<u8>, c: Seq<u8>, data: Seq<u8>)
    requires
        denies_exif(b),
        whole_chunks(b, 12),
        b.len() + data.len() + 32 <= 0x7FFF_FFFF,
        gains_exif(b, c, data),
    ensures
        intake::is_webp_bytes(c),
        whole_chunks(c, 12),
        picture_of(c) == picture_of(b),
{
    let more = exif_chunk(data);
    if flags_deny_exif(b) {
        let size = b.len() - 8 + more.len();
        bytes::lemma_le32_round_trip(size);
        assert(c.take(12) =~= head(size));
        lemma_head(c, size);
        let end = intake::riff_end(b, 12);
        assert(c.subrange(12, 20) =~= b.subrange(12, 20));
        assert(c[16] == c.subrange(12, 20)[4] && c[17] == c.subrange(12, 20)[5] && c[18] == c.subrange(12, 20)[6]
            && c[19] == c.subrange(12, 20)[7]);
        assert(b[16] == b.subrange(12, 20)[4] && b[17] == b.subrange(12, 20)[5] && b[18] == b.subrange(12, 20)[6]
            && b[19] == b.subrange(12, 20)[7]);
        assert(intake::riff_end(c, 12) == end);
        assert(chunk_type(c, 12) =~= c.subrange(12, 20).subrange(0, 4));
        assert(chunk_type(b, 12) =~= b.subrange(12, 20).subrange(0, 4));
        assert(c.subrange(end, c.len() as int) =~= b.subrange(end, b.len() as int) + more);
        lemma_same_picture(b, end, c, end, data);
    } else {
        let size = b.len() - 8 + 18 + more.len();
        let t = c.take(24);
        bytes::lemma_le32_round_trip(size);
        assert(c.take(12) =~= t.take(12));
        assert(t.take(12) =~= head(size));
        lemma_head(c, size);
        assert(t.subrange(12, 16) =~= flags_type());
        assert(chunk_type(c, 12) =~= t.subrange(12, 16));
        assert(c[16] == t[16] && c[17] == t[17] && c[18] == t[18] && c[19] == t[19]);
        assert(bytes::le32_at(c, 16) == 10);
        assert(intake::riff_end(c, 12) == 30);
        assert(b.skip(12) =~= b.subrange(12, b.len() as int));
        assert(c.skip(30) =~= c.subrange(30, c.len() as int));
        lemma_same_picture(b, 12, c, 30, data);
    }
}

} // verus!
