//! Which images are taken.

use vstd::prelude::*;
use crate::bytes;
use crate::formatlaws;
use crate::intake;
use crate::jpeg;
use crate::jxl;
use crate::png;

verus! {

// ---- JPEG -------------------------------------------------------------------------------

/// The bytes of segments, one behind the other.
pub open spec fn header(segments: Seq<(u8, Seq<u8>)>) -> Seq<u8>
    decreases segments.len(),
{
    if segments.len() == 0 {
        Seq::empty()
    } else {
        jpeg::segment_bytes(segments[0].0, segments[0].1) + header(segments.drop_first())
    }
}

/// Whether these can be the segments in front of the image data: each has a length, and none is the
/// image data itself.
pub open spec fn header_segments(segments: Seq<(u8, Seq<u8>)>) -> bool {
    forall|i: int|
        0 <= i < segments.len() ==> jpeg::sized((#[trigger] segments[i]).0) && segments[i].1.len() + 2 <= 0xFFFF
}

/// An image of these segments, image data with this head, and the end.
pub open spec fn jpeg_of(segments: Seq<(u8, Seq<u8>)>, head: Seq<u8>, data: Seq<u8>) -> Seq<u8> {
    seq![0xFFu8, 0xD8] + header(segments) + jpeg::segment_bytes(0xDA, head) + data + seq![0xFFu8, 0xD9]
}

proof fn lemma_header(a: Seq<u8>, segments: Seq<(u8, Seq<u8>)>, z: Seq<u8>)
    requires
        header_segments(segments),
        z.len() >= 2,
    ensures
        intake::segments_ok(a + header(segments) + z, a.len() as int, false) == intake::segments_ok(
            a + header(segments) + z,
            (a.len() + header(segments).len()) as int,
            false,
        ),
    decreases segments.len(),
{
    if segments.len() > 0 {
        let (marker, content) = segments[0];
        let rest = segments.drop_first();
        let s = jpeg::segment_bytes(marker, content);
        let b = a + header(segments) + z;
        let i = a.len() as int;
        formatlaws::lemma_segment(a, marker, content, header(rest) + z);
        assert(a + s + (header(rest) + z) =~= b);
        assert(jpeg::sized(segments[0].0));
        formatlaws::numbers_are_bytes(0, b, i + 2);
        let next = i + 2 + bytes::be16_at(b, i + 2);
        assert(next == i + s.len());
        assert(next < b.len());
        assert forall|k: int| 0 <= k < rest.len() implies jpeg::sized((#[trigger] rest[k]).0) && rest[k].1.len() + 2
            <= 0xFFFF by {
            assert(rest[k] == segments[k + 1]);
        }
        lemma_header(a + s, rest, z);
        assert((a + s) + header(rest) + z =~= b);
    } else {
        assert(header(segments) =~= Seq::<u8>::empty());
    }
}

proof fn lemma_data(b: Seq<u8>, i: int)
    requires
        0 <= i <= b.len() - 2,
        b[b.len() - 2] == 0xFF,
        b[b.len() - 1] == 0xD9,
        forall|k: int| i <= k < b.len() - 2 ==> (#[trigger] b[k]) != 0xFF,
    ensures
        intake::segments_ok(b, i, true),
    decreases b.len() - i,
{
    if i < b.len() - 2 {
        assert(b[i] != 0xFF);
        lemma_data(b, i + 1);
    } else {
        assert(intake::segments_ok(b, i, false));
    }
}

/// A JPEG with any segments and any image data in which no mark stands is taken, with EXIF that fits
/// in a segment.
pub proof fn sound_jpegs_are_taken(
    segments: Seq<(u8, Seq<u8>)>,
    head: Seq<u8>,
    data: Seq<u8>,
    extension: Seq<char>,
    size: nat,
)
    requires
        header_segments(segments),
        head.len() + 2 <= 0xFFFF,
        forall|k: int| 0 <= k < data.len() ==> (#[trigger] data[k]) != 0xFF,
        intake::is_jpeg_name(extension),
        size + 8 <= 0xFFFF,
    ensures
        intake::can_take(jpeg_of(segments, head, data), extension, size),
{
    let a = seq![0xFFu8, 0xD8];
    let s = jpeg::segment_bytes(0xDA, head);
    let end = seq![0xFFu8, 0xD9];
    let b = jpeg_of(segments, head, data);
    let h = header(segments);
    let z = s + data + end;
    assert(b =~= a + h + z);
    lemma_header(a, segments, z);
    let i = (2 + h.len()) as int;
    formatlaws::lemma_segment(a + h, 0xDA, head, data + end);
    assert((a + h) + s + (data + end) =~= b);
    formatlaws::numbers_are_bytes(0, b, i + 2);
    let next = i + 2 + bytes::be16_at(b, i + 2);
    assert(next == i + s.len());
    assert forall|k: int| next <= k < b.len() - 2 implies (#[trigger] b[k]) != 0xFF by {
        assert(b[k] == data[k - next]);
    }
    assert(b[b.len() - 2] == end[0] && b[b.len() - 1] == end[1]);
    lemma_data(b, next);
    assert(b[0] == a[0] && b[1] == a[1]);
}

/// A JPEG in which a segment says that it is shorter than its own length is not taken, wherever it
/// stands in the header.
pub proof fn short_segments_are_refused(
    segments: Seq<(u8, Seq<u8>)>,
    marker: u8,
    rest: Seq<u8>,
    extension: Seq<char>,
    size: nat,
)
    requires
        header_segments(segments),
        jpeg::sized(marker),
        rest.len() >= 2,
        intake::is_jpeg_name(extension),
    ensures
        !intake::can_take(
            seq![0xFFu8, 0xD8] + header(segments) + (seq![0xFFu8, marker, 0, 1] + rest),
            extension,
            size,
        ),
{
    let a = seq![0xFFu8, 0xD8];
    let h = header(segments);
    let z = seq![0xFFu8, marker, 0, 1] + rest;
    let b = a + h + z;
    lemma_header(a, segments, z);
    let i = (2 + h.len()) as int;
    assert(b[i] == z[0] && b[i + 1] == z[1] && b[i + 2] == z[2] && b[i + 3] == z[3]);
    assert(b[0] == a[0] && b[1] == a[1]);
    formatlaws::numbers_are_bytes(0, b, i + 2);
}

// ---- PNG --------------------------------------------------------------------------------

/// The bytes of chunks, one behind the other.
pub open spec fn chunks(v: Seq<(Seq<u8>, Seq<u8>)>) -> Seq<u8>
    decreases v.len(),
{
    if v.len() == 0 {
        Seq::empty()
    } else {
        png::chunk_bytes(v[0].0, v[0].1) + chunks(v.drop_first())
    }
}

/// Whether chunks hold no text, and none of them is the end.
pub open spec fn image_chunks(v: Seq<(Seq<u8>, Seq<u8>)>) -> bool {
    forall|i: int|
        0 <= i < v.len() ==> (#[trigger] v[i]).0.len() == 4 && v[i].1.len() < 0x8000_0000 && v[i].0 != png::itxt()
            && v[i].0 != intake::plain_text() && v[i].0 != intake::packed_text() && v[i].0 != png::iend()
}

proof fn lemma_chunk(a: Seq<u8>, kind: Seq<u8>, data: Seq<u8>, z: Seq<u8>)
    requires
        kind.len() == 4,
        data.len() < 0x8000_0000,
    ensures
        ({
            let b = a + png::chunk_bytes(kind, data) + z;
            let i = a.len() as int;
            &&& png::chunk_end(b, i) == Some(i + 12 + data.len())
            &&& png::chunk_type(b, i) == kind
            &&& png::chunk_data(b, i) == data
        }),
{
    formatlaws::chunks_are_stored(kind, data);
    lemma_stored(a, png::chunk_bytes(kind, data), kind, data, z);
}

proof fn lemma_stored(a: Seq<u8>, s: Seq<u8>, kind: Seq<u8>, data: Seq<u8>, z: Seq<u8>)
    requires
        s.len() == 12 + data.len(),
        formatlaws::four_bytes(s, 0) == data.len(),
        s.subrange(4, 8) == kind,
        s.subrange(8, 8 + data.len() as int) == data,
    ensures
        ({
            let b = a + s + z;
            let i = a.len() as int;
            &&& png::chunk_end(b, i) == Some(i + 12 + data.len())
            &&& png::chunk_type(b, i) == kind
            &&& png::chunk_data(b, i) == data
        }),
{
    let b = a + s + z;
    let i = a.len() as int;
    formatlaws::numbers_are_bytes(0, b, i);
    assert(b[i] == s[0] && b[i + 1] == s[1] && b[i + 2] == s[2] && b[i + 3] == s[3]);
    assert(bytes::be32_at(b, i) == data.len());
    assert(b.subrange(i + 4, i + 8) =~= s.subrange(4, 8));
    assert(b.subrange(i + 8, i + 8 + data.len()) =~= s.subrange(8, 8 + data.len() as int));
}

proof fn lemma_step(b: Seq<u8>, i: int, end: int)
    requires
        png::chunk_end(b, i) == Some(end),
        png::chunk_type(b, i) != png::itxt(),
        png::chunk_type(b, i) != intake::plain_text(),
        png::chunk_type(b, i) != intake::packed_text(),
    ensures
        png::chunk_type(b, i) == png::iend() ==> intake::chunks_ok(b, i),
        png::chunk_type(b, i) != png::iend() ==> intake::chunks_ok(b, i) == intake::chunks_ok(b, end),
{
}

proof fn lemma_regrouped(a: Seq<u8>, s: Seq<u8>, c: Seq<u8>, z: Seq<u8>)
    ensures
        a + (s + c) + z == a + s + (c + z),
        a + (s + c) + z == (a + s) + c + z,
{
    assert(a + (s + c) + z =~= a + s + (c + z));
    assert(a + (s + c) + z =~= (a + s) + c + z);
}

proof fn lemma_others(v: Seq<(Seq<u8>, Seq<u8>)>)
    requires
        v.len() > 0,
        image_chunks(v),
    ensures
        image_chunks(v.drop_first()),
{
    let rest = v.drop_first();
    assert forall|k: int| 0 <= k < rest.len() implies (#[trigger] rest[k]).0.len() == 4 && rest[k].1.len() < 0x8000_0000
        && rest[k].0 != png::itxt() && rest[k].0 != intake::plain_text() && rest[k].0 != intake::packed_text()
        && rest[k].0 != png::iend() by {
        assert(rest[k] == v[k + 1]);
    }
}

/// Going through chunks leads behind them.
proof fn lemma_chunks(a: Seq<u8>, v: Seq<(Seq<u8>, Seq<u8>)>, z: Seq<u8>)
    requires
        image_chunks(v),
    ensures
        intake::chunks_ok(a + chunks(v) + z, a.len() as int) == intake::chunks_ok(
            a + chunks(v) + z,
            (a.len() + chunks(v).len()) as int,
        ),
    decreases v.len(),
{
    let b = a + chunks(v) + z;
    if v.len() > 0 {
        let (kind, data) = v[0];
        let rest = v.drop_first();
        let s = png::chunk_bytes(kind, data);
        assert(v[0].0.len() == 4);
        lemma_chunk(a, kind, data, chunks(rest) + z);
        lemma_regrouped(a, s, chunks(rest), z);
        lemma_size(kind, data);
        lemma_step(b, a.len() as int, (a.len() + 12 + data.len()) as int);
        lemma_others(v);
        lemma_chunks(a + s, rest, z);
    }
}

proof fn lemma_size(kind: Seq<u8>, data: Seq<u8>)
    requires
        kind.len() == 4,
    ensures
        png::chunk_bytes(kind, data).len() == 12 + data.len(),
{
}

proof fn lemma_end(a: Seq<u8>, z: Seq<u8>)
    ensures
        intake::chunks_ok(a + png::chunk_bytes(png::iend(), Seq::empty()) + z, a.len() as int),
{
    let b = a + png::chunk_bytes(png::iend(), Seq::empty()) + z;
    lemma_chunk(a, png::iend(), Seq::empty(), z);
    assert(png::iend()[0] != png::itxt()[0]);
    assert(png::iend()[0] != intake::plain_text()[0]);
    assert(png::iend()[0] != intake::packed_text()[0]);
    lemma_step(b, a.len() as int, (a.len() + 12) as int);
}

/// A PNG of any chunks without text and the end chunk is taken, with EXIF of any size that can be
/// written down.
pub proof fn sound_pngs_are_taken(v: Seq<(Seq<u8>, Seq<u8>)>, rest: Seq<u8>, extension: Seq<char>, size: nat)
    requires
        image_chunks(v),
        intake::is_png_name(extension),
        size + 7 <= 99_999_999,
    ensures
        intake::can_take(
            png::signature() + chunks(v) + png::chunk_bytes(png::iend(), Seq::empty()) + rest,
            extension,
            size,
        ),
{
    lemma_sound(png::signature(), v, png::chunk_bytes(png::iend(), Seq::empty()), rest);
    intake::lemma_png_name(extension);
}

proof fn lemma_sound(a: Seq<u8>, v: Seq<(Seq<u8>, Seq<u8>)>, last: Seq<u8>, rest: Seq<u8>)
    requires
        image_chunks(v),
        last == png::chunk_bytes(png::iend(), Seq::empty()),
    ensures
        intake::chunks_ok(a + chunks(v) + last + rest, a.len() as int),
{
    let c = chunks(v);
    lemma_grouped(a, c, last, rest);
    lemma_chunks(a, v, last + rest);
    lemma_end(a + c, rest);
}

/// A PNG that ends before its end chunk is not taken.
pub proof fn endless_pngs_are_refused(v: Seq<(Seq<u8>, Seq<u8>)>, rest: Seq<u8>, extension: Seq<char>, size: nat)
    requires
        image_chunks(v),
        rest.len() < 8,
        intake::is_png_name(extension),
    ensures
        !intake::can_take(png::signature() + chunks(v) + rest, extension, size),
{
    let a = png::signature();
    let c = chunks(v);
    let b = a + c + rest;
    lemma_chunks(a, v, rest);
    assert(!intake::chunks_ok(b, (a.len() + c.len()) as int));
    assert(b =~= a + (c + rest));
    lemma_begins(a, c + rest);
    intake::lemma_png_name(extension);
}

proof fn lemma_grouped(a: Seq<u8>, c: Seq<u8>, l: Seq<u8>, z: Seq<u8>)
    ensures
        a + c + l + z == a + c + (l + z),
        a + c + l + z == a + (c + l + z),
{
    assert(a + c + l + z =~= a + c + (l + z));
    assert(a + c + l + z =~= a + (c + l + z));
}

proof fn lemma_begins(a: Seq<u8>, z: Seq<u8>)
    ensures
        bytes::begins_with(a + z, a),
{
    assert((a + z).subrange(0, a.len() as int) =~= a);
}

// ---- JPEG XL ----------------------------------------------------------------------------

/// A bare codestream that a box can hold is taken, with EXIF of any size.
pub proof fn bare_codestreams_are_taken(b: Seq<u8>, extension: Seq<char>, size: nat)
    requires
        4 <= b.len() <= 0xFFFF_FFFF - 8,
        b[0] == 0xFF && b[1] == 0x0A,
        intake::is_jxl_name(extension),
    ensures
        intake::can_take(b, extension, size),
        jxl::is_bare(b),
{
    intake::lemma_jxl_name(extension);
}

} // verus!
