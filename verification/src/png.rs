//! PNG chunks: walking them, the XMP text chunk, and writing it without
//! disturbing the others.

use vstd::prelude::*;
use crate::bytes;

verus! {

/// The eight bytes every PNG begins with.
pub open spec fn signature() -> Seq<u8> {
    seq![0x89u8, 0x50, 0x4E, 0x47, 0x0D, 0x0A, 0x1A, 0x0A]
}

/// The keyword of the text chunk that holds XMP: `XML:com.adobe.xmp`.
pub open spec fn xmp_keyword() -> Seq<u8> {
    seq![
        0x58u8, 0x4D, 0x4C, 0x3A, 0x63, 0x6F, 0x6D, 0x2E, 0x61, 0x64, 0x6F, 0x62, 0x65, 0x2E, 0x78,
        0x6D, 0x70,
    ]
}

/// The chunk type `iTXt`.
pub open spec fn itxt() -> Seq<u8> {
    seq![0x69u8, 0x54, 0x58, 0x74]
}

/// The chunk type `IDAT`.
pub open spec fn idat() -> Seq<u8> {
    seq![0x49u8, 0x44, 0x41, 0x54]
}

/// The chunk type `IEND`.
pub open spec fn iend() -> Seq<u8> {
    seq![0x49u8, 0x45, 0x4E, 0x44]
}

/// Whether the bytes start with the PNG signature.
pub open spec fn is_png_bytes(b: Seq<u8>) -> bool {
    bytes::begins_with(b, signature())
}

/// One bit of the CRC-32 division (reflected polynomial 0xEDB88320).
pub open spec fn crc_bit(crc: u32) -> u32 {
    if crc & 1 == 1 {
        (crc >> 1) ^ 0xEDB8_8320
    } else {
        crc >> 1
    }
}

/// `n` bits of the division.
pub open spec fn crc_bits(crc: u32, n: nat) -> u32
    decreases n,
{
    if n == 0 {
        crc
    } else {
        crc_bit(crc_bits(crc, (n - 1) as nat))
    }
}

/// The division carried on over `data`, a byte at a time.
pub open spec fn crc_over(crc: u32, data: Seq<u8>) -> u32
    decreases data.len(),
{
    if data.len() == 0 {
        crc
    } else {
        crc_bits(crc_over(crc, data.drop_last()) ^ (data.last() as u32), 8)
    }
}

/// The CRC-32 of a chunk's type and data.
pub open spec fn crc32_of(data: Seq<u8>) -> u32 {
    !crc_over(0xFFFF_FFFF, data)
}

/// Where the chunk at `pos` ends, or `None` if no whole chunk stands there.
pub open spec fn chunk_end(b: Seq<u8>, pos: int) -> Option<int> {
    if pos < 0 || pos + 8 > b.len() || pos + 12 + bytes::be32_at(b, pos) > b.len() {
        None
    } else {
        Some(pos + 12 + bytes::be32_at(b, pos))
    }
}

/// The type of the chunk at `pos`.
pub open spec fn chunk_type(b: Seq<u8>, pos: int) -> Seq<u8> {
    b.subrange(pos + 4, pos + 8)
}

/// The data of the chunk at `pos`.
pub open spec fn chunk_data(b: Seq<u8>, pos: int) -> Seq<u8> {
    b.subrange(pos + 8, pos + 8 + bytes::be32_at(b, pos))
}

/// The text of an uncompressed XMP text chunk: what follows the keyword, the two compression
/// bytes, the language tag and the translated keyword. `None` if the data is no such chunk.
pub open spec fn xmp_text(data: Seq<u8>) -> Option<Seq<u8>> {
    match bytes::first_zero(data, 0) {
        None => None,
        Some(keyword_end) => if data.subrange(0, keyword_end) != xmp_keyword()
            || keyword_end + 3 > data.len() || data[keyword_end + 1] != 0 {
            None
        } else {
            match bytes::first_zero(data, keyword_end + 3) {
                None => None,
                Some(language_end) => match bytes::first_zero(data, language_end + 1) {
                    None => None,
                    Some(translated_end) => Some(data.subrange(translated_end + 1, data.len() as int)),
                },
            }
        },
    }
}

/// Whether the chunk at `pos` holds XMP.
pub open spec fn holds_xmp(b: Seq<u8>, pos: int) -> bool {
    chunk_type(b, pos) == itxt() && xmp_text(chunk_data(b, pos)) is Some
}

/// The first XMP chunk at or after `pos`, up to the end chunk.
pub open spec fn xmp_chunk_from(b: Seq<u8>, pos: int) -> Option<int>
    decreases b.len() - pos,
{
    match chunk_end(b, pos) {
        None => None,
        Some(end) => if holds_xmp(b, pos) {
            Some(pos)
        } else if chunk_type(b, pos) == iend() {
            None
        } else {
            xmp_chunk_from(b, end)
        },
    }
}

/// The XMP chunk of a PNG.
pub open spec fn xmp_chunk_of(b: Seq<u8>) -> Option<int> {
    if is_png_bytes(b) {
        xmp_chunk_from(b, 8)
    } else {
        None
    }
}

/// The first image data or end chunk at or after `pos`.
pub open spec fn image_from(b: Seq<u8>, pos: int) -> Option<int>
    decreases b.len() - pos,
{
    match chunk_end(b, pos) {
        None => None,
        Some(end) => if chunk_type(b, pos) == idat() || chunk_type(b, pos) == iend() {
            Some(pos)
        } else {
            image_from(b, end)
        },
    }
}

/// Where an XMP chunk is written: over the one there is, or before the image data.
pub open spec fn place_start(b: Seq<u8>) -> Option<int> {
    match xmp_chunk_of(b) {
        Some(pos) => Some(pos),
        None => image_from(b, 8),
    }
}

/// Where the bytes that such a write replaces end.
pub open spec fn place_end(b: Seq<u8>) -> int {
    match xmp_chunk_of(b) {
        Some(pos) => chunk_end(b, pos)->0,
        None => place_start(b)->0,
    }
}

/// The bytes of a chunk. Its length field holds the length modulo 2^32.
pub open spec fn chunk_bytes(ctype: Seq<u8>, data: Seq<u8>) -> Seq<u8> {
    bytes::be32_bytes(data.len() as int % 0x1_0000_0000) + (ctype + data)
        + bytes::be32_bytes(crc32_of(ctype + data) as int)
}

/// The data of an XMP chunk that holds `text`.
pub open spec fn xmp_data(text: Seq<u8>) -> Seq<u8> {
    xmp_keyword() + seq![0u8, 0, 0, 0, 0] + text
}

/// `b` with its XMP chunk replaced by one that holds `text`, or with that chunk added before
/// the image data.
pub open spec fn with_xmp(b: Seq<u8>, text: Seq<u8>) -> Seq<u8> {
    bytes::spliced(b, place_start(b)->0, place_end(b), chunk_bytes(itxt(), xmp_data(text)))
}

/// `b` without its XMP chunk.
pub open spec fn without_xmp(b: Seq<u8>) -> Seq<u8> {
    match xmp_chunk_of(b) {
        Some(pos) => bytes::spliced(b, pos, chunk_end(b, pos)->0, Seq::empty()),
        None => b,
    }
}

/// The XMP text of a PNG.
pub open spec fn xmp_of(b: Seq<u8>) -> Option<Seq<u8>> {
    match xmp_chunk_of(b) {
        Some(pos) => xmp_text(chunk_data(b, pos)),
        None => None,
    }
}

/// The walk from `pos` arrives at `at` and meets neither XMP nor the end chunk before it.
pub open spec fn reaches(b: Seq<u8>, pos: int, at: int) -> bool
    decreases b.len() - pos,
{
    pos == at || (pos < at && match chunk_end(b, pos) {
        None => false,
        Some(end) => !holds_xmp(b, pos) && chunk_type(b, pos) != iend() && reaches(b, end, at),
    })
}

proof fn lemma_found(b: Seq<u8>, pos: int)
    requires
        0 <= pos,
    ensures
        match xmp_chunk_from(b, pos) {
            Some(p) => pos <= p && chunk_end(b, p) is Some && holds_xmp(b, p) && reaches(b, pos, p),
            None => true,
        },
    decreases b.len() - pos,
{
    match chunk_end(b, pos) {
        None => {},
        Some(end) => {
            if !holds_xmp(b, pos) && chunk_type(b, pos) != iend() {
                lemma_found(b, end);
            }
        },
    }
}

proof fn lemma_image(b: Seq<u8>, pos: int)
    requires
        0 <= pos,
    ensures
        match image_from(b, pos) {
            Some(p) => pos <= p && chunk_end(b, p) is Some && (xmp_chunk_from(b, pos) is None
                ==> reaches(b, pos, p)),
            None => true,
        },
    decreases b.len() - pos,
{
    match chunk_end(b, pos) {
        None => {},
        Some(end) => {
            if chunk_type(b, pos) != idat() && chunk_type(b, pos) != iend() {
                lemma_image(b, end);
            }
        },
    }
}

proof fn lemma_reaches_from(b: Seq<u8>, pos: int, at: int)
    requires
        reaches(b, pos, at),
    ensures
        xmp_chunk_from(b, pos) == xmp_chunk_from(b, at),
    decreases b.len() - pos,
{
    if pos != at {
        lemma_reaches_from(b, chunk_end(b, pos)->0, at);
    }
}

proof fn lemma_reaches_bound(b: Seq<u8>, pos: int, at: int)
    requires
        reaches(b, pos, at),
    ensures
        pos <= at,
{
}

proof fn lemma_reaches_frame(b: Seq<u8>, c: Seq<u8>, pos: int, at: int)
    requires
        0 <= pos,
        reaches(b, pos, at),
        at <= b.len(),
        at <= c.len(),
        forall|k: int| 0 <= k < at ==> b[k] == c[k],
    ensures
        reaches(c, pos, at),
    decreases b.len() - pos,
{
    if pos != at {
        let end = chunk_end(b, pos)->0;
        lemma_reaches_bound(b, end, at);
        lemma_reaches_frame(b, c, end, at);
        assert(chunk_type(b, pos) =~= chunk_type(c, pos));
        assert(chunk_data(b, pos) =~= chunk_data(c, pos));
    }
}

/// The XMP data reads back as the text that it was made of.
proof fn lemma_xmp_data(text: Seq<u8>)
    ensures
        xmp_text(xmp_data(text)) == Some(text),
        xmp_data(text).len() == text.len() + 22,
{
    let data = xmp_data(text);
    let k = xmp_keyword();
    assert(data.subrange(0, 17) =~= k);
    assert(forall|i: int| 0 <= i < 17 ==> #[trigger] data[i] == k[i]);
    assert(forall|i: int| 17 <= i < 22 ==> #[trigger] data[i] == 0u8);
    bytes::lemma_first_zero(data, 0);
    assert(bytes::first_zero(data, 0) == Some(17int)) by {
        assert(data[17] == 0);
        let z = bytes::first_zero(data, 0)->0;
        if z < 17 {
            assert(data[z] == k[z]);
        }
    }
    assert(bytes::first_zero(data, 20) == Some(20int)) by {
        assert(data[20] == 0);
    }
    assert(bytes::first_zero(data, 21) == Some(21int)) by {
        assert(data[21] == 0);
    }
    assert(data.subrange(22, data.len() as int) =~= text);
}

/// A part of a part is a part.
proof fn lemma_cut(c: Seq<u8>, at: int, part: Seq<u8>, i: int, j: int)
    requires
        0 <= at,
        0 <= i <= j <= part.len(),
        at + part.len() <= c.len(),
        c.subrange(at, at + part.len()) == part,
    ensures
        c.subrange(at + i, at + j) == part.subrange(i, j),
{
    let cut = c.subrange(at, at + part.len());
    assert(c.subrange(at + i, at + j) =~= cut.subrange(i, j));
}

/// Four parts one behind the other, the first two of four bytes.
proof fn lemma_laid_out(head: Seq<u8>, ctype: Seq<u8>, data: Seq<u8>, tail: Seq<u8>)
    requires
        head.len() == 4,
        ctype.len() == 4,
    ensures
        ({
            let all = head + (ctype + data) + tail;
            &&& all.len() == 8 + data.len() + tail.len()
            &&& all.subrange(0, 4) == head
            &&& all.subrange(4, 8) == ctype
            &&& all.subrange(8, 8int + data.len()) == data
        }),
{
    let all = head + (ctype + data) + tail;
    assert(all.subrange(0, 4) =~= head);
    assert(all.subrange(4, 8) =~= ctype);
    assert(all.subrange(8, 8int + data.len()) =~= data);
}

/// A number that is written at `at` is read there.
proof fn lemma_number_here(c: Seq<u8>, at: int, n: int)
    requires
        0 <= at,
        at + 4 <= c.len(),
        0 <= n < 0x1_0000_0000,
        c.subrange(at, at + 4) == bytes::be32_bytes(n),
    ensures
        bytes::be32_at(c, at) == n,
{
    bytes::lemma_be32_round_trip(n);
    let cut = c.subrange(at, at + 4);
    assert(cut[0] == c[at] && cut[1] == c[at + 1] && cut[2] == c[at + 2] && cut[3] == c[at + 3]);
}

/// A chunk written at `at` is read back there.
proof fn lemma_chunk_here(c: Seq<u8>, at: int, ctype: Seq<u8>, data: Seq<u8>)
    requires
        0 <= at,
        ctype.len() == 4,
        data.len() < 0x1_0000_0000,
        at + 12 + data.len() <= c.len(),
        c.subrange(at, at + 12 + data.len()) == chunk_bytes(ctype, data),
    ensures
        chunk_end(c, at) == Some(at + 12 + data.len()),
        chunk_type(c, at) == ctype,
        chunk_data(c, at) == data,
{
    let n = data.len() as int;
    let chunk = chunk_bytes(ctype, data);
    bytes::lemma_be32_round_trip(n);
    bytes::lemma_be32_round_trip(crc32_of(ctype + data) as int);
    lemma_laid_out(bytes::be32_bytes(n), ctype, data, bytes::be32_bytes(crc32_of(ctype + data) as int));
    lemma_cut(c, at, chunk, 0, 4);
    lemma_cut(c, at, chunk, 4, 8);
    lemma_cut(c, at, chunk, 8, 8 + n);
    lemma_number_here(c, at, n);
}

/// What a write does, in one place: the chunk is where `place_start` says, and a search finds
/// it there.
#[verifier::spinoff_prover]
#[verifier::rlimit(40)]
proof fn lemma_with_xmp(b: Seq<u8>, text: Seq<u8>)
    requires
        is_png_bytes(b),
        place_start(b) is Some,
        text.len() + 22 < 0x1_0000_0000,
    ensures
        ({
            let c = with_xmp(b, text);
            let at = place_start(b)->0;
            &&& is_png_bytes(c)
            &&& 8 <= at <= place_end(b) <= b.len()
            &&& chunk_bytes(itxt(), xmp_data(text)).len() == text.len() + 34
            &&& xmp_chunk_of(c) == Some(at)
            &&& chunk_end(c, at) == Some(at + text.len() + 34)
            &&& xmp_text(chunk_data(c, at)) == Some(text)
        }),
{
    let c = with_xmp(b, text);
    let data = xmp_data(text);
    let at = place_start(b)->0;
    let chunk = chunk_bytes(itxt(), data);
    lemma_found(b, 8);
    lemma_image(b, 8);
    lemma_xmp_data(text);
    lemma_chunk_len(itxt(), data);
    bytes::lemma_spliced(b, at, place_end(b), chunk);
    lemma_chunk_here(c, at, itxt(), data);
    lemma_reaches_frame(b, c, 8, at);
    lemma_reaches_from(c, 8, at);
    lemma_still_png(b, c, at);
}

proof fn lemma_chunk_len(ctype: Seq<u8>, data: Seq<u8>)
    ensures
        chunk_bytes(ctype, data).len() == data.len() + ctype.len() + 8,
{
    bytes::lemma_be32_round_trip(data.len() as int % 0x1_0000_0000);
    bytes::lemma_be32_round_trip(crc32_of(ctype + data) as int);
}

proof fn lemma_still_png(b: Seq<u8>, c: Seq<u8>, at: int)
    requires
        is_png_bytes(b),
        8 <= at <= c.len(),
        forall|k: int| 0 <= k < at ==> c[k] == b[k],
    ensures
        is_png_bytes(c),
{
    assert(c.subrange(0, 8) =~= b.subrange(0, 8));
}

/// The XMP chunk that is found holds XMP.
pub proof fn lemma_found_holds(b: Seq<u8>)
    ensures
        xmp_chunk_of(b) is Some <==> xmp_of(b) is Some,
{
    lemma_found(b, 8);
}

/// No file is both PNG and JPEG.
pub proof fn lemma_png_is_no_jpeg(b: Seq<u8>)
    requires
        is_png_bytes(b),
    ensures
        !crate::jpeg::is_jpeg_bytes(b),
{
    assert(b.subrange(0, 8)[0] == signature()[0]);
}

/// Reading the XMP back after writing it gives what was written.
pub proof fn read_back_xmp(b: Seq<u8>, text: Seq<u8>)
    requires
        is_png_bytes(b),
        place_start(b) is Some,
        text.len() + 22 < 0x1_0000_0000,
    ensures
        is_png_bytes(with_xmp(b, text)),
        xmp_of(with_xmp(b, text)) == Some(text),
{
    lemma_with_xmp(b, text);
}

/// Writing twice is writing the second text.
pub proof fn last_xmp_write_wins(b: Seq<u8>, first: Seq<u8>, second: Seq<u8>)
    requires
        is_png_bytes(b),
        place_start(b) is Some,
        first.len() + 22 < 0x1_0000_0000,
    ensures
        with_xmp(with_xmp(b, first), second) == with_xmp(b, second),
{
    lemma_with_xmp(b, first);
    bytes::lemma_respliced(
        b,
        place_start(b)->0,
        place_end(b),
        chunk_bytes(itxt(), xmp_data(first)),
        chunk_bytes(itxt(), xmp_data(second)),
    );
}

/// Removing after a write is the same as removing without it; where there was no XMP before,
/// it gives the file back.
pub proof fn remove_forgets_xmp_write(b: Seq<u8>, text: Seq<u8>)
    requires
        is_png_bytes(b),
        place_start(b) is Some,
        text.len() + 22 < 0x1_0000_0000,
    ensures
        without_xmp(with_xmp(b, text)) == without_xmp(b),
{
    lemma_with_xmp(b, text);
    let at = place_start(b)->0;
    bytes::lemma_respliced(
        b,
        at,
        place_end(b),
        chunk_bytes(itxt(), xmp_data(text)),
        Seq::empty(),
    );
    bytes::lemma_spliced_nothing(b, at);
}

/// The image data of the chunks at and after `pos`, up to the end chunk.
pub open spec fn pixels_from(b: Seq<u8>, pos: int) -> Seq<u8>
    decreases b.len() - pos,
{
    match chunk_end(b, pos) {
        None => Seq::empty(),
        Some(end) => if chunk_type(b, pos) == iend() {
            Seq::empty()
        } else if chunk_type(b, pos) == idat() {
            chunk_data(b, pos) + pixels_from(b, end)
        } else {
            pixels_from(b, end)
        },
    }
}

/// The image data of a PNG.
pub open spec fn pixels_of(b: Seq<u8>) -> Seq<u8> {
    pixels_from(b, 8)
}

proof fn lemma_same_pixels(b: Seq<u8>, c: Seq<u8>, pos: int, at: int)
    requires
        0 <= pos,
        reaches(b, pos, at),
        at <= b.len(),
        at <= c.len(),
        forall|k: int| 0 <= k < at ==> b[k] == c[k],
        pixels_from(b, at) == pixels_from(c, at),
    ensures
        pixels_from(b, pos) == pixels_from(c, pos),
    decreases b.len() - pos,
{
    if pos != at {
        let end = chunk_end(b, pos)->0;
        lemma_reaches_bound(b, end, at);
        lemma_same_pixels(b, c, end, at);
        assert(chunk_type(b, pos) =~= chunk_type(c, pos));
        assert(chunk_data(b, pos) =~= chunk_data(c, pos));
    }
}

proof fn lemma_shifted_pixels(b: Seq<u8>, i: int, c: Seq<u8>, j: int)
    requires
        0 <= i,
        0 <= j,
        b.len() - i == c.len() - j,
        forall|k: int| i <= k < b.len() ==> #[trigger] b[k] == c[k - i + j],
    ensures
        pixels_from(b, i) == pixels_from(c, j),
    decreases b.len() - i,
{
    if i + 8 <= b.len() {
        assert(b[i] == c[j] && b[i + 1] == c[j + 1] && b[i + 2] == c[j + 2] && b[i + 3] == c[j + 3]);
        match chunk_end(b, i) {
            None => {},
            Some(end) => {
                assert(chunk_type(b, i) =~= chunk_type(c, j));
                assert(chunk_data(b, i) =~= chunk_data(c, j));
                lemma_shifted_pixels(b, end, c, end - i + j);
            },
        }
    }
}

proof fn lemma_types_differ()
    ensures
        itxt() != idat(),
        itxt() != iend(),
{
    assert(itxt()[0] != idat()[0]);
    assert(itxt()[0] != iend()[0]);
}

/// Writing XMP leaves the image data as it was, byte for byte.
pub proof fn write_keeps_pixels(b: Seq<u8>, text: Seq<u8>)
    requires
        is_png_bytes(b),
        place_start(b) is Some,
        text.len() + 22 < 0x1_0000_0000,
    ensures
        pixels_of(with_xmp(b, text)) == pixels_of(b),
{
    let c = with_xmp(b, text);
    let at = place_start(b)->0;
    let end = at + text.len() + 34;
    lemma_with_xmp(b, text);
    lemma_found(b, 8);
    lemma_image(b, 8);
    lemma_found(c, 8);
    lemma_types_differ();
    bytes::lemma_spliced(b, at, place_end(b), chunk_bytes(itxt(), xmp_data(text)));
    assert(pixels_from(b, at) == pixels_from(b, place_end(b)));
    assert(pixels_from(c, at) == pixels_from(c, end));
    lemma_shifted_pixels(b, place_end(b), c, end);
    lemma_same_pixels(b, c, 8, at);
}

/// Taking XMP out leaves the image data as it was, byte for byte.
pub proof fn removal_keeps_pixels(b: Seq<u8>)
    requires
        is_png_bytes(b),
    ensures
        pixels_of(without_xmp(b)) == pixels_of(b),
{
    lemma_found(b, 8);
    if let Some(at) = xmp_chunk_of(b) {
        let c = without_xmp(b);
        let end = chunk_end(b, at)->0;
        lemma_types_differ();
        bytes::lemma_spliced(b, at, end, Seq::empty());
        assert(pixels_from(b, at) == pixels_from(b, end));
        lemma_shifted_pixels(b, end, c, at);
        lemma_same_pixels(b, c, 8, at);
    }
}

/// Whether the bytes start with the PNG signature.
pub fn is_png(bytes: &[u8]) -> (r: bool)
    ensures
        r == is_png_bytes(bytes@),
{
    let sig: [u8; 8] = [0x89, 0x50, 0x4E, 0x47, 0x0D, 0x0A, 0x1A, 0x0A];
    assert(sig@ =~= signature());
    bytes::bytes_start_with(bytes, &sig)
}

/// CRC-32 of a chunk's type and data (polynomial 0xEDB88320).
pub fn crc32(data: &[u8]) -> (crc: u32)
    ensures
        crc == crc32_of(data@),
{
    let mut crc: u32 = 0xFFFF_FFFF;
    let mut i: usize = 0;
    while i < data.len()
        invariant
            i <= data.len(),
            crc == crc_over(0xFFFF_FFFF, data@.subrange(0, i as int)),
        decreases data.len() - i,
    {
        let ghost before = crc;
        crc = crc ^ (data[i] as u32);
        let ghost mixed = crc;
        let mut n: u32 = 0;
        while n < 8
            invariant
                n <= 8,
                crc == crc_bits(mixed, n as nat),
            decreases 8 - n,
        {
            if crc & 1 == 1 {
                crc = (crc >> 1) ^ 0xEDB8_8320;
            } else {
                crc = crc >> 1;
            }
            n += 1;
        }
        proof {
            let next = data@.subrange(0, i + 1);
            assert(next.drop_last() =~= data@.subrange(0, i as int));
            assert(next.last() == data@[i as int]);
        }
        i += 1;
    }
    assert(data@.subrange(0, data@.len() as int) =~= data@);
    !crc
}

/// Finds where the chunk at `pos` ends, if a whole chunk stands there.
pub(crate) fn next_chunk(bytes: &[u8], pos: usize) -> (r: Option<usize>)
    requires
        pos <= bytes.len(),
    ensures
        match r {
            Some(end) => chunk_end(bytes@, pos as int) == Some(end as int) && pos + 12 <= end <= bytes.len(),
            None => chunk_end(bytes@, pos as int) is None,
        },
{
    if bytes.len() - pos < 12 {
        return None;
    }
    let len: usize = bytes::read_be32(bytes, pos);
    if len > bytes.len() - pos - 12 {
        return None;
    }
    Some(pos + 12 + len)
}

/// Reads the text out of the data of an XMP text chunk.
pub fn parse_itxt_xmp(data: &[u8]) -> (r: Option<Vec<u8>>)
    ensures
        match r {
            Some(text) => xmp_text(data@) == Some(text@),
            None => xmp_text(data@) is None,
        },
{
    let keyword: [u8; 17] = [
        0x58, 0x4D, 0x4C, 0x3A, 0x63, 0x6F, 0x6D, 0x2E, 0x61, 0x64, 0x6F, 0x62, 0x65, 0x2E, 0x78,
        0x6D, 0x70,
    ];
    assert(keyword@ =~= xmp_keyword());
    let keyword_end: usize = match bytes::find_zero(data, 0) {
        Some(z) => z,
        None => {
            return None;
        },
    };
    if !bytes::same_bytes(&data[0..keyword_end], &keyword) || data.len() - keyword_end < 3
        || data[keyword_end + 1] != 0 {
        return None;
    }
    let language_end: usize = match bytes::find_zero(data, keyword_end + 3) {
        Some(z) => z,
        None => {
            return None;
        },
    };
    match bytes::find_zero(data, language_end + 1) {
        Some(z) => Some(bytes::copy_bytes(&data[z + 1..data.len()])),
        None => None,
    }
}

/// Finds the XMP chunk of a PNG: its start, its end and its text.
pub fn find_png_xmp(bytes: &[u8]) -> (r: Option<(usize, usize, Vec<u8>)>)
    ensures
        match r {
            Some((start, end, text)) => xmp_chunk_of(bytes@) == Some(start as int)
                && chunk_end(bytes@, start as int) == Some(end as int) && xmp_of(bytes@) == Some(text@)
                && 8 <= start <= end <= bytes.len(),
            None => xmp_chunk_of(bytes@) is None,
        },
{
    if !is_png(bytes) {
        return None;
    }
    let kind_itxt: [u8; 4] = [0x69, 0x54, 0x58, 0x74];
    let kind_iend: [u8; 4] = [0x49, 0x45, 0x4E, 0x44];
    assert(kind_itxt@ =~= itxt());
    assert(kind_iend@ =~= iend());
    let mut pos: usize = 8;
    loop
        invariant
            is_png_bytes(bytes@),
            8 <= pos <= bytes.len(),
            kind_itxt@ == itxt(),
            kind_iend@ == iend(),
            xmp_chunk_of(bytes@) == xmp_chunk_from(bytes@, pos as int),
        decreases bytes.len() - pos,
    {
        match next_chunk(bytes, pos) {
            None => {
                return None;
            },
            Some(end) => {
                let kind: &[u8] = &bytes[pos + 4..pos + 8];
                if bytes::same_bytes(kind, &kind_itxt) {
                    match parse_itxt_xmp(&bytes[pos + 8..end - 4]) {
                        Some(text) => {
                            return Some((pos, end, text));
                        },
                        None => {},
                    }
                }
                if bytes::same_bytes(kind, &kind_iend) {
                    return None;
                }
                pos = end;
            },
        }
    }
}

/// Finds where a new XMP chunk goes: before the first image data chunk, or before the end
/// chunk if that comes first.
pub fn png_insert_pos(bytes: &[u8]) -> (r: Option<usize>)
    ensures
        match r {
            Some(at) => image_from(bytes@, 8) == Some(at as int) && 8 <= at <= bytes.len(),
            None => image_from(bytes@, 8) is None,
        },
{
    if bytes.len() < 8 {
        return None;
    }
    let kind_idat: [u8; 4] = [0x49, 0x44, 0x41, 0x54];
    let kind_iend: [u8; 4] = [0x49, 0x45, 0x4E, 0x44];
    assert(kind_idat@ =~= idat());
    assert(kind_iend@ =~= iend());
    let mut pos: usize = 8;
    loop
        invariant
            8 <= pos <= bytes.len(),
            kind_idat@ == idat(),
            kind_iend@ == iend(),
            image_from(bytes@, 8) == image_from(bytes@, pos as int),
        decreases bytes.len() - pos,
    {
        match next_chunk(bytes, pos) {
            None => {
                return None;
            },
            Some(end) => {
                let kind: &[u8] = &bytes[pos + 4..pos + 8];
                if bytes::same_bytes(kind, &kind_idat) || bytes::same_bytes(kind, &kind_iend) {
                    return Some(pos);
                }
                pos = end;
            },
        }
    }
}

/// Builds the XMP chunk that holds `text`.
fn build_xmp_chunk(text: &[u8]) -> (chunk: Vec<u8>)
    ensures
        chunk@ == chunk_bytes(itxt(), xmp_data(text@)),
{
    let mut body: Vec<u8> = vec![
        0x69, 0x54, 0x58, 0x74,
        0x58, 0x4D, 0x4C, 0x3A, 0x63, 0x6F, 0x6D, 0x2E, 0x61, 0x64, 0x6F, 0x62, 0x65, 0x2E, 0x78,
        0x6D, 0x70,
        0, 0, 0, 0, 0,
    ];
    bytes::append_bytes(&mut body, text);
    assert(body@ =~= itxt() + xmp_data(text@));
    let crc: u32 = crc32(body.as_slice());
    let mut chunk: Vec<u8> = Vec::new();
    let len: u64 = (body.len() as u64 - 4) % 0x1_0000_0000;
    bytes::append_be32(&mut chunk, len as u32);
    bytes::append_bytes(&mut chunk, body.as_slice());
    bytes::append_be32(&mut chunk, crc);
    chunk
}

/// Replaces the XMP chunk, or adds one before the image data. Without image data or an end
/// chunk to add it to, nothing changes and the result is `false`.
pub fn put_xmp(bytes: &mut Vec<u8>, text: &[u8]) -> (written: bool)
    ensures
        written == (place_start(old(bytes)@) is Some),
        final(bytes)@ == if written {
            with_xmp(old(bytes)@, text@)
        } else {
            old(bytes)@
        },
{
    let chunk: Vec<u8> = build_xmp_chunk(text);
    match find_png_xmp(bytes) {
        Some((start, end, _)) => {
            bytes::splice_bytes(bytes, start, end, chunk.as_slice());
            true
        },
        None => match png_insert_pos(bytes) {
            Some(at) => {
                bytes::splice_bytes(bytes, at, at, chunk.as_slice());
                true
            },
            None => false,
        },
    }
}

/// Takes the XMP chunk out, if there is one.
pub fn remove_png_xmp(bytes: &mut Vec<u8>) -> (removed: bool)
    ensures
        removed == (xmp_chunk_of(old(bytes)@) is Some),
        final(bytes)@ == without_xmp(old(bytes)@),
{
    match find_png_xmp(bytes) {
        Some((start, end, _)) => {
            let nothing: Vec<u8> = Vec::new();
            bytes::splice_bytes(bytes, start, end, nothing.as_slice());
            true
        },
        None => false,
    }
}

} // verus!
