//! How the file formats lay out what is stored.

use vstd::prelude::*;
use vstd::string::*;
use crate::bytes;
use crate::exif;
use crate::exif::Position;
use crate::iptc;
use crate::iptc::{DatasetView, IrbView};
use crate::jpeg;
use crate::png;
use crate::tags;
use crate::tags::{IfdInfo, Ratio};
use crate::text;
use crate::webp;
use crate::xmp;

verus! {

/// ASCII characters as bytes.
pub open spec fn ascii(s: Seq<char>) -> Seq<u8> {
    s.map_values(|c: char| c as u8)
}

/// The number that two bytes make, most significant first.
pub open spec fn two_bytes(b: Seq<u8>, i: int) -> int {
    b[i] * 256 + b[i + 1]
}

/// The number that four bytes make, most significant first.
pub open spec fn four_bytes(b: Seq<u8>, i: int) -> int {
    ((b[i] * 256 + b[i + 1]) * 256 + b[i + 2]) * 256 + b[i + 3]
}

/// The number that four bytes make, least significant first.
pub open spec fn four_bytes_back(b: Seq<u8>, i: int) -> int {
    ((b[i + 3] * 256 + b[i + 2]) * 256 + b[i + 1]) * 256 + b[i]
}

/// Numbers are stored with their most significant byte first or last, and read as they are stored.
pub proof fn numbers_are_bytes(n: int, b: Seq<u8>, i: int)
    ensures
        0 <= n < 0x1_0000 ==> bytes::be16_bytes(n).len() == 2 && two_bytes(bytes::be16_bytes(n), 0) == n,
        0 <= n < 0x1_0000_0000 ==> bytes::be32_bytes(n).len() == 4 && four_bytes(bytes::be32_bytes(n), 0) == n,
        0 <= n < 0x1_0000_0000 ==> bytes::le32_bytes(n).len() == 4 && four_bytes_back(bytes::le32_bytes(n), 0) == n,
        bytes::be16_at(b, i) == two_bytes(b, i),
        bytes::be32_at(b, i) == four_bytes(b, i),
        bytes::le32_at(b, i) == four_bytes_back(b, i),
        bytes::le16_at(b, i) == b[i + 1] * 256 + b[i],
{
    if 0 <= n < 0x1_0000_0000 {
        let (h, l) = (bytes::be16_bytes(n / 65536), bytes::be16_bytes(n % 65536));
        let s = bytes::be32_bytes(n);
        assert(s[0] == h[0] && s[1] == h[1] && s[2] == l[0] && s[3] == l[1]);
        assert(two_bytes(h, 0) == n / 65536 && two_bytes(l, 0) == n % 65536);
        bytes::lemma_le32_round_trip(n);
    }
}

// ---- JPEG -------------------------------------------------------------------------------

/// Whether a segment with this content stands at `p`: its marker, its length with the two bytes of
/// the length itself, and the content.
pub open spec fn segment_stands(c: Seq<u8>, p: int, marker: u8, content: Seq<u8>) -> bool {
    &&& 0 <= p
    &&& p + 4 + content.len() <= c.len()
    &&& c[p] == 0xFF
    &&& c[p + 1] == marker
    &&& two_bytes(c, p + 2) == content.len() + 2
    &&& c.subrange(p + 4, p + 4 + content.len()) == content
}

pub(crate) proof fn lemma_segment(a: Seq<u8>, marker: u8, content: Seq<u8>, z: Seq<u8>)
    requires
        content.len() + 2 < 0x1_0000,
    ensures
        segment_stands(a + jpeg::segment_bytes(marker, content) + z, a.len() as int, marker, content),
{
    let s = jpeg::segment_bytes(marker, content);
    let c = a + s + z;
    let p = a.len() as int;
    let n = bytes::be16_bytes((content.len() + 2) as int);
    numbers_are_bytes((content.len() + 2) as int, c, p + 2);
    assert(c[p] == s[0] && c[p + 1] == s[1] && c[p + 2] == s[2] && c[p + 3] == s[3]);
    assert(s[2] == n[0] && s[3] == n[1]);
    assert(c.subrange(p + 4, p + 4 + content.len()) =~= content);
}

proof fn lemma_place(b: Seq<u8>, marker: u8, sig: Seq<u8>, body: Seq<u8>)
    requires
        jpeg::is_jpeg_bytes(b),
        jpeg::sized(marker),
        sig.len() + body.len() + 2 < 0x1_0000,
    ensures
        ({
            let p = jpeg::place_start(b, marker, sig);
            let c = jpeg::with_segment(b, marker, sig, body);
            &&& 2 <= p <= b.len()
            &&& segment_stands(c, p, marker, sig + body)
            &&& c.take(p) == b.take(p)
        }),
{
    let p = jpeg::place_start(b, marker, sig);
    let e = jpeg::place_end(b, marker, sig);
    jpeg::lemma_places(b, marker, sig);
    lemma_segment(b.subrange(0, p), marker, sig + body, b.subrange(e, b.len() as int));
    let c = jpeg::with_segment(b, marker, sig, body);
    assert(c.take(p) =~= b.take(p));
}

/// An XMP packet is stored in a JPEG in an APP1 segment that begins with the name of its namespace
/// and a zero, behind the start of the image.
pub proof fn xmp_is_stored_in_app1(b: Seq<u8>, packet: Seq<u8>)
    requires
        jpeg::is_jpeg_bytes(b),
        packet.len() + 31 < 0x1_0000,
    ensures
        exists|p: int|
            2 <= p && #[trigger] segment_stands(
                jpeg::with_segment(b, xmp::APP1, xmp::xmp_signature(), packet),
                p,
                0xE1,
                ascii("http://ns.adobe.com/xap/1.0/"@) + seq![0u8] + packet,
            ),
{
    reveal_strlit("http://ns.adobe.com/xap/1.0/");
    let sig = xmp::xmp_signature();
    assert(sig =~= ascii("http://ns.adobe.com/xap/1.0/"@) + seq![0u8]);
    lemma_place(b, xmp::APP1, sig, packet);
    let p = jpeg::place_start(b, xmp::APP1, sig);
    assert(segment_stands(jpeg::with_segment(b, xmp::APP1, sig, packet), p, 0xE1, sig + packet));
}

/// Image resources are stored in a JPEG in an APP13 segment that begins with `Photoshop 3.0` and a
/// zero.
pub proof fn resources_are_stored_in_app13(b: Seq<u8>, stream: Seq<u8>)
    requires
        jpeg::is_jpeg_bytes(b),
        stream.len() + 16 < 0x1_0000,
    ensures
        exists|p: int|
            2 <= p && #[trigger] segment_stands(
                jpeg::with_segment(b, iptc::APP13, iptc::ps_signature(), stream),
                p,
                0xED,
                ascii("Photoshop 3.0"@) + seq![0u8] + stream,
            ),
{
    reveal_strlit("Photoshop 3.0");
    let sig = iptc::ps_signature();
    assert(sig =~= ascii("Photoshop 3.0"@) + seq![0u8]);
    lemma_place(b, iptc::APP13, sig, stream);
    let p = jpeg::place_start(b, iptc::APP13, sig);
    assert(segment_stands(jpeg::with_segment(b, iptc::APP13, sig, stream), p, 0xED, sig + stream));
}

/// EXIF is stored in a JPEG in an APP1 segment right behind the start of the image, which begins with
/// `Exif` and two zeros.
pub proof fn exif_is_stored_first(b: Seq<u8>, data: Seq<u8>)
    requires
        jpeg::is_jpeg_bytes(b),
        data.len() + 8 < 0x1_0000,
    ensures
        segment_stands(jpeg::with_exif(b, data), 2, 0xE1, ascii("Exif"@) + seq![0u8, 0u8] + data),
        jpeg::is_jpeg_bytes(jpeg::with_exif(b, data)),
{
    reveal_strlit("Exif");
    let sig = jpeg::exif_signature();
    assert(sig =~= ascii("Exif"@) + seq![0u8, 0u8]);
    let rest = jpeg::without_all(b, 2, jpeg::EXIF_MARKER, sig);
    lemma_segment(b.take(2), jpeg::EXIF_MARKER, sig + data, rest);
    let c = jpeg::with_exif(b, data);
    assert(c[0] == b[0] && c[1] == b[1]);
}

// ---- IPTC -------------------------------------------------------------------------------

/// A dataset is stored as its mark, its two numbers, the length of its data and the data.
pub proof fn datasets_are_stored(d: DatasetView)
    requires
        d.data.len() < 0x8000,
    ensures
        ({
            let s = iptc::iim_bytes(d);
            &&& s.len() == 5 + d.data.len()
            &&& s[0] == 0x1C
            &&& s[1] == d.record
            &&& s[2] == d.number
            &&& two_bytes(s, 3) == d.data.len()
            &&& s.skip(5) == d.data
        }),
{
    let s = iptc::iim_bytes(d);
    let n = bytes::be16_bytes(d.data.len() as int);
    numbers_are_bytes(d.data.len() as int, s, 3);
    assert(s[3] == n[0] && s[4] == n[1]);
    assert(s.skip(5) =~= d.data);
}

/// A resource without a name is stored as `8BIM`, its number, an empty name, the length of its data
/// and the data, filled up to an even length.
pub proof fn resources_are_stored(b: IrbView)
    requires
        b.name.len() == 0,
        b.data.len() < 0x1_0000_0000,
    ensures
        ({
            let s = iptc::irb_bytes(b);
            &&& s.len() % 2 == 0
            &&& s.len() == 12 + b.data.len() + b.data.len() % 2
            &&& s.take(4) == ascii("8BIM"@)
            &&& two_bytes(s, 4) == b.id
            &&& s[6] == 0 && s[7] == 0
            &&& four_bytes(s, 8) == b.data.len()
            &&& s.subrange(12, 12 + b.data.len() as int) == b.data
        }),
{
    let s = iptc::irb_bytes(b);
    let id = bytes::be16_bytes(b.id as int);
    let n = bytes::be32_bytes(b.data.len() as int);
    let pad = iptc::pad(b.data.len() as int);
    lemma_mark();
    lemma_nameless(b);
    numbers_are_bytes(b.id as int, s, 4);
    numbers_are_bytes(b.data.len() as int, s, 8);
    lemma_resource_parts(iptc::block_mark(), id, n, b.data, pad);
}

proof fn lemma_mark()
    ensures
        iptc::block_mark() == ascii("8BIM"@),
{
    reveal_strlit("8BIM");
    assert(iptc::block_mark() =~= ascii("8BIM"@));
}

proof fn lemma_nameless(b: IrbView)
    requires
        b.name.len() == 0,
        b.data.len() < 0x1_0000_0000,
    ensures
        iptc::irb_bytes(b) == iptc::block_mark() + bytes::be16_bytes(b.id as int) + seq![0u8, 0u8] + bytes::be32_bytes(
            b.data.len() as int,
        ) + b.data + iptc::pad(b.data.len() as int),
{
    reveal(iptc::irb_bytes);
    let len: u8 = b.name.len() as u8;
    assert(len == 0);
    assert(b.data.len() as int % 0x1_0000_0000 == b.data.len());
    assert(iptc::pad((1 + b.name.len()) as int) == seq![0u8]);
    lemma_merged(
        iptc::block_mark() + bytes::be16_bytes(b.id as int),
        seq![len],
        b.name,
        seq![0u8],
    );
    assert(seq![len] + b.name + seq![0u8] =~= seq![0u8, 0u8]);
}

proof fn lemma_merged(a: Seq<u8>, b: Seq<u8>, c: Seq<u8>, d: Seq<u8>)
    ensures
        a + b + c + d == a + (b + c + d),
{
    assert(a + b + c + d =~= a + (b + c + d));
}

proof fn lemma_resource_parts(mark: Seq<u8>, id: Seq<u8>, n: Seq<u8>, data: Seq<u8>, pad: Seq<u8>)
    requires
        mark.len() == 4,
        id.len() == 2,
        n.len() == 4,
    ensures
        ({
            let s = mark + id + seq![0u8, 0u8] + n + data + pad;
            &&& s.len() == 12 + data.len() + pad.len()
            &&& s.take(4) == mark
            &&& two_bytes(s, 4) == two_bytes(id, 0)
            &&& s[6] == 0 && s[7] == 0
            &&& four_bytes(s, 8) == four_bytes(n, 0)
            &&& s.subrange(12, 12 + data.len() as int) == data
        }),
{
    let s = mark + id + seq![0u8, 0u8] + n + data + pad;
    assert(s.take(4) =~= mark);
    assert(s[4] == id[0] && s[5] == id[1]);
    assert(s[8] == n[0] && s[9] == n[1] && s[10] == n[2] && s[11] == n[3]);
    assert(s.subrange(12, 12 + data.len() as int) =~= data);
}

/// IPTC is the resource of the number 1028, in front of the others.
pub proof fn iptc_is_the_first_resource(s: Seq<IrbView>, datasets: Seq<DatasetView>)
    ensures
        iptc::blocks_with(s, datasets)[0].id == 1028,
        iptc::blocks_with(s, datasets)[0].data == iptc::iim_stream(iptc::in_order(datasets)),
        iptc::blocks_with(s, datasets).skip(1) == iptc::other_blocks(s),
{
    assert(iptc::blocks_with(s, datasets).skip(1) =~= iptc::other_blocks(s));
}

// ---- PNG and WebP -----------------------------------------------------------------------

/// A chunk of a PNG is stored as the length of its data, its type, the data and a check sum over type
/// and data.
pub proof fn chunks_are_stored(kind: Seq<u8>, data: Seq<u8>)
    requires
        kind.len() == 4,
        data.len() < 0x1_0000_0000,
    ensures
        ({
            let s = png::chunk_bytes(kind, data);
            &&& s.len() == 12 + data.len()
            &&& four_bytes(s, 0) == data.len()
            &&& s.subrange(4, 8) == kind
            &&& s.subrange(8, 8 + data.len() as int) == data
            &&& four_bytes(s, 8 + data.len() as int) == png::crc32_of(kind + data)
        }),
{
    let s = png::chunk_bytes(kind, data);
    let n = bytes::be32_bytes(data.len() as int);
    let crc = png::crc32_of(kind + data) as int;
    let k = bytes::be32_bytes(crc);
    numbers_are_bytes(data.len() as int, s, 0);
    numbers_are_bytes(crc, s, 0);
    assert(data.len() as int % 0x1_0000_0000 == data.len());
    assert(s == n + (kind + data) + k);
    lemma_four_parts(n, kind, data, k);
}

proof fn lemma_four_parts(n: Seq<u8>, kind: Seq<u8>, data: Seq<u8>, k: Seq<u8>)
    requires
        n.len() == 4,
        kind.len() == 4,
        k.len() == 4,
    ensures
        ({
            let s = n + (kind + data) + k;
            &&& s.len() == 12 + data.len()
            &&& four_bytes(s, 0) == four_bytes(n, 0)
            &&& s.subrange(4, 8) == kind
            &&& s.subrange(8, 8 + data.len() as int) == data
            &&& four_bytes(s, 8 + data.len() as int) == four_bytes(k, 0)
        }),
{
    let s = n + (kind + data) + k;
    let m = 8 + data.len() as int;
    assert(s[0] == n[0] && s[1] == n[1] && s[2] == n[2] && s[3] == n[3]);
    assert(s[m] == k[0] && s[m + 1] == k[1] && s[m + 2] == k[2] && s[m + 3] == k[3]);
    assert(s.subrange(4, 8) =~= kind);
    assert(s.subrange(8, m) =~= data);
}

/// XMP is stored in a PNG in a chunk of international text: the keyword, a zero, two zeros for no
/// compression, two zeros for no language and no translation, and the packet.
pub proof fn xmp_is_stored_as_text(packet: Seq<u8>)
    ensures
        png::itxt() == ascii("iTXt"@),
        png::idat() == ascii("IDAT"@),
        png::iend() == ascii("IEND"@),
        png::xmp_data(packet) == ascii("XML:com.adobe.xmp"@) + seq![0u8, 0u8, 0u8, 0u8, 0u8] + packet,
{
    reveal_strlit("iTXt");
    reveal_strlit("IDAT");
    reveal_strlit("IEND");
    reveal_strlit("XML:com.adobe.xmp");
    assert(png::itxt() =~= ascii("iTXt"@));
    assert(png::idat() =~= ascii("IDAT"@));
    assert(png::iend() =~= ascii("IEND"@));
    assert(png::xmp_keyword() =~= ascii("XML:com.adobe.xmp"@));
}

/// EXIF is stored in a WebP in a chunk of that name: its length, least significant byte first, and the
/// data, filled up to an even length.
pub proof fn webp_chunks_are_stored(data: Seq<u8>)
    requires
        data.len() < 0x1_0000_0000,
    ensures
        ({
            let s = webp::exif_chunk(data);
            &&& s.len() == 8 + data.len() + data.len() % 2
            &&& s.take(4) == ascii("EXIF"@)
            &&& four_bytes_back(s, 4) == data.len()
            &&& s.subrange(8, 8 + data.len() as int) == data
        }),
{
    reveal_strlit("EXIF");
    let s = webp::exif_chunk(data);
    let n = bytes::le32_bytes(data.len() as int);
    numbers_are_bytes(data.len() as int, s, 4);
    assert(s.take(4) =~= ascii("EXIF"@));
    assert(s[4] == n[0] && s[5] == n[1] && s[6] == n[2] && s[7] == n[3]);
    assert(s.subrange(8, 8 + data.len() as int) =~= data);
}

// ---- EXIF -------------------------------------------------------------------------------

/// Whether the eight bytes from `i` on are this fraction.
pub open spec fn holds_ratio(b: Seq<u8>, i: int, r: Ratio) -> bool {
    i + 8 <= b.len() && four_bytes_back(b, i) == r.num && four_bytes_back(b, i + 4) == r.den
}

proof fn lemma_ratio(a: Seq<u8>, r: Ratio, z: Seq<u8>)
    ensures
        holds_ratio(a + exif::ratio_bytes(r) + z, a.len() as int, r),
{
    let s = a + exif::ratio_bytes(r) + z;
    let i = a.len() as int;
    let (n, d) = (bytes::le32_bytes(r.num as int), bytes::le32_bytes(r.den as int));
    numbers_are_bytes(r.num as int, s, i);
    numbers_are_bytes(r.den as int, s, i + 4);
    assert(s[i] == n[0] && s[i + 1] == n[1] && s[i + 2] == n[2] && s[i + 3] == n[3]);
    assert(s[i + 4] == d[0] && s[i + 5] == d[1] && s[i + 6] == d[2] && s[i + 7] == d[3]);
}

proof fn lemma_angle(a: exif::Angle)
    ensures
        exif::angle_bytes(a).len() == 24,
        holds_ratio(exif::angle_bytes(a), 0, a.degrees),
        holds_ratio(exif::angle_bytes(a), 8, a.minutes),
        holds_ratio(exif::angle_bytes(a), 16, a.seconds),
{
    let e = Seq::<u8>::empty();
    let (d, m, s) = (exif::ratio_bytes(a.degrees), exif::ratio_bytes(a.minutes), exif::ratio_bytes(a.seconds));
    let all = exif::angle_bytes(a);
    assert(all =~= e + d + (m + s));
    assert(all =~= d + m + s);
    assert(all =~= (d + m) + s + e);
    lemma_ratio(e, a.degrees, m + s);
    lemma_ratio(d, a.minutes, s);
    lemma_ratio(d + m, a.seconds, e);
}

/// A position is stored in the tags of the GPS group: the letters of its hemispheres, degrees, minutes
/// and seconds as fractions, and the height with whether it is below the sea.
pub proof fn positions_are_stored(p: Position)
    ensures
        ({
            let t = exif::position_tags(p);
            &&& forall|i: int| 0 <= i < t.len() ==> (#[trigger] t[i]).group == 3
            &&& t[0].hex == 0 && t[0].data == seq![2u8, 3, 0, 0]
            &&& t[1].hex == 1 && t[1].format == 2 && t[1].data == vstd::utf8::encode_utf8(
                if p.south {
                    "S"@
                } else {
                    "N"@
                },
            ) + seq![0u8]
            &&& t[2].hex == 2 && t[2].format == 5 && holds_ratio(t[2].data, 0, p.lat.degrees) && holds_ratio(
                t[2].data,
                8,
                p.lat.minutes,
            ) && holds_ratio(t[2].data, 16, p.lat.seconds)
            &&& t[3].hex == 3 && t[3].format == 2 && t[3].data == vstd::utf8::encode_utf8(
                if p.west {
                    "W"@
                } else {
                    "E"@
                },
            ) + seq![0u8]
            &&& t[4].hex == 4 && t[4].format == 5 && holds_ratio(t[4].data, 0, p.lon.degrees) && holds_ratio(
                t[4].data,
                8,
                p.lon.minutes,
            ) && holds_ratio(t[4].data, 16, p.lon.seconds)
            &&& t.len() == if p.alt is Some { 7int } else { 5 }
            &&& p.alt is Some ==> {
                &&& t[5].hex == 5 && t[5].data == seq![if (p.alt->0).below { 1u8 } else { 0u8 }]
                &&& t[6].hex == 6 && t[6].format == 5 && holds_ratio(t[6].data, 0, (p.alt->0).metres)
            }
        }),
{
    let t = exif::position_tags(p);
    lemma_angle(p.lat);
    lemma_angle(p.lon);
    reveal_strlit("N");
    reveal_strlit("S");
    reveal_strlit("E");
    reveal_strlit("W");
    assert(text::without_zeros(exif::lat_letter(p)) == exif::lat_letter(p));
    assert(text::without_zeros(exif::lon_letter(p)) == exif::lon_letter(p));
    if let Some(a) = p.alt {
        let e = Seq::<u8>::empty();
        lemma_ratio(e, a.metres, e);
        assert(e + exif::ratio_bytes(a.metres) + e =~= exif::ratio_bytes(a.metres));
    }
}

/// The original time counts before that of digitising, and that before the time of the last change.
pub proof fn original_time_counts_first(s: Seq<IfdInfo>)
    ensures
        ({
            let (o, d, m) = (
                exif::field_text(s, 1, 0x9003),
                exif::field_text(s, 1, 0x9004),
                exif::field_text(s, 0, 0x0132),
            );
            &&& o is Some ==> exif::capture_time(s) == o
            &&& o is None && d is Some ==> exif::capture_time(s) == d
            &&& o is None && d is None ==> exif::capture_time(s) == m
        }),
{
}

/// A comment is stored behind the mark of ASCII.
pub proof fn comments_are_marked(comment: Seq<char>)
    ensures
        ({
            let t = exif::comment_info(comment);
            &&& t.group == 1 && t.hex == 0x9286 && t.format == 7
            &&& t.data == ascii("ASCII"@) + seq![0u8, 0u8, 0u8] + vstd::utf8::encode_utf8(comment)
        }),
{
    reveal_strlit("ASCII");
    assert(exif::ascii_mark() =~= ascii("ASCII"@) + seq![0u8, 0u8, 0u8]);
}

/// The orientation is the number in its tag, if it is one of the eight that there are, and upright if
/// not.
pub proof fn orientations_are_read(s: Seq<IfdInfo>)
    ensures
        match tags::first_tag(s, 0, 0x0112) {
            None => exif::orientation_of(s) == 1,
            Some(t) => {
                &&& t.data.len() < 2 ==> exif::orientation_of(s) == 1
                &&& t.data.len() >= 2 && t.data[1] == 0 && 1 <= t.data[0] <= 8 ==> exif::orientation_of(s) == t.data[0]
                &&& t.data.len() >= 2 && (t.data[1] != 0 || t.data[0] == 0 || t.data[0] > 8) ==> exif::orientation_of(s)
                    == 1
            },
        },
{
}

} // verus!
