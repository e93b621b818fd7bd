//! Which images `little_exif` can take. It checks what it reads by assertions of its own in some
//! places, and goes by lengths that it has read; an image is handed over only where none of the
//! assertions can fail and every length leads on.

use vstd::prelude::*;
use vstd::string::*;
use vstd::utf8::{decode_utf8, valid_utf8};
use crate::bytes;
use crate::jpeg;
use crate::jxl;
use crate::png;
use crate::text;
use crate::xml;
use crate::xml::{EventView, XmlEvent};

verus! {

// ---- kinds of images --------------------------------------------------------------------

/// Whether an extension is one of a JPEG.
pub open spec fn is_jpeg_name(extension: Seq<char>) -> bool {
    text::lowered(extension) == "jpg"@ || text::lowered(extension) == "jpeg"@
}

/// Whether an extension is that of a PNG.
pub open spec fn is_png_name(extension: Seq<char>) -> bool {
    text::lowered(extension) == "png"@
}

/// Whether an extension is that of a WebP.
pub open spec fn is_webp_name(extension: Seq<char>) -> bool {
    text::lowered(extension) == "webp"@
}

/// Whether an extension is one of a TIFF.
pub open spec fn is_tiff_name(extension: Seq<char>) -> bool {
    text::lowered(extension) == "tif"@ || text::lowered(extension) == "tiff"@
}

/// Whether an extension is that of a JPEG XL image.
pub open spec fn is_jxl_name(extension: Seq<char>) -> bool {
    text::lowered(extension) == "jxl"@
}

/// Whether an extension is one of HEIF and its kin.
pub open spec fn is_heif_name(extension: Seq<char>) -> bool {
    let e = text::lowered(extension);
    e == "heif"@ || e == "hif"@ || e == "heic"@ || e == "avif"@
}

/// The extension of a PNG is not one of a JPEG.
pub(crate) proof fn lemma_png_name(extension: Seq<char>)
    requires
        is_png_name(extension),
    ensures
        !is_jpeg_name(extension),
{
    reveal_strlit("png");
    reveal_strlit("jpg");
    reveal_strlit("jpeg");
    assert("png"@[0] == 'p' && "jpg"@[0] == 'j' && "jpeg"@[0] == 'j');
}

/// The extension of a JPEG XL image is that of no other kind.
pub(crate) proof fn lemma_jxl_name(extension: Seq<char>)
    requires
        is_jxl_name(extension),
    ensures
        !is_jpeg_name(extension),
        !is_png_name(extension),
        !is_webp_name(extension),
        !is_tiff_name(extension),
{
    reveal_strlit("jxl");
    reveal_strlit("jpg");
    reveal_strlit("jpeg");
    reveal_strlit("png");
    reveal_strlit("webp");
    reveal_strlit("tif");
    reveal_strlit("tiff");
    let e = text::lowered(extension);
    assert(e.len() == 3 && e[0] == 'j' && e[1] == 'x');
}

/// Whether an extension is one of a TIFF.
pub fn names_tiff(extension: &str) -> (r: bool)
    ensures
        r == is_tiff_name(extension@),
{
    let e: Vec<char> = text::lower_chars(text::chars_of(extension).as_slice());
    text::is_text(e.as_slice(), "tif") || text::is_text(e.as_slice(), "tiff")
}

/// Whether an extension is one of HEIF and its kin.
pub fn names_heif(extension: &str) -> (r: bool)
    ensures
        r == is_heif_name(extension@),
{
    let e: Vec<char> = text::lower_chars(text::chars_of(extension).as_slice());
    text::is_text(e.as_slice(), "heif") || text::is_text(e.as_slice(), "hif") || text::is_text(
        e.as_slice(),
        "heic",
    ) || text::is_text(e.as_slice(), "avif")
}

// ---- JPEG -------------------------------------------------------------------------------

/// Whether every segment from `i` on has a length that counts its own two bytes, up to the end
/// of the image or of the bytes. `scan` says that image data begins at `i`.
pub open spec fn segments_ok(b: Seq<u8>, i: int, scan: bool) -> bool
    decreases b.len() - i, if scan { 1int } else { 0int },
{
    if i < 0 || i + 1 >= b.len() {
        true
    } else if b[i] != 0xFF {
        segments_ok(b, i + 1, scan)
    } else if scan {
        if jpeg::is_data_byte(b[i + 1]) {
            segments_ok(b, i + 1, true)
        } else {
            segments_ok(b, i, false)
        }
    } else if b[i + 1] == 0xD9 || i + 3 >= b.len() {
        true
    } else {
        let next = i + 2 + bytes::be16_at(b, i + 2);
        next >= i + 4 && (next >= b.len() || segments_ok(b, next, b[i + 1] == 0xDA))
    }
}

/// Whether the lengths in a JPEG can be gone by. What is no JPEG is refused without going by them.
pub open spec fn jpeg_taken(b: Seq<u8>) -> bool {
    jpeg::is_jpeg_bytes(b) ==> segments_ok(b, 2, false)
}

fn takes_jpeg(b: &[u8]) -> (r: bool)
    ensures
        r == jpeg_taken(b@),
{
    if !jpeg::is_jpeg(b) {
        return true;
    }
    let mut i: usize = 2;
    let mut scan: bool = false;
    while i < b.len() - 1
        invariant
            b.len() >= 2,
            0 <= i <= b.len(),
            jpeg::is_jpeg_bytes(b@),
            segments_ok(b@, 2, false) == segments_ok(b@, i as int, scan),
        decreases b.len() - i, if scan { 1int } else { 0int },
    {
        if b[i] != 0xFF {
            i += 1;
        } else if scan {
            if b[i + 1] == 0 || (0xD0 <= b[i + 1] && b[i + 1] <= 0xD7) {
                i += 1;
            } else {
                scan = false;
            }
        } else if b[i + 1] == 0xD9 || b.len() - i <= 3 {
            return true;
        } else {
            let n: usize = bytes::read_be16(b, i + 2);
            if n < 2 {
                return false;
            }
            if n >= b.len() - i - 2 {
                return true;
            }
            scan = b[i + 1] == 0xDA;
            i = i + 2 + n;
        }
    }
    true
}

// ---- PNG --------------------------------------------------------------------------------

/// The type of chunks of plain text.
pub open spec fn plain_text() -> Seq<u8> {
    seq![0x74u8, 0x45, 0x58, 0x74]
}

/// The type of chunks of compressed text.
pub open spec fn packed_text() -> Seq<u8> {
    seq![0x7Au8, 0x54, 0x58, 0x74]
}

/// Whether the data of a text chunk has the keyword of XMP.
pub open spec fn names_xmp(data: Seq<u8>) -> bool {
    bytes::begins_with(data, png::xmp_keyword()) && (data.len() == 17 || data[17] == 0)
}

/// How many elements of EXIF are open behind the first `n` events, where an end tag closes the
/// innermost of them, whatever its name.
pub open spec fn exif_depth(events: Seq<EventView>, n: int) -> int
    decreases n,
{
    if n <= 0 {
        0
    } else {
        let d = exif_depth(events, n - 1);
        match events[n - 1] {
            EventView::Start(name, _, _, _) => if text::has_prefix(name, "exif:"@) {
                d + 1
            } else {
                d
            },
            EventView::End(_, _, _) => if d > 0 {
                d - 1
            } else {
                d
            },
            _ => d,
        }
    }
}

/// Whether a document that is read to its end leaves no element of EXIF open.
pub open spec fn exif_closed(document: Seq<char>) -> bool {
    let events = xml::document_events(document);
    events.last() is Eof ==> exif_depth(events, events.len() as int) == 0
}

/// The XMP in a text chunk of this type and data, if it is not compressed: what stands behind the
/// keyword and its zero, and in international text, which is in UTF-8 throughout, behind its other
/// fields.
pub open spec fn xmp_in(ctype: Seq<u8>, data: Seq<u8>) -> Option<Seq<u8>> {
    if ctype == png::itxt() && valid_utf8(data) {
        png::xmp_text(data)
    } else if ctype == plain_text() && data.len() >= 18 {
        Some(data.subrange(18, data.len() as int))
    } else {
        None
    }
}

/// Whether a chunk of XMP can be searched for EXIF: text as it stands, in UTF-8, that leaves no
/// element of EXIF open.
pub open spec fn xmp_taken(ctype: Seq<u8>, data: Seq<u8>) -> bool {
    match xmp_in(ctype, data) {
        Some(t) => valid_utf8(t) && exif_closed(decode_utf8(t)),
        None => false,
    }
}

/// Whether a chunk of this type and data can be gone through.
pub open spec fn chunk_taken(ctype: Seq<u8>, data: Seq<u8>) -> bool {
    (ctype == png::itxt() || ctype == plain_text() || ctype == packed_text()) && names_xmp(data) ==> xmp_taken(
        ctype,
        data,
    )
}

/// Whether whole chunks lead from `pos` to the end chunk and each of them can be gone through.
pub open spec fn chunks_ok(b: Seq<u8>, pos: int) -> bool
    decreases b.len() - pos,
{
    match png::chunk_end(b, pos) {
        None => false,
        Some(end) => chunk_taken(png::chunk_type(b, pos), png::chunk_data(b, pos)) && (png::chunk_type(b, pos)
            == png::iend() || chunks_ok(b, end)),
    }
}

/// Whether the chunks of a PNG can be gone through. What is no PNG is refused without that.
pub open spec fn png_taken(b: Seq<u8>) -> bool {
    png::is_png_bytes(b) ==> chunks_ok(b, 8)
}

fn closes_exif(document: &str) -> (r: bool)
    ensures
        r == exif_closed(document@),
{
    let events: Vec<XmlEvent> = xml::read_events(document);
    let ghost all = xml::document_events(document@);
    let mut depth: usize = 0;
    let mut i: usize = 0;
    while i < events.len()
        invariant
            i <= events.len(),
            depth <= i,
            xml::events_view(events@) == all,
            depth == exif_depth(all, i as int),
        decreases events.len() - i,
    {
        assert(all[i as int] == events@[i as int]@);
        match &events[i] {
            XmlEvent::Start(name, _, _, _) => {
                let cs: Vec<char> = text::chars_of(name.as_str());
                let wanted: Vec<char> = text::chars_of("exif:");
                if text::stands_at(cs.as_slice(), 0, wanted.as_slice()) {
                    depth += 1;
                }
            },
            XmlEvent::End(_, _, _) => {
                if depth > 0 {
                    depth -= 1;
                }
            },
            _ => {},
        }
        i += 1;
    }
    assert(all.last() == events@[events@.len() - 1]@);
    match &events[events.len() - 1] {
        XmlEvent::Eof => depth == 0,
        _ => true,
    }
}

fn takes_xmp(ctype: &[u8], data: &[u8]) -> (r: bool)
    ensures
        r == xmp_taken(ctype@, data@),
{
    let international: [u8; 4] = [0x69, 0x54, 0x58, 0x74];
    let plain: [u8; 4] = [0x74, 0x45, 0x58, 0x74];
    assert(international@ =~= png::itxt());
    assert(plain@ =~= plain_text());
    assert(png::itxt()[0] != plain_text()[0]);
    let found: Option<Vec<u8>> = if bytes::same_bytes(ctype, &international) {
        if text::utf8_text(data).is_none() {
            return false;
        }
        png::parse_itxt_xmp(data)
    } else if bytes::same_bytes(ctype, &plain) && data.len() >= 18 {
        Some(bytes::copy_bytes(&data[18..data.len()]))
    } else {
        None
    };
    match found {
        Some(t) => match text::utf8_text(t.as_slice()) {
            Some(document) => closes_exif(document.as_str()),
            None => false,
        },
        None => false,
    }
}

fn takes_chunk(ctype: &[u8], data: &[u8]) -> (r: bool)
    ensures
        r == chunk_taken(ctype@, data@),
{
    let international: [u8; 4] = [0x69, 0x54, 0x58, 0x74];
    let plain: [u8; 4] = [0x74, 0x45, 0x58, 0x74];
    let packed: [u8; 4] = [0x7A, 0x54, 0x58, 0x74];
    let keyword: [u8; 17] = [
        0x58, 0x4D, 0x4C, 0x3A, 0x63, 0x6F, 0x6D, 0x2E, 0x61, 0x64, 0x6F, 0x62, 0x65, 0x2E, 0x78,
        0x6D, 0x70,
    ];
    assert(international@ =~= png::itxt());
    assert(plain@ =~= plain_text());
    assert(packed@ =~= packed_text());
    assert(keyword@ =~= png::xmp_keyword());
    let is_text: bool = bytes::same_bytes(ctype, &international) || bytes::same_bytes(ctype, &plain)
        || bytes::same_bytes(ctype, &packed);
    if is_text && bytes::bytes_start_with(data, &keyword) && (data.len() == 17 || data[17] == 0) {
        takes_xmp(ctype, data)
    } else {
        true
    }
}

fn takes_png(b: &[u8]) -> (r: bool)
    ensures
        r == png_taken(b@),
{
    if !png::is_png(b) {
        return true;
    }
    let last: [u8; 4] = [0x49, 0x45, 0x4E, 0x44];
    assert(last@ =~= png::iend());
    let mut pos: usize = 8;
    loop
        invariant
            8 <= pos <= b.len(),
            last@ == png::iend(),
            png::is_png_bytes(b@),
            chunks_ok(b@, 8) == chunks_ok(b@, pos as int),
        decreases b.len() - pos,
    {
        match png::next_chunk(b, pos) {
            None => {
                return false;
            },
            Some(end) => {
                let ctype: &[u8] = &b[pos + 4..pos + 8];
                let data: &[u8] = &b[pos + 8..end - 4];
                assert(ctype@ =~= png::chunk_type(b@, pos as int));
                assert(data@ =~= png::chunk_data(b@, pos as int));
                if !takes_chunk(ctype, data) {
                    return false;
                }
                if bytes::same_bytes(ctype, &last) {
                    return true;
                }
                pos = end;
            },
        }
    }
}

// ---- WebP -------------------------------------------------------------------------------

/// Whether these are the bytes of a WebP whose size field is right.
pub open spec fn is_webp_bytes(b: Seq<u8>) -> bool {
    b.len() >= 12 && b.subrange(0, 4) == seq![0x52u8, 0x49, 0x46, 0x46] && b.subrange(8, 12)
        == seq![0x57u8, 0x45, 0x42, 0x50] && b.len() == bytes::le32_at(b, 4) + 8
}

/// Where the chunk at `i` ends, padded to an even length.
pub open spec fn riff_end(b: Seq<u8>, i: int) -> int {
    let n = bytes::le32_at(b, i + 4);
    i + 8 + n + n % 2
}

/// A letter in either case.
pub open spec fn is_letter(c: u8, upper: u8) -> bool {
    c == upper || c == upper + 32
}

/// Whether a chunk of EXIF begins at `i`.
pub open spec fn exif_chunk_at(b: Seq<u8>, i: int) -> bool {
    i + 8 <= b.len() && is_letter(b[i], 0x45) && is_letter(b[i + 1], 0x58) && is_letter(b[i + 2], 0x49)
        && is_letter(b[i + 3], 0x46)
}

/// Whether the chunks from `i` on fit in the bytes, and none in front of a chunk of EXIF is
/// shorter than the head of one.
pub open spec fn riff_ok(b: Seq<u8>, i: int) -> bool
    decreases b.len() - i,
{
    if i < 0 || i + 8 > b.len() {
        true
    } else {
        let end = riff_end(b, i);
        &&& end <= b.len()
        &&& exif_chunk_at(b, end) ==> end - i >= 16
        &&& riff_ok(b, end)
    }
}

/// Whether the first chunk, if it holds a lossless image, is long enough for its size.
pub open spec fn lossless_ok(b: Seq<u8>) -> bool {
    b.len() >= 20 && b.subrange(12, 16) == seq![0x56u8, 0x50, 0x38, 0x4C] ==> bytes::le32_at(b, 16) >= 5
}

/// Whether the chunks of a WebP can be gone by, and its size stays within 31 bits. What is no WebP
/// is refused without that.
pub open spec fn webp_taken(b: Seq<u8>, exif_size: nat) -> bool {
    is_webp_bytes(b) ==> b.len() % 2 == 0 && b.len() + exif_size + 32 <= 0x7FFF_FFFF && riff_ok(b, 12)
        && lossless_ok(b)
}

fn same_letter(c: u8, upper: u8) -> (r: bool)
    requires
        upper <= 0x5A,
    ensures
        r == is_letter(c, upper),
{
    c == upper || c == upper + 32
}

fn takes_riff(b: &[u8]) -> (r: bool)
    requires
        b.len() >= 12,
        b.len() <= 0x7FFF_FFFF,
    ensures
        r == riff_ok(b@, 12),
{
    let mut i: usize = 12;
    while b.len() - i >= 8
        invariant
            12 <= i <= b.len(),
            b.len() <= 0x7FFF_FFFF,
            riff_ok(b@, 12) == riff_ok(b@, i as int),
        decreases b.len() - i,
    {
        let n: u32 = bytes::read_le32(b, i + 4);
        let left: usize = b.len() - i - 8;
        if n as usize > left || (n % 2 == 1 && n as usize == left) {
            return false;
        }
        let end: usize = i + 8 + n as usize + (n % 2) as usize;
        let exif: bool = b.len() - end >= 8 && same_letter(b[end], 0x45) && same_letter(b[end + 1], 0x58)
            && same_letter(b[end + 2], 0x49) && same_letter(b[end + 3], 0x46);
        if exif && end - i < 16 {
            return false;
        }
        i = end;
    }
    true
}

fn takes_webp(b: &[u8], exif_size: usize) -> (r: bool)
    ensures
        r == webp_taken(b@, exif_size as nat),
{
    if b.len() < 12 {
        return true;
    }
    let riff: [u8; 4] = [0x52, 0x49, 0x46, 0x46];
    let webp: [u8; 4] = [0x57, 0x45, 0x42, 0x50];
    let lossless: [u8; 4] = [0x56, 0x50, 0x38, 0x4C];
    assert(riff@ =~= seq![0x52u8, 0x49, 0x46, 0x46]);
    assert(webp@ =~= seq![0x57u8, 0x45, 0x42, 0x50]);
    assert(lossless@ =~= seq![0x56u8, 0x50, 0x38, 0x4C]);
    if !bytes::same_bytes(&b[0..4], &riff) || !bytes::same_bytes(&b[8..12], &webp) || b.len() - 8
        != bytes::read_le32(b, 4) as usize {
        return true;
    }
    if b.len() % 2 != 0 || b.len() > 0x7FFF_FFFF - 32 || exif_size > 0x7FFF_FFFF - 32 - b.len() {
        return false;
    }
    if b.len() >= 20 && bytes::same_bytes(&b[12..16], &lossless) && bytes::read_le32(b, 16) < 5 {
        return false;
    }
    takes_riff(b)
}

// ---- JPEG XL ----------------------------------------------------------------------------

/// Whether the boxes can be gone by from `i` on: at `i` nothing is left, or the head of a box and
/// the start of its data, with a size that leads on.
pub open spec fn boxes_ok(b: Seq<u8>, i: int) -> bool
    decreases b.len() - i,
{
    i >= b.len() || (0 <= i && i + 12 <= b.len() && jxl::box_size(b, i) > 0 && i + jxl::box_size(b, i) <= usize::MAX
        && boxes_ok(b, jxl::box_end(b, i)))
}

/// Whether an image can be gone by: a codestream that a box can hold, or a container whose boxes
/// can be gone by. What is neither is refused without that.
pub open spec fn jxl_taken(b: Seq<u8>) -> bool {
    if jxl::is_bare(b) {
        4 <= b.len() <= 0xFFFF_FFFF - 8
    } else {
        jxl::is_container(b) ==> boxes_ok(b, 0)
    }
}

fn takes_boxes(b: &[u8]) -> (r: bool)
    ensures
        r == boxes_ok(b@, 0),
{
    let mut i: usize = 0;
    while i < b.len()
        invariant
            i <= b.len(),
            boxes_ok(b@, 0) == boxes_ok(b@, i as int),
        decreases b.len() - i,
    {
        if b.len() - i < 12 {
            return false;
        }
        let n: usize = bytes::read_be32(b, i);
        if n == 0 || n > usize::MAX - i {
            return false;
        }
        i = if n > b.len() - i {
            b.len()
        } else {
            i + n
        };
    }
    true
}

fn takes_jxl(b: &[u8]) -> (r: bool)
    ensures
        r == jxl_taken(b@),
{
    if b.len() >= 2 && b[0] == 0xFF && b[1] == 0x0A {
        return 4 <= b.len() && b.len() as u64 <= 0xFFFF_FFFF - 8;
    }
    let mark: [u8; 12] = [0, 0, 0, 0x0C, 0x4A, 0x58, 0x4C, 0x20, 0x0D, 0x0A, 0x87, 0x0A];
    assert(mark@ =~= jxl::mark_box());
    if bytes::bytes_start_with(b, &mark) {
        takes_boxes(b)
    } else {
        true
    }
}

// ---- all kinds --------------------------------------------------------------------------

/// Whether `little_exif` can take this image, named by its extension, together with EXIF data of
/// this size. A JPEG holds the data in one segment, and a PNG writes its size in eight digits. A
/// TIFF is not looked at, and a name that is none of an image is refused. Of HEIF and its kin
/// nothing is claimed.
pub open spec fn can_take(image: Seq<u8>, extension: Seq<char>, exif_size: nat) -> bool {
    if is_jpeg_name(extension) {
        jpeg_taken(image) && exif_size + 8 <= 0xFFFF
    } else if is_png_name(extension) {
        png_taken(image) && exif_size + 7 <= 99_999_999
    } else if is_webp_name(extension) {
        webp_taken(image, exif_size)
    } else if is_jxl_name(extension) {
        jxl_taken(image)
    } else {
        !is_heif_name(extension)
    }
}

/// Whether `little_exif` can take this image together with EXIF data of this size.
pub fn takes(image: &[u8], extension: &str, exif_size: usize) -> (r: bool)
    ensures
        r == can_take(image@, extension@, exif_size as nat),
{
    let e: Vec<char> = text::lower_chars(text::chars_of(extension).as_slice());
    if text::is_text(e.as_slice(), "jpg") || text::is_text(e.as_slice(), "jpeg") {
        exif_size <= 0xFFFF - 8 && takes_jpeg(image)
    } else if text::is_text(e.as_slice(), "png") {
        exif_size <= 99_999_999 - 7 && takes_png(image)
    } else if text::is_text(e.as_slice(), "webp") {
        takes_webp(image, exif_size)
    } else if text::is_text(e.as_slice(), "jxl") {
        takes_jxl(image)
    } else {
        !names_heif(extension)
    }
}

} // verus!
