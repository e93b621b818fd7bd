use little_exif::exif_tag::ExifTag;
use little_exif::filetype::FileExtension;
use little_exif::ifd::{ExifTagGroup, ImageFileDirectory};
use little_exif::metadata::Metadata;
use pic_killer::exif::{apply_datetime, encode_metadata, read_capture_time, set_tags, string_tag, strip_metadata, TagSelection};
use pic_killer::intake::{names_heif, names_tiff, takes};
use pic_killer::png::crc32;
use pic_killer::tags::{is_encodable, is_sound};
use pic_killer::timeop::parse_datetime;
use pic_killer::xmp::write_packet;

const ALL: TagSelection = TagSelection { original: true, digitized: true, modify: true };

fn dated() -> Metadata {
    let mut m = Metadata::new();
    apply_datetime(&mut m, parse_datetime("2023-01-15 14:30:22").unwrap(), ALL);
    m
}

fn png(chunks: &[(&[u8; 4], &[u8])]) -> Vec<u8> {
    let mut image = vec![0x89, 0x50, 0x4E, 0x47, 0x0D, 0x0A, 0x1A, 0x0A];
    for (kind, data) in chunks {
        image.extend_from_slice(&(data.len() as u32).to_be_bytes());
        let mut body = kind.to_vec();
        body.extend_from_slice(data);
        image.extend_from_slice(&body);
        image.extend_from_slice(&crc32(&body).to_be_bytes());
    }
    image
}

fn webp(chunks: &[(&[u8; 4], &[u8])]) -> Vec<u8> {
    let mut body = b"WEBP".to_vec();
    for (kind, data) in chunks {
        body.extend_from_slice(*kind);
        body.extend_from_slice(&(data.len() as u32).to_le_bytes());
        body.extend_from_slice(data);
        if data.len() % 2 == 1 {
            body.push(0);
        }
    }
    let mut image = b"RIFF".to_vec();
    image.extend_from_slice(&(body.len() as u32).to_le_bytes());
    image.extend_from_slice(&body);
    image
}

#[test]
fn jpeg_lengths_are_checked() {
    let good = [0xFF, 0xD8, 0xFF, 0xE0, 0x00, 0x04, 0x01, 0x02, 0xFF, 0xD9];
    assert!(takes(&good, "JPG", 100));
    let mut short = good;
    short[5] = 1;
    assert!(!takes(&short, "jpg", 100));
    assert!(encode_metadata(&dated(), &mut short.to_vec(), "jpg").is_err());
    assert!(strip_metadata(&mut short.to_vec(), "jpeg").is_err());
    // Behind the start of a scan, 0xFF with 0x00 or a restart marker is image data.
    let scan = [
        0xFF, 0xD8, 0xFF, 0xDA, 0x00, 0x03, 0x00, 0x11, 0xFF, 0x00, 0x00, 0x00, 0xFF, 0xD1, 0x00, 0x01, 0xFF, 0xD9,
    ];
    assert!(takes(&scan, "jpg", 0));
    assert!(strip_metadata(&mut scan.to_vec(), "jpg").is_ok());
    let broken_behind = [
        0xFF, 0xD8, 0xFF, 0xDA, 0x00, 0x03, 0x00, 0x11, 0xFF, 0xC4, 0x00, 0x00, 0xFF, 0xD9,
    ];
    assert!(!takes(&broken_behind, "jpg", 0));
    assert!(takes(b"no image", "jpg", 0));
}

#[test]
fn exif_data_fits_in_a_segment() {
    let image = vec![0xFF, 0xD8, 0xFF, 0xD9];
    assert!(takes(&image, "jpg", 0xFFFF - 8));
    assert!(!takes(&image, "jpg", 0xFFFF - 7));
    let mut m = Metadata::new();
    set_tags(&mut m, &vec![string_tag("artist", &"x".repeat(70_000)).unwrap()]);
    assert!(is_encodable(&m));
    assert!(encode_metadata(&m, &mut image.clone(), "jpg").is_err());
    let mut m = Metadata::new();
    set_tags(&mut m, &vec![string_tag("artist", &"x".repeat(60_000)).unwrap()]);
    let mut written = image.clone();
    encode_metadata(&m, &mut written, "jpg").unwrap();
    let length = usize::from(written[4]) * 256 + usize::from(written[5]);
    assert_eq!(written.len(), image.len() + 2 + length);
}

#[test]
fn png_chunks_are_checked() {
    let head: (&[u8; 4], &[u8]) = (b"IHDR", &[0; 13]);
    let end: (&[u8; 4], &[u8]) = (b"IEND", &[]);
    let plain = png(&[head, end]);
    assert!(takes(&plain, "png", 0));
    assert!(takes(&plain, "png", 99_999_992));
    assert!(!takes(&plain, "png", 99_999_993));
    assert!(!takes(&plain[..plain.len() - 1], "png", 0));
    // XMP without the zero behind its keyword, or compressed, or with an element of EXIF open.
    for (kind, data) in [
        (b"tEXt", b"XML:com.adobe.xmp".to_vec()),
        (b"tEXt", b"XML:com.adobe.xmp\0<x><exif:A>".to_vec()),
        (b"zTXt", b"XML:com.adobe.xmp\0".to_vec()),
        (b"iTXt", b"XML:com.adobe.xmp\0\x01\0\0\0x".to_vec()),
        (b"iTXt", b"XML:com.adobe.xmp\0\0\0\0\0<x><exif:A>".to_vec()),
    ] {
        let image = png(&[head, (kind, &data), end]);
        assert!(!takes(&image, "png", 0), "{data:?}");
        assert!(encode_metadata(&dated(), &mut image.clone(), "png").is_err());
        assert!(strip_metadata(&mut image.clone(), "png").is_err());
    }
    let old = png(&[head, (b"tEXt", b"XML:com.adobe.xmp\0<x><exif:A>1</exif:A><b/></x>"), end]);
    assert!(takes(&old, "png", 0));
    let mut cleared = old.clone();
    strip_metadata(&mut cleared, "png").unwrap();
    assert_eq!(cleared, png(&[head, (b"tEXt", b"XML:com.adobe.xmp\0<x><b/></x>"), end]));
    let mut written = old.clone();
    encode_metadata(&dated(), &mut written, "png").unwrap();
    let back = Metadata::new_from_vec(&written, FileExtension::PNG { as_zTXt_chunk: true }).unwrap();
    assert_eq!(read_capture_time(&back).as_deref(), Some("2023:01:15 14:30:22"));
    let mut described = plain.clone();
    write_packet(&mut described, "<x><exif:A>1</exif:A><dc:title>t</dc:title></x>").unwrap();
    encode_metadata(&dated(), &mut described, "PNG").unwrap();
    let back = Metadata::new_from_vec(&described, FileExtension::PNG { as_zTXt_chunk: true }).unwrap();
    assert_eq!(read_capture_time(&back).as_deref(), Some("2023:01:15 14:30:22"));
}

#[test]
fn webp_chunks_are_checked() {
    let image = webp(&[(b"VP8L", &[0x2F, 1, 2, 3, 0, 9, 9, 9, 9, 9, 9, 9])]);
    assert!(takes(&image, "webp", 100));
    let mut written = image.clone();
    encode_metadata(&dated(), &mut written, "webp").unwrap();
    let back = Metadata::new_from_vec(&written, FileExtension::WEBP).unwrap();
    assert_eq!(read_capture_time(&back).as_deref(), Some("2023:01:15 14:30:22"));
    assert!(takes(&written, "webp", 0));
    assert!(strip_metadata(&mut written.clone(), "webp").is_ok());
    let n = written.len() - image.len() - 18;
    assert_eq!(&written[12..24], b"VP8X\x0A\0\0\0\x08\0\0\0");
    assert_eq!(&written[30..written.len() - n], &image[12..]);
    assert_eq!(&written[written.len() - n..][..4], b"EXIF");
    assert_eq!(u32::from_le_bytes(written[4..8].try_into().unwrap()) as usize, written.len() - 8);
    // Too short for its size, or a chunk that does not fit, or an odd length.
    assert!(!takes(&webp(&[(b"VP8L", &[0x2F, 1, 2, 3])]), "webp", 0));
    let mut long = image.clone();
    long[16] = 200;
    assert!(!takes(&long, "webp", 0));
    let mut odd = webp(&[(b"VP8X", &[8, 0, 0, 0, 0, 0, 0, 0, 0, 0])]);
    odd.push(0);
    odd[4] += 1;
    assert!(!takes(&odd, "webp", 0));
    assert!(strip_metadata(&mut odd, "webp").is_err());
    // EXIF right behind a chunk that is too short.
    let narrow = webp(&[(b"VP8X", &[8, 0, 0, 0]), (b"EXIF", &[1; 8])]);
    assert!(!takes(&narrow, "webp", 0));
    let wide = webp(&[(b"VP8X", &[8, 0, 0, 0, 0, 0, 0, 0, 0, 0]), (b"ANIM", &[0; 6]), (b"VP8 ", &[0; 12])]);
    assert!(takes(&wide, "webp", 0));
    assert!(!takes(&image, "webp", 0x7FFF_FFFF));
}

#[test]
fn kinds_are_told_apart() {
    assert!(names_tiff("TIF") && names_tiff("tiff") && !names_tiff("png"));
    assert!(names_heif("HEIC") && names_heif("hif") && names_heif("avif") && !names_heif("jxl"));
    assert!(!takes(&[], "heif", 0));
    assert!(takes(&[], "txt", 0));
    let e = encode_metadata(&dated(), &mut vec![0; 8], "tif").unwrap_err();
    assert!(e.starts_with("编码元数据失败："));
    assert!(strip_metadata(&mut vec![0; 8], "tiff").is_err());
    assert!(encode_metadata(&dated(), &mut vec![0; 8], "heic").is_err());
}

#[test]
fn directories_out_of_order_are_seen() {
    let mut m = dated();
    assert!(is_sound(&m));
    assert!(is_encodable(&m));
    *m.get_ifd_mut(ExifTagGroup::EXIF, 0) = ImageFileDirectory::new_with_tags(vec![], ExifTagGroup::GENERIC, 0);
    assert!(!is_sound(&m));
    assert!(!is_encodable(&m));
    assert!(encode_metadata(&m, &mut vec![0xFF, 0xD8, 0xFF, 0xD9], "jpg").is_err());
}

#[test]
fn tags_that_cannot_be_written_are_refused() {
    let mut m = Metadata::new();
    m.set_tag(ExifTag::ThumbnailLength(vec![1, 2]));
    assert!(is_sound(&m));
    assert!(!is_encodable(&m));
    assert_eq!(
        encode_metadata(&m, &mut vec![0xFF, 0xD8, 0xFF, 0xD9], "jpg").unwrap_err(),
        "编码元数据失败：元数据中有无法写入的标签"
    );
    let mut m = Metadata::new();
    m.get_ifd_mut(ExifTagGroup::EXIF, 0).set_tag(ExifTag::ExifOffset(vec![1]));
    assert!(!is_encodable(&m));
    let mut m = Metadata::new();
    m.set_tag(ExifTag::ThumbnailOffset(vec![], vec![7; 100]));
    m.set_tag(ExifTag::ThumbnailLength(vec![100]));
    assert!(is_encodable(&m));
    assert!(encode_metadata(&m, &mut vec![0xFF, 0xD8, 0xFF, 0xD9], "jpg").is_ok());
}

#[test]
fn exif_written_last_counts_and_stripping_undoes_it() {
    let plain = vec![
        0xFF, 0xD8, 0xFF, 0xE0, 0x00, 0x04, 0x01, 0x02, 0xFF, 0xDA, 0x00, 0x03, 0x00, 0x11, 0x22, 0xFF, 0xD9,
    ];
    let mut signed = Metadata::new();
    set_tags(&mut signed, &vec![string_tag("artist", "Ada").unwrap()]);
    let mut once = plain.clone();
    encode_metadata(&dated(), &mut once, "jpg").unwrap();
    let mut twice = plain.clone();
    encode_metadata(&signed, &mut twice, "jpg").unwrap();
    assert_ne!(twice, once);
    encode_metadata(&dated(), &mut twice, "jpg").unwrap();
    assert_eq!(twice, once);
    strip_metadata(&mut twice, "jpg").unwrap();
    assert_eq!(twice, plain);
    strip_metadata(&mut twice, "jpg").unwrap();
    assert_eq!(twice, plain);
}

fn boxed(kind: &[u8; 4], data: &[u8]) -> Vec<u8> {
    let mut b = (data.len() as u32 + 8).to_be_bytes().to_vec();
    b.extend_from_slice(kind);
    b.extend_from_slice(data);
    b
}

fn container(boxes: &[Vec<u8>]) -> Vec<u8> {
    let mut b = boxed(b"JXL ", &[0x0D, 0x0A, 0x87, 0x0A]);
    b.extend(boxed(b"ftyp", b"jxl \0\0\0\0jxl "));
    for more in boxes {
        b.extend_from_slice(more);
    }
    b
}

#[test]
fn jxl_boxes_are_checked() {
    let stream = boxed(b"jxlc", &[0xFF, 0x0A, 1, 2, 3]);
    let image = container(&[stream.clone()]);
    assert!(takes(&image, "JXL", 100));
    assert!(!takes(&image[..40], "jxl", 100));
    let mut still = image.clone();
    still[32..36].copy_from_slice(&[0; 4]);
    assert!(!takes(&still, "jxl", 100));
    assert_eq!(encode_metadata(&dated(), &mut still.clone(), "jxl").unwrap_err(), "编码元数据失败：图片结构异常或 EXIF 数据过大");
    assert_eq!(strip_metadata(&mut still, "jxl").unwrap_err(), "清除元数据失败：图片结构异常");
    // A last box that says that it is longer than it is.
    let mut long = image.clone();
    long[35] = 200;
    assert!(takes(&long, "jxl", 100));
    assert!(strip_metadata(&mut long.clone(), "jxl").is_ok());
    // A bare codestream, and what is no JPEG XL at all.
    assert!(!takes(&[0xFF, 0x0A, 1], "jxl", 100));
    assert!(takes(&[0xFF, 0x0A, 1, 2], "jxl", 100));
    assert!(takes(b"no image", "jxl", 100));
    assert!(encode_metadata(&dated(), &mut b"no image".to_vec(), "jxl").is_err());
    assert!(strip_metadata(&mut vec![0xFF, 0x0A, 1, 2], "jxl").is_err());
    // A container of nothing but its first boxes has no place for EXIF.
    assert!(encode_metadata(&dated(), &mut container(&[]), "jxl").is_err());
}

#[test]
fn jxl_loses_its_exif_boxes_and_nothing_else() {
    let stream = boxed(b"jxlc", &[0xFF, 0x0A, 1, 2, 3]);
    let xml = boxed(b"xml ", b"<x/>");
    let plain = boxed(b"Exif", &[0, 0, 0, 0, 1, 2, 3]);
    let packed = boxed(b"brob", b"Exif12345");
    let other = boxed(b"brob", b"xml 12345");
    let mut image = container(&[plain, stream.clone(), other.clone(), packed.clone(), xml.clone(), packed]);
    let bare = container(&[stream, other, xml]);
    let mut written = image.clone();
    strip_metadata(&mut image, "jxl").unwrap();
    assert_eq!(image, bare);
    strip_metadata(&mut image, "jxl").unwrap();
    assert_eq!(image, bare);
    encode_metadata(&dated(), &mut written, "jxl").unwrap();
    let size = u32::from_be_bytes(written[32..36].try_into().unwrap()) as usize;
    assert_eq!(&written[..32], &bare[..32]);
    assert_eq!(&written[36..50], b"Exif\0\0\0\x06Exif\0\0");
    assert_eq!(&written[32 + size..], &bare[32..]);
    let back = Metadata::new_from_vec(&written, FileExtension::JXL).unwrap();
    assert_eq!(read_capture_time(&back).as_deref(), Some("2023:01:15 14:30:22"));
    let mut again = written.clone();
    encode_metadata(&dated(), &mut again, "jxl").unwrap();
    assert_eq!(again, written);
    strip_metadata(&mut again, "JXL").unwrap();
    assert_eq!(again, bare);
}

#[test]
fn bare_codestream_gets_a_container() {
    let stream = vec![0xFF, 0x0A, 7, 8, 9];
    let mut written = stream.clone();
    encode_metadata(&dated(), &mut written, "jxl").unwrap();
    strip_metadata(&mut written, "jxl").unwrap();
    assert_eq!(written, container(&[boxed(b"jxlc", &stream)]));
}

#[test]
fn webp_that_denies_exif_keeps_its_chunks() {
    let flagged = webp(&[
        (b"VP8X", &[0x10, 0, 0, 0, 1, 0, 0, 1, 0, 0]),
        (b"VP8 ", &[1, 2, 3]),
        (b"XMP ", b"<x/>"),
    ]);
    let mut same = flagged.clone();
    strip_metadata(&mut same, "webp").unwrap();
    assert_eq!(same, flagged);
    let mut written = flagged.clone();
    encode_metadata(&dated(), &mut written, "webp").unwrap();
    assert_eq!(written[20], 0x18);
    assert_eq!(&written[12..20], &flagged[12..20]);
    assert_eq!(&written[21..flagged.len()], &flagged[21..]);
    assert_eq!(&written[flagged.len()..][..4], b"EXIF");
    for first in [b"VP8L", b"VP8 "] {
        let plain = webp(&[(first, &[0x2F, 1, 2, 3, 0, 9])]);
        let mut same = plain.clone();
        strip_metadata(&mut same, "webp").unwrap();
        assert_eq!(same, plain);
    }
}

#[test]
fn second_image_behind_the_end_is_left_alone() {
    let mut both = vec![
        0xFF, 0xD8, 0xFF, 0xE0, 0x00, 0x04, 0x01, 0x02, 0xFF, 0xDA, 0x00, 0x03, 0x00, 0x11, 0x22, 0xFF, 0xD9,
    ];
    both.extend_from_slice(b"\xFF\xD8\xFF\xE1\x00\x0AExif\0\0ab\xFF\xD9");
    let mut written = both.clone();
    encode_metadata(&dated(), &mut written, "jpg").unwrap();
    let n = written.len() - both.len();
    assert_eq!(&written[2 + n..], &both[2..]);
    strip_metadata(&mut written, "jpg").unwrap();
    assert_eq!(written, both);
}
