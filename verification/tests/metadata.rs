use little_exif::filetype::FileExtension;
use little_exif::metadata::Metadata;
use pic_killer::cli::{CopyArgs, RotateArgs, SetArgs, TargetArgs, WriteArgs};
use pic_killer::exif::{
    apply_datetime, apply_offset_time, backup_path, copy_tags, encode_metadata, gps_tags,
    orientation_code_tag, orientation_tag, read_capture_time, read_gps, read_orientation,
    remove_gps, remove_named, set_tags, string_tag, strip_metadata, tag_template, temporary_name,
    to_dms, unsupported_hint, user_comment_tag, Altitude, Position, RotateOp, TagSelection,
};
use pic_killer::filecmd::name_stem;
use pic_killer::geotag::picture_time;
use pic_killer::outcome::Outcome;
use pic_killer::png::crc32;
use pic_killer::stamp::Stamp;
use pic_killer::tagcmd::{
    build_set_tags, change_orientation, change_position, change_tags, choose_operation,
    choose_scope, copy_metadata, set_request, strip_position,
};
use pic_killer::tags::Ratio;
use pic_killer::tagtext::{
    decimals_needed, fmt_ratio, format_undef, format_value, list_tags, tag_name, view_tag,
};
use pic_killer::timecmd::{change_time, TimeMode};
use pic_killer::timeop::{parse_datetime, parse_delta};
use pic_killer::whereexpr::gather_facts;
use pic_killer::xmp::{extract_packet_bytes, write_packet};

const ALL: TagSelection = TagSelection { original: true, digitized: true, modify: true };

fn small_jpeg() -> Vec<u8> {
    vec![0xFF, 0xD8, 0xFF, 0xE0, 0x00, 0x04, 0x00, 0x00, 0xFF, 0xD9]
}

fn target() -> TargetArgs {
    TargetArgs { paths: vec![], recursive: false, ext: "jpg".into(), where_expr: None }
}

fn write() -> WriteArgs {
    WriteArgs { backup: false, dry_run: false, yes: true, verbose: false, jobs: 1 }
}

fn set_args() -> SetArgs {
    SetArgs {
        target: target(),
        write: write(),
        artist: None,
        copyright: None,
        description: None,
        software: None,
        make: None,
        model: None,
        lens_model: None,
        user_comment: None,
        owner: None,
        orientation: None,
        set_string: vec![],
        remove: vec![],
    }
}

fn words(m: &Metadata) -> Vec<(String, String)> {
    list_tags(m)
        .iter()
        .map(|e| {
            let decimals: Vec<String> = (0..decimals_needed(&e.tag)).map(|_| "?".to_string()).collect();
            let v = view_tag(e, &decimals);
            (v.name, v.value)
        })
        .collect()
}

#[test]
fn written_time_is_read() {
    let mut m = Metadata::new();
    assert_eq!(read_capture_time(&m), None);
    let t = parse_datetime("2024-01-02 03:04:05").unwrap();
    apply_datetime(&mut m, t, ALL);
    assert_eq!(read_capture_time(&m).as_deref(), Some("2024:01:02 03:04:05"));
    let names: Vec<String> = words(&m).into_iter().map(|p| p.0).collect();
    assert_eq!(names.len(), 3);
    apply_offset_time(&mut m, "+08:00", ALL);
    assert_eq!(words(&m).len(), 6);
    assert_eq!(words(&m).iter().filter(|p| p.1 == "+08:00").count(), 3);
}

#[test]
fn time_changes_follow_their_mode() {
    let mut m = Metadata::new();
    let start = parse_datetime("2024-01-02 03:04:05").unwrap();
    let fixed = change_time(&mut m, 0, &TimeMode::Fixed(start), ALL, None, "x").unwrap();
    assert_eq!(fixed.target, start);
    assert_eq!(fixed.detail, "(无)  ->  2024:01:02 03:04:05");
    let later = TimeMode::Shift(parse_delta("+1d").unwrap());
    let shifted = change_time(&mut m, 0, &later, ALL, None, "x").unwrap();
    assert_eq!(shifted.detail, "2024:01:02 03:04:05  ->  2024:01:03 03:04:05");
    let sequence = TimeMode::Sequential { start, interval: parse_delta("+1m").unwrap() };
    let third = change_time(&mut m, 2, &sequence, ALL, Some("+01:00"), "x").unwrap();
    assert_eq!(third.target, Stamp { minute: 6, ..start });
    let named = change_time(&mut m, 0, &TimeMode::FromName, ALL, None, "IMG_20230115_143022").unwrap();
    assert_eq!(read_capture_time(&m).as_deref(), Some("2023:01:15 14:30:22"));
    assert_eq!(named.target.year, 2023);
    let none = change_time(&mut m, 0, &TimeMode::FromName, ALL, None, "vacation");
    assert!(matches!(none, Err(Outcome::Skipped(_))));
    let mut empty = Metadata::new();
    assert!(matches!(change_time(&mut empty, 0, &later, ALL, None, "x"), Err(Outcome::Skipped(_))));
}

#[test]
fn names_follow_the_time() {
    let mut m = Metadata::new();
    assert!(matches!(name_stem(&m, "%Y"), Err(Outcome::Skipped(_))));
    apply_datetime(&mut m, parse_datetime("2023-01-15 14:30:22").unwrap(), ALL);
    assert_eq!(name_stem(&m, "%Y%m%d_%H%M%S").unwrap().as_deref(), Some("20230115_143022"));
    assert_eq!(name_stem(&m, "%Y-%m-%d_%H.%M.%S").unwrap().as_deref(), Some("2023-01-15_14.30.22"));
    assert!(matches!(name_stem(&m, ""), Err(Outcome::Failed(_))));
    assert_eq!(name_stem(&m, "%Q").unwrap(), None);
}

#[test]
fn tracks_are_met_at_the_corrected_time() {
    let mut m = Metadata::new();
    assert!(matches!(picture_time(&m, None), Err(Outcome::Skipped(_))));
    apply_datetime(&mut m, parse_datetime("2023-01-15 14:30:22").unwrap(), ALL);
    let t = picture_time(&m, Some(parse_delta("-22s").unwrap())).unwrap();
    assert_eq!((t.minute, t.second), (30, 0));
}

#[test]
fn positions_are_written_and_read() {
    let mut m = Metadata::new();
    assert_eq!(read_gps(&m), None);
    let lat = to_dms(39 * 360_000 + 54 * 6_000 + 1_512);
    assert_eq!(lat.degrees, Ratio { num: 39, den: 1 });
    assert_eq!(lat.minutes, Ratio { num: 54, den: 1 });
    assert_eq!(lat.seconds, Ratio { num: 1_512, den: 100 });
    let at = Position {
        south: true,
        lat,
        west: false,
        lon: to_dms(116 * 360_000),
        alt: Some(Altitude { below: true, metres: Ratio { num: 5_000, den: 100 } }),
    };
    change_position(&mut m, false, Some(at));
    assert_eq!(read_gps(&m), Some(at));
    assert_eq!(gps_tags(at).len(), 7);
    let before = list_tags(&m).len();
    assert!(before > 0);
    assert!(remove_gps(&mut m) > 0);
    assert_eq!(read_gps(&m), None);
    assert_eq!(list_tags(&m).len(), 0);
    assert!(matches!(strip_position(&mut m), Err(Outcome::Skipped(_)) | Ok(())));
}

#[test]
fn orientation_is_written_and_turned() {
    let mut m = Metadata::new();
    assert_eq!(read_orientation(&m), 1);
    set_tags(&mut m, &vec![orientation_code_tag(6)]);
    assert_eq!(read_orientation(&m), 6);
    assert!(change_orientation(&mut m, RotateOp::Cw).is_ok());
    assert_eq!(read_orientation(&m), 3);
    assert!(change_orientation(&mut m, RotateOp::Rot180).is_ok());
    assert_eq!(read_orientation(&m), 1);
    assert!(matches!(change_orientation(&mut m, RotateOp::Reset), Err(Outcome::Skipped(_))));
    assert!(orientation_tag("cw90").is_ok());
    assert!(orientation_tag("9").is_err());
    assert!(orientation_tag("sideways").is_err());
}

#[test]
fn operations_are_chosen() {
    let mut a = RotateArgs {
        target: target(),
        write: write(),
        cw: false,
        ccw: true,
        r180: false,
        flip_h: false,
        flip_v: false,
        reset: false,
    };
    assert_eq!(choose_operation(&a), RotateOp::Ccw);
    a.ccw = false;
    a.flip_v = true;
    assert_eq!(choose_operation(&a), RotateOp::FlipV);
}

#[test]
fn text_tags_are_set_and_removed() {
    let mut m = Metadata::new();
    let mut a = set_args();
    a.artist = Some("张三".into());
    a.model = Some("EOS R5".into());
    a.user_comment = Some("note".into());
    a.set_string = vec!["Software=PicKiller".into()];
    let sets = set_request(&a).unwrap();
    assert_eq!(build_set_tags(&a).unwrap().len(), 4);
    assert!(change_tags(&mut m, &sets, &vec![]).is_ok());
    let shown = words(&m);
    assert!(shown.iter().any(|p| p.0 == "Artist" && p.1 == "张三"));
    assert!(shown.iter().any(|p| p.0 == "Model" && p.1 == "EOS R5"));
    assert!(shown.iter().any(|p| p.0 == "Software" && p.1 == "PicKiller"));
    assert!(shown.iter().any(|p| p.0 == "UserComment" && p.1 == "note"));
    assert_eq!(remove_named(&mut m, "artist"), Ok(true));
    assert!(!words(&m).iter().any(|p| p.0 == "Artist"));
    assert!(words(&m).iter().any(|p| p.0 == "Model"));
    assert!(remove_named(&mut m, "nonsense").is_err());
    assert!(matches!(
        change_tags(&mut m, &vec![], &vec!["nonsense".to_string()]),
        Err(Outcome::Failed(_))
    ));
}

#[test]
fn requests_without_a_change_are_refused() {
    assert!(set_request(&set_args()).is_err());
    let mut a = set_args();
    a.set_string = vec!["no equals sign".into()];
    assert!(build_set_tags(&a).is_err());
    a.set_string = vec!["NoSuchTag=x".into()];
    assert!(build_set_tags(&a).is_err());
    a.set_string = vec![];
    a.orientation = Some("upwards".into());
    assert!(build_set_tags(&a).is_err());
}

#[test]
fn names_stand_for_tags() {
    assert_eq!(tag_name(&string_tag("copyright", "c").unwrap()), "Copyright");
    assert!(string_tag("nonsense", "c").is_none());
    assert!(tag_template("artist").is_some());
    assert!(tag_template("nonsense").is_none());
    assert_eq!(tag_name(&user_comment_tag("x")), "UserComment");
}

#[test]
fn metadata_is_copied_by_scope() {
    let mut from = Metadata::new();
    apply_datetime(&mut from, parse_datetime("2023-01-15 14:30:22").unwrap(), ALL);
    set_tags(&mut from, &vec![string_tag("artist", "a").unwrap(), orientation_code_tag(6)]);
    let mut to = Metadata::new();
    assert_eq!(copy_tags(&from, &mut to, false, true, false), 3);
    assert_eq!(words(&to).len(), 3);
    let mut all = Metadata::new();
    let n = copy_tags(&from, &mut all, true, false, false);
    assert_eq!(n, 4);
    assert_eq!(read_orientation(&all), 1);
    let mut none = Metadata::new();
    assert!(matches!(
        copy_metadata(&from, &mut none, false, false, true),
        Err(Outcome::Skipped(_))
    ));
    let a = CopyArgs { from: "f".into(), target: target(), write: write(), time: false, gps: false, all: false };
    assert_eq!(choose_scope(&a), (true, false, false));
}

#[test]
fn metadata_goes_into_images_and_out() {
    let mut m = Metadata::new();
    apply_datetime(&mut m, parse_datetime("2023-01-15 14:30:22").unwrap(), ALL);
    let mut image = small_jpeg();
    encode_metadata(&m, &mut image, "jpg").unwrap();
    assert!(image.len() > small_jpeg().len());
    let back = Metadata::new_from_vec(&image, FileExtension::JPEG).unwrap();
    assert_eq!(read_capture_time(&back).as_deref(), Some("2023:01:15 14:30:22"));
    strip_metadata(&mut image, "jpg").unwrap();
    assert_eq!(image, small_jpeg());
    assert!(encode_metadata(&m, &mut vec![1, 2, 3], "jpg").is_err());
    assert!(strip_metadata(&mut vec![1, 2, 3], "xyz").is_err());
}

#[test]
fn exif_leaves_xmp_and_the_picture() {
    let mut image = vec![0xFF, 0xD8, 0xFF, 0xE0, 0x00, 0x04, 0x01, 0x02];
    image.extend_from_slice(&[0xFF, 0xE1, 0x00, 0x0A]);
    image.extend_from_slice(b"Exif\0\0II");
    image.extend_from_slice(&[0xFF, 0xDA, 0x00, 0x03, 0x00, 0x11, 0xFF, 0x00, 0x22, 0xFF, 0xD9]);
    write_packet(&mut image, "<x/>").unwrap();
    let mut bare = image.clone();
    bare.drain(8..20);

    let mut m = Metadata::new();
    apply_datetime(&mut m, parse_datetime("2023-01-15 14:30:22").unwrap(), ALL);
    let mut written = image.clone();
    encode_metadata(&m, &mut written, "JPG").unwrap();
    assert_eq!(written[..4], [0xFF, 0xD8, 0xFF, 0xE1]);
    let n = usize::from(written[4]) * 256 + usize::from(written[5]);
    assert_eq!(&written[6..12], b"Exif\0\0");
    assert_eq!(written[4 + n..], bare[2..]);
    assert_eq!(extract_packet_bytes(&written).as_deref(), Some(&b"<x/>"[..]));

    strip_metadata(&mut written, "jpeg").unwrap();
    assert_eq!(written, bare);
}

#[test]
fn exif_leaves_the_pixels_of_a_png() {
    let mut image = vec![0x89, 0x50, 0x4E, 0x47, 0x0D, 0x0A, 0x1A, 0x0A];
    for (kind, data) in [(b"IHDR", vec![0; 13]), (b"IDAT", vec![1, 2, 3]), (b"IEND", vec![])] {
        image.extend_from_slice(&(data.len() as u32).to_be_bytes());
        let mut body = kind.to_vec();
        body.extend(data);
        image.extend_from_slice(&body);
        image.extend_from_slice(&crc32(&body).to_be_bytes());
    }
    let mut m = Metadata::new();
    apply_datetime(&mut m, parse_datetime("2023-01-15 14:30:22").unwrap(), ALL);
    let mut written = image.clone();
    encode_metadata(&m, &mut written, "png").unwrap();
    assert_eq!(written[..33], image[..33]);
    assert_eq!(written[written.len() - 27..], image[33..]);
    let back = Metadata::new_from_vec(&written, FileExtension::PNG { as_zTXt_chunk: true }).unwrap();
    assert_eq!(read_capture_time(&back).as_deref(), Some("2023:01:15 14:30:22"));
    strip_metadata(&mut written, "png").unwrap();
    assert_eq!(written, image);
}

#[test]
fn values_are_put_into_words() {
    assert_eq!(fmt_ratio(1, 4, "0.2500"), "1/4 (0.2500)");
    assert_eq!(format_undef(b"0230"), "0230");
    let t = orientation_code_tag(6);
    assert_eq!(decimals_needed(&t), 0);
    assert!(format_value(&t, &[]).contains('6'));
}

#[test]
fn facts_are_gathered() {
    let mut m = Metadata::new();
    apply_datetime(&mut m, parse_datetime("2023-01-15 14:30:22").unwrap(), ALL);
    let tags: Vec<_> = list_tags(&m).iter().map(|e| view_tag(e, &[])).collect();
    let f = gather_facts(Some(&m), &tags, Some(&small_jpeg()));
    assert!(f.date && !f.gps && !f.xmp);
    assert_eq!(f.props.len(), 3);
    let none = gather_facts(None, &vec![], None);
    assert!(!none.date && none.props.is_empty());
}

#[test]
fn files_have_companions() {
    assert_eq!(backup_path("a.jpg"), "a.jpg.bak");
    assert_eq!(temporary_name("a.jpg"), ".a.jpg.pkick.tmp");
    assert!(unsupported_hint("BMP").is_some());
    assert!(unsupported_hint("gif").is_some());
    assert!(unsupported_hint("jpg").is_none());
}
