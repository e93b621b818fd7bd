use pic_killer::iptc::{
    apply, decode_text, field_name, find_app13, parse_iim, parse_irbs, read_datasets,
    read_properties, remove_jpeg_iptc, resolve_field, serialize_iim, serialize_irbs, set_jpeg_iptc,
    Dataset, IptcEdit, IptcError, Irb, IPTC_ID,
};

const CHARSET_UTF8: &[u8] = &[0x1B, 0x25, 0x47];
const PS_SIG: &[u8] = b"Photoshop 3.0\0";

fn ds(record: u8, number: u8, s: &str) -> Dataset {
    Dataset { record, number, data: s.as_bytes().to_vec() }
}

#[test]
fn iim_roundtrip() {
    let input = vec![ds(2, 5, "Title"), ds(2, 25, "kw1"), ds(2, 25, "kw2")];
    let bytes = serialize_iim(&input);
    let parsed = parse_iim(&bytes);
    assert_eq!(parsed.len(), 3);
    assert_eq!(parsed[0], ds(2, 5, "Title"));
    assert_eq!(parsed[1], ds(2, 25, "kw1"));
    assert_eq!(parsed[2], ds(2, 25, "kw2"));
}

#[test]
fn irb_roundtrip_preserves_others() {
    let irbs = vec![
        Irb { id: 0x0404, name: vec![], data: vec![1, 2, 3] },
        Irb { id: 0x040C, name: vec![], data: vec![9, 9, 9, 9] },
    ];
    let bytes = serialize_irbs(&irbs);
    let parsed = parse_irbs(&bytes);
    assert_eq!(parsed.len(), 2);
    assert_eq!(parsed[0].id, 0x0404);
    assert_eq!(parsed[0].data, vec![1, 2, 3]);
    assert_eq!(parsed[1].id, 0x040C);
    assert_eq!(parsed[1].data, vec![9, 9, 9, 9]);
}

#[test]
fn apply_sets_removes_and_adds_charset() {
    let existing = vec![ds(2, 5, "Old"), ds(2, 116, "Copyright")];
    let edit = IptcEdit {
        sets: vec![(2, 5, vec!["New".into()]), (2, 25, vec!["a".into(), "b".into()])],
        removes: vec![(2, 116)],
    };
    let out = apply(&existing, &edit);
    assert!(out.iter().any(|d| d.record == 2 && d.number == 5 && d.data == b"New"));
    assert!(!out.iter().any(|d| d.data == b"Old"));
    assert!(!out.iter().any(|d| d.record == 2 && d.number == 116));
    assert_eq!(out.iter().filter(|d| d.record == 2 && d.number == 25).count(), 2);
    assert!(out.iter().any(|d| d.record == 1 && d.number == 90 && d.data == CHARSET_UTF8));
}

#[test]
fn app13_segment_roundtrip() {
    let mut jpeg = vec![0xFF, 0xD8, 0xFF, 0xE0, 0x00, 0x04, 0x00, 0x00, 0xFF, 0xD9];
    assert!(read_datasets(&jpeg).is_empty());
    let datasets = apply(
        &[],
        &IptcEdit {
            sets: vec![(2, 5, vec!["测试标题".into()]), (2, 25, vec!["关键词".into()])],
            removes: vec![],
        },
    );
    set_jpeg_iptc(&mut jpeg, &datasets).unwrap();
    let props = read_properties(&jpeg);
    assert!(props.iter().any(|(k, v)| k == "Title" && v == "测试标题"));
    assert!(props.iter().any(|(k, v)| k == "Keywords" && v == "关键词"));
    assert!(remove_jpeg_iptc(&mut jpeg));
    assert!(read_datasets(&jpeg).is_empty());
}

#[test]
fn set_preserves_other_irb() {
    let mut jpeg = vec![0xFF, 0xD8];
    let irbs = vec![Irb { id: 0x040C, name: vec![], data: vec![7; 10] }];
    let mut payload = PS_SIG.to_vec();
    payload.extend_from_slice(&serialize_irbs(&irbs));
    let seg_len = payload.len() + 2;
    jpeg.extend_from_slice(&[0xFF, 0xED, (seg_len >> 8) as u8, (seg_len & 0xFF) as u8]);
    jpeg.extend_from_slice(&payload);
    jpeg.extend_from_slice(&[0xFF, 0xD9]);

    let datasets = apply(&[], &IptcEdit { sets: vec![(2, 5, vec!["T".into()])], removes: vec![] });
    set_jpeg_iptc(&mut jpeg, &datasets).unwrap();

    let (_, _, payload) = find_app13(&jpeg).unwrap();
    let irbs = parse_irbs(&payload);
    assert!(irbs.iter().any(|i| i.id == 0x040C && i.data == vec![7; 10]));
    assert!(irbs.iter().any(|i| i.id == IPTC_ID));
}

#[test]
fn too_large_a_block_is_refused() {
    let mut jpeg = vec![0xFF, 0xD8, 0xFF, 0xD9];
    let datasets = vec![
        ds(2, 120, &"x".repeat(30_000)),
        ds(2, 5, &"y".repeat(30_000)),
        ds(2, 25, &"z".repeat(30_000)),
    ];
    let before = jpeg.clone();
    let r = set_jpeg_iptc(&mut jpeg, &datasets);
    assert!(matches!(r, Err(IptcError::TooLarge(_))));
    assert_eq!(jpeg, before);
}

#[test]
fn long_values_are_cut() {
    let bytes = serialize_iim(&[ds(2, 120, &"z".repeat(40_000)), ds(2, 5, "t")]);
    let parsed = parse_iim(&bytes);
    assert_eq!(parsed.len(), 2);
    assert_eq!(parsed[0], ds(2, 5, "t"));
    assert_eq!(parsed[1].data.len(), 0x7FFF);
}

#[test]
fn fields_have_names_and_numbers() {
    assert_eq!(field_name(2, 5), "Title");
    assert_eq!(resolve_field("keywords"), Some((2, 25)));
    assert_eq!(resolve_field("2:105"), Some((2, 105)));
    assert_eq!(resolve_field("nonsense"), None);
}

#[test]
fn text_is_decoded_by_its_marker() {
    assert_eq!(decode_text("测".as_bytes(), true), "测");
    assert_eq!(decode_text(&[0x41, 0xE9], false), "Aé");
}

#[test]
fn invalid_bytes_are_replaced() {
    let s = decode_text(&[0x41, 0xFF], true);
    assert!(s.starts_with('A') && s.len() > 1);
}

#[test]
fn removal_of_nothing_changes_nothing() {
    let mut jpeg = vec![0xFF, 0xD8, 0xFF, 0xE0, 0x00, 0x04, 0x00, 0x00, 0xFF, 0xD9];
    let before = jpeg.clone();
    assert!(!remove_jpeg_iptc(&mut jpeg));
    assert_eq!(jpeg, before);
}

#[test]
fn content_is_declared_as_utf8() {
    let foreign = Dataset { record: 1, number: 90, data: vec![0x1B, 0x2E, 0x41] };
    let edit = IptcEdit { sets: vec![(2, 5, vec!["标题".into()])], removes: vec![] };
    let out = apply(&[foreign], &edit);
    let mark = Dataset { record: 1, number: 90, data: CHARSET_UTF8.to_vec() };
    assert_eq!(out, vec![mark, ds(2, 5, "标题")]);
    // A character set that the edit sets gives way too where there is content, and stays without.
    let edit = IptcEdit { sets: vec![(1, 90, vec!["x".into()])], removes: vec![] };
    let out = apply(&[ds(2, 5, "a")], &edit);
    assert_eq!(out[0].data, CHARSET_UTF8);
    assert_eq!(out.iter().filter(|d| d.record == 1).count(), 1);
    assert_eq!(apply(&[], &edit), vec![ds(1, 90, "x")]);
}

#[test]
fn removal_keeps_the_other_blocks() {
    let irbs = vec![
        Irb { id: IPTC_ID, name: vec![], data: serialize_iim(&[ds(2, 5, "t")]) },
        Irb { id: 0x040C, name: vec![], data: vec![7; 9] },
    ];
    let mut payload = PS_SIG.to_vec();
    payload.extend_from_slice(&serialize_irbs(&irbs));
    let n = payload.len() + 2;
    let mut jpeg = vec![0xFF, 0xD8, 0xFF, 0xED, (n >> 8) as u8, (n & 0xFF) as u8];
    jpeg.extend_from_slice(&payload);
    jpeg.extend_from_slice(&[0xFF, 0xD9, 0, 0]);
    assert!(remove_jpeg_iptc(&mut jpeg));
    assert!(read_datasets(&jpeg).is_empty());
    let (_, _, body) = find_app13(&jpeg).unwrap();
    let rest = parse_irbs(&body);
    assert_eq!(rest.len(), 1);
    assert_eq!(rest[0].data, vec![7; 9]);
    assert!(!remove_jpeg_iptc(&mut jpeg));
}

#[test]
fn field_names_lead_back() {
    for number in [5, 15, 25, 40, 55, 80, 90, 92, 101, 105, 110, 115, 116, 120, 122] {
        assert_eq!(resolve_field(&field_name(2, number)), Some((2, number)));
    }
    assert_eq!(resolve_field("0:255"), Some((0, 255)));
    for name in ["By-line", "byline", "BY_LINE", "  by line\t"] {
        assert_eq!(resolve_field(name), Some((2, 80)));
    }
    assert_eq!(resolve_field("\tcity"), Some((2, 90)));
    assert_eq!(resolve_field("-\tcity"), None);
}
