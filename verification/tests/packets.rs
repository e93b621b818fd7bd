use pic_killer::jpeg::is_jpeg;
use pic_killer::png::{crc32, find_png_xmp, is_png, remove_png_xmp};
use pic_killer::xmp::{
    apply, extract_packet_bytes, find_jpeg_xmp, namespace_uri, read_properties, read_stored,
    remove_jpeg_xmp, remove_packet, set_jpeg_xmp, set_png_xmp, sidecar_candidates, sidecar_path,
    supports_xmp, write_packet, XmpEdit, XmpError, XmpValue,
};

const PNG_SIG: [u8; 8] = [0x89, 0x50, 0x4E, 0x47, 0x0D, 0x0A, 0x1A, 0x0A];

fn simple_edit() -> XmpEdit {
    XmpEdit {
        sets: vec![
            ("xmp:Rating".into(), XmpValue::Simple("5".into())),
            (
                "dc:creator".into(),
                XmpValue::Ordered(vec!["张三".into(), "李四".into()]),
            ),
        ],
        removes: vec![],
    }
}

#[test]
fn fresh_packet_contains_values() {
    let pkt = apply(None, &simple_edit()).unwrap();
    assert!(pkt.contains("<xmp:Rating>5</xmp:Rating>"));
    assert!(pkt.contains("<rdf:li>张三</rdf:li>"));
    assert!(pkt.contains("xmlns:dc="));
    assert!(pkt.contains("xmlns:xmp="));
    let props = read_properties(&pkt);
    assert!(props.iter().any(|(k, v)| k == "xmp:Rating" && v == "5"));
    assert!(props
        .iter()
        .any(|(k, v)| k == "dc:creator" && v == "张三; 李四"));
}

#[test]
fn edit_preserves_unknown_props() {
    let original = "<?xpacket begin=\"\"?><x:xmpmeta xmlns:x=\"adobe:ns:meta/\">\
        <rdf:RDF xmlns:rdf=\"http://www.w3.org/1999/02/22-rdf-syntax-ns#\">\
        <rdf:Description rdf:about=\"\" xmlns:dc=\"http://purl.org/dc/elements/1.1/\" \
        xmlns:custom=\"http://example.com/\">\
        <custom:Secret>keepme</custom:Secret>\
        <dc:title><rdf:Alt><rdf:li xml:lang=\"x-default\">Old</rdf:li></rdf:Alt></dc:title>\
        </rdf:Description></rdf:RDF></x:xmpmeta><?xpacket end=\"w\"?>";
    let edit = XmpEdit {
        sets: vec![("dc:title".into(), XmpValue::LangAlt("New".into()))],
        removes: vec![],
    };
    let out = apply(Some(original), &edit).unwrap();
    assert!(out.contains("<custom:Secret>keepme</custom:Secret>"));
    assert!(out.contains(">New</rdf:li>"));
    assert!(!out.contains(">Old</rdf:li>"));
    let props = read_properties(&out);
    assert_eq!(
        props,
        [
            ("custom:Secret".to_string(), "keepme".to_string()),
            ("dc:title".to_string(), "New".to_string())
        ]
    );
}

#[test]
fn remove_attribute_form_property() {
    let original = "<x:xmpmeta xmlns:x=\"adobe:ns:meta/\">\
        <rdf:RDF xmlns:rdf=\"http://www.w3.org/1999/02/22-rdf-syntax-ns#\">\
        <rdf:Description rdf:about=\"\" xmlns:xmp=\"http://ns.adobe.com/xap/1.0/\" xmp:Rating=\"3\"/>\
        </rdf:RDF></x:xmpmeta>";
    let edit = XmpEdit {
        sets: vec![],
        removes: vec!["xmp:Rating".into()],
    };
    let out = apply(Some(original), &edit).unwrap();
    assert!(!out.contains("Rating=\"3\""));
    assert!(!out.contains("xmp:Rating"));
}

#[test]
fn replace_attribute_form_with_element() {
    let original = "<x:xmpmeta xmlns:x=\"adobe:ns:meta/\">\
        <rdf:RDF xmlns:rdf=\"http://www.w3.org/1999/02/22-rdf-syntax-ns#\">\
        <rdf:Description rdf:about=\"\" xmlns:xmp=\"http://ns.adobe.com/xap/1.0/\" xmp:Rating=\"3\"/>\
        </rdf:RDF></x:xmpmeta>";
    let edit = XmpEdit {
        sets: vec![("xmp:Rating".into(), XmpValue::Simple("5".into()))],
        removes: vec![],
    };
    let out = apply(Some(original), &edit).unwrap();
    assert!(!out.contains("Rating=\"3\""));
    assert!(out.contains("<xmp:Rating>5</xmp:Rating>"));
}

fn small_png() -> Vec<u8> {
    let mut png = Vec::new();
    png.extend_from_slice(&PNG_SIG);
    let chunk = |ctype: &[u8], data: &[u8], out: &mut Vec<u8>| {
        out.extend_from_slice(&(data.len() as u32).to_be_bytes());
        let mut td = Vec::new();
        td.extend_from_slice(ctype);
        td.extend_from_slice(data);
        out.extend_from_slice(&td);
        out.extend_from_slice(&crc32(&td).to_be_bytes());
    };
    chunk(b"IHDR", &[0; 13], &mut png);
    chunk(b"IDAT", &[1, 2, 3], &mut png);
    chunk(b"IEND", &[], &mut png);
    png
}

#[test]
fn png_itxt_roundtrip() {
    let mut png = small_png();
    let idat_before = png.windows(4).filter(|w| *w == b"IDAT").count();

    assert!(find_png_xmp(&png).is_none());
    set_png_xmp(&mut png, "<x>hi</x>").unwrap();
    let (_, _, packet) = find_png_xmp(&png).unwrap();
    assert_eq!(packet, b"<x>hi</x>");
    assert_eq!(
        png.windows(4).filter(|w| *w == b"IDAT").count(),
        idat_before
    );
    assert!(remove_png_xmp(&mut png));
    assert!(find_png_xmp(&png).is_none());
    assert_eq!(&png[0..8], &PNG_SIG);
}

#[test]
fn jpeg_segment_roundtrip() {
    let mut jpeg = vec![0xFF, 0xD8, 0xFF, 0xE0, 0x00, 0x04, 0x00, 0x00, 0xFF, 0xD9];
    assert!(find_jpeg_xmp(&jpeg).is_none());
    set_jpeg_xmp(&mut jpeg, "<x>hi</x>").unwrap();
    let (_, _, packet) = find_jpeg_xmp(&jpeg).unwrap();
    assert_eq!(packet, b"<x>hi</x>");
    assert!(remove_jpeg_xmp(&mut jpeg));
    assert!(find_jpeg_xmp(&jpeg).is_none());
    assert_eq!(&jpeg[0..2], &[0xFF, 0xD8]);
}

#[test]
fn checksum_is_the_usual_one() {
    assert_eq!(crc32(b"123456789"), 0xCBF4_3926);
    assert_eq!(crc32(b"IEND"), 0xAE42_6082);
}

#[test]
fn removal_restores_the_png() {
    let before = small_png();
    let mut png = before.clone();
    write_packet(&mut png, "<x>one</x>").unwrap();
    write_packet(&mut png, "<x>two</x>").unwrap();
    assert_eq!(extract_packet_bytes(&png).unwrap(), b"<x>two</x>");
    assert!(remove_packet(&mut png));
    assert_eq!(png, before);
    assert!(!remove_packet(&mut png));
}

#[test]
fn last_packet_wins_in_a_jpeg() {
    let before = vec![0xFF, 0xD8, 0xFF, 0xE0, 0x00, 0x04, 0x00, 0x00, 0xFF, 0xD9];
    let mut jpeg = before.clone();
    write_packet(&mut jpeg, "<x>one</x>").unwrap();
    write_packet(&mut jpeg, "<x>two</x>").unwrap();
    assert_eq!(extract_packet_bytes(&jpeg).unwrap(), b"<x>two</x>");
    assert!(remove_packet(&mut jpeg));
    assert_eq!(jpeg, before);
}

#[test]
fn only_jpeg_and_png_hold_packets() {
    let mut other = vec![1, 2, 3];
    assert!(!supports_xmp(&other) && !is_jpeg(&other) && !is_png(&other));
    assert!(matches!(write_packet(&mut other, "<x/>"), Err(XmpError::Unsupported)));
    assert_eq!(other, [1, 2, 3]);
    assert_eq!(extract_packet_bytes(&other), None);
}

#[test]
fn too_large_a_packet_is_refused() {
    let mut jpeg = vec![0xFF, 0xD8, 0xFF, 0xD9];
    let big = "x".repeat(70_000);
    assert!(matches!(set_jpeg_xmp(&mut jpeg, &big), Err(XmpError::TooLarge(_))));
    assert_eq!(jpeg, [0xFF, 0xD8, 0xFF, 0xD9]);
}

#[test]
fn png_without_image_data_is_refused() {
    let mut png = PNG_SIG.to_vec();
    let r = set_png_xmp(&mut png, "<x/>");
    assert!(matches!(r, Err(XmpError::NoImageData)));
    assert_eq!(r.unwrap_err().message(), "PNG 结构异常：未找到 IDAT/IEND");
}

#[test]
fn stored_properties_are_read() {
    let mut jpeg = vec![0xFF, 0xD8, 0xFF, 0xD9];
    let packet = apply(None, &simple_edit()).unwrap();
    write_packet(&mut jpeg, &packet).unwrap();
    assert_eq!(
        read_stored(&jpeg),
        [
            ("xmp:Rating".to_string(), "5".to_string()),
            ("dc:creator".to_string(), "张三; 李四".to_string())
        ]
    );
    assert!(read_stored(&[1, 2]).is_empty());
}

#[test]
fn special_characters_read_back() {
    let edit = XmpEdit {
        sets: vec![
            ("dc:title".into(), XmpValue::LangAlt("a < b & \"c\" > 'd'".into())),
            ("dc:subject".into(), XmpValue::Bag(vec!["x&y".into(), " padded ".into(), "".into()])),
        ],
        removes: vec![],
    };
    let packet = apply(None, &edit).unwrap();
    assert!(packet.contains("a &lt; b &amp; &quot;c&quot; &gt; &apos;d&apos;"));
    assert_eq!(
        read_properties(&packet),
        [
            ("dc:title".to_string(), "a < b & \"c\" > 'd'".to_string()),
            ("dc:subject".to_string(), "x&y; padded".to_string())
        ]
    );
}

#[test]
fn mark_before_plain_text_is_passed_over() {
    let edit = XmpEdit {
        sets: vec![
            ("a:x".into(), XmpValue::Simple("\u{feff} one ".into())),
            ("a:y".into(), XmpValue::LangAlt("\u{feff}two".into())),
            ("a:z".into(), XmpValue::Simple("".into())),
        ],
        removes: vec![],
    };
    let packet = apply(None, &edit).unwrap();
    assert_eq!(
        read_properties(&packet),
        [
            ("a:x".to_string(), "one".to_string()),
            ("a:y".to_string(), "\u{feff}two".to_string()),
            ("a:z".to_string(), "".to_string())
        ]
    );
}

#[test]
fn edit_touches_only_the_first_description() {
    let original = "<rdf:RDF><rdf:Description a:p=\"1\" a:q=\"2\">\n<a:r>3</a:r>\n<a:s><a:r>in</a:r></a:s>\n\
        <a:t/>\n</rdf:Description><rdf:Description><a:r>4</a:r></rdf:Description></rdf:RDF>";
    let edit = XmpEdit {
        sets: vec![
            ("a:r".into(), XmpValue::Simple("5".into())),
            ("a:u".into(), XmpValue::Bag(vec!["6".into(), "7".into()])),
        ],
        removes: vec!["a:q".into(), "a:t".into()],
    };
    let out = apply(Some(original), &edit).unwrap();
    let pair = |k: &str, v: &str| (k.to_string(), v.to_string());
    assert_eq!(
        read_properties(original),
        [
            pair("a:p", "1"),
            pair("a:q", "2"),
            pair("a:r", "3"),
            pair("a:s", "in"),
            pair("a:t", ""),
            pair("a:r", "4")
        ]
    );
    assert_eq!(
        read_properties(&out),
        [
            pair("a:p", "1"),
            pair("a:r", "5"),
            pair("a:s", "in"),
            pair("a:u", "6; 7"),
            pair("a:r", "4")
        ]
    );
}

#[test]
fn markup_that_is_no_tag_is_kept() {
    let original = "<!DOCTYPE x><!--c--><rdf:RDF><rdf:Description><!-- > --><a:b><![CDATA[x<y]]></a:b>\
        </rdf:Description></rdf:RDF><?end of it?>";
    let edit = XmpEdit {
        sets: vec![("a:c".into(), XmpValue::Simple("1".into()))],
        removes: vec![],
    };
    let out = apply(Some(original), &edit).unwrap();
    assert_eq!(
        out,
        "<!DOCTYPE x><!--c--><rdf:RDF><rdf:Description><!-- > --><a:b><![CDATA[x<y]]></a:b>\
         \n   <a:c>1</a:c></rdf:Description></rdf:RDF><?end of it?>"
    );
    assert_eq!(
        read_properties(&out),
        [
            ("a:b".to_string(), "".to_string()),
            ("a:c".to_string(), "1".to_string())
        ]
    );
}

#[test]
fn single_description_is_filled() {
    let original = "<rdf:RDF><rdf:Description a:p=\"1\" a:q=\"2\"/></rdf:RDF>";
    let edit = XmpEdit {
        sets: vec![("dc:title".into(), XmpValue::LangAlt("T".into()))],
        removes: vec!["a:p".into()],
    };
    let out = apply(Some(original), &edit).unwrap();
    assert_eq!(
        out,
        "<rdf:RDF><rdf:Description a:q=\"2\" xmlns:dc=\"http://purl.org/dc/elements/1.1/\">\
         <dc:title><rdf:Alt><rdf:li xml:lang=\"x-default\">T</rdf:li></rdf:Alt></dc:title>\
         </rdf:Description></rdf:RDF>"
    );
    assert_eq!(
        read_properties(&out),
        [
            ("a:q".to_string(), "2".to_string()),
            ("dc:title".to_string(), "T".to_string())
        ]
    );
}

#[test]
fn second_edit_replaces_the_first() {
    let first = apply(None, &simple_edit()).unwrap();
    let edit = XmpEdit {
        sets: vec![("xmp:Rating".into(), XmpValue::Simple("2".into()))],
        removes: vec!["dc:creator".into()],
    };
    let second = apply(Some(&first), &edit).unwrap();
    assert_eq!(
        read_properties(&second),
        [("xmp:Rating".to_string(), "2".to_string())]
    );
}

#[test]
fn attribute_properties_are_kept_and_read() {
    let original = "<rdf:RDF><rdf:Description rdf:about=\"\" a:x=\"1 &amp; 2\" a:y='3'/></rdf:RDF>";
    let edit = XmpEdit {
        sets: vec![("dc:title".into(), XmpValue::Simple("T".into()))],
        removes: vec![],
    };
    let out = apply(Some(original), &edit).unwrap();
    assert_eq!(
        read_properties(&out),
        [
            ("a:x".to_string(), "1 & 2".to_string()),
            ("a:y".to_string(), "3".to_string()),
            ("dc:title".to_string(), "T".to_string())
        ]
    );
    assert!(out.contains("xmlns:dc=\"http://purl.org/dc/elements/1.1/\""));
}

#[test]
fn broken_packets_are_refused() {
    let edit = XmpEdit {
        sets: vec![("dc:title".into(), XmpValue::Simple("T".into()))],
        removes: vec![],
    };
    let unclosed = "<rdf:Description><dc:title>x";
    assert!(matches!(apply(Some(unclosed), &edit), Err(XmpError::MissingEnd(_))));
    let broken = "<rdf:Description><a";
    assert!(matches!(apply(Some(broken), &edit), Err(XmpError::Parse(_))));
    let inside = "<rdf:Description><dc:title><a";
    assert!(matches!(apply(Some(inside), &edit), Err(XmpError::Skip(_))));
    let attribute = "<rdf:Description a=1></rdf:Description>";
    assert!(matches!(apply(Some(attribute), &edit), Err(XmpError::Attribute(_))));
    let value = "<rdf:Description a=\"&no;\"></rdf:Description>";
    assert!(matches!(apply(Some(value), &edit), Err(XmpError::AttributeValue(_))));
}

#[test]
fn byte_order_mark_is_passed_over() {
    let text = "\u{feff}<rdf:Description><a:b>汉</a:b></rdf:Description>";
    assert_eq!(read_properties(text), [("a:b".to_string(), "汉".to_string())]);
}

#[test]
fn namespaces_are_known() {
    assert_eq!(namespace_uri("dc"), Some("http://purl.org/dc/elements/1.1/"));
    assert_eq!(namespace_uri("nobody"), None);
}

#[test]
fn sidecars_stand_beside_the_file() {
    assert_eq!(sidecar_path("photo.CR2"), "photo.xmp");
    let (a, b) = sidecar_candidates("photo.CR2");
    assert!(a == "photo.xmp" && b == "photo.CR2.xmp");
}

#[test]
fn edits_show_and_leave_the_rest() {
    let packet = concat_packet();
    let before = read_properties(&packet);
    let edit = XmpEdit {
        sets: vec![
            ("dc:title".into(), XmpValue::LangAlt("new".into())),
            ("dc:subject".into(), XmpValue::Bag(vec!["a".into(), "b".into()])),
        ],
        removes: vec!["xmp:Label".into()],
    };
    let out = apply(Some(&packet), &edit).unwrap();
    let after = read_properties(&out);
    let named = |p: &&(String, String)| ["dc:title", "dc:subject", "xmp:Label"].contains(&p.0.as_str());
    let left = |v: &[(String, String)]| v.iter().filter(|p| !named(p)).cloned().collect::<Vec<_>>();
    assert_eq!(left(&after), left(&before));
    assert_eq!(left(&before).len(), 2);
    assert!(after.contains(&("dc:title".into(), "new".into())));
    assert!(after.contains(&("dc:subject".into(), "a; b".into())));
    assert_eq!(after.iter().filter(|p| named(p)).count(), 2);
}

fn concat_packet() -> String {
    let head = "<x:xmpmeta xmlns:x=\"adobe:ns:meta/\"><rdf:RDF><rdf:Description rdf:about=\"\" xmp:Rating=\"3\" xmp:Label=\"red\">";
    let inside = "<dc:title>old</dc:title><foo:bar>kept</foo:bar>";
    format!("{head}{inside}</rdf:Description></rdf:RDF></x:xmpmeta>")
}
