use pic_killer::applycmd::{
    applied_text, apply_header, datetime_value, group_rows, is_gps_field, parse_csv_line,
    parse_gps, read_table, resolve_xmp_field, route_fields, split_multi, apply_field,
};
use pic_killer::cli::{write_opts, IptcArgs, TargetArgs, TimeArgs, WriteArgs, XmpArgs};
use pic_killer::editcmd::{
    build_iptc_edit, build_xmp_edit, change_iptc, change_xmp, iptc_header, iptc_request,
    plan_sidecar, sidecar_outcome, xmp_header, xmp_request, SidecarStep,
};
use pic_killer::exif::TagSelection;
use pic_killer::filecmd::{
    build_target, check_stem, judge_name, plan_restore, rename_header, renamed, restore_header,
    restore_summary, restored, NameStep, RestoreStep,
};
use pic_killer::namedate::extract;
use pic_killer::outcome::{
    batch_text, counts_text, is_yes, must_confirm, outcome_text, summary_text, tally, Outcome, Stats,
};
use pic_killer::reportcmd::{
    check_file, count_files, find_issues, report_text, verify_text, Checked, PhotoFacts, Severity,
};
use pic_killer::showcmd::{
    csv_field, filter_props, json_escape, show_csv, show_json, show_text, Content, PositionText,
    Sheet, ShownFile,
};
use pic_killer::stamp::Stamp;
use pic_killer::tagtext::TagView;
use pic_killer::timecmd::{
    build_time_mode, choose_target, describe_delta, describe_tags, describe_time_mode,
    parse_time_tags, shift, time_header, TimeMode,
};
use pic_killer::timeop::{parse_datetime, parse_delta, Delta};
use pic_killer::xmp::{read_properties, read_stored, XmpValue};

#[test]
fn csv_plain() {
    assert_eq!(parse_csv_line("a,b,c"), vec!["a", "b", "c"]);
}

#[test]
fn csv_quoted_comma() {
    assert_eq!(
        parse_csv_line(r#"photo.jpg,gps,"30.1,120.1""#),
        vec!["photo.jpg", "gps", "30.1,120.1"]
    );
}

#[test]
fn csv_escaped_quote() {
    assert_eq!(
        parse_csv_line(r#"a,b,"say ""hi"""#),
        vec!["a", "b", "say \"hi\""]
    );
}

#[test]
fn csv_trailing_empty() {
    assert_eq!(parse_csv_line("a,b,"), vec!["a", "b", ""]);
}

fn numbers(value: &str) -> Result<(f64, f64, Option<f64>), String> {
    let g = parse_gps(value)?;
    let n = |s: &String| s.parse::<f64>().map_err(|e| e.to_string());
    let alt = match &g.alt {
        Some(s) => Some(n(s)?),
        None => None,
    };
    Ok((n(&g.lat)?, n(&g.lon)?, alt))
}

#[test]
fn parse_gps_variants() {
    assert_eq!(numbers("30.1,120.1").unwrap(), (30.1, 120.1, None));
    assert_eq!(
        numbers("30.1, 120.1, 50").unwrap(),
        (30.1, 120.1, Some(50.0))
    );
    assert!(numbers("30.1").is_err());
}

#[test]
fn csv_fields_read_back() {
    for s in ["plain", "a,b", "say \"hi\"", "", "汉字,\"\""] {
        assert_eq!(parse_csv_line(&csv_field(s)), vec![s]);
    }
}

#[test]
fn tables_are_read_and_grouped() {
    let rows = read_table("file,field,value\na.jpg,artist,张三\n\nb.jpg,title,T\n").unwrap();
    assert_eq!(rows.len(), 2);
    assert_eq!(rows[0].file, "a.jpg");
    assert_eq!(rows[1].value, "T");
    let groups = group_rows(&vec![0, 1, 0, 2, 1]);
    assert_eq!(groups.len(), 3);
    assert_eq!(groups[0].rows, [0, 2]);
    assert_eq!(groups[1].rows, [1, 4]);
    assert_eq!(groups[2].id, 2);
}

#[test]
fn fields_are_routed() {
    assert_eq!(split_multi("a; b;;c"), ["a", "b", "c"]);
    assert!(is_gps_field("GPS"));
    assert!(!is_gps_field("artist"));
    assert_eq!(datetime_value("2024-01-02"), Ok("2024:01:02 00:00:00".to_string()));
    assert!(datetime_value("soon").is_err());
    let (name, value) = resolve_xmp_field("title", "T");
    assert_eq!(name, "dc:title");
    assert!(matches!(value, XmpValue::LangAlt(_)));
    let fields = vec![
        ("artist".to_string(), "A".to_string()),
        ("xmp:title".to_string(), "T".to_string()),
        ("iptc:Keywords".to_string(), "a;b".to_string()),
    ];
    let routed = route_fields(&fields).unwrap();
    assert_eq!(routed.exif, [("artist".to_string(), "A".to_string())]);
    assert_eq!(routed.xmp.sets.len(), 1);
    assert_eq!(routed.iptc.sets, [(2, 25, vec!["a;b".to_string()])]);
    assert!(route_fields(&vec![("iptc:nonsense".to_string(), "x".to_string())]).is_err());
}

#[test]
fn fields_are_applied() {
    let mut m = little_exif::metadata::Metadata::new();
    assert!(apply_field(&mut m, "artist", "A", None).is_ok());
    assert!(apply_field(&mut m, "datetime", "2024-01-02 03:04:05", None).is_ok());
    assert_eq!(
        pic_killer::exif::read_capture_time(&m).as_deref(),
        Some("2024:01:02 03:04:05")
    );
    assert!(apply_field(&mut m, "nonsense", "x", None).is_err());
    assert!(apply_field(&mut m, "datetime", "soon", None).is_err());
    assert!(applied_text(3).contains('3'));
    assert!(apply_header("t.csv", 2, 5, true).contains("t.csv"));
}

fn target() -> TargetArgs {
    TargetArgs { paths: vec![], recursive: false, ext: "jpg".into(), where_expr: None }
}

fn write() -> WriteArgs {
    WriteArgs { backup: true, dry_run: false, yes: true, verbose: false, jobs: 1 }
}

fn time_args() -> TimeArgs {
    TimeArgs {
        target: target(),
        write: write(),
        set: None,
        shift: None,
        sequential: None,
        interval: "+1m".into(),
        from_name: false,
        tags: "original,digitized,modify".into(),
        also_file_time: false,
        tz: None,
    }
}

#[test]
fn time_requests_are_understood() {
    let mut a = time_args();
    assert!(build_time_mode(&a).is_err());
    a.from_name = true;
    assert_eq!(build_time_mode(&a), Ok(TimeMode::FromName));
    a.sequential = Some("2021-01-01 08:00:00".into());
    assert!(matches!(build_time_mode(&a), Ok(TimeMode::Sequential { .. })));
    a.interval = "x".into();
    assert!(build_time_mode(&a).is_err());
    a.shift = Some("+2h".into());
    assert_eq!(
        build_time_mode(&a),
        Ok(TimeMode::Shift(Delta { months: 0, days: 0, seconds: 7200 }))
    );
    a.shift = Some("0s".into());
    assert!(build_time_mode(&a).is_err());
    a.set = Some("2024-01-01".into());
    assert!(matches!(build_time_mode(&a), Ok(TimeMode::Fixed(_))));
    a.set = Some("someday".into());
    assert!(build_time_mode(&a).is_err());
}

#[test]
fn time_fields_are_selected() {
    let sel = parse_time_tags("original, modify").unwrap();
    assert_eq!(sel, TagSelection { original: true, digitized: false, modify: true });
    assert!(parse_time_tags("birthday").is_err());
    assert!(parse_time_tags("").is_err());
    assert!(!describe_tags(sel).is_empty());
}

#[test]
fn time_changes_are_put_into_words() {
    let d = parse_delta("-1y2mo3d4h5m6s").unwrap();
    let s = describe_delta(&d);
    assert!(s.contains('3') && s.contains('4'));
    assert!(!describe_time_mode(&TimeMode::FromName).is_empty());
    let sel = TagSelection { original: true, digitized: true, modify: true };
    let head = time_header(&TimeMode::Shift(d), sel, 7, Some("+08:00"), true, true);
    assert!(head.contains('7') && head.contains("+08:00"));
}

#[test]
fn targets_are_chosen_by_mode() {
    let t = parse_datetime("2024-01-31 10:00:00").unwrap();
    let month = Delta { months: 1, days: 0, seconds: 0 };
    assert_eq!(shift(&month, t), Some(Stamp { month: 2, day: 29, ..t }));
    assert_eq!(choose_target(&TimeMode::Fixed(t), 5, None, None).unwrap(), t);
    assert!(matches!(
        choose_target(&TimeMode::Shift(month), 0, None, None),
        Err(Outcome::Skipped(_))
    ));
    let huge = Delta { months: 0, days: i64::MAX, seconds: 0 };
    assert!(matches!(
        choose_target(&TimeMode::Shift(huge), 0, Some(t), None),
        Err(Outcome::Failed(_))
    ));
}

fn xmp_args() -> XmpArgs {
    XmpArgs {
        target: target(),
        write: write(),
        title: None,
        description: None,
        creator: vec![],
        rights: None,
        rating: None,
        label: None,
        keywords: None,
        city: None,
        country: None,
        set: vec![],
        remove: vec![],
        clear: false,
        sidecar: false,
    }
}

#[test]
fn xmp_requests_are_built() {
    let mut a = xmp_args();
    assert!(xmp_request(&a).is_err());
    a.title = Some("西湖日出".into());
    a.rating = Some(5);
    a.keywords = Some("风景, 西湖".into());
    a.set = vec!["photoshop:Headline=头条".into()];
    let edit = build_xmp_edit(&a).unwrap();
    assert_eq!(edit.sets.len(), 4);
    let mut jpeg = vec![0xFF, 0xD8, 0xFF, 0xD9];
    assert!(change_xmp(&mut jpeg, &edit, false).is_ok());
    let props = read_stored(&jpeg);
    assert!(props.contains(&("dc:title".to_string(), "西湖日出".to_string())));
    assert!(props.contains(&("dc:subject".to_string(), "风景; 西湖".to_string())));
    assert!(change_xmp(&mut jpeg, &edit, true).is_ok());
    assert_eq!(jpeg, [0xFF, 0xD8, 0xFF, 0xD9]);
    assert!(matches!(change_xmp(&mut jpeg, &edit, true), Err(Outcome::Skipped(_))));
    assert!(xmp_header(&edit, false, 3, true).contains("dc:title"));
    a.rating = Some(9);
    assert!(build_xmp_edit(&a).is_err());
    a.rating = None;
    a.set = vec!["no equals".into()];
    assert!(build_xmp_edit(&a).is_err());
}

#[test]
fn sidecars_are_planned() {
    let mut a = xmp_args();
    a.title = Some("T".into());
    let edit = build_xmp_edit(&a).unwrap();
    match plan_sidecar("p.xmp", false, None, &edit, false, false) {
        SidecarStep::Write(packet) => {
            assert_eq!(read_properties(&packet), [("dc:title".to_string(), "T".to_string())]);
        }
        _ => panic!("应写入 sidecar"),
    }
    assert!(matches!(plan_sidecar("p.xmp", true, None, &edit, true, false), SidecarStep::Remove));
    assert!(matches!(
        plan_sidecar("p.xmp", false, None, &edit, true, false),
        SidecarStep::Done(Outcome::Skipped(_))
    ));
    assert!(matches!(
        plan_sidecar("p.xmp", false, None, &edit, false, true),
        SidecarStep::Done(Outcome::Changed(_))
    ));
    assert!(matches!(sidecar_outcome("p.xmp", false, Some("why")), Outcome::Failed(_)));
}

fn iptc_args() -> IptcArgs {
    IptcArgs {
        target: target(),
        write: write(),
        title: None,
        description: None,
        keywords: None,
        creator: vec![],
        headline: None,
        city: None,
        state: None,
        country: None,
        copyright: None,
        credit: None,
        source: None,
        instructions: None,
        set: vec![],
        remove: vec![],
        clear: false,
    }
}

#[test]
fn iptc_requests_are_built() {
    let mut a = iptc_args();
    assert!(iptc_request(&a).is_err());
    a.title = Some("开幕式".into());
    a.keywords = Some("体育,开幕".into());
    a.set = vec!["2:105=头条".into()];
    a.remove = vec!["city".into()];
    let edit = build_iptc_edit(&a).unwrap();
    assert_eq!(edit.sets.len(), 3);
    assert_eq!(edit.removes, [(2, 90)]);
    let mut jpeg = vec![0xFF, 0xD8, 0xFF, 0xD9];
    assert!(change_iptc(&mut jpeg, &edit, false).is_ok());
    let props = pic_killer::iptc::read_properties(&jpeg);
    assert!(props.contains(&("Title".to_string(), "开幕式".to_string())));
    assert!(change_iptc(&mut jpeg, &edit, true).is_ok());
    assert!(matches!(change_iptc(&mut jpeg, &edit, true), Err(Outcome::Skipped(_))));
    assert!(!iptc_header(&edit, false, 3, true).is_empty());
    a.set = vec!["nonsense=x".into()];
    assert!(build_iptc_edit(&a).is_err());
}

#[test]
fn outcomes_are_counted_and_told() {
    let outcomes = vec![
        Outcome::Changed("detail".into()),
        Outcome::Skipped("why".into()),
        Outcome::Failed("error".into()),
        Outcome::Changed("".into()),
    ];
    let stats = tally(&outcomes);
    assert_eq!(stats, Stats { changed: 2, skipped: 1, failed: 1 });
    assert_eq!(outcome_text("a.jpg", &outcomes[0]), "[OK]   a.jpg\n         detail\n");
    assert_eq!(outcome_text("a.jpg", &outcomes[1]), "[跳过] a.jpg  (why)\n");
    assert_eq!(outcome_text("a.jpg", &outcomes[2]), "[失败] a.jpg  (error)\n");
    assert_eq!(summary_text(&stats, 4, false), "\n已修改 2，跳过 1，失败 1，共 4 个文件。\n");
    assert_eq!(counts_text("已还原", &Stats { changed: 1, skipped: 0, failed: 0 }, 1), "\n已还原 1，共 1 个文件。\n");
    let names: Vec<String> = (0..4).map(|i| i.to_string()).collect();
    let (text, counted) = batch_text(&names, &outcomes);
    assert_eq!(counted, stats);
    assert!(text.starts_with("[OK]   0\n         detail\n[跳过] 1"));
    assert!(!must_confirm(true, false) && !must_confirm(false, true) && must_confirm(false, false));
    assert!(is_yes(" Yes\n") && is_yes("y") && !is_yes("yep") && !is_yes(""));
    assert!(write_opts(&write(), true).backup);
}

#[test]
fn names_are_built_and_judged() {
    assert_eq!(build_target("s", "jpg", None), "s.jpg");
    assert_eq!(build_target("s", "jpg", Some(12)), "s_12.jpg");
    assert_eq!(build_target("s", "", Some(1)), "s_1");
    assert!(matches!(check_stem(Some("".into())), Err(Outcome::Failed(_))));
    assert!(matches!(check_stem(None), Ok(None)));
    let claimed = vec!["d/a.jpg".to_string()];
    assert_eq!(judge_name("d/a.jpg", "d/a.jpg", &claimed, true, None), NameStep::Keep);
    assert_eq!(judge_name("d/a.jpg", "d/x.jpg", &claimed, false, None), NameStep::Next(1));
    assert_eq!(judge_name("d/b.jpg", "d/x.jpg", &claimed, true, Some(4)), NameStep::Next(5));
    assert_eq!(judge_name("d/b.jpg", "d/x.jpg", &claimed, false, Some(4)), NameStep::Take);
    assert!(matches!(renamed("b.jpg", None), Outcome::Changed(s) if s == "-> b.jpg"));
    assert!(matches!(renamed("b.jpg", Some("e")), Outcome::Failed(_)));
    assert!(rename_header("%Y", 3, true).contains("预览"));
}

#[test]
fn numbered_names_tell_the_time() {
    let stem = "20230115_143022";
    let plain = extract(&build_target(stem, "", None)).unwrap();
    assert_eq!((plain.year, plain.hour, plain.second), (2023, 14, 22));
    assert_eq!(extract(&build_target(stem, "", Some(7))), Some(plain));
}

#[test]
fn backups_are_brought_back() {
    assert!(matches!(plan_restore(false, false, false), RestoreStep::Tell(Outcome::Skipped(_))));
    assert!(matches!(plan_restore(true, false, true), RestoreStep::Tell(Outcome::Changed(_))));
    assert!(matches!(plan_restore(true, true, false), RestoreStep::Copy));
    assert!(matches!(plan_restore(true, false, false), RestoreStep::Move));
    assert!(matches!(restored(true, None), Outcome::Changed(s) if s == "已从备份还原（保留 .bak）"));
    assert!(matches!(restored(true, Some("e")), Outcome::Failed(s) if s == "还原失败：e"));
    assert!(restore_header(0, 3, false, false).ends_with("无需还原。\n"));
    let stats = Stats { changed: 2, skipped: 0, failed: 0 };
    assert_eq!(restore_summary(&stats, 2, true), "\n将还原 2，共 2 个文件。\n");
}

fn tag(name: &str, value: &str) -> TagView {
    TagView { group: "EXIF".into(), name: name.into(), hex: 0, value: value.into() }
}

#[test]
fn reports_count_pictures() {
    let files = vec![
        Some(PhotoFacts {
            date: Some("2023:01:02 00:00:00".into()),
            gps: true,
            tags: vec![tag("Make", "Canon"), tag("Model", "R5")],
        }),
        Some(PhotoFacts { date: None, gps: false, tags: vec![] }),
        Some(PhotoFacts {
            date: Some("2021:01:02 00:00:00".into()),
            gps: false,
            tags: vec![tag("Make", "Canon"), tag("Model", "R5")],
        }),
        None,
    ];
    let t = count_files(&files);
    assert_eq!((t.dated, t.placed, t.unreadable), (2, 1, 1));
    assert_eq!(t.first.as_deref(), Some("2021:01:02 00:00:00"));
    let s = report_text(&files);
    assert!(s.contains("  共 4 张照片\n"));
    assert!(s.contains("拍摄时间：2 有，1 无"));
    assert!(s.contains("时间跨度：2021:01:02 00:00:00  ~  2023:01:02 00:00:00"));
    assert!(s.contains("无法读取：1"));
}

#[test]
fn problems_are_found() {
    let now = parse_datetime("2024-01-01 00:00:00").unwrap();
    let bad = check_file(None, &now, None);
    assert_eq!(bad, [(Severity::Error, "无法读取元数据（可能损坏或不支持）".to_string())]);
    let future = vec![tag("DateTimeOriginal", "2030:01:01 00:00:00")];
    assert_eq!(check_file(Some(&future), &now, None)[0].0, Severity::Warn);
    let garbled = vec![tag("DateTimeOriginal", "soon"), tag("CreateDate", "later")];
    let found = check_file(Some(&garbled), &now, None);
    assert_eq!(found.len(), 2);
    assert_eq!(found[0], (Severity::Error, "拍摄时间格式异常：soon".to_string()));
    let turned = vec![tag("Orientation", "9")];
    let found = find_issues(&turned, None, &now, Some("91, 0"));
    assert_eq!(found[0].1, "GPS 坐标越界：91, 0");
    assert_eq!(found[1].1, "方向值异常：9（应为 1-8）");
    assert!(check_file(Some(&vec![tag("Orientation", "8")]), &now, None).is_empty());
    let files = vec![
        Checked { name: "a".into(), issues: found },
        Checked { name: "b".into(), issues: vec![] },
    ];
    let (text, problems) = verify_text(&files);
    assert_eq!(problems, 1);
    assert!(text.starts_with("[问题] a\n  ✗ GPS"));
    assert!(text.ends_with("\n共 2 张：正常 1，问题 1，警告 0\n"));
    let (fine, none) = verify_text(&vec![Checked { name: "b".into(), issues: vec![] }]);
    assert_eq!(none, 0);
    assert!(fine.ends_with("未发现元数据问题 ✓\n"));
}

fn shown() -> Vec<ShownFile> {
    vec![
        ShownFile {
            name: "a.jpg".into(),
            content: Content::Read(Sheet {
                position: Some(PositionText {
                    lat: "30.100000".into(),
                    lon: "120.100000".into(),
                    alt: Some("50.00".into()),
                }),
                tags: vec![tag("Make", "Can\"on"), tag("Model", "R5, II")],
                xmp: vec![("dc:title".into(), "T".into())],
                iptc: vec![],
                sidecar: vec![],
            }),
        },
        ShownFile { name: "b.bmp".into(), content: Content::Unsupported("hint".into()) },
        ShownFile { name: "c.jpg".into(), content: Content::Unreadable("why".into(), vec![]) },
    ]
}

#[test]
fn metadata_is_shown() {
    let files = shown();
    let (text, failed) = show_text(&files, None);
    assert_eq!(failed, 1);
    assert!(text.contains("  位置：30.100000, 120.100000，海拔 50.00m\n"));
    assert!(text.contains("  --- XMP ---\n"));
    let (some, _) = show_text(&files, Some("model"));
    assert!(some.contains("R5, II") && !some.contains("Can\"on"));
    let (json, _) = show_json(&files, None);
    assert!(json.starts_with("[\n") && json.ends_with("\n]\n"));
    assert!(json.contains("Can\\\"on"));
    let (csv, _) = show_csv(&files, None);
    assert!(csv.contains("\"R5, II\"") && csv.contains("\"Can\"\"on\""));
    assert_eq!(json_escape("a\"b\\c\n"), "a\\\"b\\\\c\\n");
    let props = vec![("dc:title".to_string(), "T".to_string()), ("xmp:Rating".to_string(), "5".to_string())];
    assert_eq!(filter_props(&props, Some("TITLE")).len(), 1);
}
