use pic_killer::scan::{ext_matches, glob_match, has_wildcard, keep_first, parse_ext_set};
use pic_killer::whereexpr::{parse, parse_expr, Condition, FileFacts, Op, WhereError};

#[test]
fn glob_star() {
    assert!(glob_match("*.jpg", "photo.jpg"));
    assert!(glob_match("*.jpg", "a.JPG"));
    assert!(!glob_match("*.jpg", "photo.png"));
    assert!(glob_match("IMG_*.jpg", "IMG_1234.jpg"));
    assert!(!glob_match("IMG_*.jpg", "DSC_1234.jpg"));
}

#[test]
fn glob_question() {
    assert!(glob_match("p?.png", "p1.png"));
    assert!(!glob_match("p?.png", "p12.png"));
}

#[test]
fn glob_edge() {
    assert!(glob_match("*", "anything"));
    assert!(glob_match("**", "anything"));
    assert!(glob_match("a*b*c", "axxbyyc"));
    assert!(!glob_match("a*b*c", "axxbyy"));
    assert!(glob_match("abc", "abc"));
    assert!(!glob_match("abc", "abcd"));
}

#[test]
fn star_matches_the_empty_name() {
    assert!(glob_match("*", ""));
    assert!(glob_match("", ""));
    assert!(!glob_match("?", ""));
    assert!(glob_match("图*.jpg", "图片.jpg"));
}

#[test]
fn wildcards_are_seen() {
    assert!(has_wildcard("a/*.jpg"));
    assert!(has_wildcard("p?.png"));
    assert!(!has_wildcard("plain.jpg"));
}

#[test]
fn extensions_are_listed_and_matched() {
    let exts = parse_ext_set(" JPG, .png ,,tif");
    assert_eq!(exts, ["jpg", "png", "tif"]);
    assert!(ext_matches(Some("Jpg"), &exts));
    assert!(!ext_matches(Some("gif"), &exts));
    assert!(!ext_matches(None, &exts));
}

#[test]
fn files_are_taken_once() {
    let keys: Vec<String> = ["a", "b", "a", "c", "b"].iter().map(|s| s.to_string()).collect();
    assert_eq!(keep_first(&keys), [0, 1, 3]);
}

#[test]
fn parse_presence() {
    assert_eq!(parse("no-gps").unwrap(), Condition::NoGps);
    assert_eq!(parse("HAS-GPS").unwrap(), Condition::HasGps);
    assert_eq!(parse(" no-date ").unwrap(), Condition::NoDate);
}

#[test]
fn parse_tag_presence() {
    assert_eq!(
        parse("has:rating").unwrap(),
        Condition::TagPresence {
            name: "rating".into(),
            present: true
        }
    );
    assert_eq!(
        parse("no:GPS").unwrap(),
        Condition::TagPresence {
            name: "GPS".into(),
            present: false
        }
    );
}

#[test]
fn parse_comparisons() {
    assert_eq!(
        parse("make=Canon").unwrap(),
        Condition::Tag {
            name: "make".into(),
            op: Op::Eq,
            value: "Canon".into()
        }
    );
    assert_eq!(
        parse("make!=Canon").unwrap(),
        Condition::Tag {
            name: "make".into(),
            op: Op::Ne,
            value: "Canon".into()
        }
    );
    assert_eq!(
        parse("artist~张").unwrap(),
        Condition::Tag {
            name: "artist".into(),
            op: Op::Contains,
            value: "张".into()
        }
    );
    assert_eq!(
        parse("model!~EOS").unwrap(),
        Condition::Tag {
            name: "model".into(),
            op: Op::NotContains,
            value: "EOS".into()
        }
    );
}

#[test]
fn ne_takes_precedence_over_eq() {
    match parse("a!=b").unwrap() {
        Condition::Tag { name, op, value } => {
            assert_eq!(name, "a");
            assert_eq!(op, Op::Ne);
            assert_eq!(value, "b");
        }
        _ => panic!("应解析为 Tag/Ne"),
    }
}

#[test]
fn bad_expr_rejected() {
    assert!(parse("").is_err());
    assert!(parse("=value").is_err());
    assert!(parse("garbage").is_err());
}

#[test]
fn condition_errors_are_told_apart() {
    assert_eq!(parse("  "), Err(WhereError::Empty));
    assert_eq!(parse("=value"), Err(WhereError::MissingName));
    assert_eq!(parse("garbage"), Err(WhereError::Unknown));
    assert_eq!(
        WhereError::MissingName.message("=value"),
        "--where 条件缺少字段名：`=value`"
    );
}

fn facts() -> FileFacts {
    FileFacts {
        gps: false,
        date: true,
        xmp: false,
        props: vec![
            ("Make".into(), "Canon".into()),
            ("dc:creator".into(), "张三; 李四".into()),
        ],
    }
}

#[test]
fn conditions_are_met_or_not() {
    let f = facts();
    assert!(parse("no-gps").unwrap().matches(&f));
    assert!(!parse("has-gps").unwrap().matches(&f));
    assert!(parse("date").unwrap().matches(&f));
    assert!(parse("no-xmp").unwrap().matches(&f));
    assert!(parse("make=canon").unwrap().matches(&f));
    assert!(!parse("make!=canon").unwrap().matches(&f));
    assert!(parse("creator~李四").unwrap().matches(&f));
    assert!(!parse("creator=李四").unwrap().matches(&f));
    assert!(parse("rating!~5").unwrap().matches(&f));
    assert!(parse("has:CREATOR").unwrap().matches(&f));
    assert!(parse("no:rating").unwrap().matches(&f));
}

#[test]
fn conditions_are_joined() {
    let f = facts();
    assert!(parse_expr("make=canon && no-gps").unwrap().matches(&f));
    assert!(!parse_expr("make=canon && has-gps").unwrap().matches(&f));
    assert!(parse_expr("has-gps || make=canon").unwrap().matches(&f));
    assert!(parse_expr("has-gps && make=nikon || has-date && no-xmp").unwrap().matches(&f));
    assert!(!parse_expr("has-gps || make=nikon").unwrap().matches(&f));
    assert_eq!(parse_expr("no-gps").unwrap().groups, vec![vec![Condition::NoGps]]);
}

#[test]
fn joined_conditions_are_refused_by_their_parts() {
    assert_eq!(parse_expr("no-gps && "), Err("--where 条件为空".to_string()));
    assert_eq!(parse_expr("no-gps||=x"), Err("--where 条件缺少字段名：`=x`".to_string()));
    assert!(parse_expr("").is_err());
}

#[test]
fn unread_files_meet_no_positive_condition() {
    let nothing = pic_killer::whereexpr::gather_facts(None, &vec![], None);
    for expr in ["has-gps", "has-date", "has-xmp", "has:make", "make=Canon", "make~a"] {
        assert!(!parse(expr).unwrap().matches(&nothing), "{expr}");
    }
    for expr in ["no-gps", "no-date", "no-xmp", "no:make", "make!=Canon", "make!~a"] {
        assert!(parse(expr).unwrap().matches(&nothing), "{expr}");
    }
}

#[test]
fn case_of_names_and_values_does_not_matter() {
    for (a, b) in [("make=canon", "MAKE=Canon"), ("Make~ANO", "make~ano"), ("HAS:Make", "has:mAKE")] {
        let f = facts();
        assert_eq!(parse(a).unwrap().matches(&f), parse(b).unwrap().matches(&f));
    }
    assert!(glob_match("IMG_*.Jpg", "img_1.JPG"));
}
