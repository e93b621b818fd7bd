use pic_killer::namedate::extract;
use pic_killer::stamp::{date_exists, leap_year, Stamp};
use pic_killer::timeop::{format_exif, parse_datetime, parse_delta, Delta, DeltaError};

fn dt(s: &str) -> Stamp {
    parse_datetime(s).unwrap()
}

#[test]
fn delta_basic() {
    assert_eq!(
        parse_delta("+2h").unwrap(),
        Delta {
            months: 0,
            days: 0,
            seconds: 7200
        }
    );
    assert_eq!(
        parse_delta("-3d").unwrap(),
        Delta {
            months: 0,
            days: -3,
            seconds: 0
        }
    );
    assert_eq!(
        parse_delta("30m").unwrap(),
        Delta {
            months: 0,
            days: 0,
            seconds: 1800
        }
    );
}

#[test]
fn delta_compound_and_month_vs_minute() {
    let d = parse_delta("+1y2mo3d4h5m6s").unwrap();
    assert_eq!(d.months, 14);
    assert_eq!(d.days, 3);
    assert_eq!(d.seconds, 4 * 3600 + 5 * 60 + 6);
    assert_eq!(parse_delta("5m").unwrap().seconds, 300);
    assert_eq!(parse_delta("5mo").unwrap().months, 5);
}

#[test]
fn delta_negative_sign_applies_to_all() {
    let d = parse_delta("-1d12h").unwrap();
    assert_eq!(d.days, -1);
    assert_eq!(d.seconds, -12 * 3600);
}

#[test]
fn delta_apply_month_end() {
    let r = parse_delta("+1mo")
        .unwrap()
        .apply(dt("2023-01-31 10:00:00"))
        .unwrap();
    assert_eq!(format_exif(&r), "2023:02:28 10:00:00");
}

#[test]
fn delta_apply_seconds_cross_day() {
    let r = parse_delta("+2h")
        .unwrap()
        .apply(dt("2024-01-01 23:00:00"))
        .unwrap();
    assert_eq!(format_exif(&r), "2024:01:02 01:00:00");
}

#[test]
fn delta_scaled_for_sequence() {
    let d = parse_delta("+10s").unwrap();
    assert_eq!(d.scaled(3).seconds, 30);
}

#[test]
fn parse_various_datetime_formats() {
    assert_eq!(
        format_exif(&dt("2024-01-02 03:04:05")),
        "2024:01:02 03:04:05"
    );
    assert_eq!(
        format_exif(&dt("2024:01:02 03:04:05")),
        "2024:01:02 03:04:05"
    );
    assert_eq!(format_exif(&dt("2024-01-02")), "2024:01:02 00:00:00");
    assert_eq!(format_exif(&dt("2024/01/02 03:04")), "2024:01:02 03:04:00");
}

#[test]
fn bad_delta_rejected() {
    assert!(parse_delta("").is_err());
    assert!(parse_delta("+").is_err());
    assert!(parse_delta("5x").is_err());
    assert!(parse_delta("abc").is_err());
}

#[test]
fn delta_errors_are_told_apart() {
    assert!(matches!(parse_delta(" "), Err(DeltaError::Empty)));
    assert!(matches!(parse_delta("d5"), Err(DeltaError::MissingNumber('d'))));
    assert!(matches!(
        parse_delta("99999999999999999999d"),
        Err(DeltaError::NumberTooLarge(_))
    ));
    assert!(matches!(parse_delta("5"), Err(DeltaError::MissingUnit(5))));
    assert!(matches!(parse_delta("5x"), Err(DeltaError::UnknownUnit(_))));
    assert!(matches!(parse_delta("+"), Err(DeltaError::Empty) | Err(DeltaError::Nothing)));
    assert!(matches!(
        parse_delta("9223372036854775807y"),
        Err(DeltaError::Overflow)
    ));
    assert!(!parse_delta("5x").unwrap_err().message("5x").is_empty());
}

#[test]
fn weeks_and_case() {
    assert_eq!(parse_delta("2W").unwrap().days, 14);
    assert_eq!(parse_delta("1MO1M").unwrap().months, 1);
    assert_eq!(parse_delta("1MO1M").unwrap().seconds, 60);
}

#[test]
fn moves_back_undo_moves() {
    let t = dt("2024-02-28 23:59:59");
    let there = parse_delta("+1d2h3m4s").unwrap().apply(t).unwrap();
    assert_eq!(format_exif(&there), "2024:03:01 02:03:03");
    let back = parse_delta("-1d2h3m4s").unwrap().apply(there).unwrap();
    assert_eq!(back, t);
}

#[test]
fn moves_off_the_calendar_fail() {
    let t = dt("2024-02-28 23:59:59");
    let far = Delta { months: 12 * 300_000, days: 0, seconds: 0 };
    assert_eq!(far.apply(t), None);
    let back = Delta { months: -12 * 300_000, days: 0, seconds: 0 };
    assert_eq!(back.apply(t), None);
    let days = Delta { months: 0, days: 200_000_000, seconds: 0 };
    assert_eq!(days.apply(t), None);
}

#[test]
fn zero_delta_changes_nothing() {
    let d = Delta { months: 0, days: 0, seconds: 0 };
    assert!(d.is_zero());
    assert!(d.fits_duration());
    assert_eq!(d.checked_scaled(7), Some(d));
    let t = dt("2024-02-29");
    assert_eq!(d.apply(t), Some(t));
}

#[test]
fn overflowing_scale_is_refused() {
    let d = Delta { months: 0, days: i64::MAX, seconds: 0 };
    assert_eq!(d.checked_scaled(2), None);
    assert!(!d.fits_duration());
}

#[test]
fn bad_datetime_is_refused() {
    assert!(parse_datetime("yesterday").is_err());
    assert!(parse_datetime("2023-02-30 00:00:00").is_err());
}

#[test]
fn written_times_read_back() {
    let t = Stamp { year: 2023, month: 1, day: 5, hour: 6, minute: 7, second: 8, nanos: 0 };
    assert_eq!(format_exif(&t), "2023:01:05 06:07:08");
    assert_eq!(parse_datetime(&format_exif(&t)), Ok(t));
}

#[test]
fn calendar_knows_leap_years() {
    assert!(leap_year(2000) && leap_year(2024) && leap_year(-4));
    assert!(!leap_year(1900) && !leap_year(2023));
    assert!(date_exists(2024, 2, 29));
    assert!(!date_exists(2023, 2, 29));
    assert!(!date_exists(2023, 13, 1));
    assert!(!date_exists(2023, 4, 31));
    assert!(!date_exists(2023, 4, 0));
}

fn fmt(s: &str) -> Option<String> {
    extract(s).map(|t| {
        format!(
            "{:04}-{:02}-{:02} {:02}:{:02}:{:02}",
            t.year, t.month, t.day, t.hour, t.minute, t.second
        )
    })
}

#[test]
fn common_camera_names() {
    assert_eq!(fmt("IMG_20230115_143022").as_deref(), Some("2023-01-15 14:30:22"));
    assert_eq!(fmt("20230115_143022").as_deref(), Some("2023-01-15 14:30:22"));
    assert_eq!(fmt("20230115143022").as_deref(), Some("2023-01-15 14:30:22"));
    assert_eq!(fmt("PXL_20230115_143022123").as_deref(), Some("2023-01-15 14:30:22"));
    assert_eq!(fmt("2023-01-15 14.30.22").as_deref(), Some("2023-01-15 14:30:22"));
    assert_eq!(fmt("Screenshot_2023-01-15-14-30-22").as_deref(), Some("2023-01-15 14:30:22"));
}

#[test]
fn date_only() {
    assert_eq!(fmt("2023-01-15").as_deref(), Some("2023-01-15 00:00:00"));
    assert_eq!(fmt("photo_20230115").as_deref(), Some("2023-01-15 00:00:00"));
}

#[test]
fn leading_number_before_date() {
    assert_eq!(fmt("1_20230115_143022").as_deref(), Some("2023-01-15 14:30:22"));
}

#[test]
fn invalid_time_falls_back_to_midnight() {
    assert_eq!(fmt("20230115_999999").as_deref(), Some("2023-01-15 00:00:00"));
}

#[test]
fn no_date_returns_none() {
    assert_eq!(fmt("IMG_WA0001"), None);
    assert_eq!(fmt("vacation"), None);
    assert_eq!(fmt("12345"), None);
}

#[test]
fn every_layout_is_read() {
    let t = dt("2024-02-29 08:09:00");
    for s in [
        "2024:02:29 08:09:00",
        "2024/02/29 08:09:00",
        "2024-02-29T08:09:00",
        "2024-02-29 08:09",
        "2024:02:29 08:09",
        "2024/02/29 08:09",
        "2024-02-29T08:09",
        " 2024:02:29 08:09:00\0",
    ] {
        assert_eq!(parse_datetime(s).unwrap(), t, "{s}");
    }
    let day = dt("2024-02-29 00:00:00");
    for s in ["2024-02-29", "2024:02:29", "2024/02/29"] {
        assert_eq!(parse_datetime(s).unwrap(), day, "{s}");
    }
    assert!(parse_datetime("2024/02/29T08:09:00").is_err());
}

#[test]
fn months_beyond_the_calendar_fail() {
    let t = dt("2024-01-31 12:00:00");
    let far = Delta { months: 0x1_0000_0001, days: 0, seconds: 0 };
    assert_eq!(far.apply(t), None);
    let back = Delta { months: -0x1_0000_0001, days: 0, seconds: 0 };
    assert_eq!(back.apply(t), None);
    let mixed = Delta { months: 1, days: 1, seconds: 60 };
    assert_eq!(mixed.apply(t), Some(dt("2024-03-01 12:01:00")));
}

#[test]
fn offsets_can_be_joined_and_signed() {
    let (a, b) = (parse_delta("1mo 2h").unwrap(), parse_delta("30m").unwrap());
    let sum = Delta { months: a.months + b.months, days: 0, seconds: a.seconds + b.seconds };
    assert_eq!(parse_delta("1mo 2h30m").unwrap(), sum);
    assert_eq!(parse_delta("30m1mo 2h").unwrap(), sum);
    assert_eq!(parse_delta("+ 1mo 2h").unwrap(), a);
    let negated = Delta { months: -1, days: 0, seconds: -7200 };
    assert_eq!(parse_delta("-1mo 2h").unwrap(), negated);
    assert_eq!(parse_delta("1MO 2H").unwrap(), a);
}
