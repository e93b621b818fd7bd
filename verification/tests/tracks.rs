use pic_killer::geotag::{
    correct_time, format_tz, geotag_header, is_moment, parse_tz, photo_to_utc, place_on_track,
};
use pic_killer::gpx::{is_numeral, locate, parse_str, Fix, Moment, TrackPoint};
use pic_killer::outcome::Outcome;
use pic_killer::stamp::Stamp;
use pic_killer::timeop::{parse_datetime, Delta};

const SAMPLE: &str = r#"<?xml version="1.0"?>
<gpx version="1.1" xmlns="http://www.topografix.com/GPX/1/1">
  <trk><trkseg>
    <trkpt lat="30.0" lon="120.0"><ele>10</ele><time>2023-01-01T10:00:00Z</time></trkpt>
    <trkpt lat="30.2" lon="120.2"><ele>20</ele><time>2023-01-01T10:10:00Z</time></trkpt>
    <trkpt lat="31.0" lon="121.0"><time>2023-01-01T12:00:00Z</time></trkpt>
  </trkseg></trk>
</gpx>"#;

fn t(s: &str) -> Moment {
    let u = chrono::DateTime::parse_from_rfc3339(s).unwrap();
    Moment { secs: u.timestamp(), nanos: u.timestamp_subsec_nanos() }
}

fn number(s: &str) -> f64 {
    s.parse().unwrap()
}

fn place(points: &[TrackPoint], fix: Fix) -> (f64, f64, Option<f64>) {
    match fix {
        Fix::At(i) => (
            number(&points[i].lat),
            number(&points[i].lon),
            points[i].ele.as_deref().map(number),
        ),
        Fix::Between { prev, next, part, whole } => {
            let (a, b) = (&points[prev], &points[next]);
            let f = part as f64 / whole as f64;
            let mix = |x: f64, y: f64| x + (y - x) * f;
            let ele = match (&a.ele, &b.ele) {
                (Some(x), Some(y)) => Some(mix(number(x), number(y))),
                _ => None,
            };
            (mix(number(&a.lat), number(&b.lat)), mix(number(&a.lon), number(&b.lon)), ele)
        }
    }
}

#[test]
fn parses_points_sorted() {
    let pts = parse_str(SAMPLE).unwrap();
    assert_eq!(pts.len(), 3);
    assert_eq!(number(&pts[0].lat), 30.0);
    assert_eq!(pts[0].ele.as_deref().map(number), Some(10.0));
    assert_eq!(pts[2].ele, None);
    assert!(pts[0].time.secs < pts[1].time.secs);
}

#[test]
fn exact_point() {
    let pts = parse_str(SAMPLE).unwrap();
    let r = place(&pts, locate(&pts, t("2023-01-01T10:00:00Z"), 600).unwrap());
    assert_eq!(r.0, 30.0);
    assert_eq!(r.1, 120.0);
}

#[test]
fn interpolates_midway() {
    let pts = parse_str(SAMPLE).unwrap();
    let (lat, lon, ele) = place(&pts, locate(&pts, t("2023-01-01T10:05:00Z"), 600).unwrap());
    assert!((lat - 30.1).abs() < 1e-9);
    assert!((lon - 120.1).abs() < 1e-9);
    assert!((ele.unwrap() - 15.0).abs() < 1e-9);
}

#[test]
fn large_gap_snaps_or_skips() {
    let pts = parse_str(SAMPLE).unwrap();
    let near = place(&pts, locate(&pts, t("2023-01-01T10:12:00Z"), 600).unwrap());
    assert_eq!(near.0, 30.2);
    assert!(locate(&pts, t("2023-01-01T11:00:00Z"), 600).is_none());
}

#[test]
fn outside_track_within_gap() {
    let pts = parse_str(SAMPLE).unwrap();
    assert!(locate(&pts, t("2023-01-01T09:59:30Z"), 600).is_some());
    assert!(locate(&pts, t("2023-01-01T09:00:00Z"), 600).is_none());
}

#[test]
fn points_are_sorted_by_time() {
    let pts = parse_str(
        "<gpx><trkpt lat=\"1\" lon=\"2\"><time>2023-01-01T12:00:00+02:00</time></trkpt>\
         <trkpt lat=\"3\" lon=\"4\"><time>2023-01-01T09:00:00Z</time></trkpt></gpx>",
    )
    .unwrap();
    assert_eq!(pts[0].lat, "3");
    assert_eq!(pts[1].time, t("2023-01-01T10:00:00Z"));
}

#[test]
fn empty_tracks_have_no_points() {
    assert!(parse_str("<gpx></gpx>").unwrap().is_empty());
    assert!(parse_str("<gpx><trkpt lat=\"1\" lon=\"2\"></trkpt></gpx>").unwrap().is_empty());
}

#[test]
fn broken_tracks_are_refused() {
    assert!(parse_str("<gpx><a").is_err());
}

#[test]
fn numerals_are_told_from_words() {
    assert!(is_numeral("30.5") && is_numeral("-1e3") && is_numeral("7"));
    assert!(!is_numeral("north") && !is_numeral("") && !is_numeral("1.2.3"));
}

#[test]
fn zones_are_read_and_written() {
    assert_eq!(parse_tz("+08:00"), Ok(8 * 3600));
    assert_eq!(parse_tz("-0530"), Ok(-(5 * 3600 + 30 * 60)));
    assert_eq!(parse_tz("Z"), Ok(0));
    assert!(parse_tz("east").is_err());
    assert_eq!(format_tz(8 * 3600), "+08:00");
    assert_eq!(format_tz(-(5 * 3600 + 30 * 60)), "-05:30");
}

#[test]
fn pictures_are_put_into_utc() {
    let noon = parse_datetime("2023-01-01 12:00:00").unwrap();
    assert_eq!(photo_to_utc(noon, 8 * 3600), Some(t("2023-01-01T04:00:00Z")));
    assert_eq!(photo_to_utc(noon, 0), Some(t("2023-01-01T12:00:00Z")));
    assert!(is_moment(&t("2023-01-01T12:00:00Z")));
}

#[test]
fn camera_clocks_are_corrected() {
    let noon = parse_datetime("2023-01-01 12:00:00").unwrap();
    let r = correct_time(Some(noon), Some(Delta { months: 0, days: 0, seconds: -60 }));
    let expected = Stamp { hour: 11, minute: 59, ..noon };
    assert_eq!(r.unwrap(), expected);
    assert!(matches!(correct_time(None, None), Err(Outcome::Skipped(_))));
}

#[test]
fn pictures_off_the_track_are_skipped() {
    let pts = parse_str(SAMPLE).unwrap();
    let far = place_on_track(&pts, Some(t("2023-01-01T11:00:00Z")), 600);
    assert!(matches!(far, Err(Outcome::Skipped(_))));
    let near = place_on_track(&pts, Some(t("2023-01-01T10:10:00Z")), 600);
    assert!(matches!(near, Ok(_)));
}

#[test]
fn geotag_tells_what_it_will_do() {
    let s = geotag_header(3, "track.gpx", Some("+08:00"), None, 600, 2, true);
    assert!(s.contains("track.gpx") && s.contains("+08:00") && s.contains("600"));
}
