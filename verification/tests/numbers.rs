use chrono::{DateTime, Datelike, TimeZone, Timelike, Utc};
use ravito_gpx::binary64::{extreme, Binary64};
use ravito_gpx::clock::{eta_unix, has_eta, LocalTime, Weekday, MAX_UNIX, MIN_UNIX};
use ravito_gpx::gpx_parse::{nearest_segment, next_segment, place_sample, SamplePlace};

fn b(x: f64) -> Binary64 {
    Binary64 { bits: x.to_bits() }
}

const VALUES: [f64; 18] = [
    0.0,
    -0.0,
    1.0,
    -1.0,
    1.5,
    22.0,
    5.0,
    120.0,
    2000.0,
    f64::MIN_POSITIVE,
    5e-324,
    -5e-324,
    f64::MAX,
    f64::MIN,
    f64::INFINITY,
    f64::NEG_INFINITY,
    f64::NAN,
    -f64::NAN,
];

#[test]
fn order_is_that_of_doubles() {
    for x in VALUES {
        assert_eq!(b(x).is_nan(), x.is_nan());
        for y in VALUES {
            assert_eq!(b(x).lt(b(y)), x < y, "{x} {y}");
        }
    }
}

#[test]
fn larger_and_clamped_are_those_of_doubles() {
    for x in VALUES {
        let m = f64::from_bits(b(x).max(b(5.0)).bits);
        assert_eq!(m.to_bits(), x.max(5.0).to_bits(), "{x}");
        let c = f64::from_bits(b(x).clamp(b(20.0), b(2000.0)).bits);
        assert!(c == x.clamp(20.0, 2000.0) || (c.is_nan() && x.is_nan()), "{x}");
    }
}

#[test]
fn extremes() {
    let values: Vec<Binary64> = [3.0, f64::NAN, 1.0, 2.0, 1.0, 3.0].iter().map(|x| b(*x)).collect();
    assert_eq!(extreme(&values, b(f64::INFINITY), true), Some(2));
    assert_eq!(extreme(&values, b(f64::NEG_INFINITY), false), Some(0));
    assert_eq!(extreme(&values, b(1.0), true), None);
    assert_eq!(extreme(&[], b(1.0), true), None);
}

#[test]
fn nearest_segments() {
    let d: Vec<Binary64> = [0.5, 0.25, 0.25, 1.0].iter().map(|x| b(*x)).collect();
    assert_eq!(nearest_segment(&d), Some(1));
    assert_eq!(nearest_segment(&[b(f64::NAN), b(f64::INFINITY)]), None);
    assert_eq!(nearest_segment(&[]), None);
}

#[test]
fn segments_along_the_route() {
    let cum: Vec<Binary64> = [0.0, 1.0, 2.5, 2.5, 4.0].iter().map(|x| b(*x)).collect();
    assert_eq!(next_segment(&cum, 1, b(0.0)), 1);
    assert_eq!(next_segment(&cum, 1, b(1.0)), 1);
    assert_eq!(next_segment(&cum, 1, b(2.0)), 2);
    assert_eq!(next_segment(&cum, 2, b(3.0)), 4);
    assert_eq!(next_segment(&cum, 4, b(5.0)), 5);
    assert_eq!(next_segment(&cum, 5, b(5.0)), 5);
}

#[test]
fn samples_are_placed() {
    let cum: Vec<Binary64> = [0.0, 1.0, 2.5].iter().map(|x| b(*x)).collect();
    let limit = b(2.5 + 1e-9);
    assert_eq!(place_sample(&cum, 1, b(0.0), limit), SamplePlace::OnSegment(1));
    assert_eq!(place_sample(&cum, 1, b(2.0), limit), SamplePlace::OnSegment(2));
    assert_eq!(place_sample(&cum, 2, b(2.5), limit), SamplePlace::OnSegment(2));
    assert_eq!(place_sample(&cum, 2, b(2.5 + 5e-10), limit), SamplePlace::AtEnd);
    assert_eq!(place_sample(&cum, 2, limit, limit), SamplePlace::AtEnd);
    assert_eq!(place_sample(&cum, 2, b(3.0), limit), SamplePlace::Beyond);
    assert_eq!(place_sample(&cum, 1, b(f64::NAN), limit), SamplePlace::Beyond);
    assert_eq!(place_sample(&cum, 1, b(0.0), b(f64::NAN)), SamplePlace::Beyond);
}

#[test]
fn limits_are_those_of_chrono() {
    assert_eq!(DateTime::<Utc>::MIN_UTC.timestamp(), MIN_UNIX);
    assert_eq!(DateTime::<Utc>::MAX_UTC.timestamp(), MAX_UNIX);
    assert!(DateTime::from_timestamp(MAX_UNIX + 1, 0).is_none());
    assert!(DateTime::from_timestamp(MIN_UNIX - 1, 0).is_none());
}

#[test]
fn utc_clock() {
    // 2026-04-24 14:37:59 was a Friday.
    let unix = Utc.with_ymd_and_hms(2026, 4, 24, 14, 37, 59).unwrap().timestamp();
    assert_eq!(
        LocalTime::utc(unix),
        LocalTime { weekday: Weekday::Fri, hour: 14, minute: 37 }
    );
    assert_eq!(LocalTime::utc(0), LocalTime { weekday: Weekday::Thu, hour: 0, minute: 0 });
    assert_eq!(LocalTime::utc(-1), LocalTime { weekday: Weekday::Wed, hour: 23, minute: 59 });
    for unix in [MIN_UNIX, MIN_UNIX + 86399, -62167219200, -1, 0, 951782400, 4102444800, MAX_UNIX] {
        let at = DateTime::from_timestamp(unix, 0).unwrap();
        let read = LocalTime::utc(unix);
        assert_eq!(read.weekday, Weekday::from_monday(at.weekday().num_days_from_monday()));
        assert_eq!((read.hour, read.minute), (at.hour(), at.minute()));
    }
}

#[test]
fn days_follow_one_another() {
    let mut day = Weekday::Mon;
    for n in 1..=14 {
        day = day.succ();
        assert_eq!(day, Weekday::from_monday(n));
    }
    assert_eq!(day, Weekday::Mon);
}

#[test]
fn arrival_times() {
    assert!(has_eta(1_777_000_000, 3600));
    assert_eq!(eta_unix(1_777_000_000, 3600), 1_777_003_600);
    assert!(has_eta(MIN_UNIX, 0));
    assert!(has_eta(MAX_UNIX, 0));
    assert!(!has_eta(MAX_UNIX, 1));
    assert!(!has_eta(0, -1));
    assert!(!has_eta(0, i64::MAX));
    assert!(!has_eta(i64::MIN, 0));
}
