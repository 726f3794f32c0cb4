use chrono::{TimeZone, Utc};
use ravito_gpx::binary64::Binary64;
use ravito_gpx::gpx_parse::{KmSample, RawPoint, TrackError};
use ravito_gpx::gpx_times::has_plain_times;
use ravito_gpx::handlers::{
    finish_analysis, gateway_error, has_etas, is_on_the_way, list_stops, make_stop, plan_ride,
    read_start, settle_ride, status_at_eta, AnalyzeReq, Placement, Rejection, Ride,
};
use ravito_gpx::overpass::{Poi, PoiKind};

const GPX: &str = "<gpx version=\"1.1\" creator=\"t\"><trk><trkseg>\
    <trkpt lat=\"48\" lon=\"2\"/><trkpt lat=\"48\" lon=\"2.1\"/></trkseg></trk></gpx>";

fn b(x: f64) -> Binary64 {
    Binary64 { bits: x.to_bits() }
}

fn req(gpx: &str, start: Option<&str>) -> AnalyzeReq {
    AnalyzeReq {
        gpx: gpx.to_string(),
        start: start.map(String::from),
        speed_kmh: None,
        corridor_m: None,
        kinds: None,
    }
}

fn plan(req: AnalyzeReq, now: i64) -> Result<Ride, Rejection> {
    assert!(has_plain_times(req.gpx.as_bytes()));
    plan_ride(req, now)
}

fn refused(outcome: Result<Ride, Rejection>) -> String {
    match outcome {
        Err(Rejection::BadRequest(message)) => message,
        other => panic!("{other:?}"),
    }
}

fn ride(start_unix: i64, corridor: f64, kinds: Option<&[&str]>) -> Ride {
    Ride {
        raw: vec![],
        start_unix,
        speed_kmh: b(22.0),
        corridor_m: b(corridor),
        kinds: kinds.map(|k| k.iter().map(|s| s.to_string()).collect()),
    }
}

fn poi(osm_id: i64, kind: PoiKind, opening_hours: Option<&str>) -> Poi {
    Poi {
        osm_id,
        kind,
        lat: b(1.0),
        lon: b(2.0),
        name: Some(osm_id.to_string()),
        opening_hours: opening_hours.map(String::from),
    }
}

fn place(km: f64, detour_m: f64, travel_seconds: i64) -> Placement {
    Placement { km: b(km), detour_m: b(detour_m), travel_seconds }
}

// 2026-04-24 was a Friday.
fn friday(h: u32, m: u32) -> i64 {
    Utc.with_ymd_and_hms(2026, 4, 24, h, m, 0).unwrap().timestamp()
}

#[test]
fn a_request_with_defaults() {
    let ride = plan(req(GPX, None), 1234).unwrap();
    assert_eq!(
        ride.raw,
        [RawPoint { lat: b(48.0), lon: b(2.0) }, RawPoint { lat: b(48.0), lon: b(2.1) }]
    );
    assert_eq!(ride.start_unix, 1234);
    assert_eq!((ride.speed_kmh, ride.corridor_m), (b(22.0), b(120.0)));
    assert_eq!(ride.kinds, None);
}

#[test]
fn starts_are_read() {
    for (text, unix) in [
        ("2026-04-24T10:00:00Z", friday(10, 0)),
        ("2026-04-24T10:00:00+02:00", friday(8, 0)),
        ("2026-04-24 10:00:00.75-00:30", friday(10, 30)),
        ("1969-12-31T23:59:59.5Z", -1),
    ] {
        assert_eq!(read_start(&Some(text.to_string()), 0), Ok(unix), "{text}");
        assert_eq!(plan(req(GPX, Some(text)), 0).unwrap().start_unix, unix, "{text}");
    }
    assert_eq!(read_start(&None, 77), Ok(77));
}

#[test]
fn a_start_that_is_wrong() {
    for text in ["", "now", "2026-04-24", "2026-04-24T10:00:00", "2026-02-30T10:00:00Z"] {
        let error = chrono::DateTime::parse_from_rfc3339(text).unwrap_err().to_string();
        assert_eq!(refused(plan(req(GPX, Some(text)), 0)), format!("start: {error}"));
    }
}

#[test]
fn a_document_that_is_wrong_is_reported_first() {
    assert_eq!(refused(plan(req("<gpx>", Some("now")), 0)), "gpx: failed to parse GPX");
    assert_eq!(
        refused(plan(req("<gpx version=\"1.1\" creator=\"t\"></gpx>", None), 0)),
        "gpx: GPX has no usable track points"
    );
    assert_eq!(
        refused(settle_ride(
            Err(TrackError::NoUsablePoints),
            Err("x".to_string()),
            req("", None)
        )),
        "gpx: GPX has no usable track points"
    );
    assert_eq!(
        refused(settle_ride(Ok(vec![]), Err("x".to_string()), req("", None))),
        "start: x"
    );
}

#[test]
fn speeds_have_a_floor_and_corridors_are_bounded() {
    for (asked, used) in [
        (30.0, 30.0),
        (5.0, 5.0),
        (4.9, 5.0),
        (-10.0, 5.0),
        (f64::NAN, 5.0),
        (f64::INFINITY, f64::INFINITY),
    ] {
        let mut r = req(GPX, None);
        r.speed_kmh = Some(b(asked));
        assert_eq!(plan(r, 0).unwrap().speed_kmh, b(used), "{asked}");
    }
    for (asked, used) in [
        (120.0, 120.0),
        (20.0, 20.0),
        (0.0, 20.0),
        (-0.0, 20.0),
        (1e9, 2000.0),
        (1999.5, 1999.5),
        (f64::NEG_INFINITY, 20.0),
    ] {
        let mut r = req(GPX, None);
        r.corridor_m = Some(b(asked));
        assert_eq!(plan(r, 0).unwrap().corridor_m, b(used), "{asked}");
    }
}

#[test]
fn gateway_errors() {
    assert!(matches!(gateway_error("no net"), Rejection::BadGateway(m) if m == "overpass: no net"));
}

#[test]
fn stops_are_within_the_corridor() {
    let r = ride(0, 120.0, None);
    let p = poi(1, PoiKind::Other, None);
    assert!(is_on_the_way(&r, &p, place(1.0, 119.9, 0)));
    assert!(is_on_the_way(&r, &p, place(1.0, 120.0, 0)));
    assert!(!is_on_the_way(&r, &p, place(1.0, 120.1, 0)));
    assert!(!is_on_the_way(&r, &p, place(1.0, f64::INFINITY, 0)));
    assert!(is_on_the_way(&r, &p, place(1.0, f64::NAN, 0)));
}

#[test]
fn stops_are_of_the_kinds_asked_for() {
    let at = place(1.0, 0.0, 0);
    let bakery = poi(1, PoiKind::Bakery, None);
    let bar = poi(2, PoiKind::Tobacco, None);
    for words in [&["bakery"][..], &["BAKERY"], &["other", "Ba\u{212a}ery"]] {
        let r = ride(0, 120.0, Some(words));
        assert!(is_on_the_way(&r, &bakery, at));
        assert!(!is_on_the_way(&r, &bar, at));
    }
    for words in [&[][..], &["tobacco"], &["bakery "], &["bakeries"]] {
        let r = ride(0, 120.0, Some(words));
        assert!(!is_on_the_way(&r, &bakery, at));
        assert!(!is_on_the_way(&r, &bar, at));
    }
    assert!(is_on_the_way(&ride(0, 120.0, Some(&["Bar_Tabac"])), &bar, at));
}

#[test]
fn words_for_what_is_known() {
    let h = Some("Mo-Fr 07:00-19:00".to_string());
    assert_eq!(status_at_eta(&h, friday(10, 0)), "open");
    assert_eq!(status_at_eta(&h, friday(19, 0)), "closed");
    assert_eq!(status_at_eta(&Some("PH off".to_string()), friday(10, 0)), "unknown");
    assert_eq!(status_at_eta(&None, friday(10, 0)), "unknown");
}

#[test]
fn a_stop_carries_its_eta() {
    let r = ride(friday(18, 30), 120.0, None);
    let p = poi(9, PoiKind::Bakery, Some("Fr 07:00-19:00"));
    let stop = make_stop(&r, &p, place(10.0, 50.0, 1799));
    assert_eq!((stop.eta_unix, stop.status_at_eta.as_str()), (friday(18, 30) + 1799, "open"));
    assert_eq!((stop.km, stop.detour_m, stop.lat, stop.lon), (b(10.0), b(50.0), b(1.0), b(2.0)));
    assert_eq!((stop.kind.as_str(), stop.name.as_deref()), ("bakery", Some("9")));
    assert_eq!(stop.opening_hours.as_deref(), Some("Fr 07:00-19:00"));
    let stop = make_stop(&r, &p, place(11.0, 50.0, 1800));
    assert_eq!(stop.status_at_eta, "closed");
}

#[test]
fn stops_come_in_the_order_of_the_ride() {
    let r = ride(0, 100.0, Some(&["bakery", "fountain"]));
    let pois = vec![
        poi(1, PoiKind::Bakery, None),
        poi(2, PoiKind::Bakery, None),
        poi(3, PoiKind::Supermarket, None),
        poi(4, PoiKind::Fountain, None),
        poi(5, PoiKind::Bakery, None),
        poi(6, PoiKind::Bakery, None),
    ];
    let places = vec![
        place(7.0, 1.0, 70),
        place(3.0, 2.0, 30),
        place(1.0, 3.0, 10),
        place(7.0, 4.0, 70),
        place(0.5, 100.5, 5),
        place(0.0, 6.0, 0),
    ];
    assert!(has_etas(&r, &pois, &places));
    let stops = list_stops(&r, &pois, &places);
    let names: Vec<_> = stops.iter().map(|s| s.name.clone().unwrap()).collect();
    assert_eq!(names, ["6", "2", "1", "4"]);
    assert_eq!(stops.iter().map(|s| s.eta_unix).collect::<Vec<_>>(), [0, 30, 70, 70]);
}

#[test]
fn only_stops_on_the_way_need_an_eta() {
    let pois = vec![poi(1, PoiKind::Bakery, None)];
    let far = vec![place(7.0, 500.0, i64::MAX)];
    let near = vec![place(7.0, 5.0, i64::MAX)];
    assert!(has_etas(&ride(0, 100.0, None), &pois, &far));
    assert!(!has_etas(&ride(0, 100.0, None), &pois, &near));
}

#[test]
fn a_whole_analysis() {
    let ride = plan(req(GPX, Some("2026-04-24T10:00:00Z")), 0).unwrap();
    let route = vec![KmSample { km: b(0.0), lat: b(48.0), lon: b(2.0) }];
    let pois = vec![poi(1, PoiKind::Bakery, Some("24/7"))];
    let places = vec![place(3.0, 20.0, 490)];
    assert!(has_etas(&ride, &pois, &places));
    let resp = finish_analysis(&ride, &pois, &places, &[b(0.0), b(7.5)], route.clone());
    assert_eq!((resp.total_km, resp.start_unix), (b(7.5), friday(10, 0)));
    assert_eq!((resp.speed_kmh, resp.corridor_m), (b(22.0), b(120.0)));
    assert_eq!(resp.route, route);
    assert_eq!(resp.pois.len(), 1);
    assert_eq!(resp.pois[0].status_at_eta, "open");
    assert_eq!(resp.pois[0].eta_unix, friday(10, 0) + 490);
    let resp = finish_analysis(&ride, &vec![], &vec![], &[], vec![]);
    assert_eq!(resp.total_km, b(0.0));
}
