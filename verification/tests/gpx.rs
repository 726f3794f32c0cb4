use ravito_gpx::binary64::Binary64;
use ravito_gpx::gpx_parse::{
    collect_points, collect_route, parse_track, GpxDoc, RawPoint, TrackError,
};
use ravito_gpx::gpx_times::has_plain_times;

fn p(lat: f64, lon: f64) -> RawPoint {
    RawPoint {
        lat: Binary64 { bits: lat.to_bits() },
        lon: Binary64 { bits: lon.to_bits() },
    }
}

fn read(body: &str) -> Result<Vec<RawPoint>, TrackError> {
    let text = format!(
        "<?xml version=\"1.0\" encoding=\"UTF-8\"?>\n<gpx version=\"1.1\" creator=\"test\">{body}</gpx>"
    );
    assert!(has_plain_times(text.as_bytes()));
    parse_track(text.as_bytes())
}

#[test]
fn tracks_are_read_in_order() {
    let points = read(
        "<rte><rtept lat=\"9\" lon=\"9\"/></rte>\
         <trk><trkseg><trkpt lat=\"48.5\" lon=\"2.25\"><time>2024-05-01T08:00:00Z</time></trkpt>\
         <trkpt lat=\"48.99995\" lon=\"2.5\"/></trkseg><trkseg><trkpt lat=\"-1\" lon=\"-180\"/></trkseg></trk>\
         <trk><trkseg><trkpt lat=\"0\" lon=\"0.5\"/></trkseg></trk>",
    );
    assert_eq!(points, Ok(vec![p(48.5, 2.25), p(48.99995, 2.5), p(-1.0, -180.0), p(0.0, 0.5)]));
}

#[test]
fn routes_stand_in_for_tracks() {
    let points = read(
        "<trk><trkseg></trkseg></trk><rte><rtept lat=\"1\" lon=\"2\"/></rte>\
         <rte><rtept lat=\"3\" lon=\"4\"/></rte>",
    );
    assert_eq!(points, Ok(vec![p(1.0, 2.0), p(3.0, 4.0)]));
}

#[test]
fn routes_do_not_add_to_a_short_track() {
    let points = read(
        "<trk><trkseg><trkpt lat=\"1\" lon=\"2\"/></trkseg></trk>\
         <rte><rtept lat=\"3\" lon=\"4\"/><rtept lat=\"5\" lon=\"6\"/></rte>",
    );
    assert_eq!(points, Err(TrackError::NoUsablePoints));
}

#[test]
fn too_few_points() {
    assert_eq!(read(""), Err(TrackError::NoUsablePoints));
    assert_eq!(read("<wpt lat=\"1\" lon=\"2\"/>"), Err(TrackError::NoUsablePoints));
    assert_eq!(TrackError::NoUsablePoints.message(), "GPX has no usable track points");
}

#[test]
fn malformed_documents() {
    assert_eq!(parse_track(b"not xml"), Err(TrackError::Malformed));
    assert_eq!(parse_track(b""), Err(TrackError::Malformed));
    assert_eq!(
        read("<trk><trkseg><trkpt lat=\"91\" lon=\"0\"/></trkseg></trk>"),
        Err(TrackError::Malformed)
    );
    assert_eq!(
        read("<trk><trkseg><trkpt lat=\"1\" lon=\"180\"/></trkseg></trk>"),
        Err(TrackError::Malformed)
    );
    assert_eq!(
        read("<trk><trkseg><trkpt lat=\"NaN\" lon=\"0\"/></trkseg></trk>"),
        Err(TrackError::Malformed)
    );
    assert_eq!(TrackError::Malformed.message(), "failed to parse GPX");
}

#[test]
fn plain_times() {
    assert!(has_plain_times(b""));
    assert!(has_plain_times(b"<time>2024-05-01T08:00:00Z</time><ele>9999</ele>"));
    assert!(has_plain_times(b"<time>2024-05-01T08:00:00Z</time>&amp;<!-- -->"));
    assert!(!has_plain_times(b"<time>9999-12-31T23:59:59-01:00</time>"));
    assert!(!has_plain_times(b"<g:time >9999-12-31T23:59:59-01:00</g:time>"));
    assert!(!has_plain_times(b"<time>&#57;999-12-31T23:59:59-01:00</time>"));
    assert!(!has_plain_times(b"<time a='</'>9999-12-31T23:59:59-01:00</time>"));
    assert!(!has_plain_times(b"<time\n>9999-12-31T23:59:59-01:00</time>"));
    assert!(has_plain_times(b"<timestamp>9999</timestamp><gpx creator=\"my:time\"></gpx>"));
    assert!(has_plain_times(b"<!-- <time> </time> --><ele>9999</ele>"));
    assert!(has_plain_times(b"<time/>9999-12-31T23:59:59-01:00"));
}

#[test]
fn entities_that_can_become_markup() {
    for value in ["'&#60;time'", "'<time>'", "'&#x3c;'", "\"&other;\"", "'&#38;'", "'&x'"] {
        let text = format!("<!DOCTYPE gpx [<!ENTITY t {value}>]><gpx>&t;>9999</gpx>");
        assert!(!has_plain_times(text.as_bytes()), "{value}");
    }
    let text = "<!DOCTYPE gpx [<!ENTITY t '9999-12-31'>]><time>&t;T23:59:59-01:00</time>";
    assert!(!has_plain_times(text.as_bytes()));
}

#[test]
fn unusual_times_that_can_be_read() {
    let expected = Ok(vec![p(1.0, 2.0), p(3.0, 4.0)]);
    for time in [
        "<time>2026-04-24T10:00:00.9999Z</time>",
        "<time>2026-04-24T10:00:00.9999-01:00</time>",
        "<time>9999-12-31T23:59:59Z</time>",
        "<time>9999-06-01T10:00:00+02:00</time>",
        "<time>9999-12-31T22:59:59-01:00</time>",
        "<time>9999-12-31T23:59:59+01:00</time>",
        "<time>9999-12-30T22:00:00-25:59</time>",
        "<time>99991231T2230-0129</time>",
        "<time>9999-W51-7T23:59:59-01:00</time>",
        "<time>-009999-01-01T01:00:00+01:00</time>",
        "<time>-009999-01-01T00:00:00-01:00</time>",
        "<time>9999-12-31T23:59:59</time>",
        "<time><!-- </time> 9999 -->2026-04-24T10:00:00Z</time>",
        "<time>2026-04-24<!-- ' -->T10:00:00-02:00</time>",
        "<time><![CDATA[2026-04-24T10:00:00Z]]></time>",
        "<time><?a 9999?>2026-04-24T10:00:00Z</time>",
        "<time a='9999' b=\"</time>\">2026-04-24T10:00:00Z</time>",
        "<time>2026-04-24T10:00:00&#90;</time>",
    ] {
        let points = read(&format!(
            "<trk><trkseg><trkpt lat=\"1\" lon=\"2\">{time}</trkpt>\
             <trkpt lat=\"3\" lon=\"4\"/></trkseg></trk>"
        ));
        assert_eq!(points, expected, "{time}");
    }
    let entities = "<!DOCTYPE gpx [<!ENTITY n \"Route 9999 &#233;&#xe9;\"> <!ENTITY e ''>]>\
        <gpx version=\"1.1\" creator=\"t\"><rte><name>&n;&e;</name>\
        <rtept lat=\"1\" lon=\"2\"><time>2026-04-24T10:00:00Z</time></rtept>\
        <rtept lat=\"3\" lon=\"4\"/></rte></gpx>";
    assert!(has_plain_times(entities.as_bytes()));
    assert_eq!(parse_track(entities.as_bytes()), expected);
    let typed = "<!DOCTYPE gpx><gpx version=\"1.1\" creator=\"t\"><rte>\
        <rtept lat=\"1\" lon=\"2\"/><rtept lat=\"3\" lon=\"4\"/></rte></gpx>";
    assert!(has_plain_times(typed.as_bytes()));
    assert_eq!(parse_track(typed.as_bytes()), expected);
}

#[test]
fn documents_in_utf_16() {
    let text = |time: &str| {
        format!(
            "<?xml version=\"1.0\" encoding=\"UTF-16\"?><gpx version=\"1.1\" creator=\"\u{e9}\"><rte>\
             <rtept lat=\"1\" lon=\"2\"><time>{time}</time></rtept>\
             <rtept lat=\"3\" lon=\"4\"/></rte></gpx>"
        )
    };
    let little = |text: &str| -> Vec<u8> {
        let units = std::iter::once(0xfeff).chain(text.encode_utf16());
        units.flat_map(|u| u.to_le_bytes()).collect()
    };
    let big = |text: &str| -> Vec<u8> {
        let units = std::iter::once(0xfeff).chain(text.encode_utf16());
        units.flat_map(|u| u.to_be_bytes()).collect()
    };
    let usual = text("2026-04-24T10:00:00Z");
    let unusual = text("9999-12-31T23:59:59-01:00");
    for bytes in [little(&usual), big(&usual)] {
        assert!(has_plain_times(&bytes));
        assert_eq!(parse_track(&bytes), Ok(vec![p(1.0, 2.0), p(3.0, 4.0)]));
    }
    assert!(!has_plain_times(&little(&unusual)));
    assert!(!has_plain_times(&big(&unusual)));
}

#[test]
fn times_that_may_panic() {
    for time in [
        "<time>9999-12-31T23:59:59-01:00</time>",
        "<time>-009999-01-01T00:00:00+01:00</time>",
        "<time>+009999-12-31T23:59:59-01:00</time>",
        "<time>99991231T235959-0100</time>",
        "<time>9999-W52-5T23:59:59-01:00</time>",
        "<time>9999-365T23:00-01</time>",
        "<time>-009999-W01-4T00:00:00+01:00</time>",
        "<time>9999-12-31T23:00:00-01:00</time>",
        "<time>9999-12-31T22:31-01:29</time>",
        "<time>9999-12-31T22.9-01:05</time>",
        "<time>9999-12-30T22:01:00-25:59</time>",
        "<time>-009999-01-01T00:59:59+01:00</time>",
        "<time>99<!-- -->99-12-31T23:59:59-01:00</time>",
        "<time>2026<?a?>9999-12-31T23:59:59-01:00</time>",
        "<time><!-- </ -->9999-12-31T23:59:59-01:00</time>",
        "<time>9999-12-31T23:59:59<!-- -->-01:00</time>",
        "<time>9999-12-31T23:59:59&#45;01:00</time>",
        "<time>9&#57;99-12-31T23:59:59-01:00</time>",
        "<time><![CDATA[99]]>99-12-31T23:59:59-01:00</time>",
        "<time a='>'>9999-12-31T23:59:59-01:00</time>",
    ] {
        assert!(!has_plain_times(time.as_bytes()), "{time}");
    }
}

#[test]
fn routes_of_documents_that_are_read() {
    let text = "<gpx version=\"1.1\" creator=\"t\"><rte><rtept lat=\"1\" lon=\"2\"/>\
        <rtept lat=\"3\" lon=\"4\"/></rte></gpx>";
    let read = gpx::read(text.as_bytes()).unwrap();
    assert_eq!(collect_route(read), Ok(vec![p(1.0, 2.0), p(3.0, 4.0)]));
    assert_eq!(collect_route(gpx::Gpx::default()), Err(TrackError::NoUsablePoints));
}

#[test]
fn points_of_a_document() {
    let doc = GpxDoc {
        tracks: vec![vec![vec![], vec![p(1.0, 2.0)]], vec![], vec![vec![p(3.0, 4.0)]]],
        routes: vec![vec![p(5.0, 6.0)]],
    };
    assert_eq!(collect_points(&doc), Ok(vec![p(1.0, 2.0), p(3.0, 4.0)]));
    let doc = GpxDoc { tracks: vec![vec![]], routes: vec![vec![p(5.0, 6.0)], vec![p(7.0, 8.0)]] };
    assert_eq!(collect_points(&doc), Ok(vec![p(5.0, 6.0), p(7.0, 8.0)]));
    let doc = GpxDoc { tracks: vec![], routes: vec![] };
    assert_eq!(collect_points(&doc), Err(TrackError::NoUsablePoints));
}
