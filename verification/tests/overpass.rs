use ravito_gpx::binary64::Binary64;
use ravito_gpx::gpx_parse::RawPoint;
use ravito_gpx::json::{find_text, parse_json, Json};
use ravito_gpx::overpass::{
    bbox, cache_key, collect_pois, join_box, overpass_query, parse_element, parse_overpass, Bounds,
    Poi, PoiKind,
};

fn b(x: f64) -> Binary64 {
    Binary64 { bits: x.to_bits() }
}

fn tags(entries: &[(&str, &str)]) -> Vec<(String, Json)> {
    entries.iter().map(|(k, v)| (k.to_string(), Json::Str(v.to_string()))).collect()
}

fn kind(entries: &[(&str, &str)]) -> PoiKind {
    PoiKind::from_tags(&tags(entries))
}

fn one(element: &str) -> Option<Poi> {
    let mut pois = parse_overpass(&format!("{{\"elements\":[{element}]}}")).unwrap();
    assert!(pois.len() <= 1);
    pois.pop()
}

#[test]
fn kinds_of_tags() {
    assert_eq!(kind(&[("amenity", "drinking_water")]), PoiKind::Fountain);
    assert_eq!(kind(&[("shop", "water")]), PoiKind::Fountain);
    assert_eq!(kind(&[("amenity", "bar")]), PoiKind::Tobacco);
    assert_eq!(kind(&[("amenity", "cafe")]), PoiKind::Tobacco);
    assert_eq!(kind(&[("amenity", "pub")]), PoiKind::Tobacco);
    assert_eq!(kind(&[("shop", "tobacco")]), PoiKind::Tobacco);
    assert_eq!(kind(&[("shop", "convenience")]), PoiKind::Supermarket);
    assert_eq!(kind(&[("shop", "supermarket")]), PoiKind::Supermarket);
    assert_eq!(kind(&[("shop", "bakery")]), PoiKind::Bakery);
    assert_eq!(kind(&[("shop", "pastry")]), PoiKind::Bakery);
    assert_eq!(kind(&[("shop", "Bakery")]), PoiKind::Other);
    assert_eq!(kind(&[("name", "bakery")]), PoiKind::Other);
    assert_eq!(kind(&[]), PoiKind::Other);
}

#[test]
fn the_first_test_decides_the_kind() {
    assert_eq!(kind(&[("shop", "bakery"), ("amenity", "cafe")]), PoiKind::Tobacco);
    assert_eq!(kind(&[("shop", "bakery"), ("amenity", "drinking_water")]), PoiKind::Fountain);
    assert_eq!(kind(&[("amenity", "bar"), ("shop", "water")]), PoiKind::Fountain);
    assert_eq!(kind(&[("amenity", "bank"), ("shop", "pastry")]), PoiKind::Bakery);
    let odd = vec![("shop".to_string(), Json::Null), ("amenity".to_string(), Json::Bool(true))];
    assert_eq!(PoiKind::from_tags(&odd), PoiKind::Other);
}

#[test]
fn kinds_have_names() {
    let names: Vec<&str> = [
        PoiKind::Bakery,
        PoiKind::Supermarket,
        PoiKind::Tobacco,
        PoiKind::Fountain,
        PoiKind::Other,
    ]
    .iter()
    .map(|k| k.as_str())
    .collect();
    assert_eq!(names, ["bakery", "supermarket", "bar_tabac", "fountain", "other"]);
}

#[test]
fn queried_places_have_kinds() {
    for shop in ["bakery", "pastry", "supermarket", "convenience", "tobacco"] {
        assert_ne!(kind(&[("shop", shop), ("amenity", "bank")]), PoiKind::Other);
    }
    for amenity in ["bar", "cafe", "pub", "drinking_water"] {
        assert_ne!(kind(&[("amenity", amenity), ("shop", "shoes")]), PoiKind::Other);
    }
}

#[test]
fn nodes_are_read() {
    let poi = one(
        "{\"type\":\"node\",\"id\":42,\"lat\":48.5,\"lon\":-2.25,\
         \"tags\":{\"shop\":\"bakery\",\"name\":\"Chez L\\u00e9a\",\"opening_hours\":\"24/7\"}}",
    )
    .unwrap();
    assert_eq!((poi.osm_id, poi.kind, poi.lat, poi.lon), (42, PoiKind::Bakery, b(48.5), b(-2.25)));
    assert_eq!(poi.name.as_deref(), Some("Chez L\u{e9}a"));
    assert_eq!(poi.opening_hours.as_deref(), Some("24/7"));
}

#[test]
fn ways_are_at_their_centre() {
    let poi = one("{\"center\":{\"lat\":1,\"lon\":2.5e0},\"lat\":9,\"tags\":[]}").unwrap();
    assert_eq!((poi.osm_id, poi.kind, poi.lat, poi.lon), (0, PoiKind::Other, b(1.0), b(2.5)));
    assert_eq!((poi.name, poi.opening_hours), (None, None));
}

#[test]
fn elements_without_a_position_are_left_out() {
    for element in [
        "{}",
        "null",
        "7",
        "[]",
        "{\"lat\":1}",
        "{\"lat\":\"1\",\"lon\":2,\"center\":{\"lat\":1,\"lon\":2}}",
        "{\"lat\":null,\"lon\":2,\"center\":{\"lat\":1,\"lon\":2}}",
        "{\"center\":{\"lat\":1}}",
        "{\"center\":[1,2]}",
    ] {
        assert!(one(element).is_none(), "{element}");
        assert!(parse_element(&parse_json(element).unwrap()).is_none(), "{element}");
    }
}

#[test]
fn odd_members_are_ignored() {
    for id in ["-1", "9223372036854775807"] {
        let poi = one(&format!("{{\"lat\":0,\"lon\":0,\"id\":{id}}}")).unwrap();
        assert_eq!(poi.osm_id.to_string(), id);
    }
    for id in ["1.0", "\"1\"", "9223372036854775808", "null"] {
        let poi = one(&format!("{{\"lat\":0,\"lon\":0,\"id\":{id}}}")).unwrap();
        assert_eq!(poi.osm_id, 0, "{id}");
    }
    let poi = one("{\"lat\":0,\"lon\":0,\"tags\":{\"name\":5,\"opening_hours\":null}}").unwrap();
    assert_eq!((poi.name, poi.opening_hours), (None, None));
}

#[test]
fn the_last_of_equal_keys_counts() {
    let poi = one("{\"lat\":1,\"lon\":2,\"lat\":3}").unwrap();
    assert_eq!((poi.lat, poi.lon), (b(3.0), b(2.0)));
}

#[test]
fn elements_stay_in_their_order() {
    let pois = parse_overpass(
        "{\"elements\":[{\"lat\":1,\"lon\":1,\"id\":3},{\"id\":9},{\"lat\":0,\"lon\":0,\"id\":1}]}",
    )
    .unwrap();
    assert_eq!(pois.iter().map(|p| p.osm_id).collect::<Vec<_>>(), [3, 1]);
}

#[test]
fn answers_without_elements_are_empty() {
    for body in ["{}", "[]", "null", "{\"elements\":{}}", "{\"elements\":null}", "\"elements\""] {
        assert!(parse_overpass(body).unwrap().is_empty(), "{body}");
        assert!(collect_pois(&parse_json(body).unwrap()).is_empty(), "{body}");
    }
}

#[test]
fn texts_that_are_no_json() {
    for body in ["", "<html>", "{\"elements\":[}", "{} {}"] {
        let error = serde_json::from_str::<serde_json::Value>(body).unwrap_err();
        assert_eq!(parse_overpass(body).unwrap_err(), error.to_string());
    }
}

#[test]
fn json_values() {
    let json = parse_json(
        "{\"s\":\"x\",\"n\":[1,-2.5,1e400e],\"t\":true}",
    );
    assert!(json.is_err());
    let json = parse_json("{\"s\":\"x\",\"n\":[1,-2.5,18446744073709551615],\"t\":{\"u\":null}}")
        .unwrap();
    assert!(matches!(json.get("s"), Some(Json::Str(s)) if s == "x"));
    assert!(matches!(json.get("t"), Some(t) if matches!(t.get("u"), Some(Json::Null))));
    assert!(json.get("u").is_none());
    match json.get("n") {
        Some(Json::Array(items)) => {
            let read: Vec<_> = items.iter().map(|i| (i.as_i64(), i.as_double())).collect();
            assert_eq!(
                read,
                [
                    (Some(1), Some(b(1.0))),
                    (None, Some(b(-2.5))),
                    (None, Some(b(18446744073709551615.0))),
                ]
            );
        }
        other => panic!("{other:?}"),
    }
    assert_eq!(find_text(&tags(&[("a", "1"), ("b", "2")]), "b"), Some("2"));
    assert_eq!(find_text(&tags(&[("a", "1")]), "c"), None);
}

#[test]
fn the_question_to_the_service() {
    assert_eq!(
        overpass_query("1.0000,2.0000,3.0000,4.0000"),
        r#"[out:json][timeout:50];
(
  nwr["shop"~"^(bakery|pastry|supermarket|convenience|tobacco)$"](1.0000,2.0000,3.0000,4.0000);
  nwr["amenity"~"^(bar|cafe|pub|drinking_water)$"](1.0000,2.0000,3.0000,4.0000);
);
out center tags;"#
    );
}

#[test]
fn boxes_and_keys() {
    let joined = join_box("1.0000", "-2.0000", "3.5000", "4.0000");
    assert_eq!(joined, "1.0000,-2.0000,3.5000,4.0000");
    assert_eq!(cache_key(&joined), "v1|1.0000,-2.0000,3.5000,4.0000");
}

#[test]
fn the_box_around_a_route() {
    let p = |lat: f64, lon: f64| RawPoint { lat: b(lat), lon: b(lon) };
    assert_eq!(
        bbox(&[p(48.0, 2.0), p(-1.5, 7.0), p(3.0, -4.25)]),
        Bounds { min_lat: b(-1.5), min_lon: b(-4.25), max_lat: b(48.0), max_lon: b(7.0) }
    );
    assert_eq!(
        bbox(&[]),
        Bounds {
            min_lat: b(f64::INFINITY),
            min_lon: b(f64::INFINITY),
            max_lat: b(f64::NEG_INFINITY),
            max_lon: b(f64::NEG_INFINITY),
        }
    );
    assert_eq!(bbox(&[p(0.0, -0.0), p(-0.0, 0.0)]).min_lat, b(0.0));
    assert_eq!(bbox(&[p(f64::NAN, 1.0), p(2.0, f64::NAN)]).max_lat, b(2.0));
}
