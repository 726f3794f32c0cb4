//! Points of interest as the Overpass service lists them, and the cache of its
//! answers.

use crate::binary64;
use crate::binary64::{Binary64, INFINITY_BITS, SIGN};
use crate::gpx_parse;
use crate::gpx_parse::RawPoint;
use crate::json;
use crate::json::{Json, JsonTree};
use crate::text;
use vstd::prelude::*;

verus! {

/// How long an answer of the service is trusted: a week. Points of interest and
/// their opening hours do not change from hour to hour.
pub const CACHE_TTL_SECS: i64 = 7 * 24 * 3600;

/// What a point of interest offers.
#[derive(Clone, Copy, Debug, PartialEq, Eq, Structural)]
pub enum PoiKind {
    Bakery,
    Supermarket,
    Tobacco,
    Fountain,
    Other,
}

/// The kind of a place whose tags `amenity` and `shop` have these values. The
/// tests are made in this order, and the first that holds decides.
pub open spec fn kind_of(amenity: Seq<char>, shop: Seq<char>) -> PoiKind {
    if amenity == "drinking_water"@ || shop == "water"@ {
        PoiKind::Fountain
    } else if amenity == "bar"@ || amenity == "cafe"@ || amenity == "pub"@ {
        PoiKind::Tobacco
    } else if shop == "convenience"@ || shop == "supermarket"@ {
        PoiKind::Supermarket
    } else if shop == "bakery"@ || shop == "pastry"@ {
        PoiKind::Bakery
    } else if shop == "tobacco"@ {
        PoiKind::Tobacco
    } else {
        PoiKind::Other
    }
}

/// A text, or the empty text where there is none.
pub open spec fn text_or_empty(t: Option<Seq<char>>) -> Seq<char> {
    match t {
        Some(s) => s,
        None => ""@,
    }
}

/// The kind of a place with these tags. A tag that is missing or no text counts
/// as empty.
pub open spec fn kind_of_tags(tags: Seq<(Seq<char>, JsonTree)>) -> PoiKind {
    kind_of(
        text_or_empty(json::text_under(tags, "amenity"@)),
        text_or_empty(json::text_under(tags, "shop"@)),
    )
}

impl PoiKind {
    /// The name of the kind.
    pub open spec fn name(self) -> Seq<char> {
        match self {
            PoiKind::Bakery => "bakery"@,
            PoiKind::Supermarket => "supermarket"@,
            PoiKind::Tobacco => "bar_tabac"@,
            PoiKind::Fountain => "fountain"@,
            PoiKind::Other => "other"@,
        }
    }

    /// The kind of a place with these tags.
    pub fn from_tags(tags: &[(String, Json)]) -> (kind: PoiKind)
        ensures
            kind == kind_of_tags(json::entries_view(tags@)),
    {
        let amenity: &str = match json::find_text(tags, "amenity") {
            Some(s) => s,
            None => "",
        };
        let shop: &str = match json::find_text(tags, "shop") {
            Some(s) => s,
            None => "",
        };
        if text::same_text(amenity, "drinking_water") || text::same_text(shop, "water") {
            return PoiKind::Fountain;
        }
        if text::same_text(amenity, "bar") || text::same_text(amenity, "cafe") || text::same_text(
            amenity,
            "pub",
        ) {
            return PoiKind::Tobacco;
        }
        if text::same_text(shop, "convenience") || text::same_text(shop, "supermarket") {
            return PoiKind::Supermarket;
        }
        if text::same_text(shop, "bakery") || text::same_text(shop, "pastry") {
            return PoiKind::Bakery;
        }
        if text::same_text(shop, "tobacco") {
            return PoiKind::Tobacco;
        }
        PoiKind::Other
    }

    /// The name of the kind.
    pub fn as_str(self) -> (name: &'static str)
        ensures
            name@ == self.name(),
    {
        match self {
            PoiKind::Bakery => "bakery",
            PoiKind::Supermarket => "supermarket",
            PoiKind::Tobacco => "bar_tabac",
            PoiKind::Fountain => "fountain",
            PoiKind::Other => "other",
        }
    }
}

/// Two kinds have the same name only where they are the same.
pub proof fn names_tell_kinds_apart(a: PoiKind, b: PoiKind)
    requires
        a.name() == b.name(),
    ensures
        a == b,
{
    reveal_strlit("bakery");
    reveal_strlit("supermarket");
    reveal_strlit("bar_tabac");
    reveal_strlit("fountain");
    reveal_strlit("other");
    assert("bakery"@.len() == 6);
    assert("supermarket"@.len() == 11);
    assert("bar_tabac"@.len() == 9);
    assert("fountain"@.len() == 8);
    assert("other"@.len() == 5);
}

/// What a point of interest is.
pub ghost struct PoiView {
    pub osm_id: i64,
    pub kind: PoiKind,
    pub lat: Binary64,
    pub lon: Binary64,
    pub name: Option<Seq<char>>,
    pub opening_hours: Option<Seq<char>>,
}

/// A point of interest.
#[derive(Debug)]
pub struct Poi {
    pub osm_id: i64,
    pub kind: PoiKind,
    pub lat: Binary64,
    pub lon: Binary64,
    pub name: Option<String>,
    pub opening_hours: Option<String>,
}

/// The text of an optional string.
pub open spec fn opt_text(s: Option<String>) -> Option<Seq<char>> {
    match s {
        Some(t) => Some(t@),
        None => None,
    }
}

impl View for Poi {
    type V = PoiView;

    open spec fn view(&self) -> PoiView {
        PoiView {
            osm_id: self.osm_id,
            kind: self.kind,
            lat: self.lat,
            lon: self.lon,
            name: opt_text(self.name),
            opening_hours: opt_text(self.opening_hours),
        }
    }
}

/// What the points of interest in a list are.
pub open spec fn pois_view(pois: Seq<Poi>) -> Seq<PoiView> {
    Seq::new(pois.len(), |i: int| pois[i]@)
}

/// The latitude and the longitude of an element: its own where it has both, and
/// else those of its centre.
pub open spec fn position_of(element: JsonTree) -> (Option<Binary64>, Option<Binary64>) {
    if element.get("lat"@) is Some && element.get("lon"@) is Some {
        (json::double_in(element.get("lat"@)), json::double_in(element.get("lon"@)))
    } else {
        (
            json::double_in(json::get_in(element.get("center"@), "lat"@)),
            json::double_in(json::get_in(element.get("center"@), "lon"@)),
        )
    }
}

/// The tags of an element; none where it has no object of them.
pub open spec fn tags_of(element: JsonTree) -> Seq<(Seq<char>, JsonTree)> {
    match element.get("tags"@) {
        Some(tags) => tags.entries(),
        None => Seq::empty(),
    }
}

/// The number of an element; zero where it has none.
pub open spec fn id_of(element: JsonTree) -> i64 {
    match element.get("id"@) {
        Some(id) => match id.integer() {
            Some(n) => n,
            None => 0,
        },
        None => 0,
    }
}

/// The point of interest that an element describes; `None` where the element has
/// no position.
pub open spec fn poi_of(element: JsonTree) -> Option<PoiView> {
    match position_of(element) {
        (Some(lat), Some(lon)) => Some(
            PoiView {
                osm_id: id_of(element),
                kind: kind_of_tags(tags_of(element)),
                lat,
                lon,
                name: json::text_under(tags_of(element), "name"@),
                opening_hours: json::text_under(tags_of(element), "opening_hours"@),
            },
        ),
        _ => None,
    }
}

/// The points of interest that the elements of a list describe, in their order.
pub open spec fn pois_of(elements: Seq<JsonTree>) -> Seq<PoiView>
    decreases elements.len(),
{
    if elements.len() == 0 {
        Seq::empty()
    } else {
        let front = pois_of(elements.drop_last());
        match poi_of(elements.last()) {
            Some(poi) => front.push(poi),
            None => front,
        }
    }
}

/// The points of interest in an answer of the service; none where it has no list
/// of elements.
pub open spec fn pois_in(answer: JsonTree) -> Seq<PoiView> {
    match answer.get("elements"@) {
        Some(JsonTree::Array(elements)) => pois_of(elements),
        _ => Seq::empty(),
    }
}

/// What the text of an answer says: points of interest, or the message of the
/// error where the text is no JSON.
pub open spec fn answer_of(body: Seq<char>) -> Result<Seq<PoiView>, Seq<char>> {
    match json::json_reading(body) {
        Ok(answer) => Ok(pois_in(answer)),
        Err(message) => Err(message),
    }
}

/// The double that an optional value is.
fn as_double(v: Option<&Json>) -> (d: Option<Binary64>)
    ensures
        d == json::double_in(
            match v {
                Some(j) => Some(j@),
                None => None,
            },
        ),
{
    match v {
        Some(j) => j.as_double(),
        None => None,
    }
}

/// A copy of an optional text.
fn owned(s: Option<&str>) -> (t: Option<String>)
    ensures
        opt_text(t) == match s {
            Some(x) => Some(x@),
            None => None,
        },
{
    match s {
        Some(x) => Some(x.to_owned()),
        None => None,
    }
}

/// The latitude and the longitude of an element.
fn element_position(element: &Json) -> (position: (Option<Binary64>, Option<Binary64>))
    ensures
        position == position_of(element@),
{
    match (element.get("lat"), element.get("lon")) {
        (Some(lat), Some(lon)) => (lat.as_double(), lon.as_double()),
        _ => match element.get("center") {
            Some(center) => (as_double(center.get("lat")), as_double(center.get("lon"))),
            None => (None, None),
        },
    }
}

/// The point of interest that an element describes.
pub fn parse_element(element: &Json) -> (poi: Option<Poi>)
    ensures
        match poi {
            Some(p) => poi_of(element@) == Some(p@),
            None => poi_of(element@) is None,
        },
{
    let (lat, lon) = match element_position(element) {
        (Some(lat), Some(lon)) => (lat, lon),
        _ => {
            return None;
        },
    };
    let osm_id: i64 = match element.get("id") {
        Some(id) => match id.as_i64() {
            Some(n) => n,
            None => 0,
        },
        None => 0,
    };
    let none: Vec<(String, Json)> = Vec::new();
    let tags: &Vec<(String, Json)> = match element.get("tags") {
        Some(Json::Object(entries)) => entries,
        _ => &none,
    };
    assert(json::entries_view(tags@) =~= tags_of(element@));
    let poi: Poi = Poi {
        osm_id,
        kind: PoiKind::from_tags(tags.as_slice()),
        lat,
        lon,
        name: owned(json::find_text(tags.as_slice(), "name")),
        opening_hours: owned(json::find_text(tags.as_slice(), "opening_hours")),
    };
    Some(poi)
}

/// The points of interest in an answer of the service.
pub fn collect_pois(answer: &Json) -> (pois: Vec<Poi>)
    ensures
        pois_view(pois@) == pois_in(answer@),
{
    let mut pois: Vec<Poi> = Vec::new();
    let elements: &Vec<Json> = match answer.get("elements") {
        Some(Json::Array(elements)) => elements,
        _ => {
            assert(pois_view(pois@) =~= Seq::<PoiView>::empty());
            return pois;
        },
    };
    let ghost all = answer@.get("elements"@)->Some_0->Array_0;
    let mut i: usize = 0;
    assert(all.take(0) =~= Seq::<JsonTree>::empty());
    assert(pois_view(pois@) =~= Seq::<PoiView>::empty());
    while i < elements.len()
        invariant
            i <= elements@.len(),
            all.len() == elements@.len(),
            forall|j: int| 0 <= j < all.len() ==> #[trigger] all[j] == elements@[j]@,
            pois_view(pois@) == pois_of(all.take(i as int)),
        decreases elements@.len() - i,
    {
        let ghost before = pois_view(pois@);
        proof {
            assert(all.take(i + 1).drop_last() =~= all.take(i as int));
            assert(all.take(i + 1).last() == elements@[i as int]@);
        }
        match parse_element(&elements[i]) {
            Some(poi) => {
                pois.push(poi);
                assert(pois_view(pois@) =~= before.push(poi@));
            },
            None => {},
        }
        i += 1;
    }
    assert(all.take(i as int) =~= all);
    pois
}

/// The points of interest in the text of an answer, or a message that says what
/// is wrong with the text.
pub fn parse_overpass(body: &str) -> (outcome: Result<Vec<Poi>, String>)
    ensures
        match outcome {
            Ok(pois) => answer_of(body@) == Ok::<Seq<PoiView>, Seq<char>>(pois_view(pois@)),
            Err(message) => answer_of(body@) == Err::<Seq<PoiView>, Seq<char>>(message@),
        },
{
    match json::parse_json(body) {
        Ok(answer) => Ok(collect_pois(&answer)),
        Err(message) => Err(message),
    }
}

/// Every point of interest in a list comes from an element of the answer, and
/// every element that has a position gives one.
pub proof fn positions_make_pois(elements: Seq<JsonTree>)
    ensures
        pois_of(elements).len() <= elements.len(),
        forall|i: int|
            0 <= i < elements.len() && poi_of(#[trigger] elements[i]) is Some ==> pois_of(
                elements,
            ).contains(poi_of(elements[i])->Some_0),
        forall|p: PoiView| #[trigger]
            pois_of(elements).contains(p) ==> exists|i: int|
                0 <= i < elements.len() && poi_of(#[trigger] elements[i]) == Some(p),
    decreases elements.len(),
{
    if elements.len() > 0 {
        let front = elements.drop_last();
        let last = elements.last();
        positions_make_pois(front);
        let all = pois_of(elements);
        assert forall|i: int|
            0 <= i < elements.len() && poi_of(#[trigger] elements[i]) is Some implies all.contains(
            poi_of(elements[i])->Some_0,
        ) by {
            if i < front.len() {
                assert(front[i] == elements[i]);
                let p = poi_of(elements[i])->Some_0;
                let k = choose|k: int| 0 <= k < pois_of(front).len() && pois_of(front)[k] == p;
                assert(all[k] == p);
            } else {
                assert(all[all.len() - 1] == poi_of(last)->Some_0);
            }
        }
        assert forall|p: PoiView| #[trigger] all.contains(p) implies exists|i: int|
            0 <= i < elements.len() && poi_of(#[trigger] elements[i]) == Some(p) by {
            let k = choose|k: int| 0 <= k < all.len() && all[k] == p;
            if k < pois_of(front).len() {
                assert(pois_of(front)[k] == p);
                assert(pois_of(front).contains(p));
                let i = choose|i: int|
                    0 <= i < front.len() && poi_of(#[trigger] front[i]) == Some(p);
                assert(elements[i] == front[i]);
            } else {
                assert(elements[elements.len() - 1] == last);
            }
        }
    }
}

/// The values of `shop` that the service is asked for.
pub open spec fn queried_shops() -> Seq<Seq<char>> {
    seq!["bakery"@, "pastry"@, "supermarket"@, "convenience"@, "tobacco"@]
}

/// The values of `amenity` that the service is asked for.
pub open spec fn queried_amenities() -> Seq<Seq<char>> {
    seq!["bar"@, "cafe"@, "pub"@, "drinking_water"@]
}

/// Words with bars between them.
pub open spec fn alternatives(words: Seq<Seq<char>>) -> Seq<char>
    decreases words.len(),
{
    if words.len() == 0 {
        Seq::empty()
    } else if words.len() == 1 {
        words[0]
    } else {
        alternatives(words.drop_last()) + "|"@ + words.last()
    }
}

/// The question to the service for a box: every node, way and relation in it
/// with one of the values, with its tags and its position.
pub open spec fn query_text(bbox: Seq<char>) -> Seq<char> {
    "[out:json][timeout:50];\n(\n  nwr[\"shop\"~\"^("@ + alternatives(queried_shops()) + ")$\"]("@
        + bbox + ");\n  nwr[\"amenity\"~\"^("@ + alternatives(queried_amenities()) + ")$\"]("@
        + bbox + ");\n);\nout center tags;"@
}

/// Every place that the service is asked for has a kind of its own.
pub proof fn queried_places_have_a_kind(amenity: Seq<char>, shop: Seq<char>)
    requires
        queried_shops().contains(shop) || queried_amenities().contains(amenity),
    ensures
        kind_of(amenity, shop) != PoiKind::Other,
{
}

/// Puts `words`, with bars between them, behind `out`.
fn append_alternatives(out: &mut String, words: &Vec<&str>)
    ensures
        final(out)@ == old(out)@ + alternatives(text::texts(words@)),
{
    let ghost all = text::texts(words@);
    let mut i: usize = 0;
    assert(all.take(0) =~= Seq::<Seq<char>>::empty());
    assert(out@ =~= old(out)@ + Seq::<char>::empty());
    while i < words.len()
        invariant
            i <= words@.len(),
            all == text::texts(words@),
            out@ == old(out)@ + alternatives(all.take(i as int)),
        decreases words@.len() - i,
    {
        proof {
            assert(all.take(i + 1).drop_last() =~= all.take(i as int));
            assert(all.take(i + 1).last() == words@[i as int]@);
        }
        if i > 0 {
            out.append("|");
        }
        out.append(words[i]);
        assert(out@ =~= old(out)@ + alternatives(all.take(i + 1)));
        i += 1;
    }
    assert(all.take(i as int) =~= all);
}

/// The question to the service for a box.
pub fn overpass_query(bbox: &str) -> (query: String)
    ensures
        query@ == query_text(bbox@),
{
    let shops: Vec<&str> = vec!["bakery", "pastry", "supermarket", "convenience", "tobacco"];
    let amenities: Vec<&str> = vec!["bar", "cafe", "pub", "drinking_water"];
    assert(text::texts(shops@) =~= queried_shops());
    assert(text::texts(amenities@) =~= queried_amenities());
    let mut query: String = "[out:json][timeout:50];\n(\n  nwr[\"shop\"~\"^(".to_owned();
    append_alternatives(&mut query, &shops);
    query.append(")$\"](");
    query.append(bbox);
    query.append(");\n  nwr[\"amenity\"~\"^(");
    append_alternatives(&mut query, &amenities);
    query.append(")$\"](");
    query.append(bbox);
    query.append(");\n);\nout center tags;");
    query
}

/// The four sides of a box as the service writes it.
pub open spec fn box_text(
    south: Seq<char>,
    west: Seq<char>,
    north: Seq<char>,
    east: Seq<char>,
) -> Seq<char> {
    south + ","@ + west + ","@ + north + ","@ + east
}

/// The four sides of a box, each a written number, as the service writes it.
pub fn join_box(south: &str, west: &str, north: &str, east: &str) -> (bbox: String)
    ensures
        bbox@ == box_text(south@, west@, north@, east@),
{
    let mut bbox: String = south.to_owned();
    bbox.append(",");
    bbox.append(west);
    bbox.append(",");
    bbox.append(north);
    bbox.append(",");
    bbox.append(east);
    bbox
}

/// The key of a box in the cache.
pub open spec fn key_text(bbox: Seq<char>) -> Seq<char> {
    "v1|"@ + bbox
}

/// The key of a box in the cache.
pub fn cache_key(bbox: &str) -> (key: String)
    ensures
        key@ == key_text(bbox@),
{
    let mut key: String = "v1|".to_owned();
    key.append(bbox);
    key
}

/// Different boxes have different keys.
pub proof fn keys_tell_boxes_apart(a: Seq<char>, b: Seq<char>)
    requires
        key_text(a) == key_text(b),
    ensures
        a == b,
{
    let n = "v1|"@.len() as int;
    assert(key_text(a).skip(n) =~= a);
    assert(key_text(b).skip(n) =~= b);
}

/// The box around the points of a route, before any padding.
#[derive(Clone, Copy, Debug, PartialEq, Eq, Structural)]
pub struct Bounds {
    pub min_lat: Binary64,
    pub min_lon: Binary64,
    pub max_lat: Binary64,
    pub max_lon: Binary64,
}

/// Positive infinity.
pub open spec fn infinity() -> Binary64 {
    Binary64 { bits: INFINITY_BITS }
}

/// Negative infinity.
pub open spec fn minus_infinity() -> Binary64 {
    Binary64 { bits: (SIGN + INFINITY_BITS) as u64 }
}

/// The latitudes of points.
pub open spec fn lats(points: Seq<RawPoint>) -> Seq<Binary64> {
    Seq::new(points.len(), |i: int| points[i].lat)
}

/// The longitudes of points.
pub open spec fn lons(points: Seq<RawPoint>) -> Seq<Binary64> {
    Seq::new(points.len(), |i: int| points[i].lon)
}

/// Whether `v` is the first least (upwards) or greatest (downwards) of `values`,
/// or `start` where no value is ahead of it.
pub open spec fn is_bound(values: Seq<Binary64>, start: Binary64, upwards: bool, v: Binary64) -> bool {
    ||| v == start && binary64::none_ahead(values, start, upwards)
    ||| exists|i: int|
        binary64::first_extreme(values, start, upwards, i) && v == #[trigger] values[i]
}

/// Whether `b` is the box around the points.
pub open spec fn is_box(points: Seq<RawPoint>, b: Bounds) -> bool {
    &&& is_bound(lats(points), infinity(), true, b.min_lat)
    &&& is_bound(lons(points), infinity(), true, b.min_lon)
    &&& is_bound(lats(points), minus_infinity(), false, b.max_lat)
    &&& is_bound(lons(points), minus_infinity(), false, b.max_lon)
}

/// The first least or greatest of `values`, or `start`.
fn bound(values: &Vec<Binary64>, start: Binary64, upwards: bool) -> (v: Binary64)
    ensures
        is_bound(values@, start, upwards, v),
{
    match binary64::extreme(values.as_slice(), start, upwards) {
        Some(i) => {
            let v: Binary64 = values[i];
            assert(v == values@[i as int]);
            v
        },
        None => start,
    }
}

/// The box around the points of a route.
pub fn bbox(raw: &[RawPoint]) -> (b: Bounds)
    ensures
        is_box(raw@, b),
{
    let mut lat: Vec<Binary64> = Vec::new();
    let mut lon: Vec<Binary64> = Vec::new();
    let mut i: usize = 0;
    while i < raw.len()
        invariant
            i <= raw@.len(),
            lat@ =~= lats(raw@.take(i as int)),
            lon@ =~= lons(raw@.take(i as int)),
        decreases raw@.len() - i,
    {
        lat.push(raw[i].lat);
        lon.push(raw[i].lon);
        i += 1;
    }
    assert(raw@.take(i as int) =~= raw@);
    let up: Binary64 = Binary64 { bits: INFINITY_BITS };
    let down: Binary64 = Binary64 { bits: SIGN + INFINITY_BITS };
    Bounds {
        min_lat: bound(&lat, up, true),
        min_lon: bound(&lon, up, true),
        max_lat: bound(&lat, down, false),
        max_lon: bound(&lon, down, false),
    }
}

/// Every value that is a number is between the two bounds of its list.
proof fn lemma_bounds_hold(values: Seq<Binary64>, low: Binary64, high: Binary64, i: int)
    requires
        is_bound(values, infinity(), true, low),
        is_bound(values, minus_infinity(), false, high),
        0 <= i < values.len(),
    ensures
        !values[i].below(low),
        !high.below(values[i]),
{
}

/// No point of a route is outside the box around it.
pub proof fn box_holds_the_route(points: Seq<RawPoint>, b: Bounds, i: int)
    requires
        is_box(points, b),
        0 <= i < points.len(),
    ensures
        !points[i].lat.below(b.min_lat),
        !b.max_lat.below(points[i].lat),
        !points[i].lon.below(b.min_lon),
        !b.max_lon.below(points[i].lon),
{
    lemma_bounds_hold(lats(points), b.min_lat, b.max_lat, i);
    lemma_bounds_hold(lons(points), b.min_lon, b.max_lon, i);
    assert(lats(points)[i] == points[i].lat);
    assert(lons(points)[i] == points[i].lon);
}

/// Each side of the box around a route on the globe goes through a point of it.
pub proof fn box_touches_the_route(points: Seq<RawPoint>, b: Bounds)
    requires
        is_box(points, b),
        points.len() > 0,
        gpx_parse::all_on_globe(points),
    ensures
        exists|i: int| 0 <= i < points.len() && (#[trigger] points[i]).lat == b.min_lat,
        exists|i: int| 0 <= i < points.len() && (#[trigger] points[i]).lon == b.min_lon,
        exists|i: int| 0 <= i < points.len() && (#[trigger] points[i]).lat == b.max_lat,
        exists|i: int| 0 <= i < points.len() && (#[trigger] points[i]).lon == b.max_lon,
{
    assert(gpx_parse::is_latitude(points[0].lat) && gpx_parse::is_longitude(points[0].lon));
    assert(lats(points)[0].below(infinity()));
    assert(lons(points)[0].below(infinity()));
    assert(minus_infinity().below(lats(points)[0]));
    assert(minus_infinity().below(lons(points)[0]));
    let a = choose|i: int|
        binary64::first_extreme(lats(points), infinity(), true, i) && b.min_lat
            == #[trigger] lats(points)[i];
    assert(points[a].lat == b.min_lat);
    let a = choose|i: int|
        binary64::first_extreme(lons(points), infinity(), true, i) && b.min_lon
            == #[trigger] lons(points)[i];
    assert(points[a].lon == b.min_lon);
    let a = choose|i: int|
        binary64::first_extreme(lats(points), minus_infinity(), false, i) && b.max_lat
            == #[trigger] lats(points)[i];
    assert(points[a].lat == b.max_lat);
    let a = choose|i: int|
        binary64::first_extreme(lons(points), minus_infinity(), false, i) && b.max_lon
            == #[trigger] lons(points)[i];
    assert(points[a].lon == b.max_lon);
}

} // verus!
