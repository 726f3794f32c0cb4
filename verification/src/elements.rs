//! Laws of what the answers of the service say, stated on the members of their
//! objects, and of what the service is asked.

use crate::binary64::Binary64;
use crate::json;
use crate::json::JsonTree;
use crate::overpass;
use crate::overpass::PoiKind;
use crate::text;
use vstd::prelude::*;

verus! {

/// Whether an object has a member.
pub open spec fn has(members: Seq<(Seq<char>, JsonTree)>, key: Seq<char>, value: JsonTree) -> bool {
    exists|i: int| 0 <= i < members.len() && #[trigger] members[i] == (key, value)
}

/// Whether an object has no member with a key.
pub open spec fn lacks(members: Seq<(Seq<char>, JsonTree)>, key: Seq<char>) -> bool {
    forall|i: int| 0 <= i < members.len() ==> (#[trigger] members[i]).0 != key
}

/// Whether no key of an object occurs twice.
pub open spec fn distinct(members: Seq<(Seq<char>, JsonTree)>) -> bool {
    forall|i: int, j: int|
        0 <= i < j < members.len() ==> (#[trigger] members[i]).0 != (#[trigger] members[j]).0
}

/// Whether a value is a number that is nearest to a double.
pub open spec fn is_double(value: JsonTree, d: Binary64) -> bool {
    value matches JsonTree::Number(n) && n.double == Some(d)
}

/// Whether a value is no number that has a double.
pub open spec fn no_double(value: JsonTree) -> bool {
    value matches JsonTree::Number(n) ==> n.double is None
}

/// The value under a key is that of the member with the key, wherever it stands
/// and whatever other members there are; and there is none under a key that no
/// member has.
pub proof fn lookup_goes_by_the_member(
    members: Seq<(Seq<char>, JsonTree)>,
    key: Seq<char>,
    value: JsonTree,
)
    requires
        distinct(members),
    ensures
        json::lookup(members, key) == Some(value) <==> has(members, key, value),
        json::lookup(members, key) is None <==> lacks(members, key),
{
    lemma_absent(members, key);
    if has(members, key, value) {
        let i = choose|i: int| 0 <= i < members.len() && #[trigger] members[i] == (key, value);
        json::lookup_finds_the_entry(members, i);
    }
}

/// What is found under a key is the value of a member with it.
proof fn lemma_absent(members: Seq<(Seq<char>, JsonTree)>, key: Seq<char>)
    ensures
        json::lookup(members, key) is None <==> lacks(members, key),
        json::lookup(members, key) is Some ==> has(
            members,
            key,
            json::lookup(members, key)->Some_0,
        ),
    decreases members.len(),
{
    if members.len() > 0 {
        let rest = members.drop_first();
        lemma_absent(rest, key);
        if members[0].0 == key {
            assert(members[0] == (key, members[0].1));
        } else {
            if json::lookup(rest, key) is Some {
                let v = json::lookup(rest, key)->Some_0;
                let i = choose|i: int| 0 <= i < rest.len() && #[trigger] rest[i] == (key, v);
                assert(members[i + 1] == (key, v));
            } else {
                assert forall|i: int| 0 <= i < members.len() implies (#[trigger] members[i]).0
                    != key by {
                    if i > 0 {
                        assert(rest[i - 1] == members[i]);
                    }
                }
            }
        }
    }
}

/// An element with a latitude and a longitude of its own is there, whatever other
/// members it has.
pub proof fn elements_are_where_they_say(
    members: Seq<(Seq<char>, JsonTree)>,
    lat: JsonTree,
    lon: JsonTree,
    a: Binary64,
    b: Binary64,
)
    requires
        distinct(members),
        has(members, "lat"@, lat),
        has(members, "lon"@, lon),
    ensures
        is_double(lat, a) && is_double(lon, b) ==> match overpass::poi_of(
            JsonTree::Object(members),
        ) {
            Some(poi) => poi.lat == a && poi.lon == b,
            None => false,
        },
        no_double(lat) || no_double(lon) ==> overpass::poi_of(JsonTree::Object(members)) is None,
{
    lookup_goes_by_the_member(members, "lat"@, lat);
    lookup_goes_by_the_member(members, "lon"@, lon);
}

/// An element that lacks a latitude or a longitude of its own is at its centre,
/// whatever other members it and its centre have; and it is left out where the
/// centre lacks one of them too.
pub proof fn other_elements_are_at_their_centre(
    members: Seq<(Seq<char>, JsonTree)>,
    centre: Seq<(Seq<char>, JsonTree)>,
    lat: JsonTree,
    lon: JsonTree,
    a: Binary64,
    b: Binary64,
)
    requires
        distinct(members),
        distinct(centre),
        lacks(members, "lat"@) || lacks(members, "lon"@),
        has(members, "center"@, JsonTree::Object(centre)),
    ensures
        has(centre, "lat"@, lat) && has(centre, "lon"@, lon) && is_double(lat, a) && is_double(
            lon,
            b,
        ) ==> match overpass::poi_of(JsonTree::Object(members)) {
            Some(poi) => poi.lat == a && poi.lon == b,
            None => false,
        },
        has(centre, "lat"@, lat) && no_double(lat) ==> overpass::poi_of(
            JsonTree::Object(members),
        ) is None,
        has(centre, "lon"@, lon) && no_double(lon) ==> overpass::poi_of(
            JsonTree::Object(members),
        ) is None,
        lacks(centre, "lat"@) || lacks(centre, "lon"@) ==> overpass::poi_of(
            JsonTree::Object(members),
        ) is None,
{
    lookup_goes_by_the_member(members, "lat"@, lat);
    lookup_goes_by_the_member(members, "lon"@, lon);
    lookup_goes_by_the_member(members, "center"@, JsonTree::Object(centre));
    lookup_goes_by_the_member(centre, "lat"@, lat);
    lookup_goes_by_the_member(centre, "lon"@, lon);
}

/// An element that is no object, or that lacks a latitude or a longitude and has
/// no centre that is an object, is left out.
pub proof fn elements_without_a_place_are_left_out(
    element: JsonTree,
    members: Seq<(Seq<char>, JsonTree)>,
    centre: JsonTree,
)
    requires
        !(element is Object) || {
            &&& element == JsonTree::Object(members)
            &&& distinct(members)
            &&& lacks(members, "lat"@) || lacks(members, "lon"@)
            &&& lacks(members, "center"@) || (has(members, "center"@, centre) && !(
            centre is Object))
        },
    ensures
        overpass::poi_of(element) is None,
{
    if element is Object {
        lookup_goes_by_the_member(members, "lat"@, centre);
        lookup_goes_by_the_member(members, "lon"@, centre);
        lookup_goes_by_the_member(members, "center"@, centre);
    }
}

/// The number of a point of interest is that of its element, and zero where that
/// has none.
pub proof fn numbers_are_kept(members: Seq<(Seq<char>, JsonTree)>, id: JsonTree, n: i64)
    requires
        distinct(members),
        overpass::poi_of(JsonTree::Object(members)) is Some,
    ensures
        ({
            let poi = overpass::poi_of(JsonTree::Object(members))->Some_0;
            &&& has(members, "id"@, id) && (id matches JsonTree::Number(m) && m.integer == Some(n))
                ==> poi.osm_id == n
            &&& has(members, "id"@, id) && (id matches JsonTree::Number(m) ==> m.integer is None)
                ==> poi.osm_id == 0
            &&& lacks(members, "id"@) ==> poi.osm_id == 0
        }),
{
    lookup_goes_by_the_member(members, "id"@, id);
}

/// The name and the opening hours of a point of interest are the texts of these
/// tags of its element; it has none where the tag is missing or no text.
pub proof fn texts_are_kept(
    members: Seq<(Seq<char>, JsonTree)>,
    tags: Seq<(Seq<char>, JsonTree)>,
    value: JsonTree,
    t: Seq<char>,
)
    requires
        distinct(members),
        distinct(tags),
        overpass::poi_of(JsonTree::Object(members)) is Some,
        has(members, "tags"@, JsonTree::Object(tags)),
    ensures
        ({
            let poi = overpass::poi_of(JsonTree::Object(members))->Some_0;
            &&& has(tags, "name"@, JsonTree::Str(t)) ==> poi.name == Some(t)
            &&& has(tags, "name"@, value) && !(value is Str) ==> poi.name is None
            &&& lacks(tags, "name"@) ==> poi.name is None
            &&& has(tags, "opening_hours"@, JsonTree::Str(t)) ==> poi.opening_hours == Some(t)
            &&& has(tags, "opening_hours"@, value) && !(value is Str) ==> poi.opening_hours is None
            &&& lacks(tags, "opening_hours"@) ==> poi.opening_hours is None
            &&& poi.kind == overpass::kind_of_tags(tags)
        }),
{
    lookup_goes_by_the_member(members, "tags"@, JsonTree::Object(tags));
    lookup_goes_by_the_member(tags, "name"@, JsonTree::Str(t));
    lookup_goes_by_the_member(tags, "name"@, value);
    lookup_goes_by_the_member(tags, "opening_hours"@, JsonTree::Str(t));
    lookup_goes_by_the_member(tags, "opening_hours"@, value);
}

/// A point of interest whose element has no object of tags has no name, no
/// opening hours and no kind of its own.
pub proof fn elements_without_tags(members: Seq<(Seq<char>, JsonTree)>, tags: JsonTree)
    requires
        distinct(members),
        overpass::poi_of(JsonTree::Object(members)) is Some,
        lacks(members, "tags"@) || (has(members, "tags"@, tags) && !(tags is Object)),
    ensures
        ({
            let poi = overpass::poi_of(JsonTree::Object(members))->Some_0;
            poi.name is None && poi.opening_hours is None && poi.kind == PoiKind::Other
        }),
{
    lookup_goes_by_the_member(members, "tags"@, tags);
    lemma_empty();
}

/// The empty text is no value that is looked for.
proof fn lemma_empty()
    ensures
        ""@.len() == 0,
        "drinking_water"@.len() == 14,
        "water"@.len() == 5,
        "bar"@.len() == 3,
        "cafe"@.len() == 4,
        "pub"@.len() == 3,
        "convenience"@.len() == 11,
        "supermarket"@.len() == 11,
        "bakery"@.len() == 6,
        "pastry"@.len() == 6,
        "tobacco"@.len() == 7,
{
    reveal_strlit("");
    reveal_strlit("drinking_water");
    reveal_strlit("water");
    reveal_strlit("bar");
    reveal_strlit("cafe");
    reveal_strlit("pub");
    reveal_strlit("convenience");
    reveal_strlit("supermarket");
    reveal_strlit("bakery");
    reveal_strlit("pastry");
    reveal_strlit("tobacco");
}

/// Whether the tag with a key is a text.
pub open spec fn tagged(
    tags: Seq<(Seq<char>, JsonTree)>,
    key: Seq<char>,
    value: Seq<char>,
) -> bool {
    has(tags, key, JsonTree::Str(value))
}

/// What `lookup` finds as a text is what the tags have.
proof fn lemma_tagged(tags: Seq<(Seq<char>, JsonTree)>, key: Seq<char>, value: Seq<char>)
    requires
        distinct(tags),
        value.len() > 0,
    ensures
        overpass::text_or_empty(json::text_under(tags, key)) == value <==> tagged(tags, key, value),
{
    lemma_empty();
    lookup_goes_by_the_member(tags, key, JsonTree::Str(value));
}

/// Whether the tags say that there is water to drink.
pub open spec fn has_water(tags: Seq<(Seq<char>, JsonTree)>) -> bool {
    tagged(tags, "amenity"@, "drinking_water"@) || tagged(tags, "shop"@, "water"@)
}

/// Whether the tags say that there are drinks.
pub open spec fn has_drinks(tags: Seq<(Seq<char>, JsonTree)>) -> bool {
    tagged(tags, "amenity"@, "bar"@) || tagged(tags, "amenity"@, "cafe"@) || tagged(
        tags,
        "amenity"@,
        "pub"@,
    )
}

/// The kind of a place goes by its tags `amenity` and `shop` alone, whatever
/// other tags it has: each kind has its values, and nothing else is of the kind.
pub proof fn kinds_go_by_the_tags(tags: Seq<(Seq<char>, JsonTree)>)
    requires
        distinct(tags),
    ensures
        ({
            let kind = overpass::kind_of_tags(tags);
            let rest = !has_water(tags) && !has_drinks(tags);
            &&& kind == PoiKind::Fountain <==> has_water(tags)
            &&& kind == PoiKind::Supermarket <==> rest && (tagged(tags, "shop"@, "convenience"@)
                || tagged(tags, "shop"@, "supermarket"@))
            &&& kind == PoiKind::Bakery <==> rest && (tagged(tags, "shop"@, "bakery"@) || tagged(
                tags,
                "shop"@,
                "pastry"@,
            ))
            &&& kind == PoiKind::Tobacco <==> !has_water(tags) && (has_drinks(tags) || tagged(
                tags,
                "shop"@,
                "tobacco"@,
            ))
        }),
{
    lemma_empty();
    lemma_tagged(tags, "amenity"@, "drinking_water"@);
    lemma_tagged(tags, "amenity"@, "bar"@);
    lemma_tagged(tags, "amenity"@, "cafe"@);
    lemma_tagged(tags, "amenity"@, "pub"@);
    lemma_tagged(tags, "shop"@, "water"@);
    lemma_tagged(tags, "shop"@, "convenience"@);
    lemma_tagged(tags, "shop"@, "supermarket"@);
    lemma_tagged(tags, "shop"@, "bakery"@);
    lemma_tagged(tags, "shop"@, "pastry"@);
    lemma_tagged(tags, "shop"@, "tobacco"@);
    reveal_strlit("bakery");
    reveal_strlit("pastry");
    reveal_strlit("convenience");
    reveal_strlit("supermarket");
    assert("bakery"@[0] == 'b');
    assert("pastry"@[0] == 'p');
}

/// The points of interest of two lists of elements, one behind the other, are
/// those of the one and then those of the other; so each element counts for
/// itself, as often as it is there, and they stay in their order.
pub proof fn elements_count_for_themselves(a: Seq<JsonTree>, b: Seq<JsonTree>, e: JsonTree)
    ensures
        overpass::pois_of(a + b) == overpass::pois_of(a) + overpass::pois_of(b),
        overpass::pois_of(Seq::empty()).len() == 0,
        overpass::pois_of(seq![e]) == match overpass::poi_of(e) {
            Some(poi) => seq![poi],
            None => Seq::empty(),
        },
    decreases b.len(),
{
    assert(seq![e].drop_last() == Seq::<JsonTree>::empty());
    reveal_with_fuel(overpass::pois_of, 2);
    if b.len() == 0 {
        assert(a + b == a);
        assert(overpass::pois_of(a) + overpass::pois_of(b) == overpass::pois_of(a));
    } else {
        let front = b.drop_last();
        elements_count_for_themselves(a, front, e);
        assert((a + b).drop_last() == a + front);
        assert((a + b).last() == b.last());
        match overpass::poi_of(b.last()) {
            Some(poi) => {
                assert((overpass::pois_of(a) + overpass::pois_of(front)).push(poi)
                    == overpass::pois_of(a) + overpass::pois_of(front).push(poi));
            },
            None => {},
        }
    }
}

/// The points of interest of an answer are those of its list of elements,
/// whatever other members it has; an answer without one has none.
pub proof fn answers_list_their_elements(
    members: Seq<(Seq<char>, JsonTree)>,
    elements: Seq<JsonTree>,
    other: JsonTree,
    answer: JsonTree,
)
    requires
        distinct(members),
    ensures
        has(members, "elements"@, JsonTree::Array(elements)) ==> overpass::pois_in(
            JsonTree::Object(members),
        ) == overpass::pois_of(elements),
        has(members, "elements"@, other) && !(other is Array) ==> overpass::pois_in(
            JsonTree::Object(members),
        ).len() == 0,
        lacks(members, "elements"@) ==> overpass::pois_in(JsonTree::Object(members)).len() == 0,
        !(answer is Object) ==> overpass::pois_in(answer).len() == 0,
{
    lookup_goes_by_the_member(members, "elements"@, JsonTree::Array(elements));
    lookup_goes_by_the_member(members, "elements"@, other);
}

/// The text of an answer says what the value that it writes says, and a text that
/// writes none is answered with the message for it.
pub proof fn answers_go_by_their_value(body: Seq<char>, answer: JsonTree, message: Seq<char>)
    ensures
        json::json_reading(body) == Ok::<JsonTree, Seq<char>>(answer) ==> overpass::answer_of(body)
            == Ok::<Seq<overpass::PoiView>, Seq<char>>(overpass::pois_in(answer)),
        json::json_reading(body) == Err::<JsonTree, Seq<char>>(message) ==> overpass::answer_of(
            body,
        ) == Err::<Seq<overpass::PoiView>, Seq<char>>(message),
{
}

/// The first line of every question, and what its shops are tested for.
pub open spec fn question_start() -> Seq<char> {
    "[out:json][timeout:50];\n(\n  nwr[\"shop\"~\"^(bakery|pastry|supermarket|convenience|tobacco)$\"]("@
}

/// The question to the service has the box twice, once for the shops and once for
/// the amenities, and asks for nodes, ways and relations with their tags and
/// their centre.
pub proof fn question_has_the_box_twice(bbox: Seq<char>)
    ensures
        overpass::query_text(bbox) == question_start() + bbox
            + ");\n  nwr[\"amenity\"~\"^(bar|cafe|pub|drinking_water)$\"]("@ + bbox
            + ");\n);\nout center tags;"@,
{
    lemma_shops();
    lemma_amenities();
    lemma_question();
    let a = "[out:json][timeout:50];\n(\n  nwr[\"shop\"~\"^("@;
    let b = ")$\"]("@;
    let c = ");\n  nwr[\"amenity\"~\"^("@;
    let d = ");\n);\nout center tags;"@;
    let shops = "bakery|pastry|supermarket|convenience|tobacco"@;
    let amenities = "bar|cafe|pub|drinking_water"@;
    assert(overpass::query_text(bbox) == a + shops + b + bbox + c + amenities + b + bbox + d);
    assert(a + shops + b + bbox + c + amenities + b + bbox + d == (a + shops + b) + bbox + (c
        + amenities + b) + bbox + d);
}

/// The shops that are asked for, with bars between them.
proof fn lemma_shops()
    ensures
        overpass::alternatives(overpass::queried_shops())
            == "bakery|pastry|supermarket|convenience|tobacco"@,
{
    reveal_strlit("bakery");
    reveal_strlit("pastry");
    reveal_strlit("supermarket");
    reveal_strlit("convenience");
    reveal_strlit("tobacco");
    reveal_strlit("|");
    reveal_strlit("bakery|pastry|supermarket|convenience|tobacco");
    let words = overpass::queried_shops();
    let w4 = words.drop_last();
    let w3 = w4.drop_last();
    let w2 = w3.drop_last();
    let w1 = w2.drop_last();
    assert(overpass::alternatives(w1) == "bakery"@);
    assert(overpass::alternatives(w2) == "bakery"@ + "|"@ + "pastry"@);
    assert(overpass::alternatives(w3) == "bakery"@ + "|"@ + "pastry"@ + "|"@ + "supermarket"@);
    assert(overpass::alternatives(w4) == "bakery"@ + "|"@ + "pastry"@ + "|"@ + "supermarket"@ + "|"@
        + "convenience"@);
    assert(overpass::alternatives(words) =~= "bakery|pastry|supermarket|convenience|tobacco"@);
}

/// The amenities that are asked for, with bars between them.
proof fn lemma_amenities()
    ensures
        overpass::alternatives(overpass::queried_amenities()) == "bar|cafe|pub|drinking_water"@,
{
    reveal_strlit("bar");
    reveal_strlit("cafe");
    reveal_strlit("pub");
    reveal_strlit("drinking_water");
    reveal_strlit("|");
    reveal_strlit("bar|cafe|pub|drinking_water");
    let words = overpass::queried_amenities();
    let w3 = words.drop_last();
    let w2 = w3.drop_last();
    let w1 = w2.drop_last();
    assert(overpass::alternatives(w1) == "bar"@);
    assert(overpass::alternatives(w2) == "bar"@ + "|"@ + "cafe"@);
    assert(overpass::alternatives(w3) == "bar"@ + "|"@ + "cafe"@ + "|"@ + "pub"@);
    assert(overpass::alternatives(words) =~= "bar|cafe|pub|drinking_water"@);
}

/// The fixed parts of the question.
proof fn lemma_question()
    ensures
        question_start() == "[out:json][timeout:50];\n(\n  nwr[\"shop\"~\"^("@
            + "bakery|pastry|supermarket|convenience|tobacco"@ + ")$\"]("@,
        ");\n  nwr[\"amenity\"~\"^(bar|cafe|pub|drinking_water)$\"]("@
            == ");\n  nwr[\"amenity\"~\"^("@ + "bar|cafe|pub|drinking_water"@ + ")$\"]("@,
{
    reveal_strlit(
        "[out:json][timeout:50];\n(\n  nwr[\"shop\"~\"^(bakery|pastry|supermarket|convenience|tobacco)$\"](",
    );
    reveal_strlit("[out:json][timeout:50];\n(\n  nwr[\"shop\"~\"^(");
    reveal_strlit("bakery|pastry|supermarket|convenience|tobacco");
    reveal_strlit(")$\"](");
    reveal_strlit(");\n  nwr[\"amenity\"~\"^(bar|cafe|pub|drinking_water)$\"](");
    reveal_strlit(");\n  nwr[\"amenity\"~\"^(");
    reveal_strlit("bar|cafe|pub|drinking_water");
    assert(question_start() =~= "[out:json][timeout:50];\n(\n  nwr[\"shop\"~\"^("@
        + "bakery|pastry|supermarket|convenience|tobacco"@ + ")$\"]("@);
    assert(");\n  nwr[\"amenity\"~\"^(bar|cafe|pub|drinking_water)$\"]("@
        =~= ");\n  nwr[\"amenity\"~\"^("@ + "bar|cafe|pub|drinking_water"@ + ")$\"]("@);
}

/// The key of a box is the box behind the mark of this form of the cache, so that
/// two boxes share a row only where they are the same.
pub proof fn keys_have_the_box_behind_a_mark(bbox: Seq<char>)
    ensures
        overpass::key_text(bbox) == seq!['v', '1', '|'] + bbox,
{
    reveal_strlit("v1|");
    assert("v1|"@ == seq!['v', '1', '|']);
}

/// The four sides of a box are written with commas between them, the south and
/// the west before the north and the east, and can be told apart again.
pub proof fn boxes_list_their_sides(
    south: Seq<char>,
    west: Seq<char>,
    north: Seq<char>,
    east: Seq<char>,
)
    requires
        text::free_of(south, ','),
        text::free_of(west, ','),
        text::free_of(north, ','),
        text::free_of(east, ','),
    ensures
        text::parts(overpass::box_text(south, west, north, east), ',') == seq![
            south,
            west,
            north,
            east,
        ],
{
    reveal_strlit(",");
    assert(","@ =~= seq![',']);
    let last = north + seq![','] + east;
    let rest = west + seq![','] + last;
    lemma_box(south, west, north, east);
    text::one_part(east, ',');
    text::first_part(north, ',', east);
    text::first_part(west, ',', last);
    text::first_part(south, ',', rest);
    lemma_four(south, west, north, east);
}

/// The sides of a box, from the first on.
proof fn lemma_box(south: Seq<char>, west: Seq<char>, north: Seq<char>, east: Seq<char>)
    requires
        ","@ == seq![','],
    ensures
        overpass::box_text(south, west, north, east) == south + seq![','] + (west + seq![','] + (
        north + seq![','] + east)),
{
    assert(overpass::box_text(south, west, north, east) =~= south + seq![','] + (west + seq![',']
        + (north + seq![','] + east)));
}

/// Four texts, one after the other.
proof fn lemma_four(a: Seq<char>, b: Seq<char>, c: Seq<char>, d: Seq<char>)
    ensures
        seq![a] + (seq![b] + (seq![c] + seq![d])) == seq![a, b, c, d],
{
    assert(seq![a] + (seq![b] + (seq![c] + seq![d])) =~= seq![a, b, c, d]);
}

} // verus!
