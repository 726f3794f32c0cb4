//! What is said of a value is what it holds: laws of the views that the contracts
//! speak of.

use crate::gpx_parse;
use crate::gpx_parse::{GpxDoc, RawPoint, TrackError};
use crate::handlers;
use crate::handlers::{PoiOut, Rejection, Ride};
use crate::json;
use crate::json::Json;
use crate::lookup;
use crate::lookup::{Action, CacheRow, Event, Search};
use crate::overpass;
use crate::overpass::Poi;
use vstd::prelude::*;

verus! {

/// A text that is there is seen, and one that is missing is not.
pub proof fn texts_are_seen(s: String)
    ensures
        overpass::opt_text(Some(s)) == Some(s@),
        overpass::opt_text(None) is None,
{
}

/// A stop shows each of its fields.
pub proof fn stops_are_seen(p: PoiOut)
    ensures
        p@.km == p.km,
        p@.detour_m == p.detour_m,
        p@.kind == p.kind@,
        p@.lat == p.lat,
        p@.lon == p.lon,
        p@.name is Some <==> p.name is Some,
        p.name is Some ==> p@.name == Some(p.name->Some_0@),
        p@.opening_hours is Some <==> p.opening_hours is Some,
        p.opening_hours is Some ==> p@.opening_hours == Some(p.opening_hours->Some_0@),
        p@.status_at_eta == p.status_at_eta@,
        p@.eta_unix == p.eta_unix,
{
}

/// A point of interest shows each of its fields.
pub proof fn pois_are_seen(p: Poi)
    ensures
        p@.osm_id == p.osm_id,
        p@.kind == p.kind,
        p@.lat == p.lat,
        p@.lon == p.lon,
        p@.name is Some <==> p.name is Some,
        p.name is Some ==> p@.name == Some(p.name->Some_0@),
        p@.opening_hours is Some <==> p.opening_hours is Some,
        p.opening_hours is Some ==> p@.opening_hours == Some(p.opening_hours->Some_0@),
{
}

/// A list shows each of its members, in its place.
pub proof fn lists_are_seen(
    pois: Seq<Poi>,
    stops: Seq<PoiOut>,
    words: Seq<String>,
    entries: Seq<(String, Json)>,
    i: int,
)
    ensures
        overpass::pois_view(pois).len() == pois.len(),
        0 <= i < pois.len() ==> overpass::pois_view(pois)[i] == pois[i]@,
        handlers::stops_view(stops).len() == stops.len(),
        0 <= i < stops.len() ==> handlers::stops_view(stops)[i] == stops[i]@,
        handlers::strings(words).len() == words.len(),
        0 <= i < words.len() ==> handlers::strings(words)[i] == words[i]@,
        json::entries_view(entries).len() == entries.len(),
        0 <= i < entries.len() ==> json::entries_view(entries)[i] == (entries[i].0@, entries[i].1@),
{
}

/// A ride shows each of its fields, and a plan what came of it.
pub proof fn rides_are_seen(
    ride: Ride,
    rejection: Rejection,
    points: Vec<RawPoint>,
    e: TrackError,
    unix: i64,
    message: String,
)
    ensures
        ride@.raw == ride.raw@,
        ride@.start_unix == ride.start_unix,
        ride@.speed_kmh == ride.speed_kmh,
        ride@.corridor_m == ride.corridor_m,
        ride@.kinds is Some <==> ride.kinds is Some,
        ride.kinds is Some ==> ride@.kinds == Some(handlers::strings(ride.kinds->Some_0@)),
        handlers::plan_view(Ok(ride)) == Ok::<handlers::RideView, handlers::RejectionView>(ride@),
        handlers::plan_view(Err(rejection)) == Err::<handlers::RideView, handlers::RejectionView>(
            rejection@,
        ),
        handlers::route_view(Ok(points)) == Ok::<Seq<RawPoint>, TrackError>(points@),
        handlers::route_view(Err(e)) == Err::<Seq<RawPoint>, TrackError>(e),
        handlers::start_view(Ok(unix)) == Ok::<i64, Seq<char>>(unix),
        handlers::start_view(Err(message)) == Err::<i64, Seq<char>>(message@),
        Rejection::BadRequest(message)@ == handlers::RejectionView::BadRequest(message@),
        Rejection::BadGateway(message)@ == handlers::RejectionView::BadGateway(message@),
{
}

/// A JSON value shows what it is, and an array or an object each of its members.
pub proof fn values_are_seen(items: Vec<Json>, entries: Vec<(String, Json)>, s: String, i: int)
    ensures
        Json::Null@ == json::JsonTree::Null,
        Json::Str(s)@ == json::JsonTree::Str(s@),
        Json::Array(items)@ is Array,
        Json::Array(items)@->Array_0.len() == items@.len(),
        0 <= i < items@.len() ==> Json::Array(items)@->Array_0[i] == items@[i]@,
        Json::Object(entries)@ is Object,
        Json::Object(entries)@->Object_0.len() == entries@.len(),
        0 <= i < entries@.len() ==> Json::Object(entries)@->Object_0[i] == (
            entries@[i].0@,
            entries@[i].1@,
        ),
{
}

/// A document shows each of its points, in its segment of its track or in its
/// route.
pub proof fn documents_are_seen(doc: GpxDoc, i: int, j: int)
    ensures
        doc@.tracks.len() == doc.tracks@.len(),
        0 <= i < doc.tracks@.len() ==> doc@.tracks[i].len() == doc.tracks@[i]@.len(),
        0 <= i < doc.tracks@.len() && 0 <= j < doc.tracks@[i]@.len() ==> doc@.tracks[i][j]
            == doc.tracks@[i]@[j]@,
        doc@.routes.len() == doc.routes@.len(),
        0 <= i < doc.routes@.len() ==> doc@.routes[i] == doc.routes@[i]@,
{
}

/// A search, its events and its actions show what they hold.
pub proof fn searches_are_seen(
    key: String,
    bbox: String,
    now: i64,
    row: CacheRow,
    pois: Vec<Poi>,
)
    ensures
        row@.payload == row.payload@,
        row@.fetched_at == row.fetched_at,
        lookup::opt_row(Some(row)) == Some(row@),
        lookup::opt_row(None) is None,
        (Search::Reading { key, bbox, now })@ == (lookup::SearchView::Reading {
            key: key@,
            bbox: bbox@,
            now,
        }),
        (Search::Fetching { key, now })@ == (lookup::SearchView::Fetching { key: key@, now }),
        (Search::Storing { payload: key })@ == (lookup::SearchView::Storing { payload: key@ }),
        Search::Finished@ == lookup::SearchView::Finished,
        Event::Row(Some(row))@ == lookup::EventView::Row(Some(row@)),
        Event::Row(None)@ == lookup::EventView::Row(None),
        Event::Body(key)@ == lookup::EventView::Body(key@),
        Event::Stored@ == lookup::EventView::Stored,
        Event::Failed(key)@ == lookup::EventView::Failed(key@),
        (Action::Read { key })@ == (lookup::ActionView::Read { key: key@ }),
        (Action::Post { query: key })@ == (lookup::ActionView::Post { query: key@ }),
        (Action::Store { key, row })@ == (lookup::ActionView::Store { key: key@, row: row@ }),
        Action::Wait@ == lookup::ActionView::Wait,
        lookup::outcome_view(Ok(pois)) == Ok::<Seq<overpass::PoiView>, Seq<char>>(
            overpass::pois_view(pois@),
        ),
        lookup::outcome_view(Err(key)) == Err::<Seq<overpass::PoiView>, Seq<char>>(key@),
        (Action::Finish { outcome: Ok(pois) })@ == (lookup::ActionView::Finish {
            outcome: Ok(overpass::pois_view(pois@)),
        }),
{
}

/// A document that can be read gives its route, and one that cannot is malformed.
pub proof fn documents_give_their_routes(document: Seq<u8>, doc: gpx_parse::GpxTree)
    ensures
        gpx_parse::gpx_reading(document) == Some(doc) ==> handlers::route_in(document)
            == gpx_parse::route_of(doc),
        gpx_parse::gpx_reading(document) is None ==> handlers::route_in(document) == Err::<
            Seq<RawPoint>,
            TrackError,
        >(TrackError::Malformed),
{
}

/// An analysis shows each of its fields.
pub proof fn analyses_are_seen(resp: handlers::AnalyzeResp)
    ensures
        resp@.total_km == resp.total_km,
        resp@.start_unix == resp.start_unix,
        resp@.speed_kmh == resp.speed_kmh,
        resp@.corridor_m == resp.corridor_m,
        resp@.pois == handlers::stops_view(resp.pois@),
        resp@.route == resp.route@,
{
}

} // verus!
