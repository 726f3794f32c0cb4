//! The analysis of a ride: which stops are on the way, when the rider gets to
//! them, and whether they are open then.

use crate::binary64::Binary64;
use crate::clock;
use crate::clock::LocalTime;
use crate::gpx_parse;
use crate::gpx_parse::{KmSample, RawPoint, TrackError};
use crate::gpx_times;
use crate::hours;
use crate::hours::Openness;
use crate::overpass;
use crate::overpass::{Poi, PoiView};
use crate::text;
use vstd::prelude::*;

verus! {

/// The speed of a rider who names none: 22 km/h.
pub const DEFAULT_SPEED: u64 = 0x4036_0000_0000_0000;

/// The least speed that is reckoned with: 5 km/h.
pub const MIN_SPEED: u64 = 0x4014_0000_0000_0000;

/// How far from the route a stop is still on the way, where a request does not
/// say: 120 m, a reasonable detour for a bakery.
pub const DEFAULT_CORRIDOR: u64 = 0x405e_0000_0000_0000;

/// The narrowest corridor: 20 m.
pub const MIN_CORRIDOR: u64 = 0x4034_0000_0000_0000;

/// The widest corridor: 2000 m.
pub const MAX_CORRIDOR: u64 = 0x409f_4000_0000_0000;

/// A request for an analysis.
#[derive(Debug)]
pub struct AnalyzeReq {
    /// The text of a GPX document.
    pub gpx: String,
    /// When the ride starts, in the format of RFC 3339; now, where it is missing.
    pub start: Option<String>,
    /// The speed of the rider.
    pub speed_kmh: Option<Binary64>,
    /// How far from the route a stop is still on the way.
    pub corridor_m: Option<Binary64>,
    /// The kinds of stops that are asked for; all, where it is missing.
    pub kinds: Option<Vec<String>>,
}

/// A stop on the way.
#[derive(Debug)]
pub struct PoiOut {
    pub km: Binary64,
    pub detour_m: Binary64,
    pub kind: String,
    pub lat: Binary64,
    pub lon: Binary64,
    pub name: Option<String>,
    pub opening_hours: Option<String>,
    /// `open`, `closed` or `unknown` when the rider gets there.
    pub status_at_eta: String,
    pub eta_unix: i64,
}

/// What a stop on the way is.
pub ghost struct StopView {
    pub km: Binary64,
    pub detour_m: Binary64,
    pub kind: Seq<char>,
    pub lat: Binary64,
    pub lon: Binary64,
    pub name: Option<Seq<char>>,
    pub opening_hours: Option<Seq<char>>,
    pub status_at_eta: Seq<char>,
    pub eta_unix: int,
}

impl View for PoiOut {
    type V = StopView;

    open spec fn view(&self) -> StopView {
        StopView {
            km: self.km,
            detour_m: self.detour_m,
            kind: self.kind@,
            lat: self.lat,
            lon: self.lon,
            name: overpass::opt_text(self.name),
            opening_hours: overpass::opt_text(self.opening_hours),
            status_at_eta: self.status_at_eta@,
            eta_unix: self.eta_unix as int,
        }
    }
}

/// What the stops in a list are.
pub open spec fn stops_view(stops: Seq<PoiOut>) -> Seq<StopView> {
    Seq::new(stops.len(), |i: int| stops[i]@)
}

/// An analysis.
#[derive(Debug)]
pub struct AnalyzeResp {
    pub total_km: Binary64,
    pub start_unix: i64,
    pub speed_kmh: Binary64,
    pub corridor_m: Binary64,
    pub pois: Vec<PoiOut>,
    pub route: Vec<KmSample>,
}

/// A refusal of a request, with a message for the client.
#[derive(Debug)]
pub enum Rejection {
    /// The request cannot be read.
    BadRequest(String),
    /// The cache or the service failed.
    BadGateway(String),
}

/// What a refusal is.
pub ghost enum RejectionView {
    BadRequest(Seq<char>),
    BadGateway(Seq<char>),
}

impl View for Rejection {
    type V = RejectionView;

    open spec fn view(&self) -> RejectionView {
        match *self {
            Rejection::BadRequest(message) => RejectionView::BadRequest(message@),
            Rejection::BadGateway(message) => RejectionView::BadGateway(message@),
        }
    }
}

/// A ride that a request describes.
#[derive(Debug)]
pub struct Ride {
    pub raw: Vec<RawPoint>,
    pub start_unix: i64,
    pub speed_kmh: Binary64,
    pub corridor_m: Binary64,
    pub kinds: Option<Vec<String>>,
}

/// What a ride is.
pub ghost struct RideView {
    pub raw: Seq<RawPoint>,
    pub start_unix: i64,
    pub speed_kmh: Binary64,
    pub corridor_m: Binary64,
    pub kinds: Option<Seq<Seq<char>>>,
}

/// The texts of strings.
pub open spec fn strings(v: Seq<String>) -> Seq<Seq<char>> {
    Seq::new(v.len(), |i: int| v[i]@)
}

/// The texts of an optional list of strings.
pub open spec fn opt_strings(v: Option<Vec<String>>) -> Option<Seq<Seq<char>>> {
    match v {
        Some(list) => Some(strings(list@)),
        None => None,
    }
}

impl View for Ride {
    type V = RideView;

    open spec fn view(&self) -> RideView {
        RideView {
            raw: self.raw@,
            start_unix: self.start_unix,
            speed_kmh: self.speed_kmh,
            corridor_m: self.corridor_m,
            kinds: opt_strings(self.kinds),
        }
    }
}

/// The speed that is reckoned with.
pub open spec fn speed_of(asked: Option<Binary64>) -> Binary64 {
    match asked {
        Some(v) => v.larger(Binary64 { bits: MIN_SPEED }),
        None => (Binary64 { bits: DEFAULT_SPEED }).larger(Binary64 { bits: MIN_SPEED }),
    }
}

/// The corridor that is reckoned with.
pub open spec fn corridor_of(asked: Option<Binary64>) -> Binary64 {
    let corridor = match asked {
        Some(v) => v,
        None => Binary64 { bits: DEFAULT_CORRIDOR },
    };
    corridor.clamped(Binary64 { bits: MIN_CORRIDOR }, Binary64 { bits: MAX_CORRIDOR })
}

/// When a ride starts: at the instant that the request writes, or now.
pub open spec fn start_of(asked: Option<Seq<char>>, now: i64) -> Result<i64, Seq<char>> {
    match asked {
        Some(written) => clock::rfc3339_reading(written),
        None => Ok(now),
    }
}

/// The ride that a request describes, once its document and its start are read.
/// A document that gives no route is reported before a start that is wrong.
pub open spec fn ride_of(
    route: Result<Seq<RawPoint>, TrackError>,
    start: Result<i64, Seq<char>>,
    speed_kmh: Option<Binary64>,
    corridor_m: Option<Binary64>,
    kinds: Option<Seq<Seq<char>>>,
) -> Result<RideView, RejectionView> {
    match route {
        Err(e) => Err(RejectionView::BadRequest("gpx: "@ + e.text())),
        Ok(raw) => match start {
            Err(message) => Err(RejectionView::BadRequest("start: "@ + message)),
            Ok(start_unix) => Ok(
                RideView {
                    raw,
                    start_unix,
                    speed_kmh: speed_of(speed_kmh),
                    corridor_m: corridor_of(corridor_m),
                    kinds,
                },
            ),
        },
    }
}

/// What the outcome of reading a route is.
pub open spec fn route_view(route: Result<Vec<RawPoint>, TrackError>) -> Result<
    Seq<RawPoint>,
    TrackError,
> {
    match route {
        Ok(points) => Ok(points@),
        Err(e) => Err(e),
    }
}

/// What the outcome of reading a start is.
pub open spec fn start_view(start: Result<i64, String>) -> Result<i64, Seq<char>> {
    match start {
        Ok(unix) => Ok(unix),
        Err(message) => Err(message@),
    }
}

/// What the outcome of planning a ride is.
pub open spec fn plan_view(plan: Result<Ride, Rejection>) -> Result<RideView, RejectionView> {
    match plan {
        Ok(ride) => Ok(ride@),
        Err(rejection) => Err(rejection@),
    }
}

/// The route in the text of a document.
pub open spec fn route_in(document: Seq<u8>) -> Result<Seq<RawPoint>, TrackError> {
    match gpx_parse::gpx_reading(document) {
        Some(doc) => gpx_parse::route_of(doc),
        None => Err(TrackError::Malformed),
    }
}

/// `head` and `tail`, one after the other.
fn joined_text(head: &str, tail: &str) -> (all: String)
    ensures
        all@ == head@ + tail@,
{
    let mut all: String = head.to_owned();
    all.append(tail);
    all
}

/// The refusal of a request for which the points of interest could not be had.
pub open spec fn gateway_refusal(message: Seq<char>) -> RejectionView {
    RejectionView::BadGateway("overpass: "@ + message)
}

/// The refusal of a request for which the points of interest could not be had.
pub fn gateway_error(message: &str) -> (rejection: Rejection)
    ensures
        rejection@ == gateway_refusal(message@),
        rejection@ == RejectionView::BadGateway("overpass: "@ + message@),
{
    Rejection::BadGateway(joined_text("overpass: ", message))
}

/// When a ride starts: at the instant that the request writes, or at `now`.
pub fn read_start(asked: &Option<String>, now: i64) -> (start: Result<i64, String>)
    ensures
        start_view(start) == start_of(overpass::opt_text(*asked), now),
        asked is Some && start is Ok ==> clock::representable(start->Ok_0 as int),
{
    match asked {
        Some(written) => clock::parse_rfc3339(written.as_str()),
        None => Ok(now),
    }
}

/// The ride that a request describes, once its document and its start are read.
pub fn settle_ride(
    route: Result<Vec<RawPoint>, TrackError>,
    start: Result<i64, String>,
    req: AnalyzeReq,
) -> (plan: Result<Ride, Rejection>)
    ensures
        plan_view(plan) == ride_of(
            route_view(route),
            start_view(start),
            req.speed_kmh,
            req.corridor_m,
            opt_strings(req.kinds),
        ),
{
    match route {
        Err(e) => Err(Rejection::BadRequest(joined_text("gpx: ", e.message()))),
        Ok(raw) => match start {
            Err(message) => Err(Rejection::BadRequest(joined_text("start: ", message.as_str()))),
            Ok(start_unix) => {
                let speed: Binary64 = match req.speed_kmh {
                    Some(v) => v,
                    None => Binary64 { bits: DEFAULT_SPEED },
                };
                let corridor: Binary64 = match req.corridor_m {
                    Some(v) => v,
                    None => Binary64 { bits: DEFAULT_CORRIDOR },
                };
                Ok(
                    Ride {
                        raw,
                        start_unix,
                        speed_kmh: speed.max(Binary64 { bits: MIN_SPEED }),
                        corridor_m: corridor.clamp(
                            Binary64 { bits: MIN_CORRIDOR },
                            Binary64 { bits: MAX_CORRIDOR },
                        ),
                        kinds: req.kinds,
                    },
                )
            },
        },
    }
}

/// The ride that a request describes, by its members, where it is now `now`.
pub open spec fn plan_of(
    gpx: Seq<char>,
    start: Option<Seq<char>>,
    speed_kmh: Option<Binary64>,
    corridor_m: Option<Binary64>,
    kinds: Option<Seq<Seq<char>>>,
    now: i64,
) -> Result<RideView, RejectionView> {
    ride_of(
        route_in(vstd::utf8::encode_utf8(gpx)),
        start_of(start, now),
        speed_kmh,
        corridor_m,
        kinds,
    )
}

/// The ride that a request describes, where it is now `now`.
pub fn plan_ride(req: AnalyzeReq, now: i64) -> (plan: Result<Ride, Rejection>)
    requires
        gpx_times::times_plain(vstd::utf8::encode_utf8(req.gpx@)),
    ensures
        plan_view(plan) == plan_of(
            req.gpx@,
            overpass::opt_text(req.start),
            req.speed_kmh,
            req.corridor_m,
            opt_strings(req.kinds),
            now,
        ),
        plan_view(plan) == ride_of(
            route_in(vstd::utf8::encode_utf8(req.gpx@)),
            start_of(overpass::opt_text(req.start), now),
            req.speed_kmh,
            req.corridor_m,
            opt_strings(req.kinds),
        ),
        plan is Ok && (req.start is Some || clock::representable(now as int))
            ==> clock::representable(plan->Ok_0.start_unix as int),
{
    let route: Result<Vec<RawPoint>, TrackError> = gpx_parse::parse_track(
        req.gpx.as_str().as_bytes(),
    );
    let start: Result<i64, String> = read_start(&req.start, now);
    settle_ride(route, start, req)
}

/// Where a stop lies: how far along the route, how far from it, and how long the
/// rider takes to get there.
#[derive(Clone, Copy, Debug, PartialEq, Eq, Structural)]
pub struct Placement {
    pub km: Binary64,
    pub detour_m: Binary64,
    pub travel_seconds: i64,
}

/// Whether one of the words is a name of a kind, in capitals or not.
pub open spec fn names_kind(words: Seq<Seq<char>>, kind: overpass::PoiKind) -> bool {
    exists|i: int| 0 <= i < words.len() && text::lower_case_is(#[trigger] words[i], kind.name())
}

/// Whether a kind is among those that are asked for.
pub open spec fn wanted(kinds: Option<Seq<Seq<char>>>, kind: overpass::PoiKind) -> bool {
    match kinds {
        Some(words) => names_kind(words, kind),
        None => true,
    }
}

/// Whether a point of interest is a stop on the way: not beyond the corridor, and
/// of a kind that is asked for.
pub open spec fn on_the_way(ride: RideView, poi: PoiView, place: Placement) -> bool {
    !ride.corridor_m.below(place.detour_m) && wanted(ride.kinds, poi.kind)
}

/// The word for what is known of a stop.
pub open spec fn status_word(openness: Openness) -> Seq<char> {
    match openness {
        Openness::Open => "open"@,
        Openness::Closed => "closed"@,
        Openness::Unknown => "unknown"@,
    }
}

/// What is known of a stop at an instant: nothing, where it has no opening hours.
pub open spec fn status_of(opening_hours: Option<Seq<char>>, unix: int) -> Openness {
    match opening_hours {
        Some(h) => hours::openness(
            h,
            clock::utc_reading(unix).weekday,
            clock::utc_reading(unix).minute_of_day(),
        ),
        None => Openness::Unknown,
    }
}

/// The stop that a point of interest is for a ride.
pub open spec fn stop_of(ride: RideView, poi: PoiView, place: Placement) -> StopView {
    let eta = ride.start_unix + place.travel_seconds;
    StopView {
        km: place.km,
        detour_m: place.detour_m,
        kind: poi.kind.name(),
        lat: poi.lat,
        lon: poi.lon,
        name: poi.name,
        opening_hours: poi.opening_hours,
        status_at_eta: status_word(status_of(poi.opening_hours, eta)),
        eta_unix: eta,
    }
}

/// The stops on the way, in the order of the points of interest.
pub open spec fn stops_on_the_way(
    ride: RideView,
    pois: Seq<PoiView>,
    places: Seq<Placement>,
) -> Seq<StopView>
    decreases pois.len(),
{
    if pois.len() == 0 {
        Seq::empty()
    } else {
        let front = stops_on_the_way(ride, pois.drop_last(), places);
        let place = places[pois.len() - 1];
        if on_the_way(ride, pois.last(), place) {
            front.push(stop_of(ride, pois.last(), place))
        } else {
            front
        }
    }
}

/// A list with a stop put in behind every stop that is not further along.
pub open spec fn insert_by_km(sorted: Seq<StopView>, stop: StopView) -> Seq<StopView>
    decreases sorted.len(),
{
    if sorted.len() == 0 || !stop.km.below(sorted.last().km) {
        sorted.push(stop)
    } else {
        insert_by_km(sorted.drop_last(), stop).push(sorted.last())
    }
}

/// The stops in the order in which the rider gets to them; those at the same
/// distance stay in their order.
pub open spec fn by_km(stops: Seq<StopView>) -> Seq<StopView>
    decreases stops.len(),
{
    if stops.len() == 0 {
        Seq::empty()
    } else {
        insert_by_km(by_km(stops.drop_last()), stops.last())
    }
}

/// Whether the rider gets to every stop on the way at an instant that can be
/// represented.
pub open spec fn etas_representable(
    ride: RideView,
    pois: Seq<PoiView>,
    places: Seq<Placement>,
) -> bool {
    forall|i: int|
        0 <= i < pois.len() && on_the_way(ride, #[trigger] pois[i], places[i]) ==> clock::eta_fits(
            ride.start_unix as int,
            places[i].travel_seconds as int,
        )
}

/// The length of a route, from the distances of its points along it.
pub open spec fn length_of(cum: Seq<Binary64>) -> Binary64 {
    if cum.len() > 0 {
        cum.last()
    } else {
        Binary64 { bits: 0 }
    }
}

/// A copy of an optional text.
fn copy_text(s: &Option<String>) -> (t: Option<String>)
    ensures
        overpass::opt_text(t) == overpass::opt_text(*s),
{
    match s {
        Some(x) => Some(x.clone()),
        None => None,
    }
}

/// Whether a kind is among those that are asked for.
fn is_wanted(kinds: &Option<Vec<String>>, kind: overpass::PoiKind) -> (yes: bool)
    ensures
        yes == wanted(opt_strings(*kinds), kind),
{
    match kinds {
        None => true,
        Some(list) => {
            let name: &str = kind.as_str();
            let ghost all = strings(list@);
            let mut i: usize = 0;
            while i < list.len()
                invariant
                    i <= list@.len(),
                    all == strings(list@),
                    opt_strings(*kinds) == Some(all),
                    name@ == kind.name(),
                    forall|j: int|
                        0 <= j < i ==> !text::lower_case_is(#[trigger] all[j], kind.name()),
                decreases list@.len() - i,
            {
                if text::is_lower_case(list[i].as_str(), name) {
                    assert(text::lower_case_is(all[i as int], kind.name()));
                    assert(names_kind(all, kind));
                    return true;
                }
                i += 1;
            }
            false
        },
    }
}

/// Whether a point of interest is a stop on the way.
pub fn is_on_the_way(ride: &Ride, poi: &Poi, place: Placement) -> (yes: bool)
    ensures
        yes == on_the_way(ride@, poi@, place),
{
    !ride.corridor_m.lt(place.detour_m) && is_wanted(&ride.kinds, poi.kind)
}

/// Whether the rider gets to every stop on the way at an instant that can be
/// represented.
pub fn has_etas(ride: &Ride, pois: &Vec<Poi>, places: &Vec<Placement>) -> (yes: bool)
    requires
        pois@.len() == places@.len(),
    ensures
        yes == etas_representable(ride@, overpass::pois_view(pois@), places@),
{
    let ghost all = overpass::pois_view(pois@);
    let mut i: usize = 0;
    while i < pois.len()
        invariant
            i <= pois@.len() == places@.len(),
            all == overpass::pois_view(pois@),
            forall|j: int|
                0 <= j < i && on_the_way(ride@, #[trigger] all[j], places@[j]) ==> clock::eta_fits(
                    ride@.start_unix as int,
                    places@[j].travel_seconds as int,
                ),
        decreases pois@.len() - i,
    {
        if is_on_the_way(ride, &pois[i], places[i]) && !clock::has_eta(
            ride.start_unix,
            places[i].travel_seconds,
        ) {
            assert(on_the_way(ride@, all[i as int], places@[i as int]));
            return false;
        }
        assert(all[i as int] == pois@[i as int]@);
        i += 1;
    }
    true
}

/// The word for what is known of a stop at an instant.
pub fn status_at_eta(opening_hours: &Option<String>, eta: i64) -> (word: &'static str)
    requires
        clock::representable(eta as int),
    ensures
        word@ == status_word(status_of(overpass::opt_text(*opening_hours), eta as int)),
{
    match opening_hours {
        Some(h) => match hours::status_at(h.as_str(), &LocalTime::utc(eta)) {
            Openness::Open => "open",
            Openness::Closed => "closed",
            Openness::Unknown => "unknown",
        },
        None => "unknown",
    }
}

/// The stop that a point of interest is for a ride.
pub fn make_stop(ride: &Ride, poi: &Poi, place: Placement) -> (stop: PoiOut)
    requires
        clock::eta_fits(ride.start_unix as int, place.travel_seconds as int),
    ensures
        stop@ == stop_of(ride@, poi@, place),
{
    let eta: i64 = clock::eta_unix(ride.start_unix, place.travel_seconds);
    PoiOut {
        km: place.km,
        detour_m: place.detour_m,
        kind: poi.kind.as_str().to_owned(),
        lat: poi.lat,
        lon: poi.lon,
        name: copy_text(&poi.name),
        opening_hours: copy_text(&poi.opening_hours),
        status_at_eta: status_at_eta(&poi.opening_hours, eta).to_owned(),
        eta_unix: eta,
    }
}

/// Where [`insert_by_km`] puts a stop in.
proof fn lemma_insert_position(sorted: Seq<StopView>, stop: StopView, at: int)
    requires
        0 <= at <= sorted.len(),
        forall|j: int| at <= j < sorted.len() ==> stop.km.below((#[trigger] sorted[j]).km),
        at > 0 ==> !stop.km.below(sorted[at - 1].km),
    ensures
        insert_by_km(sorted, stop) == sorted.insert(at, stop),
    decreases sorted.len(),
{
    if at == sorted.len() {
        assert(sorted.insert(at, stop) =~= sorted.push(stop));
    } else {
        let front = sorted.drop_last();
        assert(stop.km.below(sorted[sorted.len() - 1].km));
        lemma_insert_position(front, stop, at);
        assert(sorted.insert(at, stop) =~= front.insert(at, stop).push(sorted.last()));
    }
}

/// Puts a stop in behind every stop that is not further along.
fn insert_stop(sorted: &mut Vec<PoiOut>, stop: PoiOut)
    ensures
        stops_view(final(sorted)@) == insert_by_km(stops_view(old(sorted)@), stop@),
{
    let ghost all = stops_view(sorted@);
    let ghost before = sorted@;
    let mut at: usize = sorted.len();
    while at > 0 && stop.km.lt(sorted[at - 1].km)
        invariant
            at <= sorted@.len(),
            sorted@ == before,
            all == stops_view(sorted@),
            forall|j: int| at <= j < all.len() ==> stop.km.below((#[trigger] all[j]).km),
        decreases at,
    {
        at -= 1;
    }
    proof {
        lemma_insert_position(all, stop@, at as int);
    }
    sorted.insert(at, stop);
    assert(stops_view(sorted@) =~= all.insert(at as int, stop@));
}

/// The stops on the way, in the order in which the rider gets to them.
pub fn list_stops(ride: &Ride, pois: &Vec<Poi>, places: &Vec<Placement>) -> (stops: Vec<PoiOut>)
    requires
        pois@.len() == places@.len(),
        etas_representable(ride@, overpass::pois_view(pois@), places@),
    ensures
        stops_view(stops@) == by_km(
            stops_on_the_way(ride@, overpass::pois_view(pois@), places@),
        ),
{
    let ghost all = overpass::pois_view(pois@);
    let mut stops: Vec<PoiOut> = Vec::new();
    let mut i: usize = 0;
    assert(all.take(0) =~= Seq::<PoiView>::empty());
    assert(stops_view(stops@) =~= Seq::<StopView>::empty());
    while i < pois.len()
        invariant
            i <= pois@.len() == places@.len(),
            all == overpass::pois_view(pois@),
            etas_representable(ride@, all, places@),
            stops_view(stops@) == by_km(stops_on_the_way(ride@, all.take(i as int), places@)),
        decreases pois@.len() - i,
    {
        let place: Placement = places[i];
        proof {
            assert(all.take(i + 1).drop_last() =~= all.take(i as int));
            assert(all.take(i + 1).last() == pois@[i as int]@);
            assert(all[i as int] == pois@[i as int]@);
        }
        if is_on_the_way(ride, &pois[i], place) {
            let stop: PoiOut = make_stop(ride, &pois[i], place);
            let ghost so_far = stops_on_the_way(ride@, all.take(i as int), places@);
            insert_stop(&mut stops, stop);
            assert(so_far.push(stop@).drop_last() =~= so_far);
        }
        i += 1;
    }
    assert(all.take(i as int) =~= all);
    stops
}

/// What an analysis is.
pub ghost struct AnalysisView {
    pub total_km: Binary64,
    pub start_unix: int,
    pub speed_kmh: Binary64,
    pub corridor_m: Binary64,
    pub pois: Seq<StopView>,
    pub route: Seq<KmSample>,
}

impl View for AnalyzeResp {
    type V = AnalysisView;

    open spec fn view(&self) -> AnalysisView {
        AnalysisView {
            total_km: self.total_km,
            start_unix: self.start_unix as int,
            speed_kmh: self.speed_kmh,
            corridor_m: self.corridor_m,
            pois: stops_view(self.pois@),
            route: self.route@,
        }
    }
}

/// The analysis of a ride.
pub open spec fn analysis_of(
    ride: RideView,
    pois: Seq<PoiView>,
    places: Seq<Placement>,
    cum: Seq<Binary64>,
    route: Seq<KmSample>,
) -> AnalysisView {
    AnalysisView {
        total_km: length_of(cum),
        start_unix: ride.start_unix as int,
        speed_kmh: ride.speed_kmh,
        corridor_m: ride.corridor_m,
        pois: by_km(stops_on_the_way(ride, pois, places)),
        route,
    }
}

/// The analysis of a ride: its stops, with the length of its route and the route
/// itself.
pub fn finish_analysis(
    ride: &Ride,
    pois: &Vec<Poi>,
    places: &Vec<Placement>,
    cum: &[Binary64],
    route: Vec<KmSample>,
) -> (resp: AnalyzeResp)
    requires
        pois@.len() == places@.len(),
        etas_representable(ride@, overpass::pois_view(pois@), places@),
    ensures
        resp@ == analysis_of(ride@, overpass::pois_view(pois@), places@, cum@, route@),
        resp.total_km == length_of(cum@),
        resp.start_unix == ride.start_unix,
        resp.speed_kmh == ride.speed_kmh,
        resp.corridor_m == ride.corridor_m,
        stops_view(resp.pois@) == by_km(
            stops_on_the_way(ride@, overpass::pois_view(pois@), places@),
        ),
        resp.route == route,
{
    let total_km: Binary64 = if cum.len() > 0 {
        cum[cum.len() - 1]
    } else {
        Binary64 { bits: 0 }
    };
    AnalyzeResp {
        total_km,
        start_unix: ride.start_unix,
        speed_kmh: ride.speed_kmh,
        corridor_m: ride.corridor_m,
        pois: list_stops(ride, pois, places),
        route,
    }
}

/// The speed that is reckoned with is a number and at least the least speed.
pub proof fn speed_has_a_floor(asked: Option<Binary64>)
    ensures
        !speed_of(asked).nan(),
        !speed_of(asked).below(Binary64 { bits: MIN_SPEED }),
{
}

/// The corridor that is reckoned with is between the narrowest and the widest,
/// unless the request asks for one that is not a number.
pub proof fn corridor_is_bounded(asked: Option<Binary64>)
    requires
        asked is Some ==> !asked->Some_0.nan(),
    ensures
        !corridor_of(asked).nan(),
        !corridor_of(asked).below(Binary64 { bits: MIN_CORRIDOR }),
        !(Binary64 { bits: MAX_CORRIDOR }).below(corridor_of(asked)),
{
}

/// The words for what is known of a stop are three different ones.
pub proof fn status_words_differ(a: Openness, b: Openness)
    requires
        status_word(a) == status_word(b),
    ensures
        a == b,
{
    reveal_strlit("open");
    reveal_strlit("closed");
    reveal_strlit("unknown");
    assert("open"@.len() == 4);
    assert("closed"@.len() == 6);
    assert("unknown"@.len() == 7);
}

/// Every point of interest on the way is among the stops.
proof fn lemma_none_is_missing(
    ride: RideView,
    pois: Seq<PoiView>,
    places: Seq<Placement>,
    i: int,
)
    requires
        0 <= i < pois.len(),
        on_the_way(ride, pois[i], places[i]),
    ensures
        stops_on_the_way(ride, pois, places).contains(stop_of(ride, pois[i], places[i])),
    decreases pois.len(),
{
    let front = pois.drop_last();
    let s = stop_of(ride, pois[i], places[i]);
    let all = stops_on_the_way(ride, pois, places);
    let most = stops_on_the_way(ride, front, places);
    if i < front.len() {
        assert(front[i] == pois[i]);
        lemma_none_is_missing(ride, front, places, i);
        let k = choose|k: int| 0 <= k < most.len() && most[k] == s;
        assert(all[k] == s);
    } else {
        assert(all[all.len() - 1] == s);
    }
}

/// Every stop is a point of interest on the way.
proof fn lemma_none_is_added(
    ride: RideView,
    pois: Seq<PoiView>,
    places: Seq<Placement>,
    k: int,
) -> (i: int)
    requires
        0 <= k < stops_on_the_way(ride, pois, places).len(),
    ensures
        0 <= i < pois.len(),
        on_the_way(ride, pois[i], places[i]),
        stops_on_the_way(ride, pois, places)[k] == stop_of(ride, pois[i], places[i]),
    decreases pois.len(),
{
    let front = pois.drop_last();
    let most = stops_on_the_way(ride, front, places);
    if k < most.len() {
        let i = lemma_none_is_added(ride, front, places, k);
        assert(front[i] == pois[i]);
        i
    } else {
        pois.len() - 1
    }
}

/// The stops on the way are the points of interest that are not beyond the
/// corridor and of a kind that is asked for: none is missing and none is added.
pub proof fn stops_are_those_on_the_way(
    ride: RideView,
    pois: Seq<PoiView>,
    places: Seq<Placement>,
)
    ensures
        forall|i: int|
            0 <= i < pois.len() && on_the_way(ride, #[trigger] pois[i], places[i])
                ==> stops_on_the_way(ride, pois, places).contains(stop_of(ride, pois[i], places[i])),
        forall|s: StopView| #[trigger]
            stops_on_the_way(ride, pois, places).contains(s) ==> exists|i: int|
                0 <= i < pois.len() && on_the_way(ride, #[trigger] pois[i], places[i]) && s
                    == stop_of(ride, pois[i], places[i]),
{
    let all = stops_on_the_way(ride, pois, places);
    assert forall|i: int|
        0 <= i < pois.len() && on_the_way(
            ride,
            #[trigger] pois[i],
            places[i],
        ) implies all.contains(stop_of(ride, pois[i], places[i])) by {
        lemma_none_is_missing(ride, pois, places, i);
    }
    assert forall|s: StopView| #[trigger] all.contains(s) implies exists|i: int|
        0 <= i < pois.len() && on_the_way(ride, #[trigger] pois[i], places[i]) && s == stop_of(
            ride,
            pois[i],
            places[i],
        ) by {
        let k = choose|k: int| 0 <= k < all.len() && all[k] == s;
        let i = lemma_none_is_added(ride, pois, places, k);
        assert(on_the_way(ride, pois[i], places[i]));
    }
}

/// Whether each stop of a list has a distance along the route that is a number.
pub open spec fn all_placed(stops: Seq<StopView>) -> bool {
    forall|i: int| 0 <= i < stops.len() ==> !(#[trigger] stops[i]).km.nan()
}

/// Whether no stop of a list is further along the route than a later one.
pub open spec fn ascending(stops: Seq<StopView>) -> bool {
    forall|i: int, j: int|
        0 <= i < j < stops.len() ==> !(#[trigger] stops[j]).km.below((#[trigger] stops[i]).km)
}

/// What putting a stop in does to a list.
proof fn lemma_insert(sorted: Seq<StopView>, stop: StopView)
    ensures
        insert_by_km(sorted, stop).to_multiset() == sorted.to_multiset().insert(stop),
        insert_by_km(sorted, stop).len() == sorted.len() + 1,
        all_placed(sorted) && !stop.km.nan() ==> all_placed(insert_by_km(sorted, stop)),
        all_placed(sorted) && !stop.km.nan() && ascending(sorted) ==> ascending(
            insert_by_km(sorted, stop),
        ),
    decreases sorted.len(),
{
    broadcast use vstd::seq_lib::group_to_multiset_ensures;

    let all = insert_by_km(sorted, stop);
    if sorted.len() == 0 || !stop.km.below(sorted.last().km) {
        assert(all == sorted.push(stop));
        if all_placed(sorted) && !stop.km.nan() && ascending(sorted) {
            assert forall|i: int, j: int| 0 <= i < j < all.len() implies !(#[trigger] all[j])
                .km.below((#[trigger] all[i]).km) by {
                if j == sorted.len() {
                    assert(!sorted[sorted.len() - 1].km.nan());
                    assert(!sorted[i].km.nan());
                    if i < sorted.len() - 1 {
                        assert(!sorted[sorted.len() - 1].km.below(sorted[i].km));
                    }
                }
            }
        }
    } else {
        let front = sorted.drop_last();
        lemma_insert(front, stop);
        assert(sorted =~= front.push(sorted.last()));
        let part = insert_by_km(front, stop);
        assert(all == part.push(sorted.last()));
        if all_placed(sorted) && !stop.km.nan() {
            assert forall|i: int| 0 <= i < front.len() implies !(#[trigger] front[i]).km.nan() by {
                assert(front[i] == sorted[i]);
            }
            assert(!sorted[sorted.len() - 1].km.nan());
            if ascending(sorted) {
                assert forall|i: int, j: int| 0 <= i < j < front.len() implies !(
                #[trigger] front[j]).km.below((#[trigger] front[i]).km) by {
                    assert(front[i] == sorted[i] && front[j] == sorted[j]);
                }
                assert forall|i: int, j: int| 0 <= i < j < all.len() implies !(#[trigger] all[j])
                    .km.below((#[trigger] all[i]).km) by {
                    if j == part.len() {
                        assert(all[i] == part[i]);
                        assert(part.to_multiset().contains(part[i]));
                        if part[i] != stop {
                            assert(front.to_multiset().contains(part[i]));
                            assert(front.contains(part[i]));
                            let k = choose|k: int| 0 <= k < front.len() && front[k] == part[i];
                            assert(sorted[k] == front[k]);
                            assert(!sorted[sorted.len() - 1].km.below(sorted[k].km));
                        }
                    }
                }
            }
        }
    }
}

/// Sorting adds no stop and drops none, and puts those with a distance along the
/// route that is a number in the order of their distances.
pub proof fn sorting_orders_the_stops(stops: Seq<StopView>)
    ensures
        by_km(stops).to_multiset() == stops.to_multiset(),
        all_placed(stops) ==> ascending(by_km(stops)) && all_placed(by_km(stops)),
    decreases stops.len(),
{
    broadcast use vstd::seq_lib::group_to_multiset_ensures;

    if stops.len() > 0 {
        let front = stops.drop_last();
        sorting_orders_the_stops(front);
        lemma_insert(by_km(front), stops.last());
        assert(stops =~= front.push(stops.last()));
        if all_placed(stops) {
            assert(forall|i: int| 0 <= i < front.len() ==> front[i] == #[trigger] stops[i]);
            assert(!stops[stops.len() - 1].km.nan());
        }
    }
}

/// The test for one distance along the route.
pub open spec fn at_rank(rank: int) -> spec_fn(StopView) -> bool {
    |s: StopView| s.km.rank() == rank
}

/// A stop at the end of a list is kept behind the others.
proof fn lemma_filter_push(stops: Seq<StopView>, stop: StopView, keep: spec_fn(StopView) -> bool)
    ensures
        stops.push(stop).filter(keep) == if keep(stop) {
            stops.filter(keep).push(stop)
        } else {
            stops.filter(keep)
        },
{
    reveal(Seq::filter);
    assert(stops.push(stop).drop_last() =~= stops);
}

/// Putting a stop in leaves the others in their order, and puts it behind those
/// at its own distance.
proof fn lemma_insert_is_stable(sorted: Seq<StopView>, stop: StopView, rank: int)
    requires
        all_placed(sorted),
        !stop.km.nan(),
        ascending(sorted),
    ensures
        insert_by_km(sorted, stop).filter(at_rank(rank)) == sorted.push(stop).filter(at_rank(rank)),
    decreases sorted.len(),
{
    let keep = at_rank(rank);
    if sorted.len() > 0 && stop.km.below(sorted.last().km) {
        let front = sorted.drop_last();
        let last = sorted.last();
        assert(!sorted[sorted.len() - 1].km.nan());
        assert forall|i: int| 0 <= i < front.len() implies !(#[trigger] front[i]).km.nan() by {
            assert(front[i] == sorted[i]);
        }
        assert forall|i: int, j: int| 0 <= i < j < front.len() implies !(#[trigger] front[j])
            .km.below((#[trigger] front[i]).km) by {
            assert(front[i] == sorted[i] && front[j] == sorted[j]);
        }
        lemma_insert_is_stable(front, stop, rank);
        let part = insert_by_km(front, stop);
        assert(front.push(last) =~= sorted);
        lemma_filter_push(part, last, keep);
        lemma_filter_push(front, stop, keep);
        lemma_filter_push(front, last, keep);
        lemma_filter_push(sorted, stop, keep);
        assert(!(keep(stop) && keep(last)));
    }
}

/// Sorting leaves the stops at one distance along the route in their order.
pub proof fn sorting_is_stable(stops: Seq<StopView>, rank: int)
    requires
        all_placed(stops),
    ensures
        by_km(stops).filter(at_rank(rank)) == stops.filter(at_rank(rank)),
    decreases stops.len(),
{
    if stops.len() > 0 {
        let front = stops.drop_last();
        assert(forall|i: int| 0 <= i < front.len() ==> front[i] == #[trigger] stops[i]);
        assert(!stops[stops.len() - 1].km.nan());
        sorting_is_stable(front, rank);
        sorting_orders_the_stops(front);
        lemma_insert_is_stable(by_km(front), stops.last(), rank);
        assert(front.push(stops.last()) =~= stops);
        lemma_filter_push(by_km(front), stops.last(), at_rank(rank));
        lemma_filter_push(front, stops.last(), at_rank(rank));
    }
}

/// Every stop of an analysis is within the corridor, of a kind that is asked for,
/// and carries the instant at which the rider gets there and what its opening
/// hours say of that instant.
pub proof fn stops_keep_the_promises(
    ride: RideView,
    pois: Seq<PoiView>,
    places: Seq<Placement>,
    s: StopView,
)
    requires
        by_km(stops_on_the_way(ride, pois, places)).contains(s),
    ensures
        !ride.corridor_m.below(s.detour_m),
        exists|i: int|
            0 <= i < pois.len() && wanted(ride.kinds, (#[trigger] pois[i]).kind) && s.kind
                == pois[i].kind.name() && s.eta_unix == ride.start_unix + places[i].travel_seconds
                && s.opening_hours == pois[i].opening_hours,
        s.status_at_eta == status_word(status_of(s.opening_hours, s.eta_unix)),
{
    broadcast use vstd::seq_lib::group_to_multiset_ensures;

    let stops = stops_on_the_way(ride, pois, places);
    sorting_orders_the_stops(stops);
    assert(by_km(stops).to_multiset().contains(s));
    assert(stops.contains(s));
    stops_are_those_on_the_way(ride, pois, places);
    let i = choose|i: int|
        0 <= i < pois.len() && on_the_way(ride, #[trigger] pois[i], places[i]) && s == stop_of(
            ride,
            pois[i],
            places[i],
        );
    assert(wanted(ride.kinds, pois[i].kind));
}

} // verus!
