//! The points of a GPX document, and the choices that a walk along them makes.

use crate::binary64;
use crate::binary64::{Binary64, INFINITY_BITS};
use crate::gpx_times;
use vstd::prelude::*;

verus! {

/// A point of a route, in degrees.
#[derive(Clone, Copy, Debug, PartialEq, Eq, Structural)]
pub struct RawPoint {
    pub lat: Binary64,
    pub lon: Binary64,
}

/// A point at a distance along a route.
#[derive(Clone, Copy, Debug, PartialEq, Eq, Structural)]
pub struct KmSample {
    pub km: Binary64,
    pub lat: Binary64,
    pub lon: Binary64,
}

/// Why a document gives no route.
#[derive(Clone, Copy, Debug, PartialEq, Eq, Structural)]
pub enum TrackError {
    /// The document is no GPX document.
    Malformed,
    /// The document has fewer than two points.
    NoUsablePoints,
}

impl TrackError {
    /// The message for a user.
    pub open spec fn text(self) -> Seq<char> {
        match self {
            TrackError::Malformed => "failed to parse GPX"@,
            TrackError::NoUsablePoints => "GPX has no usable track points"@,
        }
    }

    /// The message for a user.
    pub fn message(self) -> (message: &'static str)
        ensures
            message@ == self.text(),
    {
        match self {
            TrackError::Malformed => "failed to parse GPX",
            TrackError::NoUsablePoints => "GPX has no usable track points",
        }
    }
}

/// What a GPX document holds of places: its tracks, each a list of segments, and
/// its routes.
pub ghost struct GpxTree {
    pub tracks: Seq<Seq<Seq<RawPoint>>>,
    pub routes: Seq<Seq<RawPoint>>,
}

/// What a GPX document holds of places.
#[derive(Debug)]
pub struct GpxDoc {
    pub tracks: Vec<Vec<Vec<RawPoint>>>,
    pub routes: Vec<Vec<RawPoint>>,
}

/// The lists of points in `lines`.
pub open spec fn lines_of(lines: Seq<Vec<RawPoint>>) -> Seq<Seq<RawPoint>> {
    Seq::new(lines.len(), |i: int| lines[i]@)
}

impl View for GpxDoc {
    type V = GpxTree;

    open spec fn view(&self) -> GpxTree {
        GpxTree {
            tracks: Seq::new(self.tracks@.len(), |i: int| lines_of(self.tracks@[i]@)),
            routes: lines_of(self.routes@),
        }
    }
}

/// The lists one after the other.
pub open spec fn joined(lines: Seq<Seq<RawPoint>>) -> Seq<RawPoint>
    decreases lines.len(),
{
    if lines.len() == 0 {
        Seq::empty()
    } else {
        joined(lines.drop_last()) + lines.last()
    }
}

/// The points of the segments of the tracks, one after the other.
pub open spec fn track_points(tracks: Seq<Seq<Seq<RawPoint>>>) -> Seq<RawPoint>
    decreases tracks.len(),
{
    if tracks.len() == 0 {
        Seq::empty()
    } else {
        track_points(tracks.drop_last()) + joined(tracks.last())
    }
}

/// The points of the tracks or, where these have none, of the routes.
pub open spec fn usable_points(doc: GpxTree) -> Seq<RawPoint> {
    if track_points(doc.tracks).len() > 0 {
        track_points(doc.tracks)
    } else {
        joined(doc.routes)
    }
}

/// The route of a document: at least two points.
pub open spec fn route_of(doc: GpxTree) -> Result<Seq<RawPoint>, TrackError> {
    if usable_points(doc).len() >= 2 {
        Ok(usable_points(doc))
    } else {
        Err(TrackError::NoUsablePoints)
    }
}

/// Puts the lists `lines` behind `points`.
fn append_lines(points: &mut Vec<RawPoint>, lines: &Vec<Vec<RawPoint>>)
    ensures
        final(points)@ == old(points)@ + joined(lines_of(lines@)),
{
    let ghost all = lines_of(lines@);
    let mut i: usize = 0;
    assert(all.take(0) == Seq::<Seq<RawPoint>>::empty());
    assert(points@ + Seq::<RawPoint>::empty() == points@);
    while i < lines.len()
        invariant
            i <= lines@.len(),
            all == lines_of(lines@),
            points@ == old(points)@ + joined(all.take(i as int)),
        decreases lines@.len() - i,
    {
        let line: &Vec<RawPoint> = &lines[i];
        let ghost before = points@;
        let mut j: usize = 0;
        assert(before + line@.take(0) == before);
        while j < line.len()
            invariant
                j <= line@.len(),
                points@ == before + line@.take(j as int),
            decreases line@.len() - j,
        {
            points.push(line[j]);
            assert(line@.take(j + 1) == line@.take(j as int).push(line@[j as int]));
            j += 1;
        }
        proof {
            assert(line@.take(j as int) == line@);
            assert(all.take(i + 1).drop_last() == all.take(i as int));
            assert(all.take(i + 1).last() == line@);
            assert(points@ == old(points)@ + (joined(all.take(i as int)) + line@));
        }
        i += 1;
    }
    assert(all.take(i as int) == all);
}

/// The route of a document: the points of its tracks or, where these have none,
/// of its routes; at least two.
pub fn collect_points(doc: &GpxDoc) -> (route: Result<Vec<RawPoint>, TrackError>)
    ensures
        match route {
            Ok(points) => route_of(doc@) == Ok::<Seq<RawPoint>, TrackError>(points@),
            Err(e) => route_of(doc@) == Err::<Seq<RawPoint>, TrackError>(e),
        },
{
    let mut points: Vec<RawPoint> = Vec::new();
    let ghost tracks = doc@.tracks;
    let mut i: usize = 0;
    assert(tracks.take(0) == Seq::<Seq<Seq<RawPoint>>>::empty());
    while i < doc.tracks.len()
        invariant
            i <= doc.tracks@.len(),
            tracks == doc@.tracks,
            points@ == track_points(tracks.take(i as int)),
        decreases doc.tracks@.len() - i,
    {
        append_lines(&mut points, &doc.tracks[i]);
        proof {
            assert(tracks.take(i + 1).drop_last() == tracks.take(i as int));
            assert(tracks.take(i + 1).last() == lines_of(doc.tracks@[i as int]@));
        }
        i += 1;
    }
    assert(tracks.take(i as int) == tracks);
    if points.len() == 0 {
        append_lines(&mut points, &doc.routes);
        assert(points@ == joined(doc@.routes));
    }
    if points.len() < 2 {
        Err(TrackError::NoUsablePoints)
    } else {
        Ok(points)
    }
}

/// A degree of latitude that GPX knows: from -90 to 90.
pub open spec fn is_latitude(v: Binary64) -> bool {
    !v.nan() && v.magnitude() <= 0x4056_8000_0000_0000
}

/// A degree of longitude that GPX knows: from -180 to below 180.
pub open spec fn is_longitude(v: Binary64) -> bool {
    !v.nan() && -0x4066_8000_0000_0000 <= v.rank() < 0x4066_8000_0000_0000
}

/// Whether every point of every list is on the globe.
pub open spec fn on_globe(lines: Seq<Seq<RawPoint>>) -> bool {
    forall|i: int, j: int|
        0 <= i < lines.len() && 0 <= j < lines[i].len() ==> is_latitude(
            (#[trigger] lines[i][j]).lat,
        ) && is_longitude(lines[i][j].lon)
}

/// Whether every point of a document is on the globe.
pub open spec fn doc_on_globe(doc: GpxTree) -> bool {
    &&& forall|i: int| 0 <= i < doc.tracks.len() ==> on_globe(#[trigger] doc.tracks[i])
    &&& on_globe(doc.routes)
}

#[verifier::external_type_specification]
#[verifier::external_body]
pub struct ExGpxError(gpx::errors::GpxError);

#[verifier::external_type_specification]
#[verifier::external_body]
pub struct ExGpx(gpx::Gpx);

/// What a document of `gpx` holds of places: its tracks, each a list of
/// segments, and its routes, by the latitude and the longitude of each point.
pub uninterp spec fn gpx_places(read: gpx::Gpx) -> GpxTree;

/// The places that `gpx::read` finds in a document; `None` where it fails.
pub uninterp spec fn gpx_reading(bytes: Seq<u8>) -> Option<GpxTree>;

/// Calls `gpx::read`. The places in its outcome are named; it is also said that
/// `gpx` accepts no point with a latitude outside -90 to 90 or a longitude
/// outside -180 to 180. It panics where a time, taken to UTC, is in the year
/// 10000 or -10000. A document whose times are plain has no such time: the
/// requirement follows how the text of an element is put together and how a date,
/// a time and an offset are written.
#[verifier::external_body]
fn read_gpx(bytes: &[u8]) -> (outcome: Result<gpx::Gpx, gpx::errors::GpxError>)
    requires
        gpx_times::times_plain(bytes@),
    ensures
        match outcome {
            Ok(read) => gpx_reading(bytes@) == Some(gpx_places(read)) && doc_on_globe(
                gpx_places(read),
            ),
            Err(_) => gpx_reading(bytes@) is None,
        },
{
    gpx::read(bytes)
}

/// Takes the points of the segments of the tracks, and those of the routes, out
/// of a document of `gpx`, each by the `y` and the `x` of its `point`.
#[verifier::external_body]
fn take_places(read: gpx::Gpx) -> (doc: GpxDoc)
    ensures
        doc@ == gpx_places(read),
{
    let place = |p: gpx::Waypoint| RawPoint {
        lat: Binary64 { bits: p.point().y().to_bits() },
        lon: Binary64 { bits: p.point().x().to_bits() },
    };
    let line = |points: Vec<gpx::Waypoint>| points.into_iter().map(place).collect();
    let track = |t: gpx::Track| t.segments.into_iter().map(|s| line(s.points)).collect();
    GpxDoc {
        tracks: read.tracks.into_iter().map(track).collect(),
        routes: read.routes.into_iter().map(|r| line(r.points)).collect(),
    }
}

/// The route in a document that `gpx` has read.
pub fn collect_route(read: gpx::Gpx) -> (route: Result<Vec<RawPoint>, TrackError>)
    ensures
        match route {
            Ok(points) => route_of(gpx_places(read)) == Ok::<Seq<RawPoint>, TrackError>(points@),
            Err(e) => route_of(gpx_places(read)) == Err::<Seq<RawPoint>, TrackError>(e),
        },
{
    collect_points(&take_places(read))
}

/// The route in the bytes of a document.
pub open spec fn track_in(bytes: Seq<u8>) -> Result<Seq<RawPoint>, TrackError> {
    match gpx_reading(bytes) {
        Some(doc) => route_of(doc),
        None => Err(TrackError::Malformed),
    }
}

/// The route in a GPX document.
pub fn parse_track(bytes: &[u8]) -> (route: Result<Vec<RawPoint>, TrackError>)
    requires
        gpx_times::times_plain(bytes@),
    ensures
        match route {
            Ok(points) => track_in(bytes@) == Ok::<Seq<RawPoint>, TrackError>(points@),
            Err(e) => track_in(bytes@) == Err::<Seq<RawPoint>, TrackError>(e),
        },
        match gpx_reading(bytes@) {
            None => route == Err::<Vec<RawPoint>, TrackError>(TrackError::Malformed),
            Some(doc) => doc_on_globe(doc) && match route {
                Ok(points) => route_of(doc) == Ok::<Seq<RawPoint>, TrackError>(points@),
                Err(e) => route_of(doc) == Err::<Seq<RawPoint>, TrackError>(e),
            },
        },
{
    match read_gpx(bytes) {
        Ok(read) => collect_route(read),
        Err(_) => Err(TrackError::Malformed),
    }
}

/// Whether every point of a list is on the globe.
pub open spec fn all_on_globe(points: Seq<RawPoint>) -> bool {
    forall|i: int|
        0 <= i < points.len() ==> is_latitude((#[trigger] points[i]).lat) && is_longitude(
            points[i].lon,
        )
}

/// Lists of points on the globe, one after the other, are on the globe.
proof fn lemma_joined_on_globe(lines: Seq<Seq<RawPoint>>)
    requires
        on_globe(lines),
    ensures
        all_on_globe(joined(lines)),
    decreases lines.len(),
{
    if lines.len() > 0 {
        let front = lines.drop_last();
        assert forall|i: int, j: int|
            0 <= i < front.len() && 0 <= j < front[i].len() implies is_latitude(
            (#[trigger] front[i][j]).lat,
        ) && is_longitude(front[i][j].lon) by {
            assert(front[i][j] == lines[i][j]);
        }
        lemma_joined_on_globe(front);
        let n = joined(front).len();
        assert forall|i: int| 0 <= i < joined(lines).len() implies is_latitude(
            (#[trigger] joined(lines)[i]).lat,
        ) && is_longitude(joined(lines)[i].lon) by {
            if i >= n {
                assert(joined(lines)[i] == lines[lines.len() - 1][i - n]);
            } else {
                assert(joined(lines)[i] == joined(front)[i]);
            }
        }
    }
}

/// The points of tracks on the globe are on the globe.
proof fn lemma_tracks_on_globe(tracks: Seq<Seq<Seq<RawPoint>>>)
    requires
        forall|i: int| 0 <= i < tracks.len() ==> on_globe(#[trigger] tracks[i]),
    ensures
        all_on_globe(track_points(tracks)),
    decreases tracks.len(),
{
    if tracks.len() > 0 {
        let front = tracks.drop_last();
        assert forall|i: int| 0 <= i < front.len() implies on_globe(#[trigger] front[i]) by {
            assert(front[i] == tracks[i]);
        }
        lemma_tracks_on_globe(front);
        assert(on_globe(tracks[tracks.len() - 1]));
        lemma_joined_on_globe(tracks.last());
        let n = track_points(front).len();
        assert forall|i: int| 0 <= i < track_points(tracks).len() implies is_latitude(
            (#[trigger] track_points(tracks)[i]).lat,
        ) && is_longitude(track_points(tracks)[i].lon) by {
            if i >= n {
                assert(track_points(tracks)[i] == joined(tracks.last())[i - n]);
            } else {
                assert(track_points(tracks)[i] == track_points(front)[i]);
            }
        }
    }
}

/// The route of a document whose points are on the globe has at least two points
/// and lies on the globe.
pub proof fn route_is_on_globe(doc: GpxTree)
    requires
        doc_on_globe(doc),
        route_of(doc) is Ok,
    ensures
        route_of(doc)->Ok_0.len() >= 2,
        all_on_globe(route_of(doc)->Ok_0),
{
    lemma_tracks_on_globe(doc.tracks);
    lemma_joined_on_globe(doc.routes);
}

/// The routes of a document are used only where its tracks have no point.
pub proof fn tracks_come_first(doc: GpxTree, routes: Seq<Seq<RawPoint>>)
    requires
        track_points(doc.tracks).len() > 0,
    ensures
        route_of(doc) == route_of(GpxTree { tracks: doc.tracks, routes }),
{
}

/// Whether a segment of a route is the one that is nearest to a place.
pub open spec fn is_nearest(distances: Seq<Binary64>, at: Option<usize>) -> bool {
    match at {
        Some(i) => binary64::first_extreme(
            distances,
            Binary64 { bits: INFINITY_BITS },
            true,
            i as int,
        ),
        None => binary64::none_ahead(distances, Binary64 { bits: INFINITY_BITS }, true),
    }
}

/// The segment of a route that is nearest to a place: the first of those with
/// the least distance; `None` where no distance is below infinity.
pub fn nearest_segment(distances: &[Binary64]) -> (at: Option<usize>)
    ensures
        is_nearest(distances@, at),
        match at {
            Some(i) => binary64::first_extreme(
                distances@,
                Binary64 { bits: INFINITY_BITS },
                true,
                i as int,
            ),
            None => binary64::none_ahead(distances@, Binary64 { bits: INFINITY_BITS }, true),
        },
{
    binary64::extreme(distances, Binary64 { bits: INFINITY_BITS }, true)
}

/// Whether `seg` is the first point of a route, from `from` on, whose distance
/// along the route is not below `target`, or the number of points where there is
/// none.
pub open spec fn first_reached(cum: Seq<Binary64>, from: int, target: Binary64, seg: int) -> bool {
    &&& from <= seg <= cum.len()
    &&& forall|i: int| from <= i < seg ==> (#[trigger] cum[i]).below(target)
    &&& seg < cum.len() ==> !cum[seg].below(target)
}

/// The first point of a route, from `from` on, whose distance along the route is
/// not below `target`; the number of points where there is none.
pub fn next_segment(cum: &[Binary64], from: usize, target: Binary64) -> (seg: usize)
    requires
        from <= cum@.len(),
    ensures
        first_reached(cum@, from as int, target, seg as int),
{
    let mut seg: usize = from;
    while seg < cum.len() && cum[seg].lt(target)
        invariant
            from <= seg <= cum@.len(),
            forall|i: int| from <= i < seg ==> (#[trigger] cum@[i]).below(target),
        decreases cum@.len() - seg,
    {
        seg += 1;
    }
    seg
}

/// Where a sample of a route is taken.
#[derive(Clone, Copy, Debug, PartialEq, Eq, Structural)]
pub enum SamplePlace {
    /// Nowhere: it would be beyond the end of the route.
    Beyond,
    /// At the last point.
    AtEnd,
    /// On the segment that ends at the point of this number.
    OnSegment(usize),
}

/// Whether a place is the one where a sample is taken.
pub open spec fn is_sample_place(
    cum: Seq<Binary64>,
    from: int,
    target: Binary64,
    limit: Binary64,
    place: SamplePlace,
) -> bool {
    match place {
        SamplePlace::Beyond => !target.at_most(limit),
        SamplePlace::AtEnd => target.at_most(limit) && first_reached(
            cum,
            from,
            target,
            cum.len() as int,
        ),
        SamplePlace::OnSegment(seg) => target.at_most(limit) && seg < cum.len() && first_reached(
            cum,
            from,
            target,
            seg as int,
        ),
    }
}

/// Where the sample at the distance `target` is taken, where the one before was
/// taken on the segment that ends at `from`, and no sample is taken beyond
/// `limit`.
pub fn place_sample(cum: &[Binary64], from: usize, target: Binary64, limit: Binary64) -> (place:
    SamplePlace)
    requires
        from <= cum@.len(),
    ensures
        is_sample_place(cum@, from as int, target, limit, place),
        match place {
            SamplePlace::Beyond => !target.at_most(limit),
            SamplePlace::AtEnd => target.at_most(limit) && first_reached(
                cum@,
                from as int,
                target,
                cum@.len() as int,
            ),
            SamplePlace::OnSegment(seg) => target.at_most(limit) && seg < cum@.len()
                && first_reached(cum@, from as int, target, seg as int),
        },
{
    if target.is_nan() || limit.is_nan() || limit.lt(target) {
        return SamplePlace::Beyond;
    }
    let seg: usize = next_segment(cum, from, target);
    if seg < cum.len() {
        SamplePlace::OnSegment(seg)
    } else {
        SamplePlace::AtEnd
    }
}

/// A sample lies between the two ends of its segment, where it is not before the
/// start of the segment of the one before it; and so then is a later one.
pub proof fn samples_lie_between(
    cum: Seq<Binary64>,
    from: int,
    target: Binary64,
    seg: int,
    later: Binary64,
)
    requires
        1 <= from,
        seg < cum.len(),
        first_reached(cum, from, target, seg),
        !target.below(cum[from - 1]),
        target.below(later),
    ensures
        !target.below(cum[seg - 1]),
        !cum[seg].below(target),
        !later.below(cum[seg - 1]),
{
}

/// The points of two lists of lines, one behind the other, are those of the one
/// and then those of the other; so every point of every line is kept, as often as
/// it is there and in its order.
pub proof fn lines_keep_their_points(
    a: Seq<Seq<RawPoint>>,
    b: Seq<Seq<RawPoint>>,
    line: Seq<RawPoint>,
)
    ensures
        joined(a + b) == joined(a) + joined(b),
        joined(seq![line]) == line,
        joined(Seq::empty()).len() == 0,
    decreases b.len(),
{
    assert(seq![line].drop_last() == Seq::<Seq<RawPoint>>::empty());
    assert(Seq::<RawPoint>::empty() + line == line);
    reveal_with_fuel(joined, 2);
    if b.len() == 0 {
        assert(a + b == a);
        assert(joined(a) + joined(b) == joined(a));
    } else {
        lines_keep_their_points(a, b.drop_last(), line);
        assert((a + b).drop_last() == a + b.drop_last());
        assert((a + b).last() == b.last());
        assert(joined(a) + (joined(b.drop_last()) + b.last()) == joined(a) + joined(b.drop_last())
            + b.last());
    }
}

/// The points of two lists of tracks, one behind the other, are those of the one
/// and then those of the other, and those of a track are those of its segments.
pub proof fn tracks_keep_their_points(
    a: Seq<Seq<Seq<RawPoint>>>,
    b: Seq<Seq<Seq<RawPoint>>>,
    track: Seq<Seq<RawPoint>>,
)
    ensures
        track_points(a + b) == track_points(a) + track_points(b),
        track_points(seq![track]) == joined(track),
        track_points(Seq::empty()).len() == 0,
    decreases b.len(),
{
    assert(seq![track].drop_last() == Seq::<Seq<Seq<RawPoint>>>::empty());
    assert(Seq::<RawPoint>::empty() + joined(track) == joined(track));
    reveal_with_fuel(track_points, 2);
    if b.len() == 0 {
        assert(a + b == a);
        assert(track_points(a) + track_points(b) == track_points(a));
    } else {
        tracks_keep_their_points(a, b.drop_last(), track);
        assert((a + b).drop_last() == a + b.drop_last());
        assert((a + b).last() == b.last());
        assert(track_points(a) + (track_points(b.drop_last()) + joined(b.last())) == track_points(a)
            + track_points(b.drop_last()) + joined(b.last()));
    }
}

/// The route of a document is all the points of its tracks where these have two
/// or more, and all the points of its routes where these have two or more and its
/// tracks have none; every other document has too few.
pub proof fn routes_are_all_the_points(
    tracks: Seq<Seq<Seq<RawPoint>>>,
    routes: Seq<Seq<RawPoint>>,
)
    ensures
        ({
            let route = route_of(GpxTree { tracks, routes });
            &&& track_points(tracks).len() >= 2 ==> route == Ok::<Seq<RawPoint>, TrackError>(
                track_points(tracks),
            )
            &&& track_points(tracks).len() == 1 ==> route == Err::<Seq<RawPoint>, TrackError>(
                TrackError::NoUsablePoints,
            )
            &&& track_points(tracks).len() == 0 && joined(routes).len() >= 2 ==> route == Ok::<
                Seq<RawPoint>,
                TrackError,
            >(joined(routes))
            &&& track_points(tracks).len() == 0 && joined(routes).len() < 2 ==> route == Err::<
                Seq<RawPoint>,
                TrackError,
            >(TrackError::NoUsablePoints)
        }),
{
}

/// The messages for a document that gives no route.
pub proof fn messages_say_what_is_wrong()
    ensures
        TrackError::Malformed.text() == "failed to parse GPX"@,
        TrackError::NoUsablePoints.text() == "GPX has no usable track points"@,
{
}

/// A document that `gpx` reads gives the route of what it holds, and one that it
/// does not read is malformed.
pub proof fn documents_give_their_routes(bytes: Seq<u8>, doc: GpxTree)
    ensures
        gpx_reading(bytes) == Some(doc) ==> track_in(bytes) == route_of(doc),
        gpx_reading(bytes) is None ==> track_in(bytes) == Err::<Seq<RawPoint>, TrackError>(
            TrackError::Malformed,
        ),
{
}

} // verus!
