//! Laws of rides and their stops, stated on what a request asks for and on what
//! is known of each place.

use crate::binary64;
use crate::binary64::Binary64;
use crate::clock;
use crate::clock::Weekday;
use crate::gpx_parse;
use crate::handlers;
use crate::handlers::Placement;
use crate::hours;
use crate::overpass;
use crate::overpass::PoiKind;
use crate::text;
use crate::written;
use vstd::prelude::*;

verus! {

/// Whether a double is a number: its bits but for the sign are not beyond those of
/// infinity.
pub open spec fn is_number(v: Binary64) -> bool {
    v.bits <= 0x7ff0_0000_0000_0000 || 0x8000_0000_0000_0000 <= v.bits <= 0xfff0_0000_0000_0000
}

/// The value of the bits of a number, by which numbers are ordered.
pub open spec fn order_of(v: Binary64) -> int {
    if v.bits < 0x8000_0000_0000_0000 {
        v.bits as int
    } else {
        0x8000_0000_0000_0000 - v.bits
    }
}

/// One number is below another exactly where its bits say so; what is no number
/// is neither below nor above anything.
pub proof fn numbers_are_ordered_by_their_bits(a: Binary64, b: Binary64)
    ensures
        a.below(b) <==> is_number(a) && is_number(b) && order_of(a) < order_of(b),
        a.at_most(b) <==> is_number(a) && is_number(b) && order_of(a) <= order_of(b),
        a.nan() <==> !is_number(a),
        !a.nan() ==> a.rank() == order_of(a),
{
}

/// The larger of two is one of them that is not below the other, and a number
/// where one of them is; a number of a range is its own in the range, and one
/// outside becomes the end that it is beyond.
pub proof fn larger_and_clamped_choose(v: Binary64, low: Binary64, high: Binary64)
    requires
        is_number(low),
        is_number(high),
        order_of(low) <= order_of(high),
    ensures
        !is_number(v) ==> v.larger(low) == low,
        is_number(v) && order_of(v) < order_of(low) ==> v.larger(low) == low && v.clamped(low, high)
            == low,
        is_number(v) && order_of(low) <= order_of(v) ==> v.larger(low) == v,
        is_number(v) && order_of(low) <= order_of(v) <= order_of(high) ==> v.clamped(low, high)
            == v,
        is_number(v) && order_of(high) < order_of(v) ==> v.clamped(low, high) == high,
        !is_number(v) ==> v.clamped(low, high) == v,
{
}

/// The speed of a ride is the one that is asked for, where that is a number of at
/// least 5 km/h; 5 km/h where something else is asked for; and 22 km/h where
/// nothing is.
pub proof fn speed_is_as_asked(asked: Binary64)
    ensures
        is_number(asked) && order_of(asked) >= 0x4014_0000_0000_0000 ==> handlers::speed_of(
            Some(asked),
        ) == asked,
        !(is_number(asked) && order_of(asked) >= 0x4014_0000_0000_0000) ==> handlers::speed_of(
            Some(asked),
        ).bits == 0x4014_0000_0000_0000,
        handlers::speed_of(None).bits == 0x4036_0000_0000_0000,
{
}

/// A greater speed that is asked for never makes a ride slower.
pub proof fn faster_is_not_slower(a: Binary64, b: Binary64)
    requires
        is_number(a),
        is_number(b),
        order_of(a) <= order_of(b),
    ensures
        order_of(handlers::speed_of(Some(a))) <= order_of(handlers::speed_of(Some(b))),
{
}

/// The corridor of a ride is the one that is asked for, where that is from 20 m
/// to 2000 m; the end of that range that it is beyond; and 120 m where nothing is
/// asked for.
pub proof fn corridor_is_as_asked(asked: Binary64)
    ensures
        is_number(asked) && 0x4034_0000_0000_0000 <= order_of(asked) <= 0x409f_4000_0000_0000
            ==> handlers::corridor_of(Some(asked)) == asked,
        is_number(asked) && order_of(asked) < 0x4034_0000_0000_0000 ==> handlers::corridor_of(
            Some(asked),
        ).bits == 0x4034_0000_0000_0000,
        is_number(asked) && order_of(asked) > 0x409f_4000_0000_0000 ==> handlers::corridor_of(
            Some(asked),
        ).bits == 0x409f_4000_0000_0000,
        !is_number(asked) ==> handlers::corridor_of(Some(asked)) == asked,
        handlers::corridor_of(None).bits == 0x405e_0000_0000_0000,
{
}

/// A request with a route and a start is a ride on that route, from that start
/// and for the kinds that are asked for, at the speed and in the corridor for
/// what is asked of each; one without a route is refused for it, whatever else is
/// wrong; and one without a start is refused for that.
pub proof fn rides_are_as_asked(
    raw: Seq<gpx_parse::RawPoint>,
    e: gpx_parse::TrackError,
    start_unix: i64,
    message: Seq<char>,
    start: Result<i64, Seq<char>>,
    speed: Option<Binary64>,
    corridor: Option<Binary64>,
    kinds: Option<Seq<Seq<char>>>,
)
    ensures
        match handlers::ride_of(Ok(raw), Ok(start_unix), speed, corridor, kinds) {
            Ok(ride) => ride.raw == raw && ride.start_unix == start_unix && ride.kinds == kinds
                && ride.speed_kmh == handlers::speed_of(speed) && ride.corridor_m
                == handlers::corridor_of(corridor),
            Err(_) => false,
        },
        handlers::ride_of(Ok(raw), Err(message), speed, corridor, kinds) == Err::<
            handlers::RideView,
            handlers::RejectionView,
        >(handlers::RejectionView::BadRequest(seq!['s', 't', 'a', 'r', 't', ':', ' '] + message)),
        handlers::ride_of(Err(e), start, speed, corridor, kinds) == Err::<
            handlers::RideView,
            handlers::RejectionView,
        >(handlers::RejectionView::BadRequest(seq!['g', 'p', 'x', ':', ' '] + e.text())),
{
    reveal_strlit("start: ");
    reveal_strlit("gpx: ");
    assert("start: "@ == seq!['s', 't', 'a', 'r', 't', ':', ' ']);
    assert("gpx: "@ == seq!['g', 'p', 'x', ':', ' ']);
}

/// The word for a kind.
pub open spec fn word_for(kind: PoiKind) -> Seq<char> {
    match kind {
        PoiKind::Bakery => seq!['b', 'a', 'k', 'e', 'r', 'y'],
        PoiKind::Supermarket => seq!['s', 'u', 'p', 'e', 'r', 'm', 'a', 'r', 'k', 'e', 't'],
        PoiKind::Tobacco => seq!['b', 'a', 'r', '_', 't', 'a', 'b', 'a', 'c'],
        PoiKind::Fountain => seq!['f', 'o', 'u', 'n', 't', 'a', 'i', 'n'],
        PoiKind::Other => seq!['o', 't', 'h', 'e', 'r'],
    }
}

/// Each kind goes by its word.
pub proof fn kinds_go_by_their_words(kind: PoiKind)
    ensures
        kind.name() == word_for(kind),
{
    reveal_strlit("bakery");
    reveal_strlit("supermarket");
    reveal_strlit("bar_tabac");
    reveal_strlit("fountain");
    reveal_strlit("other");
    assert("bakery"@ == word_for(PoiKind::Bakery));
    assert("supermarket"@ == word_for(PoiKind::Supermarket));
    assert("bar_tabac"@ == word_for(PoiKind::Tobacco));
    assert("fountain"@ == word_for(PoiKind::Fountain));
    assert("other"@ == word_for(PoiKind::Other));
}

/// Whether a text is `word` but for capitals. The Kelvin sign is a capital `k`.
pub open spec fn same_but_for_capitals(s: Seq<char>, word: Seq<char>) -> bool {
    s.len() == word.len() && forall|i: int|
        0 <= i < s.len() ==> is_letter_but_for_capitals(#[trigger] s[i], word[i])
}

/// Whether a character is another, or the capital letter for it.
pub open spec fn is_letter_but_for_capitals(c: char, l: char) -> bool {
    ||| c == l
    ||| 'A' <= c <= 'Z' && c as u32 + 32 == l as u32
    ||| c == '\u{212a}' && l == 'k'
}

/// Whether a request asks for a kind: it names no kinds, or has its word.
pub open spec fn asks_for(kinds: Option<Seq<Seq<char>>>, kind: PoiKind) -> bool {
    kinds is Some ==> exists|i: int|
        0 <= i < kinds->Some_0.len() && same_but_for_capitals(
            #[trigger] kinds->Some_0[i],
            word_for(kind),
        )
}

/// Whether a place is no further from the route than the corridor is wide.
pub open spec fn in_corridor(corridor: Binary64, detour: Binary64) -> bool {
    is_number(corridor) && is_number(detour) ==> order_of(detour) <= order_of(corridor)
}

/// A character is another but for capitals exactly where that is its lower case.
proof fn lemma_capital(c: char, l: char)
    ensures
        text::lowers_to(c, l) <==> is_letter_but_for_capitals(c, l),
{
}

/// The words that are a name but for capitals are those with it as lower case.
pub proof fn capitals_are_ignored(s: Seq<char>, word: Seq<char>)
    ensures
        text::lower_case_is(s, word) <==> same_but_for_capitals(s, word),
{
    assert forall|i: int| 0 <= i < s.len() implies text::lowers_to(#[trigger] s[i], word[i])
        == is_letter_but_for_capitals(s[i], word[i]) by {
        lemma_capital(s[i], word[i]);
    }
}

/// A point of interest is on the way exactly where it is in the corridor and of a
/// kind that is asked for, whatever else is known of it.
pub proof fn only_corridor_and_kind_count(
    ride: handlers::RideView,
    poi: overpass::PoiView,
    place: Placement,
)
    ensures
        handlers::on_the_way(ride, poi, place) <==> in_corridor(ride.corridor_m, place.detour_m)
            && asks_for(ride.kinds, poi.kind),
{
    kinds_go_by_their_words(poi.kind);
    numbers_are_ordered_by_their_bits(ride.corridor_m, place.detour_m);
    if let Some(words) = ride.kinds {
        assert forall|i: int| 0 <= i < words.len() implies text::lower_case_is(
            #[trigger] words[i],
            poi.kind.name(),
        ) == same_but_for_capitals(words[i], word_for(poi.kind)) by {
            capitals_are_ignored(words[i], poi.kind.name());
        }
        if handlers::names_kind(words, poi.kind) {
            let i = choose|i: int|
                0 <= i < words.len() && text::lower_case_is(
                    #[trigger] words[i],
                    poi.kind.name(),
                );
            assert(same_but_for_capitals(words[i], word_for(poi.kind)));
        }
        if asks_for(ride.kinds, poi.kind) {
            let i = choose|i: int|
                0 <= i < words.len() && same_but_for_capitals(
                    #[trigger] words[i],
                    word_for(poi.kind),
                );
            assert(text::lower_case_is(words[i], poi.kind.name()));
        }
    }
}

/// Whether a stop is what is known of a place: where it is and lies, its name, its
/// opening hours, the word for its kind, and the start of the ride and the time
/// to get there.
pub open spec fn tells_of(
    s: handlers::StopView,
    start_unix: int,
    poi: overpass::PoiView,
    place: Placement,
) -> bool {
    &&& s.km == place.km
    &&& s.detour_m == place.detour_m
    &&& s.lat == poi.lat
    &&& s.lon == poi.lon
    &&& s.name == poi.name
    &&& s.opening_hours == poi.opening_hours
    &&& s.kind == word_for(poi.kind)
    &&& s.eta_unix == start_unix + place.travel_seconds
}

/// One more point of interest gives one more stop, which tells of it, where it is
/// in the corridor and of a kind that is asked for, and else none; the stops
/// before it stay as they are.
pub proof fn each_place_counts_for_itself(
    ride: handlers::RideView,
    pois: Seq<overpass::PoiView>,
    places: Seq<Placement>,
    poi: overpass::PoiView,
    place: Placement,
)
    requires
        pois.len() == places.len(),
    ensures
        handlers::stops_on_the_way(ride, Seq::empty(), Seq::empty()).len() == 0,
        ({
            let less = handlers::stops_on_the_way(ride, pois, places);
            let more = handlers::stops_on_the_way(ride, pois.push(poi), places.push(place));
            if in_corridor(ride.corridor_m, place.detour_m) && asks_for(ride.kinds, poi.kind) {
                more.len() == less.len() + 1 && more.drop_last() == less && tells_of(
                    more.last(),
                    ride.start_unix as int,
                    poi,
                    place,
                )
            } else {
                more == less
            }
        }),
{
    kinds_go_by_their_words(poi.kind);
    only_corridor_and_kind_count(ride, poi, place);
    assert(pois.push(poi).drop_last() == pois);
    lemma_places(ride, pois, places, places.push(place));
    let less = handlers::stops_on_the_way(ride, pois, places);
    assert(less.push(handlers::stop_of(ride, poi, place)).drop_last() == less);
}

/// Only the placements of the points of interest count.
proof fn lemma_places(
    ride: handlers::RideView,
    pois: Seq<overpass::PoiView>,
    a: Seq<Placement>,
    b: Seq<Placement>,
)
    requires
        pois.len() <= a.len(),
        pois.len() <= b.len(),
        forall|i: int| 0 <= i < pois.len() ==> a[i] == b[i],
    ensures
        handlers::stops_on_the_way(ride, pois, a) == handlers::stops_on_the_way(ride, pois, b),
    decreases pois.len(),
{
    if pois.len() > 0 {
        lemma_places(ride, pois.drop_last(), a, b);
    }
}

/// Every place in the corridor and of a kind that is asked for is in the list of
/// stops, whatever else is known of it.
pub proof fn no_stop_is_missing(
    ride: handlers::RideView,
    pois: Seq<overpass::PoiView>,
    places: Seq<Placement>,
    i: int,
)
    requires
        pois.len() == places.len(),
        0 <= i < pois.len(),
        in_corridor(ride.corridor_m, places[i].detour_m),
        asks_for(ride.kinds, pois[i].kind),
    ensures
        exists|k: int|
            0 <= k < handlers::by_km(handlers::stops_on_the_way(ride, pois, places)).len()
                && tells_of(
                #[trigger] handlers::by_km(handlers::stops_on_the_way(ride, pois, places))[k],
                ride.start_unix as int,
                pois[i],
                places[i],
            ),
{
    broadcast use vstd::seq_lib::group_to_multiset_ensures;

    let stops = handlers::stops_on_the_way(ride, pois, places);
    let sorted = handlers::by_km(stops);
    let s = handlers::stop_of(ride, pois[i], places[i]);
    only_corridor_and_kind_count(ride, pois[i], places[i]);
    handlers::stops_are_those_on_the_way(ride, pois, places);
    assert(stops.contains(s));
    handlers::sorting_orders_the_stops(stops);
    assert(stops.to_multiset().contains(s));
    assert(sorted.to_multiset().contains(s));
    assert(sorted.contains(s));
    let k = choose|k: int| 0 <= k < sorted.len() && sorted[k] == s;
    kinds_go_by_their_words(pois[i].kind);
    assert(tells_of(sorted[k], ride.start_unix as int, pois[i], places[i]));
}

/// Every stop of the list tells of a place in the corridor and of a kind that is
/// asked for, and its word for what is known is that for its opening hours and
/// for when the rider gets there.
pub proof fn no_stop_is_made_up(
    ride: handlers::RideView,
    pois: Seq<overpass::PoiView>,
    places: Seq<Placement>,
    k: int,
)
    requires
        pois.len() == places.len(),
        0 <= k < handlers::by_km(handlers::stops_on_the_way(ride, pois, places)).len(),
    ensures
        ({
            let s = handlers::by_km(handlers::stops_on_the_way(ride, pois, places))[k];
            &&& exists|i: int|
                0 <= i < pois.len() && in_corridor(ride.corridor_m, places[i].detour_m) && asks_for(
                    ride.kinds,
                    (#[trigger] pois[i]).kind,
                ) && tells_of(s, ride.start_unix as int, pois[i], places[i])
            &&& s.status_at_eta == handlers::status_word(
                handlers::status_of(s.opening_hours, s.eta_unix),
            )
        }),
{
    broadcast use vstd::seq_lib::group_to_multiset_ensures;

    let stops = handlers::stops_on_the_way(ride, pois, places);
    let sorted = handlers::by_km(stops);
    let s = sorted[k];
    handlers::sorting_orders_the_stops(stops);
    assert(sorted.contains(s));
    assert(sorted.to_multiset().contains(s));
    assert(stops.to_multiset().contains(s));
    assert(stops.contains(s));
    handlers::stops_are_those_on_the_way(ride, pois, places);
    let i = choose|i: int|
        0 <= i < pois.len() && handlers::on_the_way(ride, #[trigger] pois[i], places[i]) && s
            == handlers::stop_of(ride, pois[i], places[i]);
    only_corridor_and_kind_count(ride, pois[i], places[i]);
    kinds_go_by_their_words(pois[i].kind);
    assert(tells_of(s, ride.start_unix as int, pois[i], places[i]));
}

/// There are as many stops as places in the corridor and of a kind that is asked
/// for; so a place that is listed twice gives two.
pub proof fn stops_are_counted(
    ride: handlers::RideView,
    pois: Seq<overpass::PoiView>,
    places: Seq<Placement>,
    all: bool,
)
    requires
        pois.len() == places.len(),
        forall|i: int|
            0 <= i < pois.len() ==> (in_corridor(ride.corridor_m, places[i].detour_m) && asks_for(
                ride.kinds,
                (#[trigger] pois[i]).kind,
            )) == all,
    ensures
        handlers::by_km(handlers::stops_on_the_way(ride, pois, places)).len() == if all {
            pois.len()
        } else {
            0
        },
    decreases pois.len(),
{
    broadcast use vstd::seq_lib::group_to_multiset_ensures;

    let stops = handlers::stops_on_the_way(ride, pois, places);
    handlers::sorting_orders_the_stops(stops);
    assert(handlers::by_km(stops).to_multiset().len() == handlers::by_km(stops).len());
    assert(stops.to_multiset().len() == stops.len());
    lemma_count(ride, pois, places, all);
}

/// The number of stops before they are sorted.
proof fn lemma_count(
    ride: handlers::RideView,
    pois: Seq<overpass::PoiView>,
    places: Seq<Placement>,
    all: bool,
)
    requires
        pois.len() <= places.len(),
        forall|i: int|
            0 <= i < pois.len() ==> (in_corridor(ride.corridor_m, places[i].detour_m) && asks_for(
                ride.kinds,
                (#[trigger] pois[i]).kind,
            )) == all,
    ensures
        handlers::stops_on_the_way(ride, pois, places).len() == if all {
            pois.len()
        } else {
            0
        },
    decreases pois.len(),
{
    if pois.len() > 0 {
        let n = pois.len() - 1;
        assert forall|i: int| 0 <= i < n implies pois.drop_last()[i] == #[trigger] pois[i] by {
        }
        assert forall|i: int| 0 <= i < pois.drop_last().len() implies (in_corridor(
            ride.corridor_m,
            places[i].detour_m,
        ) && asks_for(ride.kinds, (#[trigger] pois.drop_last()[i]).kind)) == all by {
            assert(pois.drop_last()[i] == pois[i]);
        }
        lemma_count(ride, pois.drop_last(), places, all);
        assert(pois[n] == pois.last());
        only_corridor_and_kind_count(ride, pois[n], places[n]);
    }
}

/// A clock that shows UTC reads the seconds since the epoch: the hours and the
/// minutes are those of the time since midnight, and the day of the epoch was a
/// Thursday.
pub proof fn clock_reads_the_seconds(unix: int)
    ensures
        ({
            let at = clock::utc_reading(unix);
            &&& at.hour < 24
            &&& at.minute < 60
            &&& at.hour * 3600 + at.minute * 60 <= unix % 86400 < at.hour * 3600 + at.minute * 60
                + 60
            &&& at.weekday.number() == (unix / 86400 + 3) % 7
        }),
{
    let r = unix % 86400;
    assert(unix % 3600 == r % 3600);
    assert(r == r / 3600 * 3600 + r % 3600);
    let m = r % 3600;
    assert(m == m / 60 * 60 + m % 60);
    days_go_round(unix / 86400 + 3);
}

/// A day later a clock shows the same time of the next day, and a week later the
/// same.
pub proof fn clock_goes_round(unix: int)
    ensures
        ({
            let at = clock::utc_reading(unix);
            let next = clock::utc_reading(unix + 86400);
            &&& next.hour == at.hour
            &&& next.minute == at.minute
            &&& next.weekday.number() == (at.weekday.number() + 1) % 7
            &&& clock::utc_reading(unix + 604800) == at
        }),
{
    let q = unix / 86400;
    lemma_days_later(unix, 1);
    lemma_days_later(unix, 7);
    days_go_round(q + 3);
    days_go_round(q + 4);
    days_go_round(q + 10);
    lemma_same_day(Weekday::after_monday(q + 10), Weekday::after_monday(q + 3));
}

/// What is left of an instant some days later.
proof fn lemma_days_later(unix: int, n: int)
    ensures
        (unix + n * 86400) / 86400 == unix / 86400 + n,
        (unix + n * 86400) % 86400 == unix % 86400,
        (unix + n * 86400) % 3600 == unix % 3600,
{
    vstd::arithmetic::div_mod::lemma_hoist_over_denominator(unix, n, 86400);
    vstd::arithmetic::div_mod::lemma_mod_multiples_vanish(n, unix, 86400);
    vstd::arithmetic::div_mod::lemma_mod_multiples_vanish(n * 24, unix, 3600);
    assert(86400 * n + unix == unix + n * 86400);
    assert(3600 * (n * 24) == n * 86400);
}

/// The days go round in sevens, from Monday to Sunday.
pub proof fn days_go_round(n: int)
    ensures
        Weekday::after_monday(n).number() == n % 7,
        Weekday::after_monday(0) == Weekday::Mon,
        Weekday::after_monday(1) == Weekday::Tue,
        Weekday::after_monday(2) == Weekday::Wed,
        Weekday::after_monday(3) == Weekday::Thu,
        Weekday::after_monday(4) == Weekday::Fri,
        Weekday::after_monday(5) == Weekday::Sat,
        Weekday::after_monday(6) == Weekday::Sun,
{
}

/// Opening hours that are written as rules have a stop open exactly where one of
/// the rules opens the place on the day and at the minute at which the rider gets
/// there, and closed everywhere else.
pub proof fn status_is_that_of_the_arrival(
    ride: handlers::RideView,
    poi: overpass::PoiView,
    place: Placement,
    rules: Seq<written::Rule>,
    spaces: written::Spaces,
    day: Weekday,
)
    requires
        spaces.wf(),
        rules.len() > 0,
        forall|k: int| 0 <= k < rules.len() ==> (#[trigger] rules[k]).wf(),
        poi.opening_hours == Some(written::hours_text(rules, spaces)),
        day.number() == ((ride.start_unix + place.travel_seconds) / 86400 + 3) % 7,
    ensures
        ({
            let eta = ride.start_unix + place.travel_seconds;
            handlers::stop_of(ride, poi, place).status_at_eta == if exists|k: int|
                0 <= k < rules.len() && (#[trigger] rules[k]).opens(day, eta % 86400 / 60) {
                seq!['o', 'p', 'e', 'n']
            } else {
                seq!['c', 'l', 'o', 's', 'e', 'd']
            }
        }),
{
    let eta = ride.start_unix + place.travel_seconds;
    let at = clock::utc_reading(eta);
    clock_reads_the_seconds(eta);
    lemma_same_day(at.weekday, day);
    assert(at.minute_of_day() == eta % 86400 / 60);
    written::hours_are_read(rules, spaces, day, eta % 86400 / 60);
    lemma_words();
}

/// Days are told apart by their numbers.
proof fn lemma_same_day(a: Weekday, b: Weekday)
    requires
        a.number() == b.number(),
    ensures
        a == b,
{
}

/// The words for what is known of a stop.
proof fn lemma_words()
    ensures
        "open"@ == seq!['o', 'p', 'e', 'n'],
        "closed"@ == seq!['c', 'l', 'o', 's', 'e', 'd'],
        "unknown"@ == seq!['u', 'n', 'k', 'n', 'o', 'w', 'n'],
{
    reveal_strlit("open");
    reveal_strlit("closed");
    reveal_strlit("unknown");
    assert("open"@ == seq!['o', 'p', 'e', 'n']);
    assert("closed"@ == seq!['c', 'l', 'o', 's', 'e', 'd']);
    assert("unknown"@ == seq!['u', 'n', 'k', 'n', 'o', 'w', 'n']);
}

/// A stop is unknown exactly where it has no opening hours or where these say
/// nothing of the day and the minute at which the rider gets there, open where
/// they say open and closed where they say closed.
pub proof fn status_is_what_the_hours_say(
    ride: handlers::RideView,
    poi: overpass::PoiView,
    place: Placement,
    day: Weekday,
)
    requires
        day.number() == ((ride.start_unix + place.travel_seconds) / 86400 + 3) % 7,
    ensures
        ({
            let eta = ride.start_unix + place.travel_seconds;
            let word = handlers::stop_of(ride, poi, place).status_at_eta;
            let minute = eta % 86400 / 60;
            match poi.opening_hours {
                Some(h) => {
                    &&& word == seq!['o', 'p', 'e', 'n'] <==> hours::openness(h, day, minute)
                        == hours::Openness::Open
                    &&& word == seq!['c', 'l', 'o', 's', 'e', 'd'] <==> hours::openness(
                        h,
                        day,
                        minute,
                    ) == hours::Openness::Closed
                    &&& word == seq!['u', 'n', 'k', 'n', 'o', 'w', 'n'] <==> hours::openness(
                        h,
                        day,
                        minute,
                    ) == hours::Openness::Unknown
                },
                None => word == seq!['u', 'n', 'k', 'n', 'o', 'w', 'n'],
            }
        }),
{
    let eta = ride.start_unix + place.travel_seconds;
    let at = clock::utc_reading(eta);
    clock_reads_the_seconds(eta);
    lemma_same_day(at.weekday, day);
    assert(at.minute_of_day() == eta % 86400 / 60);
    lemma_words();
    assert(seq!['o', 'p', 'e', 'n'].len() == 4);
    assert(seq!['c', 'l', 'o', 's', 'e', 'd'].len() == 6);
    assert(seq!['u', 'n', 'k', 'n', 'o', 'w', 'n'].len() == 7);
}

/// The length of a route is the distance of its last point, and nothing where it
/// has no point.
pub proof fn length_is_the_last_distance(cum: Seq<Binary64>, last: Binary64)
    ensures
        handlers::length_of(cum.push(last)) == last,
        handlers::length_of(Seq::empty()).bits == 0,
{
}

/// A ride starts now where the request does not say when, and at the instant that
/// it writes where it does.
pub proof fn starts_are_as_asked(written: Seq<char>, now: i64, other: i64)
    ensures
        handlers::start_of(None, now) == Ok::<i64, Seq<char>>(now),
        handlers::start_of(Some(written), now) == handlers::start_of(Some(written), other),
        handlers::start_of(Some(written), now) == clock::rfc3339_reading(written),
{
}

/// The nearest segment is the first of those with the least distance: no other is
/// nearer, and each before it is further or has no distance. There is none only
/// where no distance is below infinity.
pub proof fn nearest_is_the_first_least(distances: Seq<Binary64>, i: int)
    ensures
        binary64::first_extreme(
            distances,
            Binary64 { bits: 0x7ff0_0000_0000_0000 },
            true,
            i,
        ) <==> {
            &&& 0 <= i < distances.len()
            &&& is_number(distances[i])
            &&& order_of(distances[i]) < 0x7ff0_0000_0000_0000
            &&& forall|j: int|
                0 <= j < distances.len() && is_number(#[trigger] distances[j]) ==> order_of(
                    distances[i],
                ) <= order_of(distances[j])
            &&& forall|j: int|
                0 <= j < i && is_number(#[trigger] distances[j]) ==> order_of(distances[i])
                    < order_of(distances[j])
        },
        binary64::none_ahead(distances, Binary64 { bits: 0x7ff0_0000_0000_0000 }, true)
            <==> forall|j: int|
            0 <= j < distances.len() && is_number(#[trigger] distances[j]) ==> order_of(
                distances[j],
            ) >= 0x7ff0_0000_0000_0000,
{
    let start = Binary64 { bits: 0x7ff0_0000_0000_0000 };
    assert forall|a: Binary64, b: Binary64| #[trigger] binary64::ahead(a, b, true) == (is_number(a)
        && is_number(b) && order_of(a) < order_of(b)) by {
        numbers_are_ordered_by_their_bits(a, b);
    }
    if binary64::none_ahead(distances, start, true) {
        assert forall|j: int| 0 <= j < distances.len() && is_number(
            #[trigger] distances[j],
        ) implies order_of(distances[j]) >= 0x7ff0_0000_0000_0000 by {
            assert(!binary64::ahead(distances[j], start, true));
        }
    }
    if binary64::first_extreme(distances, start, true, i) {
        assert forall|j: int| 0 <= j < distances.len() && is_number(
            #[trigger] distances[j],
        ) implies order_of(distances[i]) <= order_of(distances[j]) by {
            assert(!binary64::ahead(distances[j], distances[i], true));
        }
        assert forall|j: int| 0 <= j < i && is_number(#[trigger] distances[j]) implies order_of(
            distances[i],
        ) < order_of(distances[j]) by {
            assert(binary64::ahead(distances[i], distances[j], true) || distances[j].nan());
        }
    }
}

/// The point that a walk along a route gets to is the first, from where it is,
/// whose distance is not below the one that is looked for.
pub proof fn walks_stop_at_the_first_point(
    cum: Seq<Binary64>,
    from: int,
    target: Binary64,
    seg: int,
)
    requires
        is_number(target),
        forall|i: int| 0 <= i < cum.len() ==> is_number(#[trigger] cum[i]),
        0 <= from,
    ensures
        gpx_parse::first_reached(cum, from, target, seg) <==> {
            &&& from <= seg <= cum.len()
            &&& forall|i: int|
                from <= i < seg ==> order_of(#[trigger] cum[i]) < order_of(target)
            &&& seg < cum.len() ==> order_of(target) <= order_of(cum[seg])
        },
{
    if gpx_parse::first_reached(cum, from, target, seg) {
        assert forall|i: int| from <= i < seg implies order_of(#[trigger] cum[i]) < order_of(
            target,
        ) by {
            assert(cum[i].below(target));
        }
        if seg < cum.len() {
            assert(is_number(cum[seg]));
        }
    } else if from <= seg <= cum.len() {
        if forall|i: int| from <= i < seg ==> order_of(#[trigger] cum[i]) < order_of(target) {
            assert forall|i: int| from <= i < seg implies (#[trigger] cum[i]).below(target) by {
                assert(is_number(cum[i]));
                assert(order_of(cum[i]) < order_of(target));
            }
        }
    }
}

/// The box around a route has the least and the greatest latitude and longitude
/// of its points.
pub proof fn boxes_are_tight(points: Seq<gpx_parse::RawPoint>, b: overpass::Bounds, i: int)
    requires
        overpass::is_box(points, b),
        gpx_parse::all_on_globe(points),
        0 <= i < points.len(),
    ensures
        order_of(b.min_lat) <= order_of(points[i].lat) <= order_of(b.max_lat),
        order_of(b.min_lon) <= order_of(points[i].lon) <= order_of(b.max_lon),
        exists|j: int| 0 <= j < points.len() && (#[trigger] points[j]).lat == b.min_lat,
        exists|j: int| 0 <= j < points.len() && (#[trigger] points[j]).lat == b.max_lat,
        exists|j: int| 0 <= j < points.len() && (#[trigger] points[j]).lon == b.min_lon,
        exists|j: int| 0 <= j < points.len() && (#[trigger] points[j]).lon == b.max_lon,
{
    overpass::box_holds_the_route(points, b, i);
    overpass::box_touches_the_route(points, b);
    let j = choose|j: int| 0 <= j < points.len() && (#[trigger] points[j]).lat == b.min_lat;
    assert(gpx_parse::is_latitude(points[j].lat));
    let j = choose|j: int| 0 <= j < points.len() && (#[trigger] points[j]).lat == b.max_lat;
    assert(gpx_parse::is_latitude(points[j].lat));
    let j = choose|j: int| 0 <= j < points.len() && (#[trigger] points[j]).lon == b.min_lon;
    assert(gpx_parse::is_longitude(points[j].lon));
    let j = choose|j: int| 0 <= j < points.len() && (#[trigger] points[j]).lon == b.max_lon;
    assert(gpx_parse::is_longitude(points[j].lon));
    assert(gpx_parse::is_latitude(points[i].lat) && gpx_parse::is_longitude(points[i].lon));
}

/// The stops come in the order of their distances along the route: the numbers of
/// the distances never go down from one stop to a later one.
pub proof fn stops_come_in_order(stops: Seq<handlers::StopView>, i: int, j: int)
    requires
        forall|k: int| 0 <= k < stops.len() ==> is_number((#[trigger] stops[k]).km),
        0 <= i < j < stops.len(),
    ensures
        handlers::by_km(stops).len() == stops.len(),
        order_of(handlers::by_km(stops)[i].km) <= order_of(handlers::by_km(stops)[j].km),
{
    broadcast use vstd::seq_lib::group_to_multiset_ensures;

    let sorted = handlers::by_km(stops);
    assert forall|k: int| 0 <= k < stops.len() implies !(#[trigger] stops[k]).km.nan() by {
        assert(is_number(stops[k].km));
    }
    assert(handlers::all_placed(stops));
    handlers::sorting_orders_the_stops(stops);
    assert(sorted.to_multiset().len() == sorted.len());
    assert(stops.to_multiset().len() == stops.len());
    assert(!sorted[j].km.below(sorted[i].km));
    assert(!sorted[i].km.nan() && !sorted[j].km.nan());
}

/// The arrivals of a ride can be told exactly where the rider gets to each place
/// that is in the corridor and of a kind that is asked for at an instant that
/// `chrono` can represent.
pub proof fn arrivals_go_by_the_places(
    ride: handlers::RideView,
    pois: Seq<overpass::PoiView>,
    places: Seq<Placement>,
)
    requires
        pois.len() == places.len(),
    ensures
        handlers::etas_representable(ride, pois, places) <==> forall|i: int|
            0 <= i < pois.len() && in_corridor(ride.corridor_m, places[i].detour_m) && asks_for(
                ride.kinds,
                (#[trigger] pois[i]).kind,
            ) ==> places[i].travel_seconds >= 0 && -8334601228800 <= ride.start_unix
                <= 8210266876799 && ride.start_unix + places[i].travel_seconds <= 8210266876799,
{
    assert forall|i: int| 0 <= i < pois.len() implies handlers::on_the_way(
        ride,
        #[trigger] pois[i],
        places[i],
    ) == (in_corridor(ride.corridor_m, places[i].detour_m) && asks_for(
        ride.kinds,
        pois[i].kind,
    )) by {
        only_corridor_and_kind_count(ride, pois[i], places[i]);
    }
}

/// A sample is taken exactly where it is not beyond the limit: on the segment that
/// ends at the first point that is not before it, from the segment of the one
/// before on, and at the last point where there is none.
pub proof fn samples_are_taken_up_to_the_limit(
    cum: Seq<Binary64>,
    from: int,
    target: Binary64,
    limit: Binary64,
    place: gpx_parse::SamplePlace,
)
    requires
        is_number(target),
        is_number(limit),
        forall|i: int| 0 <= i < cum.len() ==> is_number(#[trigger] cum[i]),
        0 <= from <= cum.len(),
        gpx_parse::is_sample_place(cum, from, target, limit, place),
    ensures
        place is Beyond <==> order_of(limit) < order_of(target),
        place is AtEnd ==> forall|i: int|
            from <= i < cum.len() ==> order_of(#[trigger] cum[i]) < order_of(target),
        place matches gpx_parse::SamplePlace::OnSegment(seg) ==> from <= seg < cum.len() && order_of(
            target,
        ) <= order_of(cum[seg as int]) && forall|i: int|
            from <= i < seg ==> order_of(#[trigger] cum[i]) < order_of(target),
{
    match place {
        gpx_parse::SamplePlace::Beyond => {},
        gpx_parse::SamplePlace::AtEnd => {
            walks_stop_at_the_first_point(cum, from, target, cum.len() as int);
        },
        gpx_parse::SamplePlace::OnSegment(seg) => {
            walks_stop_at_the_first_point(cum, from, target, seg as int);
        },
    }
}

/// The nearest segment of a route is the first of those with the least distance,
/// and there is one wherever a distance is a number below infinity.
pub proof fn nearest_segments_are_nearest(distances: Seq<Binary64>, at: Option<usize>, j: int)
    requires
        gpx_parse::is_nearest(distances, at),
        0 <= j < distances.len(),
        is_number(distances[j]),
        order_of(distances[j]) < 0x7ff0_0000_0000_0000,
    ensures
        match at {
            Some(i) => i < distances.len() && is_number(distances[i as int]) && order_of(
                distances[i as int],
            ) <= order_of(distances[j]) && (j < i ==> order_of(distances[i as int]) < order_of(
                distances[j],
            )),
            None => false,
        },
{
    match at {
        Some(i) => {
            nearest_is_the_first_least(distances, i as int);
        },
        None => {
            nearest_is_the_first_least(distances, 0);
        },
    }
}

/// A failure of the service is told to the client as one, with the reason.
pub proof fn gateway_refusals_give_the_reason(message: Seq<char>)
    ensures
        handlers::gateway_refusal(message) == handlers::RejectionView::BadGateway(
            seq!['o', 'v', 'e', 'r', 'p', 'a', 's', 's', ':', ' '] + message,
        ),
{
    reveal_strlit("overpass: ");
    assert("overpass: "@ =~= seq!['o', 'v', 'e', 'r', 'p', 'a', 's', 's', ':', ' ']);
}

/// A request is planned as a ride on the route of its document, from the start
/// that it writes, or from now where it writes none.
pub proof fn plans_are_as_asked(
    gpx: Seq<char>,
    doc: gpx_parse::GpxTree,
    raw: Seq<gpx_parse::RawPoint>,
    written: Seq<char>,
    unix: i64,
    speed: Option<Binary64>,
    corridor: Option<Binary64>,
    kinds: Option<Seq<Seq<char>>>,
    now: i64,
)
    requires
        gpx_parse::gpx_reading(vstd::utf8::encode_utf8(gpx)) == Some(doc),
        gpx_parse::route_of(doc) == Ok::<Seq<gpx_parse::RawPoint>, gpx_parse::TrackError>(raw),
    ensures
        match handlers::plan_of(gpx, None, speed, corridor, kinds, now) {
            Ok(ride) => ride.raw == raw && ride.start_unix == now && ride.kinds == kinds
                && ride.speed_kmh == handlers::speed_of(speed) && ride.corridor_m
                == handlers::corridor_of(corridor),
            Err(_) => false,
        },
        clock::rfc3339_reading(written) == Ok::<i64, Seq<char>>(unix) ==> match handlers::plan_of(
            gpx,
            Some(written),
            speed,
            corridor,
            kinds,
            now,
        ) {
            Ok(ride) => ride.raw == raw && ride.start_unix == unix && ride.kinds == kinds
                && ride.speed_kmh == handlers::speed_of(speed) && ride.corridor_m
                == handlers::corridor_of(corridor),
            Err(_) => false,
        },
        clock::rfc3339_reading(written) is Err ==> handlers::plan_of(
            gpx,
            Some(written),
            speed,
            corridor,
            kinds,
            now,
        ) is Err,
{
}

/// A request whose document gives no route is refused, whatever else it asks for.
pub proof fn plans_need_a_route(
    gpx: Seq<char>,
    start: Option<Seq<char>>,
    speed: Option<Binary64>,
    corridor: Option<Binary64>,
    kinds: Option<Seq<Seq<char>>>,
    now: i64,
)
    requires
        match gpx_parse::gpx_reading(vstd::utf8::encode_utf8(gpx)) {
            Some(doc) => gpx_parse::route_of(doc) is Err,
            None => true,
        },
    ensures
        handlers::plan_of(gpx, start, speed, corridor, kinds, now) is Err,
{
}

/// An analysis tells the start, the speed and the corridor of its ride, the length
/// and the samples of its route, and its stops.
pub proof fn analyses_tell_of_their_ride(
    ride: handlers::RideView,
    pois: Seq<overpass::PoiView>,
    places: Seq<Placement>,
    cum: Seq<Binary64>,
    last: Binary64,
    route: Seq<gpx_parse::KmSample>,
)
    ensures
        ({
            let a = handlers::analysis_of(ride, pois, places, cum.push(last), route);
            &&& a.total_km == last
            &&& a.start_unix == ride.start_unix
            &&& a.speed_kmh == ride.speed_kmh
            &&& a.corridor_m == ride.corridor_m
            &&& a.route == route
            &&& a.pois == handlers::by_km(handlers::stops_on_the_way(ride, pois, places))
        }),
{
}

} // verus!
