//! The search for the points of interest in a box: in the cache first, and then
//! at the service.
//!
//! The search performs nothing itself. It says what to do next and is told what
//! came of it, until it has the points of interest.

use crate::overpass;
use crate::overpass::{Poi, PoiView, CACHE_TTL_SECS};
use vstd::prelude::*;

verus! {

/// A row of the cache: an answer of the service, and when it was fetched.
#[derive(Debug)]
pub struct CacheRow {
    pub payload: String,
    pub fetched_at: i64,
}

/// What a row of the cache is.
pub ghost struct RowView {
    pub payload: Seq<char>,
    pub fetched_at: i64,
}

impl View for CacheRow {
    type V = RowView;

    open spec fn view(&self) -> RowView {
        RowView { payload: self.payload@, fetched_at: self.fetched_at }
    }
}

/// What an optional row of the cache is.
pub open spec fn opt_row(row: Option<CacheRow>) -> Option<RowView> {
    match row {
        Some(r) => Some(r@),
        None => None,
    }
}

/// Whether the age of a row can be computed.
pub open spec fn has_age(row: Option<RowView>, now: i64) -> bool {
    match row {
        Some(r) => i64::MIN <= now - r.fetched_at <= i64::MAX,
        None => true,
    }
}

/// The answer in a row that is younger than a week.
pub open spec fn fresh_answer(row: Option<RowView>, now: i64) -> Option<Seq<char>> {
    match row {
        Some(r) => if now - r.fetched_at < CACHE_TTL_SECS {
            Some(r.payload)
        } else {
            None
        },
        None => None,
    }
}

/// Whether [`fresh_payload`] can be asked.
pub fn row_has_age(row: &Option<CacheRow>, now: i64) -> (yes: bool)
    ensures
        yes == has_age(opt_row(*row), now),
{
    match row {
        Some(r) => now.checked_sub(r.fetched_at).is_some(),
        None => true,
    }
}

/// The answer in a row that is younger than a week.
pub fn fresh_payload(row: Option<CacheRow>, now: i64) -> (payload: Option<String>)
    requires
        has_age(opt_row(row), now),
    ensures
        overpass::opt_text(payload) == fresh_answer(opt_row(row), now),
{
    match row {
        Some(r) => if now - r.fetched_at < CACHE_TTL_SECS {
            Some(r.payload)
        } else {
            None
        },
        None => None,
    }
}

/// Where a search is.
#[derive(Debug)]
pub enum Search {
    /// The row of the box is being read.
    Reading { key: String, bbox: String, now: i64 },
    /// The service is being asked.
    Fetching { key: String, now: i64 },
    /// The answer is being stored.
    Storing { payload: String },
    /// The search is over.
    Finished,
}

/// Where a search is.
pub ghost enum SearchView {
    Reading { key: Seq<char>, bbox: Seq<char>, now: i64 },
    Fetching { key: Seq<char>, now: i64 },
    Storing { payload: Seq<char> },
    Finished,
}

impl View for Search {
    type V = SearchView;

    open spec fn view(&self) -> SearchView {
        match *self {
            Search::Reading { key, bbox, now } => SearchView::Reading {
                key: key@,
                bbox: bbox@,
                now,
            },
            Search::Fetching { key, now } => SearchView::Fetching { key: key@, now },
            Search::Storing { payload } => SearchView::Storing { payload: payload@ },
            Search::Finished => SearchView::Finished,
        }
    }
}

/// What came of the last action.
#[derive(Debug)]
pub enum Event {
    /// The row under the key, where there is one.
    Row(Option<CacheRow>),
    /// The answer of the service.
    Body(String),
    /// The row is stored.
    Stored,
    /// The action failed, for this reason.
    Failed(String),
}

/// What came of the last action.
pub ghost enum EventView {
    Row(Option<RowView>),
    Body(Seq<char>),
    Stored,
    Failed(Seq<char>),
}

impl View for Event {
    type V = EventView;

    open spec fn view(&self) -> EventView {
        match *self {
            Event::Row(row) => EventView::Row(opt_row(row)),
            Event::Body(body) => EventView::Body(body@),
            Event::Stored => EventView::Stored,
            Event::Failed(reason) => EventView::Failed(reason@),
        }
    }
}

/// What to do next.
#[derive(Debug)]
pub enum Action {
    /// Read the row under a key.
    Read { key: String },
    /// Put a question to the service.
    Post { query: String },
    /// Store a row under a key, in place of the one that is there.
    Store { key: String, row: CacheRow },
    /// Wait: the event was not the one that the search waits for.
    Wait,
    /// Nothing more: here is what the search found.
    Finish { outcome: Result<Vec<Poi>, String> },
}

/// What to do next.
pub ghost enum ActionView {
    Read { key: Seq<char> },
    Post { query: Seq<char> },
    Store { key: Seq<char>, row: RowView },
    Wait,
    Finish { outcome: Result<Seq<PoiView>, Seq<char>> },
}

/// What the outcome of a search is.
pub open spec fn outcome_view(outcome: Result<Vec<Poi>, String>) -> Result<Seq<PoiView>, Seq<char>> {
    match outcome {
        Ok(pois) => Ok(overpass::pois_view(pois@)),
        Err(message) => Err(message@),
    }
}

impl View for Action {
    type V = ActionView;

    open spec fn view(&self) -> ActionView {
        match *self {
            Action::Read { key } => ActionView::Read { key: key@ },
            Action::Post { query } => ActionView::Post { query: query@ },
            Action::Store { key, row } => ActionView::Store { key: key@, row: row@ },
            Action::Wait => ActionView::Wait,
            Action::Finish { outcome } => ActionView::Finish { outcome: outcome_view(outcome) },
        }
    }
}

/// The end of a search that has the text of an answer.
pub open spec fn finish(payload: Seq<char>) -> (SearchView, ActionView) {
    (SearchView::Finished, ActionView::Finish { outcome: overpass::answer_of(payload) })
}

/// How a search for a box starts, at the instant `now`.
pub open spec fn start(bbox: Seq<char>, now: i64) -> (SearchView, ActionView) {
    (
        SearchView::Reading { key: overpass::key_text(bbox), bbox, now },
        ActionView::Read { key: overpass::key_text(bbox) },
    )
}

/// Whether the age of the row that an event brings can be computed.
pub open spec fn row_is_dated(search: SearchView, event: EventView) -> bool {
    match (search, event) {
        (SearchView::Reading { now, .. }, EventView::Row(row)) => has_age(row, now),
        _ => true,
    }
}

/// How a search goes on. A row that is fresh ends it; else the service is asked,
/// its answer is stored under the key with the instant at which the search
/// started, and then ends the search. A failure ends it at any point. An event
/// that the search does not wait for leaves it where it is.
pub open spec fn next(search: SearchView, event: EventView) -> (SearchView, ActionView) {
    match (search, event) {
        (SearchView::Reading { key, bbox, now }, EventView::Row(row)) => match fresh_answer(
            row,
            now,
        ) {
            Some(payload) => finish(payload),
            None => (
                SearchView::Fetching { key, now },
                ActionView::Post { query: overpass::query_text(bbox) },
            ),
        },
        (SearchView::Fetching { key, now }, EventView::Body(body)) => (
            SearchView::Storing { payload: body },
            ActionView::Store { key, row: RowView { payload: body, fetched_at: now } },
        ),
        (SearchView::Storing { payload }, EventView::Stored) => finish(payload),
        (SearchView::Finished, _) => (search, ActionView::Wait),
        (_, EventView::Failed(reason)) => (
            SearchView::Finished,
            ActionView::Finish { outcome: Err(reason) },
        ),
        _ => (search, ActionView::Wait),
    }
}

impl Search {
    /// Starts a search for a box, at the instant `now`.
    pub fn begin(bbox: &str, now: i64) -> (r: (Search, Action))
        ensures
            (r.0@, r.1@) == start(bbox@, now),
    {
        let key: String = overpass::cache_key(bbox);
        (
            Search::Reading { key: key.clone(), bbox: bbox.to_owned(), now },
            Action::Read { key },
        )
    }

    /// Goes on with a search after `event`.
    pub fn step(self, event: Event) -> (r: (Search, Action))
        requires
            row_is_dated(self@, event@),
        ensures
            (r.0@, r.1@) == next(self@, event@),
    {
        match (self, event) {
            (Search::Reading { key, bbox, now }, Event::Row(row)) => match fresh_payload(row, now) {
                Some(payload) => Search::end(payload),
                None => (
                    Search::Fetching { key, now },
                    Action::Post { query: overpass::overpass_query(bbox.as_str()) },
                ),
            },
            (Search::Fetching { key, now }, Event::Body(body)) => (
                Search::Storing { payload: body.clone() },
                Action::Store { key, row: CacheRow { payload: body, fetched_at: now } },
            ),
            (Search::Storing { payload }, Event::Stored) => Search::end(payload),
            (Search::Finished, _) => (Search::Finished, Action::Wait),
            (_, Event::Failed(reason)) => (
                Search::Finished,
                Action::Finish { outcome: Err(reason) },
            ),
            (other, _) => (other, Action::Wait),
        }
    }

    /// Ends a search that has the text of an answer.
    fn end(payload: String) -> (r: (Search, Action))
        ensures
            (r.0@, r.1@) == finish(payload@),
    {
        (Search::Finished, Action::Finish { outcome: overpass::parse_overpass(payload.as_str()) })
    }
}

/// The action of a search for a box whose row is `row`, once it is read.
pub open spec fn after_row(bbox: Seq<char>, now: i64, row: Option<RowView>) -> ActionView {
    next(start(bbox, now).0, EventView::Row(row)).1
}

/// A row that is younger than a week answers a search without the service, and
/// an older one, or none, never does.
pub proof fn fresh_rows_answer(bbox: Seq<char>, now: i64, row: Option<RowView>)
    requires
        has_age(row, now),
    ensures
        row is Some && now - row->Some_0.fetched_at < CACHE_TTL_SECS ==> after_row(bbox, now, row)
            == (ActionView::Finish { outcome: overpass::answer_of(row->Some_0.payload) }),
        row is None || now - row->Some_0.fetched_at >= CACHE_TTL_SECS ==> after_row(bbox, now, row)
            == (ActionView::Post { query: overpass::query_text(bbox) }),
{
}

/// A search whose last action failed ends with the reason, whichever action that
/// was; so an answer that could not be stored is not handed out.
pub proof fn failures_end_the_search(search: SearchView, reason: Seq<char>)
    requires
        search != SearchView::Finished,
    ensures
        next(search, EventView::Failed(reason)) == (
            SearchView::Finished,
            ActionView::Finish { outcome: Err::<Seq<PoiView>, Seq<char>>(reason) },
        ),
{
}

/// A search that asked the service has its answer, and has stored it so that for
/// a week every search for the same box finds the same without the service.
pub proof fn answers_are_kept(
    bbox: Seq<char>,
    now: i64,
    row: Option<RowView>,
    body: Seq<char>,
    later: i64,
)
    requires
        has_age(row, now),
        fresh_answer(row, now) is None,
        i64::MIN <= later - now <= i64::MAX,
        later - now < CACHE_TTL_SECS,
    ensures
        ({
            let fetching = next(start(bbox, now).0, EventView::Row(row)).0;
            let (storing, store) = next(fetching, EventView::Body(body));
            let found = next(storing, EventView::Stored).1;
            &&& found == (ActionView::Finish { outcome: overpass::answer_of(body) })
            &&& store == (ActionView::Store {
                key: overpass::key_text(bbox),
                row: RowView { payload: body, fetched_at: now },
            })
            &&& start(bbox, later).1 == (ActionView::Read { key: store->Store_key })
            &&& after_row(bbox, later, Some(store->Store_row)) == found
        }),
{
}

/// A row that is there is trusted for 604800 seconds, whatever it holds: until
/// then its payload answers the search, and from then on the service is asked for
/// the box, and a row that is missing is treated like one that is too old.
pub proof fn rows_are_trusted_for_a_week(
    key: Seq<char>,
    bbox: Seq<char>,
    now: i64,
    payload: Seq<char>,
    fetched_at: i64,
)
    ensures
        ({
            let reading = SearchView::Reading { key, bbox, now };
            let young = next(reading, EventView::Row(Some(RowView { payload, fetched_at })));
            let none = next(reading, EventView::Row(None));
            &&& now - fetched_at < 604800 ==> young.0 == SearchView::Finished && young.1
                == (ActionView::Finish { outcome: overpass::answer_of(payload) })
            &&& now - fetched_at >= 604800 ==> young == none
            &&& none.0 == (SearchView::Fetching { key, now })
            &&& none.1 == (ActionView::Post { query: overpass::query_text(bbox) })
        }),
{
}

/// A search reads the row of its box, asks the service about the same box where
/// the row does not answer, stores the answer under the key that it read, with
/// the instant at which it started, and hands out what the answer says.
pub proof fn searches_run_their_course(bbox: Seq<char>, now: i64, body: Seq<char>)
    ensures
        ({
            let (reading, read) = start(bbox, now);
            let (fetching, post) = next(reading, EventView::Row(None));
            let (storing, store) = next(fetching, EventView::Body(body));
            let (finished, found) = next(storing, EventView::Stored);
            &&& read == (ActionView::Read { key: overpass::key_text(bbox) })
            &&& post == (ActionView::Post { query: overpass::query_text(bbox) })
            &&& store == (ActionView::Store {
                key: overpass::key_text(bbox),
                row: RowView { payload: body, fetched_at: now },
            })
            &&& found == (ActionView::Finish { outcome: overpass::answer_of(body) })
            &&& finished == SearchView::Finished
        }),
{
}

/// An event that a search does not wait for leaves it where it is, and nothing
/// starts a search again that is over.
pub proof fn other_events_change_nothing(
    key: Seq<char>,
    bbox: Seq<char>,
    now: i64,
    body: Seq<char>,
    row: Option<RowView>,
    event: EventView,
)
    ensures
        ({
            let reading = SearchView::Reading { key, bbox, now };
            let fetching = SearchView::Fetching { key, now };
            let storing = SearchView::Storing { payload: body };
            &&& next(reading, EventView::Body(body)) == (reading, ActionView::Wait)
            &&& next(reading, EventView::Stored) == (reading, ActionView::Wait)
            &&& next(fetching, EventView::Row(row)) == (fetching, ActionView::Wait)
            &&& next(fetching, EventView::Stored) == (fetching, ActionView::Wait)
            &&& next(storing, EventView::Row(row)) == (storing, ActionView::Wait)
            &&& next(storing, EventView::Body(body)) == (storing, ActionView::Wait)
            &&& next(SearchView::Finished, event) == (SearchView::Finished, ActionView::Wait)
        }),
{
}

/// The age of a row can be computed exactly where it fits into 64 bits, and a row
/// that is missing asks for none.
pub proof fn ages_fit_into_64_bits(row: RowView, now: i64)
    ensures
        has_age(Some(row), now) <==> -0x8000_0000_0000_0000 <= now - row.fetched_at
            <= 0x7fff_ffff_ffff_ffff,
        has_age(None, now),
{
}

} // verus!
