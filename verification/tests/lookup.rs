use ravito_gpx::lookup::{fresh_payload, row_has_age, Action, CacheRow, Event, Search};
use ravito_gpx::overpass::{overpass_query, CACHE_TTL_SECS};

const ANSWER: &str = "{\"elements\":[{\"lat\":1,\"lon\":2,\"id\":3}]}";

fn row(fetched_at: i64) -> Option<CacheRow> {
    Some(CacheRow { payload: ANSWER.to_string(), fetched_at })
}

fn found(action: Action) -> Result<Vec<i64>, String> {
    match action {
        Action::Finish { outcome } => outcome.map(|p| p.iter().map(|p| p.osm_id).collect()),
        other => panic!("{other:?}"),
    }
}

#[test]
fn rows_are_fresh_for_a_week() {
    assert_eq!(CACHE_TTL_SECS, 604_800);
    assert_eq!(fresh_payload(row(1000), 1000 + 604_799).as_deref(), Some(ANSWER));
    assert_eq!(fresh_payload(row(1000), 1000 + 604_800), None);
    assert_eq!(fresh_payload(row(1000), 0).as_deref(), Some(ANSWER));
    assert_eq!(fresh_payload(None, 0), None);
}

#[test]
fn ages_that_overflow() {
    assert!(row_has_age(&row(i64::MIN), -1));
    assert!(!row_has_age(&row(i64::MIN), 0));
    assert!(!row_has_age(&row(1), i64::MIN));
    assert!(row_has_age(&None, i64::MAX));
}

#[test]
fn a_fresh_row_answers() {
    let (search, action) = Search::begin("a,b,c,d", 5000);
    assert!(matches!(&action, Action::Read { key } if key == "v1|a,b,c,d"));
    let (search, action) = search.step(Event::Row(row(4999)));
    assert_eq!(found(action), Ok(vec![3]));
    assert!(matches!(search, Search::Finished));
}

#[test]
fn a_stale_row_is_fetched_anew_and_kept() {
    for stale in [None, row(5000 - 604_800)] {
        let (search, _) = Search::begin("a,b,c,d", 5000);
        let (search, action) = search.step(Event::Row(stale));
        assert!(matches!(&action, Action::Post { query } if *query == overpass_query("a,b,c,d")));
        let (search, action) = search.step(Event::Body(ANSWER.to_string()));
        let kept = match action {
            Action::Store { key, row } => {
                assert_eq!(key, "v1|a,b,c,d");
                assert_eq!((row.payload.as_str(), row.fetched_at), (ANSWER, 5000));
                row
            }
            other => panic!("{other:?}"),
        };
        let (_, action) = search.step(Event::Stored);
        assert_eq!(found(action), Ok(vec![3]));

        let (later, _) = Search::begin("a,b,c,d", 5000 + 604_799);
        assert_eq!(found(later.step(Event::Row(Some(kept))).1), Ok(vec![3]));
    }
}

#[test]
fn an_answer_that_is_no_json_is_stored_and_reported() {
    let (search, _) = Search::begin("x", 0);
    let (search, _) = search.step(Event::Row(None));
    let (search, action) = search.step(Event::Body("busy".to_string()));
    assert!(matches!(&action, Action::Store { row, .. } if row.payload == "busy"));
    assert_eq!(
        found(search.step(Event::Stored).1),
        Err("expected value at line 1 column 1".to_string())
    );
}

#[test]
fn failures_end_a_search() {
    let failed = || Event::Failed("no disk".to_string());
    let (search, _) = Search::begin("x", 0);
    assert_eq!(found(search.step(failed()).1), Err("no disk".to_string()));
    let (search, _) = Search::begin("x", 0);
    let (search, _) = search.step(Event::Row(None));
    assert_eq!(found(search.step(failed()).1), Err("no disk".to_string()));
    let (search, _) = Search::begin("x", 0);
    let (search, _) = search.step(Event::Row(None));
    let (search, _) = search.step(Event::Body(ANSWER.to_string()));
    let (search, action) = search.step(failed());
    assert_eq!(found(action), Err("no disk".to_string()));
    assert!(matches!(search.step(failed()), (Search::Finished, Action::Wait)));
}

#[test]
fn other_events_are_ignored() {
    let (search, _) = Search::begin("x", 7);
    let (search, action) = search.step(Event::Stored);
    assert!(matches!(action, Action::Wait));
    let (search, action) = search.step(Event::Body("y".to_string()));
    assert!(matches!(action, Action::Wait));
    assert!(matches!(search, Search::Reading { now: 7, .. }));
}
