use linkshrink::codec::encode_shortlink;
use linkshrink::coordinator::{Coordinator, FetchOutcome, FlushStep};
use linkshrink::errors::DatabaseError;
use linkshrink::index;
use linkshrink::models::Shortlink;
use linkshrink::web::{apply_update, edit_view, redirect_target};

fn record(keyword: &str, url: &str, hits: usize) -> Shortlink {
    Shortlink {
        keyword: keyword.to_string(),
        url: url.to_string(),
        owner: "admin".to_string(),
        hits,
        private: false,
        description: String::new(),
    }
}

/// A stand-in for the remote store that counts how often it is consulted.
struct CountingStore {
    entries: Vec<(String, String)>,
    gets: usize,
}

impl CountingStore {
    fn new() -> CountingStore {
        CountingStore { entries: Vec::new(), gets: 0 }
    }

    fn set(&mut self, key: String, value: String) {
        self.entries.retain(|(k, _)| *k != key);
        self.entries.push((key, value));
    }

    fn get(&mut self, key: &str) -> FetchOutcome {
        self.gets += 1;
        match self.entries.iter().find(|(k, _)| k == key) {
            Some((_, v)) => FetchOutcome::Value(v.clone()),
            None => FetchOutcome::Missing,
        }
    }
}

/// A full lookup against a fake store: the cache-first fast path, then the
/// store on a miss.
fn lookup(
    c: &mut Coordinator,
    store: &mut CountingStore,
    keyword: &str,
) -> Result<Option<Shortlink>, DatabaseError> {
    if let Some(rec) = c.lookup_cached(keyword) {
        return Ok(Some(rec));
    }
    let fetched = store.get(&Coordinator::lookup_command(keyword));
    c.lookup_fetched(keyword, fetched)
}

#[test]
fn read_after_write() {
    // after an upsert succeeds, a lookup returns the written record without
    // any store access
    let mut c = Coordinator::new();
    let mut store = CountingStore::new();
    let s = record("home", "https://example.com", 0);
    let (prepared, key, payload) = c.upsert_prepare(s.clone());
    store.set(key, payload);
    c.upsert_commit(prepared, true).unwrap();
    let found = lookup(&mut c, &mut store, "home").unwrap().unwrap();
    assert_eq!(found, s);
    assert_eq!(store.gets, 0);
}

#[test]
fn hit_preservation() {
    // a cached record with hits = 5 keeps them through an upsert with
    // incoming hits = 0
    let mut c = Coordinator::new();
    let (prepared, _, _) = c.upsert_prepare(record("home", "https://a", 5));
    c.upsert_commit(prepared, true).unwrap();
    let (prepared, _, payload) = c.upsert_prepare(record("home", "https://b", 0));
    assert_eq!(prepared.hits, 5);
    assert_eq!(prepared.url, "https://b");
    assert!(payload.contains("\"hits\":5"));
    c.upsert_commit(prepared, true).unwrap();
    assert_eq!(c.lookup_cached("home").unwrap().hits, 5);
}

#[test]
fn cache_first_lookup() {
    // once a keyword is cached, repeated lookups never consult the store
    let mut c = Coordinator::new();
    let mut store = CountingStore::new();
    let s = record("home", "https://example.com", 1);
    store.set("sl::home".to_string(), encode_shortlink(&s));
    assert_eq!(lookup(&mut c, &mut store, "home").unwrap().unwrap(), s);
    assert_eq!(store.gets, 1);
    for _ in 0..3 {
        assert_eq!(lookup(&mut c, &mut store, "home").unwrap().unwrap(), s);
    }
    assert_eq!(store.gets, 1);
}

#[test]
fn read_through_population() {
    // a record present only in the store enters the cache on first lookup
    let mut c = Coordinator::new();
    let s = record("docs", "https://docs.example.com", 9);
    assert!(c.lookup_cached("docs").is_none());
    let got = c
        .lookup_fetched("docs", FetchOutcome::Value(encode_shortlink(&s)))
        .unwrap()
        .unwrap();
    assert_eq!(got, s);
    assert_eq!(c.lookup_cached("docs").unwrap(), s);
}

#[test]
fn negative_lookup_is_not_cached() {
    // a miss everywhere yields nothing and leaves no trace, so a later
    // store-side write is observable
    let mut c = Coordinator::new();
    let mut store = CountingStore::new();
    assert_eq!(lookup(&mut c, &mut store, "gone").unwrap(), None);
    assert_eq!(store.gets, 1);
    let s = record("gone", "https://found.example.com", 0);
    store.set("sl::gone".to_string(), encode_shortlink(&s));
    assert_eq!(lookup(&mut c, &mut store, "gone").unwrap().unwrap(), s);
    assert_eq!(store.gets, 2);
}

#[test]
fn eventual_flush_carries_new_hits() {
    // a hit recorded in the cache reaches the store with the next sweep
    let mut c = Coordinator::new();
    let (prepared, _, _) = c.upsert_prepare(record("home", "https://a", 10));
    c.upsert_commit(prepared, true).unwrap();
    assert!(c.increment_hits_cached("home"));
    let expected = encode_shortlink(&record("home", "https://a", 11));
    let cmds = c.flush_commands();
    assert_eq!(cmds.len(), 1);
    assert!(cmds.iter().any(|(k, v)| k == "sl::home" && *v == expected));
}

#[test]
fn flusher_terminates_without_owners() {
    // once the owners are gone the flusher writes nothing, now or ever
    let mut c = Coordinator::new();
    let (prepared, _, _) = c.upsert_prepare(record("home", "https://a", 0));
    c.upsert_commit(prepared, true).unwrap();
    match Coordinator::flusher_tick(Some(&c), true) {
        FlushStep::Sweep(cmds) => assert_eq!(cmds.len(), 1),
        FlushStep::Terminate => panic!("owners alive: the flusher must sweep"),
    }
    assert!(matches!(Coordinator::flusher_tick(None, true), FlushStep::Terminate));
    assert!(matches!(Coordinator::flusher_tick(Some(&c), false), FlushStep::Terminate));
}

#[test]
fn lookup_all_merges_cache_over_store() {
    // store: a with 1 hit, b with 1 hit; cache: a with 9 hits
    let mut c = Coordinator::new();
    let a_cached = record("a", "https://a", 9);
    c.lookup_fetched("a", FetchOutcome::Value(encode_shortlink(&a_cached)))
        .unwrap();
    let keys = vec!["sl::a".to_string(), "sl::b".to_string()];
    let raw = vec![
        Some(encode_shortlink(&record("a", "https://a", 1))),
        Some(encode_shortlink(&record("b", "https://b", 1))),
    ];
    let merged = c.lookup_all_merge(&keys, &raw).unwrap();
    assert_eq!(merged.len(), 2);
    assert_eq!(merged[0].keyword, "a");
    assert_eq!(merged[0].hits, 9);
    assert_eq!(merged[1].keyword, "b");
    assert_eq!(merged[1].hits, 1);
}

#[test]
fn lookup_all_defaults_missing_values() {
    // an absent multi-get value stands for the default record
    let c = Coordinator::new();
    let keys = vec!["sl::ghost".to_string()];
    let raw = vec![None];
    let merged = c.lookup_all_merge(&keys, &raw).unwrap();
    assert_eq!(merged.len(), 1);
    assert_eq!(merged[0].keyword, "");
    assert_eq!(merged[0].url, "");
    assert_eq!(merged[0].hits, 0);
}

#[test]
fn lookup_all_surfaces_failures() {
    let c = Coordinator::new();
    // a reply of the wrong shape
    let keys = vec!["sl::a".to_string()];
    let raw: Vec<Option<String>> = Vec::new();
    assert_eq!(c.lookup_all_merge(&keys, &raw).unwrap_err(), DatabaseError::StoreUnavailable);
    // a key outside the namespace
    let keys = vec!["other::a".to_string()];
    let raw = vec![None];
    assert_eq!(c.lookup_all_merge(&keys, &raw).unwrap_err(), DatabaseError::StoreUnavailable);
    // a value that does not decode
    let keys = vec!["sl::a".to_string()];
    let raw = vec![Some("not a record".to_string())];
    assert_eq!(c.lookup_all_merge(&keys, &raw).unwrap_err(), DatabaseError::DecodeFailure);
}

#[test]
fn increment_hits_resolves_through_store() {
    let mut c = Coordinator::new();
    assert!(!c.increment_hits_cached("home"));
    let s = record("home", "https://a", 3);
    c.increment_hits_fetched("home", FetchOutcome::Value(encode_shortlink(&s)))
        .unwrap();
    assert_eq!(c.lookup_cached("home").unwrap().hits, 4);
}

#[test]
fn increment_hits_missing_everywhere_is_not_found() {
    let mut c = Coordinator::new();
    assert!(!c.increment_hits_cached("gone"));
    assert_eq!(
        c.increment_hits_fetched("gone", FetchOutcome::Missing).unwrap_err(),
        DatabaseError::NotFound
    );
    assert!(c.lookup_cached("gone").is_none());
}

#[test]
fn store_failures_are_surfaced_and_cache_untouched() {
    let mut c = Coordinator::new();
    assert_eq!(
        c.lookup_fetched("k", FetchOutcome::Unavailable).unwrap_err(),
        DatabaseError::StoreUnavailable
    );
    assert_eq!(
        c.increment_hits_fetched("k", FetchOutcome::Unavailable).unwrap_err(),
        DatabaseError::StoreUnavailable
    );
    assert_eq!(
        c.lookup_fetched("k", FetchOutcome::Value("garbage".to_string())).unwrap_err(),
        DatabaseError::DecodeFailure
    );
    assert!(c.lookup_cached("k").is_none());
}

#[test]
fn failed_upsert_leaves_cache_behind_the_store() {
    let mut c = Coordinator::new();
    let (prepared, _, _) = c.upsert_prepare(record("home", "https://a", 0));
    assert_eq!(c.upsert_commit(prepared, false).unwrap_err(), DatabaseError::StoreUnavailable);
    assert!(c.lookup_cached("home").is_none());
}

#[test]
fn error_messages_name_the_failure() {
    assert_eq!(DatabaseError::ConnectFailure.message(), "unable to connect to the store");
    assert_eq!(DatabaseError::StoreUnavailable.message(), "failed to query the store");
    assert_eq!(DatabaseError::DecodeFailure.message(), "failed to decode a stored record");
    assert_eq!(DatabaseError::NotFound.message(), "no record exists for the keyword");
}

#[test]
fn index_greets() {
    assert_eq!(index(), "Hello, world!");
}

#[test]
fn edit_view_fills_placeholder() {
    let (rec, create) = edit_view(None, "fresh".to_string());
    assert_eq!(rec.keyword, "fresh");
    assert_eq!(rec.url, "");
    assert!(create);
    let (rec, create) = edit_view(Some(record("old", "https://a", 2)), "fresh".to_string());
    assert_eq!(rec.keyword, "fresh");
    assert_eq!(rec.url, "https://a");
    assert!(!create);
}

#[test]
fn apply_update_merges_form_fields() {
    let existing = record("home", "https://old", 6);
    let updated = apply_update(
        Some(existing),
        "home".to_string(),
        "https://new".to_string(),
        "me".to_string(),
        "mine".to_string(),
        true,
    );
    assert_eq!(updated.keyword, "home");
    assert_eq!(updated.url, "https://new");
    assert_eq!(updated.owner, "me");
    assert_eq!(updated.description, "mine");
    assert!(updated.private);
    assert_eq!(updated.hits, 6);
}

#[test]
fn redirect_target_falls_back_to_edit() {
    let found = Some(record("home", "https://example.com", 0));
    assert_eq!(redirect_target(&found, "home"), "https://example.com");
    assert_eq!(redirect_target(&None, "fresh"), "/edit/fresh");
}
