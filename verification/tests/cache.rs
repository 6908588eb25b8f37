use claw_state::cache::expires_at;
use claw_state::cache::keep_fresh;
use claw_state::cache::CacheEntry;
use claw_state::cache::CacheKey;
use claw_state::error::StateError;
use claw_state::store::StateStore;

#[test]
fn cache_key_changes_when_any_component_changes() {
    let a = CacheKey::from_parts("sys", "msgs", "model");
    let b = CacheKey::from_parts("sys2", "msgs", "model");
    let c = CacheKey::from_parts("sys", "msgs2", "model");
    let d = CacheKey::from_parts("sys", "msgs", "model2");
    assert_ne!(a, b);
    assert_ne!(a, c);
    assert_ne!(a, d);
    assert_eq!(a.as_str().len(), 64);
}

#[test]
fn put_then_get_returns_stored_response() {
    let mut store = StateStore::in_memory().expect("store");
    let mut cache = store.cache();
    let key = CacheKey::from_parts("sys", "[]", "haiku-4-5");
    cache
        .put(&key, "{\"id\":\"msg_1\"}", "haiku-4-5", None)
        .expect("put");
    let hit = cache.get(&key).expect("get").expect("cache hit");
    assert_eq!(hit.response_json, "{\"id\":\"msg_1\"}");
    assert_eq!(hit.model, "haiku-4-5");
    assert_eq!(hit.expires_at_ms, None);
}

#[test]
fn get_returns_none_for_unknown_key() {
    let mut store = StateStore::in_memory().expect("store");
    let cache = store.cache();
    let key = CacheKey::from_parts("a", "b", "c");
    assert!(cache.get(&key).expect("get").is_none());
}

#[test]
fn expired_entries_are_invisible_to_get_and_purged_by_call() {
    let mut store = StateStore::in_memory().expect("store");
    let mut cache = store.cache();
    let key = CacheKey::from_parts("sys", "[]", "model");
    cache
        .put(&key, "{}", "model", Some(0))
        .expect("put with zero TTL");
    // TTL 0 means expires at insert time, so get must miss.
    assert!(cache.get(&key).expect("get").is_none());
    let removed = cache.purge_expired().expect("purge");
    assert_eq!(removed, 1);
    assert_eq!(cache.len().expect("len"), 0);
}

#[test]
fn put_overwrites_existing_entry_for_same_key() {
    let mut store = StateStore::in_memory().expect("store");
    let mut cache = store.cache();
    let key = CacheKey::from_parts("sys", "[]", "model");
    cache.put(&key, "{\"v\":1}", "model", None).unwrap();
    cache.put(&key, "{\"v\":2}", "model", None).unwrap();
    let hit = cache.get(&key).unwrap().unwrap();
    assert_eq!(hit.response_json, "{\"v\":2}");
    assert_eq!(cache.len().unwrap(), 1);
}

fn digest_of(text: &str) -> String {
    let digest = <sha2::Sha256 as sha2::Digest>::digest(text.as_bytes());
    digest.iter().map(|byte| format!("{byte:02x}")).collect()
}

#[test]
fn the_key_is_the_digest_of_the_separated_parts() {
    let key = CacheKey::from_parts("s\u{e9}", "[]", "m");
    assert_eq!(key.as_str(), digest_of("v1\u{1f}m\u{1f}s\u{e9}\u{1f}[]"));
    let inside = CacheKey::from_parts("s", "[\u{1f}]", "m");
    assert_eq!(inside.as_str(), digest_of("v1\u{1f}m\u{1f}s\u{1f}[\u{1f}]"));
    let empty = CacheKey::from_parts("", "", "");
    assert_eq!(empty.as_str(), digest_of("v1\u{1f}\u{1f}\u{1f}"));
}

#[test]
fn parts_that_hold_a_separator_are_hashed_with_their_lengths() {
    let model = CacheKey::from_parts("s\u{e9}", "[]", "m\u{1f}");
    assert_eq!(
        model.as_str(),
        digest_of("v2\u{1f}2\u{1f}m\u{1f}2\u{1f}s\u{e9}2\u{1f}[]")
    );
    let prompt = CacheKey::from_parts("\u{1f}", "", "m");
    assert_eq!(prompt.as_str(), digest_of("v2\u{1f}1\u{1f}m1\u{1f}\u{1f}0\u{1f}"));
}

#[test]
fn a_separator_inside_a_part_does_not_make_two_requests_alike() {
    let a = CacheKey::from_parts("a", "[]", "m\u{1f}b");
    let b = CacheKey::from_parts("b\u{1f}a", "[]", "m");
    assert_ne!(a, b);
    let c = CacheKey::from_parts("", "[]", "m1\u{1f}s");
    let d = CacheKey::from_parts("s", "[]", "m");
    assert_ne!(c, d);
    let e = CacheKey::from_parts("s", "x\u{1f}[]", "m");
    let f = CacheKey::from_parts("s\u{1f}x", "[]", "m");
    assert_ne!(e, f);
}

#[test]
fn an_entry_is_found_until_it_expires() {
    let mut store = StateStore::in_memory().expect("store");
    let mut cache = store.cache();
    let key = CacheKey::from_parts("sys", "[]", "model");
    cache.put_at(&key, "{}", "model", Some(100), 1_000).unwrap();
    let hit = cache.get_at(&key, 1_099).unwrap().expect("still fresh");
    assert_eq!(
        hit,
        CacheEntry {
            response_json: "{}".to_string(),
            model: "model".to_string(),
            created_at_ms: 1_000,
            expires_at_ms: Some(1_100),
        }
    );
    assert!(cache.get_at(&key, 1_100).unwrap().is_none());
    assert_eq!(cache.len().unwrap(), 1);
    assert!(!cache.is_empty().unwrap());
}

#[test]
fn a_purge_drops_what_has_expired_and_nothing_else() {
    let mut store = StateStore::in_memory().expect("store");
    let mut cache = store.cache();
    let keys: Vec<CacheKey> = (0..4)
        .map(|i| CacheKey::from_parts("sys", &format!("{i}"), "model"))
        .collect();
    cache.put_at(&keys[0], "a", "m", Some(10), 0).unwrap();
    cache.put_at(&keys[1], "b", "m", Some(20), 0).unwrap();
    cache.put_at(&keys[2], "c", "m", Some(21), 0).unwrap();
    cache.put_at(&keys[3], "d", "m", None, 0).unwrap();
    assert_eq!(cache.purge_expired_at(20).unwrap(), 2);
    assert_eq!(cache.len().unwrap(), 2);
    assert!(cache.get_at(&keys[1], 0).unwrap().is_none());
    assert_eq!(cache.get_at(&keys[2], 20).unwrap().unwrap().response_json, "c");
    assert_eq!(cache.get_at(&keys[3], i64::MAX).unwrap().unwrap().response_json, "d");
    assert_eq!(cache.purge_expired_at(20).unwrap(), 0);
}

#[test]
fn storing_under_one_key_leaves_the_others() {
    let mut store = StateStore::in_memory().expect("store");
    let mut cache = store.cache();
    let a = CacheKey::from_parts("a", "[]", "m");
    let b = CacheKey::from_parts("b", "[]", "m");
    cache.put(&a, "first", "m", None).unwrap();
    cache.put(&b, "second", "m", None).unwrap();
    assert_eq!(cache.get(&a).unwrap().unwrap().response_json, "first");
    assert_eq!(cache.get(&b).unwrap().unwrap().response_json, "second");
}

#[test]
fn lives_and_times_of_expiry_stop_at_the_largest_number() {
    assert_eq!(expires_at(5, None), None);
    assert_eq!(expires_at(5, Some(0)), Some(5));
    assert_eq!(expires_at(5, Some(7)), Some(12));
    assert_eq!(expires_at(5, Some(u64::MAX)), Some(i64::MAX));
    assert_eq!(expires_at(i64::MAX, Some(1)), Some(i64::MAX));
    assert_eq!(expires_at(-10, Some(u64::MAX)), Some(i64::MAX - 10));
}

#[test]
fn only_fresh_entries_are_kept() {
    let entry = CacheEntry {
        response_json: "r".to_string(),
        model: "m".to_string(),
        created_at_ms: 1,
        expires_at_ms: Some(10),
    };
    assert_eq!(keep_fresh(None, 0), None);
    assert_eq!(keep_fresh(Some(entry.clone()), 9), Some(entry.clone()));
    assert_eq!(keep_fresh(Some(entry.clone()), 10), None);
    let lasting = CacheEntry {
        expires_at_ms: None,
        ..entry
    };
    assert_eq!(keep_fresh(Some(lasting.clone()), i64::MAX), Some(lasting));
}

#[test]
fn a_connection_that_cannot_write_is_an_error_of_the_database() {
    let conn = rusqlite::Connection::open_in_memory().unwrap();
    let mut store = StateStore::from_connection(conn, "", 0).unwrap();
    let key = CacheKey::from_parts("a", "[]", "m");
    store.cache().put(&key, "first", "m", None).unwrap();
    let shared = "file:cache_readonly?mode=memory&cache=shared";
    let keeper = rusqlite::Connection::open(shared).unwrap();
    keeper.execute_batch("PRAGMA query_only = ON").unwrap();
    let refused = StateStore::from_connection(keeper, "", 0);
    assert!(matches!(refused, Err(StateError::Sqlite(_))));
}

#[test]
fn entries_are_stored_at_the_present_time() {
    let now = || -> i64 {
        let since = std::time::SystemTime::now().duration_since(std::time::UNIX_EPOCH);
        since.unwrap().as_millis() as i64
    };
    let mut store = StateStore::in_memory().expect("store");
    let mut cache = store.cache();
    let key = CacheKey::from_parts("sys", "[]", "model");
    let before = now();
    cache.put(&key, "{}", "model", Some(60_000)).unwrap();
    let after = now();
    let hit = cache.get(&key).unwrap().expect("cache hit");
    assert!(before <= hit.created_at_ms && hit.created_at_ms <= after);
    assert_eq!(hit.expires_at_ms, Some(hit.created_at_ms + 60_000));
}
