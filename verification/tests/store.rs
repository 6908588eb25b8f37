use claw_state::binary64::Binary64;
use claw_state::cache::CacheKey;
use claw_state::database::SCHEMA;
use claw_state::error::StateError;
use claw_state::memory::MemoryQuery;
use claw_state::memory::MemoryScope;
use claw_state::rng::DefaultRng;
use claw_state::routing::PromptBucket;
use claw_state::store::check_version;
use claw_state::store::StateStore;
use claw_state::store::VersionCheck;
use claw_state::store::SCHEMA_VERSION;
use rusqlite::Connection;

#[test]
fn open_in_memory_applies_schema_and_records_version() {
    let mut in_memory = StateStore::in_memory().expect("open");
    assert!(in_memory.scoreboard().snapshot().is_ok());
    assert!(in_memory.cache().is_empty().is_ok());
    let query = MemoryQuery {
        text: "anything",
        scope: None,
        limit: 1,
    };
    assert!(in_memory.memory().recall(query).is_ok());
    let shared = "file:store_schema?mode=memory&cache=shared";
    let conn = Connection::open(shared).unwrap();
    let _store = StateStore::from_connection(Connection::open(shared).unwrap(), "", 0).expect("open");
    let version: i64 = conn
        .query_row("SELECT version FROM schema_version", [], |row| row.get(0))
        .expect("schema_version row");
    assert_eq!(version, SCHEMA_VERSION);
    // Every expected table exists.
    for table in &[
        "router_scores",
        "request_cache",
        "memory_facts",
        "memory_facts_fts",
    ] {
        let exists: i64 = conn
            .query_row(
                "SELECT COUNT(*) FROM sqlite_master WHERE name = ?",
                [table],
                |row| row.get(0),
            )
            .expect("sqlite_master query");
        assert!(exists > 0, "missing table {table}");
    }
}

#[test]
fn open_rejects_mismatched_schema_version() {
    let conn = Connection::open_in_memory().unwrap();
    conn.execute_batch(SCHEMA).unwrap();
    conn.execute("INSERT INTO schema_version(version) VALUES (?)", [99])
        .unwrap();
    let error = match StateStore::from_connection(conn, "state.sqlite", 0) {
        Err(error) => error,
        Ok(_) => panic!("mismatched version must fail"),
    };
    assert!(
        error.message().contains("schema version"),
        "unexpected error: {}",
        error.message()
    );
    assert_eq!(
        error.message(),
        "state invalid input: state store schema version 99 does not match expected 1"
    );
}

#[test]
fn a_store_opens_again_on_its_own_tables() {
    let shared = "file:store_reopen?mode=memory&cache=shared";
    let keeper = Connection::open(shared).unwrap();
    let first = StateStore::from_connection(Connection::open(shared).unwrap(), "a.sqlite", 0);
    assert_eq!(first.unwrap().path(), "a.sqlite");
    let second = StateStore::from_connection(Connection::open(shared).unwrap(), "a.sqlite", 0);
    assert!(second.is_ok());
    let rows: i64 = keeper
        .query_row("SELECT COUNT(*) FROM schema_version", [], |row| row.get(0))
        .unwrap();
    assert_eq!(rows, 1);
}

#[test]
fn a_store_in_memory_has_no_path_and_empty_tables() {
    let mut store = StateStore::in_memory().expect("store");
    assert_eq!(store.path(), "");
    assert!(store.cache().is_empty().unwrap());
    assert!(store.memory().is_empty().unwrap());
    assert!(store.scoreboard().snapshot().unwrap().is_empty());
}

#[test]
fn versions_are_checked_against_the_current_one() {
    assert!(matches!(check_version(Some(1)), VersionCheck::Current));
    assert!(matches!(check_version(None), VersionCheck::Missing));
    let text = |version| match check_version(Some(version)) {
        VersionCheck::Mismatch(message) => message,
        _ => panic!("another version must not pass"),
    };
    assert_eq!(
        text(-20),
        "state store schema version -20 does not match expected 1"
    );
    assert_eq!(
        text(i64::MIN),
        "state store schema version -9223372036854775808 does not match expected 1"
    );
    assert_eq!(text(0), "state store schema version 0 does not match expected 1");
}

#[test]
fn store_errors_name_their_source() {
    let sqlite = StateError::from(rusqlite::Error::InvalidQuery);
    assert_eq!(
        sqlite.message(),
        format!("state sqlite error: {}", rusqlite::Error::InvalidQuery)
    );
    assert!(matches!(sqlite, StateError::Sqlite(_)));
    let json: Result<u8, serde_json::Error> = serde_json::from_str("x");
    let cause = json.expect_err("not a number");
    let shown = cause.to_string();
    let serde = StateError::from(cause);
    assert_eq!(serde.message(), format!("state serde error: {shown}"));
    let io = StateError::from(std::io::Error::other("disk"));
    assert_eq!(io.message(), "state io error: disk");
    let input = StateError::InvalidInput("odd".to_string());
    assert_eq!(input.message(), "state invalid input: odd");
}

#[test]
fn a_version_query_that_cannot_be_prepared_is_handed_on() {
    let conn = Connection::open_in_memory().unwrap();
    conn.execute_batch("CREATE TABLE schema_version (other INTEGER PRIMARY KEY)")
        .unwrap();
    let refused = StateStore::from_connection(conn, "", 0);
    assert!(matches!(refused, Err(StateError::Sqlite(_))));
}

#[test]
fn facts_of_two_stores_can_be_numbered_apart() {
    let mut first = StateStore::in_memory_from(0).unwrap();
    let mut second = StateStore::in_memory_from(1 << 32).unwrap();
    let a = first.memory().insert(MemoryScope::Global, "x", &[]).unwrap();
    let b = second.memory().insert(MemoryScope::Global, "x", &[]).unwrap();
    assert!(a.id.ends_with("00000000"));
    assert!(b.id.ends_with("100000000"));
    assert_ne!(a.id, b.id);
}

#[test]
fn a_new_store_has_every_table_of_the_schema() {
    let mut store = StateStore::in_memory().unwrap();
    assert!(store.cache().is_empty().unwrap());
    assert!(store.memory().is_empty().unwrap());
    assert!(store.scoreboard().snapshot().unwrap().is_empty());
    let shared = "file:schema_tables?mode=memory&cache=shared";
    let other = Connection::open(shared).unwrap();
    let _store = StateStore::from_connection(Connection::open(shared).unwrap(), "", 0).unwrap();
    for table in [
        "schema_version",
        "router_scores",
        "request_cache",
        "memory_facts",
        "memory_facts_fts",
    ] {
        let found: i64 = other
            .query_row(
                "SELECT COUNT(*) FROM sqlite_master WHERE type = 'table' AND name = ?",
                [table],
                |row| row.get(0),
            )
            .unwrap();
        assert_eq!(found, 1, "{table}");
    }
}

#[test]
fn reading_from_tables_that_are_gone_is_an_error_of_the_database() {
    let shared = "file:dropped_tables?mode=memory&cache=shared";
    let other = Connection::open(shared).unwrap();
    let conn = Connection::open(shared).unwrap();
    let mut store = StateStore::from_connection(conn, "", 0).unwrap();
    other
        .execute_batch(
            "DROP TABLE request_cache; DROP TABLE router_scores;
             DROP TABLE memory_facts_fts; DROP TABLE memory_facts;",
        )
        .unwrap();
    let key = CacheKey::from_parts("s", "[]", "m");
    let gone = |error: StateError, table: &str| {
        assert!(matches!(error, StateError::Sqlite(_)));
        let shown = error.message();
        assert!(shown.contains(&format!("no such table: {table}")), "{shown}");
    };
    gone(store.cache().get(&key).unwrap_err(), "request_cache");
    gone(store.cache().len().unwrap_err(), "request_cache");
    gone(store.cache().is_empty().unwrap_err(), "request_cache");
    let board = store.scoreboard();
    gone(board.stats(PromptBucket::Short, "m").unwrap_err(), "router_scores");
    gone(board.snapshot().unwrap_err(), "router_scores");
    let mut rng = DefaultRng::from_seed(1);
    let picked = board.select(
        PromptBucket::Short,
        &["m".to_string()],
        Binary64::from_bits(0),
        1,
        &mut rng,
    );
    gone(picked.unwrap_err(), "router_scores");
    let memory = store.memory();
    gone(memory.get("x").unwrap_err(), "memory_facts");
    gone(memory.len().unwrap_err(), "memory_facts");
    gone(memory.is_empty().unwrap_err(), "memory_facts");
    let query = MemoryQuery {
        text: "word",
        scope: None,
        limit: 1,
    };
    gone(memory.recall(query).unwrap_err(), "memory_facts_fts");
}
