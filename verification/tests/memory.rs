use claw_state::embedding::Binary32;
use claw_state::embedding::EmbeddingProvider;
use claw_state::embedding::NoopEmbeddingProvider;
use claw_state::error::StateError;
use claw_state::memory::build_match_expression;
use claw_state::memory::decode_memory_row;
use claw_state::memory::make_id;
use claw_state::memory::MemoryQuery;
use claw_state::memory::MemoryScope;
use claw_state::store::StateStore;

#[test]
fn insert_and_recall_surface_matching_facts_by_keyword() {
    let mut store = StateStore::in_memory().expect("store");
    let mut memory = store.memory();
    memory
        .insert(
            MemoryScope::Global,
            "User prefers Rust for systems programming",
            &["preference".to_string(), "language".to_string()],
        )
        .expect("insert");
    memory
        .insert(MemoryScope::Global, "Working on claw-code", &[])
        .expect("insert");
    memory
        .insert(MemoryScope::Global, "Prefers dark theme UIs", &[])
        .expect("insert");

    let hits = memory
        .recall(MemoryQuery {
            text: "rust language",
            scope: None,
            limit: 5,
        })
        .expect("recall");
    assert!(
        hits.iter().any(|fact| fact.content.contains("Rust")),
        "expected a Rust fact, got {hits:?}"
    );
}

#[test]
fn recall_short_circuits_on_empty_query() {
    let mut store = StateStore::in_memory().expect("store");
    let mut memory = store.memory();
    memory
        .insert(MemoryScope::Global, "something", &[])
        .unwrap();
    let hits = memory
        .recall(MemoryQuery {
            text: "   ",
            scope: None,
            limit: 5,
        })
        .unwrap();
    assert!(hits.is_empty());
}

#[test]
fn recall_respects_scope_filter() {
    let mut store = StateStore::in_memory().expect("store");
    let mut memory = store.memory();
    memory
        .insert(MemoryScope::Global, "global scope fact about Rust", &[])
        .unwrap();
    memory
        .insert(
            MemoryScope::Session {
                id: "session-42".into(),
            },
            "session fact about Rust",
            &[],
        )
        .unwrap();

    let session_hits = memory
        .recall(MemoryQuery {
            text: "rust",
            scope: Some(&MemoryScope::Session {
                id: "session-42".into(),
            }),
            limit: 10,
        })
        .unwrap();
    assert_eq!(session_hits.len(), 1);
    assert!(session_hits[0].content.contains("session fact"));
}

#[test]
fn insert_rejects_empty_content() {
    let mut store = StateStore::in_memory().expect("store");
    let mut memory = store.memory();
    let error = memory
        .insert(MemoryScope::Global, "   ", &[])
        .expect_err("empty content must fail");
    assert!(error.message().contains("cannot be empty"));
    assert!(matches!(error, StateError::InvalidInput(_)));
    assert_eq!(memory.len().unwrap(), 0);
}

#[test]
fn delete_removes_fact_from_both_table_and_fts_index() {
    let mut store = StateStore::in_memory().expect("store");
    let mut memory = store.memory();
    let fact = memory
        .insert(MemoryScope::Global, "target fact", &[])
        .unwrap();
    assert!(memory.delete(&fact.id).unwrap());
    assert!(memory.get(&fact.id).unwrap().is_none());
    let hits = memory
        .recall(MemoryQuery {
            text: "target",
            scope: None,
            limit: 5,
        })
        .unwrap();
    assert!(hits.is_empty());
}

#[test]
fn recall_honors_limit() {
    let mut store = StateStore::in_memory().expect("store");
    let mut memory = store.memory();
    for i in 0..10 {
        memory
            .insert(
                MemoryScope::Global,
                &format!("fact about rust number {i}"),
                &[],
            )
            .unwrap();
    }
    let hits = memory
        .recall(MemoryQuery {
            text: "rust",
            scope: None,
            limit: 3,
        })
        .unwrap();
    assert_eq!(hits.len(), 3);
}

#[test]
fn memory_scope_encode_decode_roundtrip() {
    let scopes = [
        MemoryScope::Global,
        MemoryScope::Workspace { hash: "abc".into() },
        MemoryScope::Session { id: "42".into() },
    ];
    for scope in scopes {
        let encoded = scope.encode();
        let decoded = MemoryScope::decode(&encoded);
        assert_eq!(scope, decoded);
    }
}

#[test]
fn build_match_expression_quotes_tokens_and_strips_punctuation() {
    assert_eq!(
        build_match_expression("I love Rust!  programming"),
        "\"i\" OR \"love\" OR \"rust\" OR \"programming\""
    );
}

#[test]
fn match_expressions_of_odd_texts() {
    assert_eq!(build_match_expression(""), "\"__claw_never_match__\"");
    assert_eq!(build_match_expression("!?\""), "\"__claw_never_match__\"");
    assert_eq!(build_match_expression("snake_case-Kebab"), "\"snake_case\" OR \"kebab\"");
    assert_eq!(build_match_expression("a\" OR b*"), "\"a\" OR \"or\" OR \"b\"");
    assert_eq!(build_match_expression("\tTab\nÉcole\u{a0}x"), "\"tab\" OR \"école\" OR \"x\"");
    assert_eq!(build_match_expression("7up"), "\"7up\"");
    assert_eq!(build_match_expression("ÉCOLE"), "\"école\"");
    assert_eq!(build_match_expression("ΔΙΚΗ straße"), "\"δικη\" OR \"straße\"");
}

#[test]
fn scopes_are_stored_by_a_prefix() {
    assert_eq!(MemoryScope::Global.encode(), "global");
    assert_eq!(
        MemoryScope::Workspace { hash: "h".into() }.encode(),
        "workspace:h"
    );
    assert_eq!(MemoryScope::Session { id: "".into() }.encode(), "session:");
    assert_eq!(MemoryScope::decode("elsewhere"), MemoryScope::Global);
    assert_eq!(MemoryScope::decode(""), MemoryScope::Global);
    assert_eq!(
        MemoryScope::decode("session:workspace:x"),
        MemoryScope::Session {
            id: "workspace:x".into()
        }
    );
}

#[test]
fn a_stored_fact_is_read_back() {
    let mut store = StateStore::in_memory().expect("store");
    let mut memory = store.memory();
    let scope = MemoryScope::Workspace { hash: "w".into() };
    let tags = vec!["one".to_string(), "".to_string(), "three".to_string()];
    let stored = memory.insert(scope, "a fact", &tags).unwrap();
    let read = memory.get(&stored.id).unwrap().expect("stored");
    assert_eq!(read, stored);
    assert_eq!(read.tags, tags);
    assert_eq!(read.created_at_ms, read.updated_at_ms);
    assert!(memory.get("nothing").unwrap().is_none());
    assert!(!memory.delete("nothing").unwrap());
    assert_eq!(memory.len().unwrap(), 1);
    assert!(!memory.is_empty().unwrap());
}

#[test]
fn commas_part_tags_and_a_lone_empty_tag_is_lost() {
    let mut store = StateStore::in_memory().expect("store");
    let mut memory = store.memory();
    let parted = memory
        .insert(MemoryScope::Global, "x", &["a,b".to_string()])
        .unwrap();
    assert_eq!(memory.get(&parted.id).unwrap().unwrap().tags, vec!["a", "b"]);
    let lost = memory
        .insert(MemoryScope::Global, "y", &["".to_string()])
        .unwrap();
    assert!(memory.get(&lost.id).unwrap().unwrap().tags.is_empty());
    let none = memory.insert(MemoryScope::Global, "z", &[]).unwrap();
    assert!(memory.get(&none.id).unwrap().unwrap().tags.is_empty());
}

#[test]
fn ids_hold_the_time_and_a_running_number() {
    assert_eq!(make_id(0, 0), "mem_000000000000000000000000");
    assert_eq!(make_id(0x1234_abcd, 255), "mem_000000001234abcd000000ff");
    assert_eq!(make_id(u64::MAX, 0x1_0000_0000), "mem_ffffffffffffffff100000000");
    let mut store = StateStore::in_memory().expect("store");
    let mut memory = store.memory();
    let first = memory.insert(MemoryScope::Global, "a", &[]).unwrap();
    let second = memory.insert(MemoryScope::Global, "b", &[]).unwrap();
    assert!(first.id.starts_with("mem_"));
    assert!(first.id.ends_with("00000000"));
    assert!(second.id.ends_with("00000001"));
    assert_eq!(first.id.len(), 28);
}

#[test]
fn an_id_is_stored_once() {
    let mut store = StateStore::in_memory().expect("store");
    let mut memory = store.memory();
    let global = MemoryScope::Global;
    memory
        .insert_as("id".to_string(), global.clone(), "first", &[], &[], 5)
        .unwrap();
    let again = memory.insert_as("id".to_string(), global, "second", &[], &[], 6);
    assert!(matches!(again, Err(StateError::Sqlite(_))));
    let kept = memory.get("id").unwrap().unwrap();
    assert_eq!(kept.content, "first");
    assert_eq!(kept.created_at_ms, 5);
    let hits = memory
        .recall(MemoryQuery {
            text: "second",
            scope: None,
            limit: 5,
        })
        .unwrap();
    assert!(hits.is_empty());
}

#[test]
fn better_matches_come_first() {
    let mut store = StateStore::in_memory().expect("store");
    let mut memory = store.memory();
    let mut insert = |id: &str, content: &str| {
        memory
            .insert_as(id.to_string(), MemoryScope::Global, content, &[], &[], 1)
            .unwrap();
    };
    insert("weak", "ferris and many other words that have nothing to do with it at all");
    insert("strong", "ferris ferris");
    insert("none", "something else");
    let hits = memory
        .recall(MemoryQuery {
            text: "Ferris!",
            scope: None,
            limit: 10,
        })
        .unwrap();
    let ids: Vec<&str> = hits.iter().map(|fact| fact.id.as_str()).collect();
    assert_eq!(ids, vec!["strong", "weak"]);
    let one = memory
        .recall(MemoryQuery {
            text: "ferris",
            scope: None,
            limit: 1,
        })
        .unwrap();
    assert_eq!(one[0].id, "strong");
    let zero = memory
        .recall(MemoryQuery {
            text: "ferris",
            scope: None,
            limit: 0,
        })
        .unwrap();
    assert!(zero.is_empty());
    let many = memory
        .recall(MemoryQuery {
            text: "ferris",
            scope: None,
            limit: usize::MAX,
        })
        .unwrap();
    assert_eq!(many.len(), 2);
}

#[test]
fn tags_are_searched_too() {
    let mut store = StateStore::in_memory().expect("store");
    let mut memory = store.memory();
    memory
        .insert(MemoryScope::Global, "plain", &["crustacean".to_string()])
        .unwrap();
    let hits = memory
        .recall(MemoryQuery {
            text: "crustacean",
            scope: Some(&MemoryScope::Global),
            limit: 2,
        })
        .unwrap();
    assert_eq!(hits.len(), 1);
    assert_eq!(hits[0].tags, vec!["crustacean"]);
}

struct FixedEmbedding;

impl EmbeddingProvider for FixedEmbedding {
    fn dimension(&self) -> usize {
        2
    }

    fn embed(&self, text: &str) -> Result<Vec<Binary32>, StateError> {
        if text.contains("fail") {
            return Err(StateError::InvalidInput("no model".to_string()));
        }
        Ok(vec![
            Binary32::from_bits(1.0f32.to_bits()),
            Binary32::from_bits((text.len() as f32).to_bits()),
        ])
    }
}

#[test]
fn vectors_are_stored_with_their_facts() {
    let shared = "file:memory_vectors?mode=memory&cache=shared";
    let keeper = rusqlite::Connection::open(shared).unwrap();
    let mut store =
        StateStore::from_connection(rusqlite::Connection::open(shared).unwrap(), "", 7).unwrap();
    let fact = store
        .memory_with_embeddings(FixedEmbedding)
        .insert(MemoryScope::Global, "text", &[])
        .unwrap();
    assert!(fact.id.ends_with("00000007"));
    let blob: Vec<u8> = keeper
        .query_row("SELECT embedding FROM memory_facts WHERE id = ?", [&fact.id], |row| row.get(0))
        .unwrap();
    let mut expected = 1.0f32.to_le_bytes().to_vec();
    expected.extend_from_slice(&4.0f32.to_le_bytes());
    assert_eq!(blob, expected);
    let plain = store
        .memory_with_embeddings(NoopEmbeddingProvider)
        .insert(MemoryScope::Global, "plain", &[])
        .unwrap();
    let missing: Option<Vec<u8>> = keeper
        .query_row("SELECT embedding FROM memory_facts WHERE id = ?", [&plain.id], |row| row.get(0))
        .unwrap();
    assert_eq!(missing, None);
    let mut memory = store.memory_with_embeddings(FixedEmbedding);
    let error = memory
        .insert(MemoryScope::Global, "fail", &[])
        .expect_err("the provider fails");
    assert_eq!(error.message(), "state invalid input: no model");
    assert_eq!(memory.len().unwrap(), 2);
}

#[test]
fn records_are_decoded() {
    let fact = decode_memory_row((
        "id".to_string(),
        "session:s".to_string(),
        "content".to_string(),
        "a,,b".to_string(),
        3,
        4,
    ));
    assert_eq!(fact.scope, MemoryScope::Session { id: "s".into() });
    assert_eq!(fact.tags, vec!["a", "", "b"]);
    assert_eq!(fact.created_at_ms, 3);
    assert_eq!(fact.updated_at_ms, 4);
}

#[test]
fn a_query_without_words_recalls_nothing() {
    let mut store = StateStore::in_memory().expect("store");
    let mut memory = store.memory();
    memory
        .insert(MemoryScope::Global, "claw never match", &[])
        .unwrap();
    for text in ["!!!", "?", "\u{2014}"] {
        let hits = memory
            .recall(MemoryQuery {
                text,
                scope: None,
                limit: 5,
            })
            .unwrap();
        assert!(hits.is_empty());
    }
}

#[test]
fn facts_are_found_whatever_the_case_of_the_query() {
    let mut store = StateStore::in_memory().expect("store");
    let mut memory = store.memory();
    memory
        .insert(MemoryScope::Global, "Visited the école", &[])
        .unwrap();
    let hits = memory
        .recall(MemoryQuery {
            text: "ÉCOLE",
            scope: None,
            limit: 5,
        })
        .unwrap();
    assert_eq!(hits.len(), 1);
}
