//! The state store: one database for the scoreboard, the cache and the facts.

use crate::cache::CacheHandle;
use crate::database::create_tables;
use crate::database::fetch_schema_version;
use crate::database::insert_schema_version;
use crate::database::open_in_memory;
use crate::database::CachedRow;
use crate::database::Database;
use crate::database::FactRow;
use crate::database::Scores;
use crate::embedding::EmbeddingProvider;
use crate::embedding::NoopEmbeddingProvider;
use crate::error::labelled;
use crate::error::StateError;
use crate::memory::MemoryHandle;
use crate::scoreboard::ScoreboardHandle;
use crate::text::decimal;
use crate::text::decimal_of;
use rusqlite::Connection;
use vstd::prelude::*;
use vstd::string::*;

verus! {

/// The version of the schema.
pub const SCHEMA_VERSION: i64 = 1;

/// What a store is told that has a schema of another version.
pub open spec fn mismatch_message(version: i64) -> Seq<char> {
    "state store schema version "@ + decimal(version as int) + " does not match expected 1"@
}

/// What is to be done with a store by the version found in it.
#[derive(Debug)]
pub enum VersionCheck {
    /// The version is the current one.
    Current,
    /// There is no version yet.
    Missing,
    /// The version is another one.
    Mismatch(String),
}

/// What is to be done with a store by the version found in it.
pub fn check_version(existing: Option<i64>) -> (r: VersionCheck)
    ensures
        match existing {
            Some(version) => if version == SCHEMA_VERSION {
                r == VersionCheck::Current
            } else {
                r matches VersionCheck::Mismatch(message) && message@ == mismatch_message(version)
            },
            None => r == VersionCheck::Missing,
        },
{
    match existing {
        Some(version) => if version == SCHEMA_VERSION {
            VersionCheck::Current
        } else {
            let mut message: String = labelled(
                "state store schema version ",
                decimal_of(version).as_str(),
            );
            message.append(" does not match expected 1");
            VersionCheck::Mismatch(message)
        },
        None => VersionCheck::Missing,
    }
}

/// What a query for the version gives: the query cannot be prepared, or it fails,
/// or it gives a version, or none.
pub type VersionAnswer = Result<Result<Option<i64>, rusqlite::Error>, rusqlite::Error>;

/// Whether an answer is what the query for the version gave on a connection.
pub open(crate) spec fn is_version_read(conn: Connection, answer: VersionAnswer) -> bool {
    call_ensures(fetch_schema_version, (&conn,), answer)
}

/// What of an answer is checked: the version that was given. A query that failed
/// counts as one that gave none.
pub open spec fn found_version(answer: Result<Option<i64>, rusqlite::Error>) -> Option<i64> {
    match answer {
        Ok(found) => found,
        Err(_) => None,
    }
}

/// Whether a database is what the answer to the query for the version makes of
/// it: nothing changes where the query cannot be prepared or gives a version, of
/// which only the current one passes, and where there is none the current one
/// is put there.
pub open spec fn is_version_recorded(
    before: Database,
    answer: VersionAnswer,
    r: Result<(), StateError>,
    after: Database,
) -> bool {
    match answer {
        Err(error) => r == Err::<(), StateError>(StateError::Sqlite(error)) && after == before,
        Ok(reply) => match found_version(reply) {
            Some(version) => {
                &&& after == before
                &&& if version == SCHEMA_VERSION {
                    r is Ok
                } else {
                    r matches Err(StateError::InvalidInput(message)) && message@
                        == mismatch_message(version)
                }
            },
            None => {
                &&& r matches Err(error) ==> error is Sqlite
                &&& before.is_exclusive() ==> {
                    &&& after.is_exclusive()
                    &&& before.has_tables() ==> after.has_tables()
                    &&& after.cache() == before.cache()
                    &&& after.scores() == before.scores()
                    &&& after.times() == before.times()
                    &&& after.facts() == before.facts()
                    &&& after.versions() == (if r is Ok {
                        before.versions().insert(SCHEMA_VERSION)
                    } else {
                        before.versions()
                    })
                }
            },
        },
    }
}

/// Hold the version in a database to the current one, and put that there where
/// there is none. A version that cannot be read counts as none.
fn record_schema_version(db: &mut Database) -> (r: Result<(), StateError>)
    ensures
        exists|answer: VersionAnswer|
            #[trigger] is_version_read(old(db).conn, answer) && is_version_recorded(
                *old(db),
                answer,
                r,
                *final(db),
            ),
        final(db).next_tick() == old(db).next_tick(),
{
    let answer: VersionAnswer = fetch_schema_version(&db.conn);
    let ghost given = answer;
    assert(is_version_read(old(db).conn, given));
    let existing: Option<i64> = match answer {
        Ok(Ok(found)) => found,
        Ok(Err(_)) => None,
        Err(error) => {
            return Err(StateError::from(error));
        },
    };
    match check_version(existing) {
        VersionCheck::Current => Ok(()),
        VersionCheck::Mismatch(message) => Err(StateError::InvalidInput(message)),
        VersionCheck::Missing => match insert_schema_version(&mut db.conn, SCHEMA_VERSION) {
            Ok(_) => Ok(()),
            Err(error) => Err(StateError::from(error)),
        },
    }
}

/// One store owns one connection. Handles for the scoreboard, the cache and the
/// facts borrow it.
pub struct StateStore {
    pub db: Database,
    /// The path of the file that holds the store; empty where none does.
    pub path: String,
}

/// Whether a result is an empty store in memory, if there is one.
pub open spec fn is_fresh_store(r: Result<StateStore, StateError>, first_tick: u64) -> bool {
    match r {
        Ok(store) => {
            &&& store.db.is_exclusive()
            &&& store.db.has_tables()
            &&& store.db.versions() == set![SCHEMA_VERSION]
            &&& store.db.cache() == Map::<Seq<char>, CachedRow>::empty()
            &&& store.db.scores() == Map::<(Seq<char>, Seq<char>), Scores>::empty()
            &&& store.db.times() == Map::<(Seq<char>, Seq<char>), i64>::empty()
            &&& store.db.facts() == Map::<Seq<char>, FactRow>::empty()
            &&& store.db.next_tick() == first_tick
            &&& store.path@.len() == 0
        },
        Err(error) => error is Sqlite,
    }
}

impl StateStore {
    /// A store on a connection that is already open: the tables are created
    /// where they do not exist, and the version is held to the current one.
    /// Facts are numbered from `first_tick` on.
    pub fn from_connection(conn: Connection, path: &str, first_tick: u64) -> (r: Result<
        StateStore,
        StateError,
    >)
        ensures
            match r {
                Ok(store) => {
                    &&& store.path@ == path@
                    &&& store.db.next_tick() == first_tick
                    &&& exists|opened: Connection, reply: Result<Option<i64>, rusqlite::Error>|
                        {
                            &&& #[trigger] is_version_read(opened, Ok(reply))
                            &&& crate::database::exclusive(conn)
                                ==> crate::database::same_tables(conn, opened)
                            &&& found_version(reply) is None || found_version(reply) == Some(
                                SCHEMA_VERSION,
                            )
                        }
                },
                Err(StateError::InvalidInput(message)) => exists|opened: Connection, version: i64|
                    {
                        &&& #[trigger] is_version_read(opened, Ok(Ok(Some(version))))
                        &&& crate::database::exclusive(conn)
                            ==> crate::database::same_tables(conn, opened)
                        &&& version != SCHEMA_VERSION
                        &&& message@ == mismatch_message(version)
                    },
                Err(error) => error is Sqlite,
            },
            crate::database::exclusive(conn) ==> match r {
                Ok(store) => {
                    &&& store.db.is_exclusive()
                    &&& store.db.has_tables()
                    &&& store.db.versions() == crate::database::schema_versions(conn).insert(
                        SCHEMA_VERSION,
                    )
                    &&& store.db.cache() == crate::database::request_cache(conn)
                    &&& store.db.scores() == crate::database::router_scores(conn)
                    &&& store.db.times() == crate::database::score_times(conn)
                    &&& store.db.facts() == crate::database::memory_facts(conn)
                },
                Err(StateError::InvalidInput(message)) => exists|version: i64|
                    {
                        &&& crate::database::schema_versions(conn).contains(version)
                        &&& version != SCHEMA_VERSION
                        &&& message@ == #[trigger] mismatch_message(version)
                    },
                Err(_) => true,
            },
    {
        let mut db: Database = Database { conn, tick: first_tick };
        match create_tables(&mut db.conn) {
            Ok(()) => {},
            Err(error) => {
                return Err(StateError::from(error));
            },
        }
        let ghost opened = db.conn;
        let recorded: Result<(), StateError> = record_schema_version(&mut db);
        proof {
            let answer = choose|answer: VersionAnswer|
                #[trigger] is_version_read(opened, answer) && is_version_recorded(
                    Database { conn: opened, tick: first_tick },
                    answer,
                    recorded,
                    db,
                );
            if crate::database::exclusive(conn) {
                assert(crate::database::schema_versions(conn).contains(SCHEMA_VERSION)
                    ==> crate::database::schema_versions(conn).insert(SCHEMA_VERSION)
                    =~= crate::database::schema_versions(conn));
            }
            if let Ok(reply) = answer {
                assert(is_version_read(opened, Ok(reply)));
            }
        }
        match recorded {
            Ok(()) => Ok(StateStore { db, path: path.to_owned() }),
            Err(error) => Err(error),
        }
    }

    /// An empty store in memory.
    pub fn in_memory() -> (r: Result<StateStore, StateError>)
        ensures
            is_fresh_store(r, 0),
    {
        StateStore::in_memory_from(0)
    }

    /// An empty store in memory, whose facts are numbered from `first_tick` on.
    pub fn in_memory_from(first_tick: u64) -> (r: Result<StateStore, StateError>)
        ensures
            is_fresh_store(r, first_tick),
    {
        match open_in_memory() {
            Ok(conn) => {
                proof {
                    reveal_strlit("");
                }
                let r: Result<StateStore, StateError> = StateStore::from_connection(
                    conn,
                    "",
                    first_tick,
                );
                assert(Set::<i64>::empty().insert(SCHEMA_VERSION) =~= set![SCHEMA_VERSION]);
                r
            },
            Err(error) => Err(StateError::from(error)),
        }
    }

    /// The path of the file that holds the store; empty where none does.
    pub fn path(&self) -> (r: &str)
        ensures
            r@ == self.path@,
    {
        self.path.as_str()
    }

    pub fn scoreboard(&mut self) -> (r: ScoreboardHandle<'_>)
        ensures
            *r.db == old(self).db,
            final(self).db == *final(r.db),
            final(self).path@ == old(self).path@,
    {
        ScoreboardHandle { db: &mut self.db }
    }

    pub fn cache(&mut self) -> (r: CacheHandle<'_>)
        ensures
            *r.db == old(self).db,
            final(self).db == *final(r.db),
            final(self).path@ == old(self).path@,
    {
        CacheHandle { db: &mut self.db }
    }

    /// The facts, without embeddings.
    pub fn memory(&mut self) -> (r: MemoryHandle<'_, NoopEmbeddingProvider>)
        ensures
            *r.db == old(self).db,
            final(self).db == *final(r.db),
            final(self).path@ == old(self).path@,
    {
        MemoryHandle { db: &mut self.db, embedder: NoopEmbeddingProvider }
    }

    /// The facts, with a provider of embeddings.
    pub fn memory_with_embeddings<E: EmbeddingProvider>(&mut self, provider: E) -> (r: MemoryHandle<
        '_,
        E,
    >)
        ensures
            *r.db == old(self).db,
            r.embedder == provider,
            final(self).db == *final(r.db),
            final(self).path@ == old(self).path@,
    {
        MemoryHandle { db: &mut self.db, embedder: provider }
    }
}

/// A store with a version of the schema is taken if that is the first one, and
/// refused, unchanged, if it is any other.
pub proof fn lemma_only_the_first_version_passes(
    before: Database,
    version: i64,
    r: Result<(), StateError>,
    after: Database,
)
    requires
        is_version_recorded(before, Ok(Ok(Some(version))), r, after),
    ensures
        r is Ok <==> version == 1,
        version != 1 ==> r->Err_0 is InvalidInput,
        after == before,
{
}

/// A store without a version gets the first one, and keeps its rows.
pub proof fn lemma_a_missing_version_is_put_there(
    before: Database,
    answer: Result<Option<i64>, rusqlite::Error>,
    r: Result<(), StateError>,
    after: Database,
)
    requires
        before.is_exclusive(),
        answer is Err || answer == Ok::<Option<i64>, rusqlite::Error>(None),
        is_version_recorded(before, Ok(answer), r, after),
    ensures
        r is Ok ==> after.versions() == before.versions().insert(1),
        r is Err ==> after.versions() == before.versions(),
        after.cache() == before.cache(),
        after.scores() == before.scores(),
        after.times() == before.times(),
        after.facts() == before.facts(),
{
}

/// A new store in memory is empty and of the first version.
pub proof fn lemma_a_new_store_is_empty(
    store: StateStore,
    first_tick: u64,
    text: Seq<char>,
    model: Seq<char>,
)
    requires
        is_fresh_store(Ok(store), first_tick),
    ensures
        store.db.is_exclusive(),
        store.db.has_tables(),
        store.db.versions().contains(1),
        store.db.versions().len() == 1,
        !store.db.cache().contains_key(text),
        !store.db.facts().contains_key(text),
        !store.db.scores().contains_key((text, model)),
        store.db.next_tick() == first_tick,
        store.path@.len() == 0,
{
    assert(store.db.versions() =~= Set::<i64>::empty().insert(1));
}

} // verus!
