//! The tables of the store, and the SQL statements that read and change them.
//!
//! A connection is opaque. What its tables hold is named by functions of the
//! connection, and each statement is a function whose contract says what it
//! does to those tables.

use rusqlite::Connection;
use rusqlite::OptionalExtension;
use vstd::prelude::*;

verus! {

#[verifier::external_type_specification]
#[verifier::external_body]
pub struct ExConnection(rusqlite::Connection);

/// A row of `request_cache`: response, model, time of creation and time of
/// expiry.
pub type CachedRow = (Seq<char>, Seq<char>, i64, Option<i64>);

/// The counts of a row of `router_scores`: successes, failures, latency, input
/// tokens and output tokens.
pub type Scores = (i64, i64, i64, i64, i64);

/// A row of `memory_facts`: scope, content, tags, embedding, time of creation
/// and time of change.
pub type FactRow = (Seq<char>, Seq<char>, Seq<char>, Option<Seq<u8>>, i64, i64);

/// A fact as a query gives it out: id, scope, content, tags, time of creation
/// and time of change.
pub type FactRecord = (String, String, String, String, i64, i64);

/// Whether the database behind a connection is reached through this connection
/// only and was changed by the statements below only, so that it has no tables
/// but those of the schema and the text index agrees with `memory_facts`.
pub uninterp spec fn exclusive(conn: Connection) -> bool;

/// Whether the tables and indexes of the schema exist.
pub uninterp spec fn tables_exist(conn: Connection) -> bool;

/// The rows of `schema_version`.
pub uninterp spec fn schema_versions(conn: Connection) -> Set<i64>;

/// The rows of `request_cache` by their key.
pub uninterp spec fn request_cache(conn: Connection) -> Map<Seq<char>, CachedRow>;

/// The counts in `router_scores` by class and model. Those of a row in which a
/// sum has left the range of 64-bit integers are not meant.
pub uninterp spec fn router_scores(conn: Connection) -> Map<(Seq<char>, Seq<char>), Scores>;

/// The times of the last change in `router_scores` by class and model.
pub uninterp spec fn score_times(conn: Connection) -> Map<(Seq<char>, Seq<char>), i64>;

/// The rows of `memory_facts` by their id.
pub uninterp spec fn memory_facts(conn: Connection) -> Map<Seq<char>, FactRow>;

/// The place that the full-text ranking `bm25` gives to the fact with an id for
/// a match expression; better matches have smaller numbers. How the engine
/// computes it is not said.
pub uninterp spec fn match_rank(conn: Connection, expression: Seq<char>, id: Seq<char>) -> int;

/// Whether a full-text match expression fits a content and tags. How the engine
/// parts texts into words and compares them is not said.
pub uninterp spec fn text_matches(
    expression: Seq<char>,
    content: Seq<char>,
    tags: Seq<char>,
) -> bool;

/// Whether the tables are there as before and hold the same, except possibly the
/// cache.
pub open spec fn same_but_cache(a: Connection, b: Connection) -> bool {
    &&& exclusive(b)
    &&& tables_exist(a) ==> tables_exist(b)
    &&& schema_versions(a) == schema_versions(b)
    &&& router_scores(a) == router_scores(b)
    &&& score_times(a) == score_times(b)
    &&& memory_facts(a) == memory_facts(b)
}

/// Whether the tables are there as before and hold the same, except possibly the
/// scores.
pub open spec fn same_but_scores(a: Connection, b: Connection) -> bool {
    &&& exclusive(b)
    &&& tables_exist(a) ==> tables_exist(b)
    &&& schema_versions(a) == schema_versions(b)
    &&& request_cache(a) == request_cache(b)
    &&& memory_facts(a) == memory_facts(b)
}

/// Whether the tables are there as before and hold the same, except possibly the
/// facts.
pub open spec fn same_but_facts(a: Connection, b: Connection) -> bool {
    &&& exclusive(b)
    &&& tables_exist(a) ==> tables_exist(b)
    &&& schema_versions(a) == schema_versions(b)
    &&& request_cache(a) == request_cache(b)
    &&& router_scores(a) == router_scores(b)
    &&& score_times(a) == score_times(b)
}

/// Whether the tables are there as before and hold the same, except possibly the
/// schema version.
pub open spec fn same_but_version(a: Connection, b: Connection) -> bool {
    &&& exclusive(b)
    &&& tables_exist(a) ==> tables_exist(b)
    &&& request_cache(a) == request_cache(b)
    &&& router_scores(a) == router_scores(b)
    &&& score_times(a) == score_times(b)
    &&& memory_facts(a) == memory_facts(b)
}

/// Whether the tables are there as before and hold the same.
pub open spec fn same_tables(a: Connection, b: Connection) -> bool {
    same_but_version(a, b) && schema_versions(a) == schema_versions(b)
}

/// The tables and indexes of the store.
pub const SCHEMA: &'static str = "\
CREATE TABLE IF NOT EXISTS schema_version (
    version INTEGER PRIMARY KEY
);

CREATE TABLE IF NOT EXISTS router_scores (
    bucket TEXT NOT NULL,
    model TEXT NOT NULL,
    successes INTEGER NOT NULL DEFAULT 0,
    failures INTEGER NOT NULL DEFAULT 0,
    total_latency_ms INTEGER NOT NULL DEFAULT 0,
    total_input_tokens INTEGER NOT NULL DEFAULT 0,
    total_output_tokens INTEGER NOT NULL DEFAULT 0,
    updated_at_ms INTEGER NOT NULL,
    PRIMARY KEY (bucket, model)
);

CREATE TABLE IF NOT EXISTS request_cache (
    cache_key TEXT PRIMARY KEY,
    response_json TEXT NOT NULL,
    model TEXT NOT NULL,
    created_at_ms INTEGER NOT NULL,
    expires_at_ms INTEGER
);

CREATE INDEX IF NOT EXISTS idx_request_cache_expires
    ON request_cache(expires_at_ms);

CREATE TABLE IF NOT EXISTS memory_facts (
    id TEXT PRIMARY KEY,
    scope TEXT NOT NULL,
    content TEXT NOT NULL,
    tags TEXT NOT NULL DEFAULT '',
    embedding BLOB,
    created_at_ms INTEGER NOT NULL,
    updated_at_ms INTEGER NOT NULL
);

CREATE INDEX IF NOT EXISTS idx_memory_facts_scope
    ON memory_facts(scope);

CREATE VIRTUAL TABLE IF NOT EXISTS memory_facts_fts USING fts5(
    content,
    tags,
    content='memory_facts',
    content_rowid='rowid'
);
";

/// `Connection::open_in_memory` opens a new, empty database that no other
/// connection reaches.
#[verifier::external_body]
pub(crate) fn open_in_memory() -> (r: Result<Connection, rusqlite::Error>)
    ensures
        r is Ok ==> exclusive(r->Ok_0),
        r is Ok ==> schema_versions(r->Ok_0) =~= Set::empty(),
        r is Ok ==> request_cache(r->Ok_0) =~= Map::empty(),
        r is Ok ==> router_scores(r->Ok_0) =~= Map::empty(),
        r is Ok ==> score_times(r->Ok_0) =~= Map::empty(),
        r is Ok ==> memory_facts(r->Ok_0) =~= Map::empty(),
{
    Connection::open_in_memory()
}

/// `Connection::execute_batch` on the schema creates the tables and indexes
/// that do not exist yet. It writes no rows.
#[verifier::external_body]
pub(crate) fn create_tables(conn: &mut Connection) -> (r: Result<(), rusqlite::Error>)
    ensures
        exclusive(*old(conn)) ==> same_tables(*old(conn), *final(conn)),
        exclusive(*old(conn)) && r is Ok ==> tables_exist(*final(conn)),
{
    conn.execute_batch(SCHEMA)
}

/// `Connection::prepare` of a query for a row of `schema_version`, and
/// `Statement::query_row` on it: none where the table is empty. Preparing and
/// querying fail each for itself.
#[verifier::external_body]
pub(crate) fn fetch_schema_version(conn: &Connection) -> (r: Result<
    Result<Option<i64>, rusqlite::Error>,
    rusqlite::Error,
>)
    ensures
        exclusive(*conn) ==> match r {
            Ok(Ok(Some(version))) => schema_versions(*conn).contains(version),
            Ok(Ok(None)) => schema_versions(*conn) =~= Set::empty(),
            Ok(Err(_)) => true,
            Err(_) => true,
        },
{
    let mut statement = conn.prepare("SELECT version FROM schema_version LIMIT 1")?;
    Ok(statement.query_row([], |row| row.get(0)).optional())
}

/// `Connection::execute` of an insertion into `schema_version`. The version is
/// the primary key, so an insertion that succeeds adds it.
#[verifier::external_body]
pub(crate) fn insert_schema_version(conn: &mut Connection, version: i64) -> (r: Result<
    usize,
    rusqlite::Error,
>)
    ensures
        exclusive(*old(conn)) ==> same_but_version(*old(conn), *final(conn)),
        exclusive(*old(conn)) && r is Ok ==> schema_versions(*final(conn)) == schema_versions(
            *old(conn),
        ).insert(version),
        exclusive(*old(conn)) && r is Err ==> schema_versions(*final(conn)) == schema_versions(
            *old(conn),
        ),
{
    conn.execute("INSERT INTO schema_version(version) VALUES (?)", [version])
}

/// Whether a row as a query gives it out is the row of the cache.
pub open spec fn is_cached_row(
    row: (String, String, i64, Option<i64>),
    stored: CachedRow,
) -> bool {
    stored == (row.0@, row.1@, row.2, row.3)
}

/// `Connection::query_row` on the row of `request_cache` with a key, and none
/// where there is no such row.
#[verifier::external_body]
pub(crate) fn fetch_cached(conn: &Connection, key: &str) -> (r: Result<
    Option<(String, String, i64, Option<i64>)>,
    rusqlite::Error,
>)
    ensures
        exclusive(*conn) ==> match r {
            Ok(Some(row)) => request_cache(*conn).contains_key(key@) && is_cached_row(
                row,
                request_cache(*conn)[key@],
            ),
            Ok(None) => !request_cache(*conn).contains_key(key@),
            Err(_) => true,
        },
{
    conn.query_row(
        "SELECT response_json, model, created_at_ms, expires_at_ms
         FROM request_cache WHERE cache_key = ?",
        [key],
        |row| Ok((row.get(0)?, row.get(1)?, row.get(2)?, row.get(3)?)),
    ).optional()
}

/// `Connection::execute` of an insertion into `request_cache` that replaces the
/// row with the same key. A statement that fails changes nothing.
#[verifier::external_body]
pub(crate) fn store_cached(
    conn: &mut Connection,
    key: &str,
    response: &str,
    model: &str,
    created: i64,
    expires: Option<i64>,
) -> (r: Result<usize, rusqlite::Error>)
    ensures
        exclusive(*old(conn)) ==> same_but_cache(*old(conn), *final(conn)),
        exclusive(*old(conn)) && r is Ok ==> request_cache(*final(conn)) == request_cache(
            *old(conn),
        ).insert(key@, (response@, model@, created, expires)),
        exclusive(*old(conn)) && r is Err ==> request_cache(*final(conn)) == request_cache(
            *old(conn),
        ),
{
    conn.execute(
        "INSERT INTO request_cache(cache_key, response_json, model, created_at_ms, expires_at_ms)
         VALUES (?, ?, ?, ?, ?)
         ON CONFLICT(cache_key) DO UPDATE SET
            response_json = excluded.response_json,
            model = excluded.model,
            created_at_ms = excluded.created_at_ms,
            expires_at_ms = excluded.expires_at_ms",
        (key, response, model, created, expires),
    )
}

/// The keys whose row expires at `now` or before.
pub open spec fn expired_keys(cache: Map<Seq<char>, CachedRow>, now: i64) -> Set<Seq<char>> {
    cache.dom().filter(
        |key: Seq<char>| cache[key].3 is Some && cache[key].3.unwrap() <= now,
    )
}

/// `Connection::execute` of a deletion from `request_cache` of the rows that
/// expire at `now` or before. It gives back how many rows it deleted; a
/// statement that fails changes nothing.
#[verifier::external_body]
pub(crate) fn remove_expired(conn: &mut Connection, now: i64) -> (r: Result<usize, rusqlite::Error>)
    ensures
        exclusive(*old(conn)) ==> same_but_cache(*old(conn), *final(conn)),
        exclusive(*old(conn)) && r is Ok ==> request_cache(*final(conn)) == request_cache(
            *old(conn),
        ).remove_keys(expired_keys(request_cache(*old(conn)), now)),
        exclusive(*old(conn)) && r is Ok ==> r->Ok_0 == expired_keys(
            request_cache(*old(conn)),
            now,
        ).len(),
        exclusive(*old(conn)) && r is Err ==> request_cache(*final(conn)) == request_cache(
            *old(conn),
        ),
{
    conn.execute(
        "DELETE FROM request_cache WHERE expires_at_ms IS NOT NULL AND expires_at_ms <= ?",
        [now],
    )
}

/// `Connection::query_row` on the number of rows of `request_cache`.
#[verifier::external_body]
pub(crate) fn count_cached(conn: &Connection) -> (r: Result<i64, rusqlite::Error>)
    ensures
        exclusive(*conn) && r is Ok ==> request_cache(*conn).dom().finite() && r->Ok_0
            == request_cache(*conn).dom().len(),
{
    conn.query_row("SELECT COUNT(*) FROM request_cache", [], |row| row.get(0))
}

/// `Connection::query_row` on the counts of the row of `router_scores` of a
/// class and a model, and none where there is no such row. A row in which a
/// sum has left the range of 64-bit integers cannot be read.
#[verifier::external_body]
pub(crate) fn fetch_scores(conn: &Connection, bucket: &str, model: &str) -> (r: Result<
    Option<Scores>,
    rusqlite::Error,
>)
    ensures
        exclusive(*conn) ==> match r {
            Ok(Some(row)) => router_scores(*conn).contains_key((bucket@, model@)) && row
                == router_scores(*conn)[(bucket@, model@)],
            Ok(None) => !router_scores(*conn).contains_key((bucket@, model@)),
            Err(_) => true,
        },
{
    conn.query_row(
        "SELECT successes, failures, total_latency_ms, total_input_tokens, total_output_tokens
         FROM router_scores WHERE bucket = ? AND model = ?",
        [bucket, model],
        |row| Ok((row.get(0)?, row.get(1)?, row.get(2)?, row.get(3)?, row.get(4)?)),
    ).optional()
}

/// Whether every sum of two rows of counts is a 64-bit integer.
pub open spec fn sums_fit(a: Scores, b: Scores) -> bool {
    &&& i64::MIN <= a.0 + b.0 <= i64::MAX
    &&& i64::MIN <= a.1 + b.1 <= i64::MAX
    &&& i64::MIN <= a.2 + b.2 <= i64::MAX
    &&& i64::MIN <= a.3 + b.3 <= i64::MAX
    &&& i64::MIN <= a.4 + b.4 <= i64::MAX
}

/// The sums of two rows of counts.
pub open spec fn sums(a: Scores, b: Scores) -> Scores {
    (
        (a.0 + b.0) as i64,
        (a.1 + b.1) as i64,
        (a.2 + b.2) as i64,
        (a.3 + b.3) as i64,
        (a.4 + b.4) as i64,
    )
}

/// The counts under a key; zeros where there are none.
pub open spec fn scores_under(
    scores: Map<(Seq<char>, Seq<char>), Scores>,
    key: (Seq<char>, Seq<char>),
) -> Scores {
    if scores.contains_key(key) {
        scores[key]
    } else {
        (0, 0, 0, 0, 0)
    }
}

/// `Connection::execute` of an insertion into `router_scores` that adds to the
/// counts of a row with the same class and model. A sum outside the range of
/// 64-bit integers is stored as a floating-point number, and of such a row
/// nothing is said. A statement that fails changes nothing.
#[verifier::external_body]
pub(crate) fn add_scores(
    conn: &mut Connection,
    bucket: &str,
    model: &str,
    delta: Scores,
    now: i64,
) -> (r: Result<usize, rusqlite::Error>)
    requires
        delta.0 >= 0 && delta.1 >= 0 && delta.2 >= 0 && delta.3 >= 0 && delta.4 >= 0,
    ensures
        exclusive(*old(conn)) ==> same_but_scores(*old(conn), *final(conn)),
        exclusive(*old(conn)) && r is Ok ==> router_scores(*final(conn)).remove(
            (bucket@, model@),
        ) == router_scores(*old(conn)).remove((bucket@, model@)),
        exclusive(*old(conn)) && r is Ok ==> router_scores(*final(conn)).contains_key(
            (bucket@, model@),
        ),
        exclusive(*old(conn)) && r is Ok && sums_fit(
            scores_under(router_scores(*old(conn)), (bucket@, model@)),
            delta,
        ) ==> router_scores(*final(conn))[(bucket@, model@)] == sums(
            scores_under(router_scores(*old(conn)), (bucket@, model@)),
            delta,
        ),
        exclusive(*old(conn)) && r is Ok ==> score_times(*final(conn)) == score_times(
            *old(conn),
        ).insert((bucket@, model@), now),
        exclusive(*old(conn)) && r is Err ==> router_scores(*final(conn)) == router_scores(
            *old(conn),
        ),
        exclusive(*old(conn)) && r is Err ==> score_times(*final(conn)) == score_times(*old(conn)),
{
    conn.execute(
        "INSERT INTO router_scores(bucket, model, successes, failures,
            total_latency_ms, total_input_tokens, total_output_tokens, updated_at_ms)
         VALUES (?, ?, ?, ?, ?, ?, ?, ?)
         ON CONFLICT(bucket, model) DO UPDATE SET
            successes = successes + excluded.successes,
            failures = failures + excluded.failures,
            total_latency_ms = total_latency_ms + excluded.total_latency_ms,
            total_input_tokens = total_input_tokens + excluded.total_input_tokens,
            total_output_tokens = total_output_tokens + excluded.total_output_tokens,
            updated_at_ms = excluded.updated_at_ms",
        (bucket, model, delta.0, delta.1, delta.2, delta.3, delta.4, now),
    )
}

/// Whether a key of the scores comes before another: by the bytes of the
/// class's name, and for the same class by those of the model's name.
pub open spec fn score_key_before(
    a: (Seq<char>, Seq<char>),
    b: (Seq<char>, Seq<char>),
) -> bool {
    ||| crate::text::text_before(a.0, b.0)
    ||| a.0 == b.0 && crate::text::text_before(a.1, b.1)
}

/// Whether a list holds the rows of a table of scores, each one once and in the
/// order of the keys.
pub open spec fn is_score_list(
    list: Seq<(String, String, Scores)>,
    scores: Map<(Seq<char>, Seq<char>), Scores>,
) -> bool {
    &&& forall|i: int|
        0 <= i < list.len() ==> scores.contains_key(
            ((#[trigger] list[i]).0@, list[i].1@),
        ) && scores[(list[i].0@, list[i].1@)] == list[i].2
    &&& forall|i: int, j: int|
        0 <= i < j < list.len() ==> score_key_before(
            ((#[trigger] list[i]).0@, list[i].1@),
            ((#[trigger] list[j]).0@, list[j].1@),
        )
    &&& forall|key: (Seq<char>, Seq<char>)|
        #[trigger] scores.contains_key(key) ==> exists|i: int|
            0 <= i < list.len() && ((#[trigger] list[i]).0@, list[i].1@) == key
}

/// `Connection::prepare` and `Statement::query_map` of a query for every row of
/// `router_scores`, ordered by class and model. Text is ordered by its bytes.
#[verifier::external_body]
pub(crate) fn list_scores(conn: &Connection) -> (r: Result<
    Vec<(String, String, Scores)>,
    rusqlite::Error,
>)
    ensures
        exclusive(*conn) && r is Ok ==> is_score_list(r->Ok_0@, router_scores(*conn)),
{
    let mut statement = conn.prepare(
        "SELECT bucket, model, successes, failures, total_latency_ms,
                total_input_tokens, total_output_tokens
         FROM router_scores ORDER BY bucket, model",
    )?;
    let rows = statement.query_map([], |row| Ok((row.get(0)?, row.get(1)?,
        (row.get(2)?, row.get(3)?, row.get(4)?, row.get(5)?, row.get(6)?))))?;
    rows.collect()
}

/// The bytes of a blob, if there is one.
pub open spec fn blob_view(blob: Option<Vec<u8>>) -> Option<Seq<u8>> {
    match blob {
        Some(bytes) => Some(bytes@),
        None => None,
    }
}

/// One transaction, begun by `Connection::unchecked_transaction`, that inserts
/// a row into `memory_facts` and its text into the index. The id is the primary
/// key, so an insertion that succeeds replaces nothing; a transaction that is
/// not committed changes nothing.
#[verifier::external_body]
pub(crate) fn store_fact(
    conn: &mut Connection,
    id: &str,
    scope: &str,
    content: &str,
    tags: &str,
    embedding: Option<Vec<u8>>,
    now: i64,
) -> (r: Result<(), rusqlite::Error>)
    ensures
        exclusive(*old(conn)) ==> same_but_facts(*old(conn), *final(conn)),
        exclusive(*old(conn)) && r is Ok ==> !memory_facts(*old(conn)).contains_key(id@)
            && memory_facts(*final(conn)) == memory_facts(*old(conn)).insert(
            id@,
            (scope@, content@, tags@, blob_view(embedding), now, now),
        ),
        exclusive(*old(conn)) && r is Err ==> memory_facts(*final(conn)) == memory_facts(
            *old(conn),
        ),
{
    let transaction = conn.unchecked_transaction()?;
    transaction.execute(
        "INSERT INTO memory_facts(id, scope, content, tags, embedding, created_at_ms, updated_at_ms)
         VALUES (?, ?, ?, ?, ?, ?, ?)",
        (id, scope, content, tags, embedding, now, now),
    )?;
    transaction.execute(
        "INSERT INTO memory_facts_fts(rowid, content, tags)
         SELECT rowid, content, tags FROM memory_facts WHERE id = ?",
        [id],
    )?;
    transaction.commit()
}

/// Whether a fact as a query gives it out is a row of the facts.
pub open spec fn is_fact_record(record: FactRecord, facts: Map<Seq<char>, FactRow>) -> bool {
    &&& facts.contains_key(record.0@)
    &&& facts[record.0@].0 == record.1@
    &&& facts[record.0@].1 == record.2@
    &&& facts[record.0@].2 == record.3@
    &&& facts[record.0@].4 == record.4
    &&& facts[record.0@].5 == record.5
}

/// `Connection::query_row` on the row of `memory_facts` with an id, and none
/// where there is no such row.
#[verifier::external_body]
pub(crate) fn fetch_fact(conn: &Connection, id: &str) -> (r: Result<
    Option<FactRecord>,
    rusqlite::Error,
>)
    ensures
        exclusive(*conn) ==> match r {
            Ok(Some(record)) => record.0@ == id@ && is_fact_record(record, memory_facts(*conn)),
            Ok(None) => !memory_facts(*conn).contains_key(id@),
            Err(_) => true,
        },
{
    conn.query_row(
        "SELECT id, scope, content, tags, created_at_ms, updated_at_ms
         FROM memory_facts WHERE id = ?",
        [id],
        |row| Ok((row.get(0)?, row.get(1)?, row.get(2)?, row.get(3)?, row.get(4)?, row.get(5)?)),
    ).optional()
}

/// Whether the fact with an id is one that a search looks for: its text fits
/// the expression, and its scope is the given one, if one is given.
pub open spec fn is_sought(
    facts: Map<Seq<char>, FactRow>,
    expression: Seq<char>,
    scope: Option<Seq<char>>,
    id: Seq<char>,
) -> bool {
    &&& facts.contains_key(id)
    &&& text_matches(expression, facts[id].1, facts[id].2)
    &&& scope is Some ==> facts[id].0 == scope.unwrap()
}

/// The ranks that a search for an expression gives to the facts by their id.
pub open spec fn ranking(conn: Connection, expression: Seq<char>) -> spec_fn(Seq<char>) -> int {
    |id: Seq<char>| match_rank(conn, expression, id)
}

/// Whether a list is the answer to a search: facts that are sought, each one
/// once, at most `limit` of them, in the order of their rank, and none left out
/// unless the list is full and the fact ranks no better than those in it.
pub open spec fn is_search_result(
    facts: Map<Seq<char>, FactRow>,
    rank: spec_fn(Seq<char>) -> int,
    list: Seq<FactRecord>,
    expression: Seq<char>,
    scope: Option<Seq<char>>,
    limit: int,
) -> bool {
    &&& list.len() <= limit
    &&& forall|i: int|
        0 <= i < list.len() ==> is_fact_record(#[trigger] list[i], facts) && is_sought(
            facts,
            expression,
            scope,
            list[i].0@,
        )
    &&& forall|i: int, j: int|
        0 <= i < j < list.len() ==> (#[trigger] list[i]).0@ != (#[trigger] list[j]).0@ && rank(
            list[i].0@,
        ) <= rank(list[j].0@)
    &&& forall|id: Seq<char>|
        #[trigger] is_sought(facts, expression, scope, id) ==> {
            ||| exists|i: int| 0 <= i < list.len() && (#[trigger] list[i]).0@ == id
            ||| list.len() == limit && forall|i: int|
                0 <= i < list.len() ==> rank((#[trigger] list[i]).0@) <= rank(id)
        }
}

/// `Connection::prepare` and `Statement::query_map` of a full-text search of
/// all facts, best match first.
#[verifier::external_body]
pub(crate) fn search_facts(conn: &Connection, expression: &str, limit: i64) -> (r: Result<
    Vec<FactRecord>,
    rusqlite::Error,
>)
    requires
        limit > 0,
    ensures
        exclusive(*conn) && r is Ok ==> is_search_result(
            memory_facts(*conn),
            ranking(*conn, expression@),
            r->Ok_0@,
            expression@,
            None,
            limit as int,
        ),
        exclusive(*conn) && r is Ok ==> forall|i: int|
            0 <= i < r->Ok_0@.len() ==> text_matches(
                expression@,
                (#[trigger] r->Ok_0@[i]).2@,
                r->Ok_0@[i].3@,
            ),
        exclusive(*conn) && r is Ok ==> forall|i: int, j: int|
            0 <= i < j < r->Ok_0@.len() ==> match_rank(
                *conn,
                expression@,
                (#[trigger] r->Ok_0@[i]).0@,
            ) <= match_rank(*conn, expression@, (#[trigger] r->Ok_0@[j]).0@),
{
    let mut statement = conn.prepare(
        "SELECT m.id, m.scope, m.content, m.tags, m.created_at_ms, m.updated_at_ms
         FROM memory_facts_fts f JOIN memory_facts m ON m.rowid = f.rowid
         WHERE f.memory_facts_fts MATCH ?
         ORDER BY bm25(memory_facts_fts) ASC LIMIT ?",
    )?;
    let rows = statement.query_map((expression, limit), |row| Ok((row.get(0)?, row.get(1)?,
        row.get(2)?, row.get(3)?, row.get(4)?, row.get(5)?)))?;
    rows.collect()
}

/// `Connection::prepare` and `Statement::query_map` of a full-text search of the
/// facts of one scope, best match first.
#[verifier::external_body]
pub(crate) fn search_facts_in(
    conn: &Connection,
    expression: &str,
    scope: &str,
    limit: i64,
) -> (r: Result<Vec<FactRecord>, rusqlite::Error>)
    requires
        limit > 0,
    ensures
        exclusive(*conn) && r is Ok ==> is_search_result(
            memory_facts(*conn),
            ranking(*conn, expression@),
            r->Ok_0@,
            expression@,
            Some(scope@),
            limit as int,
        ),
{
    let mut statement = conn.prepare(
        "SELECT m.id, m.scope, m.content, m.tags, m.created_at_ms, m.updated_at_ms
         FROM memory_facts_fts f JOIN memory_facts m ON m.rowid = f.rowid
         WHERE f.memory_facts_fts MATCH ? AND m.scope = ?
         ORDER BY bm25(memory_facts_fts) ASC LIMIT ?",
    )?;
    let rows = statement.query_map((expression, scope, limit), |row| Ok((row.get(0)?,
        row.get(1)?, row.get(2)?, row.get(3)?, row.get(4)?, row.get(5)?)))?;
    rows.collect()
}

/// One transaction, begun by `Connection::unchecked_transaction`, that deletes
/// the fact with an id from the index and from `memory_facts`, and gives back
/// how many rows of the latter it deleted. A transaction that is not committed
/// changes nothing.
#[verifier::external_body]
pub(crate) fn remove_fact(conn: &mut Connection, id: &str) -> (r: Result<usize, rusqlite::Error>)
    ensures
        exclusive(*old(conn)) ==> same_but_facts(*old(conn), *final(conn)),
        exclusive(*old(conn)) && r is Ok ==> memory_facts(*final(conn)) == memory_facts(
            *old(conn),
        ).remove(id@),
        exclusive(*old(conn)) && r is Ok ==> (r->Ok_0 > 0) == memory_facts(
            *old(conn),
        ).contains_key(id@),
        exclusive(*old(conn)) && r is Err ==> memory_facts(*final(conn)) == memory_facts(
            *old(conn),
        ),
{
    let transaction = conn.unchecked_transaction()?;
    transaction.execute(
        "DELETE FROM memory_facts_fts WHERE rowid IN (SELECT rowid FROM memory_facts WHERE id = ?)",
        [id],
    )?;
    let removed = transaction.execute("DELETE FROM memory_facts WHERE id = ?", [id])?;
    transaction.commit()?;
    Ok(removed)
}

/// `Connection::query_row` on the number of rows of `memory_facts`.
#[verifier::external_body]
pub(crate) fn count_facts(conn: &Connection) -> (r: Result<i64, rusqlite::Error>)
    ensures
        exclusive(*conn) && r is Ok ==> memory_facts(*conn).dom().finite() && r->Ok_0
            == memory_facts(*conn).dom().len(),
{
    conn.query_row("SELECT COUNT(*) FROM memory_facts", [], |row| row.get(0))
}

/// A connection whose tables are changed by the statements above only, and the
/// number of the next fact.
pub struct Database {
    pub(crate) conn: Connection,
    pub(crate) tick: u64,
}

impl Database {
    /// See [`exclusive`].
    pub open(crate) spec fn is_exclusive(self) -> bool {
        exclusive(self.conn)
    }

    /// Whether the tables of the schema exist.
    pub open(crate) spec fn has_tables(self) -> bool {
        tables_exist(self.conn)
    }

    /// The number of the next fact.
    pub open(crate) spec fn next_tick(self) -> u64 {
        self.tick
    }

    pub open(crate) spec fn versions(self) -> Set<i64> {
        schema_versions(self.conn)
    }

    pub open(crate) spec fn cache(self) -> Map<Seq<char>, CachedRow> {
        request_cache(self.conn)
    }

    pub open(crate) spec fn scores(self) -> Map<(Seq<char>, Seq<char>), Scores> {
        router_scores(self.conn)
    }

    pub open(crate) spec fn times(self) -> Map<(Seq<char>, Seq<char>), i64> {
        score_times(self.conn)
    }

    pub open(crate) spec fn facts(self) -> Map<Seq<char>, FactRow> {
        memory_facts(self.conn)
    }

    /// The ranks that a search for an expression gives to the facts.
    pub open(crate) spec fn ranks(self, expression: Seq<char>) -> spec_fn(Seq<char>) -> int {
        ranking(self.conn, expression)
    }
}

} // verus!
