//! A cache of responses, found again by an exact match of the request.

use crate::clock::is_reading;
use crate::clock::millis_at;
use crate::clock::now_ms;
use crate::clock::signed_millis;
use crate::database::count_cached;
use crate::database::expired_keys;
use crate::database::fetch_cached;
use crate::database::remove_expired;
use crate::database::store_cached;
use crate::database::CachedRow;
use crate::database::Database;
use crate::error::StateError;
use crate::text::characters;
use crate::text::digits;
use crate::text::digits_of;
use crate::text::hexadecimal;
use crate::text::hexadecimal_of;
use crate::text::lemma_digits_value;
use sha2::Digest;
use std::time::SystemTime;
use vstd::prelude::*;
use vstd::string::*;
use vstd::utf8::*;

verus! {

/// The SHA-256 digest of a sequence of bytes. That different sequences have
/// different digests is not said: there are more sequences than digests.
pub uninterp spec fn sha256(bytes: Seq<u8>) -> Seq<u8>;

/// `Sha256::digest` is the SHA-256 digest of its argument, thirty-two bytes
/// long.
#[verifier::external_body]
fn sha256_of(bytes: &[u8]) -> (r: Vec<u8>)
    ensures
        r@ == sha256(bytes@),
        r@.len() == 32,
{
    sha2::Sha256::digest(bytes).to_vec()
}

/// The character that parts a request into its pieces.
pub const SEPARATOR: char = '\u{1f}';

/// A part of a request: the number of its characters, a separator, and the
/// characters.
pub open spec fn measured(part: Seq<char>) -> Seq<char> {
    digits(part.len(), 10) + seq![SEPARATOR] + part
}

/// Whether the parts of a request can be told apart by the separators between
/// them: neither of the first two holds one.
pub open spec fn is_separable(system_prompt: Seq<char>, model: Seq<char>) -> bool {
    !model.contains(SEPARATOR) && !system_prompt.contains(SEPARATOR)
}

/// What of a request is hashed: a tag for the format, and the model, the system
/// prompt and the messages with separators between them. Where that leaves open
/// which part a separator belongs to, the parts stand with their lengths.
pub open spec fn request_text(
    system_prompt: Seq<char>,
    messages_json: Seq<char>,
    model: Seq<char>,
) -> Seq<char> {
    if is_separable(system_prompt, model) {
        "v1"@ + seq![SEPARATOR] + model + seq![SEPARATOR] + system_prompt + seq![SEPARATOR]
            + messages_json
    } else {
        "v2"@ + seq![SEPARATOR] + measured(model) + measured(system_prompt) + measured(
            messages_json,
        )
    }
}

/// Whether a part of a request holds a separator.
fn has_separator(part: &str) -> (r: bool)
    ensures
        r == part@.contains(SEPARATOR),
{
    let chars: Vec<char> = characters(part);
    let mut i: usize = 0;
    while i < chars.len()
        invariant
            i <= chars@.len(),
            chars@ == part@,
            forall|j: int| 0 <= j < i ==> #[trigger] part@[j] != SEPARATOR,
        decreases chars.len() - i,
    {
        if chars[i] == SEPARATOR {
            assert(part@[i as int] == SEPARATOR);
            return true;
        }
        i = i + 1;
    }
    false
}

/// Put a part of a request, with its length, behind a text.
fn append_measured(out: &mut String, part: &str)
    ensures
        final(out)@ == old(out)@ + measured(part@),
{
    let length: usize = characters(part).len();
    out.append(digits_of(length as u64, 10).as_str());
    out.push(SEPARATOR);
    out.append(part);
    assert(out@ =~= old(out)@ + measured(part@));
}

/// The key of a request.
#[derive(Debug, Clone, PartialEq, Eq)]
pub struct CacheKey(String);

impl View for CacheKey {
    type V = Seq<char>;

    closed spec fn view(&self) -> Seq<char> {
        self.0@
    }
}

impl CacheKey {
    /// The key of a request: the digest of its parts in base sixteen.
    /// `messages_json` is the text that goes over the wire.
    pub fn from_parts(system_prompt: &str, messages_json: &str, model: &str) -> (r: CacheKey)
        ensures
            r@ == hexadecimal(
                sha256(encode_utf8(request_text(system_prompt@, messages_json@, model@))),
            ),
            r@.len() == 64,
    {
        let mut text: String = String::new();
        if has_separator(model) || has_separator(system_prompt) {
            text.append("v2");
            text.push(SEPARATOR);
            append_measured(&mut text, model);
            append_measured(&mut text, system_prompt);
            append_measured(&mut text, messages_json);
        } else {
            text.append("v1");
            text.push(SEPARATOR);
            text.append(model);
            text.push(SEPARATOR);
            text.append(system_prompt);
            text.push(SEPARATOR);
            text.append(messages_json);
        }
        assert(text@ =~= request_text(system_prompt@, messages_json@, model@));
        CacheKey(hexadecimal_of(sha256_of(text.as_str().as_bytes()).as_slice()))
    }

    pub fn as_str(&self) -> (r: &str)
        ensures
            r@ == self@,
    {
        self.0.as_str()
    }
}

/// A stored response.
#[derive(Debug, Clone, PartialEq, Eq)]
pub struct CacheEntry {
    pub response_json: String,
    pub model: String,
    pub created_at_ms: i64,
    pub expires_at_ms: Option<i64>,
}

impl View for CacheEntry {
    type V = CachedRow;

    open spec fn view(&self) -> CachedRow {
        (self.response_json@, self.model@, self.created_at_ms, self.expires_at_ms)
    }
}

/// Whether a row has not expired at `now`.
pub open spec fn is_fresh(row: CachedRow, now: i64) -> bool {
    match row.3 {
        Some(expires) => expires > now,
        None => true,
    }
}

/// What a cache gives for a key at `now`: its row, unless that has expired.
pub open spec fn lookup(
    cache: Map<Seq<char>, CachedRow>,
    key: Seq<char>,
    now: i64,
) -> Option<CachedRow> {
    if cache.contains_key(key) && is_fresh(cache[key], now) {
        Some(cache[key])
    } else {
        None
    }
}

/// When an entry expires that is stored at `created` to live for `ttl_ms`. Both
/// the life and the time of expiry stop at the largest signed number.
pub open spec fn expiry(created: i64, ttl_ms: Option<u64>) -> Option<i64> {
    match ttl_ms {
        Some(ttl) => {
            let life: int = if ttl <= i64::MAX {
                ttl as int
            } else {
                i64::MAX as int
            };
            if created + life <= i64::MAX {
                Some((created + life) as i64)
            } else {
                Some(i64::MAX)
            }
        },
        None => None,
    }
}

/// When an entry expires that is stored at `created` to live for `ttl_ms`.
pub fn expires_at(created: i64, ttl_ms: Option<u64>) -> (r: Option<i64>)
    ensures
        r == expiry(created, ttl_ms),
{
    match ttl_ms {
        Some(ttl) => {
            let life: i64 = if ttl <= i64::MAX as u64 {
                ttl as i64
            } else {
                i64::MAX
            };
            if created <= i64::MAX - life {
                Some(created + life)
            } else {
                Some(i64::MAX)
            }
        },
        None => None,
    }
}

/// The entry, unless it has expired at `now`.
pub fn keep_fresh(entry: Option<CacheEntry>, now: i64) -> (r: Option<CacheEntry>)
    ensures
        r == (if entry is Some && is_fresh(entry.unwrap()@, now) {
            entry
        } else {
            None
        }),
{
    match entry {
        Some(found) => {
            let fresh: bool = match found.expires_at_ms {
                Some(expires) => expires > now,
                None => true,
            };
            if fresh {
                Some(found)
            } else {
                None
            }
        },
        None => None,
    }
}

/// The cache of a store.
pub struct CacheHandle<'a> {
    pub db: &'a mut Database,
}

/// What a query for a row of the cache gives.
pub type CachedAnswer = Result<Option<(String, String, i64, Option<i64>)>, rusqlite::Error>;

/// Whether an answer is what the query for the row of a key gave.
pub open(crate) spec fn is_cached_read(db: Database, key: Seq<char>, answer: CachedAnswer) -> bool {
    exists|text: &str| #[trigger]
        call_ensures(fetch_cached, (&db.conn, text), answer) && text@ == key
}

/// The entry that a row stands for.
pub open spec fn entry_of(row: (String, String, i64, Option<i64>)) -> CacheEntry {
    CacheEntry { response_json: row.0, model: row.1, created_at_ms: row.2, expires_at_ms: row.3 }
}

/// What `get` makes of an answer at `now`: the row as an entry, unless it has
/// expired, and the error of a query that failed.
pub open spec fn answered(answer: CachedAnswer, now: i64) -> Result<
    Option<CacheEntry>,
    StateError,
> {
    match answer {
        Ok(Some(row)) => if is_fresh(entry_of(row)@, now) {
            Ok(Some(entry_of(row)))
        } else {
            Ok(None)
        },
        Ok(None) => Ok(None),
        Err(error) => Err(StateError::Sqlite(error)),
    }
}

/// Whether a result of `get` is what the query for the row gave at `now`, and so
/// what a cache gives that is reached through one connection only.
pub open spec fn is_lookup(
    db: Database,
    key: Seq<char>,
    now: i64,
    r: Result<Option<CacheEntry>, StateError>,
) -> bool {
    &&& exists|answer: CachedAnswer| #[trigger]
        is_cached_read(db, key, answer) && r == answered(answer, now)
    &&& db.is_exclusive() ==> match r {
        Ok(Some(entry)) => lookup(db.cache(), key, now) == Some(entry@),
        Ok(None) => lookup(db.cache(), key, now) is None,
        Err(_) => true,
    }
}

/// Whether a store after `put` is the store before with the entry in it.
pub open spec fn is_put(
    before: Database,
    key: Seq<char>,
    row: CachedRow,
    r: Result<(), StateError>,
    after: Database,
) -> bool {
    &&& before.is_exclusive() ==> {
        &&& after.is_exclusive()
        &&& before.has_tables() ==> after.has_tables()
        &&& after.versions() == before.versions()
        &&& after.scores() == before.scores()
        &&& after.times() == before.times()
        &&& after.facts() == before.facts()
        &&& after.cache() == (if r is Ok {
            before.cache().insert(key, row)
        } else {
            before.cache()
        })
    }
    &&& after.next_tick() == before.next_tick()
    &&& r matches Err(error) ==> error is Sqlite
}

/// Whether a store after `purge_expired` is the store before without the
/// entries that have expired at `now`, and the result their number.
pub open spec fn is_purge(
    before: Database,
    now: i64,
    r: Result<usize, StateError>,
    after: Database,
) -> bool {
    &&& before.is_exclusive() ==> {
        &&& after.is_exclusive()
        &&& before.has_tables() ==> after.has_tables()
        &&& after.versions() == before.versions()
        &&& after.scores() == before.scores()
        &&& after.times() == before.times()
        &&& after.facts() == before.facts()
        &&& match r {
            Ok(removed) => after.cache() == before.cache().remove_keys(
                expired_keys(before.cache(), now),
            ) && removed == expired_keys(before.cache(), now).len(),
            Err(_) => after.cache() == before.cache(),
        }
    }
    &&& after.next_tick() == before.next_tick()
    &&& r matches Err(error) ==> error is Sqlite
}

impl<'a> CacheHandle<'a> {
    /// The store as it is now.
    pub open spec fn database(self) -> Database {
        *self.db
    }

    /// The response stored under a key, as of a given time.
    pub fn get_at(&self, key: &CacheKey, now: i64) -> (r: Result<Option<CacheEntry>, StateError>)
        ensures
            is_lookup(self.database(), key@, now, r),
    {
        let text: &str = key.as_str();
        let answer: CachedAnswer = fetch_cached(&self.db.conn, text);
        let ghost given = answer;
        assert(call_ensures(fetch_cached, (&self.database().conn, text), given));
        assert(is_cached_read(self.database(), key@, given));
        match answer {
            Ok(Some(row)) => {
                let entry: CacheEntry = CacheEntry {
                    response_json: row.0,
                    model: row.1,
                    created_at_ms: row.2,
                    expires_at_ms: row.3,
                };
                Ok(keep_fresh(Some(entry), now))
            },
            Ok(None) => Ok(keep_fresh(None, now)),
            Err(error) => Err(StateError::from(error)),
        }
    }

    /// The response stored under a key. An entry that has expired is not found,
    /// though it stays stored.
    pub fn get(&self, key: &CacheKey) -> (r: Result<Option<CacheEntry>, StateError>)
        ensures
            exists|time: SystemTime|
                #[trigger] is_reading(time) && is_lookup(
                    self.database(),
                    key@,
                    signed_millis(millis_at(time)),
                    r,
                ),
    {
        self.get_at(key, now_ms())
    }

    /// Store a response at a given time. It lives for `ttl_ms` milliseconds, or
    /// forever.
    pub fn put_at(
        &mut self,
        key: &CacheKey,
        response_json: &str,
        model: &str,
        ttl_ms: Option<u64>,
        created: i64,
    ) -> (r: Result<(), StateError>)
        ensures
            is_put(
                *old(self).db,
                key@,
                (response_json@, model@, created, expiry(created, ttl_ms)),
                r,
                *final(self).db,
            ),
            old(self).db.is_exclusive() && r is Ok ==> {
                &&& final(self).db.cache().contains_key(key@)
                &&& final(self).db.cache()[key@].0 == response_json@
                &&& final(self).db.cache()[key@].1 == model@
                &&& final(self).db.cache()[key@].2 == created
                &&& final(self).db.cache()[key@].3 is Some <==> ttl_ms is Some
            },
            *final(final(self).db) == *final(old(self).db),
    {
        let expires: Option<i64> = expires_at(created, ttl_ms);
        match store_cached(
            &mut self.db.conn,
            key.as_str(),
            response_json,
            model,
            created,
            expires,
        ) {
            Ok(_) => Ok(()),
            Err(error) => Err(StateError::from(error)),
        }
    }

    /// Store a response in the place of whatever is stored under its key.
    pub fn put(
        &mut self,
        key: &CacheKey,
        response_json: &str,
        model: &str,
        ttl_ms: Option<u64>,
    ) -> (r: Result<(), StateError>)
        ensures
            exists|time: SystemTime|
                #[trigger] is_reading(time) && is_put(
                    *old(self).db,
                    key@,
                    (
                        response_json@,
                        model@,
                        signed_millis(millis_at(time)),
                        expiry(signed_millis(millis_at(time)), ttl_ms),
                    ),
                    r,
                    *final(self).db,
                ),
            old(self).db.is_exclusive() && r is Ok ==> {
                &&& final(self).db.cache().contains_key(key@)
                &&& final(self).db.cache()[key@].0 == response_json@
                &&& final(self).db.cache()[key@].1 == model@
                &&& final(self).db.cache()[key@].3 is Some <==> ttl_ms is Some
            },
            *final(final(self).db) == *final(old(self).db),
    {
        self.put_at(key, response_json, model, ttl_ms, now_ms())
    }

    /// Drop the entries that have expired at a given time, and count them.
    pub fn purge_expired_at(&mut self, now: i64) -> (r: Result<usize, StateError>)
        ensures
            is_purge(*old(self).db, now, r, *final(self).db),
            *final(final(self).db) == *final(old(self).db),
    {
        match remove_expired(&mut self.db.conn, now) {
            Ok(removed) => Ok(removed),
            Err(error) => Err(StateError::from(error)),
        }
    }

    /// Drop the entries that have expired, and count them.
    pub fn purge_expired(&mut self) -> (r: Result<usize, StateError>)
        ensures
            exists|time: SystemTime|
                #[trigger] is_reading(time) && is_purge(
                    *old(self).db,
                    signed_millis(millis_at(time)),
                    r,
                    *final(self).db,
                ),
            *final(final(self).db) == *final(old(self).db),
    {
        self.purge_expired_at(now_ms())
    }

    /// The number of entries, expired ones included.
    pub fn len(&self) -> (r: Result<usize, StateError>)
        ensures
            is_cache_size(self.database(), r),
    {
        let answer: Result<i64, rusqlite::Error> = count_cached(&self.db.conn);
        let ghost given = answer;
        assert(is_cache_count(self.database(), given));
        match answer {
            Ok(count) => Ok(as_count(count)),
            Err(error) => Err(StateError::from(error)),
        }
    }

    pub fn is_empty(&self) -> (r: Result<bool, StateError>)
        ensures
            exists|size: Result<usize, StateError>| #[trigger]
                is_cache_size(self.database(), size) && r == no_rows(size),
    {
        match self.len() {
            Ok(n) => Ok(n == 0),
            Err(error) => Err(error),
        }
    }
}

/// Whether an answer is what the query for the number of entries gave.
pub open(crate) spec fn is_cache_count(db: Database, answer: Result<i64, rusqlite::Error>) -> bool {
    call_ensures(count_cached, (&db.conn,), answer)
}

/// Whether a result of `len` is the number that the query gave as a machine word,
/// and so the number of entries of a cache that is reached through one
/// connection only.
pub open spec fn is_cache_size(db: Database, r: Result<usize, StateError>) -> bool {
    &&& exists|answer: Result<i64, rusqlite::Error>| #[trigger]
        is_cache_count(db, answer) && is_size(answer, r)
    &&& db.is_exclusive() ==> (r matches Ok(n) ==> db.cache().dom().finite() && n == counted(
        db.cache().dom().len(),
    ))
}

/// Whether a size is what the answer to a query for a number of rows makes it.
pub open spec fn is_size(
    answer: Result<i64, rusqlite::Error>,
    size: Result<usize, StateError>,
) -> bool {
    match answer {
        Ok(count) => size matches Ok(n) && n == (if 0 <= count <= usize::MAX {
            count as int
        } else {
            0
        }),
        Err(error) => size == Err::<usize, StateError>(StateError::Sqlite(error)),
    }
}

/// Whether a size is zero, if there is one.
pub open spec fn no_rows(size: Result<usize, StateError>) -> Result<bool, StateError> {
    match size {
        Ok(n) => Ok(n == 0),
        Err(error) => Err(error),
    }
}

/// A number of rows as a machine word; zero where it does not fit one.
pub open spec fn counted(rows: nat) -> nat {
    if rows <= usize::MAX {
        rows
    } else {
        0
    }
}

/// A number of rows as a machine word; zero where it does not fit one.
pub fn as_count(count: i64) -> (r: usize)
    ensures
        r == (if 0 <= count <= usize::MAX {
            count as usize
        } else {
            0
        }),
{
    match usize::try_from(count) {
        Ok(n) => n,
        Err(_) => 0,
    }
}

/// What was stored under a key is found again until it expires.
pub proof fn lemma_put_then_get(
    cache: Map<Seq<char>, CachedRow>,
    key: Seq<char>,
    response: Seq<char>,
    model: Seq<char>,
    created: i64,
    ttl_ms: Option<u64>,
    now: i64,
)
    ensures
        ({
            let row = (response, model, created, expiry(created, ttl_ms));
            lookup(cache.insert(key, row), key, now) == (if is_fresh(row, now) {
                Some(row)
            } else {
                None
            })
        }),
        ttl_ms is None ==> lookup(
            cache.insert(key, (response, model, created, expiry(created, ttl_ms))),
            key,
            now,
        ) == Some((response, model, created, None::<i64>)),
        ttl_ms is Some && ttl_ms.unwrap() <= i64::MAX && created + ttl_ms.unwrap() <= i64::MAX ==> (
        lookup(
            cache.insert(key, (response, model, created, expiry(created, ttl_ms))),
            key,
            now,
        ) is Some <==> now < created + ttl_ms.unwrap()),
{
}

/// What was stored is what is read, until it expires.
pub proof fn lemma_read_after_write(
    before: Database,
    after: Database,
    key: Seq<char>,
    response: Seq<char>,
    model: Seq<char>,
    created: i64,
    ttl_ms: Option<u64>,
    now: i64,
    found: Option<CacheEntry>,
)
    requires
        before.is_exclusive(),
        is_put(
            before,
            key,
            (response, model, created, expiry(created, ttl_ms)),
            Ok(()),
            after,
        ),
        is_lookup(after, key, now, Ok(found)),
    ensures
        found is Some <==> is_fresh((response, model, created, expiry(created, ttl_ms)), now),
        found is Some ==> found.unwrap()@ == (response, model, created, expiry(created, ttl_ms)),
        ttl_ms is None ==> found is Some && found.unwrap().expires_at_ms is None,
        ttl_ms matches Some(ttl) ==> (created + ttl <= 0x7FFF_FFFF_FFFF_FFFF && ttl
            <= 0x7FFF_FFFF_FFFF_FFFF ==> (found is Some <==> now < created + ttl) && (found is Some
            ==> found.unwrap().expires_at_ms == Some((created + ttl) as i64))),
        found is Some ==> {
            &&& found.unwrap().response_json@ == response
            &&& found.unwrap().model@ == model
            &&& found.unwrap().created_at_ms == created
        },
{
}

/// Storing under one key changes nothing under the others.
pub proof fn lemma_put_elsewhere(
    cache: Map<Seq<char>, CachedRow>,
    key: Seq<char>,
    row: CachedRow,
    other: Seq<char>,
    now: i64,
)
    requires
        other != key,
    ensures
        lookup(cache.insert(key, row), other, now) == lookup(cache, other, now),
{
}

/// Storing twice under a key keeps what was stored last, in one entry.
pub proof fn lemma_put_overwrites(
    cache: Map<Seq<char>, CachedRow>,
    key: Seq<char>,
    first: CachedRow,
    second: CachedRow,
)
    requires
        cache.dom().finite(),
    ensures
        cache.insert(key, first).insert(key, second) == cache.insert(key, second),
        cache.insert(key, second).dom().len() == cache.insert(key, first).dom().len(),
{
    assert(cache.insert(key, first).insert(key, second) =~= cache.insert(key, second));
}

/// A purge drops nothing that is still found, then or later, and of what it
/// leaves nothing has expired.
pub proof fn lemma_purge_keeps_fresh(
    cache: Map<Seq<char>, CachedRow>,
    purged_at: i64,
    key: Seq<char>,
    now: i64,
)
    requires
        purged_at <= now,
    ensures
        lookup(cache.remove_keys(expired_keys(cache, purged_at)), key, now) == lookup(
            cache,
            key,
            now,
        ),
        cache.remove_keys(expired_keys(cache, purged_at)).contains_key(key) ==> is_fresh(
            cache[key],
            purged_at,
        ),
{
}

/// The entries that a purge leaves and those that it drops make up the cache.
pub proof fn lemma_purge_counts(cache: Map<Seq<char>, CachedRow>, now: i64)
    requires
        cache.dom().finite(),
    ensures
        cache.remove_keys(expired_keys(cache, now)).dom().len() + expired_keys(cache, now).len()
            == cache.dom().len(),
{
    let dropped = expired_keys(cache, now);
    let kept = cache.remove_keys(dropped).dom();
    assert(kept =~= cache.dom().difference(dropped));
    assert(kept.disjoint(dropped));
    vstd::set_lib::lemma_set_disjoint_lens(kept, dropped);
    assert(kept + dropped =~= cache.dom());
}

/// Requests that differ in any part differ in what is hashed.
pub proof fn lemma_requests_differ(
    system_a: Seq<char>,
    messages_a: Seq<char>,
    model_a: Seq<char>,
    system_b: Seq<char>,
    messages_b: Seq<char>,
    model_b: Seq<char>,
)
    requires
        encode_utf8(request_text(system_a, messages_a, model_a)) == encode_utf8(
            request_text(system_b, messages_b, model_b),
        ),
    ensures
        system_a == system_b,
        messages_a == messages_b,
        model_a == model_b,
{
    let x = request_text(system_a, messages_a, model_a);
    let y = request_text(system_b, messages_b, model_b);
    encode_utf8_decode_utf8(x);
    encode_utf8_decode_utf8(y);
    assert(x == y);
    reveal_strlit("v1");
    reveal_strlit("v2");
    let a = is_separable(system_a, model_a);
    let b = is_separable(system_b, model_b);
    assert(x[1] == if a {
        '1'
    } else {
        '2'
    });
    assert(y[1] == if b {
        '1'
    } else {
        '2'
    });
    if a {
        let rest_a = system_a + seq![SEPARATOR] + messages_a;
        let rest_b = system_b + seq![SEPARATOR] + messages_b;
        assert(model_a + seq![SEPARATOR] + rest_a =~= x.skip(3));
        assert(model_b + seq![SEPARATOR] + rest_b =~= y.skip(3));
        lemma_separated(model_a, rest_a, model_b, rest_b);
        lemma_separated(system_a, messages_a, system_b, messages_b);
    } else {
        let rest_a = measured(system_a) + measured(messages_a);
        let rest_b = measured(system_b) + measured(messages_b);
        assert(measured(model_a) + rest_a =~= x.skip(3));
        assert(measured(model_b) + rest_b =~= y.skip(3));
        lemma_measured(model_a, rest_a, model_b, rest_b);
        lemma_measured(system_a, measured(messages_a), system_b, measured(messages_b));
        assert(measured(messages_a) =~= measured(messages_a) + Seq::<char>::empty());
        assert(measured(messages_b) =~= measured(messages_b) + Seq::<char>::empty());
        lemma_measured(messages_a, Seq::empty(), messages_b, Seq::empty());
    }
}

/// A part without a separator, and what stands behind the separator after it, can
/// be read off in one way only.
proof fn lemma_separated(a: Seq<char>, x: Seq<char>, b: Seq<char>, y: Seq<char>)
    requires
        !a.contains(SEPARATOR),
        !b.contains(SEPARATOR),
        a + seq![SEPARATOR] + x == b + seq![SEPARATOR] + y,
    ensures
        a == b,
        x == y,
{
    let s = a + seq![SEPARATOR] + x;
    let t = b + seq![SEPARATOR] + y;
    assert(s[a.len() as int] == SEPARATOR);
    assert(t[b.len() as int] == SEPARATOR);
    if a.len() < b.len() {
        assert(t[a.len() as int] == b[a.len() as int]);
    }
    if b.len() < a.len() {
        assert(s[b.len() as int] == a[b.len() as int]);
    }
    assert(a =~= s.take(a.len() as int));
    assert(b =~= t.take(b.len() as int));
    assert(x =~= s.skip(a.len() as int + 1));
    assert(y =~= t.skip(b.len() as int + 1));
}

/// A part with its length, and what stands behind it, can be read off in one way
/// only.
proof fn lemma_measured(a: Seq<char>, x: Seq<char>, b: Seq<char>, y: Seq<char>)
    requires
        measured(a) + x == measured(b) + y,
    ensures
        a == b,
        x == y,
{
    let p = digits(a.len(), 10);
    let q = digits(b.len(), 10);
    lemma_digits_value(a.len(), 10);
    lemma_digits_value(b.len(), 10);
    assert(measured(a) + x =~= p + seq![SEPARATOR] + (a + x));
    assert(measured(b) + y =~= q + seq![SEPARATOR] + (b + y));
    lemma_separated(p, a + x, q, b + y);
    let n = a.len() as int;
    assert(a =~= (a + x).take(n));
    assert(b =~= (b + y).take(n));
    assert(x =~= (a + x).skip(n));
    assert(y =~= (b + y).skip(n));
}

/// An entry expires when its life has passed since it was stored, or never where it
/// was given none. Where the sum is no signed number, or the life is none, the largest
/// one takes its place.
pub proof fn lemma_expiry_is_the_sum(created: i64, ttl_ms: u64)
    ensures
        expiry(created, None) is None,
        expiry(created, Some(ttl_ms)) is Some,
        ttl_ms <= 0x7FFF_FFFF_FFFF_FFFF && created + ttl_ms <= 0x7FFF_FFFF_FFFF_FFFF ==> expiry(
            created,
            Some(ttl_ms),
        ).unwrap() == created + ttl_ms,
        ttl_ms <= 0x7FFF_FFFF_FFFF_FFFF && created + ttl_ms > 0x7FFF_FFFF_FFFF_FFFF ==> expiry(
            created,
            Some(ttl_ms),
        ).unwrap() == 0x7FFF_FFFF_FFFF_FFFF,
        ttl_ms > 0x7FFF_FFFF_FFFF_FFFF ==> expiry(created, Some(ttl_ms)) == expiry(
            created,
            Some(0x7FFF_FFFF_FFFF_FFFF),
        ),
{
}

/// A lookup gives the entry under its key as it is stored, until the time at which it
/// expires, and nothing under any other key.
pub proof fn lemma_lookup_gives_the_entry(
    db: Database,
    key: Seq<char>,
    now: i64,
    found: Option<CacheEntry>,
)
    requires
        db.is_exclusive(),
        is_lookup(db, key, now, Ok(found)),
    ensures
        !db.cache().contains_key(key) ==> found is None,
        db.cache().contains_key(key) ==> {
            let row = db.cache()[key];
            &&& row.3 is None ==> found is Some
            &&& row.3 matches Some(expires) ==> (found is Some <==> now < expires)
            &&& found is Some ==> {
                &&& found.unwrap().response_json@ == row.0
                &&& found.unwrap().model@ == row.1
                &&& found.unwrap().created_at_ms == row.2
                &&& found.unwrap().expires_at_ms == row.3
            }
        },
{
}

/// Storing an entry changes no other entry, and nothing else in the store. A store
/// that refuses it stays as it was.
pub proof fn lemma_put_changes_one_entry(
    before: Database,
    key: Seq<char>,
    row: CachedRow,
    r: Result<(), StateError>,
    after: Database,
    other: Seq<char>,
)
    requires
        before.is_exclusive(),
        is_put(before, key, row, r, after),
    ensures
        r is Ok ==> after.cache().contains_key(key) && after.cache()[key] == row,
        other != key || r is Err ==> after.cache().contains_key(other)
            == before.cache().contains_key(other),
        (other != key || r is Err) && before.cache().contains_key(other) ==> after.cache()[other]
            == before.cache()[other],
        after.scores() == before.scores(),
        after.times() == before.times(),
        after.facts() == before.facts(),
        after.versions() == before.versions(),
{
}

/// A purge drops an entry if, and only if, the time at which it expires has come, and
/// leaves the others as they are.
pub proof fn lemma_purge_drops_what_has_expired(
    before: Database,
    now: i64,
    removed: usize,
    after: Database,
    key: Seq<char>,
)
    requires
        before.is_exclusive(),
        is_purge(before, now, Ok(removed), after),
        before.cache().contains_key(key),
    ensures
        before.cache()[key].3 is None ==> after.cache().contains_key(key),
        before.cache()[key].3 matches Some(expires) ==> (after.cache().contains_key(key) <==> now
            < expires),
        after.cache().contains_key(key) ==> after.cache()[key] == before.cache()[key],
        before.cache().dom().finite() ==> removed + after.cache().dom().len()
            == before.cache().dom().len(),
        after.scores() == before.scores(),
        after.facts() == before.facts(),
{
    if before.cache().dom().finite() {
        lemma_purge_counts(before.cache(), now);
    }
}

/// The size of a cache is the number of its keys, and it is empty without any.
pub proof fn lemma_size_counts_the_keys(db: Database, size: usize, empty: Result<bool, StateError>)
    requires
        db.is_exclusive(),
        is_cache_size(db, Ok(size)),
        db.cache().dom().len() <= usize::MAX,
        empty == no_rows(Ok(size)),
    ensures
        size == db.cache().dom().len(),
        empty == Ok::<bool, StateError>(db.cache().dom().len() == 0),
{
}

/// Where neither the model nor the system prompt holds the separator, what is hashed
/// is a tag and the three parts with separators between them.
pub proof fn lemma_text_of_plain_requests(
    system_prompt: Seq<char>,
    messages_json: Seq<char>,
    model: Seq<char>,
)
    requires
        forall|i: int| 0 <= i < model.len() ==> #[trigger] model[i] != '\u{1f}',
        forall|i: int| 0 <= i < system_prompt.len() ==> #[trigger] system_prompt[i] != '\u{1f}',
    ensures
        request_text(system_prompt, messages_json, model) == "v1"@.push('\u{1f}') + model.push(
            '\u{1f}',
        ) + system_prompt.push('\u{1f}') + messages_json,
{
    assert(request_text(system_prompt, messages_json, model) =~= "v1"@.push('\u{1f}') + model.push(
        '\u{1f}',
    ) + system_prompt.push('\u{1f}') + messages_json);
}

} // verus!
