//! Facts to remember, and their recall by keyword.

use crate::cache::as_count;
use crate::cache::counted;
use crate::cache::is_size;
use crate::cache::no_rows;
use crate::clock::is_reading;
use crate::clock::millis_at;
use crate::clock::now_ms;
use crate::clock::signed_millis;
use crate::database::count_facts;
use crate::database::fetch_fact;
use crate::database::is_search_result;
use crate::database::remove_fact;
use crate::database::search_facts;
use crate::database::search_facts_in;
use crate::database::store_fact;
use crate::database::Database;
use crate::database::FactRecord;
use crate::database::FactRow;
use crate::embedding::embedding_to_blob;
use crate::embedding::stored_vector;
use crate::embedding::Binary32;
use crate::embedding::EmbeddingProvider;
use crate::error::labelled;
use crate::error::StateError;
use crate::text::after_prefix;
use crate::text::alphanumeric;
use crate::text::blank;
use crate::text::is_blank;
use crate::text::join;
use crate::text::joined;
use crate::text::lowercase_characters;
use crate::text::lowercase_text;
use crate::text::padded_digits;
use crate::text::padded_digits_of;
use crate::text::pieces;
use crate::text::same_text;
use crate::text::split;
use crate::text::split_on;
use crate::text::strip_prefix;
use crate::text::views;
use crate::text::whitespace;
use std::time::SystemTime;
use vstd::prelude::*;
use vstd::string::*;

verus! {

/// Where a fact applies.
#[derive(Debug, Clone, PartialEq, Eq)]
pub enum MemoryScope {
    Global,
    Workspace { hash: String },
    Session { id: String },
}

/// Where a fact applies, with texts for strings.
pub enum ScopeView {
    Global,
    Workspace { hash: Seq<char> },
    Session { id: Seq<char> },
}

impl View for MemoryScope {
    type V = ScopeView;

    open spec fn view(&self) -> ScopeView {
        match self {
            MemoryScope::Global => ScopeView::Global,
            MemoryScope::Workspace { hash } => ScopeView::Workspace { hash: hash@ },
            MemoryScope::Session { id } => ScopeView::Session { id: id@ },
        }
    }
}

/// The text under which a scope is stored.
pub open spec fn encoded_scope(scope: ScopeView) -> Seq<char> {
    match scope {
        ScopeView::Global => "global"@,
        ScopeView::Workspace { hash } => "workspace:"@ + hash,
        ScopeView::Session { id } => "session:"@ + id,
    }
}

/// The scope that is stored under a text. Texts that stand for no scope are read
/// as the global one.
pub open spec fn decoded_scope(raw: Seq<char>) -> ScopeView {
    if after_prefix(raw, "workspace:"@) is Some {
        ScopeView::Workspace { hash: after_prefix(raw, "workspace:"@).unwrap() }
    } else if after_prefix(raw, "session:"@) is Some {
        ScopeView::Session { id: after_prefix(raw, "session:"@).unwrap() }
    } else {
        ScopeView::Global
    }
}

impl MemoryScope {
    /// The text under which the scope is stored.
    pub fn encode(&self) -> (r: String)
        ensures
            r@ == encoded_scope(self@),
    {
        match self {
            MemoryScope::Global => "global".to_owned(),
            MemoryScope::Workspace { hash } => labelled("workspace:", hash.as_str()),
            MemoryScope::Session { id } => labelled("session:", id.as_str()),
        }
    }

    /// The scope that is stored under a text.
    pub fn decode(raw: &str) -> (r: MemoryScope)
        ensures
            r@ == decoded_scope(raw@),
    {
        if same_text(raw, "global") {
            proof {
                reveal_strlit("global");
                reveal_strlit("workspace:");
                reveal_strlit("session:");
            }
            return MemoryScope::Global;
        }
        match strip_prefix(raw, "workspace:") {
            Some(hash) => MemoryScope::Workspace { hash },
            None => match strip_prefix(raw, "session:") {
                Some(id) => MemoryScope::Session { id },
                None => MemoryScope::Global,
            },
        }
    }
}

/// A scope is read back as it was stored.
pub proof fn lemma_scope_roundtrip(scope: ScopeView)
    ensures
        decoded_scope(encoded_scope(scope)) == scope,
{
    reveal_strlit("global");
    reveal_strlit("workspace:");
    reveal_strlit("session:");
    match scope {
        ScopeView::Global => {},
        ScopeView::Workspace { hash } => {
            let raw = "workspace:"@ + hash;
            assert(raw.take(10) =~= "workspace:"@);
            assert(raw.skip(10) =~= hash);
        },
        ScopeView::Session { id } => {
            let raw = "session:"@ + id;
            assert(raw.take(8) =~= "session:"@);
            assert(raw.skip(8) =~= id);
            if raw.len() >= 10 {
                assert(raw.take(10)[0] == 's');
            }
        },
    }
}

/// A fact.
#[derive(Debug, Clone, PartialEq, Eq)]
pub struct MemoryFact {
    pub id: String,
    pub scope: MemoryScope,
    pub content: String,
    pub tags: Vec<String>,
    pub created_at_ms: i64,
    pub updated_at_ms: i64,
}

/// A fact, with texts for strings.
pub struct FactView {
    pub id: Seq<char>,
    pub scope: ScopeView,
    pub content: Seq<char>,
    pub tags: Seq<Seq<char>>,
    pub created_at_ms: i64,
    pub updated_at_ms: i64,
}

impl View for MemoryFact {
    type V = FactView;

    open spec fn view(&self) -> FactView {
        FactView {
            id: self.id@,
            scope: self.scope@,
            content: self.content@,
            tags: views(self.tags@),
            created_at_ms: self.created_at_ms,
            updated_at_ms: self.updated_at_ms,
        }
    }
}

/// What to look for.
#[derive(Debug, Clone)]
pub struct MemoryQuery<'a> {
    pub text: &'a str,
    pub scope: Option<&'a MemoryScope>,
    pub limit: usize,
}

/// The text under which tags are stored.
pub open spec fn encoded_tags(tags: Seq<Seq<char>>) -> Seq<char> {
    joined(tags, ","@)
}

/// The tags that are stored under a text.
pub open spec fn decoded_tags(csv: Seq<char>) -> Seq<Seq<char>> {
    if csv.len() == 0 {
        Seq::empty()
    } else {
        split_on(csv, ',')
    }
}

/// Tags without commas are read back as they were stored, except that a lone
/// empty tag is lost.
pub proof fn lemma_tags_roundtrip(tags: Seq<Seq<char>>)
    requires
        forall|i: int| 0 <= i < tags.len() ==> !(#[trigger] tags[i]).contains(','),
        tags != seq![Seq::<char>::empty()],
    ensures
        decoded_tags(encoded_tags(tags)) == tags,
{
    reveal_strlit(",");
    assert(","@ =~= seq![',']);
    if tags.len() > 0 {
        crate::text::lemma_split_joined(tags, ',');
        if encoded_tags(tags).len() == 0 {
            assert(encoded_tags(tags) =~= Seq::empty());
            assert(split_on(Seq::empty(), ',') =~= seq![Seq::<char>::empty()]);
        }
    } else {
        assert(tags =~= Seq::empty());
    }
}

/// The fact that a record of a query stands for.
pub open spec fn decoded_record(record: FactRecord) -> FactView {
    FactView {
        id: record.0@,
        scope: decoded_scope(record.1@),
        content: record.2@,
        tags: decoded_tags(record.3@),
        created_at_ms: record.4,
        updated_at_ms: record.5,
    }
}

/// The fact that is stored under an id.
pub open spec fn stored_fact(facts: Map<Seq<char>, FactRow>, id: Seq<char>) -> FactView {
    let row = facts[id];
    FactView {
        id,
        scope: decoded_scope(row.0),
        content: row.1,
        tags: decoded_tags(row.2),
        created_at_ms: row.4,
        updated_at_ms: row.5,
    }
}

/// The fact that a record of a query stands for.
pub fn decode_memory_row(record: FactRecord) -> (r: MemoryFact)
    ensures
        r@ == decoded_record(record),
{
    let (id, scope, content, csv, created_at_ms, updated_at_ms) = record;
    let tags: Vec<String> = if same_text(csv.as_str(), "") {
        proof {
            reveal_strlit("");
        }
        Vec::new()
    } else {
        proof {
            reveal_strlit("");
            if csv@.len() == 0 {
                assert(csv@ =~= ""@);
            }
        }
        split(csv.as_str(), ',')
    };
    assert(views(tags@) =~= decoded_tags(csv@));
    MemoryFact {
        id,
        scope: MemoryScope::decode(scope.as_str()),
        content,
        tags,
        created_at_ms,
        updated_at_ms,
    }
}

fn copy_texts(texts: &[String]) -> (r: Vec<String>)
    ensures
        views(r@) == views(texts@),
{
    let mut r: Vec<String> = Vec::new();
    let mut i: usize = 0;
    while i < texts.len()
        invariant
            i <= texts@.len(),
            views(r@) =~= views(texts@).take(i as int),
        decreases texts.len() - i,
    {
        let ghost before = views(r@);
        let copy: String = texts[i].clone();
        assert(copy@ == views(texts@)[i as int]);
        r.push(copy);
        assert(views(r@) =~= before.push(copy@));
        i = i + 1;
    }
    assert(views(texts@).take(i as int) =~= views(texts@));
    r
}

/// The id of a fact: a tag, a time in sixteen hexadecimal digits, and a running
/// number in eight or more.
pub open spec fn fact_id(time: u64, tick: u64) -> Seq<char> {
    "mem_"@ + padded_digits(time as nat, 16, 16) + padded_digits(tick as nat, 16, 8)
}

/// The id of a fact.
pub fn make_id(time: u64, tick: u64) -> (r: String)
    ensures
        r@ == fact_id(time, tick),
{
    let mut r: String = labelled("mem_", padded_digits_of(time, 16, 16).as_str());
    r.append(padded_digits_of(tick, 16, 8).as_str());
    r
}

proof fn lemma_digits_length(n: nat, k: nat)
    requires
        k > 0,
        n < vstd::arithmetic::power::pow(16, k),
    ensures
        crate::text::digits(n, 16).len() <= k,
    decreases k,
{
    if k == 1 {
        vstd::arithmetic::power::lemma_pow1(16);
    } else if n >= 16 {
        reveal(vstd::arithmetic::power::pow);
        assert(vstd::arithmetic::power::pow(16, k) == 16 * vstd::arithmetic::power::pow(
            16,
            (k - 1) as nat,
        ));
        lemma_digits_length(n / 16, (k - 1) as nat);
    }
}

/// Facts with different times or running numbers have different ids.
pub proof fn lemma_fact_ids_differ(time_a: u64, tick_a: u64, time_b: u64, tick_b: u64)
    requires
        fact_id(time_a, tick_a) == fact_id(time_b, tick_b),
    ensures
        time_a == time_b,
        tick_a == tick_b,
{
    reveal_strlit("mem_");
    assert(vstd::arithmetic::power::pow(16, 16) == 0x1_0000_0000_0000_0000) by {
        reveal_with_fuel(vstd::arithmetic::power::pow, 17);
    }
    let x = fact_id(time_a, tick_a);
    let (pa, pb) = (padded_digits(time_a as nat, 16, 16), padded_digits(time_b as nat, 16, 16));
    let (qa, qb) = (padded_digits(tick_a as nat, 16, 8), padded_digits(tick_b as nat, 16, 8));
    lemma_digits_length(time_a as nat, 16);
    lemma_digits_length(time_b as nat, 16);
    assert(pa.len() == 16 && pb.len() == 16);
    assert(pa =~= x.subrange(4, 20));
    assert(pb =~= x.subrange(4, 20));
    assert(qa =~= x.skip(20));
    assert(qb =~= x.skip(20));
    crate::text::lemma_padded_value(time_a as nat, 16, 16);
    crate::text::lemma_padded_value(time_b as nat, 16, 16);
    crate::text::lemma_padded_value(tick_a as nat, 16, 8);
    crate::text::lemma_padded_value(tick_b as nat, 16, 8);
}

/// A character as a search sees it: letters, digits and underscores as they are,
/// and a blank for everything else.
pub open spec fn search_char(c: char) -> char {
    if alphanumeric(c) || c == '_' {
        c
    } else {
        ' '
    }
}

/// Holds of blanks.
pub open spec fn blanks() -> spec_fn(char) -> bool {
    |c: char| whitespace(c)
}

/// Holds of texts that are not empty.
pub open spec fn nonempty() -> spec_fn(Seq<char>) -> bool {
    |piece: Seq<char>| piece.len() > 0
}

/// The words of a text as a search sees them: in small letters, and parted by
/// everything that is no letter, digit or underscore.
pub open spec fn search_words(text: Seq<char>) -> Seq<Seq<char>> {
    pieces(lowercase_text(text).map_values(|c: char| search_char(c)), blanks()).filter(nonempty())
}

/// A word in double quotes.
pub open spec fn quoted(word: Seq<char>) -> Seq<char> {
    seq!['"'] + word + seq!['"']
}

/// The match expression for a text: its words in quotes, any of which is to be
/// found, and a placeholder where there are none, for which nothing is searched.
pub open spec fn match_expression(text: Seq<char>) -> Seq<char> {
    if search_words(text).len() == 0 {
        "\"__claw_never_match__\""@
    } else {
        joined(search_words(text).map_values(|word: Seq<char>| quoted(word)), " OR "@)
    }
}

/// The words of a text as a search sees them.
fn words_of(text: &str) -> (r: Vec<String>)
    ensures
        views(r@) == search_words(text@),
{
    let chars: Vec<char> = lowercase_characters(text);
    let ghost seen = chars@.map_values(|c: char| search_char(c));
    let mut done: Vec<String> = Vec::new();
    let mut piece: String = String::new();
    let mut i: usize = 0;
    proof {
        reveal(Seq::filter);
        let start = pieces(seen.take(0), blanks());
        assert(start =~= seq![Seq::<char>::empty()]);
        assert(start.drop_last() =~= Seq::empty());
        assert(views(done@) =~= start.drop_last().filter(nonempty()));
    }
    while i < chars.len()
        invariant
            i <= chars.len(),
            seen == chars@.map_values(|c: char| search_char(c)),
            pieces(seen.take(i as int), blanks()).len() > 0,
            pieces(seen.take(i as int), blanks()).last() == piece@,
            views(done@) == pieces(seen.take(i as int), blanks()).drop_last().filter(nonempty()),
        decreases chars.len() - i,
    {
        let raw: char = chars[i];
        let c: char = if raw.is_alphanumeric() || raw == '_' {
            raw
        } else {
            ' '
        };
        let ghost before = pieces(seen.take(i as int), blanks());
        let ghost after = pieces(seen.take(i + 1), blanks());
        let ghost words = views(done@);
        proof {
            assert(seen.take(i + 1).drop_last() =~= seen.take(i as int));
            assert(seen.take(i + 1).last() == c);
            assert(before.drop_last().push(before.last()) =~= before);
            reveal(Seq::filter);
            if blanks()(c) {
                assert(after.drop_last() =~= before);
                assert(before.filter(nonempty()) == if nonempty()(before.last()) {
                    before.drop_last().filter(nonempty()).push(before.last())
                } else {
                    before.drop_last().filter(nonempty())
                });
            } else {
                assert(after.drop_last() =~= before.drop_last());
            }
        }
        if c.is_whitespace() {
            if !same_text(piece.as_str(), "") {
                proof {
                    reveal_strlit("");
                    if piece@.len() == 0 {
                        assert(piece@ =~= ""@);
                    }
                }
                done.push(piece);
                assert(views(done@) =~= words.push(before.last()));
            } else {
                proof {
                    reveal_strlit("");
                }
            }
            piece = String::new();
        } else {
            piece.push(c);
        }
        i = i + 1;
    }
    let ghost all = pieces(seen, blanks());
    let ghost words = views(done@);
    proof {
        assert(seen.take(i as int) =~= seen);
        reveal(Seq::filter);
        reveal_strlit("");
        if piece@.len() == 0 {
            assert(piece@ =~= ""@);
        }
    }
    if !same_text(piece.as_str(), "") {
        done.push(piece);
        assert(views(done@) =~= words.push(all.last()));
    }
    done
}

/// Whether a text holds words to search for.
fn has_words(text: &str) -> (r: bool)
    ensures
        r == (search_words(text@).len() > 0),
{
    let words: Vec<String> = words_of(text);
    assert(words@.len() == views(words@).len());
    words.len() > 0
}

/// The match expression for a text.
pub fn build_match_expression(text: &str) -> (r: String)
    ensures
        r@ == match_expression(text@),
{
    let words: Vec<String> = words_of(text);
    assert(words@.len() == views(words@).len());
    if words.len() == 0 {
        return "\"__claw_never_match__\"".to_owned();
    }
    let mut parts: Vec<String> = Vec::new();
    let ghost wanted = search_words(text@).map_values(|word: Seq<char>| quoted(word));
    let mut i: usize = 0;
    while i < words.len()
        invariant
            i <= words@.len(),
            views(words@) == search_words(text@),
            wanted == search_words(text@).map_values(|word: Seq<char>| quoted(word)),
            views(parts@) =~= wanted.take(i as int),
        decreases words.len() - i,
    {
        let mut part: String = String::new();
        part.push('"');
        part.append(words[i].as_str());
        part.push('"');
        let ghost before = views(parts@);
        assert(words@[i as int]@ == views(words@)[i as int]);
        assert(part@ =~= quoted(words@[i as int]@));
        assert(wanted[i as int] == part@);
        parts.push(part);
        assert(views(parts@) =~= before.push(part@));
        i = i + 1;
    }
    assert(wanted.take(i as int) =~= wanted);
    join(parts.as_slice(), " OR ")
}

/// The words that are put in quotes hold letters, digits and underscores only,
/// so neither quotes nor blanks, and none is empty: no text can make the
/// expression say anything but that one of them is to be found.
pub proof fn lemma_search_words_are_plain(text: Seq<char>, i: int, k: int)
    requires
        0 <= i < search_words(text).len(),
        0 <= k < search_words(text)[i].len(),
    ensures
        search_words(text)[i].len() > 0,
        search_words(text)[i][k] != '"',
        !whitespace(search_words(text)[i][k]),
        search_words(text)[i][k] == '_' || alphanumeric(search_words(text)[i][k]),
{
    let low = lowercase_text(text);
    let seen = low.map_values(|c: char| search_char(c));
    let all = pieces(seen, blanks());
    let word = search_words(text)[i];
    lemma_filter_keeps(all, nonempty(), i);
    let j = choose|j: int| 0 <= j < all.len() && all[j] == word;
    lemma_pieces_hold_no_cuts(seen, blanks(), j, k);
    let n = choose|n: int| 0 <= n < seen.len() && seen[n] == word[k];
    assert(seen[n] == search_char(low[n]));
    assert(!blanks()(word[k]));
    assert(whitespace(' '));
}

/// What a filter keeps is an element that it holds of.
proof fn lemma_filter_keeps(s: Seq<Seq<char>>, keep: spec_fn(Seq<char>) -> bool, i: int)
    requires
        0 <= i < s.filter(keep).len(),
    ensures
        keep(s.filter(keep)[i]),
        exists|j: int| 0 <= j < s.len() && s[j] == s.filter(keep)[i],
    decreases s.len(),
{
    reveal(Seq::filter);
    if s.len() > 0 {
        let before = s.drop_last();
        if i < before.filter(keep).len() {
            lemma_filter_keeps(before, keep, i);
            let j = choose|j: int| 0 <= j < before.len() && before[j] == before.filter(keep)[i];
            assert(s[j] == s.filter(keep)[i]);
        } else {
            assert(s[s.len() - 1] == s.filter(keep)[i]);
        }
    }
}

/// Pieces are made of the characters at which a text is not cut.
proof fn lemma_pieces_hold_no_cuts(s: Seq<char>, cut: spec_fn(char) -> bool, j: int, k: int)
    requires
        0 <= j < pieces(s, cut).len(),
        0 <= k < pieces(s, cut)[j].len(),
    ensures
        !cut(pieces(s, cut)[j][k]),
        exists|n: int| 0 <= n < s.len() && s[n] == pieces(s, cut)[j][k],
    decreases s.len(),
{
    if s.len() > 0 {
        let before = pieces(s.drop_last(), cut);
        crate::text::lemma_pieces_not_empty(s.drop_last(), cut);
        let here = pieces(s, cut)[j][k];
        if !cut(s.last()) && j == before.len() - 1 && k == before.last().len() {
            assert(s[s.len() - 1] == here);
        } else {
            lemma_pieces_hold_no_cuts(s.drop_last(), cut, j, k);
            let n = choose|n: int| 0 <= n < s.drop_last().len() && s.drop_last()[n] == here;
            assert(s[n] == here);
        }
    }
}

/// The row that a fact is stored as.
pub open spec fn fact_row(
    scope: ScopeView,
    content: Seq<char>,
    tags: Seq<Seq<char>>,
    vector: Seq<Binary32>,
    now: i64,
) -> FactRow {
    (encoded_scope(scope), content, encoded_tags(tags), stored_vector(vector), now, now)
}

/// A fact that was stored is read back as it was, if no tag holds a comma and
/// the tags are not a lone empty one.
pub proof fn lemma_fact_roundtrip(
    facts: Map<Seq<char>, FactRow>,
    id: Seq<char>,
    scope: ScopeView,
    content: Seq<char>,
    tags: Seq<Seq<char>>,
    vector: Seq<Binary32>,
    now: i64,
)
    requires
        forall|i: int| 0 <= i < tags.len() ==> !(#[trigger] tags[i]).contains(','),
        tags != seq![Seq::<char>::empty()],
    ensures
        stored_fact(facts.insert(id, fact_row(scope, content, tags, vector, now)), id) == (
        FactView { id, scope, content, tags, created_at_ms: now, updated_at_ms: now }),
{
    lemma_scope_roundtrip(scope);
    lemma_tags_roundtrip(tags);
}

/// A time as the first part of an id: one before the epoch counts as zero.
pub open spec fn id_time(now: i64) -> u64 {
    if now >= 0 {
        now as u64
    } else {
        0
    }
}

/// Whether two stores have the same tables, except possibly the facts, if they
/// are reached through one connection only.
pub open spec fn keeps_other_tables(before: Database, after: Database) -> bool {
    before.is_exclusive() ==> {
        &&& after.is_exclusive()
        &&& before.has_tables() ==> after.has_tables()
        &&& after.versions() == before.versions()
        &&& after.cache() == before.cache()
        &&& after.scores() == before.scores()
        &&& after.times() == before.times()
    }
}

/// Whether a store after an insertion is the store before with one more fact,
/// and the result that fact.
pub open spec fn is_insert(
    before: Database,
    id: Seq<char>,
    scope: ScopeView,
    content: Seq<char>,
    tags: Seq<Seq<char>>,
    vector: Seq<Binary32>,
    now: i64,
    r: Result<MemoryFact, StateError>,
    after: Database,
) -> bool {
    &&& keeps_other_tables(before, after)
    &&& match r {
        Ok(fact) => {
            &&& fact@ == (FactView {
                id,
                scope,
                content,
                tags,
                created_at_ms: now,
                updated_at_ms: now,
            })
            &&& before.is_exclusive() ==> {
                &&& !before.facts().contains_key(id)
                &&& after.facts() == before.facts().insert(
                    id,
                    fact_row(scope, content, tags, vector, now),
                )
            }
        },
        Err(_) => before.is_exclusive() ==> after.facts() == before.facts(),
    }
}

/// Whether a store after an insertion is what the provider's answer makes of it:
/// one more fact with the vector that it gave, or its error and the same tables.
pub open spec fn is_provided_insert(
    before: Database,
    scope: ScopeView,
    content: Seq<char>,
    tags: Seq<Seq<char>>,
    made: i64,
    embedding: Result<Vec<Binary32>, StateError>,
    now: i64,
    r: Result<MemoryFact, StateError>,
    after: Database,
) -> bool {
    match embedding {
        Ok(vector) => {
            &&& is_insert(
                before,
                fact_id(id_time(made), before.next_tick()),
                scope,
                content,
                tags,
                vector@,
                now,
                r,
                after,
            )
            &&& r matches Err(error) ==> error is Sqlite
        },
        Err(error) => {
            &&& r == Err::<MemoryFact, StateError>(error)
            &&& keeps_other_tables(before, after)
            &&& before.is_exclusive() ==> after.facts() == before.facts()
        },
    }
}

/// Whether a store after `delete` is the store before without the fact, and the
/// result whether there was one.
pub open spec fn is_delete(
    before: Database,
    id: Seq<char>,
    r: Result<bool, StateError>,
    after: Database,
) -> bool {
    &&& keeps_other_tables(before, after)
    &&& before.is_exclusive() ==> match r {
        Ok(removed) => {
            &&& removed == before.facts().contains_key(id)
            &&& after.facts() == before.facts().remove(id)
        },
        Err(_) => after.facts() == before.facts(),
    }
    &&& r matches Err(error) ==> error is Sqlite
}

/// What a query for the fact with an id gives.
pub type FactAnswer = Result<Option<FactRecord>, rusqlite::Error>;

/// Whether an answer is what the query for the fact with an id gave.
pub open(crate) spec fn is_fact_read(db: Database, id: Seq<char>, answer: FactAnswer) -> bool {
    exists|text: &str| #[trigger]
        call_ensures(fetch_fact, (&db.conn, text), answer) && text@ == id
}

/// Whether a result of `get` is what the query for the fact gave, and so the fact
/// with an id where the facts are reached through one connection only.
pub open spec fn is_get(
    db: Database,
    id: Seq<char>,
    r: Result<Option<MemoryFact>, StateError>,
) -> bool {
    &&& exists|answer: FactAnswer| #[trigger]
        is_fact_read(db, id, answer) && match answer {
            Ok(Some(record)) => r matches Ok(Some(fact)) && fact@ == decoded_record(record),
            Ok(None) => r matches Ok(None),
            Err(error) => r matches Err(StateError::Sqlite(given)) && given == error,
        }
    &&& db.is_exclusive() ==> match r {
        Ok(Some(fact)) => db.facts().contains_key(id) && fact@ == stored_fact(db.facts(), id),
        Ok(None) => !db.facts().contains_key(id),
        Err(_) => true,
    }
}

/// What was stored is what is read, if no tag holds a comma and the tags are not
/// a lone empty one.
pub proof fn lemma_read_after_insert(
    before: Database,
    after: Database,
    id: Seq<char>,
    scope: ScopeView,
    content: Seq<char>,
    tags: Seq<Seq<char>>,
    vector: Seq<Binary32>,
    now: i64,
    fact: MemoryFact,
    found: Option<MemoryFact>,
)
    requires
        before.is_exclusive(),
        is_insert(before, id, scope, content, tags, vector, now, Ok(fact), after),
        is_get(after, id, Ok(found)),
        forall|i: int| 0 <= i < tags.len() ==> !(#[trigger] tags[i]).contains(','),
        tags != seq![Seq::<char>::empty()],
    ensures
        found is Some,
        found.unwrap()@ == fact@,
        found.unwrap()@.id == id,
        found.unwrap()@.scope == scope,
        found.unwrap()@.content == content,
        found.unwrap()@.tags == tags,
        found.unwrap()@.created_at_ms == now,
        found.unwrap()@.updated_at_ms == now,
{
    lemma_fact_roundtrip(before.facts(), id, scope, content, tags, vector, now);
}

/// A fact that was deleted is not read again.
pub proof fn lemma_read_after_delete(
    before: Database,
    after: Database,
    id: Seq<char>,
    removed: bool,
    found: Option<MemoryFact>,
)
    requires
        before.is_exclusive(),
        is_delete(before, id, Ok(removed), after),
        is_get(after, id, Ok(found)),
    ensures
        found is None,
{
}

/// Whether a result refuses a fact without content.
pub open spec fn is_blank_error(r: Result<MemoryFact, StateError>) -> bool {
    r matches Err(StateError::InvalidInput(message)) && message@
        == "memory content cannot be empty"@
}

/// Whether facts are what a search for the words of a text finds.
pub open spec fn are_found(
    db: Database,
    text: Seq<char>,
    scope: Option<ScopeView>,
    limit: nat,
    facts: Seq<MemoryFact>,
) -> bool {
    exists|records: Seq<FactRecord>|
        {
            &&& is_search_result(
                db.facts(),
                db.ranks(match_expression(text)),
                records,
                match_expression(text),
                wanted_scope(scope),
                signed_limit(limit),
            )
            &&& #[trigger] are_decoded(records, facts)
        }
}

/// What a search gives.
pub type SearchAnswer = Result<Vec<FactRecord>, rusqlite::Error>;

/// Whether an answer is what the search for the words of a text gave, of the facts
/// of one scope or of all.
pub open(crate) spec fn is_searched(
    db: Database,
    text: Seq<char>,
    scope: Option<ScopeView>,
    limit: nat,
    answer: SearchAnswer,
) -> bool {
    match scope {
        Some(wanted) => exists|expression: &str, name: &str, most: i64|
            {
                &&& #[trigger] call_ensures(
                    search_facts_in,
                    (&db.conn, expression, name, most),
                    answer,
                )
                &&& expression@ == match_expression(text)
                &&& name@ == encoded_scope(wanted)
                &&& most == signed_limit(limit)
            },
        None => exists|expression: &str, most: i64|
            {
                &&& #[trigger] call_ensures(search_facts, (&db.conn, expression, most), answer)
                &&& expression@ == match_expression(text)
                &&& most == signed_limit(limit)
            },
    }
}

/// Whether a result of `recall` answers a query: nothing for a text without words
/// or a limit of zero, and otherwise what a search for its words gave, which is
/// what there is to find where the facts are reached through one connection only.
pub open spec fn is_recall(
    db: Database,
    text: Seq<char>,
    scope: Option<ScopeView>,
    limit: nat,
    r: Result<Vec<MemoryFact>, StateError>,
) -> bool {
    if blank(text) || search_words(text).len() == 0 || limit == 0 {
        r matches Ok(facts) && facts@.len() == 0
    } else {
        &&& exists|answer: SearchAnswer| #[trigger]
            is_searched(db, text, scope, limit, answer) && match answer {
                Ok(records) => r matches Ok(facts) && are_decoded(records@, facts@),
                Err(error) => r matches Err(StateError::Sqlite(given)) && given == error,
            }
        &&& db.is_exclusive() ==> (r matches Ok(facts) ==> are_found(
            db,
            text,
            scope,
            limit,
            facts@,
        ))
    }
}

/// The text of the scope to which a search keeps.
pub open spec fn wanted_scope(scope: Option<ScopeView>) -> Option<Seq<char>> {
    match scope {
        Some(wanted) => Some(encoded_scope(wanted)),
        None => None,
    }
}

/// A limit, cut off at the largest signed number.
pub open spec fn signed_limit(limit: nat) -> int {
    if limit <= i64::MAX {
        limit as int
    } else {
        i64::MAX as int
    }
}

/// Whether facts are those that records of a query stand for.
pub open spec fn are_decoded(records: Seq<FactRecord>, facts: Seq<MemoryFact>) -> bool {
    &&& facts.len() == records.len()
    &&& forall|i: int|
        0 <= i < facts.len() ==> (#[trigger] facts[i])@ == decoded_record(records[i])
}

/// The facts that records of a query stand for.
pub fn decode_rows(records: Vec<FactRecord>) -> (r: Vec<MemoryFact>)
    ensures
        are_decoded(records@, r@),
{
    let mut r: Vec<MemoryFact> = Vec::new();
    for record in it: records
        invariant
            it.seq() == records@,
            r@.len() == it.index(),
            forall|i: int|
                0 <= i < r@.len() ==> (#[trigger] r@[i])@ == decoded_record(records@[i]),
    {
        r.push(decode_memory_row(record));
    }
    r
}

/// The scope of a query, with texts for strings.
pub open spec fn query_scope(scope: Option<&MemoryScope>) -> Option<ScopeView> {
    match scope {
        Some(wanted) => Some(wanted@),
        None => None,
    }
}

/// The facts of a store, with a provider of embeddings.
pub struct MemoryHandle<'a, E: EmbeddingProvider> {
    pub db: &'a mut Database,
    pub embedder: E,
}

impl<'a, E: EmbeddingProvider> MemoryHandle<'a, E> {
    /// The store as it is now.
    pub open spec fn database(self) -> Database {
        *self.db
    }

    /// An id for the next fact, which uses up a running number.
    fn next_id(&mut self, now: i64) -> (r: String)
        ensures
            r@ == fact_id(id_time(now), old(self).db.next_tick()),
            final(self).db.next_tick() == old(self).db.next_tick().wrapping_add(1),
            final(self).db.conn == old(self).db.conn,
            final(self).embedder == old(self).embedder,
            *final(final(self).db) == *final(old(self).db),
    {
        let tick: u64 = self.db.tick;
        self.db.tick = tick.wrapping_add(1);
        let time: u64 = if now >= 0 {
            now as u64
        } else {
            0
        };
        make_id(time, tick)
    }

    /// Store a fact under an id, with its vector and at a given time.
    pub fn insert_as(
        &mut self,
        id: String,
        scope: MemoryScope,
        content: &str,
        tags: &[String],
        vector: &[Binary32],
        now: i64,
    ) -> (r: Result<MemoryFact, StateError>)
        ensures
            blank(content@) ==> is_blank_error(r) && *final(self).db == *old(self).db,
            blank(content@) ==> r matches Err(StateError::InvalidInput(_)),
            r matches Ok(fact) ==> fact@.id == id@ && fact@.scope == scope@ && fact@.content
                == content@ && fact@.tags == views(tags@),
            !blank(content@) ==> is_insert(
                *old(self).db,
                id@,
                scope@,
                content@,
                views(tags@),
                vector@,
                now,
                r,
                *final(self).db,
            ) && (r matches Err(error) ==> error is Sqlite),
            final(self).db.next_tick() == old(self).db.next_tick(),
            final(self).embedder == old(self).embedder,
            *final(final(self).db) == *final(old(self).db),
    {
        if is_blank(content) {
            return Err(StateError::InvalidInput("memory content cannot be empty".to_owned()));
        }
        let csv: String = join(tags, ",");
        let blob: Option<Vec<u8>> = if vector.len() == 0 {
            None
        } else {
            Some(embedding_to_blob(vector))
        };
        match store_fact(
            &mut self.db.conn,
            id.as_str(),
            scope.encode().as_str(),
            content,
            csv.as_str(),
            blob,
            now,
        ) {
            Ok(()) => Ok(
                MemoryFact {
                    id,
                    scope,
                    content: content.to_owned(),
                    tags: copy_texts(tags),
                    created_at_ms: now,
                    updated_at_ms: now,
                },
            ),
            Err(error) => Err(StateError::from(error)),
        }
    }

    /// Store a fact. A vector that is not empty is stored with it.
    pub fn insert(&mut self, scope: MemoryScope, content: &str, tags: &[String]) -> (r: Result<
        MemoryFact,
        StateError,
    >)
        ensures
            blank(content@) ==> is_blank_error(r) && *final(self).db == *old(self).db,
            blank(content@) ==> r matches Err(StateError::InvalidInput(_)),
            r matches Ok(fact) ==> fact@.scope == scope@ && fact@.content == content@ && fact@.tags
                == views(tags@),
            !blank(content@) ==> {
                &&& final(self).db.next_tick() == old(self).db.next_tick().wrapping_add(1)
                &&& final(self).db.next_tick() != old(self).db.next_tick()
                &&& exists|
                    made: SystemTime,
                    now: SystemTime,
                    embedding: Result<Vec<Binary32>, StateError>,
                |
                    {
                        &&& #[trigger] is_reading(made)
                        &&& #[trigger] is_reading(now)
                        &&& #[trigger] call_ensures(
                            E::embed,
                            (&old(self).embedder, content),
                            embedding,
                        )
                        &&& is_provided_insert(
                            *old(self).db,
                            scope@,
                            content@,
                            views(tags@),
                            signed_millis(millis_at(made)),
                            embedding,
                            signed_millis(millis_at(now)),
                            r,
                            *final(self).db,
                        )
                    }
            },
            final(self).embedder == old(self).embedder,
            *final(final(self).db) == *final(old(self).db),
    {
        if is_blank(content) {
            return Err(StateError::InvalidInput("memory content cannot be empty".to_owned()));
        }
        let made: i64 = now_ms();
        let id: String = self.next_id(made);
        let now: i64 = now_ms();
        let embedding: Result<Vec<Binary32>, StateError> = self.embedder.embed(content);
        let ghost answer = embedding;
        assert(call_ensures(E::embed, (&old(self).embedder, content), answer));
        let ghost scope_view = scope@;
        let r: Result<MemoryFact, StateError> = match embedding {
            Ok(vector) => self.insert_as(id, scope, content, tags, vector.as_slice(), now),
            Err(error) => Err(error),
        };
        assert(is_provided_insert(
            *old(self).db,
            scope_view,
            content@,
            views(tags@),
            made,
            answer,
            now,
            r,
            *self.db,
        ));
        r
    }

    /// What a search for the words of a text finds, the best match first, at
    /// most `limit` facts, and those of one scope where one is given.
    pub fn recall(&self, query: MemoryQuery<'_>) -> (r: Result<Vec<MemoryFact>, StateError>)
        ensures
            is_recall(
                self.database(),
                query.text@,
                query_scope(query.scope),
                query.limit as nat,
                r,
            ),
            self.database().is_exclusive() && r is Ok ==> r->Ok_0@.len() <= query.limit,
            self.database().is_exclusive() && r is Ok ==> (query.scope matches Some(scope)
                ==> forall|i: int|
                0 <= i < r->Ok_0@.len() ==> (#[trigger] r->Ok_0@[i])@.scope == scope@),
    {
        if is_blank(query.text) || query.limit == 0 || !has_words(query.text) {
            return Ok(Vec::new());
        }
        let expression: String = build_match_expression(query.text);
        let limit: i64 = if query.limit as u64 <= i64::MAX as u64 {
            query.limit as i64
        } else {
            i64::MAX
        };
        assert(limit == signed_limit(query.limit as nat));
        let words: &str = expression.as_str();
        let found: SearchAnswer = match query.scope {
            Some(scope) => {
                let encoded: String = scope.encode();
                let name: &str = encoded.as_str();
                let found: SearchAnswer = search_facts_in(&self.db.conn, words, name, limit);
                assert(call_ensures(
                    search_facts_in,
                    (&self.database().conn, words, name, limit),
                    found,
                ));
                found
            },
            None => {
                let found: SearchAnswer = search_facts(&self.db.conn, words, limit);
                assert(call_ensures(search_facts, (&self.database().conn, words, limit), found));
                found
            },
        };
        let ghost given = found;
        assert(is_searched(
            self.database(),
            query.text@,
            query_scope(query.scope),
            query.limit as nat,
            given,
        ));
        match found {
            Ok(records) => {
                let ghost listed = records@;
                let facts: Vec<MemoryFact> = decode_rows(records);
                assert(self.database().is_exclusive() ==> are_found(
                    self.database(),
                    query.text@,
                    query_scope(query.scope),
                    query.limit as nat,
                    facts@,
                )) by {
                    assert(are_decoded(listed, facts@));
                }
                proof {
                    if let Some(scope) = query.scope {
                        lemma_scope_roundtrip(scope@);
                    }
                }
                Ok(facts)
            },
            Err(error) => Err(StateError::from(error)),
        }
    }

    /// Forget a fact. Says whether there was one.
    pub fn delete(&mut self, id: &str) -> (r: Result<bool, StateError>)
        ensures
            is_delete(*old(self).db, id@, r, *final(self).db),
            final(self).db.next_tick() == old(self).db.next_tick(),
            final(self).embedder == old(self).embedder,
            *final(final(self).db) == *final(old(self).db),
    {
        match remove_fact(&mut self.db.conn, id) {
            Ok(removed) => Ok(removed > 0),
            Err(error) => Err(StateError::from(error)),
        }
    }

    /// The fact with an id.
    pub fn get(&self, id: &str) -> (r: Result<Option<MemoryFact>, StateError>)
        ensures
            is_get(self.database(), id@, r),
    {
        let answer: FactAnswer = fetch_fact(&self.db.conn, id);
        let ghost given = answer;
        assert(call_ensures(fetch_fact, (&self.database().conn, id), given));
        assert(is_fact_read(self.database(), id@, given));
        match answer {
            Ok(Some(record)) => Ok(Some(decode_memory_row(record))),
            Ok(None) => Ok(None),
            Err(error) => Err(StateError::from(error)),
        }
    }

    /// The number of facts.
    pub fn len(&self) -> (r: Result<usize, StateError>)
        ensures
            is_facts_size(self.database(), r),
    {
        let answer: Result<i64, rusqlite::Error> = count_facts(&self.db.conn);
        let ghost given = answer;
        assert(is_facts_count(self.database(), given));
        match answer {
            Ok(count) => Ok(as_count(count)),
            Err(error) => Err(StateError::from(error)),
        }
    }

    pub fn is_empty(&self) -> (r: Result<bool, StateError>)
        ensures
            exists|size: Result<usize, StateError>| #[trigger]
                is_facts_size(self.database(), size) && r == no_rows(size),
    {
        match self.len() {
            Ok(n) => Ok(n == 0),
            Err(error) => Err(error),
        }
    }
}

/// Whether an answer is what the query for the number of facts gave.
pub open(crate) spec fn is_facts_count(db: Database, answer: Result<i64, rusqlite::Error>) -> bool {
    call_ensures(count_facts, (&db.conn,), answer)
}

/// Whether a result of `len` is the number that the query gave as a machine word,
/// and so the number of facts where they are reached through one connection only.
pub open spec fn is_facts_size(db: Database, r: Result<usize, StateError>) -> bool {
    &&& exists|answer: Result<i64, rusqlite::Error>| #[trigger]
        is_facts_count(db, answer) && is_size(answer, r)
    &&& db.is_exclusive() ==> (r matches Ok(n) ==> db.facts().dom().finite() && n == counted(
        db.facts().dom().len(),
    ))
}

/// A fact that was forgotten is found by no search.
pub proof fn lemma_forgotten_is_not_found(
    facts: Map<Seq<char>, FactRow>,
    rank: spec_fn(Seq<char>) -> int,
    id: Seq<char>,
    records: Seq<FactRecord>,
    expression: Seq<char>,
    scope: Option<Seq<char>>,
    limit: int,
    i: int,
)
    requires
        is_search_result(facts.remove(id), rank, records, expression, scope, limit),
        0 <= i < records.len(),
    ensures
        records[i].0@ != id,
{
}

/// A fact that was stored is found by every search that its text and scope fit,
/// unless the limit is used up.
pub proof fn lemma_stored_is_found(
    facts: Map<Seq<char>, FactRow>,
    rank: spec_fn(Seq<char>) -> int,
    id: Seq<char>,
    row: FactRow,
    records: Seq<FactRecord>,
    expression: Seq<char>,
    scope: Option<Seq<char>>,
    limit: int,
)
    requires
        is_search_result(facts.insert(id, row), rank, records, expression, scope, limit),
        crate::database::text_matches(expression, row.1, row.2),
        scope is None || scope == Some(row.0),
        records.len() < limit,
    ensures
        exists|i: int| 0 <= i < records.len() && (#[trigger] records[i]).0@ == id,
{
    assert(crate::database::is_sought(facts.insert(id, row), expression, scope, id));
}

/// A search of one scope finds no fact of another.
pub proof fn lemma_search_keeps_to_scope(
    facts: Map<Seq<char>, FactRow>,
    rank: spec_fn(Seq<char>) -> int,
    records: Seq<FactRecord>,
    expression: Seq<char>,
    scope: ScopeView,
    limit: int,
    i: int,
)
    requires
        is_search_result(facts, rank, records, expression, Some(encoded_scope(scope)), limit),
        0 <= i < records.len(),
    ensures
        decoded_record(records[i]).scope == scope,
{
    lemma_scope_roundtrip(scope);
}

/// Scopes are stored under the word `global`, and under their hash or id behind the
/// word for their kind.
pub proof fn lemma_scope_texts(text: Seq<char>)
    ensures
        encoded_scope(ScopeView::Global) == "global"@,
        encoded_scope(ScopeView::Workspace { hash: text }) == "workspace:"@ + text,
        encoded_scope(ScopeView::Session { id: text }) == "session:"@ + text,
        decoded_scope("workspace:"@ + text) == (ScopeView::Workspace { hash: text }),
        decoded_scope("session:"@ + text) == (ScopeView::Session { id: text }),
        decoded_scope("global"@) == ScopeView::Global,
{
    lemma_scope_roundtrip(ScopeView::Workspace { hash: text });
    lemma_scope_roundtrip(ScopeView::Session { id: text });
    lemma_scope_roundtrip(ScopeView::Global);
}

/// A text that names no kind of scope is read as the global one.
pub proof fn lemma_other_scopes_are_global(raw: Seq<char>)
    requires
        forall|rest: Seq<char>| raw != "workspace:"@ + rest,
        forall|rest: Seq<char>| raw != "session:"@ + rest,
    ensures
        decoded_scope(raw) == ScopeView::Global,
{
    crate::text::lemma_without_prefix(raw, "workspace:"@);
    crate::text::lemma_without_prefix(raw, "session:"@);
}

/// A recall within a scope, of whatever kind, gives facts of that scope only.
pub proof fn lemma_recall_keeps_to_the_scope(
    db: Database,
    text: Seq<char>,
    scope: ScopeView,
    limit: nat,
    facts: Vec<MemoryFact>,
    i: int,
)
    requires
        db.is_exclusive(),
        is_recall(db, text, Some(scope), limit, Ok(facts)),
        0 <= i < facts@.len(),
    ensures
        facts@[i]@.scope == scope,
        db.facts().contains_key(facts@[i]@.id),
        db.facts()[facts@[i]@.id].0 == (match scope {
            ScopeView::Global => "global"@,
            ScopeView::Workspace { hash } => "workspace:"@ + hash,
            ScopeView::Session { id } => "session:"@ + id,
        }),
{
    let records = choose|records: Seq<FactRecord>|
        {
            &&& is_search_result(
                db.facts(),
                db.ranks(match_expression(text)),
                records,
                match_expression(text),
                wanted_scope(Some(scope)),
                signed_limit(limit),
            )
            &&& #[trigger] are_decoded(records, facts@)
        };
    lemma_scope_roundtrip(scope);
    assert(facts@[i]@ == decoded_record(records[i]));
}

/// A recall finds every fact that its words match, of the scope it asks for or of any
/// scope where it asks for none, unless it has found as many as its limit allows.
pub proof fn lemma_recall_finds_what_matches(
    db: Database,
    text: Seq<char>,
    scope: Option<ScopeView>,
    limit: nat,
    facts: Vec<MemoryFact>,
    id: Seq<char>,
)
    requires
        db.is_exclusive(),
        is_recall(db, text, scope, limit, Ok(facts)),
        !blank(text),
        search_words(text).len() > 0,
        facts@.len() < limit,
        facts@.len() < 0x7FFF_FFFF_FFFF_FFFF,
        db.facts().contains_key(id),
        crate::database::text_matches(match_expression(text), db.facts()[id].1, db.facts()[id].2),
        scope matches Some(wanted) ==> db.facts()[id].0 == encoded_scope(wanted),
    ensures
        exists|i: int| 0 <= i < facts@.len() && (#[trigger] facts@[i])@.id == id,
{
    let expression = match_expression(text);
    let records = choose|records: Seq<FactRecord>|
        {
            &&& is_search_result(
                db.facts(),
                db.ranks(expression),
                records,
                expression,
                wanted_scope(scope),
                signed_limit(limit),
            )
            &&& #[trigger] are_decoded(records, facts@)
        };
    assert(crate::database::is_sought(db.facts(), expression, wanted_scope(scope), id));
    let i = choose|i: int| 0 <= i < records.len() && (#[trigger] records[i]).0@ == id;
    assert(facts@[i]@ == decoded_record(records[i]));
}

/// What a recall gives are facts that are stored, as they are stored, that its words
/// match, none of them twice, at most as many as its limit, and the better matches
/// first.
pub proof fn lemma_recall_gives_matching_facts(
    db: Database,
    text: Seq<char>,
    scope: Option<ScopeView>,
    limit: nat,
    facts: Vec<MemoryFact>,
)
    requires
        db.is_exclusive(),
        is_recall(db, text, scope, limit, Ok(facts)),
    ensures
        facts@.len() <= limit,
        forall|i: int|
            0 <= i < facts@.len() ==> {
                let fact = (#[trigger] facts@[i])@;
                &&& db.facts().contains_key(fact.id)
                &&& fact.content == db.facts()[fact.id].1
                &&& fact.scope == decoded_scope(db.facts()[fact.id].0)
                &&& fact.tags == decoded_tags(db.facts()[fact.id].2)
                &&& fact.created_at_ms == db.facts()[fact.id].4
                &&& fact.updated_at_ms == db.facts()[fact.id].5
                &&& crate::database::text_matches(
                    match_expression(text),
                    db.facts()[fact.id].1,
                    db.facts()[fact.id].2,
                )
            },
        forall|i: int, j: int|
            0 <= i < j < facts@.len() ==> {
                &&& (#[trigger] facts@[i])@.id != (#[trigger] facts@[j])@.id
                &&& db.ranks(match_expression(text))(facts@[i]@.id) <= db.ranks(
                    match_expression(text),
                )(facts@[j]@.id)
            },
{
    if facts@.len() > 0 {
        let records = choose|records: Seq<FactRecord>|
            {
                &&& is_search_result(
                    db.facts(),
                    db.ranks(match_expression(text)),
                    records,
                    match_expression(text),
                    wanted_scope(scope),
                    signed_limit(limit),
                )
                &&& #[trigger] are_decoded(records, facts@)
            };
        assert forall|i: int| 0 <= i < facts@.len() implies (#[trigger] facts@[i])@
            == decoded_record(records[i]) by {}
    }
}

/// A text that says nothing, or a limit of zero, recalls nothing.
pub proof fn lemma_recall_of_nothing(
    db: Database,
    text: Seq<char>,
    scope: Option<ScopeView>,
    limit: nat,
    r: Result<Vec<MemoryFact>, StateError>,
)
    requires
        is_recall(db, text, scope, limit, r),
        blank(text) || limit == 0,
    ensures
        r matches Ok(facts) && facts@.len() == 0,
{
}

/// What an insertion gives back, and what it stores, is what was given to it.
pub proof fn lemma_insert_stores_the_fact(
    before: Database,
    after: Database,
    id: Seq<char>,
    scope: ScopeView,
    content: Seq<char>,
    tags: Seq<Seq<char>>,
    vector: Seq<Binary32>,
    now: i64,
    fact: MemoryFact,
)
    requires
        before.is_exclusive(),
        is_insert(before, id, scope, content, tags, vector, now, Ok(fact), after),
    ensures
        fact@.id == id,
        fact@.scope == scope,
        fact@.content == content,
        fact@.tags == tags,
        fact@.created_at_ms == now,
        fact@.updated_at_ms == now,
        !before.facts().contains_key(id),
        after.facts().contains_key(id),
        after.facts()[id].0 == encoded_scope(scope),
        after.facts()[id].1 == content,
        after.facts()[id].2 == crate::text::joined(tags, ","@),
        vector.len() == 0 ==> after.facts()[id].3 is None,
        vector.len() > 0 ==> (after.facts()[id].3 matches Some(bytes) && bytes.len() == 4
            * vector.len()),
        after.facts()[id].4 == now,
        after.facts()[id].5 == now,
{
}

/// An insertion changes no other fact, and nothing else in the store.
pub proof fn lemma_insert_elsewhere(
    before: Database,
    after: Database,
    id: Seq<char>,
    scope: ScopeView,
    content: Seq<char>,
    tags: Seq<Seq<char>>,
    vector: Seq<Binary32>,
    now: i64,
    r: Result<MemoryFact, StateError>,
    other: Seq<char>,
)
    requires
        before.is_exclusive(),
        is_insert(before, id, scope, content, tags, vector, now, r, after),
        other != id || r is Err,
    ensures
        after.facts().contains_key(other) == before.facts().contains_key(other),
        before.facts().contains_key(other) ==> after.facts()[other] == before.facts()[other],
        after.scores() == before.scores(),
        after.times() == before.times(),
        after.cache() == before.cache(),
        after.versions() == before.versions(),
{
}

/// A deletion says whether there was such a fact, takes that fact away, and changes
/// nothing else.
pub proof fn lemma_delete_takes_one_fact(
    before: Database,
    after: Database,
    id: Seq<char>,
    removed: bool,
    other: Seq<char>,
)
    requires
        before.is_exclusive(),
        is_delete(before, id, Ok(removed), after),
    ensures
        removed <==> before.facts().contains_key(id),
        !after.facts().contains_key(id),
        other != id ==> after.facts().contains_key(other) == before.facts().contains_key(other),
        other != id && before.facts().contains_key(other) ==> after.facts()[other]
            == before.facts()[other],
        after.scores() == before.scores(),
        after.times() == before.times(),
        after.cache() == before.cache(),
        after.versions() == before.versions(),
{
}

/// A provider's error is handed on, and no fact is stored then.
pub proof fn lemma_provider_error_stores_nothing(
    before: Database,
    scope: ScopeView,
    content: Seq<char>,
    tags: Seq<Seq<char>>,
    made: i64,
    error: StateError,
    now: i64,
    r: Result<MemoryFact, StateError>,
    after: Database,
)
    requires
        before.is_exclusive(),
        is_provided_insert(before, scope, content, tags, made, Err(error), now, r, after),
    ensures
        r == Err::<MemoryFact, StateError>(error),
        after.facts() == before.facts(),
{
}

/// An id starts with a tag and goes on with at least twenty-four digits of base
/// sixteen: sixteen for the time, and the others for the running number.
pub proof fn lemma_fact_id_form(time: u64, tick: u64)
    ensures
        fact_id(time, tick).len() >= 28,
        fact_id(time, tick).take(4) == "mem_"@,
        crate::text::digits_value(fact_id(time, tick).subrange(4, 20), 16) == time,
        crate::text::digits_value(fact_id(time, tick).skip(20), 16) == tick,
{
    reveal_strlit("mem_");
    assert(vstd::arithmetic::power::pow(16, 16) == 0x1_0000_0000_0000_0000) by {
        reveal_with_fuel(vstd::arithmetic::power::pow, 17);
    }
    let x = fact_id(time, tick);
    lemma_digits_length(time as nat, 16);
    crate::text::lemma_padded_value(time as nat, 16, 16);
    crate::text::lemma_padded_value(tick as nat, 16, 8);
    assert(x.take(4) =~= "mem_"@);
    assert(x.subrange(4, 20) =~= padded_digits(time as nat, 16, 16));
    assert(x.skip(20) =~= padded_digits(tick as nat, 16, 8));
}

/// The words of a text are those of its parts, wherever a character of ASCII stands
/// that is no letter, digit or underscore.
pub proof fn lemma_words_of_the_parts(a: Seq<char>, c: char, b: Seq<char>)
    requires
        c as int <= 127,
        !('0' <= c <= '9' || 'A' <= c <= 'Z' || 'a' <= c <= 'z' || c == '_'),
    ensures
        search_words(a.push(c) + b) == search_words(a) + search_words(b),
{
    let see = |c: char| search_char(c);
    let low = lowercase_text(a.push(c) + b);
    let (x, y) = (lowercase_text(a), lowercase_text(b));
    crate::text::lemma_lowercase_parted(a.push(c), b);
    assert(a.push(c).drop_last() =~= a);
    assert(lowercase_text(a.push(c)) =~= x.push(c));
    assert(low =~= x.push(c) + y);
    assert(low.map_values(see) =~= x.map_values(see).push(' ') + y.map_values(see));
    assert(whitespace(' '));
    crate::text::lemma_pieces_parted(x.map_values(see), ' ', y.map_values(see), blanks());
    Seq::filter_distributes_over_add(
        pieces(x.map_values(see), blanks()),
        pieces(y.map_values(see), blanks()),
        nonempty(),
    );
}

/// A text of letters, digits and underscores of ASCII is one word, in small letters.
pub proof fn lemma_one_word(word: Seq<char>)
    requires
        word.len() > 0,
        forall|i: int|
            0 <= i < word.len() ==> '0' <= #[trigger] word[i] <= '9' || 'A' <= word[i] <= 'Z' || 'a'
                <= word[i] <= 'z' || word[i] == '_',
    ensures
        search_words(word).len() == 1,
        search_words(word)[0].len() == word.len(),
        forall|i: int|
            0 <= i < word.len() ==> (#[trigger] search_words(word)[0][i]) as int == if 'A'
                <= word[i] <= 'Z' {
                word[i] as int + 32
            } else {
                word[i] as int
            },
        match_expression(word) == seq!['"'] + search_words(word)[0] + seq!['"'],
{
    assert forall|i: int| 0 <= i < word.len() implies (#[trigger] word[i]) as int <= 127 by {}
    crate::text::lemma_lowercase_of_ascii(word);
    let low = lowercase_text(word);
    let seen = low.map_values(|c: char| search_char(c));
    assert forall|i: int| 0 <= i < low.len() implies #[trigger] seen[i] == low[i] by {
        assert('0' <= word[i] <= '9' || 'A' <= word[i] <= 'Z' || 'a' <= word[i] <= 'z' || word[i]
            == '_');
    }
    assert(seen =~= low);
    assert forall|i: int| 0 <= i < low.len() implies !blanks()(#[trigger] low[i]) by {
        assert('0' <= word[i] <= '9' || 'A' <= word[i] <= 'Z' || 'a' <= word[i] <= 'z' || word[i]
            == '_');
    }
    crate::text::lemma_one_piece(low, blanks());
    let all = seq![low];
    assert(pieces(seen, blanks()) == all);
    assert(all.drop_last() =~= Seq::empty());
    reveal_with_fuel(Seq::filter, 2);
    assert(all.filter(nonempty()) =~= seq![low]);
    let parts = search_words(word).map_values(|word: Seq<char>| quoted(word));
    assert(parts.len() == 1 && parts[0] == quoted(low));
}

/// The match expression of two texts with words asks for those of either.
pub proof fn lemma_match_either(a: Seq<char>, c: char, b: Seq<char>)
    requires
        c as int <= 127,
        !('0' <= c <= '9' || 'A' <= c <= 'Z' || 'a' <= c <= 'z' || c == '_'),
        search_words(a).len() > 0,
        search_words(b).len() > 0,
    ensures
        match_expression(a.push(c) + b) == match_expression(a) + " OR "@ + match_expression(b),
{
    lemma_words_of_the_parts(a, c, b);
    let quote = |word: Seq<char>| quoted(word);
    let (x, y) = (search_words(a).map_values(quote), search_words(b).map_values(quote));
    assert((search_words(a) + search_words(b)).map_values(quote) =~= x + y);
    crate::text::lemma_joined_parted(x, y, " OR "@);
}

/// The pieces of a text, one behind the other, are the text without its cuts.
proof fn lemma_pieces_flattened(s: Seq<char>, cut: spec_fn(char) -> bool)
    ensures
        pieces(s, cut).flatten() == s.filter(|c: char| !cut(c)),
        pieces(s, cut).filter(nonempty()).flatten() == pieces(s, cut).flatten(),
    decreases s.len(),
{
    lemma_flattened_without_empty(pieces(s, cut));
    let kept = |c: char| !cut(c);
    reveal(Seq::filter);
    if s.len() == 0 {
        pieces(s, cut).lemma_flatten_one_element();
    } else {
        let before = pieces(s.drop_last(), cut);
        lemma_pieces_flattened(s.drop_last(), cut);
        crate::text::lemma_pieces_not_empty(s.drop_last(), cut);
        if cut(s.last()) {
            before.lemma_flatten_push(Seq::empty());
            assert(before.flatten() + Seq::<char>::empty() =~= before.flatten());
        } else {
            let front = before.drop_last();
            front.lemma_flatten_push(before.last());
            assert(front.push(before.last()) =~= before);
            front.lemma_flatten_push(before.last().push(s.last()));
            assert(front.flatten() + before.last().push(s.last()) =~= (front.flatten()
                + before.last()).push(s.last()));
        }
    }
}

proof fn lemma_flattened_without_empty(parts: Seq<Seq<char>>)
    ensures
        parts.filter(nonempty()).flatten() == parts.flatten(),
    decreases parts.len(),
{
    reveal(Seq::filter);
    if parts.len() > 0 {
        let front = parts.drop_last();
        lemma_flattened_without_empty(front);
        front.lemma_flatten_push(parts.last());
        assert(front.push(parts.last()) =~= parts);
        if parts.last().len() > 0 {
            front.filter(nonempty()).lemma_flatten_push(parts.last());
        } else {
            assert(front.flatten() + parts.last() =~= front.flatten());
        }
    }
}

/// No letter, digit or underscore of a text is lost among its words, and nothing is
/// added to them: one behind the other they are the text in small letters without
/// everything else.
pub proof fn lemma_words_lose_nothing(text: Seq<char>)
    ensures
        search_words(text).flatten() == lowercase_text(text).filter(
            |c: char| (alphanumeric(c) || c == '_') && !whitespace(c),
        ),
{
    let low = lowercase_text(text);
    let seen = low.map_values(|c: char| search_char(c));
    lemma_pieces_flattened(seen, blanks());
    lemma_seen_kept(low);
}

proof fn lemma_seen_kept(low: Seq<char>)
    ensures
        low.map_values(|c: char| search_char(c)).filter(|c: char| !blanks()(c)) == low.filter(
            |c: char| (alphanumeric(c) || c == '_') && !whitespace(c),
        ),
    decreases low.len(),
{
    reveal(Seq::filter);
    if low.len() > 0 {
        lemma_seen_kept(low.drop_last());
        let see = |c: char| search_char(c);
        assert(low.map_values(see).drop_last() =~= low.drop_last().map_values(see));
        assert(whitespace(' '));
    }
}

/// A fact for which the provider gave a vector is stored under an id made of the time,
/// zero where that lies before the epoch, and of the running number, and with the bytes
/// of the vector.
pub proof fn lemma_provided_fact(
    before: Database,
    scope: ScopeView,
    content: Seq<char>,
    tags: Seq<Seq<char>>,
    made: i64,
    vector: Vec<Binary32>,
    now: i64,
    fact: MemoryFact,
    after: Database,
)
    requires
        before.is_exclusive(),
        is_provided_insert(before, scope, content, tags, made, Ok(vector), now, Ok(fact), after),
    ensures
        made >= 0 ==> fact@.id == fact_id(made as u64, before.next_tick()),
        made < 0 ==> fact@.id == fact_id(0, before.next_tick()),
        fact@.content == content,
        fact@.scope == scope,
        fact@.tags == tags,
        fact@.created_at_ms == now,
        fact@.updated_at_ms == now,
        after.facts().contains_key(fact@.id),
        after.facts()[fact@.id].1 == content,
        after.facts()[fact@.id].3 == stored_vector(vector@),
{
}

/// A scope and a fact are what their parts say.
pub proof fn lemma_parts_of_a_fact(fact: MemoryFact)
    ensures
        match fact.scope {
            MemoryScope::Global => fact@.scope == ScopeView::Global,
            MemoryScope::Workspace { hash } => fact@.scope == (ScopeView::Workspace {
                hash: hash@,
            }),
            MemoryScope::Session { id } => fact@.scope == (ScopeView::Session { id: id@ }),
        },
        fact@.id == fact.id@,
        fact@.content == fact.content@,
        fact@.tags.len() == fact.tags@.len(),
        forall|i: int| 0 <= i < fact.tags@.len() ==> #[trigger] fact@.tags[i] == fact.tags@[i]@,
        fact@.created_at_ms == fact.created_at_ms,
        fact@.updated_at_ms == fact.updated_at_ms,
{
}

/// A query asks for the scope that it names, and for no particular one where it names
/// none.
pub proof fn lemma_scope_of_a_query(scope: &MemoryScope)
    ensures
        query_scope(Some(scope)) == Some(scope@),
        query_scope(None) is None,
{
}

/// A fact is read as it is stored, and nothing is read under an id that none has.
pub proof fn lemma_get_gives_the_fact(db: Database, id: Seq<char>, found: Option<MemoryFact>)
    requires
        db.is_exclusive(),
        is_get(db, id, Ok(found)),
    ensures
        found is Some <==> db.facts().contains_key(id),
        found matches Some(fact) ==> {
            let row = db.facts()[id];
            &&& fact@.id == id
            &&& fact@.content == row.1
            &&& fact@.created_at_ms == row.4
            &&& fact@.updated_at_ms == row.5
            &&& fact@.scope == decoded_scope(row.0)
            &&& row.2.len() == 0 ==> fact@.tags.len() == 0
            &&& row.2.len() > 0 ==> fact@.tags == split_on(row.2, ',')
        },
{
}

} // verus!
