//! A scoreboard in memory, keyed by prompt class and model, and the selection
//! of a model from it.

use crate::binary64::scaled_count;
use crate::binary64::Binary64;
use crate::clock::is_reading;
use crate::clock::low_bits;
use crate::clock::millis_at;
use crate::clock::now_unix_ms;
use crate::error::labelled;
use crate::rng::is_unit_fraction;
use crate::rng::RandomSource;
use crate::routing::draw_and_decide;
use crate::routing::is_choice;
use crate::routing::is_decision;
use crate::routing::is_drawn;
use crate::routing::is_first_short;
use crate::routing::is_selection;
use crate::routing::is_warm;
use crate::routing::PromptBucket;
use crate::routing::Selection;
use crate::routing::SelectionReason;
use crate::routing::Tally;
use crate::routing::Ties;
use crate::text::order_of;
use crate::text::text_before;
use crate::text::Order;
use std::time::SystemTime;
use vstd::prelude::*;
use vstd::string::*;

verus! {

/// The version of a scoreboard that was made here.
pub const SCOREBOARD_VERSION: u32 = 1;

/// The version of a stored scoreboard that names none.
pub fn default_version() -> (r: u32)
    ensures
        r == SCOREBOARD_VERSION,
{
    SCOREBOARD_VERSION
}

/// What can go wrong with a scoreboard.
#[derive(Debug)]
pub enum ScoreboardError {
    Io(std::io::Error),
    Serde(serde_json::Error),
    Config(String),
}

impl ScoreboardError {
    /// What the error says of itself: a label for its source, and behind it the
    /// message.
    pub fn message(&self) -> (r: String)
        ensures
            match *self {
                ScoreboardError::Io(error) => exists|inner: String|
                    #[trigger] to_string_from_display_ensures(&error, inner) && r@
                        == "scoreboard I/O error: "@ + inner@,
                ScoreboardError::Serde(error) => exists|inner: String|
                    #[trigger] to_string_from_display_ensures(&error, inner) && r@
                        == "scoreboard serde error: "@ + inner@,
                ScoreboardError::Config(message) => r@ == "scoreboard config error: "@ + message@,
            },
    {
        match self {
            ScoreboardError::Io(error) => labelled(
                "scoreboard I/O error: ",
                error.to_string().as_str(),
            ),
            ScoreboardError::Serde(error) => labelled(
                "scoreboard serde error: ",
                error.to_string().as_str(),
            ),
            ScoreboardError::Config(message) => labelled(
                "scoreboard config error: ",
                message.as_str(),
            ),
        }
    }
}

impl From<std::io::Error> for ScoreboardError {
    fn from(error: std::io::Error) -> (r: ScoreboardError) {
        ScoreboardError::Io(error)
    }
}

impl vstd::std_specs::convert::FromSpecImpl<std::io::Error> for ScoreboardError {
    open spec fn obeys_from_spec() -> bool {
        true
    }

    open spec fn from_spec(error: std::io::Error) -> ScoreboardError {
        ScoreboardError::Io(error)
    }
}

impl From<serde_json::Error> for ScoreboardError {
    fn from(error: serde_json::Error) -> (r: ScoreboardError) {
        ScoreboardError::Serde(error)
    }
}

impl vstd::std_specs::convert::FromSpecImpl<serde_json::Error> for ScoreboardError {
    open spec fn obeys_from_spec() -> bool {
        true
    }

    open spec fn from_spec(error: serde_json::Error) -> ScoreboardError {
        ScoreboardError::Serde(error)
    }
}

/// A count after decay: scaled by the factor and rounded where the factor lies
/// between zero and one. From one on the count stays, and a factor that is not
/// greater than zero leaves nothing of it.
pub open spec fn decayed_count(value: u64, factor: Binary64) -> u64 {
    if value == 0 || !factor.is_positive() {
        0
    } else if factor.is_one_or_more() {
        value
    } else {
        scaled_count(value as nat, factor) as u64
    }
}

/// A count after decay by a factor.
pub fn decay_count(value: u64, factor: Binary64) -> (r: u64)
    ensures
        r == decayed_count(value, factor),
{
    if !factor.positive() || value == 0 {
        return 0;
    }
    if factor.one_or_more() {
        return value;
    }
    Binary64::scale_count(value, factor)
}

/// What was observed of one model on one class of prompts.
#[derive(Debug, Clone, Copy, PartialEq, Eq, Structural)]
pub struct ModelStats {
    pub successes: u64,
    pub failures: u64,
    pub total_latency_ms: u64,
    pub total_input_tokens: u64,
    pub total_output_tokens: u64,
    /// Cost in millionths of a dollar. It does not decay.
    pub total_cost_micros: u64,
    /// Unix time of the last observation in milliseconds; zero where there was
    /// none.
    pub last_observation_ms: u64,
}

impl ModelStats {
    /// Nothing observed.
    pub open spec fn none() -> ModelStats {
        ModelStats {
            successes: 0,
            failures: 0,
            total_latency_ms: 0,
            total_input_tokens: 0,
            total_output_tokens: 0,
            total_cost_micros: 0,
            last_observation_ms: 0,
        }
    }

    /// What the routing policy reads.
    pub open spec fn tally(self) -> Tally {
        Tally {
            successes: self.successes,
            failures: self.failures,
            total_latency_ms: self.total_latency_ms,
        }
    }

    /// The number of half-lives that have passed, where they count: there was
    /// an observation before, it lies in the past, and the half-life is not
    /// zero.
    pub open spec fn half_lives(self, now_ms: u64, half_life_ms: u64) -> Option<Binary64> {
        if self.last_observation_ms == 0 || half_life_ms == 0 || now_ms
            <= self.last_observation_ms {
            None
        } else {
            Some(
                Binary64::cast((now_ms - self.last_observation_ms) as nat).over(
                    Binary64::cast(half_life_ms as nat),
                ),
            )
        }
    }

    /// The counts and the latency decayed by a factor, all else as it was.
    pub open spec fn decayed(self, factor: Binary64) -> ModelStats {
        ModelStats {
            successes: decayed_count(self.successes, factor),
            failures: decayed_count(self.failures, factor),
            total_latency_ms: decayed_count(self.total_latency_ms, factor),
            ..self
        }
    }

    /// One more observation. Totals stop at the largest number.
    pub open spec fn observed(self, outcome: Outcome, now_ms: u64) -> ModelStats {
        ModelStats {
            successes: if outcome.success {
                self.successes.saturating_add(1)
            } else {
                self.successes
            },
            failures: if outcome.success {
                self.failures
            } else {
                self.failures.saturating_add(1)
            },
            total_latency_ms: self.total_latency_ms.saturating_add(outcome.latency_ms),
            total_input_tokens: self.total_input_tokens.saturating_add(
                outcome.input_tokens as u64,
            ),
            total_output_tokens: self.total_output_tokens.saturating_add(
                outcome.output_tokens as u64,
            ),
            total_cost_micros: self.total_cost_micros.saturating_add(outcome.cost_micros),
            last_observation_ms: now_ms,
        }
    }

    fn as_tally(&self) -> (r: Tally)
        ensures
            r == self.tally(),
    {
        Tally {
            successes: self.successes,
            failures: self.failures,
            total_latency_ms: self.total_latency_ms,
        }
    }

    pub fn samples(&self) -> (r: u64)
        requires
            self.tally().countable(),
        ensures
            r == self.successes + self.failures,
    {
        self.as_tally().samples()
    }

    /// The success rate `(successes + 1) / (samples + 2)`.
    pub fn success_rate(&self) -> (r: Binary64)
        requires
            self.tally().countable(),
        ensures
            r == self.tally().rate(),
            r.is_nonnegative_finite(),
            0 < r.units() <= crate::binary64::unit(),
    {
        self.as_tally().success_rate()
    }

    pub fn average_latency_ms(&self) -> (r: u64)
        requires
            self.tally().countable(),
        ensures
            r == self.tally().latency(),
    {
        self.as_tally().average_latency_ms()
    }

    /// The cost in dollars.
    pub fn total_cost_usd(&self) -> (r: Binary64)
        ensures
            r == Binary64::cast(self.total_cost_micros as nat).over(Binary64::cast(1_000_000)),
            r.is_nonnegative_finite(),
            crate::binary64::distance(
                r.units() * 1_000_000,
                self.total_cost_micros * crate::binary64::unit(),
            ) * 0x4_0000_0000_0000 <= self.total_cost_micros * crate::binary64::unit(),
    {
        Binary64::quotient(self.total_cost_micros, 1_000_000)
    }

    fn elapsed_half_lives(&self, now_ms: u64, half_life_ms: u64) -> (r: Option<Binary64>)
        ensures
            r == self.half_lives(now_ms, half_life_ms),
            r is None <==> self.last_observation_ms == 0 || half_life_ms == 0 || now_ms
                <= self.last_observation_ms,
            r matches Some(ratio) ==> crate::binary64::distance(
                ratio.units() * half_life_ms,
                (now_ms - self.last_observation_ms) * crate::binary64::unit(),
            ) * 0x4_0000_0000_0000 <= (now_ms - self.last_observation_ms) * crate::binary64::unit(),
    {
        if self.last_observation_ms == 0 || half_life_ms == 0 || now_ms
            <= self.last_observation_ms {
            None
        } else {
            Some(Binary64::quotient(now_ms - self.last_observation_ms, half_life_ms))
        }
    }

    fn decay(&mut self, factor: Binary64)
        ensures
            *final(self) == old(self).decayed(factor),
    {
        self.successes = decay_count(self.successes, factor);
        self.failures = decay_count(self.failures, factor);
        self.total_latency_ms = decay_count(self.total_latency_ms, factor);
    }

    fn observe(&mut self, outcome: Outcome, now_ms: u64)
        ensures
            *final(self) == old(self).observed(outcome, now_ms),
            adds_outcome(
                *old(self),
                outcome.success,
                outcome.latency_ms,
                outcome.input_tokens,
                outcome.output_tokens,
                outcome.cost_micros,
                *final(self),
            ),
            final(self).last_observation_ms == now_ms,
    {
        if outcome.success {
            self.successes = self.successes.saturating_add(1);
        } else {
            self.failures = self.failures.saturating_add(1);
        }
        self.total_latency_ms = self.total_latency_ms.saturating_add(outcome.latency_ms);
        self.total_input_tokens =
        self.total_input_tokens.saturating_add(outcome.input_tokens as u64);
        self.total_output_tokens =
        self.total_output_tokens.saturating_add(outcome.output_tokens as u64);
        self.total_cost_micros = self.total_cost_micros.saturating_add(outcome.cost_micros);
        self.last_observation_ms = now_ms;
    }
}

impl Default for ModelStats {
    fn default() -> (r: ModelStats)
        ensures
            r == ModelStats::none(),
    {
        ModelStats {
            successes: 0,
            failures: 0,
            total_latency_ms: 0,
            total_input_tokens: 0,
            total_output_tokens: 0,
            total_cost_micros: 0,
            last_observation_ms: 0,
        }
    }
}

/// Whether a row is another one with an outcome added to it: one to the count of its
/// kind, and its latency, tokens and cost to the totals. Nothing grows past the largest
/// number.
pub open spec fn adds_outcome(
    row: ModelStats,
    success: bool,
    latency_ms: u64,
    input_tokens: u32,
    output_tokens: u32,
    cost_micros: u64,
    next: ModelStats,
) -> bool {
    &&& success && row.successes < u64::MAX ==> next.successes == row.successes + 1
    &&& success ==> next.failures == row.failures
    &&& !success && row.failures < u64::MAX ==> next.failures == row.failures + 1
    &&& !success ==> next.successes == row.successes
    &&& row.total_latency_ms + latency_ms <= u64::MAX ==> next.total_latency_ms
        == row.total_latency_ms + latency_ms
    &&& row.total_input_tokens + input_tokens <= u64::MAX ==> next.total_input_tokens
        == row.total_input_tokens + input_tokens
    &&& row.total_output_tokens + output_tokens <= u64::MAX ==> next.total_output_tokens
        == row.total_output_tokens + output_tokens
    &&& row.total_cost_micros + cost_micros <= u64::MAX ==> next.total_cost_micros
        == row.total_cost_micros + cost_micros
}

/// How one turn went.
#[derive(Debug, Clone, Copy, PartialEq, Eq, Structural)]
pub struct Outcome {
    pub success: bool,
    pub latency_ms: u64,
    pub input_tokens: u32,
    pub output_tokens: u32,
    pub cost_micros: u64,
}

/// Whether `after` is a row after decay: it is decayed by a factor that
/// `half_power` gives for the half-lives that have passed, or unchanged where
/// they do not count.
pub open spec fn is_decay<F: Fn(Binary64) -> Binary64>(
    half_power: F,
    before: ModelStats,
    now_ms: u64,
    half_life_ms: u64,
    after: ModelStats,
) -> bool {
    match before.half_lives(now_ms, half_life_ms) {
        Some(half_lives) => exists|factor: Binary64|
            call_ensures(half_power, (half_lives,), factor) && after == before.decayed(factor),
        None => after == before,
    }
}

/// Let a row decay. `half_power` gives one half to the power of its argument.
/// Rows without an observation stay as they are.
pub fn apply_decay<F: Fn(Binary64) -> Binary64>(
    entry: &mut ModelStats,
    now_ms: u64,
    half_life_ms: u64,
    half_power: F,
)
    requires
        forall|half_lives: Binary64| call_requires(half_power, (half_lives,)),
    ensures
        is_decay(half_power, *old(entry), now_ms, half_life_ms, *final(entry)),
        old(entry).last_observation_ms == 0 || half_life_ms == 0 || now_ms
            <= old(entry).last_observation_ms ==> *final(entry) == *old(entry),
{
    if let Some(half_lives) = entry.elapsed_half_lives(now_ms, half_life_ms) {
        let factor: Binary64 = half_power(half_lives);
        entry.decay(factor);
    }
}

/// One row of a scoreboard.
#[derive(Debug)]
struct ScoreRow {
    bucket: PromptBucket,
    model: String,
    stats: ModelStats,
}

/// Whether a key comes before another: by class, and within a class by the
/// order of the models' names.
pub open spec fn key_before(
    a: (PromptBucket, Seq<char>),
    b: (PromptBucket, Seq<char>),
) -> bool {
    ||| a.0.rank() < b.0.rank()
    ||| a.0 == b.0 && text_before(a.1, b.1)
}

/// The order of keys is strict.
pub proof fn lemma_key_before_asymmetric(
    a: (PromptBucket, Seq<char>),
    b: (PromptBucket, Seq<char>),
)
    requires
        key_before(a, b),
    ensures
        !key_before(b, a),
        a != b,
{
    if a.0 == b.0 {
        crate::text::lemma_text_before_asymmetric(a.1, b.1);
    }
}

/// The order of keys is transitive.
pub proof fn lemma_key_before_transitive(
    a: (PromptBucket, Seq<char>),
    b: (PromptBucket, Seq<char>),
    c: (PromptBucket, Seq<char>),
)
    requires
        key_before(a, b),
        key_before(b, c),
    ensures
        key_before(a, c),
{
    if a.0 == b.0 && b.0 == c.0 {
        crate::text::lemma_text_before_transitive(a.1, b.1, c.1);
    }
}

spec fn row_key(row: ScoreRow) -> (PromptBucket, Seq<char>) {
    (row.bucket, row.model@)
}

spec fn is_row_of(rows: Seq<ScoreRow>, key: (PromptBucket, Seq<char>), i: int) -> bool {
    0 <= i < rows.len() && row_key(rows[i]) == key
}

/// The rows as a map.
spec fn row_map(rows: Seq<ScoreRow>) -> Map<(PromptBucket, Seq<char>), ModelStats> {
    Map::new(
        |key: (PromptBucket, Seq<char>)| exists|i: int| is_row_of(rows, key, i),
        |key: (PromptBucket, Seq<char>)| rows[choose|i: int| is_row_of(rows, key, i)].stats,
    )
}

spec fn is_sorted(rows: Seq<ScoreRow>) -> bool {
    forall|i: int, j: int|
        0 <= i < j < rows.len() ==> key_before(
            row_key(#[trigger] rows[i]),
            row_key(#[trigger] rows[j]),
        )
}

/// In sorted rows every row is what the map says.
proof fn lemma_row_in_map(rows: Seq<ScoreRow>, i: int)
    requires
        is_sorted(rows),
        0 <= i < rows.len(),
    ensures
        row_map(rows).contains_key(row_key(rows[i])),
        row_map(rows)[row_key(rows[i])] == rows[i].stats,
{
    let key = row_key(rows[i]);
    assert(is_row_of(rows, key, i));
    let j = choose|j: int| is_row_of(rows, key, j);
    if i < j {
        lemma_key_before_asymmetric(row_key(rows[i]), row_key(rows[j]));
    } else if j < i {
        lemma_key_before_asymmetric(row_key(rows[j]), row_key(rows[i]));
    }
}

/// Success and failure counts per prompt class and model.
#[derive(Debug)]
pub struct RouterScoreboard {
    version: u32,
    rows: Vec<ScoreRow>,
}

impl View for RouterScoreboard {
    type V = Map<(PromptBucket, Seq<char>), ModelStats>;

    closed spec fn view(&self) -> Map<(PromptBucket, Seq<char>), ModelStats> {
        row_map(self.rows@)
    }
}

/// The row of a scoreboard under a key; nothing observed where there is none.
pub open spec fn stats_in(
    board: Map<(PromptBucket, Seq<char>), ModelStats>,
    bucket: PromptBucket,
    model: Seq<char>,
) -> ModelStats {
    if board.contains_key((bucket, model)) {
        board[(bucket, model)]
    } else {
        ModelStats::none()
    }
}

/// What the policy reads of each candidate.
pub open spec fn tallies_in(
    board: Map<(PromptBucket, Seq<char>), ModelStats>,
    bucket: PromptBucket,
    candidates: Seq<String>,
) -> Seq<Tally> {
    candidates.map_values(|model: String| stats_in(board, bucket, model@).tally())
}

impl RouterScoreboard {
    /// The rows are in strictly rising order of their keys.
    #[verifier::type_invariant]
    spec fn well_formed(self) -> bool {
        is_sorted(self.rows@)
    }

    /// The version of the stored form.
    pub closed spec fn stored_version(self) -> u32 {
        self.version
    }

    /// An empty scoreboard of a version.
    pub fn with_version(version: u32) -> (r: RouterScoreboard)
        ensures
            r@ == Map::<(PromptBucket, Seq<char>), ModelStats>::empty(),
            r.stored_version() == version,
    {
        let r: RouterScoreboard = RouterScoreboard { version, rows: Vec::new() };
        assert(r@ =~= Map::empty());
        r
    }

    /// An empty scoreboard of the current version.
    pub fn in_memory() -> (r: RouterScoreboard)
        ensures
            r@ == Map::<(PromptBucket, Seq<char>), ModelStats>::empty(),
            r.stored_version() == SCOREBOARD_VERSION,
    {
        RouterScoreboard::with_version(SCOREBOARD_VERSION)
    }

    pub fn version(&self) -> (r: u32)
        ensures
            r == self.stored_version(),
    {
        self.version
    }

    /// The place of a key: where its row is, or where it would be put.
    fn find(&self, bucket: PromptBucket, model: &str) -> (r: (bool, usize))
        ensures
            r.1 <= self.rows@.len(),
            forall|i: int|
                0 <= i < r.1 ==> key_before(row_key(#[trigger] self.rows@[i]), (bucket, model@)),
            r.0 ==> r.1 < self.rows@.len() && row_key(self.rows@[r.1 as int]) == (
                bucket,
                model@,
            ),
            !r.0 ==> forall|i: int|
                r.1 <= i < self.rows@.len() ==> key_before(
                    (bucket, model@),
                    row_key(#[trigger] self.rows@[i]),
                ),
            r.0 == self@.contains_key((bucket, model@)),
            r.0 ==> self@[(bucket, model@)] == self.rows@[r.1 as int].stats,
    {
        proof {
            use_type_invariant(self);
        }
        let ghost key = (bucket, model@);
        let mut place: usize = 0;
        while place < self.rows.len()
            invariant
                place <= self.rows@.len(),
                self.well_formed(),
                key == (bucket, model@),
                forall|i: int|
                    0 <= i < place ==> key_before(row_key(#[trigger] self.rows@[i]), key),
            decreases self.rows.len() - place,
        {
            let row: &ScoreRow = &self.rows[place];
            let order: Order = if row.bucket.position() < bucket.position() {
                Order::Before
            } else if row.bucket.position() > bucket.position() {
                Order::After
            } else {
                order_of(row.model.as_str(), model)
            };
            match order {
                Order::Before => {
                    place = place + 1;
                },
                Order::Same => {
                    proof {
                        lemma_row_in_map(self.rows@, place as int);
                    }
                    return (true, place);
                },
                Order::After => {
                    proof {
                        assert forall|i: int| place <= i < self.rows@.len() implies key_before(
                            key,
                            row_key(#[trigger] self.rows@[i]),
                        ) by {
                            if place < i {
                                lemma_key_before_transitive(
                                    key,
                                    row_key(self.rows@[place as int]),
                                    row_key(self.rows@[i]),
                                );
                            }
                        }
                        self.lemma_not_found(key, place as int);
                    }
                    return (false, place);
                },
            }
        }
        proof {
            self.lemma_not_found(key, place as int);
        }
        (false, place)
    }

    proof fn lemma_not_found(self, key: (PromptBucket, Seq<char>), place: int)
        requires
            0 <= place <= self.rows@.len(),
            forall|i: int| 0 <= i < place ==> key_before(row_key(#[trigger] self.rows@[i]), key),
            forall|i: int|
                place <= i < self.rows@.len() ==> key_before(
                    key,
                    row_key(#[trigger] self.rows@[i]),
                ),
        ensures
            !self@.contains_key(key),
    {
        if self@.contains_key(key) {
            let i = choose|i: int| is_row_of(self.rows@, key, i);
            if i < place {
                lemma_key_before_asymmetric(row_key(self.rows@[i]), key);
            } else {
                lemma_key_before_asymmetric(key, row_key(self.rows@[i]));
            }
        }
    }

    /// Put a row in the place of whatever stands under its key.
    pub fn insert_row(&mut self, bucket: PromptBucket, model: &str, stats: ModelStats)
        ensures
            final(self)@ == old(self)@.insert((bucket, model@), stats),
            final(self).stored_version() == old(self).stored_version(),
    {
        proof {
            use_type_invariant(&*self);
        }
        let ghost before = self.rows@;
        let ghost key = (bucket, model@);
        let (found, place) = self.find(bucket, model);
        let mut rows: Vec<ScoreRow> = Vec::new();
        std::mem::swap(&mut rows, &mut self.rows);
        if found {
            rows[place].stats = stats;
            proof {
                let after = rows@;
                assert forall|i: int| 0 <= i < after.len() implies row_key(
                    #[trigger] after[i],
                ) == row_key(before[i]) by {}
                assert(is_sorted(after)) by {
                    assert forall|i: int, j: int| 0 <= i < j < after.len() implies key_before(
                        row_key(#[trigger] after[i]),
                        row_key(#[trigger] after[j]),
                    ) by {
                        assert(key_before(row_key(before[i]), row_key(before[j])));
                    }
                }
                lemma_map_after_insert(before, after, place as int, key, stats, true);
            }
        } else {
            rows.insert(place, ScoreRow { bucket, model: model.to_owned(), stats });
            proof {
                let after = rows@;
                assert(is_sorted(after)) by {
                    assert forall|i: int, j: int| 0 <= i < j < after.len() implies key_before(
                        row_key(#[trigger] after[i]),
                        row_key(#[trigger] after[j]),
                    ) by {
                        let x = if i < place {
                            i
                        } else {
                            i - 1
                        };
                        let y = if j < place {
                            j
                        } else {
                            j - 1
                        };
                        if i == place {
                            assert(after[j] == before[y]);
                        } else if j == place {
                            assert(after[i] == before[x]);
                        } else {
                            assert(after[i] == before[x] && after[j] == before[y]);
                        }
                    }
                }
                lemma_map_after_insert(before, after, place as int, key, stats, false);
            }
        }
        self.rows = rows;
    }

    /// The row under a key; nothing observed where there is none.
    pub fn stats(&self, bucket: PromptBucket, model: &str) -> (r: ModelStats)
        ensures
            r == stats_in(self@, bucket, model@),
    {
        let (found, place) = self.find(bucket, model);
        if found {
            self.rows[place].stats
        } else {
            ModelStats::default()
        }
    }

    /// Every row, in rising order of its key.
    pub fn iter(&self) -> (r: Vec<(PromptBucket, &str, &ModelStats)>)
        ensures
            forall|i: int|
                0 <= i < r@.len() ==> {
                    &&& self@.contains_key(((#[trigger] r@[i]).0, r@[i].1@))
                    &&& self@[(r@[i].0, r@[i].1@)] == *r@[i].2
                },
            forall|i: int, j: int|
                0 <= i < j < r@.len() ==> key_before(
                    ((#[trigger] r@[i]).0, r@[i].1@),
                    ((#[trigger] r@[j]).0, r@[j].1@),
                ),
            forall|key: (PromptBucket, Seq<char>)|
                #[trigger] self@.contains_key(key) ==> exists|i: int|
                    0 <= i < r@.len() && ((#[trigger] r@[i]).0, r@[i].1@) == key,
    {
        proof {
            use_type_invariant(self);
        }
        let mut r: Vec<(PromptBucket, &str, &ModelStats)> = Vec::new();
        let mut n: usize = 0;
        while n < self.rows.len()
            invariant
                n == r@.len(),
                n <= self.rows@.len(),
                forall|i: int|
                    0 <= i < n ==> ((#[trigger] r@[i]).0, r@[i].1@) == row_key(self.rows@[i])
                        && *r@[i].2 == self.rows@[i].stats,
            decreases self.rows.len() - n,
        {
            let row: &ScoreRow = &self.rows[n];
            r.push((row.bucket, row.model.as_str(), &row.stats));
            n = n + 1;
        }
        proof {
            assert forall|i: int| 0 <= i < r@.len() implies {
                &&& self@.contains_key(((#[trigger] r@[i]).0, r@[i].1@))
                &&& self@[(r@[i].0, r@[i].1@)] == *r@[i].2
            } by {
                lemma_row_in_map(self.rows@, i);
            }
            assert forall|key: (PromptBucket, Seq<char>)| #[trigger]
                self@.contains_key(key) implies exists|i: int|
                0 <= i < r@.len() && ((#[trigger] r@[i]).0, r@[i].1@) == key by {
                let i = choose|i: int| is_row_of(self.rows@, key, i);
                assert((r@[i].0, r@[i].1@) == key);
            }
            assert forall|i: int, j: int| 0 <= i < j < r@.len() implies key_before(
                ((#[trigger] r@[i]).0, r@[i].1@),
                ((#[trigger] r@[j]).0, r@[j].1@),
            ) by {
                assert(key_before(row_key(self.rows@[i]), row_key(self.rows@[j])));
            }
        }
        r
    }
}

/// A row set in its place is an insertion into the map.
proof fn lemma_map_after_insert(
    before: Seq<ScoreRow>,
    after: Seq<ScoreRow>,
    place: int,
    key: (PromptBucket, Seq<char>),
    stats: ModelStats,
    found: bool,
)
    requires
        is_sorted(before),
        is_sorted(after),
        0 <= place < after.len(),
        row_key(after[place]) == key,
        after[place].stats == stats,
        found ==> after.len() == before.len() && row_key(before[place]) == key && forall|i: int|
            0 <= i < after.len() && i != place ==> #[trigger] after[i] == before[i],
        !found ==> after.len() == before.len() + 1 && forall|i: int|
            0 <= i < before.len() ==> #[trigger] before[i] == after[if i < place {
                i
            } else {
                i + 1
            }],
    ensures
        row_map(after) == row_map(before).insert(key, stats),
{
    lemma_row_in_map(after, place);
    let a = row_map(after);
    let b = row_map(before).insert(key, stats);
    assert forall|k: (PromptBucket, Seq<char>)| a.contains_key(k) <==> b.contains_key(k) by {
        if a.contains_key(k) {
            let i = choose|i: int| is_row_of(after, k, i);
            let j = if found || i < place {
                i
            } else {
                i - 1
            };
            if i != place {
                assert(after[i] == before[j]);
                assert(is_row_of(before, k, j));
            }
        }
        if b.contains_key(k) && k != key {
            let i = choose|i: int| is_row_of(before, k, i);
            let j = if found || i < place {
                i
            } else {
                i + 1
            };
            assert(found ==> i != place);
            assert(before[i] == after[j]);
            assert(is_row_of(after, k, j));
        }
    }
    assert forall|k: (PromptBucket, Seq<char>)| a.contains_key(k) implies a[k] == b[k] by {
        let i = choose|i: int| is_row_of(after, k, i);
        lemma_row_in_map(after, i);
        if i != place {
            let j = if found || i < place {
                i
            } else {
                i - 1
            };
            assert(after[i] == before[j]);
            lemma_row_in_map(before, j);
            if k == key {
                if i < place {
                    lemma_key_before_asymmetric(row_key(after[i]), row_key(after[place]));
                } else {
                    lemma_key_before_asymmetric(row_key(after[place]), row_key(after[i]));
                }
            }
        }
    }
    assert(a =~= b);
}

/// Whether a scoreboard `after` is `before` with one more outcome recorded: the
/// row decays where a half-life is given, and then takes up the outcome.
pub open spec fn is_record<F: Fn(Binary64) -> Binary64>(
    half_power: F,
    before: Map<(PromptBucket, Seq<char>), ModelStats>,
    key: (PromptBucket, Seq<char>),
    outcome: Outcome,
    half_life_ms: Option<u64>,
    now_ms: u64,
    after: Map<(PromptBucket, Seq<char>), ModelStats>,
) -> bool {
    let row = stats_in(before, key.0, key.1);
    exists|decayed: ModelStats|
        {
            &&& match half_life_ms {
                Some(half_life) => is_decay(half_power, row, now_ms, half_life, decayed),
                None => decayed == row,
            }
            &&& after == before.insert(key, #[trigger] decayed.observed(outcome, now_ms))
        }
}

impl Default for RouterScoreboard {
    /// An empty scoreboard that was never stored: it carries no version.
    fn default() -> (r: RouterScoreboard)
        ensures
            r@ == Map::<(PromptBucket, Seq<char>), ModelStats>::empty(),
            r.stored_version() == 0,
    {
        RouterScoreboard::with_version(0)
    }
}

impl Clone for RouterScoreboard {
    fn clone(&self) -> (r: RouterScoreboard)
        ensures
            r@ == self@,
            r.stored_version() == self.stored_version(),
    {
        proof {
            use_type_invariant(self);
        }
        let mut rows: Vec<ScoreRow> = Vec::new();
        let mut n: usize = 0;
        while n < self.rows.len()
            invariant
                n == rows@.len(),
                n <= self.rows@.len(),
                forall|i: int|
                    0 <= i < n ==> row_key(#[trigger] rows@[i]) == row_key(self.rows@[i])
                        && rows@[i].stats == self.rows@[i].stats,
            decreases self.rows.len() - n,
        {
            let row: &ScoreRow = &self.rows[n];
            rows.push(
                ScoreRow { bucket: row.bucket, model: row.model.clone(), stats: row.stats },
            );
            n = n + 1;
        }
        proof {
            lemma_same_rows(self.rows@, rows@);
        }
        RouterScoreboard { version: self.version, rows }
    }
}

/// Rows with the same keys and statistics are sorted alike and make up the same
/// map.
proof fn lemma_same_rows(a: Seq<ScoreRow>, b: Seq<ScoreRow>)
    requires
        is_sorted(a),
        a.len() == b.len(),
        forall|i: int|
            0 <= i < b.len() ==> row_key(#[trigger] b[i]) == row_key(a[i]) && b[i].stats
                == a[i].stats,
    ensures
        is_sorted(b),
        row_map(a) == row_map(b),
{
    assert forall|i: int, j: int| 0 <= i < j < b.len() implies key_before(
        row_key(#[trigger] b[i]),
        row_key(#[trigger] b[j]),
    ) by {
        assert(key_before(row_key(a[i]), row_key(a[j])));
    }
    assert forall|key: (PromptBucket, Seq<char>)| row_map(a).contains_key(key) == row_map(
        b,
    ).contains_key(key) by {
        if row_map(a).contains_key(key) {
            let i = choose|i: int| is_row_of(a, key, i);
            assert(row_key(b[i]) == key);
            assert(is_row_of(b, key, i));
        }
        if row_map(b).contains_key(key) {
            let i = choose|i: int| is_row_of(b, key, i);
            assert(is_row_of(a, key, i));
        }
    }
    assert forall|key: (PromptBucket, Seq<char>)| row_map(a).contains_key(key) implies row_map(
        a,
    )[key] == row_map(b)[key] by {
        let i = choose|i: int| is_row_of(a, key, i);
        assert(row_key(b[i]) == key);
        lemma_row_in_map(a, i);
        lemma_row_in_map(b, i);
    }
    assert(row_map(a) =~= row_map(b));
}

impl RouterScoreboard {
    /// Record an outcome at a given time. Where a half-life is given, the row
    /// decays first; `half_power` gives one half to the power of its argument.
    pub fn record_at<F: Fn(Binary64) -> Binary64>(
        &mut self,
        bucket: PromptBucket,
        model: &str,
        outcome: Outcome,
        half_life_ms: Option<u64>,
        now_ms: u64,
        half_power: F,
    )
        requires
            forall|half_lives: Binary64| call_requires(half_power, (half_lives,)),
        ensures
            final(self).stored_version() == old(self).stored_version(),
            is_record(
                half_power,
                old(self)@,
                (bucket, model@),
                outcome,
                half_life_ms,
                now_ms,
                final(self)@,
            ),
            final(self)@.contains_key((bucket, model@)),
            final(self)@[(bucket, model@)].last_observation_ms == now_ms,
            half_life_ms is None ==> adds_outcome(
                stats_in(old(self)@, bucket, model@),
                outcome.success,
                outcome.latency_ms,
                outcome.input_tokens,
                outcome.output_tokens,
                outcome.cost_micros,
                final(self)@[(bucket, model@)],
            ),
    {
        let mut entry: ModelStats = self.stats(bucket, model);
        let ghost row = entry;
        if let Some(half_life) = half_life_ms {
            apply_decay(&mut entry, now_ms, half_life, half_power);
        }
        let ghost decayed = entry;
        entry.observe(outcome, now_ms);
        self.insert_row(bucket, model, entry);
        assert(final(self)@ == old(self)@.insert(
            (bucket, model@),
            decayed.observed(outcome, now_ms),
        ));
    }

    /// Record how a turn went, at the present time.
    pub fn record_outcome(
        &mut self,
        bucket: PromptBucket,
        model: &str,
        success: bool,
        latency_ms: u64,
        input_tokens: u32,
        output_tokens: u32,
    )
        ensures
            final(self).stored_version() == old(self).stored_version(),
            exists|time: SystemTime|
                #[trigger] is_reading(time) && final(self)@ == old(self)@.insert(
                    (bucket, model@),
                    stats_in(old(self)@, bucket, model@).observed(
                        (Outcome {
                            success,
                            latency_ms,
                            input_tokens,
                            output_tokens,
                            cost_micros: 0,
                        }),
                        low_bits(millis_at(time), 0),
                    ),
                ),
            final(self)@.contains_key((bucket, model@)),
            adds_outcome(
                stats_in(old(self)@, bucket, model@),
                success,
                latency_ms,
                input_tokens,
                output_tokens,
                0,
                final(self)@[(bucket, model@)],
            ),
    {
        let outcome: Outcome = Outcome {
            success,
            latency_ms,
            input_tokens,
            output_tokens,
            cost_micros: 0,
        };
        let keep = |half_lives: Binary64| -> (r: Binary64) { half_lives };
        self.record_at(bucket, model, outcome, None, now_unix_ms(), keep);
    }

    /// Record how a turn went and what it cost, at the present time. Where a
    /// half-life is given, the counts and the latency recorded before decay
    /// first; `half_power` gives one half to the power of its argument.
    pub fn record_outcome_with_decay<F: Fn(Binary64) -> Binary64>(
        &mut self,
        bucket: PromptBucket,
        model: &str,
        success: bool,
        latency_ms: u64,
        input_tokens: u32,
        output_tokens: u32,
        cost_micros: u64,
        half_life_ms: Option<u64>,
        half_power: F,
    )
        requires
            forall|half_lives: Binary64| call_requires(half_power, (half_lives,)),
        ensures
            final(self).stored_version() == old(self).stored_version(),
            exists|time: SystemTime|
                #[trigger] is_reading(time) && is_record(
                    half_power,
                    old(self)@,
                    (bucket, model@),
                    (Outcome { success, latency_ms, input_tokens, output_tokens, cost_micros }),
                    half_life_ms,
                    low_bits(millis_at(time), 0),
                    final(self)@,
                ),
            final(self)@.contains_key((bucket, model@)),
            half_life_ms is None ==> adds_outcome(
                stats_in(old(self)@, bucket, model@),
                success,
                latency_ms,
                input_tokens,
                output_tokens,
                cost_micros,
                final(self)@[(bucket, model@)],
            ),
    {
        let outcome: Outcome = Outcome {
            success,
            latency_ms,
            input_tokens,
            output_tokens,
            cost_micros,
        };
        self.record_at(bucket, model, outcome, half_life_ms, now_unix_ms(), half_power);
    }

    /// The model for the next turn.
    pub fn select<R: RandomSource>(
        &self,
        bucket: PromptBucket,
        candidates: &[String],
        epsilon: Binary64,
        min_samples: u32,
        rng: &mut R,
    ) -> (r: Result<Selection, ScoreboardError>)
        requires
            forall|i: int|
                0 <= i < candidates@.len() && is_warm(
                    tallies_in(self@, bucket, candidates@).take(i),
                    min_samples as nat,
                ) ==> (#[trigger] tallies_in(self@, bucket, candidates@)[i]).countable(),
        ensures
            candidates@.len() == 0 ==> {
                &&& r matches Err(ScoreboardError::Config(message))
                &&& message@ == "eval-driven router requires at least one candidate model"@
                &&& *final(rng) == *old(rng)
            },
            candidates@.len() > 0 ==> {
                &&& r matches Ok(selection)
                &&& is_selection(
                    tallies_in(self@, bucket, candidates@),
                    candidates@,
                    bucket,
                    epsilon,
                    min_samples as nat,
                    Ties::Last,
                    *old(rng),
                    selection,
                    *final(rng),
                )
            },
            r matches Ok(selection) ==> {
                &&& selection.bucket == bucket
                &&& exists|i: int|
                    0 <= i < candidates@.len() && selection.model@ == (#[trigger] candidates@[i])@
                &&& (selection.reason == SelectionReason::WarmStart) == exists|i: int|
                    0 <= i < candidates@.len() && outcomes_on(
                        self@,
                        bucket,
                        (#[trigger] candidates@[i])@,
                    ) < min_samples
                &&& epsilon.bits == 0 || epsilon.bits > 0x7FF0_0000_0000_0000
                    ==> selection.reason != SelectionReason::Explore && *final(rng) == *old(rng)
            },
    {
        if candidates.len() == 0 {
            return Err(
                ScoreboardError::Config(
                    "eval-driven router requires at least one candidate model".to_owned(),
                ),
            );
        }
        let ghost all = tallies_in(self@, bucket, candidates@);
        let mut tallies: Vec<Tally> = Vec::new();
        let mut i: usize = 0;
        while i < candidates.len()
            invariant
                i <= candidates@.len(),
                all == tallies_in(self@, bucket, candidates@),
                tallies@ =~= all.take(i as int),
                is_warm(all.take(i as int), min_samples as nat),
                forall|j: int|
                    0 <= j < candidates@.len() && is_warm(all.take(j), min_samples as nat)
                        ==> (#[trigger] all[j]).countable(),
                forall|j: int| 0 <= j < i ==> (#[trigger] all[j]).countable(),
                candidates@.len() > 0,
                *rng == *old(rng),
            decreases candidates.len() - i,
        {
            let tally: Tally = self.stats(bucket, candidates[i].as_str()).as_tally();
            assert(tally == all[i as int]);
            if tally.samples() < min_samples as u64 {
                proof {
                    assert forall|j: int| 0 <= j < i implies (#[trigger] all[j]).observations()
                        >= min_samples by {
                        assert(all.take(i as int)[j] == all[j]);
                    }
                    assert(is_first_short(all, min_samples as nat, i as int));
                }
                let selection: Selection = Selection {
                    model: candidates[i].clone(),
                    bucket,
                    reason: SelectionReason::WarmStart,
                };
                proof {
                    let zero = Binary64 { bits: 0 };
                    crate::rng::lemma_zero_is_unit_fraction();
                    assert(is_choice(
                        all,
                        candidates@,
                        bucket,
                        epsilon,
                        min_samples as nat,
                        Ties::Last,
                        zero,
                        0,
                        selection,
                    ));
                    lemma_reason_on_the_board(
                        self@,
                        candidates@,
                        bucket,
                        epsilon,
                        min_samples as nat,
                        Ties::Last,
                        *old(rng),
                        selection,
                        *rng,
                    );
                }
                return Ok(selection);
            }
            tallies.push(tally);
            proof {
                assert forall|j: int| 0 <= j < i + 1 implies (#[trigger] all.take(
                    i + 1,
                )[j]).observations() >= min_samples by {
                    if j < i {
                        assert(all.take(i as int)[j] == all[j]);
                    }
                }
            }
            i = i + 1;
        }
        assert(all.take(i as int) =~= all);
        let (choice, reason) = draw_and_decide(tallies.as_slice(), epsilon, Ties::Last, rng);
        let selection: Selection = Selection { model: candidates[choice].clone(), bucket, reason };
        proof {
            let (draw, index) = choose|draw: Binary64, index: usize|
                {
                    &&& is_unit_fraction(draw)
                    &&& index < all.len()
                    &&& #[trigger] is_drawn(
                        *old(rng),
                        epsilon,
                        all.len() as usize,
                        draw,
                        index,
                        *rng,
                    )
                    &&& is_decision(
                        all,
                        epsilon,
                        Ties::Last,
                        draw,
                        index as int,
                        choice as int,
                        reason,
                    )
                };
            assert(is_choice(
                all,
                candidates@,
                bucket,
                epsilon,
                min_samples as nat,
                Ties::Last,
                draw,
                index,
                selection,
            ));
            lemma_reason_on_the_board(
                self@,
                candidates@,
                bucket,
                epsilon,
                min_samples as nat,
                Ties::Last,
                *old(rng),
                selection,
                *rng,
            );
        }
        Ok(selection)
    }
}

/// Recording an outcome changes the row of its class and model only.
pub proof fn lemma_record_elsewhere<F: Fn(Binary64) -> Binary64>(
    half_power: F,
    before: Map<(PromptBucket, Seq<char>), ModelStats>,
    key: (PromptBucket, Seq<char>),
    outcome: Outcome,
    half_life_ms: Option<u64>,
    now_ms: u64,
    after: Map<(PromptBucket, Seq<char>), ModelStats>,
    other: (PromptBucket, Seq<char>),
)
    requires
        is_record(half_power, before, key, outcome, half_life_ms, now_ms, after),
        other != key,
    ensures
        after.contains_key(other) == before.contains_key(other),
        stats_in(after, other.0, other.1) == stats_in(before, other.0, other.1),
{
}

/// Tokens and cost are summed up whether the row decays or not, and the time of
/// the last observation is that of the record.
pub proof fn lemma_record_keeps_totals<F: Fn(Binary64) -> Binary64>(
    half_power: F,
    before: Map<(PromptBucket, Seq<char>), ModelStats>,
    key: (PromptBucket, Seq<char>),
    outcome: Outcome,
    half_life_ms: Option<u64>,
    now_ms: u64,
    after: Map<(PromptBucket, Seq<char>), ModelStats>,
)
    requires
        is_record(half_power, before, key, outcome, half_life_ms, now_ms, after),
    ensures
        ({
            let old_row = stats_in(before, key.0, key.1);
            let new_row = stats_in(after, key.0, key.1);
            &&& new_row.total_cost_micros == old_row.total_cost_micros.saturating_add(
                outcome.cost_micros,
            )
            &&& new_row.total_input_tokens == old_row.total_input_tokens.saturating_add(
                outcome.input_tokens as u64,
            )
            &&& new_row.total_output_tokens == old_row.total_output_tokens.saturating_add(
                outcome.output_tokens as u64,
            )
            &&& new_row.last_observation_ms == now_ms
        }),
{
}

/// Without a half-life nothing decays: the row takes up the outcome as it is.
pub proof fn lemma_record_without_half_life<F: Fn(Binary64) -> Binary64>(
    half_power: F,
    before: Map<(PromptBucket, Seq<char>), ModelStats>,
    key: (PromptBucket, Seq<char>),
    outcome: Outcome,
    now_ms: u64,
    after: Map<(PromptBucket, Seq<char>), ModelStats>,
)
    ensures
        is_record(half_power, before, key, outcome, None, now_ms, after) <==> after
            == before.insert(key, stats_in(before, key.0, key.1).observed(outcome, now_ms)),
{
    let row = stats_in(before, key.0, key.1);
    if after == before.insert(key, row.observed(outcome, now_ms)) {
        assert(is_record(half_power, before, key, outcome, None, now_ms, after));
    }
}

/// A row that was never observed does not decay.
pub proof fn lemma_unobserved_row_does_not_decay<F: Fn(Binary64) -> Binary64>(
    half_power: F,
    before: ModelStats,
    now_ms: u64,
    half_life_ms: u64,
    after: ModelStats,
)
    requires
        before.last_observation_ms == 0,
    ensures
        is_decay(half_power, before, now_ms, half_life_ms, after) <==> after == before,
{
}

/// Recording without decay adds one observation, unless the count has reached
/// the largest number.
pub proof fn lemma_observation_counts(row: ModelStats, outcome: Outcome, now_ms: u64)
    requires
        row.successes < u64::MAX,
        row.failures < u64::MAX,
    ensures
        row.observed(outcome, now_ms).tally().observations() == row.tally().observations() + 1,
{
}

/// Decay never enlarges a count, and leaves tokens, cost and the time of the
/// last observation as they were.
pub proof fn lemma_decay_shrinks(row: ModelStats, factor: Binary64)
    ensures
        row.decayed(factor).successes <= row.successes,
        row.decayed(factor).failures <= row.failures,
        row.decayed(factor).total_latency_ms <= row.total_latency_ms,
        row.decayed(factor).total_input_tokens == row.total_input_tokens,
        row.decayed(factor).total_output_tokens == row.total_output_tokens,
        row.decayed(factor).total_cost_micros == row.total_cost_micros,
        row.decayed(factor).last_observation_ms == row.last_observation_ms,
{
    if factor.is_positive() && !factor.is_one_or_more() {
        crate::binary64::lemma_scaled_count_shrinks(row.successes as nat, factor);
        crate::binary64::lemma_scaled_count_shrinks(row.failures as nat, factor);
        crate::binary64::lemma_scaled_count_shrinks(row.total_latency_ms as nat, factor);
    }
}

/// A larger count stays at least as large after decay by the same factor.
pub proof fn lemma_decay_rises_with_count(fewer: u64, more: u64, factor: Binary64)
    requires
        fewer <= more,
    ensures
        decayed_count(fewer, factor) <= decayed_count(more, factor),
{
    if factor.is_positive() && !factor.is_one_or_more() {
        crate::binary64::lemma_scaled_count_shrinks(fewer as nat, factor);
        crate::binary64::lemma_scaled_count_shrinks(more as nat, factor);
        crate::binary64::lemma_scaled_count_rises(
            fewer as nat,
            more as nat,
            factor,
            factor,
        );
    }
}

/// A larger factor leaves at least as much of a count.
pub proof fn lemma_decay_rises_with_factor(count: u64, smaller: Binary64, larger: Binary64)
    requires
        !smaller.is_nan(),
        !larger.is_nan(),
        !larger.lt(smaller),
    ensures
        decayed_count(count, smaller) <= decayed_count(count, larger),
{
    if smaller.is_positive() && !smaller.is_one_or_more() {
        crate::binary64::lemma_scaled_count_shrinks(count as nat, smaller);
        if !larger.is_one_or_more() {
            crate::binary64::lemma_scaled_count_shrinks(count as nat, larger);
            crate::binary64::lemma_scaled_count_rises(
                count as nat,
                count as nat,
                smaller,
                larger,
            );
        }
    }
}

/// Decay by one half halves an even count.
pub proof fn lemma_decay_halves(half: u64)
    requires
        half <= 0x10_0000_0000_0000,
    ensures
        decayed_count((2 * half) as u64, crate::binary64::one_half()) == half,
{
    crate::binary64::lemma_scaled_count_halves(half as nat);
    crate::binary64::lemma_one_half();
}

/// The scoreboard that rows make up, a later one in the place of an earlier one
/// under the same key.
pub open spec fn rows_map(rows: Seq<(PromptBucket, String, ModelStats)>) -> Map<
    (PromptBucket, Seq<char>),
    ModelStats,
>
    decreases rows.len(),
{
    if rows.len() == 0 {
        Map::empty()
    } else {
        rows_map(rows.drop_last()).insert((rows.last().0, rows.last().1@), rows.last().2)
    }
}

/// Whether rows are those of a scoreboard, each one once and in rising order of
/// its key.
pub open spec fn are_rows_of(
    rows: Seq<(PromptBucket, String, ModelStats)>,
    board: Map<(PromptBucket, Seq<char>), ModelStats>,
) -> bool {
    &&& forall|i: int|
        0 <= i < rows.len() ==> board.contains_key(((#[trigger] rows[i]).0, rows[i].1@))
            && board[(rows[i].0, rows[i].1@)] == rows[i].2
    &&& forall|i: int, j: int|
        0 <= i < j < rows.len() ==> key_before(
            ((#[trigger] rows[i]).0, rows[i].1@),
            ((#[trigger] rows[j]).0, rows[j].1@),
        )
    &&& forall|key: (PromptBucket, Seq<char>)|
        #[trigger] board.contains_key(key) ==> exists|i: int|
            0 <= i < rows.len() && ((#[trigger] rows[i]).0, rows[i].1@) == key
}

impl RouterScoreboard {
    /// The scoreboard of a version that rows make up.
    pub fn from_rows(version: u32, rows: Vec<(PromptBucket, String, ModelStats)>) -> (r:
        RouterScoreboard)
        ensures
            r@ == rows_map(rows@),
            r.stored_version() == version,
    {
        let mut board: RouterScoreboard = RouterScoreboard::with_version(version);
        let mut i: usize = 0;
        while i < rows.len()
            invariant
                i <= rows@.len(),
                board@ == rows_map(rows@.take(i as int)),
                board.stored_version() == version,
            decreases rows.len() - i,
        {
            assert(rows@.take(i + 1).drop_last() =~= rows@.take(i as int));
            let row: &(PromptBucket, String, ModelStats) = &rows[i];
            board.insert_row(row.0, row.1.as_str(), row.2);
            i = i + 1;
        }
        assert(rows@.take(i as int) =~= rows@);
        board
    }

    /// The scoreboard that was stored: its version, where it names one, and its
    /// rows. Where nothing was stored, an empty one without a version.
    pub fn restored(stored: Option<(Option<u32>, Vec<(PromptBucket, String, ModelStats)>)>) -> (r:
        RouterScoreboard)
        ensures
            match stored {
                Some((version, rows)) => {
                    &&& r@ == rows_map(rows@)
                    &&& r.stored_version() == (match version {
                        Some(named) => named,
                        None => SCOREBOARD_VERSION,
                    })
                },
                None => {
                    &&& r@ == Map::<(PromptBucket, Seq<char>), ModelStats>::empty()
                    &&& r.stored_version() == 0
                },
            },
    {
        match stored {
            Some((version, rows)) => {
                let named: u32 = match version {
                    Some(named) => named,
                    None => default_version(),
                };
                RouterScoreboard::from_rows(named, rows)
            },
            None => RouterScoreboard::default(),
        }
    }

    /// Every row, in rising order of its key, to be stored.
    pub fn to_rows(&self) -> (r: Vec<(PromptBucket, String, ModelStats)>)
        ensures
            are_rows_of(r@, self@),
    {
        let listed: Vec<(PromptBucket, &str, &ModelStats)> = self.iter();
        let mut r: Vec<(PromptBucket, String, ModelStats)> = Vec::new();
        let mut n: usize = 0;
        while n < listed.len()
            invariant
                n == r@.len(),
                n <= listed@.len(),
                forall|i: int|
                    0 <= i < n ==> (#[trigger] r@[i]).0 == listed@[i].0 && r@[i].1@
                        == listed@[i].1@ && r@[i].2 == *listed@[i].2,
            decreases listed.len() - n,
        {
            let (bucket, model, stats) = listed[n];
            r.push((bucket, model.to_owned(), *stats));
            n = n + 1;
        }
        proof {
            assert forall|i: int| 0 <= i < r@.len() implies self@.contains_key(
                ((#[trigger] r@[i]).0, r@[i].1@),
            ) && self@[(r@[i].0, r@[i].1@)] == r@[i].2 by {
                assert(self@.contains_key((listed@[i].0, listed@[i].1@)));
            }
            assert forall|i: int, j: int| 0 <= i < j < r@.len() implies key_before(
                ((#[trigger] r@[i]).0, r@[i].1@),
                ((#[trigger] r@[j]).0, r@[j].1@),
            ) by {
                assert(key_before(
                    (listed@[i].0, listed@[i].1@),
                    (listed@[j].0, listed@[j].1@),
                ));
            }
            assert forall|key: (PromptBucket, Seq<char>)| #[trigger]
                self@.contains_key(key) implies exists|i: int|
                0 <= i < r@.len() && ((#[trigger] r@[i]).0, r@[i].1@) == key by {
                let i = choose|i: int|
                    0 <= i < listed@.len() && ((#[trigger] listed@[i]).0, listed@[i].1@) == key;
                assert((r@[i].0, r@[i].1@) == key);
            }
        }
        r
    }
}

/// The rows of a scoreboard make it up again.
pub proof fn lemma_rows_roundtrip(
    rows: Seq<(PromptBucket, String, ModelStats)>,
    board: Map<(PromptBucket, Seq<char>), ModelStats>,
)
    requires
        are_rows_of(rows, board),
    ensures
        rows_map(rows) == board,
{
    assert forall|key: (PromptBucket, Seq<char>)| rows_map(rows).contains_key(key)
        == board.contains_key(key) by {
        lemma_rows_map(rows, key);
    }
    assert forall|key: (PromptBucket, Seq<char>)| board.contains_key(key) implies rows_map(rows)[key]
        == board[key] by {
        lemma_rows_map(rows, key);
    }
    assert(rows_map(rows) =~= board);
}

/// The map that rows make up holds their keys, and under each the last of its
/// rows.
proof fn lemma_rows_map(
    rows: Seq<(PromptBucket, String, ModelStats)>,
    key: (PromptBucket, Seq<char>),
)
    ensures
        rows_map(rows).contains_key(key) == exists|i: int|
            0 <= i < rows.len() && ((#[trigger] rows[i]).0, rows[i].1@) == key,
        rows_map(rows).contains_key(key) ==> exists|i: int|
            0 <= i < rows.len() && ((#[trigger] rows[i]).0, rows[i].1@) == key
                && rows_map(rows)[key] == rows[i].2,
    decreases rows.len(),
{
    if rows.len() > 0 {
        let before = rows.drop_last();
        let n = rows.len() - 1;
        lemma_rows_map(before, key);
        if (rows[n].0, rows[n].1@) != key {
            assert(rows_map(rows).contains_key(key) == rows_map(before).contains_key(key));
            if rows_map(before).contains_key(key) {
                let i = choose|i: int|
                    0 <= i < before.len() && ((#[trigger] before[i]).0, before[i].1@) == key
                        && rows_map(before)[key] == before[i].2;
                assert((rows[i].0, rows[i].1@) == key);
                assert(rows_map(rows)[key] == rows[i].2);
            } else if exists|i: int|
                0 <= i < rows.len() && ((#[trigger] rows[i]).0, rows[i].1@) == key {
                let i = choose|i: int|
                    0 <= i < rows.len() && ((#[trigger] rows[i]).0, rows[i].1@) == key;
                assert((before[i].0, before[i].1@) == key);
            }
        } else {
            assert(rows_map(rows)[key] == rows[n].2);
        }
    }
}

/// A selection depends on what the policy reads of the candidates only: boards
/// that agree in the successes, failures and latency of every candidate give
/// the same selection on the same draws.
pub proof fn lemma_selection_depends_on_tallies(
    x: Map<(PromptBucket, Seq<char>), ModelStats>,
    y: Map<(PromptBucket, Seq<char>), ModelStats>,
    candidates: Seq<String>,
    bucket: PromptBucket,
    epsilon: Binary64,
    min_samples: nat,
    ties: Ties,
    draw: Binary64,
    index: usize,
    a: Selection,
    b: Selection,
)
    requires
        forall|i: int|
            0 <= i < candidates.len() ==> stats_in(x, bucket, (#[trigger] candidates[i])@).tally()
                == stats_in(y, bucket, candidates[i]@).tally(),
        is_choice(
            tallies_in(x, bucket, candidates),
            candidates,
            bucket,
            epsilon,
            min_samples,
            ties,
            draw,
            index,
            a,
        ),
        is_choice(
            tallies_in(y, bucket, candidates),
            candidates,
            bucket,
            epsilon,
            min_samples,
            ties,
            draw,
            index,
            b,
        ),
    ensures
        a.model@ == b.model@,
        a.bucket == b.bucket,
        a.reason == b.reason,
{
    assert(tallies_in(x, bucket, candidates) =~= tallies_in(y, bucket, candidates));
    crate::routing::lemma_choice_unique(
        tallies_in(x, bucket, candidates),
        candidates,
        bucket,
        epsilon,
        min_samples,
        ties,
        draw,
        index,
        a,
        b,
    );
}

/// What the policy reads of a row are its successes, its failures and its latency.
pub proof fn lemma_tally_reads_the_row(row: ModelStats)
    ensures
        row.tally().successes == row.successes,
        row.tally().failures == row.failures,
        row.tally().total_latency_ms == row.total_latency_ms,
{
}

/// Nothing is observed of a model that has no row, and of one that has, what the row
/// says.
pub proof fn lemma_stats_of_a_key(
    board: Map<(PromptBucket, Seq<char>), ModelStats>,
    bucket: PromptBucket,
    model: Seq<char>,
)
    ensures
        board.contains_key((bucket, model)) ==> stats_in(board, bucket, model) == board[(
            bucket,
            model,
        )],
        !board.contains_key((bucket, model)) ==> stats_in(board, bucket, model) == (ModelStats {
            successes: 0,
            failures: 0,
            total_latency_ms: 0,
            total_input_tokens: 0,
            total_output_tokens: 0,
            total_cost_micros: 0,
            last_observation_ms: 0,
        }),
{
}

/// An outcome raises the count of its kind by one and leaves the other, whatever it
/// took and cost, and adds its latency, tokens and cost to the totals, all of them
/// short of the largest number.
pub proof fn lemma_observation_adds_the_outcome(row: ModelStats, outcome: Outcome, now_ms: u64)
    ensures
        ({
            let next = row.observed(outcome, now_ms);
            let most = 0xFFFF_FFFF_FFFF_FFFFu64;
            &&& outcome.success ==> next.failures == row.failures
            &&& outcome.success && row.successes < most ==> next.successes == row.successes + 1
            &&& outcome.success && row.successes == most ==> next.successes == most
            &&& !outcome.success ==> next.successes == row.successes
            &&& !outcome.success && row.failures < most ==> next.failures == row.failures + 1
            &&& !outcome.success && row.failures == most ==> next.failures == most
            &&& next.total_latency_ms == if row.total_latency_ms + outcome.latency_ms <= most {
                row.total_latency_ms + outcome.latency_ms
            } else {
                most as int
            }
            &&& next.total_input_tokens == if row.total_input_tokens + outcome.input_tokens
                <= most {
                row.total_input_tokens + outcome.input_tokens
            } else {
                most as int
            }
            &&& next.total_output_tokens == if row.total_output_tokens + outcome.output_tokens
                <= most {
                row.total_output_tokens + outcome.output_tokens
            } else {
                most as int
            }
            &&& next.total_cost_micros == if row.total_cost_micros + outcome.cost_micros <= most {
                row.total_cost_micros + outcome.cost_micros
            } else {
                most as int
            }
            &&& next.last_observation_ms == now_ms
        }),
{
}

/// Recording an outcome raises the count of its kind by one and leaves the other as
/// it was after decay, adds its latency, tokens and cost to the totals, and leaves
/// every other row alone. Without a half-life, and where there was no row, nothing
/// decays.
pub proof fn lemma_record_adds_the_outcome<F: Fn(Binary64) -> Binary64>(
    half_power: F,
    before: Map<(PromptBucket, Seq<char>), ModelStats>,
    key: (PromptBucket, Seq<char>),
    outcome: Outcome,
    half_life_ms: Option<u64>,
    now_ms: u64,
    after: Map<(PromptBucket, Seq<char>), ModelStats>,
) -> (decayed: ModelStats)
    requires
        is_record(half_power, before, key, outcome, half_life_ms, now_ms, after),
    ensures
        !before.contains_key(key) ==> decayed == (ModelStats {
            successes: 0,
            failures: 0,
            total_latency_ms: 0,
            total_input_tokens: 0,
            total_output_tokens: 0,
            total_cost_micros: 0,
            last_observation_ms: 0,
        }),
        before.contains_key(key) && half_life_ms is None ==> decayed == before[key],
        before.contains_key(key) && half_life_ms is Some ==> is_decay(
            half_power,
            before[key],
            now_ms,
            half_life_ms.unwrap(),
            decayed,
        ),
        after.contains_key(key),
        after.remove(key) == before.remove(key),
        ({
            let next = after[key];
            let most = 0xFFFF_FFFF_FFFF_FFFFu64;
            &&& outcome.success ==> next.failures == decayed.failures
            &&& outcome.success && decayed.successes < most ==> next.successes == decayed.successes
                + 1
            &&& outcome.success && decayed.successes == most ==> next.successes == most
            &&& !outcome.success ==> next.successes == decayed.successes
            &&& !outcome.success && decayed.failures < most ==> next.failures == decayed.failures
                + 1
            &&& !outcome.success && decayed.failures == most ==> next.failures == most
            &&& next.total_latency_ms == if decayed.total_latency_ms + outcome.latency_ms <= most {
                decayed.total_latency_ms + outcome.latency_ms
            } else {
                most as int
            }
            &&& next.total_input_tokens == if decayed.total_input_tokens + outcome.input_tokens
                <= most {
                decayed.total_input_tokens + outcome.input_tokens
            } else {
                most as int
            }
            &&& next.total_output_tokens == if decayed.total_output_tokens + outcome.output_tokens
                <= most {
                decayed.total_output_tokens + outcome.output_tokens
            } else {
                most as int
            }
            &&& next.total_cost_micros == if decayed.total_cost_micros + outcome.cost_micros
                <= most {
                decayed.total_cost_micros + outcome.cost_micros
            } else {
                most as int
            }
            &&& next.last_observation_ms == now_ms
        }),
{
    let row = stats_in(before, key.0, key.1);
    let decayed = choose|decayed: ModelStats|
        {
            &&& match half_life_ms {
                Some(half_life) => is_decay(half_power, row, now_ms, half_life, decayed),
                None => decayed == row,
            }
            &&& after == before.insert(key, #[trigger] decayed.observed(outcome, now_ms))
        };
    assert(after.remove(key) =~= before.remove(key));
    decayed
}

/// Whether a count is the product of another one and a factor, rounded to the
/// nearest whole number, but for one part in 2^50 of the product.
pub open spec fn is_rounded_product(count: u64, factor: Binary64, product: u64) -> bool {
    crate::binary64::distance(
        2 * (product * crate::binary64::unit()),
        2 * (count * factor.units()),
    ) * 0x4_0000_0000_0000 <= crate::binary64::unit() * 0x4_0000_0000_0000 + count * factor.units()
}

/// A count is multiplied by a factor between zero and one and rounded to the nearest
/// whole number; a factor of one or more leaves it, and one of zero or less, or that
/// is not a number, leaves nothing of it.
pub proof fn lemma_decay_multiplies(count: u64, factor: Binary64)
    ensures
        factor.bits <= 0x7FF0_0000_0000_0000 && factor.units() >= crate::binary64::unit()
            ==> decayed_count(count, factor) == count,
        factor.bits <= 0x7FF0_0000_0000_0000 && factor.units() < crate::binary64::unit()
            ==> is_rounded_product(count, factor, decayed_count(count, factor)),
        factor.bits == 0 || factor.bits > 0x7FF0_0000_0000_0000 ==> decayed_count(count, factor)
            == 0,
{
    assert(crate::binary64::magnitude(0) == 0);
    crate::binary64::lemma_unit_positive();
    if factor.bits <= 0x7FF0_0000_0000_0000 && factor.units() < crate::binary64::unit() {
        if factor.is_positive() && count > 0 {
            crate::binary64::lemma_scaled_count_is_the_product(count as nat, factor);
            crate::binary64::lemma_scaled_count_shrinks(count as nat, factor);
        } else {
            assert(count * factor.units() == 0) by (nonlinear_arith)
                requires
                    count == 0 || factor.units() == 0,
            ;
            assert(0 * crate::binary64::unit() == 0);
        }
    }
}

/// The exponent of a decay is the number of half-lives since the last observation,
/// with its fraction: the number nearest to it for spans of up to 2^53
/// milliseconds, and otherwise one that differs by at most one part in 2^50. It is
/// one where one half-life has passed, and less before. The counts and the latency
/// are multiplied by what `half_power` gives for it, and nothing else changes.
pub proof fn lemma_decay_counts_half_lives<F: Fn(Binary64) -> Binary64>(
    half_power: F,
    before: ModelStats,
    now_ms: u64,
    half_life_ms: u64,
    after: ModelStats,
) -> (r: (Binary64, Binary64))
    requires
        is_decay(half_power, before, now_ms, half_life_ms, after),
        0 < before.last_observation_ms < now_ms,
        half_life_ms > 0,
    ensures
        call_ensures(half_power, (r.0,), r.1),
        ({
            let elapsed = (now_ms - before.last_observation_ms) as nat;
            let unit = crate::binary64::unit();
            &&& r.0.bits < 0x7FF0_0000_0000_0000
            &&& r.0.units() > 0
            &&& crate::binary64::distance(r.0.units() * half_life_ms, (elapsed * unit) as int)
                * 0x4_0000_0000_0000 <= elapsed * unit
            &&& elapsed <= 0x20_0000_0000_0000 && half_life_ms <= 0x20_0000_0000_0000
                ==> r.0.is_nearest(elapsed, half_life_ms as nat)
            &&& elapsed < half_life_ms <= 0x20_0000_0000_0000 ==> r.0.units() < unit
            &&& elapsed == half_life_ms ==> r.0.units() == unit
        }),
        r.1.bits <= 0x7FF0_0000_0000_0000 && r.1.units() >= crate::binary64::unit() ==> after
            == before,
        r.1.bits <= 0x7FF0_0000_0000_0000 && r.1.units() < crate::binary64::unit() ==> {
            &&& is_rounded_product(before.successes, r.1, after.successes)
            &&& is_rounded_product(before.failures, r.1, after.failures)
            &&& is_rounded_product(before.total_latency_ms, r.1, after.total_latency_ms)
        },
        after == (ModelStats {
            successes: after.successes,
            failures: after.failures,
            total_latency_ms: after.total_latency_ms,
            ..before
        }),
{
    let half_lives = before.half_lives(now_ms, half_life_ms).unwrap();
    let factor = choose|factor: Binary64|
        call_ensures(half_power, (half_lives,), factor) && after == before.decayed(factor);
    crate::binary64::lemma_quotient_is_the_ratio(
        (now_ms - before.last_observation_ms) as nat,
        half_life_ms as nat,
    );
    lemma_decay_multiplies(before.successes, factor);
    lemma_decay_multiplies(before.failures, factor);
    lemma_decay_multiplies(before.total_latency_ms, factor);
    (half_lives, factor)
}

/// More half-lives have passed later on.
pub proof fn lemma_half_lives_grow(
    row: ModelStats,
    sooner_ms: u64,
    later_ms: u64,
    half_life_ms: u64,
)
    requires
        0 < row.last_observation_ms < sooner_ms <= later_ms,
        half_life_ms > 0,
    ensures
        row.half_lives(sooner_ms, half_life_ms) is Some,
        row.half_lives(later_ms, half_life_ms) is Some,
        row.half_lives(sooner_ms, half_life_ms).unwrap().units() <= row.half_lives(
            later_ms,
            half_life_ms,
        ).unwrap().units(),
{
    crate::binary64::lemma_quotient_rises(
        (sooner_ms - row.last_observation_ms) as nat,
        (later_ms - row.last_observation_ms) as nat,
        half_life_ms as nat,
    );
}

/// Nothing decays that was never observed, without a half-life, or where no time
/// has passed.
pub proof fn lemma_decay_needs_time<F: Fn(Binary64) -> Binary64>(
    half_power: F,
    before: ModelStats,
    now_ms: u64,
    half_life_ms: u64,
    after: ModelStats,
)
    requires
        is_decay(half_power, before, now_ms, half_life_ms, after),
        before.last_observation_ms == 0 || half_life_ms == 0 || now_ms
            <= before.last_observation_ms,
    ensures
        after == before,
{
}

/// The number of outcomes that a board holds of a class and a model.
pub open spec fn outcomes_on(
    board: Map<(PromptBucket, Seq<char>), ModelStats>,
    bucket: PromptBucket,
    model: Seq<char>,
) -> int {
    if board.contains_key((bucket, model)) {
        board[(bucket, model)].successes + board[(bucket, model)].failures
    } else {
        0
    }
}

/// A model of which a board holds too few outcomes is selected before anything is
/// drawn, the first such one of the candidates.
pub proof fn lemma_select_warms_up<R: RandomSource>(
    board: Map<(PromptBucket, Seq<char>), ModelStats>,
    candidates: Seq<String>,
    bucket: PromptBucket,
    epsilon: Binary64,
    min_samples: nat,
    ties: Ties,
    before: R,
    selection: Selection,
    after: R,
    first: int,
)
    requires
        is_selection(
            tallies_in(board, bucket, candidates),
            candidates,
            bucket,
            epsilon,
            min_samples,
            ties,
            before,
            selection,
            after,
        ),
        0 <= first < candidates.len(),
        outcomes_on(board, bucket, candidates[first]@) < min_samples,
        forall|i: int|
            0 <= i < first ==> outcomes_on(board, bucket, (#[trigger] candidates[i])@)
                >= min_samples,
    ensures
        selection.model@ == candidates[first]@,
        selection.bucket == bucket,
        selection.reason == SelectionReason::WarmStart,
        after == before,
{
    let tallies = tallies_in(board, bucket, candidates);
    let (draw, index) = choose|d: Binary64, i: usize|
        {
            &&& is_unit_fraction(d)
            &&& i < candidates.len()
            &&& #[trigger] is_choice(
                tallies,
                candidates,
                bucket,
                epsilon,
                min_samples,
                ties,
                d,
                i,
                selection,
            )
            &&& if is_warm(tallies, min_samples) {
                is_drawn(before, epsilon, candidates.len() as usize, d, i, after)
            } else {
                before == after
            }
        };
    assert(tallies[first].observations() == outcomes_on(board, bucket, candidates[first]@));
    assert forall|i: int| 0 <= i < first implies (#[trigger] tallies[i]).successes
        + tallies[i].failures >= min_samples by {
        assert(outcomes_on(board, bucket, candidates[i]@) >= min_samples);
    }
    crate::routing::lemma_warm_start_takes_the_first_short(
        tallies,
        candidates,
        bucket,
        epsilon,
        min_samples,
        ties,
        draw,
        index,
        selection,
        first,
    );
}

/// Past warm start, a selection explores if, and only if, the value that the source
/// drew lies below epsilon, and then it is the candidate at the index drawn.
pub proof fn lemma_select_explores<R: RandomSource>(
    board: Map<(PromptBucket, Seq<char>), ModelStats>,
    candidates: Seq<String>,
    bucket: PromptBucket,
    epsilon: Binary64,
    min_samples: nat,
    ties: Ties,
    before: R,
    selection: Selection,
    after: R,
) -> (drawn: (Binary64, R, usize))
    requires
        is_selection(
            tallies_in(board, bucket, candidates),
            candidates,
            bucket,
            epsilon,
            min_samples,
            ties,
            before,
            selection,
            after,
        ),
        forall|i: int|
            0 <= i < candidates.len() ==> outcomes_on(board, bucket, (#[trigger] candidates[i])@)
                >= min_samples,
        0 < epsilon.bits <= 0x7FF0_0000_0000_0000,
    ensures
        ({
            let (draw, middle, index) = drawn;
            &&& R::unit_draw(before, draw, middle)
            &&& draw.bits < 0x7FF0_0000_0000_0000
            &&& draw.units() < crate::binary64::unit()
            &&& index < candidates.len()
            &&& if draw.units() < epsilon.units() {
                &&& R::bounded_draw(middle, candidates.len() as usize, index, after)
                &&& selection.reason == SelectionReason::Explore
                &&& selection.model@ == candidates[index as int]@
            } else {
                &&& middle == after
                &&& selection.reason == SelectionReason::Exploit
            }
        }),
{
    let tallies = tallies_in(board, bucket, candidates);
    let drawn = crate::routing::lemma_source_is_asked_as_needed(
        tallies,
        candidates,
        bucket,
        epsilon,
        min_samples,
        ties,
        before,
        selection,
        after,
    );
    assert forall|i: int| 0 <= i < tallies.len() implies (#[trigger] tallies[i]).observations()
        >= min_samples by {
        assert(outcomes_on(board, bucket, candidates[i]@) >= min_samples);
    }
    assert(crate::binary64::magnitude(0) == 0);
    crate::binary64::lemma_magnitude_increases(0, epsilon.bits as nat);
    drawn
}

/// A selection that exploits is the candidate with the largest ratio of
/// `successes + 1` to `outcomes + 2` on the board, and of those that share it one
/// with the lowest average latency, for up to 2^24 outcomes each.
pub proof fn lemma_select_exploits<R: RandomSource>(
    board: Map<(PromptBucket, Seq<char>), ModelStats>,
    candidates: Seq<String>,
    bucket: PromptBucket,
    epsilon: Binary64,
    min_samples: nat,
    ties: Ties,
    before: R,
    selection: Selection,
    after: R,
) -> (best: int)
    requires
        is_selection(
            tallies_in(board, bucket, candidates),
            candidates,
            bucket,
            epsilon,
            min_samples,
            ties,
            before,
            selection,
            after,
        ),
        selection.reason == SelectionReason::Exploit,
        forall|i: int|
            0 <= i < candidates.len() ==> board.contains_key(
                (bucket, (#[trigger] candidates[i])@),
            ) && outcomes_on(board, bucket, candidates[i]@) + 2 <= 0x100_0000,
    ensures
        0 <= best < candidates.len(),
        selection.model@ == candidates[best]@,
        forall|i: int|
            #![trigger candidates[i]]
            0 <= i < candidates.len() ==> {
                let a = board[(bucket, candidates[best]@)];
                let b = board[(bucket, candidates[i]@)];
                let m = a.successes + a.failures;
                let n = b.successes + b.failures;
                &&& (b.successes + 1) * (m + 2) <= (a.successes + 1) * (n + 2)
                &&& (b.successes + 1) * (m + 2) == (a.successes + 1) * (n + 2) && m > 0 && n > 0
                    ==> a.total_latency_ms as int / m <= b.total_latency_ms as int / n
                &&& (b.successes + 1) * (m + 2) == (a.successes + 1) * (n + 2) && m > 0 && n > 0
                    && a.total_latency_ms as int / m == b.total_latency_ms as int / n ==> match ties {
                    Ties::First => best <= i,
                    Ties::Last => i <= best,
                }
            },
{
    let tallies = tallies_in(board, bucket, candidates);
    let (draw, index) = choose|d: Binary64, i: usize|
        {
            &&& is_unit_fraction(d)
            &&& i < candidates.len()
            &&& #[trigger] is_choice(
                tallies,
                candidates,
                bucket,
                epsilon,
                min_samples,
                ties,
                d,
                i,
                selection,
            )
            &&& if is_warm(tallies, min_samples) {
                is_drawn(before, epsilon, candidates.len() as usize, d, i, after)
            } else {
                before == after
            }
        };
    assert forall|i: int| 0 <= i < tallies.len() implies (#[trigger] tallies[i]).successes
        + tallies[i].failures <= u64::MAX by {
        assert(board.contains_key((bucket, candidates[i]@)));
    }
    let best = crate::routing::lemma_exploit_takes_the_highest_rate(
        tallies,
        candidates,
        bucket,
        epsilon,
        min_samples,
        ties,
        draw,
        index,
        selection,
    );
    assert(board.contains_key((bucket, candidates[best]@)));
    assert forall|i: int|
        #![trigger candidates[i]]
        0 <= i < candidates.len() implies {
        let a = board[(bucket, candidates[best]@)];
        let b = board[(bucket, candidates[i]@)];
        let m = a.successes + a.failures;
        let n = b.successes + b.failures;
        &&& (b.successes + 1) * (m + 2) <= (a.successes + 1) * (n + 2)
        &&& (b.successes + 1) * (m + 2) == (a.successes + 1) * (n + 2) && m > 0 && n > 0
            ==> a.total_latency_ms as int / m <= b.total_latency_ms as int / n
        &&& (b.successes + 1) * (m + 2) == (a.successes + 1) * (n + 2) && m > 0 && n > 0
            && a.total_latency_ms as int / m == b.total_latency_ms as int / n ==> match ties {
            Ties::First => best <= i,
            Ties::Last => i <= best,
        }
    } by {
        assert(board.contains_key((bucket, candidates[i]@)));
        crate::routing::lemma_rates_follow_ratios(tallies[best], tallies[i]);
        assert(tallies[i].rate().units() <= tallies[best].rate().units());
    }
    best
}

/// Of several rows with one key the last one counts, and no key counts that no row has.
pub proof fn lemma_last_row_counts(
    rows: Seq<(PromptBucket, String, ModelStats)>,
    key: (PromptBucket, Seq<char>),
    last: int,
)
    ensures
        (forall|i: int| 0 <= i < rows.len() ==> ((#[trigger] rows[i]).0, rows[i].1@) != key)
            ==> !rows_map(rows).contains_key(key),
        0 <= last < rows.len() && (rows[last].0, rows[last].1@) == key && (forall|i: int|
            last < i < rows.len() ==> ((#[trigger] rows[i]).0, rows[i].1@) != key) ==> rows_map(
            rows,
        ).contains_key(key) && rows_map(rows)[key] == rows[last].2,
    decreases rows.len(),
{
    if rows.len() > 0 {
        let front = rows.drop_last();
        lemma_last_row_counts(front, key, last);
        assert(forall|i: int| 0 <= i < front.len() ==> #[trigger] front[i] == rows[i]);
        assert(rows[rows.len() - 1] == rows.last());
    }
}

/// Rows are ordered by the length of the prompts first: short ones before medium ones,
/// and those before long ones. Within a class they are ordered by the bytes of the
/// model's name, as words in a dictionary.
pub proof fn lemma_order_of_keys(a: Seq<char>, b: Seq<char>, k: int)
    ensures
        key_before((PromptBucket::Short, a), (PromptBucket::Medium, b)),
        key_before((PromptBucket::Medium, a), (PromptBucket::Long, b)),
        key_before((PromptBucket::Short, a), (PromptBucket::Long, b)),
        ({
            let x = vstd::utf8::encode_utf8(a);
            let y = vstd::utf8::encode_utf8(b);
            0 <= k <= x.len() && k < y.len() && x.take(k) == y.take(k) && (k == x.len() || x[k]
                < y[k]) ==> key_before((PromptBucket::Short, a), (PromptBucket::Short, b))
                && key_before((PromptBucket::Medium, a), (PromptBucket::Medium, b)) && key_before(
                (PromptBucket::Long, a),
                (PromptBucket::Long, b),
            )
        }),
{
    let x = vstd::utf8::encode_utf8(a);
    let y = vstd::utf8::encode_utf8(b);
    if 0 <= k <= x.len() && k < y.len() && x.take(k) == y.take(k) && (k == x.len() || x[k] < y[k]) {
        assert(crate::text::before_at(x, y, k));
    }
}

/// A candidate is selected for a warm start if, and only if, a board holds too few
/// outcomes of some candidate. Without a positive epsilon nothing is explored, and the
/// source is not asked.
pub proof fn lemma_reason_on_the_board<R: RandomSource>(
    board: Map<(PromptBucket, Seq<char>), ModelStats>,
    candidates: Seq<String>,
    bucket: PromptBucket,
    epsilon: Binary64,
    min_samples: nat,
    ties: Ties,
    before: R,
    selection: Selection,
    after: R,
)
    requires
        is_selection(
            tallies_in(board, bucket, candidates),
            candidates,
            bucket,
            epsilon,
            min_samples,
            ties,
            before,
            selection,
            after,
        ),
    ensures
        selection.bucket == bucket,
        exists|i: int| 0 <= i < candidates.len() && selection.model@ == (#[trigger] candidates[i])@,
        (selection.reason == SelectionReason::WarmStart) == exists|i: int|
            0 <= i < candidates.len() && outcomes_on(board, bucket, (#[trigger] candidates[i])@)
                < min_samples,
        epsilon.bits == 0 || epsilon.bits > 0x7FF0_0000_0000_0000 ==> selection.reason
            != SelectionReason::Explore && after == before,
{
    let tallies = tallies_in(board, bucket, candidates);
    crate::routing::lemma_reason_of_a_selection(
        tallies,
        candidates,
        bucket,
        epsilon,
        min_samples,
        ties,
        before,
        selection,
        after,
    );
    assert forall|i: int| 0 <= i < candidates.len() implies outcomes_on(
        board,
        bucket,
        (#[trigger] candidates[i])@,
    ) == tallies[i].successes + tallies[i].failures by {}
    if selection.reason == SelectionReason::WarmStart {
        let i = choose|i: int|
            0 <= i < tallies.len() && (#[trigger] tallies[i]).successes + tallies[i].failures
                < min_samples;
        assert(outcomes_on(board, bucket, candidates[i]@) < min_samples);
    }
}

} // verus!
