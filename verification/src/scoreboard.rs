//! The routing scoreboard of a store.

use crate::binary64::Binary64;
use crate::clock::is_reading;
use crate::clock::millis_at;
use crate::clock::now_ms;
use crate::clock::signed_millis;
use crate::database::add_scores;
use crate::database::fetch_scores;
use crate::database::is_score_list;
use crate::database::list_scores;
use crate::database::score_key_before;
use crate::database::scores_under;
use crate::database::sums;
use crate::database::sums_fit;
use crate::database::Database;
use crate::database::Scores;
use crate::error::StateError;
use crate::rng::is_unit_fraction;
use crate::rng::RandomSource;
use crate::routing::draw_and_decide;
use crate::routing::is_choice;
use crate::routing::is_decision;
use crate::routing::is_drawn;
use crate::routing::is_first_short;
use crate::routing::is_selection;
use crate::routing::is_warm;
use crate::routing::PromptBucket;
use crate::routing::Selection;
use crate::routing::SelectionReason;
use crate::routing::Tally;
use crate::routing::Ties;
use std::time::SystemTime;
use vstd::prelude::*;

verus! {

/// What was observed of one model on one class of prompts.
#[derive(Debug, Clone, Copy, PartialEq, Eq, Structural)]
pub struct ModelStats {
    pub successes: u64,
    pub failures: u64,
    pub total_latency_ms: u64,
    pub total_input_tokens: u64,
    pub total_output_tokens: u64,
}

impl ModelStats {
    /// Nothing observed.
    pub open spec fn none() -> ModelStats {
        ModelStats {
            successes: 0,
            failures: 0,
            total_latency_ms: 0,
            total_input_tokens: 0,
            total_output_tokens: 0,
        }
    }

    /// The counts of a stored row, read as unsigned numbers.
    pub open spec fn of_scores(scores: Scores) -> ModelStats {
        ModelStats {
            successes: scores.0 as u64,
            failures: scores.1 as u64,
            total_latency_ms: scores.2 as u64,
            total_input_tokens: scores.3 as u64,
            total_output_tokens: scores.4 as u64,
        }
    }

    /// What the routing policy reads.
    pub open spec fn tally(self) -> Tally {
        Tally {
            successes: self.successes,
            failures: self.failures,
            total_latency_ms: self.total_latency_ms,
        }
    }

    /// The counts of a stored row, read as unsigned numbers.
    pub fn from_scores(scores: Scores) -> (r: ModelStats)
        ensures
            r == ModelStats::of_scores(scores),
    {
        ModelStats {
            successes: scores.0 as u64,
            failures: scores.1 as u64,
            total_latency_ms: scores.2 as u64,
            total_input_tokens: scores.3 as u64,
            total_output_tokens: scores.4 as u64,
        }
    }

    fn as_tally(&self) -> (r: Tally)
        ensures
            r == self.tally(),
    {
        Tally {
            successes: self.successes,
            failures: self.failures,
            total_latency_ms: self.total_latency_ms,
        }
    }

    pub fn samples(&self) -> (r: u64)
        requires
            self.tally().countable(),
        ensures
            r == self.successes + self.failures,
    {
        self.as_tally().samples()
    }

    /// The success rate `(successes + 1) / (samples + 2)`.
    pub fn success_rate(&self) -> (r: Binary64)
        requires
            self.tally().countable(),
        ensures
            r == self.tally().rate(),
            r.is_nonnegative_finite(),
            0 < r.units() <= crate::binary64::unit(),
    {
        self.as_tally().success_rate()
    }

    pub fn average_latency_ms(&self) -> (r: u64)
        requires
            self.tally().countable(),
        ensures
            r == self.tally().latency(),
    {
        self.as_tally().average_latency_ms()
    }
}

impl Default for ModelStats {
    fn default() -> (r: ModelStats)
        ensures
            r == ModelStats::none(),
    {
        ModelStats {
            successes: 0,
            failures: 0,
            total_latency_ms: 0,
            total_input_tokens: 0,
            total_output_tokens: 0,
        }
    }
}

/// The row of a scoreboard under a key; nothing observed where there is none.
pub open spec fn stats_in(
    scores: Map<(Seq<char>, Seq<char>), Scores>,
    bucket: PromptBucket,
    model: Seq<char>,
) -> ModelStats {
    ModelStats::of_scores(scores_under(scores, (bucket.name(), model)))
}

/// What the policy reads of each candidate.
pub open spec fn tallies_in(
    scores: Map<(Seq<char>, Seq<char>), Scores>,
    bucket: PromptBucket,
    candidates: Seq<String>,
) -> Seq<Tally> {
    candidates.map_values(|model: String| stats_in(scores, bucket, model@).tally())
}

/// What an outcome adds to the counts of its row.
pub open spec fn outcome_scores(
    success: bool,
    latency_ms: u64,
    input_tokens: u32,
    output_tokens: u32,
) -> Scores {
    (
        if success {
            1
        } else {
            0
        },
        if success {
            0
        } else {
            1
        },
        if latency_ms <= i64::MAX {
            latency_ms as i64
        } else {
            i64::MAX
        },
        input_tokens as i64,
        output_tokens as i64,
    )
}

/// Whether a row is another one with an outcome added to it: one to the count of its
/// kind, and its latency and tokens to the totals. Of sums outside the range of 64-bit
/// integers nothing is said.
pub open spec fn adds_outcome(
    row: Scores,
    success: bool,
    latency_ms: u64,
    input_tokens: u32,
    output_tokens: u32,
    next: Scores,
) -> bool {
    let most: int = i64::MAX as int;
    let took: int = if latency_ms <= most {
        latency_ms as int
    } else {
        most
    };
    0 <= row.0 < most && 0 <= row.1 < most && 0 <= row.2 <= most - took && 0 <= row.3 <= most
        - input_tokens && 0 <= row.4 <= most - output_tokens ==> {
        &&& success ==> next.0 == row.0 + 1 && next.1 == row.1
        &&& !success ==> next.0 == row.0 && next.1 == row.1 + 1
        &&& next.2 == row.2 + took
        &&& next.3 == row.3 + input_tokens
        &&& next.4 == row.4 + output_tokens
    }
}

/// Whether a store after a record is the store before with the counts of one
/// row raised. Of a row whose sums leave the range of 64-bit integers, only
/// that it is there.
pub open spec fn is_record(
    before: Database,
    key: (Seq<char>, Seq<char>),
    delta: Scores,
    now: i64,
    r: Result<(), StateError>,
    after: Database,
) -> bool {
    &&& before.is_exclusive() ==> {
        &&& after.is_exclusive()
        &&& before.has_tables() ==> after.has_tables()
        &&& after.versions() == before.versions()
        &&& after.cache() == before.cache()
        &&& after.facts() == before.facts()
        &&& r is Ok ==> {
            &&& after.scores().remove(key) == before.scores().remove(key)
            &&& after.scores().contains_key(key)
            &&& sums_fit(scores_under(before.scores(), key), delta) ==> after.scores()[key]
                == sums(scores_under(before.scores(), key), delta)
            &&& after.times() == before.times().insert(key, now)
        }
        &&& r is Err ==> after.scores() == before.scores() && after.times() == before.times()
    }
    &&& after.next_tick() == before.next_tick()
    &&& r matches Err(error) ==> error is Sqlite
}

/// What a query for the row of a class and a model gives.
pub type ScoresAnswer = Result<Option<Scores>, rusqlite::Error>;

/// Whether an answer is what the query for the row of a class and a model gave.
pub open(crate) spec fn is_scores_read(
    db: Database,
    bucket: PromptBucket,
    model: Seq<char>,
    answer: ScoresAnswer,
) -> bool {
    exists|name: &str, text: &str|
        {
            &&& #[trigger] call_ensures(fetch_scores, (&db.conn, name, text), answer)
            &&& name@ == bucket.name()
            &&& text@ == model
        }
}

/// Whether statistics are what a query for the row of a class and a model gave.
pub open spec fn is_stats_read(
    db: Database,
    bucket: PromptBucket,
    model: Seq<char>,
    stats: ModelStats,
) -> bool {
    exists|answer: ScoresAnswer| #[trigger]
        is_scores_read(db, bucket, model, answer) && match answer {
            Ok(Some(scores)) => stats == ModelStats::of_scores(scores),
            Ok(None) => stats == ModelStats::none(),
            Err(_) => false,
        }
}

/// Whether a tally is what a query for the row of a class and a model gave, with
/// a number of observations that fits a machine word.
pub open spec fn is_tally_read(
    db: Database,
    bucket: PromptBucket,
    model: Seq<char>,
    tally: Tally,
) -> bool {
    &&& tally.countable()
    &&& exists|stats: ModelStats| #[trigger]
        is_stats_read(db, bucket, model, stats) && stats.tally() == tally
}

/// Whether tallies are those that were read of the candidates, up to the first
/// one with too few observations.
pub open spec fn are_tallies_read(
    db: Database,
    bucket: PromptBucket,
    candidates: Seq<String>,
    min_samples: nat,
    tallies: Seq<Tally>,
) -> bool {
    &&& tallies.len() == candidates.len()
    &&& forall|i: int|
        0 <= i < tallies.len() && is_warm(tallies.take(i), min_samples) ==> is_tally_read(
            db,
            bucket,
            candidates[i]@,
            #[trigger] tallies[i],
        )
    &&& db.is_exclusive() ==> tallies == tallies_in(db.scores(), bucket, candidates)
}

/// Whether a number of observations was read of some candidate that does not fit
/// a machine word.
pub open spec fn is_uncountable_read(
    db: Database,
    bucket: PromptBucket,
    candidates: Seq<String>,
) -> bool {
    exists|i: int, stats: ModelStats|
        {
            &&& 0 <= i < candidates.len()
            &&& #[trigger] is_stats_read(db, bucket, candidates[i]@, stats)
            &&& !stats.tally().countable()
        }
}

/// Whether the query for the row of some candidate failed with an error.
pub open spec fn is_failed_read(
    db: Database,
    bucket: PromptBucket,
    candidates: Seq<String>,
    error: rusqlite::Error,
) -> bool {
    exists|i: int|
        0 <= i < candidates.len() && #[trigger] is_scores_read(
            db,
            bucket,
            candidates[i]@,
            Err(error),
        )
}

/// The scoreboard of a store.
pub struct ScoreboardHandle<'a> {
    pub db: &'a mut Database,
}

impl<'a> ScoreboardHandle<'a> {
    /// The store as it is now.
    pub open spec fn database(self) -> Database {
        *self.db
    }

    /// The row of a class and a model; nothing observed where there is none.
    pub fn stats(&self, bucket: PromptBucket, model: &str) -> (r: Result<ModelStats, StateError>)
        ensures
            match r {
                Ok(stats) => {
                    &&& is_stats_read(self.database(), bucket, model@, stats)
                    &&& self.database().is_exclusive() ==> stats == stats_in(
                        self.database().scores(),
                        bucket,
                        model@,
                    )
                },
                Err(StateError::Sqlite(error)) => is_scores_read(
                    self.database(),
                    bucket,
                    model@,
                    Err(error),
                ),
                Err(_) => false,
            },
    {
        let name: &str = bucket.as_str();
        let answer: ScoresAnswer = fetch_scores(&self.db.conn, name, model);
        let ghost given = answer;
        assert(call_ensures(fetch_scores, (&self.database().conn, name, model), given));
        assert(is_scores_read(self.database(), bucket, model@, given));
        match answer {
            Ok(Some(scores)) => Ok(ModelStats::from_scores(scores)),
            Ok(None) => Ok(ModelStats::default()),
            Err(error) => Err(StateError::from(error)),
        }
    }

    /// Record how a turn went, at a given time.
    pub fn record_outcome_at(
        &mut self,
        bucket: PromptBucket,
        model: &str,
        success: bool,
        latency_ms: u64,
        input_tokens: u32,
        output_tokens: u32,
        now: i64,
    ) -> (r: Result<(), StateError>)
        ensures
            is_record(
                *old(self).db,
                (bucket.name(), model@),
                outcome_scores(success, latency_ms, input_tokens, output_tokens),
                now,
                r,
                *final(self).db,
            ),
            old(self).db.is_exclusive() && r is Ok ==> adds_outcome(
                scores_under(old(self).db.scores(), (bucket.name(), model@)),
                success,
                latency_ms,
                input_tokens,
                output_tokens,
                scores_under(final(self).db.scores(), (bucket.name(), model@)),
            ),
            *final(final(self).db) == *final(old(self).db),
    {
        let (successes, failures): (i64, i64) = if success {
            (1, 0)
        } else {
            (0, 1)
        };
        let latency: i64 = if latency_ms <= i64::MAX as u64 {
            latency_ms as i64
        } else {
            i64::MAX
        };
        let delta: Scores = (
            successes,
            failures,
            latency,
            input_tokens as i64,
            output_tokens as i64,
        );
        match add_scores(&mut self.db.conn, bucket.as_str(), model, delta, now) {
            Ok(_) => Ok(()),
            Err(error) => Err(StateError::from(error)),
        }
    }

    /// Record how a turn went. Routing depends on `success` and the latency;
    /// the tokens are kept for an analysis of cost.
    pub fn record_outcome(
        &mut self,
        bucket: PromptBucket,
        model: &str,
        success: bool,
        latency_ms: u64,
        input_tokens: u32,
        output_tokens: u32,
    ) -> (r: Result<(), StateError>)
        ensures
            exists|time: SystemTime|
                #[trigger] is_reading(time) && is_record(
                    *old(self).db,
                    (bucket.name(), model@),
                    outcome_scores(success, latency_ms, input_tokens, output_tokens),
                    signed_millis(millis_at(time)),
                    r,
                    *final(self).db,
                ),
            old(self).db.is_exclusive() && r is Ok ==> adds_outcome(
                scores_under(old(self).db.scores(), (bucket.name(), model@)),
                success,
                latency_ms,
                input_tokens,
                output_tokens,
                scores_under(final(self).db.scores(), (bucket.name(), model@)),
            ),
            *final(final(self).db) == *final(old(self).db),
    {
        self.record_outcome_at(
            bucket,
            model,
            success,
            latency_ms,
            input_tokens,
            output_tokens,
            now_ms(),
        )
    }

    /// The model for the next turn.
    pub fn select<R: RandomSource>(
        &self,
        bucket: PromptBucket,
        candidates: &[String],
        epsilon: Binary64,
        min_samples: u32,
        rng: &mut R,
    ) -> (r: Result<Selection, StateError>)
        ensures
            candidates@.len() == 0 ==> {
                &&& r matches Err(StateError::InvalidInput(message))
                &&& message@ == "eval-driven router requires at least one candidate model"@
            },
            r matches Ok(selection) ==> exists|tallies: Seq<Tally>|
                {
                    &&& #[trigger] are_tallies_read(
                        self.database(),
                        bucket,
                        candidates@,
                        min_samples as nat,
                        tallies,
                    )
                    &&& is_selection(
                        tallies,
                        candidates@,
                        bucket,
                        epsilon,
                        min_samples as nat,
                        Ties::First,
                        *old(rng),
                        selection,
                        *final(rng),
                    )
                },
            candidates@.len() > 0 ==> (r matches Err(StateError::InvalidInput(message))
                ==> message@ == "router score counts exceed 64 bits"@ && is_uncountable_read(
                self.database(),
                bucket,
                candidates@,
            )),
            r matches Err(StateError::Sqlite(error)) ==> is_failed_read(
                self.database(),
                bucket,
                candidates@,
                error,
            ),
            r matches Err(error) ==> (error is Sqlite || error is InvalidInput) && *final(rng)
                == *old(rng),
            r matches Ok(selection) ==> {
                &&& selection.bucket == bucket
                &&& exists|i: int|
                    0 <= i < candidates@.len() && selection.model@ == (#[trigger] candidates@[i])@
                &&& epsilon.bits == 0 || epsilon.bits > 0x7FF0_0000_0000_0000
                    ==> selection.reason != SelectionReason::Explore && *final(rng) == *old(rng)
            },
            self.database().is_exclusive() && (forall|i: int|
                0 <= i < candidates@.len() ==> counts_up(
                    self.database().scores(),
                    bucket,
                    (#[trigger] candidates@[i])@,
                )) ==> (r matches Ok(selection) ==> (selection.reason
                == SelectionReason::WarmStart) == exists|i: int|
                0 <= i < candidates@.len() && outcomes_on(
                    self.database().scores(),
                    bucket,
                    (#[trigger] candidates@[i])@,
                ) < min_samples),
    {
        if candidates.len() == 0 {
            return Err(
                StateError::InvalidInput(
                    "eval-driven router requires at least one candidate model".to_owned(),
                ),
            );
        }
        let ghost all = tallies_in(self.database().scores(), bucket, candidates@);
        let mut tallies: Vec<Tally> = Vec::new();
        let mut i: usize = 0;
        while i < candidates.len()
            invariant
                i <= candidates@.len(),
                candidates@.len() > 0,
                all == tallies_in(self.database().scores(), bucket, candidates@),
                tallies@.len() == i,
                self.database().is_exclusive() ==> tallies@ =~= all.take(i as int),
                is_warm(tallies@, min_samples as nat),
                *rng == *old(rng),
                forall|j: int| 0 <= j < i ==> (#[trigger] tallies@[j]).countable(),
                forall|j: int|
                    0 <= j < i ==> is_tally_read(
                        self.database(),
                        bucket,
                        candidates@[j]@,
                        #[trigger] tallies@[j],
                    ),
            decreases candidates.len() - i,
        {
            let stats: ModelStats = match self.stats(bucket, candidates[i].as_str()) {
                Ok(stats) => stats,
                Err(error) => {
                    return Err(error);
                },
            };
            let tally: Tally = stats.as_tally();
            assert(self.database().is_exclusive() ==> tally == all[i as int]);
            assert(is_stats_read(self.database(), bucket, candidates@[i as int]@, stats));
            if tally.successes > u64::MAX - tally.failures {
                assert(!stats.tally().countable());
                return Err(
                    StateError::InvalidInput("router score counts exceed 64 bits".to_owned()),
                );
            }
            assert(is_tally_read(self.database(), bucket, candidates@[i as int]@, tally));
            let ghost seen = tallies@;
            tallies.push(tally);
            if tally.samples() < min_samples as u64 {
                let selection: Selection = Selection {
                    model: candidates[i].clone(),
                    bucket,
                    reason: SelectionReason::WarmStart,
                };
                proof {
                    let rest = if self.database().is_exclusive() {
                        all
                    } else {
                        tallies@ + Seq::new(
                            (candidates@.len() - i - 1) as nat,
                            |j: int| tally,
                        )
                    };
                    assert forall|j: int| 0 <= j < i implies rest[j] == seen[j] by {}
                    assert(rest[i as int] == tally);
                    assert forall|j: int| 0 <= j < i implies (#[trigger] rest[j]).observations()
                        >= min_samples by {
                        assert(rest[j] == seen[j]);
                    }
                    assert(is_first_short(rest, min_samples as nat, i as int));
                    assert forall|j: int|
                        0 <= j < rest.len() && is_warm(
                            rest.take(j),
                            min_samples as nat,
                        ) implies is_tally_read(
                        self.database(),
                        bucket,
                        candidates@[j]@,
                        #[trigger] rest[j],
                    ) by {
                        if j > i {
                            assert(rest.take(j)[i as int] == tally);
                        } else if j < i {
                            assert(rest[j] == tallies@[j]);
                        }
                    }
                    assert(are_tallies_read(
                        self.database(),
                        bucket,
                        candidates@,
                        min_samples as nat,
                        rest,
                    ));
                    let zero = Binary64 { bits: 0 };
                    crate::rng::lemma_zero_is_unit_fraction();
                    assert(is_choice(
                        rest,
                        candidates@,
                        bucket,
                        epsilon,
                        min_samples as nat,
                        Ties::First,
                        zero,
                        0,
                        selection,
                    ));
                    lemma_reason_in_the_store(
                        self.database(),
                        candidates@,
                        bucket,
                        epsilon,
                        min_samples as nat,
                        rest,
                        *old(rng),
                        selection,
                        *rng,
                    );
                }
                return Ok(selection);
            }
            i = i + 1;
        }
        assert(all.take(i as int) =~= all);
        assert(are_tallies_read(
            self.database(),
            bucket,
            candidates@,
            min_samples as nat,
            tallies@,
        ));
        let (choice, reason) = draw_and_decide(tallies.as_slice(), epsilon, Ties::First, rng);
        let selection: Selection = Selection { model: candidates[choice].clone(), bucket, reason };
        proof {
            let (draw, index) = choose|draw: Binary64, index: usize|
                {
                    &&& is_unit_fraction(draw)
                    &&& index < tallies@.len()
                    &&& #[trigger] is_drawn(
                        *old(rng),
                        epsilon,
                        tallies@.len() as usize,
                        draw,
                        index,
                        *rng,
                    )
                    &&& is_decision(
                        tallies@,
                        epsilon,
                        Ties::First,
                        draw,
                        index as int,
                        choice as int,
                        reason,
                    )
                };
            assert(is_choice(
                tallies@,
                candidates@,
                bucket,
                epsilon,
                min_samples as nat,
                Ties::First,
                draw,
                index,
                selection,
            ));
            lemma_reason_in_the_store(
                self.database(),
                candidates@,
                bucket,
                epsilon,
                min_samples as nat,
                tallies@,
                *old(rng),
                selection,
                *rng,
            );
        }
        Ok(selection)
    }

    /// Every row, in the order of the names of class and model.
    pub fn snapshot(&self) -> (r: Result<Vec<(PromptBucket, String, ModelStats)>, StateError>)
        ensures
            exists|answer: ListAnswer| #[trigger]
                is_listed(self.database(), answer) && match answer {
                    Ok(list) => r matches Ok(rows) && are_rows_read(list@, rows@),
                    Err(error) => r matches Err(StateError::Sqlite(given)) && given == error,
                },
            self.database().is_exclusive() ==> (r matches Ok(rows) ==> is_snapshot(
                rows@,
                self.database().scores(),
            )),
    {
        let answer: ListAnswer = list_scores(&self.db.conn);
        let ghost given = answer;
        assert(is_listed(self.database(), given));
        match answer {
            Ok(list) => {
                let ghost listed = list@;
                let rows: Vec<(PromptBucket, String, ModelStats)> = read_rows(list);
                proof {
                    if self.database().is_exclusive() {
                        lemma_snapshot(listed, rows@, self.database().scores());
                    }
                }
                Ok(rows)
            },
            Err(error) => Err(StateError::from(error)),
        }
    }
}

/// What a query for every row gives.
pub type ListAnswer = Result<Vec<(String, String, Scores)>, rusqlite::Error>;

/// Whether an answer is what the query for every row gave.
pub open(crate) spec fn is_listed(db: Database, answer: ListAnswer) -> bool {
    call_ensures(list_scores, (&db.conn,), answer)
}

/// Whether a list holds the rows of a table of scores whose class is known,
/// each one once and in the order of the names of class and model.
pub open spec fn is_snapshot(
    rows: Seq<(PromptBucket, String, ModelStats)>,
    scores: Map<(Seq<char>, Seq<char>), Scores>,
) -> bool {
    &&& forall|i: int|
        0 <= i < rows.len() ==> {
            &&& scores.contains_key(((#[trigger] rows[i]).0.name(), rows[i].1@))
            &&& rows[i].2 == ModelStats::of_scores(scores[(rows[i].0.name(), rows[i].1@)])
        }
    &&& forall|i: int, j: int|
        0 <= i < j < rows.len() ==> score_key_before(
            ((#[trigger] rows[i]).0.name(), rows[i].1@),
            ((#[trigger] rows[j]).0.name(), rows[j].1@),
        )
    &&& forall|bucket: PromptBucket, model: Seq<char>|
        #[trigger] scores.contains_key((bucket.name(), model)) ==> exists|i: int|
            0 <= i < rows.len() && (#[trigger] rows[i]).0 == bucket && rows[i].1@ == model
}

/// A row as it is read: its class is known, and its counts are unsigned.
pub open spec fn is_read_row(
    listed: (String, String, Scores),
    row: (PromptBucket, String, ModelStats),
) -> bool {
    &&& row.0.name() == listed.0@
    &&& row.1@ == listed.1@
    &&& row.2 == ModelStats::of_scores(listed.2)
}

/// Whether the name of a class is known.
pub open spec fn is_known(name: Seq<char>) -> bool {
    exists|bucket: PromptBucket| #[trigger] bucket.name() == name
}

/// Holds of the rows whose class is known.
pub open spec fn known_rows() -> spec_fn((String, String, Scores)) -> bool {
    |row: (String, String, Scores)| is_known(row.0@)
}

/// Whether rows are those of a list whose class is known, in its order.
pub open spec fn are_rows_read(
    list: Seq<(String, String, Scores)>,
    rows: Seq<(PromptBucket, String, ModelStats)>,
) -> bool {
    &&& rows.len() == list.filter(known_rows()).len()
    &&& forall|i: int|
        0 <= i < rows.len() ==> is_read_row(list.filter(known_rows())[i], #[trigger] rows[i])
}

/// The rows that a list gives: those whose class is known, in its order.
pub fn read_rows(list: Vec<(String, String, Scores)>) -> (r: Vec<
    (PromptBucket, String, ModelStats),
>)
    ensures
        are_rows_read(list@, r@),
{
    let mut r: Vec<(PromptBucket, String, ModelStats)> = Vec::new();
    let mut n: usize = 0;
    proof {
        reveal(Seq::filter);
        assert(list@.take(0) =~= Seq::empty());
    }
    while n < list.len()
        invariant
            n <= list@.len(),
            are_rows_read(list@.take(n as int), r@),
        decreases list.len() - n,
    {
        let row: &(String, String, Scores) = &list[n];
        proof {
            let more = list@.take(n + 1);
            assert(more.drop_last() =~= list@.take(n as int));
            assert(more.last() == list@[n as int]);
            reveal(Seq::filter);
        }
        match PromptBucket::parse(row.0.as_str()) {
            Some(bucket) => {
                assert(is_known(row.0@));
                r.push((bucket, row.1.clone(), ModelStats::from_scores(row.2)));
            },
            None => {
                assert(!is_known(row.0@));
            },
        }
        n = n + 1;
    }
    assert(list@.take(n as int) =~= list@);
    r
}

/// The places in a sequence of what a filter keeps of it.
proof fn lemma_filter_places<A>(s: Seq<A>, keep: spec_fn(A) -> bool) -> (places: Seq<int>)
    ensures
        places.len() == s.filter(keep).len(),
        forall|i: int|
            0 <= i < places.len() ==> 0 <= #[trigger] places[i] < s.len() && s[places[i]]
                == s.filter(keep)[i] && keep(s[places[i]]),
        forall|i: int, j: int|
            0 <= i < j < places.len() ==> #[trigger] places[i] < #[trigger] places[j],
        forall|k: int| 0 <= k < s.len() && keep(#[trigger] s[k]) ==> places.contains(k),
    decreases s.len(),
{
    reveal(Seq::filter);
    if s.len() == 0 {
        Seq::empty()
    } else {
        let n = s.len() - 1;
        let before = lemma_filter_places(s.drop_last(), keep);
        if keep(s.last()) {
            let places = before.push(n);
            assert forall|k: int| 0 <= k < s.len() && keep(
                #[trigger] s[k],
            ) implies places.contains(k) by {
                if k < n {
                    assert(s.drop_last()[k] == s[k]);
                    let i = choose|i: int| 0 <= i < before.len() && before[i] == k;
                    assert(places[i] == k);
                } else {
                    assert(places[before.len() as int] == k);
                }
            }
            places
        } else {
            assert forall|k: int| 0 <= k < s.len() && keep(
                #[trigger] s[k],
            ) implies before.contains(k) by {
                assert(s.drop_last()[k] == s[k]);
            }
            before
        }
    }
}

/// The rows that are read of a list of all rows are a snapshot.
proof fn lemma_snapshot(
    list: Seq<(String, String, Scores)>,
    rows: Seq<(PromptBucket, String, ModelStats)>,
    scores: Map<(Seq<char>, Seq<char>), Scores>,
)
    requires
        is_score_list(list, scores),
        are_rows_read(list, rows),
    ensures
        is_snapshot(rows, scores),
{
    let places = lemma_filter_places(list, known_rows());
    assert forall|i: int| 0 <= i < rows.len() implies {
        &&& scores.contains_key(((#[trigger] rows[i]).0.name(), rows[i].1@))
        &&& rows[i].2 == ModelStats::of_scores(scores[(rows[i].0.name(), rows[i].1@)])
    } by {
        assert(is_read_row(list[places[i]], rows[i]));
    }
    assert forall|i: int, j: int| 0 <= i < j < rows.len() implies score_key_before(
        ((#[trigger] rows[i]).0.name(), rows[i].1@),
        ((#[trigger] rows[j]).0.name(), rows[j].1@),
    ) by {
        assert(places[i] < places[j]);
        assert(is_read_row(list[places[i]], rows[i]));
        assert(is_read_row(list[places[j]], rows[j]));
    }
    assert forall|bucket: PromptBucket, model: Seq<char>| #[trigger]
        scores.contains_key((bucket.name(), model)) implies exists|i: int|
        0 <= i < rows.len() && (#[trigger] rows[i]).0 == bucket && rows[i].1@ == model by {
        let key = (bucket.name(), model);
        let k = choose|k: int|
            0 <= k < list.len() && ((#[trigger] list[k]).0@, list[k].1@) == key;
        assert(is_known(list[k].0@));
        assert(known_rows()(list[k]));
        let i = choose|i: int| 0 <= i < places.len() && places[i] == k;
        assert(is_read_row(list[places[i]], rows[i]));
        crate::routing::lemma_bucket_names_differ(rows[i].0, bucket);
    }
}

/// Recording a success raises the successes of its row by one, and recording a
/// failure the failures; the latency and the tokens are summed up.
pub proof fn lemma_record_counts(
    before: Database,
    after: Database,
    bucket: PromptBucket,
    model: Seq<char>,
    success: bool,
    latency_ms: u64,
    input_tokens: u32,
    output_tokens: u32,
    now: i64,
)
    requires
        before.is_exclusive(),
        is_record(
            before,
            (bucket.name(), model),
            outcome_scores(success, latency_ms, input_tokens, output_tokens),
            now,
            Ok(()),
            after,
        ),
        ({
            let row = scores_under(before.scores(), (bucket.name(), model));
            &&& row.0 >= 0 && row.1 >= 0 && row.2 >= 0 && row.3 >= 0 && row.4 >= 0
            &&& row.2 + latency_ms <= i64::MAX
            &&& sums_fit(row, outcome_scores(success, latency_ms, input_tokens, output_tokens))
        }),
    ensures
        ({
            let old_row = stats_in(before.scores(), bucket, model);
            let new_row = stats_in(after.scores(), bucket, model);
            &&& new_row.successes == old_row.successes + (if success {
                1int
            } else {
                0
            })
            &&& new_row.failures == old_row.failures + (if success {
                0int
            } else {
                1
            })
            &&& new_row.total_latency_ms == old_row.total_latency_ms + latency_ms
            &&& new_row.total_input_tokens == old_row.total_input_tokens + input_tokens
            &&& new_row.total_output_tokens == old_row.total_output_tokens + output_tokens
        }),
{
}

/// Recording an outcome changes the row of its class and model only.
pub proof fn lemma_record_elsewhere(
    before: Database,
    after: Database,
    key: (Seq<char>, Seq<char>),
    delta: Scores,
    now: i64,
    bucket: PromptBucket,
    model: Seq<char>,
)
    requires
        before.is_exclusive(),
        is_record(before, key, delta, now, Ok(()), after),
        (bucket.name(), model) != key,
    ensures
        stats_in(after.scores(), bucket, model) == stats_in(before.scores(), bucket, model),
{
    let other = (bucket.name(), model);
    assert(after.scores().remove(key).contains_key(other) == after.scores().contains_key(other));
    assert(before.scores().remove(key).contains_key(other) == before.scores().contains_key(
        other,
    ));
    if after.scores().contains_key(other) {
        assert(after.scores().remove(key)[other] == after.scores()[other]);
        assert(before.scores().remove(key)[other] == before.scores()[other]);
    }
}

/// Nothing is observed of a model without a row, and of one with a row whose counts
/// are not negative, what the row says.
pub proof fn lemma_stats_of_a_row(
    scores: Map<(Seq<char>, Seq<char>), Scores>,
    bucket: PromptBucket,
    model: Seq<char>,
)
    ensures
        !scores.contains_key((bucket.name(), model)) ==> stats_in(scores, bucket, model) == (
        ModelStats {
            successes: 0,
            failures: 0,
            total_latency_ms: 0,
            total_input_tokens: 0,
            total_output_tokens: 0,
        }),
        scores.contains_key((bucket.name(), model)) ==> {
            let row = scores[(bucket.name(), model)];
            let stats = stats_in(scores, bucket, model);
            &&& row.0 >= 0 ==> stats.successes == row.0
            &&& row.1 >= 0 ==> stats.failures == row.1
            &&& row.2 >= 0 ==> stats.total_latency_ms == row.2
            &&& row.3 >= 0 ==> stats.total_input_tokens == row.3
            &&& row.4 >= 0 ==> stats.total_output_tokens == row.4
        },
        stats_in(scores, bucket, model).tally().successes == stats_in(
            scores,
            bucket,
            model,
        ).successes,
        stats_in(scores, bucket, model).tally().failures == stats_in(
            scores,
            bucket,
            model,
        ).failures,
        stats_in(scores, bucket, model).tally().total_latency_ms == stats_in(
            scores,
            bucket,
            model,
        ).total_latency_ms,
{
}

/// Recording an outcome adds to the one row of its class and model: one to the count
/// of its kind, whatever it took, and its latency and tokens to the totals. It notes
/// the time, and changes nothing else in the store.
pub proof fn lemma_record_adds_the_outcome(
    before: Database,
    after: Database,
    bucket: PromptBucket,
    model: Seq<char>,
    success: bool,
    latency_ms: u64,
    input_tokens: u32,
    output_tokens: u32,
    now: i64,
)
    requires
        before.is_exclusive(),
        is_record(
            before,
            (bucket.name(), model),
            outcome_scores(success, latency_ms, input_tokens, output_tokens),
            now,
            Ok(()),
            after,
        ),
    ensures
        ({
            let key = (bucket.name(), model);
            let old_row: Scores = if before.scores().contains_key(key) {
                before.scores()[key]
            } else {
                (0, 0, 0, 0, 0)
            };
            let new_row = after.scores()[key];
            let took: int = if latency_ms <= 0x7FFF_FFFF_FFFF_FFFF {
                latency_ms as int
            } else {
                0x7FFF_FFFF_FFFF_FFFF
            };
            let most: int = 0x7FFF_FFFF_FFFF_FFFF;
            &&& after.scores().contains_key(key)
            &&& after.times().contains_key(key) && after.times()[key] == now
            &&& 0 <= old_row.0 < most && 0 <= old_row.1 < most && 0 <= old_row.2 <= most - took && 0
                <= old_row.3 <= most - input_tokens && 0 <= old_row.4 <= most - output_tokens ==> {
                &&& success ==> new_row.0 == old_row.0 + 1 && new_row.1 == old_row.1
                &&& !success ==> new_row.0 == old_row.0 && new_row.1 == old_row.1 + 1
                &&& new_row.2 == old_row.2 + took
                &&& new_row.3 == old_row.3 + input_tokens
                &&& new_row.4 == old_row.4 + output_tokens
            }
            &&& after.scores().remove(key) == before.scores().remove(key)
            &&& after.cache() == before.cache()
            &&& after.facts() == before.facts()
            &&& after.versions() == before.versions()
        }),
{
}

/// A snapshot holds the statistics of every class and model that has a row, and those
/// only.
pub proof fn lemma_snapshot_agrees_with_stats(
    rows: Seq<(PromptBucket, String, ModelStats)>,
    scores: Map<(Seq<char>, Seq<char>), Scores>,
    bucket: PromptBucket,
    model: Seq<char>,
)
    requires
        is_snapshot(rows, scores),
    ensures
        scores.contains_key((bucket.name(), model)) <==> exists|i: int|
            0 <= i < rows.len() && (#[trigger] rows[i]).0 == bucket && rows[i].1@ == model,
        forall|i: int|
            0 <= i < rows.len() ==> (#[trigger] rows[i]).2 == stats_in(
                scores,
                rows[i].0,
                rows[i].1@,
            ),
        forall|i: int, j: int|
            0 <= i < j < rows.len() ==> (#[trigger] rows[i]).0 != (#[trigger] rows[j]).0
                || rows[i].1@ != rows[j].1@,
{
    assert forall|i: int, j: int| 0 <= i < j < rows.len() implies (#[trigger] rows[i]).0 != (
    #[trigger] rows[j]).0 || rows[i].1@ != rows[j].1@ by {
        assert(score_key_before(
            (rows[i].0.name(), rows[i].1@),
            (rows[j].0.name(), rows[j].1@),
        ));
        if rows[i].0 == rows[j].0 && rows[i].1@ == rows[j].1@ {
            if crate::text::text_before(rows[i].1@, rows[j].1@) {
                crate::text::lemma_text_before_asymmetric(rows[i].1@, rows[j].1@);
            } else {
                crate::text::lemma_text_before_asymmetric(rows[i].0.name(), rows[j].0.name());
            }
        }
    }
}

/// The number of outcomes that a table of scores holds of a class and a model.
pub open spec fn outcomes_on(
    scores: Map<(Seq<char>, Seq<char>), Scores>,
    bucket: PromptBucket,
    model: Seq<char>,
) -> int {
    if scores.contains_key((bucket.name(), model)) {
        scores[(bucket.name(), model)].0 + scores[(bucket.name(), model)].1
    } else {
        0
    }
}

/// Whether the counts that a table of scores holds of a class and a model are none or
/// not negative.
pub open spec fn counts_up(
    scores: Map<(Seq<char>, Seq<char>), Scores>,
    bucket: PromptBucket,
    model: Seq<char>,
) -> bool {
    scores.contains_key((bucket.name(), model)) ==> {
        let row = scores[(bucket.name(), model)];
        row.0 >= 0 && row.1 >= 0 && row.2 >= 0
    }
}

/// A model of which the store holds too few outcomes is selected before anything is
/// drawn, the first such one of the candidates.
pub proof fn lemma_select_warms_up<R: RandomSource>(
    db: Database,
    candidates: Seq<String>,
    bucket: PromptBucket,
    epsilon: Binary64,
    min_samples: nat,
    tallies: Seq<Tally>,
    before: R,
    selection: Selection,
    after: R,
    first: int,
)
    requires
        db.is_exclusive(),
        are_tallies_read(db, bucket, candidates, min_samples, tallies),
        is_selection(
            tallies,
            candidates,
            bucket,
            epsilon,
            min_samples,
            Ties::First,
            before,
            selection,
            after,
        ),
        0 <= first < candidates.len(),
        forall|i: int|
            0 <= i < candidates.len() ==> counts_up(
                db.scores(),
                bucket,
                (#[trigger] candidates[i])@,
            ),
        outcomes_on(db.scores(), bucket, candidates[first]@) < min_samples,
        forall|i: int|
            0 <= i < first ==> outcomes_on(db.scores(), bucket, (#[trigger] candidates[i])@)
                >= min_samples,
    ensures
        selection.model@ == candidates[first]@,
        selection.bucket == bucket,
        selection.reason == SelectionReason::WarmStart,
        after == before,
{
    let (draw, index) = choose|d: Binary64, i: usize|
        {
            &&& is_unit_fraction(d)
            &&& i < candidates.len()
            &&& #[trigger] is_choice(
                tallies,
                candidates,
                bucket,
                epsilon,
                min_samples,
                Ties::First,
                d,
                i,
                selection,
            )
            &&& if is_warm(tallies, min_samples) {
                is_drawn(before, epsilon, candidates.len() as usize, d, i, after)
            } else {
                before == after
            }
        };
    assert(counts_up(db.scores(), bucket, candidates[first]@));
    assert(tallies[first].observations() == outcomes_on(db.scores(), bucket, candidates[first]@));
    assert forall|i: int| 0 <= i < first implies (#[trigger] tallies[i]).successes
        + tallies[i].failures >= min_samples by {
        assert(counts_up(db.scores(), bucket, candidates[i]@));
        assert(outcomes_on(db.scores(), bucket, candidates[i]@) >= min_samples);
    }
    crate::routing::lemma_warm_start_takes_the_first_short(
        tallies,
        candidates,
        bucket,
        epsilon,
        min_samples,
        Ties::First,
        draw,
        index,
        selection,
        first,
    );
}

/// Past warm start, a selection explores if, and only if, the value that the source
/// drew lies below epsilon, and then it is the candidate at the index drawn.
pub proof fn lemma_select_explores<R: RandomSource>(
    db: Database,
    candidates: Seq<String>,
    bucket: PromptBucket,
    epsilon: Binary64,
    min_samples: nat,
    tallies: Seq<Tally>,
    before: R,
    selection: Selection,
    after: R,
) -> (drawn: (Binary64, R, usize))
    requires
        db.is_exclusive(),
        are_tallies_read(db, bucket, candidates, min_samples, tallies),
        is_selection(
            tallies,
            candidates,
            bucket,
            epsilon,
            min_samples,
            Ties::First,
            before,
            selection,
            after,
        ),
        forall|i: int|
            0 <= i < candidates.len() ==> counts_up(
                db.scores(),
                bucket,
                (#[trigger] candidates[i])@,
            ) && outcomes_on(db.scores(), bucket, candidates[i]@) >= min_samples,
        0 < epsilon.bits <= 0x7FF0_0000_0000_0000,
    ensures
        ({
            let (draw, middle, index) = drawn;
            &&& R::unit_draw(before, draw, middle)
            &&& draw.bits < 0x7FF0_0000_0000_0000
            &&& draw.units() < crate::binary64::unit()
            &&& index < candidates.len()
            &&& if draw.units() < epsilon.units() {
                &&& R::bounded_draw(middle, candidates.len() as usize, index, after)
                &&& selection.reason == SelectionReason::Explore
                &&& selection.model@ == candidates[index as int]@
            } else {
                &&& middle == after
                &&& selection.reason == SelectionReason::Exploit
            }
        }),
{
    let drawn = crate::routing::lemma_source_is_asked_as_needed(
        tallies,
        candidates,
        bucket,
        epsilon,
        min_samples,
        Ties::First,
        before,
        selection,
        after,
    );
    assert forall|i: int| 0 <= i < tallies.len() implies (#[trigger] tallies[i]).observations()
        >= min_samples by {
        assert(counts_up(db.scores(), bucket, candidates[i]@));
    }
    assert(crate::binary64::magnitude(0) == 0);
    crate::binary64::lemma_magnitude_increases(0, epsilon.bits as nat);
    drawn
}

/// A selection that exploits is the candidate with the largest ratio of
/// `successes + 1` to `outcomes + 2` in the store, of those that share it one with the
/// lowest average latency, and of those that share both the first, for up to 2^24
/// outcomes each.
pub proof fn lemma_select_exploits<R: RandomSource>(
    db: Database,
    candidates: Seq<String>,
    bucket: PromptBucket,
    epsilon: Binary64,
    min_samples: nat,
    tallies: Seq<Tally>,
    before: R,
    selection: Selection,
    after: R,
) -> (best: int)
    requires
        db.is_exclusive(),
        are_tallies_read(db, bucket, candidates, min_samples, tallies),
        is_selection(
            tallies,
            candidates,
            bucket,
            epsilon,
            min_samples,
            Ties::First,
            before,
            selection,
            after,
        ),
        selection.reason == SelectionReason::Exploit,
        forall|i: int|
            0 <= i < candidates.len() ==> db.scores().contains_key(
                (bucket.name(), (#[trigger] candidates[i])@),
            ) && counts_up(db.scores(), bucket, candidates[i]@) && outcomes_on(
                db.scores(),
                bucket,
                candidates[i]@,
            ) + 2 <= 0x100_0000,
    ensures
        0 <= best < candidates.len(),
        selection.model@ == candidates[best]@,
        forall|i: int|
            #![trigger candidates[i]]
            0 <= i < candidates.len() ==> {
                let a = db.scores()[(bucket.name(), candidates[best]@)];
                let b = db.scores()[(bucket.name(), candidates[i]@)];
                let m = a.0 + a.1;
                let n = b.0 + b.1;
                &&& (b.0 + 1) * (m + 2) <= (a.0 + 1) * (n + 2)
                &&& (b.0 + 1) * (m + 2) == (a.0 + 1) * (n + 2) && m > 0 && n > 0 ==> a.2 as int / m
                    <= b.2 as int / n
                &&& (b.0 + 1) * (m + 2) == (a.0 + 1) * (n + 2) && m > 0 && n > 0 && a.2 as int / m
                    == b.2 as int / n ==> best <= i
            },
{
    let (draw, index) = choose|d: Binary64, i: usize|
        {
            &&& is_unit_fraction(d)
            &&& i < candidates.len()
            &&& #[trigger] is_choice(
                tallies,
                candidates,
                bucket,
                epsilon,
                min_samples,
                Ties::First,
                d,
                i,
                selection,
            )
            &&& if is_warm(tallies, min_samples) {
                is_drawn(before, epsilon, candidates.len() as usize, d, i, after)
            } else {
                before == after
            }
        };
    assert forall|i: int| 0 <= i < tallies.len() implies (#[trigger] tallies[i]).successes
        + tallies[i].failures <= u64::MAX by {
        assert(counts_up(db.scores(), bucket, candidates[i]@));
    }
    let best = crate::routing::lemma_exploit_takes_the_highest_rate(
        tallies,
        candidates,
        bucket,
        epsilon,
        min_samples,
        Ties::First,
        draw,
        index,
        selection,
    );
    assert(counts_up(db.scores(), bucket, candidates[best]@));
    assert forall|i: int|
        #![trigger candidates[i]]
        0 <= i < candidates.len() implies {
        let a = db.scores()[(bucket.name(), candidates[best]@)];
        let b = db.scores()[(bucket.name(), candidates[i]@)];
        let m = a.0 + a.1;
        let n = b.0 + b.1;
        &&& (b.0 + 1) * (m + 2) <= (a.0 + 1) * (n + 2)
        &&& (b.0 + 1) * (m + 2) == (a.0 + 1) * (n + 2) && m > 0 && n > 0 ==> a.2 as int / m
            <= b.2 as int / n
        &&& (b.0 + 1) * (m + 2) == (a.0 + 1) * (n + 2) && m > 0 && n > 0 && a.2 as int / m == b.2
            as int / n ==> best <= i
    } by {
        assert(counts_up(db.scores(), bucket, candidates[i]@));
        crate::routing::lemma_rates_follow_ratios(tallies[best], tallies[i]);
        assert(tallies[i].rate().units() <= tallies[best].rate().units());
    }
    best
}

/// A candidate is selected for a warm start if, and only if, the store holds too few
/// outcomes of some candidate. Without a positive epsilon nothing is explored, and the
/// source is not asked.
pub proof fn lemma_reason_in_the_store<R: RandomSource>(
    db: Database,
    candidates: Seq<String>,
    bucket: PromptBucket,
    epsilon: Binary64,
    min_samples: nat,
    tallies: Seq<Tally>,
    before: R,
    selection: Selection,
    after: R,
)
    requires
        are_tallies_read(db, bucket, candidates, min_samples, tallies),
        is_selection(
            tallies,
            candidates,
            bucket,
            epsilon,
            min_samples,
            Ties::First,
            before,
            selection,
            after,
        ),
    ensures
        selection.bucket == bucket,
        exists|i: int| 0 <= i < candidates.len() && selection.model@ == (#[trigger] candidates[i])@,
        epsilon.bits == 0 || epsilon.bits > 0x7FF0_0000_0000_0000 ==> selection.reason
            != SelectionReason::Explore && after == before,
        db.is_exclusive() && (forall|i: int|
            0 <= i < candidates.len() ==> counts_up(
                db.scores(),
                bucket,
                (#[trigger] candidates[i])@,
            )) ==> (selection.reason == SelectionReason::WarmStart) == exists|i: int|
            0 <= i < candidates.len() && outcomes_on(
                db.scores(),
                bucket,
                (#[trigger] candidates[i])@,
            ) < min_samples,
{
    crate::routing::lemma_reason_of_a_selection(
        tallies,
        candidates,
        bucket,
        epsilon,
        min_samples,
        Ties::First,
        before,
        selection,
        after,
    );
    if db.is_exclusive() && (forall|i: int|
        0 <= i < candidates.len() ==> counts_up(
            db.scores(),
            bucket,
            (#[trigger] candidates[i])@,
        )) {
        assert forall|i: int| 0 <= i < candidates.len() implies outcomes_on(
            db.scores(),
            bucket,
            (#[trigger] candidates[i])@,
        ) == tallies[i].successes + tallies[i].failures by {
            assert(counts_up(db.scores(), bucket, candidates[i]@));
        }
        if selection.reason == SelectionReason::WarmStart {
            let i = choose|i: int|
                0 <= i < tallies.len() && (#[trigger] tallies[i]).successes + tallies[i].failures
                    < min_samples;
            assert(outcomes_on(db.scores(), bucket, candidates[i]@) < min_samples);
        }
    }
}

} // verus!
