use claw_state::binary64::Binary64;
use claw_state::error::StateError;
use claw_state::rng::DefaultRng;
use claw_state::rng::RandomSource;
use claw_state::routing::best;
use claw_state::routing::decide;
use claw_state::routing::PromptBucket;
use claw_state::routing::SelectionReason;
use claw_state::routing::Tally;
use claw_state::routing::Ties;
use claw_state::scoreboard::read_rows;
use claw_state::scoreboard::ModelStats;
use claw_state::store::StateStore;

fn number(value: f64) -> Binary64 {
    Binary64::from_bits(value.to_bits())
}

fn float(value: Binary64) -> f64 {
    f64::from_bits(value.bits)
}

struct SequenceRng {
    floats: Vec<f64>,
    bounded: Vec<usize>,
    float_cursor: usize,
    bounded_cursor: usize,
}

impl SequenceRng {
    fn new(floats: Vec<f64>, bounded: Vec<usize>) -> Self {
        Self {
            floats,
            bounded,
            float_cursor: 0,
            bounded_cursor: 0,
        }
    }
}

impl RandomSource for SequenceRng {
    fn next_unit_float(&mut self) -> Binary64 {
        let value = self.floats[self.float_cursor];
        self.float_cursor += 1;
        number(value)
    }

    fn next_bounded(&mut self, _upper: usize) -> usize {
        let value = self.bounded[self.bounded_cursor];
        self.bounded_cursor += 1;
        value
    }
}

fn candidates() -> Vec<String> {
    vec![
        "haiku-4-5".to_string(),
        "sonnet-4-6".to_string(),
        "opus-4-6".to_string(),
    ]
}

#[test]
fn scoreboard_prompt_bucket_thresholds_match_expected_ranges() {
    assert_eq!(PromptBucket::from_prompt_chars(0), PromptBucket::Short);
    assert_eq!(PromptBucket::from_prompt_chars(511), PromptBucket::Short);
    assert_eq!(PromptBucket::from_prompt_chars(512), PromptBucket::Medium);
    assert_eq!(PromptBucket::from_prompt_chars(5_999), PromptBucket::Medium);
    assert_eq!(PromptBucket::from_prompt_chars(6_000), PromptBucket::Long);
}

#[test]
fn select_warm_starts_each_candidate_before_exploiting() {
    let mut store = StateStore::in_memory().expect("store");
    let board = store.scoreboard();
    let mut rng = SequenceRng::new(vec![], vec![]);
    let pick = board
        .select(PromptBucket::Short, &candidates(), number(0.1), 3, &mut rng)
        .expect("select");
    assert_eq!(pick.reason, SelectionReason::WarmStart);
    assert_eq!(pick.model, candidates()[0]);
}

#[test]
fn scoreboard_select_errors_when_no_candidates() {
    let mut store = StateStore::in_memory().expect("store");
    let board = store.scoreboard();
    let mut rng = SequenceRng::new(vec![], vec![]);
    let error = board
        .select(PromptBucket::Short, &[], number(0.1), 3, &mut rng)
        .expect_err("empty candidates must error");
    assert!(error.message().contains("at least one candidate"));
}

#[test]
fn scoreboard_select_exploits_model_with_highest_success_rate_once_warm() {
    let mut store = StateStore::in_memory().expect("store");
    let mut board = store.scoreboard();
    for _ in 0..5 {
        board
            .record_outcome(PromptBucket::Short, "haiku-4-5", true, 100, 10, 5)
            .unwrap();
        board
            .record_outcome(PromptBucket::Short, "sonnet-4-6", false, 200, 10, 5)
            .unwrap();
        board
            .record_outcome(PromptBucket::Short, "opus-4-6", false, 400, 10, 5)
            .unwrap();
    }
    let mut rng = SequenceRng::new(vec![0.99], vec![]);
    let pick = board
        .select(PromptBucket::Short, &candidates(), number(0.0), 5, &mut rng)
        .expect("select");
    assert_eq!(pick.model, "haiku-4-5");
    assert_eq!(pick.reason, SelectionReason::Exploit);
}

#[test]
fn scoreboard_select_explores_when_rng_rolls_below_epsilon() {
    let mut store = StateStore::in_memory().expect("store");
    let mut board = store.scoreboard();
    for _ in 0..5 {
        for candidate in candidates() {
            board
                .record_outcome(PromptBucket::Medium, &candidate, true, 100, 10, 5)
                .unwrap();
        }
    }
    let mut rng = SequenceRng::new(vec![0.05], vec![2]);
    let pick = board
        .select(PromptBucket::Medium, &candidates(), number(0.5), 5, &mut rng)
        .expect("select");
    assert_eq!(pick.reason, SelectionReason::Explore);
    assert_eq!(pick.model, candidates()[2]);
}

#[test]
fn record_outcome_accumulates_counts_and_totals() {
    let mut store = StateStore::in_memory().expect("store");
    let mut board = store.scoreboard();
    board
        .record_outcome(PromptBucket::Long, "opus-4-6", true, 800, 2000, 300)
        .unwrap();
    board
        .record_outcome(
            PromptBucket::Long,
            "opus-4-6",
            false,
            1200,
            2500,
            100,
        )
        .unwrap();
    let stats = board
        .stats(PromptBucket::Long, "opus-4-6")
        .expect("stats");
    assert_eq!(stats.successes, 1);
    assert_eq!(stats.failures, 1);
    assert_eq!(stats.total_latency_ms, 2000);
    assert_eq!(stats.total_input_tokens, 4500);
    assert_eq!(stats.total_output_tokens, 400);
    assert_eq!(stats.average_latency_ms(), 1000);
}

#[test]
fn snapshot_returns_all_recorded_rows() {
    let mut store = StateStore::in_memory().expect("store");
    let mut board = store.scoreboard();
    board
        .record_outcome(PromptBucket::Short, "haiku-4-5", true, 50, 10, 5)
        .unwrap();
    board
        .record_outcome(PromptBucket::Long, "opus-4-6", false, 900, 100, 20)
        .unwrap();
    let rows = board.snapshot().expect("snapshot");
    assert_eq!(rows.len(), 2);
    assert!(rows
        .iter()
        .any(|(bucket, model, _)| *bucket == PromptBucket::Short && model == "haiku-4-5"));
    assert!(rows
        .iter()
        .any(|(bucket, model, _)| *bucket == PromptBucket::Long && model == "opus-4-6"));
}

#[test]
fn scoreboard_model_stats_success_rate_is_laplace_smoothed() {
    let empty = ModelStats::default();
    assert!((float(empty.success_rate()) - 0.5).abs() < 1e-9);

    let nine_of_ten = ModelStats {
        successes: 9,
        failures: 1,
        ..Default::default()
    };
    assert!((float(nine_of_ten.success_rate()) - (10.0 / 12.0)).abs() < 1e-9);
}

#[test]
fn a_snapshot_is_ordered_by_the_names_of_class_and_model() {
    let mut store = StateStore::in_memory().expect("store");
    let mut board = store.scoreboard();
    for (bucket, model) in [
        (PromptBucket::Short, "b"),
        (PromptBucket::Medium, "z"),
        (PromptBucket::Long, "y"),
        (PromptBucket::Short, "a"),
        (PromptBucket::Short, "B"),
    ] {
        board
            .record_outcome_at(bucket, model, true, 7, 3, 2, 1_000)
            .unwrap();
    }
    let rows = board.snapshot().expect("snapshot");
    let keys: Vec<(PromptBucket, &str)> = rows
        .iter()
        .map(|(bucket, model, _)| (*bucket, model.as_str()))
        .collect();
    assert_eq!(
        keys,
        vec![
            (PromptBucket::Long, "y"),
            (PromptBucket::Medium, "z"),
            (PromptBucket::Short, "B"),
            (PromptBucket::Short, "a"),
            (PromptBucket::Short, "b"),
        ]
    );
    assert_eq!(
        rows[0].2,
        ModelStats {
            successes: 1,
            failures: 0,
            total_latency_ms: 7,
            total_input_tokens: 3,
            total_output_tokens: 2,
        }
    );
}

#[test]
fn rows_of_unknown_classes_are_left_out() {
    let shared = "file:scores_unknown?mode=memory&cache=shared";
    let keeper = rusqlite::Connection::open(shared).unwrap();
    let mut store =
        StateStore::from_connection(rusqlite::Connection::open(shared).unwrap(), "", 0).unwrap();
    keeper
        .execute(
            "INSERT INTO router_scores(bucket, model, successes, updated_at_ms)
             VALUES ('huge', 'm', 3, 0), ('short', 'm', 4, 0)",
            [],
        )
        .unwrap();
    let rows = store.scoreboard().snapshot().unwrap();
    assert_eq!(rows.len(), 1);
    assert_eq!(rows[0].0, PromptBucket::Short);
    assert_eq!(rows[0].2.successes, 4);
    let read = read_rows(vec![
        ("tiny".to_string(), "a".to_string(), (1, 2, 3, 4, 5)),
        ("long".to_string(), "b".to_string(), (6, 7, 8, 9, 10)),
    ]);
    assert_eq!(
        read,
        vec![(
            PromptBucket::Long,
            "b".to_string(),
            ModelStats {
                successes: 6,
                failures: 7,
                total_latency_ms: 8,
                total_input_tokens: 9,
                total_output_tokens: 10,
            }
        )]
    );
}

#[test]
fn counts_that_cannot_be_summed_are_refused() {
    let shared = "file:scores_negative?mode=memory&cache=shared";
    let keeper = rusqlite::Connection::open(shared).unwrap();
    let mut store =
        StateStore::from_connection(rusqlite::Connection::open(shared).unwrap(), "", 0).unwrap();
    keeper
        .execute(
            "INSERT INTO router_scores(bucket, model, successes, failures, updated_at_ms)
             VALUES ('short', 'm', -1, -1, 0)",
            [],
        )
        .unwrap();
    let mut rng = DefaultRng::from_seed(1);
    let refused = store.scoreboard().select(
        PromptBucket::Short,
        &["m".to_string()],
        number(0.0),
        1,
        &mut rng,
    );
    assert!(matches!(refused, Err(StateError::InvalidInput(_))));
    assert_eq!(
        refused.expect_err("refused").message(),
        "state invalid input: router score counts exceed 64 bits"
    );
}

#[test]
fn a_sum_outside_the_integers_cannot_be_read_again() {
    let mut store = StateStore::in_memory().expect("store");
    let mut board = store.scoreboard();
    for _ in 0..2 {
        board
            .record_outcome(PromptBucket::Short, "m", true, u64::MAX, 0, 0)
            .unwrap();
    }
    board
        .record_outcome(PromptBucket::Short, "other", true, u64::MAX, 0, 0)
        .unwrap();
    assert!(matches!(
        board.stats(PromptBucket::Short, "m"),
        Err(StateError::Sqlite(_))
    ));
    let other = board.stats(PromptBucket::Short, "other").unwrap();
    assert_eq!(other.total_latency_ms, i64::MAX as u64);
}

#[test]
fn a_row_that_is_not_there_reads_as_nothing_observed() {
    let mut store = StateStore::in_memory().expect("store");
    let board = store.scoreboard();
    assert_eq!(
        board.stats(PromptBucket::Medium, "m").unwrap(),
        ModelStats::default()
    );
    assert_eq!(ModelStats::default().average_latency_ms(), 0);
    assert_eq!(ModelStats::default().samples(), 0);
}

#[test]
fn the_first_of_equal_candidates_is_exploited() {
    let mut store = StateStore::in_memory().expect("store");
    let mut board = store.scoreboard();
    for candidate in candidates() {
        board
            .record_outcome(PromptBucket::Short, &candidate, true, 100, 1, 1)
            .unwrap();
    }
    let mut rng = SequenceRng::new(vec![], vec![]);
    let pick = board
        .select(PromptBucket::Short, &candidates(), number(0.0), 1, &mut rng)
        .expect("select");
    assert_eq!(pick.model, candidates()[0]);
}

#[test]
fn names_of_classes_and_reasons() {
    for bucket in [PromptBucket::Short, PromptBucket::Medium, PromptBucket::Long] {
        assert_eq!(PromptBucket::parse(bucket.as_str()), Some(bucket));
    }
    assert_eq!(PromptBucket::Short.as_str(), "short");
    assert_eq!(PromptBucket::Medium.as_str(), "medium");
    assert_eq!(PromptBucket::Long.as_str(), "long");
    assert_eq!(PromptBucket::parse("Short"), None);
    assert_eq!(PromptBucket::parse(""), None);
    assert!(PromptBucket::Short < PromptBucket::Medium);
    assert!(PromptBucket::Medium < PromptBucket::Long);
    assert_eq!(PromptBucket::Long.position(), 2);
    assert_eq!(SelectionReason::WarmStart.as_str(), "warm_start");
    assert_eq!(SelectionReason::Explore.as_str(), "explore");
    assert_eq!(SelectionReason::Exploit.as_str(), "exploit");
}

fn tally(successes: u64, failures: u64, total_latency_ms: u64) -> Tally {
    Tally {
        successes,
        failures,
        total_latency_ms,
    }
}

#[test]
fn the_best_candidate_is_the_one_that_a_sort_puts_first() {
    let mut rng = DefaultRng::from_seed(2024);
    for _ in 0..300 {
        let size = 1 + rng.next_bounded(6);
        let tallies: Vec<Tally> = (0..size)
            .map(|_| {
                tally(
                    rng.next_bounded(4) as u64,
                    rng.next_bounded(4) as u64,
                    rng.next_bounded(12) as u64,
                )
            })
            .collect();
        let rate = |t: &Tally| (t.successes as f64 + 1.0) / ((t.successes + t.failures) as f64 + 2.0);
        let latency = |t: &Tally| {
            let samples = t.successes + t.failures;
            if samples == 0 {
                0
            } else {
                t.total_latency_ms / samples
            }
        };
        let mut order: Vec<usize> = (0..size).collect();
        order.sort_by(|a, b| {
            rate(&tallies[*b])
                .partial_cmp(&rate(&tallies[*a]))
                .unwrap()
                .then_with(|| latency(&tallies[*a]).cmp(&latency(&tallies[*b])))
        });
        assert_eq!(best(&tallies, Ties::First), order[0]);
        let last = (0..size)
            .max_by(|a, b| {
                rate(&tallies[*a])
                    .partial_cmp(&rate(&tallies[*b]))
                    .unwrap()
                    .then_with(|| latency(&tallies[*b]).cmp(&latency(&tallies[*a])))
            })
            .unwrap();
        assert_eq!(best(&tallies, Ties::Last), last);
    }
}

#[test]
fn decisions_on_given_draws() {
    let tallies = [tally(1, 3, 10), tally(4, 0, 10), tally(4, 0, 9)];
    let explored = decide(&tallies, number(0.3), Ties::First, number(0.29), 0);
    assert_eq!(explored, (0, SelectionReason::Explore));
    let exploited = decide(&tallies, number(0.3), Ties::First, number(0.3), 0);
    assert_eq!(exploited, (1, SelectionReason::Exploit));
    let nan = decide(&tallies, number(f64::NAN), Ties::Last, number(0.0), 0);
    assert_eq!(nan, (2, SelectionReason::Exploit));
}

#[test]
fn an_epsilon_of_one_always_explores_and_one_of_zero_never() {
    let tallies = [tally(1, 0, 1), tally(0, 1, 1)];
    for draw in [0.0, 0.5, 1.0 - f64::EPSILON / 2.0] {
        let explored = decide(&tallies, number(1.0), Ties::First, number(draw), 1);
        assert_eq!(explored, (1, SelectionReason::Explore));
        let exploited = decide(&tallies, number(0.0), Ties::First, number(draw), 1);
        assert_eq!(exploited, (0, SelectionReason::Exploit));
    }
}

#[test]
fn more_successes_never_lower_the_rate() {
    let mut last = 0.0;
    for successes in 0..=50 {
        let rate = float(tally(successes, 50 - successes, 0).success_rate());
        assert!(rate >= last);
        assert!(rate > 0.0 && rate <= 1.0);
        last = rate;
    }
    assert_eq!(float(tally(0, 0, 9).success_rate()), 0.5);
    assert_eq!(tally(0, 0, 9).average_latency_ms(), 0);
}

#[test]
fn records_change_one_row_only() {
    let mut store = StateStore::in_memory().expect("store");
    let mut board = store.scoreboard();
    board
        .record_outcome(PromptBucket::Short, "a", true, 5, 6, 7)
        .unwrap();
    let kept = board.stats(PromptBucket::Short, "a").unwrap();
    board
        .record_outcome(PromptBucket::Short, "b", false, 1, 1, 1)
        .unwrap();
    board
        .record_outcome(PromptBucket::Long, "a", false, 1, 1, 1)
        .unwrap();
    assert_eq!(board.stats(PromptBucket::Short, "a").unwrap(), kept);
    assert_eq!(kept.successes, 1);
    assert_eq!(kept.total_output_tokens, 7);
}
