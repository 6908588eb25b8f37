use claw_state::binary64::Binary64;
use claw_state::eval_router::apply_decay;
use claw_state::eval_router::decay_count;
use claw_state::eval_router::default_version;
use claw_state::eval_router::ModelStats;
use claw_state::eval_router::Outcome;
use claw_state::eval_router::RouterScoreboard;
use claw_state::eval_router::ScoreboardError;
use claw_state::rng::RandomSource;
use claw_state::routing::PromptBucket;
use claw_state::routing::SelectionReason;

fn number(value: f64) -> Binary64 {
    Binary64::from_bits(value.to_bits())
}

fn float(value: Binary64) -> f64 {
    f64::from_bits(value.bits)
}

fn half_power(half_lives: Binary64) -> Binary64 {
    number((-float(half_lives) * std::f64::consts::LN_2).exp())
}

fn now_unix_ms() -> u64 {
    std::time::SystemTime::now()
        .duration_since(std::time::UNIX_EPOCH)
        .map(|duration| duration.as_millis() as u64)
        .unwrap_or(0)
}

struct SequenceRng {
    floats: Vec<f64>,
    bounded: Vec<usize>,
    float_cursor: usize,
    bounded_cursor: usize,
}

impl SequenceRng {
    fn new(floats: Vec<f64>, bounded: Vec<usize>) -> Self {
        Self {
            floats,
            bounded,
            float_cursor: 0,
            bounded_cursor: 0,
        }
    }
}

impl RandomSource for SequenceRng {
    fn next_unit_float(&mut self) -> Binary64 {
        let value = self.floats[self.float_cursor];
        self.float_cursor += 1;
        number(value)
    }

    fn next_bounded(&mut self, _upper: usize) -> usize {
        let value = self.bounded[self.bounded_cursor];
        self.bounded_cursor += 1;
        value
    }
}

fn candidates() -> Vec<String> {
    vec![
        "haiku-4-5".to_string(),
        "sonnet-4-6".to_string(),
        "opus-4-6".to_string(),
    ]
}

#[test]
fn lib_prompt_bucket_thresholds_match_expected_ranges() {
    assert_eq!(PromptBucket::from_prompt_chars(0), PromptBucket::Short);
    assert_eq!(PromptBucket::from_prompt_chars(511), PromptBucket::Short);
    assert_eq!(PromptBucket::from_prompt_chars(512), PromptBucket::Medium);
    assert_eq!(PromptBucket::from_prompt_chars(5_999), PromptBucket::Medium);
    assert_eq!(PromptBucket::from_prompt_chars(6_000), PromptBucket::Long);
    assert_eq!(
        PromptBucket::from_prompt_chars(1_000_000),
        PromptBucket::Long
    );
}

#[test]
fn lib_model_stats_success_rate_is_laplace_smoothed() {
    let empty = ModelStats::default();
    assert!((float(empty.success_rate()) - 0.5).abs() < 1e-9);

    let mostly_good = ModelStats {
        successes: 9,
        failures: 1,
        ..Default::default()
    };
    // (9 + 1) / (10 + 2) == 10/12
    assert!((float(mostly_good.success_rate()) - (10.0 / 12.0)).abs() < 1e-9);
}

#[test]
fn select_warm_starts_through_all_candidates() {
    let board = RouterScoreboard::in_memory();
    let mut rng = SequenceRng::new(vec![], vec![]);
    let pick = board
        .select(PromptBucket::Short, &candidates(), number(0.1), 3, &mut rng)
        .expect("select");
    assert_eq!(pick.reason, SelectionReason::WarmStart);
    assert_eq!(pick.model, candidates()[0]);
}

#[test]
fn lib_select_errors_when_no_candidates() {
    let board = RouterScoreboard::in_memory();
    let mut rng = SequenceRng::new(vec![], vec![]);
    let error = board
        .select(PromptBucket::Short, &[], number(0.1), 3, &mut rng)
        .expect_err("empty candidates must error");
    assert!(error.message().contains("at least one candidate"));
    assert!(matches!(error, ScoreboardError::Config(_)));
}

#[test]
fn lib_select_exploits_model_with_highest_success_rate_once_warm() {
    let mut board = RouterScoreboard::in_memory();
    // Seed each candidate with 5 samples so warm-start is satisfied.
    for _ in 0..5 {
        board.record_outcome(PromptBucket::Short, "haiku-4-5", true, 100, 10, 5);
        board.record_outcome(PromptBucket::Short, "sonnet-4-6", false, 200, 10, 5);
        board.record_outcome(PromptBucket::Short, "opus-4-6", false, 400, 10, 5);
    }
    // Epsilon 0 so we never explore.
    let mut rng = SequenceRng::new(vec![0.99], vec![]);
    let pick = board
        .select(PromptBucket::Short, &candidates(), number(0.0), 5, &mut rng)
        .expect("select");
    assert_eq!(pick.model, "haiku-4-5");
    assert_eq!(pick.reason, SelectionReason::Exploit);
}

#[test]
fn lib_select_explores_when_rng_rolls_below_epsilon() {
    let mut board = RouterScoreboard::in_memory();
    for _ in 0..5 {
        for candidate in candidates() {
            board.record_outcome(PromptBucket::Medium, &candidate, true, 100, 10, 5);
        }
    }
    // float < epsilon triggers exploration; bounded picks index 2.
    let mut rng = SequenceRng::new(vec![0.05], vec![2]);
    let pick = board
        .select(PromptBucket::Medium, &candidates(), number(0.5), 5, &mut rng)
        .expect("select");
    assert_eq!(pick.reason, SelectionReason::Explore);
    assert_eq!(pick.model, candidates()[2]);
}

#[test]
fn select_breaks_success_rate_ties_with_lower_latency() {
    let mut board = RouterScoreboard::in_memory();
    // Both have identical success rates but haiku is faster.
    for _ in 0..10 {
        board.record_outcome(PromptBucket::Short, "haiku-4-5", true, 50, 1, 1);
        board.record_outcome(PromptBucket::Short, "sonnet-4-6", true, 500, 1, 1);
    }
    let mut rng = SequenceRng::new(vec![0.99], vec![]);
    let pick = board
        .select(
            PromptBucket::Short,
            &[
                "haiku-4-5".to_string(),
                "sonnet-4-6".to_string(),
            ],
            number(0.0),
            5,
            &mut rng,
        )
        .expect("select");
    assert_eq!(pick.model, "haiku-4-5");
}

#[test]
fn record_outcome_accumulates_into_correct_bucket_and_model() {
    let mut board = RouterScoreboard::in_memory();
    board.record_outcome(PromptBucket::Long, "opus-4-6", true, 800, 2000, 300);
    board.record_outcome(
        PromptBucket::Long,
        "opus-4-6",
        false,
        1200,
        2500,
        100,
    );
    board.record_outcome(PromptBucket::Short, "opus-4-6", true, 80, 120, 20);

    let long = board.stats(PromptBucket::Long, "opus-4-6");
    assert_eq!(long.successes, 1);
    assert_eq!(long.failures, 1);
    assert_eq!(long.total_latency_ms, 2000);
    assert_eq!(long.total_input_tokens, 4500);
    assert_eq!(long.total_output_tokens, 400);
    assert_eq!(long.average_latency_ms(), 1000);

    let short = board.stats(PromptBucket::Short, "opus-4-6");
    assert_eq!(short.successes, 1);
    assert_eq!(short.failures, 0);
}

#[test]
fn decay_halves_counts_after_one_half_life() {
    // decay_count is the actual workhorse; verify the math directly
    // instead of spinning a real clock.
    assert_eq!(decay_count(100, number(0.5)), 50);
    assert_eq!(decay_count(10, number(0.25)), 3); // 2.5 rounds to 3
    assert_eq!(decay_count(0, number(0.5)), 0);
    assert_eq!(decay_count(1, number(1.0)), 1);
    assert_eq!(decay_count(5, number(0.0)), 0);
}

#[test]
fn apply_decay_skips_rows_with_no_prior_observation() {
    let mut stats = ModelStats {
        successes: 10,
        failures: 5,
        total_latency_ms: 1_000,
        last_observation_ms: 0, // no prior observation → skip
        ..Default::default()
    };
    apply_decay(&mut stats, 1_000_000, 100_000, half_power);
    assert_eq!(stats.successes, 10);
    assert_eq!(stats.failures, 5);
    assert_eq!(stats.total_latency_ms, 1_000);
}

#[test]
fn apply_decay_scales_counts_by_half_life_exponent() {
    let mut stats = ModelStats {
        successes: 100,
        failures: 40,
        total_latency_ms: 10_000,
        total_input_tokens: 7_777, // not decayed — cost data only
        total_output_tokens: 3_333,
        total_cost_micros: 5_000_000, // $5, not decayed
        last_observation_ms: 1_000,
    };
    // One half-life elapsed: factor should be ~0.5.
    apply_decay(&mut stats, 1_000 + 3_600_000, 3_600_000, half_power);
    assert!(
        (49..=51).contains(&stats.successes),
        "expected ~50, got {}",
        stats.successes
    );
    assert!(
        (19..=21).contains(&stats.failures),
        "expected ~20, got {}",
        stats.failures
    );
    assert!(
        (4_900..=5_100).contains(&stats.total_latency_ms),
        "expected ~5000, got {}",
        stats.total_latency_ms
    );
    // Tokens and cost untouched — decay applies only to counts.
    assert_eq!(stats.total_input_tokens, 7_777);
    assert_eq!(stats.total_output_tokens, 3_333);
    assert_eq!(stats.total_cost_micros, 5_000_000);
}

#[test]
fn record_outcome_with_decay_forgets_old_samples() {
    let mut board = RouterScoreboard::in_memory();
    // 30 half-lives in the past: decay factor 2^-30 ≈ 1e-9, so
    // everything rounds to zero.
    let thirty_half_lives_ago = now_unix_ms().saturating_sub(30 * 3_600_000);
    board.insert_row(
        PromptBucket::Short,
        "haiku-4-5",
        ModelStats {
            successes: 100,
            failures: 0,
            last_observation_ms: thirty_half_lives_ago,
            ..Default::default()
        },
    );

    board.record_outcome_with_decay(
        PromptBucket::Short,
        "haiku-4-5",
        true,
        100,
        10,
        5,
        0,
        Some(3_600_000), // 1-hour half-life
        half_power,
    );
    let stats = board.stats(PromptBucket::Short, "haiku-4-5");
    // All 100 historical successes should have decayed to 0; only
    // the newly recorded success remains.
    assert_eq!(stats.successes, 1);
    assert_eq!(stats.failures, 0);
}

#[test]
fn record_outcome_with_decay_accumulates_cost_without_decaying_it() {
    let mut board = RouterScoreboard::in_memory();
    board.record_outcome_with_decay(
        PromptBucket::Short,
        "haiku-4-5",
        true,
        50,
        100,
        40,
        125_000, // $0.125 for this turn
        Some(3_600_000),
        half_power,
    );
    board.record_outcome_with_decay(
        PromptBucket::Short,
        "haiku-4-5",
        true,
        75,
        200,
        80,
        250_000, // another $0.25
        Some(3_600_000),
        half_power,
    );
    let stats = board.stats(PromptBucket::Short, "haiku-4-5");
    // Both costs should land even though the row saw decay on its
    // counts; cost is not among the decayed fields.
    assert_eq!(stats.total_cost_micros, 375_000);
    assert!((float(stats.total_cost_usd()) - 0.375).abs() < 1e-9);
}

#[test]
fn record_outcome_wrapper_does_not_decay() {
    let mut board = RouterScoreboard::in_memory();
    // Seed a huge count with an old timestamp.
    board.insert_row(
        PromptBucket::Short,
        "opus-4-6",
        ModelStats {
            successes: 50,
            last_observation_ms: 1, // ancient
            ..Default::default()
        },
    );
    // The non-decay wrapper should preserve the count.
    board.record_outcome(PromptBucket::Short, "opus-4-6", true, 100, 10, 5);
    let stats = board.stats(PromptBucket::Short, "opus-4-6");
    assert_eq!(stats.successes, 51);
}

#[test]
fn an_outcome_at_a_given_time_decays_before_it_is_added() {
    let mut board = RouterScoreboard::in_memory();
    board.insert_row(
        PromptBucket::Long,
        "m",
        ModelStats {
            successes: 8,
            failures: 4,
            total_latency_ms: 1_000,
            total_input_tokens: 7,
            total_output_tokens: 9,
            total_cost_micros: 11,
            last_observation_ms: 5_000,
        },
    );
    let outcome = Outcome {
        success: false,
        latency_ms: 30,
        input_tokens: 1,
        output_tokens: 2,
        cost_micros: 3,
    };
    board.record_at(PromptBucket::Long, "m", outcome, Some(1_000), 7_000, half_power);
    assert_eq!(
        board.stats(PromptBucket::Long, "m"),
        ModelStats {
            successes: 2,
            failures: 2,
            total_latency_ms: 280,
            total_input_tokens: 8,
            total_output_tokens: 11,
            total_cost_micros: 14,
            last_observation_ms: 7_000,
        }
    );
}

#[test]
fn decay_needs_a_half_life_and_time_that_has_passed() {
    let row = ModelStats {
        successes: 10,
        last_observation_ms: 5_000,
        ..Default::default()
    };
    let mut now_is_past = row;
    apply_decay(&mut now_is_past, 5_000, 1_000, half_power);
    assert_eq!(now_is_past, row);
    let mut no_half_life = row;
    apply_decay(&mut no_half_life, 9_000, 0, half_power);
    assert_eq!(no_half_life, row);
    let mut decayed = row;
    apply_decay(&mut decayed, 6_000, 1_000, half_power);
    assert_eq!(decayed.successes, 5);
    assert_eq!(decayed.last_observation_ms, 5_000);
}

#[test]
fn decay_count_follows_native_arithmetic() {
    let native = |value: u64, factor: f64| -> u64 {
        if factor <= 0.0 || value == 0 {
            return 0;
        }
        if factor >= 1.0 {
            return value;
        }
        ((value as f64) * factor).round() as u64
    };
    let values = [
        0,
        1,
        2,
        3,
        5,
        10,
        99,
        1_000_003,
        (1 << 52) + 1,
        (1 << 53) - 1,
        (1 << 53) + 1,
        (1 << 53) + 3,
        (1 << 54) + 6,
        u64::MAX / 3,
        u64::MAX - 1024,
        u64::MAX,
    ];
    let factors = [
        0.0,
        -0.0,
        -1.0,
        f64::NAN,
        f64::INFINITY,
        f64::NEG_INFINITY,
        5e-324,
        f64::MIN_POSITIVE,
        1e-300,
        1e-20,
        1e-10,
        0.1,
        0.25,
        0.3,
        0.4999999999999999,
        0.5,
        0.75,
        0.9,
        1.0 - f64::EPSILON / 2.0,
        1.0,
        1.5,
        1e300,
    ];
    for value in values {
        for factor in factors {
            assert_eq!(
                decay_count(value, number(factor)),
                native(value, factor),
                "{value} * {factor}"
            );
            assert!(decay_count(value, number(factor)) <= value);
        }
    }
}

#[test]
fn totals_stop_at_the_largest_number() {
    let mut board = RouterScoreboard::in_memory();
    board.insert_row(
        PromptBucket::Short,
        "m",
        ModelStats {
            successes: u64::MAX,
            failures: 0,
            total_latency_ms: u64::MAX - 1,
            total_input_tokens: u64::MAX,
            total_output_tokens: u64::MAX,
            total_cost_micros: u64::MAX - 5,
            last_observation_ms: 1,
        },
    );
    let outcome = Outcome {
        success: true,
        latency_ms: 10,
        input_tokens: 1,
        output_tokens: 1,
        cost_micros: 10,
    };
    board.record_at(PromptBucket::Short, "m", outcome, None, 2, half_power);
    let stats = board.stats(PromptBucket::Short, "m");
    assert_eq!(stats.successes, u64::MAX);
    assert_eq!(stats.total_latency_ms, u64::MAX);
    assert_eq!(stats.total_input_tokens, u64::MAX);
    assert_eq!(stats.total_output_tokens, u64::MAX);
    assert_eq!(stats.total_cost_micros, u64::MAX);
}

#[test]
fn rows_come_out_by_class_and_then_by_name() {
    let mut board = RouterScoreboard::in_memory();
    assert!(board.iter().is_empty());
    board.record_outcome(PromptBucket::Long, "a", true, 1, 1, 1);
    board.record_outcome(PromptBucket::Short, "zeta", true, 1, 1, 1);
    board.record_outcome(PromptBucket::Short, "\u{e9}", true, 1, 1, 1);
    board.record_outcome(PromptBucket::Short, "alpha", true, 1, 1, 1);
    board.record_outcome(PromptBucket::Medium, "m", false, 1, 1, 1);
    board.record_outcome(PromptBucket::Short, "alph", true, 1, 1, 1);
    board.record_outcome(PromptBucket::Short, "zeta", false, 1, 1, 1);
    let keys: Vec<(PromptBucket, &str, u64)> = board
        .iter()
        .into_iter()
        .map(|(bucket, model, stats)| (bucket, model, stats.samples()))
        .collect();
    assert_eq!(
        keys,
        vec![
            (PromptBucket::Short, "alph", 1),
            (PromptBucket::Short, "alpha", 1),
            (PromptBucket::Short, "zeta", 2),
            (PromptBucket::Short, "\u{e9}", 1),
            (PromptBucket::Medium, "m", 1),
            (PromptBucket::Long, "a", 1),
        ]
    );
}

#[test]
fn a_later_row_replaces_an_earlier_one_under_the_same_key() {
    let mut board = RouterScoreboard::with_version(3);
    let first = ModelStats {
        successes: 1,
        ..Default::default()
    };
    let second = ModelStats {
        successes: 2,
        ..Default::default()
    };
    board.insert_row(PromptBucket::Short, "m", first);
    board.insert_row(PromptBucket::Short, "m", second);
    assert_eq!(board.stats(PromptBucket::Short, "m"), second);
    assert_eq!(board.iter().len(), 1);
    assert_eq!(board.version(), 3);
}

#[test]
fn versions_of_new_and_unsaved_scoreboards() {
    assert_eq!(RouterScoreboard::in_memory().version(), 1);
    assert_eq!(RouterScoreboard::default().version(), 0);
    assert_eq!(default_version(), 1);
}

#[test]
fn a_scoreboard_is_restored_from_its_rows() {
    let mut board = RouterScoreboard::with_version(4);
    board.record_outcome(PromptBucket::Medium, "sonnet-4-6", true, 300, 500, 200);
    board.record_outcome(PromptBucket::Medium, "sonnet-4-6", false, 900, 800, 50);
    board.record_outcome(PromptBucket::Short, "haiku-4-5", true, 1, 2, 3);
    let rows = board.to_rows();
    assert_eq!(rows.len(), 2);
    assert_eq!(rows[0].0, PromptBucket::Short);
    let restored = RouterScoreboard::restored(Some((Some(board.version()), rows.clone())));
    assert_eq!(restored.to_rows(), rows);
    assert_eq!(restored.version(), 4);
    let stats = restored.stats(PromptBucket::Medium, "sonnet-4-6");
    assert_eq!(stats.successes, 1);
    assert_eq!(stats.failures, 1);
    assert_eq!(stats.total_latency_ms, 1200);
    assert_eq!(RouterScoreboard::restored(Some((None, rows))).version(), 1);
    let empty = RouterScoreboard::restored(None);
    assert_eq!(empty.version(), 0);
    assert!(empty.iter().is_empty());
    let mut doubled = board.to_rows();
    let mut again = doubled[0].clone();
    again.2.successes = 77;
    doubled.push(again);
    let last = RouterScoreboard::from_rows(1, doubled);
    assert_eq!(last.stats(PromptBucket::Short, "haiku-4-5").successes, 77);
}

#[test]
fn the_last_of_equal_candidates_is_exploited() {
    let mut board = RouterScoreboard::in_memory();
    for candidate in candidates() {
        board.record_outcome(PromptBucket::Short, &candidate, true, 100, 1, 1);
    }
    let mut rng = SequenceRng::new(vec![], vec![]);
    let pick = board
        .select(PromptBucket::Short, &candidates(), number(-1.0), 1, &mut rng)
        .expect("select");
    assert_eq!(pick.model, candidates()[2]);
    assert_eq!(pick.reason, SelectionReason::Exploit);
    assert_eq!(pick.bucket, PromptBucket::Short);
}

#[test]
fn a_draw_of_epsilon_or_more_does_not_explore() {
    let mut board = RouterScoreboard::in_memory();
    board.record_outcome(PromptBucket::Short, "good", true, 1, 1, 1);
    board.record_outcome(PromptBucket::Short, "bad", false, 1, 1, 1);
    let models = vec!["good".to_string(), "bad".to_string()];
    let mut rng = SequenceRng::new(vec![0.5], vec![1]);
    let pick = board
        .select(PromptBucket::Short, &models, number(0.5), 1, &mut rng)
        .expect("select");
    assert_eq!(pick.model, "good");
    assert_eq!(pick.reason, SelectionReason::Exploit);
    assert_eq!(rng.float_cursor, 1);
    assert_eq!(rng.bounded_cursor, 0);
}

#[test]
fn warm_start_takes_the_first_candidate_that_lacks_samples() {
    let mut board = RouterScoreboard::in_memory();
    board.record_outcome(PromptBucket::Short, "haiku-4-5", true, 1, 1, 1);
    let mut rng = SequenceRng::new(vec![], vec![]);
    let pick = board
        .select(PromptBucket::Short, &candidates(), number(1.0), 1, &mut rng)
        .expect("select");
    assert_eq!(pick.model, candidates()[1]);
    assert_eq!(pick.reason, SelectionReason::WarmStart);
}

#[test]
fn scoreboard_errors_name_their_source() {
    let io = ScoreboardError::from(std::io::Error::other("disk"));
    assert_eq!(io.message(), "scoreboard I/O error: disk");
    assert!(matches!(io, ScoreboardError::Io(_)));
    let json: Result<u8, serde_json::Error> = serde_json::from_str("x");
    let cause = json.expect_err("not a number");
    let shown = cause.to_string();
    let serde = ScoreboardError::from(cause);
    assert_eq!(serde.message(), format!("scoreboard serde error: {shown}"));
    assert!(matches!(serde, ScoreboardError::Serde(_)));
    let config = ScoreboardError::Config("none".to_string());
    assert_eq!(config.message(), "scoreboard config error: none");
}

#[test]
fn outcomes_are_recorded_at_the_present_time() {
    let mut board = RouterScoreboard::in_memory();
    let before = now_unix_ms();
    board.record_outcome(PromptBucket::Short, "m", true, 1, 1, 1);
    let after = now_unix_ms();
    let seen = board.stats(PromptBucket::Short, "m").last_observation_ms;
    assert!(before <= seen && seen <= after);
}

#[test]
fn decay_rises_with_the_count_and_with_the_factor() {
    let factors = [0.0, 1e-9, 0.2, 0.5, 0.9, 1.0 - f64::EPSILON / 2.0, 1.0, 3.0];
    let counts = [0, 1, 2, 7, 1_000, (1 << 53) + 1, u64::MAX - 1, u64::MAX];
    for pair in factors.windows(2) {
        for count in counts {
            assert!(decay_count(count, number(pair[0])) <= decay_count(count, number(pair[1])));
        }
    }
    for pair in counts.windows(2) {
        for factor in factors {
            assert!(decay_count(pair[0], number(factor)) <= decay_count(pair[1], number(factor)));
        }
    }
}

#[test]
fn selections_depend_on_counts_and_latency_only() {
    let mut plain = RouterScoreboard::in_memory();
    let mut costly = RouterScoreboard::in_memory();
    for (i, candidate) in candidates().iter().enumerate() {
        let stats = ModelStats {
            successes: 3 + i as u64,
            failures: 2,
            total_latency_ms: 50,
            ..Default::default()
        };
        plain.insert_row(PromptBucket::Short, candidate, stats);
        let dear = ModelStats {
            total_input_tokens: 900,
            total_output_tokens: 800,
            total_cost_micros: 700,
            last_observation_ms: 600,
            ..stats
        };
        costly.insert_row(PromptBucket::Short, candidate, dear);
    }
    costly.record_outcome(PromptBucket::Long, "haiku-4-5", true, 1, 1, 1);
    for draw in [0.1, 0.7] {
        let mut a = SequenceRng::new(vec![draw], vec![1]);
        let mut b = SequenceRng::new(vec![draw], vec![1]);
        let x = plain.select(PromptBucket::Short, &candidates(), number(0.5), 5, &mut a);
        let y = costly.select(PromptBucket::Short, &candidates(), number(0.5), 5, &mut b);
        assert_eq!(x.expect("select"), y.expect("select"));
        assert_eq!(a.float_cursor, b.float_cursor);
        assert_eq!(a.bounded_cursor, b.bounded_cursor);
    }
}

#[test]
fn a_copy_of_a_scoreboard_holds_the_same_and_goes_its_own_way() {
    let mut board = RouterScoreboard::with_version(3);
    board.record_outcome(PromptBucket::Medium, "sonnet-4-6", true, 300, 500, 200);
    board.record_outcome(PromptBucket::Short, "haiku-4-5", false, 1, 2, 3);
    let mut copy = board.clone();
    assert_eq!(copy.version(), 3);
    assert_eq!(copy.to_rows(), board.to_rows());
    copy.record_outcome(PromptBucket::Short, "haiku-4-5", true, 1, 2, 3);
    assert_eq!(copy.stats(PromptBucket::Short, "haiku-4-5").samples(), 2);
    assert_eq!(board.stats(PromptBucket::Short, "haiku-4-5").samples(), 1);
}
