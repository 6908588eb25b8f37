use claw_state::binary64::Binary64;
use claw_state::rng::DefaultRng;
use claw_state::rng::RandomSource;

fn float(value: Binary64) -> f64 {
    f64::from_bits(value.bits)
}

#[test]
fn default_rng_returns_values_in_unit_range() {
    let mut rng = DefaultRng::from_seed(42);
    for _ in 0..500 {
        let value = float(rng.next_unit_float());
        assert!(
            (0.0..1.0).contains(&value),
            "unit float out of range: {value}"
        );
    }
}

#[test]
fn default_rng_bounded_respects_upper_bound() {
    let mut rng = DefaultRng::from_seed(1);
    for _ in 0..500 {
        let value = rng.next_bounded(7);
        assert!(value < 7);
    }
}

#[test]
fn default_rng_is_deterministic_for_fixed_seed() {
    let mut a = DefaultRng::from_seed(99);
    let mut b = DefaultRng::from_seed(99);
    for _ in 0..20 {
        assert_eq!(a.next_u64(), b.next_u64());
    }
}

#[test]
fn default_rng_produces_uniform_ish_floats() {
    let mut rng = DefaultRng::from_seed(42);
    for _ in 0..1000 {
        let value = float(rng.next_unit_float());
        assert!((0.0..1.0).contains(&value), "out of range: {value}");
    }
}

#[test]
fn the_outputs_are_those_of_splitmix64() {
    let mut rng = DefaultRng::from_seed(1_234_567);
    assert_eq!(rng.next_u64(), 6_457_827_717_110_365_317);
    assert_eq!(rng.next_u64(), 3_203_168_211_198_807_973);
    assert_eq!(rng.next_u64(), 9_817_491_932_198_370_423);
}

#[test]
fn a_seed_of_zero_counts_as_one() {
    let mut zero = DefaultRng::from_seed(0);
    let mut one = DefaultRng::from_seed(1);
    assert_eq!(zero.next_u64(), one.next_u64());
}

#[test]
fn unit_floats_are_the_upper_bits_over_two_to_the_fifty_third() {
    let mut words = DefaultRng::from_seed(7);
    let mut floats = DefaultRng::from_seed(7);
    let mut indices = DefaultRng::from_seed(7);
    for _ in 0..200 {
        let word = words.next_u64();
        let expected = (word >> 11) as f64 / ((1u64 << 53) as f64);
        assert_eq!(float(floats.next_unit_float()), expected);
        assert_eq!(indices.next_bounded(11), word as usize % 11);
    }
}

#[test]
fn a_clock_reading_and_a_process_id_make_a_seed() {
    let mut made = DefaultRng::from_entropy(Some(0x1_0000_0000_0000_0005), 3);
    let mut same = DefaultRng::from_seed(5 ^ (3 << 32));
    assert_eq!(made.next_u64(), same.next_u64());
    let mut without = DefaultRng::from_entropy(None, 0);
    let mut fixed = DefaultRng::from_seed(0x9E37_79B9_7F4A_7C15);
    assert_eq!(without.next_u64(), fixed.next_u64());
    let mut now = DefaultRng::from_system_time(1);
    assert!(now.next_bounded(5) < 5);
}
