use claw_state::binary64::Binary64;
use claw_state::rng::DefaultRng;

fn number(value: f64) -> Binary64 {
    Binary64::from_bits(value.to_bits())
}

fn float(value: Binary64) -> f64 {
    f64::from_bits(value.bits)
}

fn odd_numbers() -> Vec<u64> {
    let mut numbers = vec![0, 1, 2, 3, 7, 10, 1_000_000, u64::MAX, u64::MAX - 1];
    for shift in [31, 52, 53, 54, 60, 62, 63] {
        for offset in 0..4 {
            numbers.push((1u64 << shift) + offset);
            numbers.push((1u64 << shift) - 1 - offset);
        }
    }
    let mut rng = DefaultRng::from_seed(5);
    for shift in 0..40 {
        numbers.push(rng.next_u64() >> shift);
    }
    numbers
}

#[test]
fn comparisons_are_those_of_native_numbers() {
    let values = [
        0.0,
        -0.0,
        1.0,
        -1.0,
        0.5,
        0.1,
        5e-324,
        -5e-324,
        f64::MIN_POSITIVE,
        f64::MAX,
        f64::MIN,
        f64::INFINITY,
        f64::NEG_INFINITY,
        f64::NAN,
        1.0 - f64::EPSILON / 2.0,
        1.0 + f64::EPSILON,
    ];
    for a in values {
        for b in values {
            assert_eq!(number(a).less_than(number(b)), a < b, "{a} < {b}");
        }
        assert_eq!(number(a).positive(), a > 0.0, "{a}");
        assert_eq!(number(a).one_or_more(), a >= 1.0, "{a}");
    }
}

#[test]
fn smoothed_rates_are_those_of_native_numbers() {
    for successes in odd_numbers() {
        for failures in [0, 1, 5, 1_000, (1 << 53) + 1] {
            if let Some(samples) = successes.checked_add(failures) {
                let native = (successes as f64 + 1.0) / (samples as f64 + 2.0);
                let rate = Binary64::smoothed_rate(successes, samples);
                assert_eq!(rate.bits, native.to_bits(), "{successes} of {samples}");
                assert!(native > 0.0 && native <= 1.0);
            }
        }
    }
}

#[test]
fn quotients_are_those_of_native_numbers() {
    for n in odd_numbers() {
        for d in odd_numbers() {
            if d > 0 {
                let native = n as f64 / d as f64;
                assert_eq!(float(Binary64::quotient(n, d)), native, "{n} / {d}");
            }
        }
    }
}

#[test]
fn scaled_counts_are_those_of_native_numbers() {
    let mut rng = DefaultRng::from_seed(11);
    for count in odd_numbers() {
        for _ in 0..20 {
            let factor = (rng.next_u64() >> 11) as f64 / ((1u64 << 53) as f64);
            if count > 0 && factor > 0.0 {
                let native = (count as f64 * factor).round() as u64;
                assert_eq!(Binary64::scale_count(count, number(factor)), native);
            }
        }
    }
}

#[test]
fn unit_fractions_are_those_of_native_numbers() {
    for k in odd_numbers() {
        if k < 1 << 53 {
            let native = k as f64 / ((1u64 << 53) as f64);
            assert_eq!(float(Binary64::unit_fraction(k)), native);
        }
    }
}

#[test]
fn exact_values() {
    assert_eq!(float(Binary64::smoothed_rate(9, 10)), 10.0 / 12.0);
    assert_eq!(float(Binary64::smoothed_rate(0, 0)), 0.5);
    assert_eq!(float(Binary64::quotient(375_000, 1_000_000)), 0.375);
    assert_eq!(float(Binary64::quotient(0, 7)), 0.0);
    assert_eq!(Binary64::scale_count(10, number(0.25)), 3);
    assert_eq!(float(Binary64::unit_fraction(1 << 52)), 0.5);
}
