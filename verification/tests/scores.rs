use chronicle_core::double::{from_count, invert, plus};
use chronicle_core::score::{
    Score, INFINITY_BITS, ONE_BITS, SIGN_BIT, TEN_BITS, ZERO_BITS,
};

fn score(x: f64) -> Score {
    Score { bits: x.to_bits() }
}

fn value(s: Score) -> f64 {
    f64::from_bits(s.bits)
}

#[test]
fn counts_become_the_nearest_numbers() {
    let counts = [
        0u64,
        1,
        2,
        3,
        7,
        10,
        1_000_000_007,
        (1 << 53) - 1,
        1 << 53,
        (1 << 53) + 1,
        (1 << 53) + 2,
        (1 << 53) + 3,
        (1 << 54) + 6,
        (1 << 62) + 12345,
        u64::MAX - 1023,
        u64::MAX - 1024,
        u64::MAX,
    ];
    for n in counts {
        assert_eq!(value(from_count(n)), n as f64, "{n}");
    }
}

#[test]
fn reciprocals_are_rounded_as_the_hardware_rounds_them() {
    let mut n: u64 = 1;
    while n < 5000 {
        assert_eq!(value(invert(from_count(n))), 1.0 / (n as f64), "{n}");
        n += 1;
    }
    for n in [u64::MAX, (1 << 53) + 2, 1 << 63, 123_456_789_012_345_678] {
        assert_eq!(value(invert(from_count(n))), 1.0 / (n as f64), "{n}");
    }
    assert_eq!(value(invert(score(0.1))), 1.0 / 0.1);
}

#[test]
fn the_reciprocal_of_zero_is_infinite() {
    assert_eq!(invert(Score { bits: ZERO_BITS }).bits, INFINITY_BITS);
}

#[test]
fn sums_are_rounded_as_the_hardware_rounds_them() {
    let mut sum = score(0.0);
    let mut expected = 0.0f64;
    let mut n: u64 = 1;
    while n < 3000 {
        sum = plus(sum, invert(from_count(n)));
        expected += 1.0 / (n as f64);
        assert_eq!(value(sum), expected, "{n}");
        n += 1;
    }
    for (a, b) in [(0.1, 0.2), (1.0, 1e-16), (1.0, 1.1102230246251568e-16), (1e300, 1e-300)] {
        assert_eq!(value(plus(score(a), score(b))), a + b);
        assert_eq!(value(plus(score(b), score(a))), a + b);
    }
    assert_eq!(value(plus(score(f64::MAX), score(f64::MAX))), f64::INFINITY);
    assert_eq!(value(plus(score(f64::INFINITY), score(1.0))), f64::INFINITY);
    assert_eq!(value(plus(score(0.0), score(0.25))), 0.25);
}

#[test]
fn scores_compare_as_numbers_do() {
    let values = [
        f64::NEG_INFINITY,
        -2.0,
        -0.5,
        -0.0,
        0.0,
        f64::MIN_POSITIVE,
        0.6,
        1.0,
        10.0,
        f64::INFINITY,
        f64::NAN,
    ];
    for a in values {
        for b in values {
            assert_eq!(score(a).is_at_least(&score(b)), a >= b, "{a} {b}");
        }
        assert_eq!(score(a).no_number(), a.is_nan());
    }
    assert_eq!(score(-0.0).get_rank(), score(0.0).get_rank());
}

#[test]
fn named_bits_are_those_of_their_numbers() {
    assert_eq!(f64::from_bits(ZERO_BITS), 0.0);
    assert_eq!(f64::from_bits(ONE_BITS), 1.0);
    assert_eq!(f64::from_bits(TEN_BITS), 10.0);
    assert_eq!(f64::from_bits(INFINITY_BITS), f64::INFINITY);
    assert_eq!(SIGN_BIT, (-0.0f64).to_bits());
}
