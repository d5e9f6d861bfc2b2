use noverlap::{isqrt, quotient, DAMPING_DIVISOR, JITTER_SPAN, LIMIT, UNIT};

#[test]
fn isqrt_of_small_numbers() {
    assert_eq!(isqrt(0), 0);
    assert_eq!(isqrt(1), 1);
    assert_eq!(isqrt(2), 1);
    assert_eq!(isqrt(3), 1);
    assert_eq!(isqrt(4), 2);
    assert_eq!(isqrt(24), 4);
    assert_eq!(isqrt(25), 5);
}

#[test]
fn isqrt_rounds_down() {
    assert_eq!(isqrt(1_000_000_000_000), 1_000_000);
    assert_eq!(isqrt(999_999_999_999), 999_999);
    assert_eq!(isqrt(500_000_000_000), 707_106);
}

#[test]
fn isqrt_of_the_largest_number() {
    assert_eq!(isqrt(u128::MAX), u64::MAX);
}

#[test]
fn isqrt_brackets_its_argument() {
    for &n in &[7u128, 1_000_003, 8_000_000_000_000_000_000_000_000, 1 << 100] {
        let r = isqrt(n) as u128;
        assert!(r * r <= n);
        assert!((r + 1) * (r + 1) > n);
    }
}

#[test]
fn quotient_rounds_toward_zero() {
    assert_eq!(quotient(7, 2), 3);
    assert_eq!(quotient(-7, 2), -3);
    assert_eq!(quotient(-1, 1_000_000), 0);
    assert_eq!(quotient(6, 3), 2);
    assert_eq!(quotient(-6, 3), -2);
    assert_eq!(quotient(0, 5), 0);
}

#[test]
fn constants_are_those_of_the_scale() {
    assert_eq!(UNIT, 1_000_000);
    assert_eq!(LIMIT, 1_000_000 * UNIT);
    // Jitter stays below five thousandths of a unit.
    assert_eq!(JITTER_SPAN as f64 / UNIT as f64, 0.005);
    // Damping is one tenth.
    assert_eq!(1.0 / DAMPING_DIVISOR as f64, 0.1);
}
