use ni_number::backend::dashu_backend::{DashuBackend, DashuFloat};
use ni_number::cache::{round_up, NiCache};
use ni_number::compute::{compute, compute_term, digits_to_bits};
use ni_number::series::NiSeries;
use ni_number::{clear_cache, ni_number, ni_number_digits, NI_50_DIGITS};

/// η_ν at `f64` precision.
const NI_F64: f64 = 1.8893766604049191_f64;

/// The value as a double, read from its 20-significant-digit decimal text.
fn to_f64(x: &DashuFloat) -> f64 {
    x.to_significant_decimal(20).parse::<f64>().unwrap_or(f64::NAN)
}

/// The partial sum after `steps` steps of a series at `bits`.
fn sum_after(bits: u32, steps: u32) -> f64 {
    let mut series = NiSeries::new(bits);
    let mut last = None;
    for _ in 0..steps {
        last = series.next();
    }
    to_f64(&last.unwrap().sum)
}

#[test]
fn pi_is_correct() {
    let bits = 128;
    let pi = DashuBackend::pi(bits);
    let diff = (to_f64(&pi) - std::f64::consts::PI).abs();
    assert!(diff < 1e-14, "π drift: {:.2e}", diff);
}

#[test]
fn ni_constant_matches_known_value() {
    let val = compute(256);
    let s = val.to_decimal_string(20);
    assert!(s.starts_with("1.88937666040491913"), "wrong value: {}", s);
}

#[test]
fn ni_f64_matches_constant() {
    let val = compute(128);
    let diff = (to_f64(&val) - NI_F64).abs();
    assert!(diff < 1e-13, "drift: {:.2e}", diff);
}

#[test]
fn round_up_works() {
    assert_eq!(round_up(1, 64), 64);
    assert_eq!(round_up(64, 64), 64);
    assert_eq!(round_up(65, 64), 128);
    assert_eq!(round_up(128, 64), 128);
}

#[test]
fn cache_returns_same_value_twice() {
    let mut cache = NiCache::new();
    let a = to_f64(&cache.get_or_compute(128));
    let b = to_f64(&cache.get_or_compute(128));
    assert_eq!(a, b);
}

#[test]
fn cache_clears_correctly() {
    let mut cache = NiCache::new();
    let _ = cache.get_or_compute(128);
    cache.clear();
    let val = to_f64(&cache.get_or_compute(128));
    assert!((val - 1.8893766604_f64).abs() < 1e-9);
}

#[test]
fn test_basic_convergence() {
    const NI_F64_EXPECTED: f64 = 1.8893766604049191;
    let result = compute(64);
    let as_f64: f64 = to_f64(&result);
    let diff = (as_f64 - NI_F64_EXPECTED).abs();
    assert!(
        diff < 1e-10,
        "Result {} differs from expected {} by {}",
        as_f64,
        NI_F64_EXPECTED,
        diff
    );
}

#[test]
fn test_digits_to_bits() {
    assert!(digits_to_bits(50) >= 166);
}

#[test]
fn test_term_n1() {
    let term = compute_term(1, 128);
    let as_f64: f64 = to_f64(&term);
    let expected = std::f64::consts::PI / 2.0;
    assert!((as_f64 - expected).abs() < 1e-14);
}

#[test]
fn test_term_n2() {
    let term = compute_term(2, 128);
    let as_f64: f64 = to_f64(&term);
    let expected = std::f64::consts::PI * std::f64::consts::PI / 32.0;
    assert!((as_f64 - expected).abs() < 1e-14);
}

#[test]
fn test_ni_50_digits_prefix() {
    assert!(NI_50_DIGITS.starts_with("1.889376660"));
}

#[test]
fn verify_50_digits_exact() {
    let bits = digits_to_bits(100);
    let val = compute(bits);
    let computed_str = val.to_decimal_string(50);
    assert_eq!(
        computed_str, NI_50_DIGITS,
        "\nEXPECTED: {}\nCOMPUTED: {}",
        NI_50_DIGITS, computed_str
    );
}

#[test]
fn digits_prefix_is_correct() {
    let mut cache = NiCache::new();
    let s = ni_number_digits(&mut cache, 20);
    assert!(s.starts_with("1.88937666040491913"), "wrong prefix: {}", s);
}

#[test]
fn f64_matches_precomputed_constant() {
    let mut cache = NiCache::new();
    let computed = to_f64(&ni_number(&mut cache, 128));
    assert!(
        (computed - NI_F64).abs() < 1e-13,
        "drift: {:.2e}",
        (computed - NI_F64).abs()
    );
}

#[test]
fn cache_is_idempotent() {
    let mut cache = NiCache::new();
    let a = to_f64(&ni_number(&mut cache, 128));
    let b = to_f64(&ni_number(&mut cache, 128));
    assert_eq!(a, b, "cache returned different values");
}

#[test]
fn series_converges_to_constant() {
    let sum = sum_after(256, 20);
    assert!(
        (sum - NI_F64).abs() < 1e-13,
        "series drift: {:.2e}",
        (sum - NI_F64).abs()
    );
}

#[test]
fn clear_and_recompute_is_stable() {
    let mut cache = NiCache::new();
    let _ = ni_number(&mut cache, 64);
    clear_cache(&mut cache);
    let val = to_f64(&ni_number(&mut cache, 64));
    assert!((val - NI_F64).abs() < 1e-12);
}

#[test]
fn test_zero_digits() {
    let mut cache = NiCache::new();
    let s = ni_number_digits(&mut cache, 0);
    assert_eq!(s, "2", "0 decimal digits should round to 2");
}

#[test]
fn test_massive_cache_jump() {
    let mut cache = NiCache::new();
    clear_cache(&mut cache);
    let _ = ni_number_digits(&mut cache, 10);
    let high = ni_number_digits(&mut cache, 1000);
    assert!(high.starts_with("1.88937666040491913115597775087642096081019761538215"));
}

#[test]
fn series_first_term_is_positive() {
    let step = NiSeries::new(128).next().unwrap();
    println!("term f64 = {}", to_f64(&step.term));
    println!("term str = {}", step.term.to_decimal_string(10));
    assert!(to_f64(&step.term) > 0.0);
}

#[test]
fn series_converges_to_known_value() {
    let sum = sum_after(256, 20);
    assert!(
        (sum - NI_F64).abs() < 1e-14,
        "series drift: {}",
        (sum - NI_F64).abs()
    );
}
