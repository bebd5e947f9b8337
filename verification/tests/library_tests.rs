use ni_number::backend::dashu_backend::DashuBackend;
use ni_number::bigint::BigInt;
use ni_number::cache::{round_up, NiCache};
use ni_number::compute::{compute, compute_term, digits_to_bits};
use ni_number::decimal::{find_char_in, format_fixed};
use ni_number::nearest_double::ceil_nearest_double_exec;
use ni_number::{bits_for_digits, clear_cache, ni_number, ni_number_digits, ni_series};

#[test]
fn digits_to_bits_exact_values() {
    assert_eq!(digits_to_bits(0), 64);
    assert_eq!(digits_to_bits(1), 68);
    assert_eq!(digits_to_bits(3), 74);
    assert_eq!(digits_to_bits(50), 231);
    assert_eq!(digits_to_bits(100), 397);
    assert_eq!(bits_for_digits(1000), 3386);
}

#[test]
fn digits_to_bits_stays_within_one_of_the_floor() {
    for d in [0u32, 1, 7, 50, 999, 123_456] {
        let exact = (d as f64 * std::f64::consts::LOG2_10).ceil() as u32 + 64;
        assert_eq!(digits_to_bits(d), exact);
    }
}

#[test]
fn ceil_nearest_double_rounds_the_quotient() {
    // 10 / 4 = 2.5 → 3; 8 / 4 = 2 → 2
    assert_eq!(ceil_nearest_double_exec(10, 4), 3);
    assert_eq!(ceil_nearest_double_exec(8, 4), 2);
    assert_eq!(ceil_nearest_double_exec(0, 7), 0);
}

#[test]
fn round_up_is_the_next_multiple() {
    assert_eq!(round_up(0, 64), 0);
    assert_eq!(round_up(100, 64), 128);
    assert_eq!(round_up(127, 64), 128);
    assert_eq!(round_up(129, 64), 192);
    assert_eq!(round_up(10, 3), 12);
    for n in [1u32, 63, 64, 65, 1000, 4096] {
        let r = round_up(n, 64);
        assert_eq!(r % 64, 0);
        assert!(n <= r && r < n + 64);
    }
}

#[test]
fn mul_div_and_conversions_compute() {
    let p = 64;
    let two = DashuBackend::from_u64(2, p);
    let three = DashuBackend::from_u64(3, p);
    let six = DashuBackend::mul(&two, &three, p);
    assert_eq!(six.to_decimal_string(3), "6.000");
    let one = DashuBackend::from_u64(1, p);
    let four = DashuBackend::from_u64(4, p);
    let quarter = DashuBackend::div(&one, &four, p);
    assert_eq!(quarter.to_decimal_string(4), "0.2500");
    let eight = DashuBackend::two_pow(3, p);
    assert_eq!(eight.to_decimal_string(1), "8.0");
}

#[test]
fn add_assign_abs_and_lt() {
    let p = 64;
    let mut a = DashuBackend::from_u64(5, p);
    let b = DashuBackend::from_u64(7, p);
    a.add_assign(&b);
    assert_eq!(a.to_decimal_string(2), "12.00");
    assert!(b.lt(&a));
    assert!(!a.lt(&b));
    assert!(!a.lt(&a));
    let z = DashuBackend::zero(p);
    assert!(z.lt(&b));
    assert_eq!(b.abs().to_decimal_string(0), "7");
    assert!(!BigInt::from_u64(3).is_negative());
    assert_eq!(z.to_decimal_string(3), "0.000");
}

#[test]
fn epsilon_is_tiny_and_positive() {
    let eps = DashuBackend::epsilon(0);
    let zero = DashuBackend::zero(0);
    assert!(zero.lt(&eps));
    // 2^-64 ≈ 5.42e-20
    assert_eq!(eps.to_decimal_string(22), "0.0000000000000000000542");
}

#[test]
fn pi_has_many_correct_digits() {
    let pi = DashuBackend::pi(256);
    assert!(pi
        .to_decimal_string(60)
        .starts_with("3.14159265358979323846264338327950288419716939937510582097494"));
}

#[test]
fn series_steps_count_up_and_sums_add_terms() {
    let mut series = ni_series(128);
    let first = series.next().unwrap();
    let second = series.next().unwrap();
    assert_eq!(first.n, 1);
    assert_eq!(second.n, 2);
    let mut expected = DashuBackend::zero(128);
    expected.add_assign(&first.term);
    assert_eq!(first.sum.to_decimal_string(30), expected.to_decimal_string(30));
    expected.add_assign(&second.term);
    assert_eq!(second.sum.to_decimal_string(30), expected.to_decimal_string(30));
    assert!(second.term.lt(&first.term));
}

#[test]
fn series_terms_strictly_decrease() {
    let mut series = ni_series(64);
    let mut previous = series.next().unwrap();
    for _ in 0..12 {
        let step = series.next().unwrap();
        assert!(step.term.lt(&previous.term));
        assert!(!step.sum.lt(&previous.sum));
        previous = step;
    }
}

#[test]
fn compute_term_zero_is_zero() {
    let t = compute_term(0, 64);
    assert_eq!(t.to_decimal_string(5), "0.00000");
}

#[test]
fn compute_term_matches_series_steps() {
    let mut series = ni_series(128 + 64);
    for n in 1..=5u32 {
        let step = series.next().unwrap();
        assert_eq!(
            compute_term(n, 128).to_decimal_string(40),
            step.term.to_decimal_string(40)
        );
    }
}

#[test]
fn compute_agrees_at_nearby_precisions() {
    let a = compute(256).to_decimal_string(60);
    let b = compute(320).to_decimal_string(60);
    assert_eq!(&a[..55], &b[..55]);
}

#[test]
fn cache_shares_rounded_keys() {
    let mut cache = NiCache::new();
    let a = cache.get_or_compute(100).to_decimal_string(30);
    let b = cache.get_or_compute(128).to_decimal_string(30);
    let c = compute(128).to_decimal_string(30);
    assert_eq!(a, b);
    assert_eq!(a, c);
}

#[test]
fn cleared_cache_gives_the_same_text() {
    let mut cache = NiCache::new();
    let a = ni_number_digits(&mut cache, 40);
    clear_cache(&mut cache);
    let b = ni_number_digits(&mut cache, 40);
    assert_eq!(a, b);
    let c = ni_number(&mut cache, 64).to_decimal_string(10);
    assert_eq!(c, "1.8893766604");
}

#[test]
fn digit_strings_have_exactly_the_requested_fraction() {
    let mut cache = NiCache::new();
    for d in [1u32, 2, 7, 33, 120] {
        let s = ni_number_digits(&mut cache, d);
        let dot = s.find('.').unwrap();
        assert_eq!(s.len() - dot - 1, d as usize);
        assert!(s.starts_with("1.8"));
    }
}

#[test]
fn find_char_in_finds_the_first() {
    assert_eq!(find_char_in("1.2.3", '.'), Some(1));
    assert_eq!(find_char_in("123", '.'), None);
    assert_eq!(find_char_in("", '.'), None);
}

#[test]
fn format_fixed_cuts_and_pads() {
    assert_eq!(format_fixed(&"1.23456".to_string(), 2), "1.23");
    assert_eq!(format_fixed(&"1.5".to_string(), 3), "1.500");
    assert_eq!(format_fixed(&"12".to_string(), 2), "12.00");
    assert_eq!(format_fixed(&"-0.125".to_string(), 1), "-0.1");
    assert_eq!(format_fixed(&"3".to_string(), 0), "3");
}

#[test]
fn zero_digits_round_the_value_to_the_nearest_integer() {
    let p = 64;
    let ratio = |a: u64, b: u64| DashuBackend::div(&DashuBackend::from_u64(a, p), &DashuBackend::from_u64(b, p), p);
    assert_eq!(ratio(249996, 100000).to_decimal_string(0), "2");
    assert_eq!(ratio(5, 2).to_decimal_string(0), "3");
    assert_eq!(ratio(12, 10).to_decimal_string(0), "1");
    assert_eq!(ratio(1, 3).to_decimal_string(0), "0");
    assert_eq!(DashuBackend::from_u64(123456, p).to_decimal_string(0), "123456");
    assert_eq!(DashuBackend::zero(p).to_decimal_string(0), "0");
}

#[test]
fn rounded_integer_is_nearest() {
    let p = 64;
    let x = DashuBackend::div(&DashuBackend::from_u64(7, p), &DashuBackend::from_u64(2, p), p);
    let n = x.rounded_integer();
    assert_eq!(n.words, vec![4u64]);
    assert!(!n.is_negative());
}

#[test]
fn bigint_words_and_zero() {
    let x = BigInt::from_u64(42);
    assert!(!x.is_zero());
    assert!(BigInt::from_u64(0).is_zero());
    let y = x.copy();
    assert_eq!(y.words, x.words);
    assert_eq!(y.negative, x.negative);
}

#[test]
fn significant_decimal_rounds_to_the_digits() {
    let third = DashuBackend::div(&DashuBackend::from_u64(1, 64), &DashuBackend::from_u64(3, 64), 64);
    assert_eq!(third.to_significant_decimal(5), "0.33333");
    let two_thirds = DashuBackend::div(&DashuBackend::from_u64(2, 64), &DashuBackend::from_u64(3, 64), 64);
    assert_eq!(two_thirds.to_significant_decimal(3), "0.667");
    assert_eq!(DashuBackend::from_u64(1234, 64).to_significant_decimal(2), "1200");
}

#[test]
fn lower_precision_is_served_from_a_higher_cached_one() {
    let mut cache = NiCache::new();
    let high = ni_number_digits(&mut cache, 1000);
    let low = ni_number_digits(&mut cache, 10);
    assert_eq!(low, "1.8893766604");
    assert!(high.starts_with(&low));
    let direct = compute(3392).to_decimal_string(30);
    assert_eq!(ni_number(&mut cache, 64).to_decimal_string(30), direct);
}

#[test]
fn from_u64_and_two_pow_are_exact() {
    assert_eq!(DashuBackend::from_u64(u64::MAX, 0).to_decimal_string(0), u64::MAX.to_string());
    assert_eq!(DashuBackend::two_pow(100, 0).to_decimal_string(0), "1267650600228229401496703205376");
}

#[test]
fn first_partial_sum_is_the_first_term() {
    let mut series = ni_series(64);
    let step = series.next().unwrap();
    assert_eq!(step.sum.to_significant_decimal(60), step.term.to_significant_decimal(60));
}

#[test]
fn mul_does_not_depend_on_operand_order() {
    let p = 64;
    let pi = DashuBackend::pi(p);
    let third = DashuBackend::div(&DashuBackend::from_u64(1, p), &DashuBackend::from_u64(3, p), p);
    let ab = DashuBackend::mul(&pi, &third, p);
    let ba = DashuBackend::mul(&third, &pi, p);
    assert_eq!(ab.to_significant_decimal(40), ba.to_significant_decimal(40));
    assert!(ab.to_decimal_string(15).starts_with("1.047197551196597"));
}

#[test]
fn more_digits_need_more_bits() {
    let mut last = digits_to_bits(0);
    for d in 1..200u32 {
        let b = digits_to_bits(d);
        assert!(b >= last + 2);
        last = b;
    }
}
