use ratio_calc::primes::{gcd, next_prime};
use ratio_calc::{Error, Rational};

#[test]
fn gcd_matches_euclid() {
    assert_eq!(gcd(12, 18), 6);
    assert_eq!(gcd(100, 75), 25);
    assert_eq!(gcd(17, 13), 1);
    assert_eq!(gcd(1, 999), 1);
    assert_eq!(gcd(36, 36), 36);
}

#[test]
fn gcd_of_zero_is_the_other_value() {
    assert_eq!(gcd(0, 7), 7);
    assert_eq!(gcd(7, 0), 7);
    assert_eq!(gcd(0, 0), 0);
}

#[test]
fn prime_cache_grows_in_order() {
    let mut cache: Vec<u64> = Vec::new();
    let mut found: Vec<u64> = Vec::new();
    while let Some(p) = next_prime(&mut cache, 12) {
        found.push(p);
    }
    assert_eq!(found, vec![2, 3, 5, 7, 11]);
}

#[test]
fn prime_cache_respects_the_limit() {
    let mut cache: Vec<u64> = Vec::new();
    assert_eq!(next_prime(&mut cache, 1), None);
    assert_eq!(next_prime(&mut cache, 2), Some(2));
    assert_eq!(next_prime(&mut cache, 2), None);
}

#[test]
fn normalize_reduces_to_lowest_terms() {
    let r = Rational::new(6, 8).normalize();
    assert_eq!(r.num(), 3);
    assert_eq!(r.den(), 4);
}

#[test]
fn normalize_keeps_signs_as_stored() {
    let r = Rational::new(6, -8).normalize();
    assert_eq!(r.num(), 3);
    assert_eq!(r.den(), -4);
    let r = Rational::new(-6, -8).normalize();
    assert_eq!(r.num(), -3);
    assert_eq!(r.den(), -4);
}

#[test]
fn normalize_is_idempotent_on_values() {
    let once = Rational::new(84, 126).normalize();
    let twice = once.normalize();
    assert_eq!(once.num(), twice.num());
    assert_eq!(once.den(), twice.den());
    assert_eq!(once.num(), 2);
    assert_eq!(once.den(), 3);
}

#[test]
fn add_equals_reduced_raw_sum() {
    // 1/2 + 1/3 = (1*3 + 1*2) / 6 = 5/6, already reduced
    let s = Rational::new(1, 2).add(Rational::new(1, 3));
    assert_eq!(s.num(), 5);
    assert_eq!(s.den(), 6);
    // 2/4 + 1/4 = 12/16, reduced by the gcd 4 to 3/4; cross-multiplied
    // they agree: 3 * 16 == 12 * 4
    let t = Rational::new(2, 4).add(Rational::new(1, 4));
    assert_eq!(t.num() * 16, 12 * t.den());
    assert_eq!(t.num(), 3);
    assert_eq!(t.den(), 4);
}

#[test]
fn sub_mul_div_reduce() {
    let d = Rational::new(1, 2).sub(Rational::new(1, 3));
    assert_eq!(d.num(), 1);
    assert_eq!(d.den(), 6);
    let m = Rational::new(2, 3).mul(Rational::new(3, 4));
    assert_eq!(m.num(), 1);
    assert_eq!(m.den(), 2);
    let q = Rational::new(1, 2).div(Rational::new(3, 4));
    assert_eq!(q.num(), 2);
    assert_eq!(q.den(), 3);
}

#[test]
fn checked_div_rejects_zero_numerator() {
    let zero = Rational::new(0, 5);
    match Rational::new(7, 3).checked_div(zero) {
        Err(e) => assert_eq!(e, Error::DivisionByZero),
        Ok(_) => panic!("a zero-valued divisor must be rejected"),
    }
}

#[test]
fn checked_div_accepts_nonzero() {
    let q = Rational::new(1, 2).checked_div(Rational::new(2, 1)).unwrap();
    assert_eq!(q.num(), 1);
    assert_eq!(q.den(), 4);
}

#[test]
fn neg_flips_the_numerator_only() {
    let n = Rational::new(3, 4).neg();
    assert_eq!(n.num(), -3);
    assert_eq!(n.den(), 4);
}

#[test]
fn integer_operands_scale_by_the_denominator() {
    let a = Rational::new(1, 2).add_int(1);
    assert_eq!(a.num(), 3);
    assert_eq!(a.den(), 2);
    let s = Rational::new(1, 2).sub_int(1);
    assert_eq!(s.num(), -1);
    assert_eq!(s.den(), 2);
    let m = Rational::new(3, 4).mul_int(2);
    assert_eq!(m.num(), 3);
    assert_eq!(m.den(), 2);
    let d = Rational::new(1, 2).div_int(2);
    assert_eq!(d.num(), 1);
    assert_eq!(d.den(), 4);
}

#[test]
fn product_folds_from_one() {
    let items = vec![
        Rational::new(1, 2),
        Rational::new(2, 3),
        Rational::new(9, 1),
    ];
    let p = Rational::product(&items);
    assert_eq!(p.num(), 3);
    assert_eq!(p.den(), 1);
    let empty: Vec<Rational> = Vec::new();
    let one = Rational::product(&empty);
    assert_eq!(one.num(), 1);
    assert_eq!(one.den(), 1);
}

#[test]
fn default_is_zero_over_one() {
    let z = Rational::default();
    assert_eq!(z.num(), 0);
    assert_eq!(z.den(), 1);
}

#[test]
fn from_int_has_denominator_one() {
    let v = Rational::from_int(-9);
    assert_eq!(v.num(), -9);
    assert_eq!(v.den(), 1);
}

#[test]
fn display_whole_numbers_plainly() {
    assert_eq!(Rational::new(5, 1).display(), "5");
    assert_eq!(Rational::new(-5, 1).display(), "-5");
    assert_eq!(Rational::new(0, 1).display(), "0");
}

#[test]
fn display_negates_for_denominator_minus_one() {
    assert_eq!(Rational::new(3, -1).display(), "-3");
    assert_eq!(Rational::new(-3, -1).display(), "3");
}

#[test]
fn display_mixed_layout_follows_truncating_division() {
    // 7/2: quotient 3, remainder 1, denominator 2
    assert_eq!(Rational::new(7, 2).display(), "31/2");
    // -7/2: quotient -3, remainder -1 with the numerator's sign
    assert_eq!(Rational::new(-7, 2).display(), "-3-1/2");
    // a negative denominator flows into quotient and tail unchanged
    assert_eq!(Rational::new(7, -2).display(), "-31/-2");
}

#[test]
fn display_multi_digit_components() {
    assert_eq!(Rational::new(1234, 1).display(), "1234");
    assert_eq!(Rational::new(25, 12).display(), "21/12");
}
