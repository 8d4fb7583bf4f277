use tick_tock_tau::cli::config::parse_natural;
use tick_tock_tau::model::intervals::Interval;
use tick_tock_tau::model::{expected_terms, first_offset, significant_bits};
use tick_tock_tau::numbers::{BigInt, BigNat};

fn big_nat(x: u64) -> BigNat {
    BigNat::from_u64(x)
}

fn big_int(x: i64) -> BigInt {
    BigInt::from_parts(x < 0, BigNat::from_u64(x.unsigned_abs()))
}

fn nat_value(n: &BigNat) -> Option<u64> {
    let limbs = n.limbs();
    if limbs.iter().skip(1).all(|&l| l == 0) {
        Some(limbs.first().copied().unwrap_or(0))
    } else {
        None
    }
}

fn int_value(k: &BigInt) -> Option<i64> {
    let m = i128::from(nat_value(k.magnitude())?);
    i64::try_from(if k.is_negative() { -m } else { m }).ok()
}

#[test]
fn limbs_in_and_out() {
    assert_eq!(big_nat(5).limbs(), &vec![5]);
    assert_eq!(BigNat::from_limbs(vec![1, 2]).limbs(), &vec![1, 2]);
    assert_eq!(nat_value(&BigNat::from_limbs(vec![7, 0, 0])), Some(7));
    assert_eq!(nat_value(&BigNat::from_limbs(vec![])), Some(0));
    assert_eq!(nat_value(&BigNat::from_limbs(vec![0, 1])), None);
}

#[test]
fn signs_and_magnitudes() {
    let minus_seven = big_int(-7);
    assert!(minus_seven.is_negative());
    assert_eq!(nat_value(minus_seven.magnitude()), Some(7));
    assert_eq!(int_value(&minus_seven), Some(-7));
    assert!(!big_int(7).is_negative());
    assert_eq!(int_value(&BigInt::zero()), Some(0));
    assert_eq!(int_value(&BigInt::from_nat(&big_nat(12))), Some(12));
    assert_eq!(int_value(&big_int(i64::MIN)), Some(i64::MIN));
}

#[test]
fn the_terms_a_batch_takes() {
    // (100 + 20) * 8 / 10
    assert_eq!(nat_value(&expected_terms(&big_nat(100), 20)), Some(96));
    assert_eq!(nat_value(&expected_terms(&big_nat(0), 1)), Some(0));
    assert_eq!(nat_value(&expected_terms(&big_nat(1), 1)), Some(1));
    // 2^64 * 8 / 10
    let two_64 = BigNat::from_limbs(vec![0, 1]);
    assert_eq!(nat_value(&expected_terms(&two_64, 0)), Some(14757395258967641292));
    // (2^64 * 2 + usize::MAX) * 8 / 10 needs two limbs
    let r = expected_terms(&BigNat::from_limbs(vec![0, 2]), usize::MAX);
    assert_eq!(nat_value(&r), None);
}

#[test]
fn the_first_offset() {
    assert_eq!(int_value(&first_offset(&big_nat(0))), Some(-8));
    assert_eq!(int_value(&first_offset(&big_nat(5))), Some(32));
    // 8 * 2^64 - 8 = 7 * 2^64 + (2^64 - 8)
    let r = first_offset(&BigNat::from_limbs(vec![0, 1]));
    assert!(!r.is_negative());
    assert_eq!(r.magnitude().limbs()[..2], [u64::MAX - 7, 7]);
}

#[test]
fn naturals_beyond_a_word() {
    let big = parse_natural("18_446_744_073_709_551_616").expect("digits");
    assert_eq!(big.limbs()[..2], [0, 1]);
    let bigger = parse_natural("340282366920938463463374607431768211455").expect("digits");
    assert_eq!(bigger.limbs()[..2], [u64::MAX, u64::MAX]);
}

#[test]
fn integer_parts_of_intervals() {
    let point = |x: i64| Interval::from_integer(&big_int(x)).expect("small");
    assert_eq!(point(-3).try_floor().and_then(|k| int_value(&k)), Some(-3));
    assert_eq!(point(300).try_floor().and_then(|k| int_value(&k)), Some(300));
    // from -3 to 300: 304 integers
    let span = point(-3).maybe().add(&point(300).maybe());
    assert!(matches!(span.inner_int(), Err(n) if int_value(&n) == Some(304)));
}

#[test]
fn significant_bits_of_words() {
    assert_eq!(significant_bits(0), 0);
    assert_eq!(significant_bits(1), 1);
    assert_eq!(significant_bits(2), 2);
    assert_eq!(significant_bits(255), 8);
    assert_eq!(significant_bits(256), 9);
    assert_eq!(significant_bits(u64::MAX), 64);
}
