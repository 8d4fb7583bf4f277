use tick_tock_tau::float::{Approx, Flt, Round};
use tick_tock_tau::model::intervals::Interval;
use tick_tock_tau::model::mod_pow_div;
use tick_tock_tau::numbers::{BigInt, BigNat};

fn big_int(x: i64) -> BigInt {
    BigInt::from_parts(x < 0, BigNat::from_u64(x.unsigned_abs()))
}

fn int_value(k: &BigInt) -> i64 {
    let limbs = k.magnitude().limbs();
    assert!(limbs.iter().skip(1).all(|&l| l == 0));
    let m = i64::try_from(limbs.first().copied().unwrap_or(0)).expect("small");
    if k.is_negative() {
        -m
    } else {
        m
    }
}

fn point(x: i64) -> Interval {
    Interval::from_integer(&big_int(x)).expect("small integers are floats")
}

fn floor_of(iv: &Interval) -> Option<i64> {
    iv.try_floor().map(|k| int_value(&k))
}

/// The float of a small integer, with as many bits as the integer needs.
fn float(x: i64) -> Flt {
    point(x).inf
}

/// The floor of a float.
fn value(f: Flt) -> i64 {
    floor_of(&Interval::from_float(f)).expect("a finite float")
}

fn bounds(iv: &Interval) -> (i64, i64) {
    (value(iv.inf.copy()), value(iv.sup.copy()))
}

#[test]
fn integer_points() {
    let five = point(5);
    assert!(five.bounded());
    assert_eq!(floor_of(&five), Some(5));
    assert!(matches!(five.inner_int(), Ok(k) if int_value(&k) == 5));
    assert!(five.contains(float(5)));
    assert!(!five.contains(float(6)));
    assert!(!five.contains(float(4)));
    assert_eq!(value(five.width()), 0);
    assert_eq!(value(point(4).add(&point(4).maybe()).width()), 4);
}

#[test]
fn zero_and_everything() {
    let zero = Interval::zero();
    assert_eq!(floor_of(&zero), Some(0));
    assert!(zero.contains(Flt::zero()));
    let entire = Interval::entire();
    assert!(!entire.bounded());
    assert!(entire.contains(float(-1_000_000)));
    assert!(entire.contains(Flt::infinity(false)));
    assert!(!entire.contains(Flt::NaN));
}

#[test]
fn sums_and_differences() {
    assert_eq!(floor_of(&point(5).add(&point(7))), Some(12));
    assert_eq!(floor_of(&point(5).sub(&point(7))), Some(-2));
    assert_eq!(floor_of(&point(5).neg()), Some(-5));
    assert_eq!(bounds(&point(-2).maybe().neg()), (0, 2));
    // the sum takes the larger precision, two bits here: 7 rounds out to 6 and 8
    assert_eq!(bounds(&point(4).add(&point(3))), (6, 8));
    assert_eq!(bounds(&point(6).add(&point(2))), (8, 8));
    assert_eq!(bounds(&point(4).sub(&point(-3))), (6, 8));
}

#[test]
fn products() {
    assert_eq!(floor_of(&point(4).mul_natural(3)), Some(12));
    // 15 needs four bits where 5 and 3 have three: the product is rounded outward
    let fifteen = point(5).mul_natural(3);
    assert!(fifteen.contains(float(15)));
    assert_eq!(bounds(&fifteen), (14, 16));
    // three bits: 21 rounds out to 20 and 24
    assert_eq!(bounds(&point(3).mul_natural(7)), (20, 24));
}

#[test]
fn shifts() {
    assert_eq!(floor_of(&point(5).shl(3)), Some(40));
    // 5 / 2 = 2.5
    let half = point(5).shr(1);
    assert_eq!(floor_of(&half), Some(2));
    assert!(matches!(half.inner_int(), Err(n) if int_value(&n) == 0));
    assert_eq!(floor_of(&point(-5).shr(1)), Some(-3));
    assert_eq!(floor_of(&point(12).shr(2)), Some(3));
}

#[test]
fn reciprocals() {
    // 1 / 4, scaled by 256
    assert_eq!(floor_of(&point(4).reciprocal().shl(8)), Some(64));
    // 1 / -8, scaled by 256
    assert_eq!(floor_of(&point(-8).reciprocal().shl(8)), Some(-32));
    // 1 / 3 at two bits lies between 1/4 and 3/8
    let third = point(3).reciprocal().shl(3);
    assert_eq!(bounds(&third), (2, 3));
    // an interval around zero has no bounded reciprocal
    let around_zero = point(-1).maybe();
    assert!(!around_zero.copy().reciprocal().bounded());
}

#[test]
fn hull_with_zero() {
    let up = point(5).maybe();
    assert_eq!(floor_of(&up), None);
    assert!(up.contains(Flt::zero()));
    assert!(up.contains(float(5)));
    assert!(matches!(up.inner_int(), Err(n) if int_value(&n) == 6));
    let down = point(-3).maybe();
    assert!(down.contains(float(-3)));
    assert!(down.contains(Flt::zero()));
    assert!(!down.contains(float(1)));
}

#[test]
fn rounded_endpoints() {
    // 4 has a single bit: the floats next to it are 2 and 8
    let exact = Interval::from_rounded(float(4), Approx::Exact);
    assert_eq!(bounds(&exact), (4, 4));
    let below = Interval::from_rounded(float(4), Approx::Below);
    assert_eq!(bounds(&below), (4, 8));
    assert!(below.contains(float(5)));
    let above = Interval::from_rounded(float(4), Approx::Above);
    assert_eq!(bounds(&above), (2, 4));
    assert!(above.contains(float(3)));
    // 5 has three bits: the floats next to it are 4 and 6
    assert_eq!(bounds(&Interval::from_rounded(float(5), Approx::Below)), (5, 6));
}

#[test]
fn fractions_of_powers_of_two() {
    // 2^3 / 3 = 2 + 2/3, and 2/3 * 256 = 170.67
    assert_eq!(floor_of(&mod_pow_div(&big_int(3), 3, 64).shl(8)), Some(170));
    // 2^-2 / 5 = 1/20, and 256 / 20 = 12.8
    assert_eq!(floor_of(&mod_pow_div(&big_int(-2), 5, 64).shl(8)), Some(12));
    // 2^10 / 1 has no fraction
    assert_eq!(floor_of(&mod_pow_div(&big_int(10), 1, 64).shl(8)), Some(0));
    // 2^100 / 7: 2^100 mod 7 = 2, so 2/7 * 256 = 73.14
    assert_eq!(floor_of(&mod_pow_div(&big_int(100), 7, 64).shl(8)), Some(73));
    // 2^64 mod 1000003 = 350687, and 350687 / 1000003 * 256 = 89.77
    assert_eq!(floor_of(&mod_pow_div(&big_int(64), 1_000_003, 64).shl(8)), Some(89));
}

#[test]
fn fractions_at_two_bits() {
    // 5 at two bits is between 4 and 6, so 1/5 is between 1/8 and 1/4, and 2^-2 / 5
    // between 1/32 and 1/16: scaled by 256, between 8 and 16.
    let coarse = mod_pow_div(&big_int(-2), 5, 2).shl(8);
    assert_eq!(bounds(&coarse), (8, 16));
    assert!(matches!(coarse.inner_int(), Err(n) if int_value(&n) == 9));
}

#[test]
fn natural_points() {
    let seven = Interval::from_natural(&BigNat::from_u64(7)).expect("small");
    assert_eq!(floor_of(&seven), Some(7));
    assert!(matches!(seven.inner_int(), Ok(k) if int_value(&k) == 7));
    let big = BigNat::from_limbs(vec![1, u64::MAX - 1]);
    let square = Interval::from_natural(&big).expect("far below the exponent limit");
    assert!(square.bounded());
    assert!(matches!(square.inner_int(), Ok(_)));
    assert!(square.contains(square.inf.copy()));
    assert!(!square.contains(point(1).shl(127).inf));
}

#[test]
fn intervals_as_text() {
    assert_eq!(point(5).to_text(), "[5.0, 5.0]");
    assert_eq!(point(255).to_text(), "[255.0, 255.0]");
    assert_eq!(Interval::zero().to_text(), "[0.0, 0.0]");
    assert_eq!(Interval::entire().to_text(), "[-Infinity, Infinity]");
    assert_eq!(point(3).shr(1).to_text(), "[1.5, 1.5]");
}

#[test]
fn endpoints_in_hexadecimal() {
    assert_eq!(float(5).debug_text(Round::Floor, false, false), "5#3");
    assert_eq!(float(5).debug_text(Round::Floor, false, true), "0x5#3");
    assert_eq!(float(5).debug_text(Round::Ceiling, true, false), "+5#3");
    assert_eq!(float(-5).debug_text(Round::Floor, false, true), "-0x5#3");
    assert_eq!(float(-5).debug_text(Round::Floor, true, false), "-5#3");
    assert_eq!(float(255).debug_text(Round::Floor, false, false), "ff#8");
    assert_eq!(point(3).shr(1).inf.debug_text(Round::Floor, false, false), "1.8#2");
    assert_eq!(Flt::zero().debug_text(Round::Floor, false, false), "0");
    assert_eq!(Flt::zero().debug_text(Round::Floor, true, true), "+0x0");
    assert_eq!(Flt::zero().neg().debug_text(Round::Floor, false, true), "-0x0");
    assert_eq!(Flt::infinity(false).debug_text(Round::Ceiling, false, true), "inf");
    assert_eq!(Flt::infinity(false).debug_text(Round::Ceiling, true, false), "+inf");
    assert_eq!(Flt::infinity(true).debug_text(Round::Floor, false, false), "-inf");
    assert_eq!(Flt::NaN.debug_text(Round::Floor, true, true), "NaN");
}

#[test]
fn intervals_in_hexadecimal() {
    assert_eq!(point(5).debug_text(false, true), "[0x5#3, 0x5#3]");
    assert_eq!(point(-5).maybe().debug_text(false, false), "[-5#3, 0]");
    assert_eq!(Interval::entire().debug_text(true, false), "[-inf, +inf]");
    assert_eq!(point(4).add(&point(3)).debug_text(false, true), "[0x6#2, 0x8#2]");
}

#[test]
fn fractions_at_one_bit_may_pass_one() {
    // 11 at one bit is between 8 and 16, so 1/11 is between 1/16 and 1/8; times
    // 2^5 mod 11 = 10 this is between 0.625 and 1.25: the upper end is above one.
    let coarse = mod_pow_div(&big_int(5), 11, 1).shl(2);
    assert_eq!(bounds(&coarse), (2, 5));
}

#[test]
fn multiplying_by_zero() {
    assert_eq!(floor_of(&point(5).mul_natural(0)), Some(0));
    assert_eq!(bounds(&point(-3).maybe().mul_natural(0)), (0, 0));
}

#[test]
fn shifting_left_and_back() {
    let iv = Interval::new_unchecked(float(-7), float(12));
    assert_eq!(bounds(&iv.shl(20).shr(20)), (-7, 12));
    assert_eq!(bounds(&iv.shr(2).shl(2)), (-7, 12));
    assert_eq!(bounds(&point(5).shl(3)), (40, 40));
}

#[test]
fn width_covers_the_interval() {
    let iv = Interval::new_unchecked(float(2), float(9));
    assert_eq!(value(iv.width()), 7);
    assert_eq!(value(point(3).width()), 0);
}
