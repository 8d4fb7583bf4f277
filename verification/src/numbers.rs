//! Arbitrary-precision integers held as plain little-endian limbs; the arithmetic
//! itself is done by `malachite`.

use malachite::base::num::arithmetic::traits::{ModPow, UnsignedAbs};
use malachite::base::num::conversion::traits::{OverflowingFrom, WrappingFrom};
use malachite::base::num::logic::traits::SignificantBits;
use core::str::FromStr;
use malachite::{Integer, Natural};
use vstd::arithmetic::power2::pow2;
use vstd::prelude::*;

verus! {

#[verifier::external_type_specification]
#[verifier::external_body]
pub struct ExNatural(Natural);

#[verifier::external_type_specification]
#[verifier::external_body]
pub struct ExInteger(Integer);

/// The value of little-endian 64-bit limbs.
pub open spec fn limbs_value(s: Seq<u64>) -> nat
    decreases s.len(),
{
    if s.len() == 0 {
        0
    } else {
        s[0] as nat + 0x1_0000_0000_0000_0000 * limbs_value(s.drop_first())
    }
}

/// A natural number of any size.
pub struct BigNat {
    limbs: Vec<u64>,
}

impl View for BigNat {
    type V = nat;

    closed spec fn view(&self) -> nat {
        limbs_value(self.limbs@)
    }
}

/// An integer of any size: a sign and a magnitude.
pub struct BigInt {
    neg: bool,
    mag: BigNat,
}

impl View for BigInt {
    type V = int;

    closed spec fn view(&self) -> int {
        if self.neg {
            -(self.mag@ as int)
        } else {
            self.mag@ as int
        }
    }
}

impl BigNat {
    pub fn from_u64(x: u64) -> (r: BigNat)
        ensures
            r@ == x,
    {
        let r = BigNat { limbs: vec![x] };
        proof {
            assert(r.limbs@.drop_first() =~= Seq::<u64>::empty());
            reveal_with_fuel(limbs_value, 2);
        }
        r
    }

    /// The natural with the little-endian 64-bit limbs `limbs`.
    pub fn from_limbs(limbs: Vec<u64>) -> (r: BigNat)
        ensures
            r@ == limbs_value(limbs@),
    {
        BigNat { limbs }
    }

    /// The little-endian 64-bit limbs of the value.
    pub fn limbs(&self) -> (r: &Vec<u64>)
        ensures
            limbs_value(r@) == self@,
    {
        &self.limbs
    }

    /// The `malachite` natural with the same value.
    #[verifier::external_body]
    fn to_malachite(&self) -> Natural {
        Natural::from_limbs_asc(&self.limbs)
    }

    /// The plain limbs of a `malachite` natural.
    #[verifier::external_body]
    fn of_malachite(n: &Natural) -> BigNat {
        BigNat { limbs: n.to_limbs_asc() }
    }

    /// `Natural + Natural`, which is exact.
    #[verifier::external_body]
    pub(crate) fn add(&self, other: &BigNat) -> (r: BigNat)
        ensures
            r@ == self@ + other@,
    {
        BigNat::of_malachite(&(self.to_malachite() + other.to_malachite()))
    }
}

/// The value of the decimal digits `s`.
pub open spec fn digits_value(s: Seq<char>) -> nat
    decreases s.len(),
{
    if s.len() == 0 {
        0
    } else {
        (10 * digits_value(s.drop_last()) + (s.last() as int - '0' as int)) as nat
    }
}

/// `s` is one or more ASCII decimal digits.
pub open spec fn all_digits(s: Seq<char>) -> bool {
    s.len() > 0 && forall|i: int| 0 <= i < s.len() ==> '0' <= #[trigger] s[i] <= '9'
}

/// What `Natural::from_str` accepts: an optional `+` and then decimal digits.
pub open spec fn decimal_text_value(s: Seq<char>) -> Option<nat> {
    if s.len() > 0 && s[0] == '+' {
        if all_digits(s.drop_first()) {
            Some(digits_value(s.drop_first()))
        } else {
            None
        }
    } else if all_digits(s) {
        Some(digits_value(s))
    } else {
        None
    }
}

impl BigNat {
    /// `Natural::from_str` on the text made of `chars`.
    #[verifier::external_body]
    pub(crate) fn from_decimal(chars: &Vec<char>) -> (r: Option<BigNat>)
        ensures
            r is Some <==> decimal_text_value(chars@) is Some,
            r matches Some(n) ==> n@ == decimal_text_value(chars@).unwrap(),
    {
        match Natural::from_str(&chars.iter().collect::<String>()) {
            Ok(n) => Some(BigNat::of_malachite(&n)),
            Err(()) => None,
        }
    }

    /// An exact copy.
    pub fn copy(&self) -> (r: BigNat)
        ensures
            r@ == self@,
    {
        BigNat { limbs: self.limbs.clone() }
    }

    /// `Natural - Natural`, which is exact where it does not go below zero.
    #[verifier::external_body]
    pub(crate) fn sub(&self, other: &BigNat) -> (r: BigNat)
        requires
            other@ <= self@,
        ensures
            r@ == self@ - other@,
    {
        BigNat::of_malachite(&(self.to_malachite() - other.to_malachite()))
    }

    /// `Natural * u64`, which is exact.
    #[verifier::external_body]
    pub(crate) fn mul_u64(&self, k: u64) -> (r: BigNat)
        ensures
            r@ == self@ * k,
    {
        BigNat::of_malachite(&(self.to_malachite() * Natural::from(k)))
    }

    /// `Natural / u64`, rounded down.
    #[verifier::external_body]
    pub(crate) fn div_u64(&self, k: u64) -> (r: BigNat)
        requires
            k > 0,
        ensures
            r@ == self@ / (k as nat),
    {
        BigNat::of_malachite(&(self.to_malachite() / Natural::from(k)))
    }

    /// `Natural < Natural`
    #[verifier::external_body]
    pub(crate) fn lt(&self, other: &BigNat) -> (r: bool)
        ensures
            r == (self@ < other@),
    {
        self.to_malachite() < other.to_malachite()
    }

    /// `usize::try_from(&Natural)`
    #[verifier::external_body]
    pub(crate) fn to_usize(&self) -> (r: Option<usize>)
        ensures
            r matches Some(k) ==> k == self@,
            r is None ==> self@ > usize::MAX,
    {
        usize::try_from(&self.to_malachite()).ok()
    }

    /// `u64::overflowing_from(&Natural)`, where it does not overflow.
    #[verifier::external_body]
    pub(crate) fn to_u64(&self) -> (r: Option<u64>)
        ensures
            r matches Some(k) ==> k == self@,
            r is None ==> self@ > u64::MAX,
    {
        let (small, overflowed) = u64::overflowing_from(&self.to_malachite());
        if overflowed { None } else { Some(small) }
    }

    /// `Natural::significant_bits`: the number of binary digits.
    #[verifier::external_body]
    pub(crate) fn significant_bits(&self) -> (r: u64)
        ensures
            r == crate::model::bit_length(self@),
    {
        self.to_malachite().significant_bits()
    }
}

impl BigInt {
    /// The `malachite` integer with the same value.
    #[verifier::external_body]
    pub(crate) fn to_malachite(&self) -> Integer {
        Integer::from_sign_and_abs(!self.neg, self.mag.to_malachite())
    }

    /// The sign and magnitude of a `malachite` integer.
    #[verifier::external_body]
    pub(crate) fn of_malachite(x: &Integer) -> BigInt {
        BigInt { neg: *x < 0, mag: BigNat::of_malachite(&x.unsigned_abs()) }
    }

    pub fn zero() -> (r: BigInt)
        ensures
            r@ == 0,
    {
        BigInt { neg: false, mag: BigNat::from_u64(0) }
    }

    /// The integer with sign `neg` (negative where set) and magnitude `mag`.
    pub fn from_parts(neg: bool, mag: BigNat) -> (r: BigInt)
        ensures
            r@ == (if neg { -(mag@ as int) } else { mag@ as int }),
    {
        BigInt { neg, mag }
    }

    /// The sign: set for a negative integer (and possibly for zero).
    pub fn is_negative(&self) -> (r: bool)
        ensures
            r ==> self@ <= 0,
            self@ < 0 ==> r,
    {
        self.neg
    }

    /// The absolute value.
    pub fn magnitude(&self) -> (r: &BigNat)
        ensures
            r@ as int == (if self@ < 0 { -self@ } else { self@ }),
    {
        &self.mag
    }

    pub fn from_nat(n: &BigNat) -> (r: BigInt)
        ensures
            r@ == n@,
    {
        BigInt { neg: false, mag: BigNat { limbs: n.limbs.clone() } }
    }

    /// `Integer + i64`, which is exact.
    #[verifier::external_body]
    pub(crate) fn add_i64(&self, k: i64) -> (r: BigInt)
        ensures
            r@ == self@ + k,
    {
        BigInt::of_malachite(&(self.to_malachite() + Integer::from(k)))
    }

    /// `Integer + Integer`, which is exact.
    #[verifier::external_body]
    pub(crate) fn add(&self, other: &BigInt) -> (r: BigInt)
        ensures
            r@ == self@ + other@,
    {
        BigInt::of_malachite(&(self.to_malachite() + other.to_malachite()))
    }

    /// `Integer - Integer`, which is exact.
    #[verifier::external_body]
    pub(crate) fn sub(&self, other: &BigInt) -> (r: BigInt)
        ensures
            r@ == self@ - other@,
    {
        BigInt::of_malachite(&(self.to_malachite() - other.to_malachite()))
    }

    /// `Integer * i64`, which is exact.
    #[verifier::external_body]
    pub(crate) fn mul_i64(&self, k: i64) -> (r: BigInt)
        ensures
            r@ == self@ * k,
    {
        BigInt::of_malachite(&(self.to_malachite() * Integer::from(k)))
    }

    /// `Integer == Integer`
    #[verifier::external_body]
    pub(crate) fn eq(&self, other: &BigInt) -> (r: bool)
        ensures
            r == (self@ == other@),
    {
        self.to_malachite() == other.to_malachite()
    }

    /// `Integer >= i64`
    #[verifier::external_body]
    pub(crate) fn ge_i64(&self, k: i64) -> (r: bool)
        ensures
            r == (self@ >= k),
    {
        self.to_malachite() >= k
    }

    /// `i64::try_from(&Integer)`
    #[verifier::external_body]
    pub(crate) fn to_i64(&self) -> (r: Option<i64>)
        ensures
            r matches Some(k) ==> k == self@,
            r is None ==> self@ < i64::MIN || self@ > i64::MAX,
    {
        i64::try_from(&self.to_malachite()).ok()
    }

    /// `u8::wrapping_from(&Integer)`: the lowest byte of the two's complement.
    #[verifier::external_body]
    pub(crate) fn low_byte(&self) -> (r: u8)
        ensures
            r == self@ % 256,
    {
        u8::wrapping_from(&self.to_malachite())
    }

    /// `2^exp mod d` by `malachite`'s modular exponentiation.
    #[verifier::external_body]
    pub(crate) fn mod_pow2(exp: &BigInt, d: u64) -> (r: u64)
        requires
            exp@ >= 0,
            d > 2,
        ensures
            r == pow2(exp@ as nat) % (d as nat),
    {
        let m = Natural::from(2u32).mod_pow(exp.to_malachite().unsigned_abs(), Natural::from(d));
        u64::wrapping_from(&m)
    }
}

} // verus!
