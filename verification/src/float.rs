//! Arbitrary-precision binary floating-point numbers held as plain values. Every
//! rounded operation is done by `malachite_float`; the contracts state the value of
//! the result as a name and the direction in which it was rounded.

use crate::numbers::{limbs_value, BigInt};
use crate::rational::{
    lemma_add_wf, lemma_pw_add, lemma_pw_mono, lemma_pw_pos, lemma_scale2_wf, lemma_val_add, lemma_val_le,
    lemma_val_scale2, pw, val, Rat,
};
use crate::text::{append_decimal, decimal};
use malachite::base::num::arithmetic::traits::{NegAssign, ShlRound, ShrRound};
use malachite::base::num::basic::traits::{Infinity, NaN, NegativeInfinity, NegativeZero, Zero};
use malachite::base::num::conversion::traits::{RawMantissaAndExponent, RoundingFrom};
use malachite::base::rounding_modes::RoundingMode;
use malachite::base::num::conversion::string::options::ToSciOptions;
use malachite::base::num::conversion::traits::ToSci;
use malachite::{Integer, Natural, Rational};
use malachite_float::Float;
use vstd::arithmetic::power2::pow2;
use vstd::prelude::*;

verus! {

#[verifier::external_type_specification]
#[verifier::external_body]
pub struct ExFloat(Float);

#[verifier::external_type_specification]
#[verifier::external_body]
pub struct ExRoundingMode(RoundingMode);

/// The direction of a rounded operation.
#[derive(Clone, Copy, PartialEq, Eq, Structural)]
pub enum Round {
    /// toward negative infinity
    Floor,
    /// toward positive infinity
    Ceiling,
}

/// How a rounded result relates to the exact value.
#[derive(Clone, Copy, PartialEq, Eq, Structural)]
pub enum Approx {
    Below,
    Exact,
    Above,
}

/// A floating-point number as `malachite_float` holds it: the finite nonzero
/// value is `(-1)^neg * mantissa * 2^(exponent - 64 * mantissa.len())`, where the
/// mantissa has `precision` significant bits.
pub enum Flt {
    NaN,
    Infinity { neg: bool },
    Zero { neg: bool },
    Finite { neg: bool, exponent: i32, precision: u64, mantissa: Vec<u64> },
}

/// The mathematical content of a [`Flt`].
pub enum FloatVal {
    NaN,
    Infinity { neg: bool },
    Zero { neg: bool },
    Finite { neg: bool, exponent: int, precision: nat, mantissa: Seq<u64> },
}

impl View for Flt {
    type V = FloatVal;

    open spec fn view(&self) -> FloatVal {
        match self {
            Flt::NaN => FloatVal::NaN,
            Flt::Infinity { neg } => FloatVal::Infinity { neg: *neg },
            Flt::Zero { neg } => FloatVal::Zero { neg: *neg },
            Flt::Finite { neg, exponent, precision, mantissa } => FloatVal::Finite {
                neg: *neg,
                exponent: *exponent as int,
                precision: *precision as nat,
                mantissa: mantissa@,
            },
        }
    }
}

impl FloatVal {
    /// The float is as `malachite_float` keeps one: a finite nonzero value has at
    /// least one limb, its top bit set, as many limbs as its precision needs and no
    /// set bit below its precision, and an exponent within `±(2^30 - 1)`.
    pub open spec fn wf(self) -> bool {
        match self {
            FloatVal::Finite { exponent, precision, mantissa, .. } => {
                &&& mantissa.len() >= 1
                &&& mantissa.last() >= 0x8000_0000_0000_0000
                &&& -0x3fff_ffff <= exponent <= 0x3fff_ffff
                &&& 1 <= precision <= 64 * mantissa.len()
                &&& 64 * mantissa.len() - precision < 64
                &&& limbs_value(mantissa) % pow2((64 * mantissa.len() - precision) as nat) == 0
            },
            _ => true,
        }
    }

    pub open spec fn is_finite(self) -> bool {
        self is Zero || self is Finite
    }

    pub open spec fn is_pos_inf(self) -> bool {
        self matches FloatVal::Infinity { neg } && !neg
    }

    pub open spec fn is_neg_inf(self) -> bool {
        self matches FloatVal::Infinity { neg } && neg
    }

    /// The exact value of a finite number.
    pub open spec fn value(self) -> Rat {
        match self {
            FloatVal::Finite { neg, exponent, mantissa, .. } => {
                let m = limbs_value(mantissa) as int;
                Rat::of_int(if neg { -m } else { m }).scale2(exponent - 64 * mantissa.len())
            },
            _ => Rat::of_int(0),
        }
    }

    /// `self <= q`, in the order of the extended reals (false for NaN).
    pub open spec fn le_rat(self, q: Rat) -> bool {
        match self {
            FloatVal::NaN => false,
            FloatVal::Infinity { neg } => neg,
            _ => self.value().le(q),
        }
    }

    /// `self >= q`, in the order of the extended reals (false for NaN).
    pub open spec fn ge_rat(self, q: Rat) -> bool {
        match self {
            FloatVal::NaN => false,
            FloatVal::Infinity { neg } => !neg,
            _ => q.le(self.value()),
        }
    }

    /// Neither NaN nor positive infinity: fit to bound a set from below.
    pub open spec fn low_ok(self) -> bool {
        !(self is NaN) && !self.is_pos_inf()
    }

    /// Neither NaN nor negative infinity: fit to bound a set from above.
    pub open spec fn high_ok(self) -> bool {
        !(self is NaN) && !self.is_neg_inf()
    }

    /// `self <= other` as `PartialOrd` compares floats.
    pub open spec fn le(self, other: FloatVal) -> bool {
        if self is NaN || other is NaN {
            false
        } else if self.is_neg_inf() || other.is_pos_inf() {
            true
        } else if self.is_pos_inf() || other.is_neg_inf() {
            false
        } else {
            self.value().le(other.value())
        }
    }

    /// `self > 0`
    pub open spec fn gt_zero(self) -> bool {
        self.is_pos_inf() || (self is Finite && Rat::of_int(0).lt(self.value()))
    }

    /// `self < 0`
    pub open spec fn lt_zero(self) -> bool {
        self.is_neg_inf() || (self is Finite && self.value().lt(Rat::of_int(0)))
    }

    /// `self` with its sign flipped.
    pub open spec fn negated(self) -> FloatVal {
        match self {
            FloatVal::NaN => FloatVal::NaN,
            FloatVal::Infinity { neg } => FloatVal::Infinity { neg: !neg },
            FloatVal::Zero { neg } => FloatVal::Zero { neg: !neg },
            FloatVal::Finite { neg, exponent, precision, mantissa } => FloatVal::Finite {
                neg: !neg,
                exponent,
                precision,
                mantissa,
            },
        }
    }
}

/// `r` is a result of rounding the exact value `x` in direction `rm`: on the right
/// side of `x`, and not across zero.
pub open spec fn rounded(r: FloatVal, x: Rat, rm: Round) -> bool {
    match rm {
        Round::Floor => r.le_rat(x) && (Rat::of_int(0).le(x) ==> r.ge_rat(Rat::of_int(0))),
        Round::Ceiling => r.ge_rat(x) && (x.le(Rat::of_int(0)) ==> r.le_rat(Rat::of_int(0))),
    }
}

/// The precision that `malachite_float` reads off a float for an operation: that of a
/// finite nonzero number, and 1 for every other.
pub open spec fn significant_bits(v: FloatVal) -> nat {
    match v {
        FloatVal::Finite { precision, .. } => precision,
        _ => 1,
    }
}

/// The larger of the precisions of two operands.
pub open spec fn max_bits(a: FloatVal, b: FloatVal) -> nat {
    if significant_bits(a) >= significant_bits(b) {
        significant_bits(a)
    } else {
        significant_bits(b)
    }
}

/// The magnitude of `x`.
pub open spec fn magnitude(x: Rat) -> Rat {
    if x.num < 0 {
        x.neg()
    } else {
        x
    }
}

/// `2^e <= |x| < 2^(e + 1)`: `e` is the floor of the binary logarithm of `|x|`.
pub open spec fn in_binade(x: Rat, e: int) -> bool {
    Rat::of_int(1).scale2(e).le(magnitude(x)) && magnitude(x).lt(Rat::of_int(1).scale2(e + 1))
}

/// `r` is as close to `x` as a directed rounding to precision `p` leaves it: where
/// `2^e <= |x| < 2^(e + 1)`, the error is below `2^(e - p + 1)`, one unit in the last
/// place.
pub open spec fn within_rounding_error(r: FloatVal, x: Rat, p: nat) -> bool {
    forall|e: int|
        #[trigger] in_binade(x, e) ==> magnitude(r.value().sub(x)).lt(
            Rat::of_int(1).scale2(e - p + 1),
        )
}

/// `r` is within `|x| * 2^(1 - p)` of `x`: no further from it than one unit in the
/// last place at precision `p` of the binade of `x`.
pub open spec fn within_relative_error(r: FloatVal, x: Rat, p: nat) -> bool {
    magnitude(r.value().sub(x)).le(magnitude(x).scale2(1 - p))
}

/// `q` is in the range of a float's exponent, and its magnitude below `2^(2^30 - 2)`,
/// so that rounding it either way gives a finite float.
pub open spec fn in_safe_range(q: Rat) -> bool {
    in_exponent_range(q) && magnitude(q).lt(Rat::of_int(pow2(0x3fff_fffe) as int))
}

/// The magnitude of `q` is below `2^(2^30 - 1)`, where no rounding overflows to an
/// infinity.
pub open spec fn below_overflow(q: Rat) -> bool {
    magnitude(q).lt(Rat::of_int(pow2(0x3fff_ffff) as int))
}

/// `2^j` as a rational.
pub open spec fn pow2_rat(j: nat) -> Rat {
    Rat::of_int(pow2(j) as int)
}

/// The magnitude of `q` is at most `2^j`.
pub open spec fn at_most_pow2(q: Rat, j: nat) -> bool {
    magnitude(q).le(pow2_rat(j))
}

/// `r` is within `2^e` of `x`.
pub open spec fn error_at_most(r: FloatVal, x: Rat, e: int) -> bool {
    magnitude(r.value().sub(x)).le(Rat::of_int(1).scale2(e))
}

/// The absolute value of `x` is below `2^(2^30 - 1)`, the limit of a float's
/// exponent.
pub open spec fn fits_float_exponent(x: int) -> bool {
    -(pow2(0x3fff_ffff) as int) < x < pow2(0x3fff_ffff)
}

/// The magnitude of `q` is where a float holds `q` exactly, given the bits: from
/// `2^-(2^30)` up to below `2^(2^30 - 1)`.
pub open spec fn in_exponent_range(q: Rat) -> bool {
    let a = if q.num < 0 {
        q.neg()
    } else {
        q
    };
    (Rat { num: 1, den: pow2(0x4000_0000) as int }).le(a) && a.lt(
        Rat::of_int(pow2(0x3fff_ffff) as int),
    )
}

/// The text that `Float`'s `Display` writes.
pub uninterp spec fn float_text(a: FloatVal) -> Seq<char>;

/// The text that `Rational::to_sci_with_options` writes for the exact value of a
/// float in base `base`, rounded in direction `rm`, in full and with trailing zeros.
pub uninterp spec fn float_sci_text(a: FloatVal, base: u8, rm: Round) -> Seq<char>;

/// `s` without its leading minus signs.
pub open spec fn trim_minus(s: Seq<char>) -> Seq<char>
    decreases s.len(),
{
    if s.len() > 0 && s[0] == '-' {
        trim_minus(s.drop_first())
    } else {
        s
    }
}

/// The sign bit of a float (false for NaN).
pub open spec fn sign_negative(v: FloatVal) -> bool {
    match v {
        FloatVal::NaN => false,
        FloatVal::Infinity { neg } => neg,
        FloatVal::Zero { neg } => neg,
        FloatVal::Finite { neg, .. } => neg,
    }
}

/// A float as an interval's `Debug` shows an endpoint: "NaN"; else the sign ("+" for
/// a positive number only where `sign_plus`), then "inf", or "0x" where `alternate`
/// followed by "0" for zero or by the hexadecimal digits of the value, rounded in
/// direction `rm`, a "#" and the precision.
pub open spec fn debug_text(v: FloatVal, rm: Round, sign_plus: bool, alternate: bool) -> Seq<char> {
    if v is NaN {
        "NaN"@
    } else {
        let sign = if sign_plus && !sign_negative(v) {
            "+"@
        } else if sign_negative(v) {
            "-"@
        } else {
            Seq::empty()
        };
        let prefix = if alternate {
            "0x"@
        } else {
            Seq::empty()
        };
        match v {
            FloatVal::Infinity { .. } => sign + "inf"@,
            FloatVal::Zero { .. } => sign + prefix + "0"@,
            FloatVal::Finite { precision, .. } => sign + prefix + trim_minus(
                float_sci_text(v, 16, rm),
            ) + "#"@ + decimal(precision),
            FloatVal::NaN => "NaN"@,
        }
    }
}

/// The result of `Float::add_round`.
pub uninterp spec fn float_add_round(a: FloatVal, b: FloatVal, rm: Round) -> FloatVal;

/// The result of `Float::sub_round`.
pub uninterp spec fn float_sub_round(a: FloatVal, b: FloatVal, rm: Round) -> FloatVal;

/// The result of `Float::mul_round` by the exact float of a natural number.
pub uninterp spec fn float_mul_natural_round(a: FloatVal, k: nat, rm: Round) -> FloatVal;

/// The result of `Float::reciprocal_round`.
pub uninterp spec fn float_reciprocal_round(a: FloatVal, rm: Round) -> FloatVal;

/// The result of `Float::shl_round`.
pub uninterp spec fn float_shl_round(a: FloatVal, k: int, rm: Round) -> FloatVal;

/// The result of `Float::shr_round`.
pub uninterp spec fn float_shr_round(a: FloatVal, k: int, rm: Round) -> FloatVal;

/// The result of `Float::from_natural_prec`, which rounds to nearest.
pub uninterp spec fn float_from_natural_prec(n: u64, prec: u64) -> (FloatVal, Approx);

/// The result of `Float::increment`: the next float of the same precision upward.
pub uninterp spec fn float_increment(a: FloatVal) -> FloatVal;

/// The result of `Float::decrement`: the next float of the same precision downward.
pub uninterp spec fn float_decrement(a: FloatVal) -> FloatVal;

/// The result of `Float::try_from(Integer)`, which is exact.
pub uninterp spec fn float_of_integer(x: int) -> FloatVal;

pub proof fn lemma_value_wf(v: FloatVal)
    ensures
        v.value().wf(),
{
    match v {
        FloatVal::Finite { neg, exponent, mantissa, .. } => {
            let m = limbs_value(mantissa) as int;
            lemma_scale2_wf(Rat::of_int(if neg { -m } else { m }), exponent - 64 * mantissa.len());
        },
        _ => {},
    }
}

/// Appends `s` without its leading minus signs.
fn append_trimmed(out: &mut String, s: &str)
    ensures
        final(out)@ == old(out)@ + trim_minus(s@),
{
    let len = s.unicode_len();
    let mut i: usize = 0;
    assert(s@.subrange(0, len as int) =~= s@);
    while i < len && s.get_char(i) == '-'
        invariant
            len == s@.len(),
            i <= len,
            trim_minus(s@) == trim_minus(s@.subrange(i as int, len as int)),
        decreases len - i,
    {
        proof {
            assert(s@.subrange(i as int, len as int).drop_first() =~= s@.subrange(i + 1, len as int));
        }
        i = i + 1;
    }
    out.append(s.substring_char(i, len));
}

impl Round {
    #[verifier::external_body]
    fn to_malachite(self) -> RoundingMode {
        match self {
            Round::Floor => RoundingMode::Floor,
            Round::Ceiling => RoundingMode::Ceiling,
        }
    }
}

impl Flt {
    /// The `malachite_float` number with the same content. For a float that meets
    /// `FloatVal::wf`, `Float::from_raw_mantissa_and_exponent` accepts the mantissa and
    /// exponent, and `set_prec` only raises the precision it derives from the trailing
    /// zeros back to `precision`, which keeps the value.
    #[verifier::external_body]
    fn to_malachite(&self) -> Float {
        match self {
            Flt::NaN => Float::NAN,
            Flt::Infinity { neg } => if *neg { Float::NEGATIVE_INFINITY } else { Float::INFINITY },
            Flt::Zero { neg } => if *neg { Float::NEGATIVE_ZERO } else { Float::ZERO },
            Flt::Finite { neg, exponent, precision, mantissa } => {
                let mut f = Float::from_raw_mantissa_and_exponent(Natural::from_limbs_asc(mantissa), *exponent);
                f.set_prec(*precision);
                if *neg { f.neg_assign(); }
                f
            },
        }
    }

    /// The plain content of a `malachite_float` number.
    #[verifier::external_body]
    fn of_malachite(f: Float) -> Flt {
        let neg = f.is_sign_negative();
        if f.is_nan() {
            Flt::NaN
        } else if f.is_infinite() {
            Flt::Infinity { neg }
        } else if f.is_zero() {
            Flt::Zero { neg }
        } else {
            let precision = f.get_prec().unwrap();
            let (m, exponent) = f.raw_mantissa_and_exponent();
            Flt::Finite { neg, exponent, precision, mantissa: m.to_limbs_asc() }
        }
    }

    pub fn is_finite(&self) -> (r: bool)
        ensures
            r == self@.is_finite(),
    {
        match self {
            Flt::Zero { .. } => true,
            Flt::Finite { .. } => true,
            _ => false,
        }
    }

    pub fn zero() -> (r: Flt)
        ensures
            r@.wf(),
            r@ == (FloatVal::Zero { neg: false }),
    {
        Flt::Zero { neg: false }
    }

    pub fn infinity(neg: bool) -> (r: Flt)
        ensures
            r@.wf(),
            r@ == (FloatVal::Infinity { neg }),
    {
        Flt::Infinity { neg }
    }

    /// An exact copy.
    pub fn copy(&self) -> (r: Flt)
        ensures
            r@ == self@,
    {
        match self {
            Flt::NaN => Flt::NaN,
            Flt::Infinity { neg } => Flt::Infinity { neg: *neg },
            Flt::Zero { neg } => Flt::Zero { neg: *neg },
            Flt::Finite { neg, exponent, precision, mantissa } => Flt::Finite {
                neg: *neg,
                exponent: *exponent,
                precision: *precision,
                mantissa: mantissa.clone(),
            },
        }
    }

    /// Negation, which is exact: it flips the sign.
    pub fn neg(self) -> (r: Flt)
        ensures
            self@.wf() ==> r@.wf(),
            r@ == self@.negated(),
    {
        match self {
            Flt::NaN => Flt::NaN,
            Flt::Infinity { neg } => Flt::Infinity { neg: !neg },
            Flt::Zero { neg } => Flt::Zero { neg: !neg },
            Flt::Finite { neg, exponent, precision, mantissa } => Flt::Finite {
                neg: !neg,
                exponent,
                precision,
                mantissa,
            },
        }
    }

    /// `Float::add_round`: the sum rounded in direction `rm` to the larger of the
    /// two precisions, which is the same in either order. Where the exact sum is in
    /// the exponent range and the result finite, the result has that precision and
    /// lies within one unit in its last place of the sum, as `malachite_float`
    /// documents. Rounding never passes a power of two, which every precision holds:
    /// a sum of magnitude at most `2^j` rounds to a finite float of magnitude at most
    /// `2^j`, within `2^(j + 1 - p)` of the sum at the precision `p` of the result
    /// (where that precision is at most `2^29`, so that an underflow is within it too).
    /// The sum of two zeros is zero.
    #[verifier::external_body]
    pub(crate) fn add_round(&self, other: &Flt, rm: Round) -> (r: Flt)
        requires
            self@.wf(),
            other@.wf(),
        ensures
            r@.wf(),
            r@ == float_add_round(self@, other@, rm),
            r@ == float_add_round(other@, self@, rm),
            self@.is_finite() && other@.is_finite() ==> rounded(
                r@,
                self@.value().add(other@.value()),
                rm,
            ),
            r@ is Finite ==> significant_bits(r@) == max_bits(self@, other@),
            self@.is_finite() && other@.is_finite() && r@.is_finite() && in_exponent_range(
                self@.value().add(other@.value()),
            ) ==> within_rounding_error(r@, self@.value().add(other@.value()), max_bits(self@, other@)),
            self@.is_finite() && other@.is_finite() ==> forall|j: nat|
                j < 0x3fff_fffe && #[trigger] at_most_pow2(self@.value().add(other@.value()), j)
                    ==> r@.is_finite() && at_most_pow2(r@.value(), j) && (max_bits(self@, other@)
                    <= 0x2000_0000 ==> error_at_most(
                    r@,
                    self@.value().add(other@.value()),
                    j + 1 - max_bits(self@, other@),
                )),
            self@ is Zero && other@ is Zero ==> r@ is Zero,
            rm == Round::Floor && self@.low_ok() && other@.low_ok() && (self@.is_neg_inf()
                || other@.is_neg_inf()) ==> r@.is_neg_inf(),
            rm == Round::Ceiling && self@.high_ok() && other@.high_ok() && (self@.is_pos_inf()
                || other@.is_pos_inf()) ==> r@.is_pos_inf(),
    {
        Flt::of_malachite(self.to_malachite().add_round(other.to_malachite(), rm.to_malachite()).0)
    }

    /// `Float::sub_round`: the difference rounded in direction `rm` to the larger of
    /// the two precisions; `malachite_float` computes it as the sum with the negated
    /// second operand. Its precision, its error and the powers of two that it does not
    /// pass are as for the sum.
    #[verifier::external_body]
    pub(crate) fn sub_round(&self, other: &Flt, rm: Round) -> (r: Flt)
        requires
            self@.wf(),
            other@.wf(),
        ensures
            r@.wf(),
            r@ == float_sub_round(self@, other@, rm),
            r@ == float_add_round(self@, other@.negated(), rm),
            self@.is_finite() && other@.is_finite() ==> rounded(
                r@,
                self@.value().sub(other@.value()),
                rm,
            ),
            r@ is Finite ==> significant_bits(r@) == max_bits(self@, other@),
            self@.is_finite() && other@.is_finite() && r@.is_finite() && in_exponent_range(
                self@.value().sub(other@.value()),
            ) ==> within_rounding_error(r@, self@.value().sub(other@.value()), max_bits(self@, other@)),
            self@.is_finite() && other@.is_finite() ==> forall|j: nat|
                j < 0x3fff_fffe && #[trigger] at_most_pow2(self@.value().sub(other@.value()), j)
                    ==> r@.is_finite() && at_most_pow2(r@.value(), j) && (max_bits(self@, other@)
                    <= 0x2000_0000 ==> error_at_most(
                    r@,
                    self@.value().sub(other@.value()),
                    j + 1 - max_bits(self@, other@),
                )),
            self@ is Zero && other@ is Zero ==> r@ is Zero,
            rm == Round::Floor && self@.low_ok() && other@.high_ok() && (self@.is_neg_inf()
                || other@.is_pos_inf()) ==> r@.is_neg_inf(),
            rm == Round::Ceiling && self@.high_ok() && other@.low_ok() && (self@.is_pos_inf()
                || other@.is_neg_inf()) ==> r@.is_pos_inf(),
    {
        Flt::of_malachite(self.to_malachite().sub_round(other.to_malachite(), rm.to_malachite()).0)
    }

    /// `Float::mul_round` by `Float::try_from(k)` (exact): the product rounded in
    /// direction `rm` at the larger of the two precisions (that of `k` has at most 64
    /// bits), so that where it is well
    /// inside the exponent range it is finite and within one unit in the last place at
    /// the precision of `self`.
    #[verifier::external_body]
    pub(crate) fn mul_natural_round(&self, k: u64, rm: Round) -> (r: Flt)
        requires
            self@.wf(),
        ensures
            r@.wf(),
            r@ == float_mul_natural_round(self@, k as nat, rm),
            self@.is_finite() ==> rounded(r@, self@.value().mul_int(k as int), rm),
            k > 0 && self@ is Infinity ==> r@ == self@,
            self@ is Finite && r@ is Finite ==> significant_bits(r@) >= significant_bits(self@)
                && significant_bits(r@) <= significant_bits(self@) + 64,
            self@ is Finite && k > 0 && in_safe_range(self@.value().mul_int(k as int)) ==> r@ is Finite
                && within_relative_error(r@, self@.value().mul_int(k as int), significant_bits(self@)),
    {
        let k = Float::try_from(Natural::from(k)).unwrap();
        Flt::of_malachite(self.to_malachite().mul_round(k, rm.to_malachite()).0)
    }

    /// `Float::reciprocal_round`: `1 / self` rounded in direction `rm`, at the precision
    /// of `self`: where `1 / self` is well inside the exponent range the result is
    /// finite and within one unit in its last place.
    #[verifier::external_body]
    pub(crate) fn reciprocal_round(&self, rm: Round) -> (r: Flt)
        requires
            self@.wf(),
        ensures
            r@.wf(),
            r@ == float_reciprocal_round(self@, rm),
            self@ is Finite && self@.value().num != 0 ==> rounded(r@, self@.value().recip(), rm),
            self@ matches FloatVal::Infinity { neg } ==> r@ == (FloatVal::Zero { neg }),
            self@ is Finite && r@ is Finite ==> significant_bits(r@) == significant_bits(self@),
            self@ is Finite && in_safe_range(self@.value().recip()) ==> r@ is Finite
                && within_relative_error(r@, self@.value().recip(), significant_bits(self@)),
    {
        Flt::of_malachite(self.to_malachite().reciprocal_round(rm.to_malachite()).0)
    }

    /// `Float::shl_round`: `self * 2^k` rounded in direction `rm` (only an overflow or
    /// an underflow of the exponent rounds). An exact shift moves only the exponent,
    /// so shifting back by `k` gives the float back; zero stays zero. Below the
    /// overflow the result is finite: an underflow gives zero or the smallest float,
    /// which passes no power of two.
    #[verifier::external_body]
    pub(crate) fn shl_round(&self, k: i64, rm: Round) -> (r: Flt)
        requires
            self@.wf(),
        ensures
            r@.wf(),
            r@ == float_shl_round(self@, k as int, rm),
            self@ is Finite && in_exponent_range(self@.value().scale2(k as int)) ==> r@ is Finite
                && r@.value().eqv(self@.value().scale2(k as int)),
            self@ is Finite && in_exponent_range(self@.value().scale2(k as int)) ==> forall|
                back: Round,
            | #[trigger] float_shr_round(r@, k as int, back) == self@,
            self@ is Zero ==> r@ == self@ && forall|back: Round|
                #[trigger] float_shr_round(r@, k as int, back) == self@,
            self@.is_finite() ==> rounded(r@, self@.value().scale2(k as int), rm),
            !self@.is_finite() ==> r@ == self@,
            self@ is Finite && below_overflow(self@.value().scale2(k as int)) ==> r@.is_finite(),
            self@ is Finite && r@ is Finite ==> significant_bits(r@) == significant_bits(self@),
            self@.is_finite() ==> forall|j: nat|
                j < 0x3fff_fffe && #[trigger] at_most_pow2(self@.value().scale2(k as int), j)
                    ==> r@.is_finite() && at_most_pow2(r@.value(), j),
    {
        Flt::of_malachite(self.to_malachite().shl_round(k, rm.to_malachite()).0)
    }

    /// `Float::shr_round`: `self / 2^k` rounded in direction `rm` (only an overflow or
    /// an underflow of the exponent rounds).
    #[verifier::external_body]
    pub(crate) fn shr_round(&self, k: i64, rm: Round) -> (r: Flt)
        requires
            self@.wf(),
        ensures
            r@.wf(),
            r@ == float_shr_round(self@, k as int, rm),
            self@ is Zero ==> r@ == self@,
            self@ is Finite && in_exponent_range(self@.value().scale2(-k)) ==> r@ is Finite
                && r@.value().eqv(self@.value().scale2(-k)),
            self@.is_finite() ==> rounded(r@, self@.value().scale2(-k), rm),
            !self@.is_finite() ==> r@ == self@,
    {
        Flt::of_malachite(self.to_malachite().shr_round(k, rm.to_malachite()).0)
    }

    /// `Float::from_natural_prec`: `n` rounded to nearest at precision `prec`, and how
    /// the result compares with `n`. A nonzero result has precision `prec`; it and the
    /// neighbour of the same precision on the other side of `n` (which `increment` or
    /// `decrement` steps to) are each within one unit in the last place of `n`.
    #[verifier::external_body]
    pub(crate) fn from_natural_prec(n: u64, prec: u64) -> (r: (Flt, Approx))
        requires
            prec > 0,
        ensures
            r.0@.wf(),
            (r.0@, r.1) == float_from_natural_prec(n, prec),
            r.0@.is_finite(),
            r.1 == Approx::Exact ==> r.0@.value().le(Rat::of_u64(n)) && Rat::of_u64(n).le(
                r.0@.value(),
            ),
            r.1 == Approx::Below ==> r.0@.value().lt(Rat::of_u64(n)) && r.0@ is Finite
                && float_increment(r.0@).ge_rat(Rat::of_u64(n)),
            r.1 == Approx::Above ==> Rat::of_u64(n).lt(r.0@.value()) && r.0@ is Finite
                && float_decrement(r.0@).le_rat(Rat::of_u64(n)),
            n > 0 ==> r.0@ is Finite && significant_bits(r.0@) == prec && within_relative_error(
                r.0@,
                Rat::of_u64(n),
                significant_bits(r.0@),
            ),
            n > 0 && r.1 == Approx::Below ==> float_increment(r.0@) is Finite && significant_bits(
                float_increment(r.0@),
            ) == prec && within_relative_error(
                float_increment(r.0@),
                Rat::of_u64(n),
                significant_bits(r.0@),
            ),
            n > 0 && r.1 == Approx::Above ==> float_decrement(r.0@) is Finite && significant_bits(
                float_decrement(r.0@),
            ) == prec && within_relative_error(
                float_decrement(r.0@),
                Rat::of_u64(n),
                significant_bits(r.0@),
            ),
    {
        let (f, o) = Float::from_natural_prec(Natural::from(n), prec);
        let o = match o {
            core::cmp::Ordering::Less => Approx::Below,
            core::cmp::Ordering::Equal => Approx::Exact,
            core::cmp::Ordering::Greater => Approx::Above,
        };
        (Flt::of_malachite(f), o)
    }

    /// `Float::increment`: the next float of the same precision upward.
    #[verifier::external_body]
    pub(crate) fn increment(&self) -> (r: Flt)
        requires
            self@.wf(),
            self@ is Finite,
        ensures
            r@.wf(),
            r@ == float_increment(self@),
    {
        let mut f = self.to_malachite();
        f.increment();
        Flt::of_malachite(f)
    }

    /// `Float::decrement`: the next float of the same precision downward.
    #[verifier::external_body]
    pub(crate) fn decrement(&self) -> (r: Flt)
        requires
            self@.wf(),
            self@ is Finite,
        ensures
            r@.wf(),
            r@ == float_decrement(self@),
    {
        let mut f = self.to_malachite();
        f.decrement();
        Flt::of_malachite(f)
    }

    /// `Float::try_from(Integer)`, which is exact; `None` (an overflow error) exactly
    /// where the integer's absolute value is at least `2^(2^30 - 1)`.
    #[verifier::external_body]
    pub(crate) fn of_integer(x: &BigInt) -> (r: Option<Flt>)
        ensures
            r matches Some(f) ==> f@.wf(),
            r is Some <==> fits_float_exponent(x@),
            r matches Some(f) ==> f@ == float_of_integer(x@) && f@.is_finite() && f@.value().le(
                Rat::of_int(x@),
            ) && Rat::of_int(x@).le(f@.value()),
    {
        Float::try_from(x.to_malachite()).ok().map(Flt::of_malachite)
    }

    /// `Integer::rounding_from(&Float, rm)`: the floor or the ceiling, which is exact.
    #[verifier::external_body]
    pub(crate) fn to_integer_round(&self, rm: Round) -> (r: BigInt)
        requires
            self@.wf(),
            self@.is_finite(),
        ensures
            rm == Round::Floor ==> r@ == self@.value().floor(),
            rm == Round::Ceiling ==> r@ == self@.value().ceil(),
    {
        BigInt::of_malachite(&Integer::rounding_from(&self.to_malachite(), rm.to_malachite()).0)
    }

    /// `Float <= Float`
    #[verifier::external_body]
    pub(crate) fn le(&self, other: &Flt) -> (r: bool)
        requires
            self@.wf(),
            other@.wf(),
        ensures
            r == self@.le(other@),
    {
        self.to_malachite() <= other.to_malachite()
    }

    /// `Float > 0`
    #[verifier::external_body]
    pub(crate) fn gt_zero(&self) -> (r: bool)
        requires
            self@.wf(),
        ensures
            r == self@.gt_zero(),
    {
        self.to_malachite() > 0u32
    }

    /// `Float < 0`
    #[verifier::external_body]
    pub(crate) fn lt_zero(&self) -> (r: bool)
        requires
            self@.wf(),
        ensures
            r == self@.lt_zero(),
    {
        self.to_malachite() < 0u32
    }

    /// `Float <= Integer`
    #[verifier::external_body]
    pub(crate) fn le_integer(&self, x: &BigInt) -> (r: bool)
        requires
            self@.wf(),
        ensures
            r == self@.le_rat(Rat::of_int(x@)),
    {
        self.to_malachite() <= x.to_malachite()
    }

    /// `Float >= Integer`
    #[verifier::external_body]
    pub(crate) fn ge_integer(&self, x: &BigInt) -> (r: bool)
        requires
            self@.wf(),
        ensures
            r == self@.ge_rat(Rat::of_int(x@)),
    {
        self.to_malachite() >= x.to_malachite()
    }

    /// `Float`'s `Display`.
    #[verifier::external_body]
    pub(crate) fn to_text(&self) -> (r: String)
        requires
            self@.wf(),
        ensures
            r@ == float_text(self@),
    {
        self.to_malachite().to_string()
    }

    /// `Rational::try_from(&Float)` written by `to_sci_with_options` in base `base`,
    /// rounded in direction `rm`, in full and with trailing zeros. The value of a float
    /// has a finite expansion in every even base.
    #[verifier::external_body]
    pub(crate) fn sci_text(&self, base: u8, rm: Round) -> (r: String)
        requires
            self@.wf(),
            self@ is Finite,
            2 <= base <= 36,
            base % 2 == 0,
        ensures
            r@ == float_sci_text(self@, base, rm),
    {
        let mut options = ToSciOptions::default();
        options.set_base(base);
        options.set_rounding_mode(rm.to_malachite());
        options.set_size_complete();
        options.set_include_trailing_zeros(true);
        Rational::try_from(&self.to_malachite()).unwrap().to_sci_with_options(options).to_string()
    }

    /// How an interval's `Debug` shows this float as an endpoint rounded in direction
    /// `rm`, under the formatter flags `sign_plus` and `alternate`.
    pub fn debug_text(&self, rm: Round, sign_plus: bool, alternate: bool) -> (r: String)
        requires
            self@.wf(),
        ensures
            r@ == debug_text(self@, rm, sign_plus, alternate),
    {
        let neg = match self {
            Flt::NaN => {
                return String::from_str("NaN");
            },
            Flt::Infinity { neg } => *neg,
            Flt::Zero { neg } => *neg,
            Flt::Finite { neg, .. } => *neg,
        };
        let mut text = String::new();
        if sign_plus && !neg {
            text.append("+");
        } else if neg {
            text.append("-");
        }
        if let Flt::Infinity { .. } = self {
            text.append("inf");
            return text;
        }
        if alternate {
            text.append("0x");
        }
        match self {
            Flt::Finite { precision, .. } => {
                let digits = self.sci_text(16, rm);
                append_trimmed(&mut text, digits.as_str());
                text.append("#");
                append_decimal(&mut text, *precision);
            },
            _ => {
                text.append("0");
            },
        }
        text
    }
}


/// A float within the relative error of a nonnegative `q`, as real numbers.
pub proof fn lemma_within_real(r: FloatVal, q: Rat, p: nat)
    requires
        q.wf(),
        q.num >= 0,
        within_relative_error(r, q, p),
    ensures
        val(q) - val(q) * pw(1 - p) <= val(r.value()),
        val(r.value()) <= val(q) + val(q) * pw(1 - p),
{
    lemma_value_wf(r);
    let v = r.value();
    let d = v.sub(q);
    lemma_add_wf(v, q.neg());
    lemma_val_add(v, q);
    lemma_val_add(d, d);
    lemma_scale2_wf(q, 1 - p);
    lemma_val_scale2(q, 1 - p);
    lemma_val_le(magnitude(d), q.scale2(1 - p));
    assert(val(q) >= 0real) by (nonlinear_arith)
        requires
            q.num >= 0,
            q.den > 0,
            val(q) == q.num as real / q.den as real,
    ;
    assert(magnitude(q) == q);
    assert(val(d) == val(v) - val(q));
    lemma_pw_pos(1 - p);
    assert(val(q) * pw(1 - p) >= 0real) by (nonlinear_arith)
        requires
            val(q) >= 0real,
            pw(1 - p) > 0real,
    {
    }
    if d.num < 0 {
        assert(val(d.neg()) == -val(d));
        assert(val(d) < 0real) by (nonlinear_arith)
            requires
                d.num < 0,
                d.den > 0,
                val(d) == d.num as real / d.den as real,
        ;
    } else {
        assert(val(d) >= 0real) by (nonlinear_arith)
            requires
                d.num >= 0,
                d.den > 0,
                val(d) == d.num as real / d.den as real,
        ;
    }
}

/// A positive number between `2^-(2^30 - 1)` and `2^(2^30 - 3)` is in the safe range.
pub proof fn lemma_in_safe_range(q: Rat)
    requires
        q.wf(),
        pw(-0x3fff_ffff) <= val(q) <= pw(0x3fff_fffd),
    ensures
        in_safe_range(q),
        below_overflow(q),
{
    lemma_pw_pos(-0x3fff_ffff);
    vstd::arithmetic::power2::lemma_pow2_pos(0x4000_0000);
    vstd::arithmetic::power2::lemma_pow2_pos(0x3fff_ffff);
    vstd::arithmetic::power2::lemma_pow2_pos(0x3fff_fffe);
    assert(q.num > 0) by (nonlinear_arith)
        requires
            q.den > 0,
            val(q) > 0real,
            val(q) == q.num as real / q.den as real,
    ;
    let lo = Rat { num: 1, den: pow2(0x4000_0000) as int };
    assert(val(lo) == pw(-0x4000_0000));
    lemma_pw_mono(-0x4000_0000, -0x3fff_ffff);
    lemma_val_le(lo, q);
    lemma_pw_mono(0x3fff_fffd, 0x3fff_fffe);
    lemma_pw_mono(0x3fff_fffe, 0x3fff_ffff);
    lemma_pw_add(0x3fff_fffd, 1);
    vstd::arithmetic::power2::lemma2_to64();
    lemma_pw_pos(0x3fff_fffd);
    assert(pw(1) == 2real);
    assert(pw(0x3fff_fffd) < pw(0x3fff_fffe)) by (nonlinear_arith)
        requires
            pw(0x3fff_fffe) == pw(0x3fff_fffd) * pw(1),
            pw(1) == 2real,
            pw(0x3fff_fffd) > 0real,
    ;
    let hi = Rat::of_int(pow2(0x3fff_fffe) as int);
    let top = Rat::of_int(pow2(0x3fff_ffff) as int);
    crate::rational::lemma_val_of_int(pow2(0x3fff_fffe) as int);
    crate::rational::lemma_val_of_int(pow2(0x3fff_ffff) as int);
    lemma_val_le(q, hi);
    lemma_val_le(q, top);
}


/// A number between zero and `2^(2^30 - 3)` is below the overflow.
pub proof fn lemma_below_overflow(q: Rat)
    requires
        q.wf(),
        0real <= val(q) <= pw(0x3fff_fffd),
    ensures
        below_overflow(q),
{
    vstd::arithmetic::power2::lemma_pow2_pos(0x3fff_ffff);
    assert(q.num >= 0) by (nonlinear_arith)
        requires
            q.den > 0,
            val(q) >= 0real,
            val(q) == q.num as real / q.den as real,
    ;
    lemma_pw_mono(0x3fff_fffd, 0x3fff_ffff);
    lemma_pw_add(0x3fff_fffe, 1);
    lemma_pw_add(0x3fff_fffd, 1);
    lemma_pw_pos(0x3fff_fffd);
    vstd::arithmetic::power2::lemma2_to64();
    assert(pw(1) == 2real);
    assert(pw(0x3fff_fffd) < pw(0x3fff_ffff)) by (nonlinear_arith)
        requires
            pw(0x3fff_fffe) == pw(0x3fff_fffd) * pw(1),
            pw(0x3fff_ffff) == pw(0x3fff_fffe) * pw(1),
            pw(1) == 2real,
            pw(0x3fff_fffd) > 0real,
    ;
    let top = Rat::of_int(pow2(0x3fff_ffff) as int);
    crate::rational::lemma_val_of_int(pow2(0x3fff_ffff) as int);
    lemma_val_le(q, top);
}


/// A magnitude of at most `2^j`, as real numbers.
pub proof fn lemma_at_most_pow2(q: Rat, j: nat)
    requires
        q.wf(),
    ensures
        at_most_pow2(q, j) <==> (-pw(j as int) <= val(q) && val(q) <= pw(j as int)),
{
    crate::rational::lemma_val_of_int(pow2(j) as int);
    crate::rational::lemma_val_sign(q);
    lemma_add_wf(q, q);
    lemma_val_add(q, q);
    lemma_val_le(magnitude(q), pow2_rat(j));
    lemma_pw_pos(j as int);
}

} // verus!
