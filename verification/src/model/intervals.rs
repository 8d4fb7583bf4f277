//! Closed intervals of the extended reals with outward-rounded endpoints, as in
//! interval arithmetic: every operation returns an interval that contains the exact
//! result for every choice of points in its operands.

use crate::float::{at_most_pow2, below_overflow, error_at_most, in_exponent_range, in_safe_range, max_bits, significant_bits, within_relative_error, within_rounding_error, debug_text, float_text, lemma_value_wf, rounded, Approx, FloatVal, Flt, Round};
use crate::numbers::{BigInt, BigNat};
use crate::rational::{
    lemma_add_le, lemma_add_wf, lemma_floor_le, lemma_le_trans, lemma_mul_int_le, lemma_neg_le,
    lemma_le_lt_trans, lemma_lt_le_trans, lemma_recip_le, lemma_recip_le_neg, lemma_scale2_le, lemma_scale2_wf, lemma_sub_le, Rat,
};
use crate::rational::{lemma_eqv_le, lemma_int_le_floor, lemma_le_int_ceil, lemma_scale2_grows, lemma_scale2_sub, lemma_sub_shift};
use vstd::arithmetic::mul::lemma_mul_unary_negation;
use vstd::prelude::*;

verus! {

/// An interval of real numbers, as in interval arithmetic.
pub struct Interval {
    pub inf: Flt,
    pub sup: Flt,
}

// ---------------------------------------------------------------------------
// Lemmas on single endpoints
// ---------------------------------------------------------------------------

/// The value of a negated float is the negated value.
pub proof fn lemma_negated_value(a: FloatVal)
    requires
        a.is_finite(),
    ensures
        a.negated().is_finite(),
        a.negated().value() == a.value().neg(),
{
    match a {
        FloatVal::Finite { neg, exponent, mantissa, .. } => {
            let m = crate::numbers::limbs_value(mantissa) as int;
            let k = exponent - 64 * mantissa.len();
            if k >= 0 {
                lemma_mul_unary_negation(m, vstd::arithmetic::power2::pow2(k as nat) as int);
            }
        },
        _ => {},
    }
}

/// A lower bound of `x` negated is an upper bound of `-x`, and the other way round.
pub proof fn lemma_negated_bounds(a: FloatVal, x: Rat)
    ensures
        a.le_rat(x) ==> a.negated().ge_rat(x.neg()),
        a.ge_rat(x) ==> a.negated().le_rat(x.neg()),
{
    if a.is_finite() {
        lemma_negated_value(a);
        if a.le_rat(x) {
            lemma_neg_le(a.value(), x);
        }
        if a.ge_rat(x) {
            lemma_neg_le(x, a.value());
        }
    }
}

proof fn lemma_lower_add(a: FloatVal, b: FloatVal, r: FloatVal, x: Rat, y: Rat)
    requires
        x.wf(),
        y.wf(),
        a.le_rat(x),
        b.le_rat(y),
        a.is_finite() && b.is_finite() ==> rounded(r, a.value().add(b.value()), Round::Floor),
        a.low_ok() && b.low_ok() && (a.is_neg_inf() || b.is_neg_inf()) ==> r.is_neg_inf(),
    ensures
        r.le_rat(x.add(y)),
{
    if a.is_finite() && b.is_finite() {
        lemma_value_wf(a);
        lemma_value_wf(b);
        lemma_value_wf(r);
        lemma_add_wf(a.value(), b.value());
        lemma_add_wf(x, y);
        lemma_add_le(a.value(), b.value(), x, y);
        if r.is_finite() {
            lemma_le_trans(r.value(), a.value().add(b.value()), x.add(y));
        }
    }
}

proof fn lemma_upper_add(a: FloatVal, b: FloatVal, r: FloatVal, x: Rat, y: Rat)
    requires
        x.wf(),
        y.wf(),
        a.ge_rat(x),
        b.ge_rat(y),
        a.is_finite() && b.is_finite() ==> rounded(r, a.value().add(b.value()), Round::Ceiling),
        a.high_ok() && b.high_ok() && (a.is_pos_inf() || b.is_pos_inf()) ==> r.is_pos_inf(),
    ensures
        r.ge_rat(x.add(y)),
{
    if a.is_finite() && b.is_finite() {
        lemma_value_wf(a);
        lemma_value_wf(b);
        lemma_value_wf(r);
        lemma_add_wf(a.value(), b.value());
        lemma_add_wf(x, y);
        lemma_add_le(x, y, a.value(), b.value());
        if r.is_finite() {
            lemma_le_trans(x.add(y), a.value().add(b.value()), r.value());
        }
    }
}

proof fn lemma_lower_sub(a: FloatVal, b: FloatVal, r: FloatVal, x: Rat, y: Rat)
    requires
        x.wf(),
        y.wf(),
        a.le_rat(x),
        b.ge_rat(y),
        a.is_finite() && b.is_finite() ==> rounded(r, a.value().sub(b.value()), Round::Floor),
        a.low_ok() && b.high_ok() && (a.is_neg_inf() || b.is_pos_inf()) ==> r.is_neg_inf(),
    ensures
        r.le_rat(x.sub(y)),
{
    if a.is_finite() && b.is_finite() {
        lemma_value_wf(a);
        lemma_value_wf(b);
        lemma_value_wf(r);
        lemma_add_wf(a.value(), b.value());
        lemma_add_wf(x, y);
        lemma_sub_le(a.value(), b.value(), x, y);
        if r.is_finite() {
            lemma_le_trans(r.value(), a.value().sub(b.value()), x.sub(y));
        }
    }
}

proof fn lemma_upper_sub(a: FloatVal, b: FloatVal, r: FloatVal, x: Rat, y: Rat)
    requires
        x.wf(),
        y.wf(),
        a.ge_rat(x),
        b.le_rat(y),
        a.is_finite() && b.is_finite() ==> rounded(r, a.value().sub(b.value()), Round::Ceiling),
        a.high_ok() && b.low_ok() && (a.is_pos_inf() || b.is_neg_inf()) ==> r.is_pos_inf(),
    ensures
        r.ge_rat(x.sub(y)),
{
    if a.is_finite() && b.is_finite() {
        lemma_value_wf(a);
        lemma_value_wf(b);
        lemma_value_wf(r);
        lemma_add_wf(a.value(), b.value());
        lemma_add_wf(x, y);
        lemma_sub_le(x, y, a.value(), b.value());
        if r.is_finite() {
            lemma_le_trans(x.sub(y), a.value().sub(b.value()), r.value());
        }
    }
}

proof fn lemma_lower_scale2(a: FloatVal, r: FloatVal, x: Rat, k: int)
    requires
        x.wf(),
        a.le_rat(x),
        a.is_finite() ==> rounded(r, a.value().scale2(k), Round::Floor),
        !a.is_finite() ==> r == a,
    ensures
        r.le_rat(x.scale2(k)),
{
    if a.is_finite() {
        lemma_value_wf(a);
        lemma_value_wf(r);
        lemma_scale2_wf(a.value(), k);
        lemma_scale2_wf(x, k);
        lemma_scale2_le(a.value(), x, k);
        if r.is_finite() {
            lemma_le_trans(r.value(), a.value().scale2(k), x.scale2(k));
        }
    }
}

proof fn lemma_upper_scale2(a: FloatVal, r: FloatVal, x: Rat, k: int)
    requires
        x.wf(),
        a.ge_rat(x),
        a.is_finite() ==> rounded(r, a.value().scale2(k), Round::Ceiling),
        !a.is_finite() ==> r == a,
    ensures
        r.ge_rat(x.scale2(k)),
{
    if a.is_finite() {
        lemma_value_wf(a);
        lemma_value_wf(r);
        lemma_scale2_wf(a.value(), k);
        lemma_scale2_wf(x, k);
        lemma_scale2_le(x, a.value(), k);
        if r.is_finite() {
            lemma_le_trans(x.scale2(k), a.value().scale2(k), r.value());
        }
    }
}

proof fn lemma_lower_mul(a: FloatVal, r: FloatVal, x: Rat, k: int)
    requires
        x.wf(),
        k >= 0,
        k > 0 || a.is_finite(),
        a.le_rat(x),
        a.is_finite() ==> rounded(r, a.value().mul_int(k), Round::Floor),
        a is Infinity && k > 0 ==> r == a,
    ensures
        r.le_rat(x.mul_int(k)),
{
    if a.is_finite() {
        lemma_value_wf(a);
        lemma_value_wf(r);
        lemma_mul_int_le(a.value(), x, k);
        if r.is_finite() {
            lemma_le_trans(r.value(), a.value().mul_int(k), x.mul_int(k));
        }
    }
}

proof fn lemma_upper_mul(a: FloatVal, r: FloatVal, x: Rat, k: int)
    requires
        x.wf(),
        k >= 0,
        k > 0 || a.is_finite(),
        a.ge_rat(x),
        a.is_finite() ==> rounded(r, a.value().mul_int(k), Round::Ceiling),
        a is Infinity && k > 0 ==> r == a,
    ensures
        r.ge_rat(x.mul_int(k)),
{
    if a.is_finite() {
        lemma_value_wf(a);
        lemma_value_wf(r);
        lemma_mul_int_le(x, a.value(), k);
        if r.is_finite() {
            lemma_le_trans(x.mul_int(k), a.value().mul_int(k), r.value());
        }
    }
}

// ---------------------------------------------------------------------------
// The interval operations
// ---------------------------------------------------------------------------

/// The endpoints of the interval that `from_rounded` makes of `f` and `a`.
pub open spec fn rounded_bounds(f: FloatVal, a: Approx) -> (FloatVal, FloatVal) {
    match a {
        Approx::Exact => (f, f),
        Approx::Below => (f, crate::float::float_increment(f)),
        Approx::Above => (crate::float::float_decrement(f), f),
    }
}

/// The endpoints that `reciprocal` gives an interval with endpoints `b`.
pub open spec fn reciprocal_bounds(b: (FloatVal, FloatVal)) -> (FloatVal, FloatVal) {
    if b.0.le(FloatVal::Zero { neg: false }) && (FloatVal::Zero { neg: false }).le(b.1) {
        (FloatVal::Infinity { neg: true }, FloatVal::Infinity { neg: false })
    } else {
        (
            crate::float::float_reciprocal_round(b.1, Round::Floor),
            crate::float::float_reciprocal_round(b.0, Round::Ceiling),
        )
    }
}

/// The endpoints that `shl` by `k` gives an interval with endpoints `b`.
pub open spec fn shl_bounds(b: (FloatVal, FloatVal), k: int) -> (FloatVal, FloatVal) {
    (
        crate::float::float_shl_round(b.0, k, Round::Floor),
        crate::float::float_shl_round(b.1, k, Round::Ceiling),
    )
}

/// Shifting `f` left by `k` is exact: `f` is zero, or finite with `f * 2^k` in the
/// range of a float's exponent.
pub open spec fn shift_exact(f: FloatVal, k: int) -> bool {
    f is Zero || (f is Finite && in_exponent_range(f.value().scale2(k)))
}

/// The endpoints that `shr` by `k` gives an interval with endpoints `b`.
pub open spec fn shr_bounds(b: (FloatVal, FloatVal), k: int) -> (FloatVal, FloatVal) {
    (
        crate::float::float_shr_round(b.0, k, Round::Floor),
        crate::float::float_shr_round(b.1, k, Round::Ceiling),
    )
}

/// The endpoints that `maybe` gives an interval with endpoints `b`.
pub open spec fn maybe_bounds(b: (FloatVal, FloatVal)) -> (FloatVal, FloatVal) {
    if b.0.gt_zero() {
        (FloatVal::Zero { neg: false }, b.1)
    } else if b.1.lt_zero() {
        (b.0, FloatVal::Zero { neg: false })
    } else {
        b
    }
}

/// The endpoints that `neg` gives an interval with endpoints `b`.
pub open spec fn neg_bounds(b: (FloatVal, FloatVal)) -> (FloatVal, FloatVal) {
    (b.1.negated(), b.0.negated())
}

/// The endpoints that `add` gives intervals with endpoints `a` and `b`.
pub open spec fn add_bounds(a: (FloatVal, FloatVal), b: (FloatVal, FloatVal)) -> (FloatVal, FloatVal) {
    (
        crate::float::float_add_round(a.0, b.0, Round::Floor),
        crate::float::float_add_round(a.1, b.1, Round::Ceiling),
    )
}

/// The endpoints that `sub` gives intervals with endpoints `a` and `b`.
pub open spec fn sub_bounds(a: (FloatVal, FloatVal), b: (FloatVal, FloatVal)) -> (FloatVal, FloatVal) {
    (
        crate::float::float_sub_round(a.0, b.1, Round::Floor),
        crate::float::float_sub_round(a.1, b.0, Round::Ceiling),
    )
}

impl Interval {
    /// `x` lies in the interval.
    pub open spec fn contains_rat(&self, x: Rat) -> bool {
        self.inf@.le_rat(x) && self.sup@.ge_rat(x)
    }

    /// How `Display` writes an interval: "[inf, sup]".
    pub open spec fn display_text(&self) -> Seq<char> {
        "["@ + float_text(self.inf@) + ", "@ + float_text(self.sup@) + "]"@
    }

    /// How `Debug` writes an interval, under the formatter flags `sign_plus` and
    /// `alternate`: its endpoints in hexadecimal, the lower one rounded down and the
    /// upper one rounded up.
    pub open spec fn debug_view(&self, sign_plus: bool, alternate: bool) -> Seq<char> {
        "["@ + debug_text(self.inf@, Round::Floor, sign_plus, alternate) + ", "@ + debug_text(
            self.sup@,
            Round::Ceiling,
            sign_plus,
            alternate,
        ) + "]"@
    }

    /// The two endpoints.
    pub open spec fn bounds(&self) -> (FloatVal, FloatVal) {
        (self.inf@, self.sup@)
    }

    /// Both endpoints are floats as `malachite_float` keeps them.
    pub open spec fn wf(&self) -> bool {
        self.inf@.wf() && self.sup@.wf()
    }

    /// The interval holds zero, as `contains` finds it.
    pub open spec fn holds_zero(&self) -> bool {
        self.inf@.le(FloatVal::Zero { neg: false }) && (FloatVal::Zero { neg: false }).le(self.sup@)
    }

    /// The distance between the endpoints, for a bounded interval.
    pub open spec fn width_rat(&self) -> Rat {
        self.sup@.value().sub(self.inf@.value())
    }

    /// The interval holds some number: its lower endpoint is not above its upper one.
    pub open spec fn is_nonempty(&self) -> bool {
        self.inf@.value().le(self.sup@.value())
    }

    /// Both endpoints are finite.
    pub open spec fn is_bounded(&self) -> bool {
        self.inf@.is_finite() && self.sup@.is_finite()
    }

    /// Both endpoints are finite.
    pub fn bounded(&self) -> (r: bool)
        ensures
            r == self.is_bounded(),
    {
        self.inf.is_finite() && self.sup.is_finite()
    }

    pub fn new_unchecked(inf: Flt, sup: Flt) -> (r: Interval)
        ensures
            r.inf@ == inf@,
            r.sup@ == sup@,
    {
        Interval { inf, sup }
    }

    /// The interval `[0, 0]`.
    pub fn zero() -> (r: Interval)
        ensures
            r.wf(),
            r.inf@ == (FloatVal::Zero { neg: false }),
            r.sup@ == (FloatVal::Zero { neg: false }),
            forall|x: Rat| x.wf() ==> (#[trigger] r.contains_rat(x) <==> x.num == 0),
    {
        let r = Interval { inf: Flt::zero(), sup: Flt::zero() };
        assert forall|x: Rat| x.wf() implies (#[trigger] r.contains_rat(x) <==> x.num == 0) by {
            assert(Rat::of_int(0).le(x) <==> 0 <= x.num);
            assert(x.le(Rat::of_int(0)) <==> x.num <= 0);
        }
        r
    }

    /// The interval of all extended reals.
    pub fn entire() -> (r: Interval)
        ensures
            r.wf(),
            r.inf@.is_neg_inf(),
            r.sup@.is_pos_inf(),
            forall|x: Rat| #[trigger] r.contains_rat(x),
    {
        Interval { inf: Flt::infinity(true), sup: Flt::infinity(false) }
    }

    /// An exact copy.
    pub fn copy(&self) -> (r: Interval)
        ensures
            self.wf() ==> r.wf(),
            r.inf@ == self.inf@,
            r.sup@ == self.sup@,
    {
        Interval { inf: self.inf.copy(), sup: self.sup.copy() }
    }

    /// `inf <= val <= sup`, as floats compare.
    pub fn contains(&self, val: Flt) -> (r: bool)
        requires
            self.wf(),
            val@.wf(),
        ensures
            r == (self.inf@.le(val@) && val@.le(self.sup@)),
    {
        self.inf.le(&val) && val.le(&self.sup)
    }

    /// `sup - inf`, rounded up, to within one unit in the last place of the larger
    /// precision of the two endpoints.
    pub fn width(&self) -> (r: Flt)
        requires
            self.wf(),
        ensures
            r@.wf(),
            r@ == crate::float::float_sub_round(self.sup@, self.inf@, Round::Ceiling),
            self.is_bounded() ==> r@.ge_rat(self.width_rat()),
            self.is_bounded() && r@.is_finite() && in_exponent_range(self.width_rat())
                ==> within_rounding_error(r@, self.width_rat(), max_bits(self.sup@, self.inf@)),
            self.is_bounded() && self.inf@.value().eqv(self.sup@.value()) ==> r@.le_rat(
                Rat::of_int(0),
            ) && r@.ge_rat(Rat::of_int(0)),
    {
        let r = self.sup.sub_round(&self.inf, Round::Ceiling);
        proof {
            if self.is_bounded() && self.inf@.value().eqv(self.sup@.value()) {
                let (p, q) = (self.sup@.value(), self.inf@.value());
                lemma_mul_unary_negation(q.num, p.den);
                let x = p.sub(q);
                assert(x.num == 0);
                assert(x.num * 1 == 0);
                assert(0 * x.den == 0);
                assert(x.le(Rat::of_int(0)));
                assert(Rat::of_int(0).le(x));
                assert(crate::float::rounded(r@, p.sub(q), Round::Ceiling));
                lemma_value_wf(self.inf@);
                lemma_value_wf(self.sup@);
                lemma_value_wf(r@);
                lemma_add_wf(p, q);
                if r@.is_finite() {
                    lemma_le_trans(Rat::of_int(0), p.sub(q), r@.value());
                }
            }
        }
        r
    }

    /// The point interval `[value, value]`.
    pub fn from_float(value: Flt) -> (r: Interval)
        ensures
            value@.wf() ==> r.wf(),
            r.inf@ == value@,
            r.sup@ == value@,
            value@.is_finite() ==> r.contains_rat(value@.value()),
    {
        proof {
            lemma_value_wf(value@);
        }
        Interval { inf: value.copy(), sup: value }
    }

    /// The point interval of an integer, where the integer fits the exponent range.
    pub fn from_integer(value: &BigInt) -> (r: Option<Interval>)
        ensures
            r matches Some(iv) ==> iv.wf(),
            r is Some <==> crate::float::fits_float_exponent(value@),
            r matches Some(iv) ==> iv.is_bounded() && iv.contains_rat(Rat::of_int(value@)) && iv.inf@
                == crate::float::float_of_integer(value@) && iv.sup@ == iv.inf@,
    {
        match Flt::of_integer(value) {
            Some(f) => Some(Interval::from_float(f)),
            None => None,
        }
    }

    /// The interval of exactly a natural number, where it fits a float's exponent.
    pub fn from_natural(value: &BigNat) -> (r: Option<Interval>)
        ensures
            r matches Some(iv) ==> iv.wf(),
            r is Some <==> crate::float::fits_float_exponent(value@ as int),
            r matches Some(iv) ==> iv.is_bounded() && iv.contains_rat(Rat::of_int(value@ as int))
                && iv.sup@ == iv.inf@,
    {
        Interval::from_integer(&BigInt::from_nat(value))
    }

    /// The interval spanned by a float rounded to nearest and the next float on the
    /// side of the exact value that `approx` names.
    pub fn from_rounded(float: Flt, approx: Approx) -> (r: Interval)
        requires
            float@.wf(),
            approx != Approx::Exact ==> float@ is Finite,
        ensures
            r.wf(),
            r.bounds() == rounded_bounds(float@, approx),
            approx == Approx::Exact ==> r.inf@ == float@ && r.sup@ == float@,
            approx == Approx::Below ==> r.inf@ == float@ && r.sup@ == crate::float::float_increment(
                float@,
            ),
            approx == Approx::Above ==> r.inf@ == crate::float::float_decrement(float@) && r.sup@
                == float@,
    {
        match approx {
            Approx::Exact => Interval::from_float(float),
            Approx::Below => {
                let upper = float.increment();
                Interval { inf: float, sup: upper }
            },
            Approx::Above => {
                let lower = float.decrement();
                Interval { inf: lower, sup: float }
            },
        }
    }

    /// `-self`
    pub fn neg(self) -> (r: Interval)
        ensures
            self.wf() ==> r.wf(),
            r.inf@ == self.sup@.negated(),
            r.sup@ == self.inf@.negated(),
            forall|x: Rat| #[trigger] self.contains_rat(x) ==> r.contains_rat(x.neg()),
    {
        let r = Interval { inf: self.sup.neg(), sup: self.inf.neg() };
        assert forall|x: Rat| #[trigger] self.contains_rat(x) implies r.contains_rat(x.neg()) by {
            lemma_negated_bounds(self.inf@, x);
            lemma_negated_bounds(self.sup@, x);
        }
        r
    }

    /// `1 / self`; all of the extended reals where the interval contains zero.
    pub fn reciprocal(self) -> (r: Interval)
        requires
            self.wf(),
        ensures
            r.wf(),
            !self.holds_zero() ==> r.inf@ == crate::float::float_reciprocal_round(
                self.sup@,
                Round::Floor,
            ) && r.sup@ == crate::float::float_reciprocal_round(self.inf@, Round::Ceiling),
            self.holds_zero() ==> r.inf@ == (FloatVal::Infinity { neg: true }) && r.sup@ == (
            FloatVal::Infinity { neg: false }),
            r.bounds() == reciprocal_bounds(self.bounds()),
            forall|x: Rat|
                x.wf() && x.num != 0 && #[trigger] self.contains_rat(x) ==> r.contains_rat(x.recip()),
            !self.holds_zero() && self.sup@ is Finite && r.inf@ is Finite ==> significant_bits(
                r.inf@,
            ) == significant_bits(self.sup@),
            !self.holds_zero() && self.inf@ is Finite && r.sup@ is Finite ==> significant_bits(
                r.sup@,
            ) == significant_bits(self.inf@),
            !self.holds_zero() && self.sup@ is Finite && in_safe_range(self.sup@.value().recip())
                ==> r.inf@ is Finite && within_relative_error(
                r.inf@,
                self.sup@.value().recip(),
                significant_bits(self.sup@),
            ),
            !self.holds_zero() && self.inf@ is Finite && in_safe_range(self.inf@.value().recip())
                ==> r.sup@ is Finite && within_relative_error(
                r.sup@,
                self.inf@.value().recip(),
                significant_bits(self.inf@),
            ),
    {
        if !self.contains(Flt::zero()) {
            let inf = self.sup.reciprocal_round(Round::Floor);
            let sup = self.inf.reciprocal_round(Round::Ceiling);
            let r = Interval { inf, sup };
            assert forall|x: Rat|
                x.wf() && x.num != 0 && #[trigger] self.contains_rat(x) implies r.contains_rat(
                x.recip(),
            ) by {
                lemma_value_wf(self.inf@);
                lemma_value_wf(self.sup@);
                lemma_value_wf(r.inf@);
                lemma_value_wf(r.sup@);
                let zero = Rat::of_int(0);
                if !self.inf@.le(FloatVal::Zero { neg: false }) {
                    // 0 < inf <= x <= sup
                    lemma_lt_le_trans(zero, self.inf@.value(), x);
                    lemma_recip_le(self.inf@.value(), x);
                    if self.sup@.is_finite() {
                        lemma_lt_le_trans(zero, x, self.sup@.value());
                        lemma_recip_le(x, self.sup@.value());
                        if r.inf@.is_finite() {
                            lemma_le_trans(r.inf@.value(), self.sup@.value().recip(), x.recip());
                        }
                    } else {
                        // the reciprocal of an infinite bound is zero
                        assert(r.inf@.value() == zero);
                        assert(zero.le(x.recip()));
                    }
                    if r.sup@.is_finite() {
                        lemma_le_trans(x.recip(), self.inf@.value().recip(), r.sup@.value());
                    }
                } else {
                    // inf <= x <= sup < 0
                    assert(self.sup@.value().lt(zero));
                    lemma_recip_le_neg(x, self.sup@.value());
                    if r.inf@.is_finite() {
                        lemma_le_trans(r.inf@.value(), self.sup@.value().recip(), x.recip());
                    }
                    if self.inf@.is_finite() {
                        lemma_recip_le_neg(self.inf@.value(), x);
                        if r.sup@.is_finite() {
                            lemma_le_trans(x.recip(), self.inf@.value().recip(), r.sup@.value());
                        }
                    } else {
                        assert(r.sup@.value() == zero);
                        assert(x.recip().le(zero));
                    }
                }
            }
            r
        } else {
            Interval::entire()
        }
    }

    /// The interval as `Display` writes it.
    pub fn to_text(&self) -> (r: String)
        requires
            self.wf(),
        ensures
            r@ == self.display_text(),
    {
        let mut text = String::from_str("[");
        text.append(self.inf.to_text().as_str());
        text.append(", ");
        text.append(self.sup.to_text().as_str());
        text.append("]");
        text
    }

    /// The interval as `Debug` writes it under the formatter flags `sign_plus` and
    /// `alternate`.
    pub fn debug_text(&self, sign_plus: bool, alternate: bool) -> (r: String)
        requires
            self.wf(),
        ensures
            r@ == self.debug_view(sign_plus, alternate),
    {
        let mut text = String::from_str("[");
        text.append(self.inf.debug_text(Round::Floor, sign_plus, alternate).as_str());
        text.append(", ");
        text.append(self.sup.debug_text(Round::Ceiling, sign_plus, alternate).as_str());
        text.append("]");
        text
    }

    /// The floor of both endpoints, where the two agree.
    pub fn try_floor(&self) -> (r: Option<BigInt>)
        requires
            self.wf(),
            self.is_bounded(),
        ensures
            r is Some <==> self.inf@.value().floor() == self.sup@.value().floor(),
            r matches Some(k) ==> k@ == self.inf@.value().floor(),
            r matches Some(k) ==> forall|x: Rat|
                x.wf() && #[trigger] self.contains_rat(x) ==> x.floor() == k@,
    {
        let floored_lower = self.inf.to_integer_round(Round::Floor);
        let floored_upper = self.sup.to_integer_round(Round::Floor);
        if floored_lower.eq(&floored_upper) {
            assert forall|x: Rat| x.wf() && #[trigger] self.contains_rat(x) implies x.floor()
                == floored_lower@ by {
                lemma_value_wf(self.inf@);
                lemma_value_wf(self.sup@);
                lemma_floor_le(self.inf@.value(), x);
                lemma_floor_le(x, self.sup@.value());
            }
            Some(floored_lower)
        } else {
            None
        }
    }

    /// The unique integer in the interval, or else the number of integers in it: the
    /// integers in the interval are those from the ceiling of its lower endpoint to the
    /// floor of its upper one.
    pub fn inner_int(&self) -> (r: Result<BigInt, BigInt>)
        requires
            self.wf(),
            self.is_bounded(),
        ensures
            ({
                let lo = self.inf@.value().ceil();
                let hi = self.sup@.value().floor();
                &&& r matches Ok(k) ==> lo == hi && k@ == lo
                &&& r matches Err(n) ==> lo != hi && n@ == hi - lo + 1
            }),
            r is Ok <==> self.inf@.value().ceil() == self.sup@.value().floor(),
            forall|j: int| #[trigger]
                self.contains_rat(Rat::of_int(j)) <==> self.inf@.value().ceil() <= j
                    <= self.sup@.value().floor(),
    {
        assert forall|j: int| #[trigger]
            self.contains_rat(Rat::of_int(j)) <==> self.inf@.value().ceil() <= j
                <= self.sup@.value().floor() by {
            lemma_value_wf(self.inf@);
            lemma_value_wf(self.sup@);
            lemma_le_int_ceil(self.inf@.value(), j);
            lemma_int_le_floor(self.sup@.value(), j);
        }
        let ceiled_lower = self.inf.to_integer_round(Round::Ceiling);
        let floored_upper = self.sup.to_integer_round(Round::Floor);
        if ceiled_lower.eq(&floored_upper) {
            Ok(ceiled_lower)
        } else {
            Err(floored_upper.sub(&ceiled_lower).add_i64(1))
        }
    }

    /// The hull of the interval and zero: it contains every number between zero
    /// and a number of the interval.
    pub fn maybe(self) -> (r: Interval)
        requires
            self.wf(),
        ensures
            r.wf(),
            r.bounds() == maybe_bounds(self.bounds()),
            self.inf@.gt_zero() ==> r.inf@ == (FloatVal::Zero { neg: false }) && r.sup@ == self.sup@,
            !self.inf@.gt_zero() && self.sup@.lt_zero() ==> r.inf@ == self.inf@ && r.sup@ == (
            FloatVal::Zero { neg: false }),
            !self.inf@.gt_zero() && !self.sup@.lt_zero() ==> r.inf@ == self.inf@ && r.sup@
                == self.sup@,
            forall|x: Rat, y: Rat|
                #![trigger self.contains_rat(x), r.contains_rat(y)]
                x.wf() && y.wf() && self.contains_rat(x) && (Rat::of_int(0).le(y) && y.le(x) || x.le(y)
                    && y.le(Rat::of_int(0))) ==> r.contains_rat(y),
    {
        let ghost zero = Rat::of_int(0);
        if self.inf.gt_zero() {
            let r = Interval { inf: Flt::zero(), sup: self.sup };
            assert forall|x: Rat, y: Rat|
                #![trigger self.contains_rat(x), r.contains_rat(y)]
                x.wf() && y.wf() && self.contains_rat(x) && (zero.le(y) && y.le(x) || x.le(y) && y.le(
                    zero,
                )) implies r.contains_rat(y) by {
                lemma_value_wf(self.inf@);
                lemma_value_wf(r.sup@);
                lemma_lt_le_trans(zero, self.inf@.value(), x);
                if x.le(y) && y.le(zero) {
                    lemma_lt_le_trans(zero, x, y);
                }
                if r.sup@.is_finite() {
                    lemma_le_trans(y, x, r.sup@.value());
                }
            }
            r
        } else if self.sup.lt_zero() {
            let r = Interval { inf: self.inf, sup: Flt::zero() };
            assert forall|x: Rat, y: Rat|
                #![trigger self.contains_rat(x), r.contains_rat(y)]
                x.wf() && y.wf() && self.contains_rat(x) && (zero.le(y) && y.le(x) || x.le(y) && y.le(
                    zero,
                )) implies r.contains_rat(y) by {
                lemma_value_wf(r.inf@);
                lemma_value_wf(self.sup@);
                lemma_le_lt_trans(x, self.sup@.value(), zero);
                if zero.le(y) && y.le(x) {
                    lemma_le_lt_trans(y, x, zero);
                }
                if r.inf@.is_finite() {
                    lemma_le_trans(r.inf@.value(), x, y);
                }
            }
            r
        } else {
            let r = self;
            assert forall|x: Rat, y: Rat|
                #![trigger self.contains_rat(x), r.contains_rat(y)]
                x.wf() && y.wf() && self.contains_rat(x) && (zero.le(y) && y.le(x) || x.le(y) && y.le(
                    zero,
                )) implies r.contains_rat(y) by {
                lemma_value_wf(r.inf@);
                lemma_value_wf(r.sup@);
                if r.inf@.is_finite() {
                    if zero.le(y) {
                        lemma_le_trans(r.inf@.value(), zero, y);
                    } else {
                        lemma_le_trans(r.inf@.value(), x, y);
                    }
                }
                if r.sup@.is_finite() {
                    if y.le(zero) {
                        lemma_le_trans(y, zero, r.sup@.value());
                    } else {
                        lemma_le_trans(y, x, r.sup@.value());
                    }
                }
            }
            r
        }
    }

    /// `self + other`. The sum is the same in either order. Adding an interval that
    /// holds a number never makes `self` narrower: an accumulator of sums can only
    /// widen.
    pub fn add(&self, other: &Interval) -> (r: Interval)
        requires
            self.wf(),
            other.wf(),
        ensures
            r.wf(),
            r.inf@ == crate::float::float_add_round(self.inf@, other.inf@, Round::Floor),
            r.sup@ == crate::float::float_add_round(self.sup@, other.sup@, Round::Ceiling),
            r.bounds() == add_bounds(self.bounds(), other.bounds()),
            r.bounds() == add_bounds(other.bounds(), self.bounds()),
            forall|x: Rat, y: Rat|
                x.wf() && y.wf() && self.contains_rat(x) && other.contains_rat(y) ==> #[trigger] r.contains_rat(
                    x.add(y),
                ),
            self.is_bounded() && other.is_bounded() && r.is_bounded() && other.is_nonempty()
                ==> self.width_rat().le(r.width_rat()),
            self.inf@.is_finite() && other.inf@.is_finite() ==> forall|j: nat|
                j < 0x3fff_fffe && #[trigger] at_most_pow2(self.inf@.value().add(other.inf@.value()), j)
                    ==> r.inf@.is_finite() && at_most_pow2(r.inf@.value(), j) && (max_bits(self.inf@, other.inf@)
                    <= 0x2000_0000 ==> error_at_most(
                    r.inf@,
                    self.inf@.value().add(other.inf@.value()),
                    j + 1 - max_bits(self.inf@, other.inf@),
                )),
            self.inf@ is Zero && other.inf@ is Zero ==> r.inf@ is Zero,
            r.inf@ is Finite ==> significant_bits(r.inf@) == max_bits(self.inf@, other.inf@),
            self.sup@.is_finite() && other.sup@.is_finite() ==> forall|j: nat|
                j < 0x3fff_fffe && #[trigger] at_most_pow2(self.sup@.value().add(other.sup@.value()), j)
                    ==> r.sup@.is_finite() && at_most_pow2(r.sup@.value(), j) && (max_bits(self.sup@, other.sup@)
                    <= 0x2000_0000 ==> error_at_most(
                    r.sup@,
                    self.sup@.value().add(other.sup@.value()),
                    j + 1 - max_bits(self.sup@, other.sup@),
                )),
            self.sup@ is Zero && other.sup@ is Zero ==> r.sup@ is Zero,
            r.sup@ is Finite ==> significant_bits(r.sup@) == max_bits(self.sup@, other.sup@),
    {
        let r = Interval {
            inf: self.inf.add_round(&other.inf, Round::Floor),
            sup: self.sup.add_round(&other.sup, Round::Ceiling),
        };
        proof {
            if self.is_bounded() && other.is_bounded() && r.is_bounded() && other.is_nonempty() {
                lemma_value_wf(self.inf@);
                lemma_value_wf(self.sup@);
                lemma_value_wf(other.inf@);
                lemma_value_wf(other.sup@);
                lemma_value_wf(r.inf@);
                lemma_value_wf(r.sup@);
                let (p, q) = (self.sup@.value(), self.inf@.value());
                let (s, t) = (other.sup@.value(), other.inf@.value());
                let (u, v) = (r.sup@.value(), r.inf@.value());
                lemma_add_wf(q, t);
                lemma_add_wf(q, s);
                lemma_add_wf(p, s);
                lemma_add_le(q, t, q, s);
                lemma_le_trans(v, q.add(t), q.add(s));
                lemma_sub_le(p.add(s), q.add(s), u, v);
                lemma_sub_shift(p, q, s);
                lemma_eqv_le(p.add(s).sub(q.add(s)), p.sub(q));
                lemma_add_wf(p.add(s), q.add(s));
                lemma_add_wf(p, q);
                lemma_add_wf(u, v);
                lemma_le_trans(p.sub(q), p.add(s).sub(q.add(s)), u.sub(v));
            }
        }
        assert forall|x: Rat, y: Rat|
            x.wf() && y.wf() && self.contains_rat(x) && other.contains_rat(
                y,
            ) implies #[trigger] r.contains_rat(x.add(y)) by {
            lemma_lower_add(self.inf@, other.inf@, r.inf@, x, y);
            lemma_upper_add(self.sup@, other.sup@, r.sup@, x, y);
        }
        r
    }

    /// `self - other`, which is `self + (-other)`. Like a sum, a difference is never
    /// narrower than `self`.
    pub fn sub(&self, other: &Interval) -> (r: Interval)
        requires
            self.wf(),
            other.wf(),
        ensures
            r.wf(),
            r.inf@ == crate::float::float_sub_round(self.inf@, other.sup@, Round::Floor),
            r.sup@ == crate::float::float_sub_round(self.sup@, other.inf@, Round::Ceiling),
            r.bounds() == sub_bounds(self.bounds(), other.bounds()),
            r.bounds() == add_bounds(self.bounds(), neg_bounds(other.bounds())),
            forall|x: Rat, y: Rat|
                x.wf() && y.wf() && self.contains_rat(x) && other.contains_rat(y) ==> #[trigger] r.contains_rat(
                    x.sub(y),
                ),
            self.is_bounded() && other.is_bounded() && r.is_bounded() && other.is_nonempty()
                ==> self.width_rat().le(r.width_rat()),
            self.inf@.is_finite() && other.sup@.is_finite() ==> forall|j: nat|
                j < 0x3fff_fffe && #[trigger] at_most_pow2(self.inf@.value().sub(other.sup@.value()), j)
                    ==> r.inf@.is_finite() && at_most_pow2(r.inf@.value(), j) && (max_bits(self.inf@, other.sup@)
                    <= 0x2000_0000 ==> error_at_most(
                    r.inf@,
                    self.inf@.value().sub(other.sup@.value()),
                    j + 1 - max_bits(self.inf@, other.sup@),
                )),
            self.inf@ is Zero && other.sup@ is Zero ==> r.inf@ is Zero,
            r.inf@ is Finite ==> significant_bits(r.inf@) == max_bits(self.inf@, other.sup@),
            self.sup@.is_finite() && other.inf@.is_finite() ==> forall|j: nat|
                j < 0x3fff_fffe && #[trigger] at_most_pow2(self.sup@.value().sub(other.inf@.value()), j)
                    ==> r.sup@.is_finite() && at_most_pow2(r.sup@.value(), j) && (max_bits(self.sup@, other.inf@)
                    <= 0x2000_0000 ==> error_at_most(
                    r.sup@,
                    self.sup@.value().sub(other.inf@.value()),
                    j + 1 - max_bits(self.sup@, other.inf@),
                )),
            self.sup@ is Zero && other.inf@ is Zero ==> r.sup@ is Zero,
            r.sup@ is Finite ==> significant_bits(r.sup@) == max_bits(self.sup@, other.inf@),
    {
        let r = Interval {
            inf: self.inf.sub_round(&other.sup, Round::Floor),
            sup: self.sup.sub_round(&other.inf, Round::Ceiling),
        };
        proof {
            if self.is_bounded() && other.is_bounded() && r.is_bounded() && other.is_nonempty() {
                lemma_value_wf(self.inf@);
                lemma_value_wf(self.sup@);
                lemma_value_wf(other.inf@);
                lemma_value_wf(other.sup@);
                lemma_value_wf(r.inf@);
                lemma_value_wf(r.sup@);
                let (p, q) = (self.sup@.value(), self.inf@.value());
                let (s, t) = (other.sup@.value(), other.inf@.value());
                let (u, v) = (r.sup@.value(), r.inf@.value());
                let nt = t.neg();
                lemma_add_wf(q, s);
                lemma_add_wf(q, t);
                lemma_add_wf(p, t);
                lemma_sub_le(q, s, q, t);
                lemma_le_trans(v, q.sub(s), q.sub(t));
                lemma_sub_le(p.sub(t), q.sub(t), u, v);
                lemma_sub_shift(p, q, nt);
                lemma_eqv_le(p.sub(t).sub(q.sub(t)), p.sub(q));
                lemma_add_wf(p.sub(t), q.sub(t));
                lemma_add_wf(p, q);
                lemma_add_wf(u, v);
                lemma_le_trans(p.sub(q), p.sub(t).sub(q.sub(t)), u.sub(v));
            }
        }
        assert forall|x: Rat, y: Rat|
            x.wf() && y.wf() && self.contains_rat(x) && other.contains_rat(
                y,
            ) implies #[trigger] r.contains_rat(x.sub(y)) by {
            lemma_lower_sub(self.inf@, other.sup@, r.inf@, x, y);
            lemma_upper_sub(self.sup@, other.inf@, r.sup@, x, y);
        }
        r
    }

    /// `self * 2^k`. For `k >= 0` this never narrows a nonempty interval. Where both
    /// endpoints shift exactly, shifting the result right by `k` gives `self` back.
    pub fn shl(&self, k: i64) -> (r: Interval)
        requires
            self.wf(),
        ensures
            r.wf(),
            r.bounds() == shl_bounds(self.bounds(), k as int),
            shift_exact(self.inf@, k as int) && shift_exact(self.sup@, k as int) ==> shr_bounds(
                r.bounds(),
                k as int,
            ) == self.bounds(),
            r.inf@ == crate::float::float_shl_round(self.inf@, k as int, Round::Floor),
            r.sup@ == crate::float::float_shl_round(self.sup@, k as int, Round::Ceiling),
            self.inf@ is Finite && in_exponent_range(self.inf@.value().scale2(k as int))
                ==> r.inf@ is Finite && r.inf@.value().eqv(self.inf@.value().scale2(k as int)),
            self.sup@ is Finite && in_exponent_range(self.sup@.value().scale2(k as int))
                ==> r.sup@ is Finite && r.sup@.value().eqv(self.sup@.value().scale2(k as int)),
            forall|x: Rat| x.wf() && #[trigger] self.contains_rat(x) ==> r.contains_rat(x.scale2(k as int)),
            self.inf@ is Finite && below_overflow(self.inf@.value().scale2(k as int))
                ==> r.inf@.is_finite(),
            self.sup@ is Finite && below_overflow(self.sup@.value().scale2(k as int))
                ==> r.sup@.is_finite(),
            self.inf@ is Finite && r.inf@ is Finite ==> significant_bits(r.inf@) == significant_bits(
                self.inf@,
            ),
            self.sup@ is Finite && r.sup@ is Finite ==> significant_bits(r.sup@) == significant_bits(
                self.sup@,
            ),
            self.inf@.is_finite() ==> forall|j: nat|
                j < 0x3fff_fffe && #[trigger] at_most_pow2(self.inf@.value().scale2(k as int), j)
                    ==> r.inf@.is_finite() && at_most_pow2(r.inf@.value(), j),
            self.sup@.is_finite() ==> forall|j: nat|
                j < 0x3fff_fffe && #[trigger] at_most_pow2(self.sup@.value().scale2(k as int), j)
                    ==> r.sup@.is_finite() && at_most_pow2(r.sup@.value(), j),
            k >= 0 && self.is_bounded() && r.is_bounded() && self.is_nonempty() ==> self.width_rat().le(
                r.width_rat(),
            ),
    {
        let r = Interval {
            inf: self.inf.shl_round(k, Round::Floor),
            sup: self.sup.shl_round(k, Round::Ceiling),
        };
        proof {
            if k >= 0 && self.is_bounded() && r.is_bounded() && self.is_nonempty() {
                lemma_value_wf(self.inf@);
                lemma_value_wf(self.sup@);
                lemma_value_wf(r.inf@);
                lemma_value_wf(r.sup@);
                let (p, q) = (self.sup@.value(), self.inf@.value());
                let (u, v) = (r.sup@.value(), r.inf@.value());
                let ki = k as int;
                lemma_scale2_wf(p, ki);
                lemma_scale2_wf(q, ki);
                lemma_sub_le(p.scale2(ki), q.scale2(ki), u, v);
                lemma_scale2_sub(p, q, ki);
                lemma_add_wf(p, q);
                lemma_scale2_wf(p.sub(q), ki);
                lemma_add_wf(p.scale2(ki), q.scale2(ki));
                lemma_add_wf(u, v);
                lemma_eqv_le(p.sub(q).scale2(ki), p.scale2(ki).sub(q.scale2(ki)));
                lemma_mul_unary_negation(q.num, p.den);
                assert(p.sub(q).num >= 0);
                lemma_scale2_grows(p.sub(q), ki);
                lemma_le_trans(p.sub(q), p.sub(q).scale2(ki), p.scale2(ki).sub(q.scale2(ki)));
                lemma_le_trans(p.sub(q), p.scale2(ki).sub(q.scale2(ki)), u.sub(v));
            }
        }
        assert forall|x: Rat| x.wf() && #[trigger] self.contains_rat(x) implies r.contains_rat(
            x.scale2(k as int),
        ) by {
            lemma_lower_scale2(self.inf@, r.inf@, x, k as int);
            lemma_upper_scale2(self.sup@, r.sup@, x, k as int);
        }
        r
    }

    /// `self / 2^k`
    pub fn shr(&self, k: i64) -> (r: Interval)
        requires
            self.wf(),
        ensures
            r.wf(),
            r.bounds() == shr_bounds(self.bounds(), k as int),
            r.inf@ == crate::float::float_shr_round(self.inf@, k as int, Round::Floor),
            r.sup@ == crate::float::float_shr_round(self.sup@, k as int, Round::Ceiling),
            self.inf@ is Finite && in_exponent_range(self.inf@.value().scale2(-k)) ==> r.inf@ is Finite
                && r.inf@.value().eqv(self.inf@.value().scale2(-k)),
            self.sup@ is Finite && in_exponent_range(self.sup@.value().scale2(-k)) ==> r.sup@ is Finite
                && r.sup@.value().eqv(self.sup@.value().scale2(-k)),
            forall|x: Rat| x.wf() && #[trigger] self.contains_rat(x) ==> r.contains_rat(x.scale2(-k)),
    {
        let r = Interval {
            inf: self.inf.shr_round(k, Round::Floor),
            sup: self.sup.shr_round(k, Round::Ceiling),
        };
        assert forall|x: Rat| x.wf() && #[trigger] self.contains_rat(x) implies r.contains_rat(
            x.scale2(-k),
        ) by {
            lemma_lower_scale2(self.inf@, r.inf@, x, -k);
            lemma_upper_scale2(self.sup@, r.sup@, x, -k);
        }
        r
    }

    /// `self * k`: for `k = 0` an unbounded interval gives NaN endpoints (infinity
    /// times zero), so the enclosure is stated for a positive `k` or a bounded
    /// interval.
    pub fn mul_natural(&self, k: u64) -> (r: Interval)
        requires
            self.wf(),
        ensures
            r.wf(),
            r.inf@ == crate::float::float_mul_natural_round(self.inf@, k as nat, Round::Floor),
            r.sup@ == crate::float::float_mul_natural_round(self.sup@, k as nat, Round::Ceiling),
            k > 0 || self.is_bounded() ==> forall|x: Rat|
                x.wf() && #[trigger] self.contains_rat(x) ==> r.contains_rat(x.mul_int(k as int)),
            self.inf@ is Finite && r.inf@ is Finite ==> significant_bits(r.inf@) >= significant_bits(
                self.inf@,
            ) && significant_bits(r.inf@) <= significant_bits(self.inf@) + 64,
            self.sup@ is Finite && r.sup@ is Finite ==> significant_bits(r.sup@) >= significant_bits(
                self.sup@,
            ) && significant_bits(r.sup@) <= significant_bits(self.sup@) + 64,
            self.inf@ is Finite && k > 0 && in_safe_range(self.inf@.value().mul_int(k as int))
                ==> r.inf@ is Finite && within_relative_error(
                r.inf@,
                self.inf@.value().mul_int(k as int),
                significant_bits(self.inf@),
            ),
            self.sup@ is Finite && k > 0 && in_safe_range(self.sup@.value().mul_int(k as int))
                ==> r.sup@ is Finite && within_relative_error(
                r.sup@,
                self.sup@.value().mul_int(k as int),
                significant_bits(self.sup@),
            ),
    {
        let r = Interval {
            inf: self.inf.mul_natural_round(k, Round::Floor),
            sup: self.sup.mul_natural_round(k, Round::Ceiling),
        };
        proof {
            if k > 0 || self.is_bounded() {
                assert forall|x: Rat| x.wf() && #[trigger] self.contains_rat(x) implies r.contains_rat(
                    x.mul_int(k as int),
                ) by {
                    lemma_lower_mul(self.inf@, r.inf@, x, k as int);
                    lemma_upper_mul(self.sup@, r.sup@, x, k as int);
                }
            }
        }
        r
    }
}

} // verus!
