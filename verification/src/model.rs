//! The calculation of bytes of tau with Bellard's formula, on outward-rounded
//! intervals so that a byte is only reported once it is certain.

pub mod intervals;
pub mod series;
pub mod batch;
pub mod tail;

use crate::float::{
    at_most_pow2, below_overflow, float_from_natural_prec, lemma_at_most_pow2, float_mul_natural_round, float_shl_round,
    in_safe_range, lemma_below_overflow, lemma_in_safe_range, lemma_value_wf, lemma_within_real,
    within_relative_error, FloatVal, Flt, Round,
};
use crate::model::intervals::{
    add_bounds, neg_bounds, reciprocal_bounds, rounded_bounds, sub_bounds, Interval,
};
use crate::numbers::BigInt;
use crate::model::batch::{final_state, range_result, ByteRange, RangeState};
use crate::model::series::{bellard_combo, byte_certified, lemma_frac_wf, partial_sum};
use crate::model::tail::lemma_certified_bytes_agree;
use crate::numbers::BigNat;
use crate::rational::{
    lemma_add_wf, lemma_pw_add, lemma_scale2_wf, lemma_pw_mono, lemma_pw_pos, lemma_val_le, lemma_val_mul_int,
    lemma_val_of_int, lemma_val_recip, lemma_val_scale2, lemma_val_sign, pw, val, Rat,
};
use vstd::arithmetic::div_mod::{lemma_fundamental_div_mod, lemma_small_mod};
use vstd::arithmetic::power2::{lemma_pow2_adds, lemma_pow2_pos, lemma_pow2_strictly_increases, lemma_pow2_unfold, pow2};
use vstd::prelude::*;

verus! {

/// The largest iteration number for which the exponents of a term fit in an `i64`
/// and its denominators in a `u64`.
pub const MAX_TERMS: u64 = 0x0100_0000_0000_0000;

/// `x` needs exactly `bits` binary digits.
pub open spec fn has_significant_bits(x: nat, bits: nat) -> bool {
    if x == 0 {
        bits == 0
    } else {
        bits >= 1 && pow2((bits - 1) as nat) <= x < pow2(bits)
    }
}

/// The number of binary digits of `x`.
pub open spec fn bit_length(x: nat) -> nat
    decreases x,
{
    if x == 0 {
        0
    } else {
        1 + bit_length(x / 2)
    }
}

/// The number of significant bits of `x`: `floor(log2(x)) + 1`, and 0 for 0.
pub fn significant_bits(x: u64) -> (r: u64)
    ensures
        has_significant_bits(x as nat, r as nat),
        r == bit_length(x as nat),
        r <= 64,
{
    let mut bits: u64 = 0;
    let mut rest: u64 = x;
    proof {
        vstd::arithmetic::power2::lemma2_to64();
    }
    while rest > 0
        invariant
            bits <= 64,
            rest * pow2(bits as nat) <= x < (rest + 1) * pow2(bits as nat),
            rest > 0 ==> bits < 64,
            bits > 0 ==> pow2((bits - 1) as nat) <= x,
            x == 0 ==> bits == 0,
            bits + bit_length(rest as nat) == bit_length(x as nat),
            x < pow2(64),
        decreases rest,
    {
        proof {
            assert(pow2(bits as nat) <= x) by (nonlinear_arith)
                requires
                    rest * pow2(bits as nat) <= x,
                    rest >= 1,
            ;
            lemma_pow2_pos(bits as nat);
            lemma_pow2_unfold((bits + 1) as nat);
            lemma_fundamental_div_mod(rest as int, 2);
            assert(rest / 2 * pow2((bits + 1) as nat) <= rest * pow2(bits as nat)) by (nonlinear_arith)
                requires
                    rest / 2 * 2 <= rest,
                    pow2((bits + 1) as nat) == 2 * pow2(bits as nat),
            ;
            assert((rest + 1) * pow2(bits as nat) <= (rest / 2 + 1) * pow2((bits + 1) as nat)) by (nonlinear_arith)
                requires
                    rest + 1 <= (rest / 2 + 1) * 2,
                    pow2((bits + 1) as nat) == 2 * pow2(bits as nat),
            ;
            if rest / 2 > 0 && bits + 1 >= 64 {
                assert(pow2(64) <= rest / 2 * pow2((bits + 1) as nat)) by (nonlinear_arith)
                    requires
                        rest / 2 >= 1,
                        bits + 1 == 64,
                ;
            }
        }
        rest = rest / 2;
        bits = bits + 1;
    }
    proof {
        vstd::arithmetic::power2::lemma2_to64();
        assert(x < pow2(bits as nat)) by (nonlinear_arith)
            requires
                x < (rest + 1) * pow2(bits as nat),
                rest == 0,
        ;
        if x > 0 && bits == 0 {
            assert(pow2(0) == 1);
        }
    }
    bits
}

/// The fractional part of `2^e / d`, exactly, for `d >= 1`.
pub open spec fn frac_pow2_div(e: int, d: nat) -> Rat {
    if e >= 0 {
        Rat { num: (pow2(e as nat) % d) as int, den: d as int }
    } else {
        Rat { num: 1, den: d as int * pow2((-e) as nat) }
    }
}

/// No power of two is a multiple of an odd number above one.
proof fn lemma_pow2_mod_odd(e: nat, d: nat)
    requires
        d >= 3,
        d % 2 == 1,
    ensures
        pow2(e) % d != 0,
    decreases e,
{
    if e == 0 {
        vstd::arithmetic::power2::lemma2_to64();
        lemma_small_mod(1, d);
    } else {
        lemma_pow2_unfold(e);
        lemma_pow2_mod_odd((e - 1) as nat, d);
        let m = pow2((e - 1) as nat);
        if pow2(e) % d == 0 {
            lemma_fundamental_div_mod(pow2(e) as int, d as int);
            let q = pow2(e) as int / d as int;
            assert(2 * m == d * q);
            lemma_fundamental_div_mod(q, 2);
            lemma_fundamental_div_mod(d as int, 2);
            if q % 2 == 1 {
                let a = q / 2;
                let b = d as int / 2;
                assert(d * q == 2 * (2 * a * b + a + b) + 1) by (nonlinear_arith)
                    requires
                        q == 2 * a + 1,
                        d == 2 * b + 1,
                ;
            }
            assert(q % 2 == 0);
            let r = q / 2;
            assert(m == d * r) by (nonlinear_arith)
                requires
                    2 * m == d * q,
                    q == 2 * r,
            ;
            vstd::arithmetic::div_mod::lemma_mod_multiples_basic(r, d as int);
            assert((r * d) % (d as int) == 0);
            assert(d * r == r * d) by (nonlinear_arith);
        }
    }
}

/// The endpoints of `mod_pow_div(exp, denom, fp)`: `denom` rounded to nearest at
/// precision `fp` and widened to the next float toward the exact value, its
/// reciprocal rounded outward, then multiplied by `2^exp mod denom` where `2^exp >=
/// denom` (zero where `denom` is 1), or else shifted by `exp`, rounded outward.
pub open spec fn mod_pow_div_bounds(exp: int, denom: u64, fp: u64) -> (FloatVal, FloatVal) {
    let (f, a) = float_from_natural_prec(denom, fp);
    let d = reciprocal_bounds(rounded_bounds(f, a));
    if exp >= bit_length(denom as nat) - 1 {
        if denom == 1 {
            (FloatVal::Zero { neg: false }, FloatVal::Zero { neg: false })
        } else {
            let k = pow2(exp as nat) % (denom as nat);
            (
                float_mul_natural_round(d.0, k, Round::Floor),
                float_mul_natural_round(d.1, k, Round::Ceiling),
            )
        }
    } else {
        (float_shl_round(d.0, exp, Round::Floor), float_shl_round(d.1, exp, Round::Ceiling))
    }
}

/// The error of the enclosure that `mod_pow_div` builds, as real numbers: `lo` and
/// `hi` enclose `d` each within `d * t`, `rl` and `rh` are their reciprocals rounded
/// outward within a factor `1 +- t`, and `ol`, `oh` are those times `m`, rounded
/// outward within a factor `1 +- u`. Then `ol` and `oh` are within `(m / d) * 4t` of
/// `m / d`.
proof fn lemma_enclosure_error(
    d: real,
    lo: real,
    hi: real,
    rl: real,
    rh: real,
    m: real,
    ol: real,
    oh: real,
    t: real,
    u: real,
)
    requires
        d >= 1real,
        0real < t,
        8real * t <= 1real,
        0real <= u <= t,
        m > 0real,
        d - d * t <= lo,
        lo <= d,
        d <= hi,
        hi <= d + d * t,
        rl >= 1real / hi - (1real / hi) * t,
        rh <= 1real / lo + (1real / lo) * t,
        ol >= rl * m - rl * m * u,
        oh <= rh * m + rh * m * u,
    ensures
        ol >= m / d - (m / d) * (4real * t),
        oh <= m / d + (m / d) * (4real * t),
{
    let a = 1real / hi;
    let b = 1real / lo;
    assert(lo > 0real) by (nonlinear_arith)
        requires
            d >= 1real,
            8real * t <= 1real,
            d - d * t <= lo,
    ;
    assert(a * hi == 1real && a > 0real) by (nonlinear_arith)
        requires
            hi >= 1real,
            a == 1real / hi,
    ;
    assert(b * lo == 1real && b > 0real) by (nonlinear_arith)
        requires
            lo > 0real,
            b == 1real / lo,
    ;
    // the lower end
    assert(a * (d + d * t) >= 1real) by (nonlinear_arith)
        requires
            a * hi == 1real,
            a > 0real,
            hi <= d + d * t,
    ;
    assert(rl > 0real) by (nonlinear_arith)
        requires
            rl >= a - a * t,
            a > 0real,
            8real * t <= 1real,
    ;
    assert(ol >= a * (1real - t) * m * (1real - t)) by (nonlinear_arith)
        requires
            ol >= rl * m - rl * m * u,
            rl >= a - a * t,
            rl > 0real,
            m > 0real,
            0real <= u <= t,
            8real * t <= 1real,
    ;
    assert(ol * d * (1real + t) >= m * (1real - 3real * t) * (1real + t)) by (nonlinear_arith)
        requires
            ol >= a * (1real - t) * m * (1real - t),
            a * (d + d * t) >= 1real,
            a > 0real,
            d >= 1real,
            m > 0real,
            0real < t,
            8real * t <= 1real,
    ;
    assert(ol * d >= m * (1real - 4real * t)) by (nonlinear_arith)
        requires
            ol * d * (1real + t) >= m * (1real - 3real * t) * (1real + t),
            m > 0real,
            0real < t,
    ;
    assert(ol >= m / d - (m / d) * (4real * t)) by (nonlinear_arith)
        requires
            ol * d >= m * (1real - 4real * t),
            d >= 1real,
    ;
    // the upper end
    assert(b * (d - d * t) <= 1real) by (nonlinear_arith)
        requires
            b * lo == 1real,
            b > 0real,
            d - d * t <= lo,
    ;
    if rh >= 0real {
        assert(oh <= b * (1real + t) * m * (1real + t)) by (nonlinear_arith)
            requires
                oh <= rh * m + rh * m * u,
                rh <= b + b * t,
                rh >= 0real,
                m > 0real,
                0real <= u <= t,
        ;
    } else {
        assert(oh <= b * (1real + t) * m * (1real + t)) by (nonlinear_arith)
            requires
                oh <= rh * m + rh * m * u,
                rh < 0real,
                b > 0real,
                m > 0real,
                0real <= u <= t,
        ;
    }
    assert(oh * d * (1real - t) <= m * (1real + 4real * t) * (1real - t)) by (nonlinear_arith)
        requires
            oh <= b * (1real + t) * m * (1real + t),
            b * (d - d * t) <= 1real,
            b > 0real,
            d >= 1real,
            m > 0real,
            0real < t,
            8real * t <= 1real,
    ;
    assert(oh * d <= m * (1real + 4real * t)) by (nonlinear_arith)
        requires
            oh * d * (1real - t) <= m * (1real + 4real * t) * (1real - t),
            0real < t,
            8real * t <= 1real,
    ;
    assert(oh <= m / d + (m / d) * (4real * t)) by (nonlinear_arith)
        requires
            oh * d <= m * (1real + 4real * t),
            d >= 1real,
    ;
}

/// The sizes of the values in the enclosure that `mod_pow_div` builds at a precision
/// of two bits or more: all between `1 / w` and `w`, where `w` is at least four times
/// the denominator and the multiplier.
proof fn lemma_enclosure_ranges(
    d: real,
    lo: real,
    hi: real,
    rl: real,
    rh: real,
    k: real,
    t: real,
    w: real,
)
    requires
        d >= 1real,
        4real * d <= w,
        k >= 1real,
        4real * k <= w,
        0real < t,
        2real * t <= 1real,
        d - d * t <= lo,
        lo <= d,
        d <= hi,
        hi <= d + d * t,
        1real / hi - (1real / hi) * t <= rl,
        rl <= 1real / hi + (1real / hi) * t,
        1real / lo - (1real / lo) * t <= rh,
        rh <= 1real / lo + (1real / lo) * t,
    ensures
        lo > 0real,
        hi >= 1real,
        1real / w <= 1real / hi <= w,
        1real / w <= 1real / lo <= w,
        1real / w <= rl * k <= w,
        1real / w <= rh * k <= w,
        0real <= rl <= 2real,
        0real <= rh <= 4real,
{
    assert(lo * 2real >= d) by (nonlinear_arith)
        requires
            d - d * t <= lo,
            2real * t <= 1real,
            d >= 1real,
    ;
    let a = 1real / hi;
    let b = 1real / lo;
    assert(a * hi == 1real && a > 0real && a <= 1real) by (nonlinear_arith)
        requires
            hi >= 1real,
            a == 1real / hi,
    ;
    assert(b * lo == 1real && b > 0real && b <= 2real) by (nonlinear_arith)
        requires
            lo * 2real >= 1real,
            b == 1real / lo,
    ;
    assert(hi * 2real <= w) by (nonlinear_arith)
        requires
            hi <= d + d * t,
            2real * t <= 1real,
            4real * d <= w,
            d >= 1real,
    ;
    assert(a * w >= 2real) by (nonlinear_arith)
        requires
            a * hi == 1real,
            a > 0real,
            hi * 2real <= w,
    ;
    assert(b * w >= 4real) by (nonlinear_arith)
        requires
            b * lo == 1real,
            b > 0real,
            lo <= d,
            4real * d <= w,
    ;
    assert(w >= 4real);
    assert(1real / w <= a && 1real / w <= b && 1real / w > 0real) by (nonlinear_arith)
        requires
            a * w >= 2real,
            b * w >= 4real,
            w >= 4real,
    ;
    assert(rl * 2real >= a && rl <= 2real) by (nonlinear_arith)
        requires
            a - a * t <= rl,
            rl <= a + a * t,
            2real * t <= 1real,
            0real < a <= 1real,
    ;
    assert(rh * 2real >= b && rh <= 4real) by (nonlinear_arith)
        requires
            b - b * t <= rh,
            rh <= b + b * t,
            2real * t <= 1real,
            0real < b <= 2real,
    ;
    assert(rl * k * w >= 1real && rl * k <= w) by (nonlinear_arith)
        requires
            rl * 2real >= a,
            rl <= 2real,
            a * w >= 2real,
            k >= 1real,
            4real * k <= w,
            a > 0real,
    ;
    assert(rh * k * w >= 1real && rh * k <= w) by (nonlinear_arith)
        requires
            rh * 2real >= b,
            rh <= 4real,
            b * w >= 4real,
            k >= 1real,
            4real * k <= w,
            b > 0real,
    ;
    assert(1real / w <= rl * k && 1real / w <= rh * k) by (nonlinear_arith)
        requires
            rl * k * w >= 1real,
            rh * k * w >= 1real,
            w >= 4real,
    ;
}

/// The enclosure of a denominator rounded at a precision of two bits or more, and
/// its reciprocals, as real numbers.
proof fn lemma_denominator_bracket(denom: u64, fp: u64, lo: FloatVal, hi: FloatVal)
    requires
        denom >= 1,
        fp >= 2,
        lo is Finite,
        hi is Finite,
        crate::float::significant_bits(lo) == fp,
        crate::float::significant_bits(hi) == fp,
        within_relative_error(lo, Rat::of_u64(denom), fp as nat),
        within_relative_error(hi, Rat::of_u64(denom), fp as nat),
        lo.value().le(Rat::of_u64(denom)),
        Rat::of_u64(denom).le(hi.value()),
    ensures
        ({
            let (dd, t) = (denom as real, pw(1 - fp));
            &&& 0real < t && 2real * t <= 1real
            &&& fp >= 4 ==> 8real * t <= 1real
            &&& dd >= 1real && 4real * dd <= pw(66)
            &&& dd - dd * t <= val(lo.value()) && val(lo.value()) <= dd
            &&& dd <= val(hi.value()) && val(hi.value()) <= dd + dd * t
        }),
        lo.value().num > 0,
        hi.value().num > 0,
        !lo.le(FloatVal::Zero { neg: false }),
        lo.value().recip().wf() && lo.value().recip().num >= 0,
        hi.value().recip().wf() && hi.value().recip().num >= 0,
        val(lo.value().recip()) == 1real / val(lo.value()),
        val(hi.value().recip()) == 1real / val(hi.value()),
        in_safe_range(lo.value().recip()),
        in_safe_range(hi.value().recip()),
{
    let d = Rat::of_u64(denom);
    let (dd, t) = (denom as real, pw(1 - fp));
    lemma_val_of_int(denom as int);
    lemma_value_wf(lo);
    lemma_value_wf(hi);
    lemma_within_real(lo, d, fp as nat);
    lemma_within_real(hi, d, fp as nat);
    lemma_val_le(lo.value(), d);
    lemma_val_le(d, hi.value());
    lemma_pw_pos(1 - fp);
    lemma_pw_mono(1 - fp, -1);
    vstd::arithmetic::power2::lemma2_to64();
    assert(pw(-1) == 1real / 2real);
    if fp >= 4 {
        lemma_pw_mono(1 - fp, -3);
        assert(pw(-3) == 1real / 8real);
    }
    lemma_pw_add(64, 2);
    assert(pw(64) == 0x1_0000_0000_0000_0000real);
    assert(pw(2) == 4real);
    assert(dd == (denom as int) as real);
    assert(val(d) == dd);
    assert(denom as int <= 0xffff_ffff_ffff_ffff);
    assert(dd <= 0xffff_ffff_ffff_ffffreal);
    assert(pw(66) == pw(64) * pw(2));
    assert(pw(66) == 0x4_0000_0000_0000_0000real) by (nonlinear_arith)
        requires
            pw(66) == pw(64) * pw(2),
            pw(64) == 0x1_0000_0000_0000_0000real,
            pw(2) == 4real,
    ;
    assert(4real * dd <= pw(66));
    assert(dd - dd * t <= val(lo.value()));
    assert(val(hi.value()) <= dd + dd * t);
    assert(val(lo.value()) <= dd);
    assert(dd <= val(hi.value()));
    let (l, h) = (val(lo.value()), val(hi.value()));
    let w = pw(66);
    assert(l > 0real) by (nonlinear_arith)
        requires
            dd - dd * t <= l,
            2real * t <= 1real,
            dd >= 1real,
    ;
    assert(1real / h - (1real / h) * t <= 1real / h <= 1real / h + (1real / h) * t) by (nonlinear_arith)
        requires
            h >= 1real,
            t > 0real,
    ;
    assert(1real / l - (1real / l) * t <= 1real / l <= 1real / l + (1real / l) * t) by (nonlinear_arith)
        requires
            l > 0real,
            t > 0real,
    ;
    lemma_enclosure_ranges(dd, l, h, 1real / h, 1real / l, 1real, t, w);
    assert(lo.value().num > 0) by (nonlinear_arith)
        requires
            lo.value().den > 0,
            l > 0real,
            l == lo.value().num as real / lo.value().den as real,
    ;
    assert(hi.value().num > 0) by (nonlinear_arith)
        requires
            hi.value().den > 0,
            h > 0real,
            h == hi.value().num as real / hi.value().den as real,
    ;
    lemma_val_recip(lo.value());
    lemma_val_recip(hi.value());
    lemma_val_of_int(0);
    lemma_val_le(lo.value(), Rat::of_int(0));
    // from `1 / w` up to `w`, well inside the safe range
    lemma_pw_mono(-0x3fff_ffff, -66);
    lemma_pw_mono(66, 0x3fff_fffd);
    assert(pw(-66) == 1real / w);
    lemma_in_safe_range(lo.value().recip());
    lemma_in_safe_range(hi.value().recip());
}

/// The values that `mod_pow_div` gives stay between 0 and 8: `ol` and `oh` are the
/// reciprocals `vl`, `vh` of the enclosure `[l, h]` of `d`, times `k <= d`, each within
/// a factor `1 +- t`.
proof fn lemma_enclosure_magnitude(
    d: real,
    l: real,
    h: real,
    vl: real,
    vh: real,
    k: real,
    ol: real,
    oh: real,
    t: real,
)
    requires
        d >= 1real,
        0real < t,
        2real * t <= 1real,
        d - d * t <= l,
        l <= d,
        d <= h,
        0real <= vl,
        vl <= 1real / h + (1real / h) * t,
        0real <= vh,
        vh <= 1real / l + (1real / l) * t,
        0real < k <= d,
        vl * k - vl * k * t <= ol,
        ol <= vl * k + vl * k * t,
        vh * k - vh * k * t <= oh,
        oh <= vh * k + vh * k * t,
    ensures
        0real <= ol <= 8real,
        0real <= oh <= 8real,
{
    let a = 1real / h;
    let b = 1real / l;
    assert(l * 2real >= d) by (nonlinear_arith)
        requires
            d - d * t <= l,
            2real * t <= 1real,
            d >= 1real,
    ;
    assert(a * h == 1real && a > 0real) by (nonlinear_arith)
        requires
            h >= 1real,
            a == 1real / h,
    ;
    assert(b * l == 1real && b > 0real) by (nonlinear_arith)
        requires
            l * 2real >= 1real,
            b == 1real / l,
    ;
    assert(a * k <= 1real) by (nonlinear_arith)
        requires
            a * h == 1real,
            a > 0real,
            k <= d,
            d <= h,
    ;
    assert(b * k <= 2real) by (nonlinear_arith)
        requires
            b * l == 1real,
            b > 0real,
            k <= d,
            l * 2real >= d,
    ;
    assert(vl * k <= 2real && vh * k <= 3real) by (nonlinear_arith)
        requires
            vl <= a + a * t,
            vh <= b + b * t,
            a * k <= 1real,
            b * k <= 2real,
            k > 0real,
            0real < t,
            2real * t <= 1real,
            a > 0real,
            b > 0real,
    ;
    assert(0real <= ol <= 8real && 0real <= oh <= 8real) by (nonlinear_arith)
        requires
            vl * k - vl * k * t <= ol,
            ol <= vl * k + vl * k * t,
            vh * k - vh * k * t <= oh,
            oh <= vh * k + vh * k * t,
            0real <= vl,
            0real <= vh,
            k > 0real,
            vl * k <= 2real,
            vh * k <= 3real,
            0real < t,
            2real * t <= 1real,
    ;
}

/// What `mod_pow_div` knows once it has rounded the denominator to `[lo, hi]` at
/// precision `fp` and taken the reciprocals `[rl, rh]` of that enclosure.
spec fn reciprocal_stage(denom: u64, fp: u64, lo: FloatVal, hi: FloatVal, rl: FloatVal, rh: FloatVal) -> bool {
    &&& denom >= 1
    &&& fp >= 2
    &&& lo is Finite && hi is Finite && rl is Finite && rh is Finite
    &&& crate::float::significant_bits(lo) == fp && crate::float::significant_bits(hi) == fp
    &&& crate::float::significant_bits(rl) == fp && crate::float::significant_bits(rh) == fp
    &&& within_relative_error(lo, Rat::of_u64(denom), fp as nat)
    &&& within_relative_error(hi, Rat::of_u64(denom), fp as nat)
    &&& lo.value().le(Rat::of_u64(denom)) && Rat::of_u64(denom).le(hi.value())
    &&& within_relative_error(rl, hi.value().recip(), fp as nat)
    &&& within_relative_error(rh, lo.value().recip(), fp as nat)
}

/// The reciprocal stage as real numbers.
proof fn lemma_reciprocal_stage(
    denom: u64,
    fp: u64,
    lo: FloatVal,
    hi: FloatVal,
    rl: FloatVal,
    rh: FloatVal,
    k: real,
)
    requires
        reciprocal_stage(denom, fp, lo, hi, rl, rh),
        k >= 1real,
        4real * k <= pw(66),
    ensures
        ({
            let (dd, t) = (denom as real, pw(1 - fp));
            let (l, h, vl, vh) = (val(lo.value()), val(hi.value()), val(rl.value()), val(rh.value()));
            &&& 0real < t && 2real * t <= 1real
            &&& fp >= 4 ==> 8real * t <= 1real
            &&& dd >= 1real && 4real * dd <= pw(66)
            &&& dd - dd * t <= l && l <= dd && dd <= h && h <= dd + dd * t
            &&& 1real / h - (1real / h) * t <= vl && vl <= 1real / h + (1real / h) * t
            &&& 1real / l - (1real / l) * t <= vh && vh <= 1real / l + (1real / l) * t
            &&& 1real / pw(66) <= vl * k && vl * k <= pw(66)
            &&& 1real / pw(66) <= vh * k && vh * k <= pw(66)
            &&& 0real <= vl && vl <= 2real && 0real <= vh && vh <= 4real
        }),
        rl.value().wf() && rh.value().wf(),
        pw(-0x3fff_ffff) <= 1real / pw(66),
        pw(66) <= pw(0x3fff_fffd),
{
    lemma_denominator_bracket(denom, fp, lo, hi);
    lemma_within_real(rl, hi.value().recip(), fp as nat);
    lemma_within_real(rh, lo.value().recip(), fp as nat);
    lemma_value_wf(rl);
    lemma_value_wf(rh);
    let (dd, t) = (denom as real, pw(1 - fp));
    lemma_enclosure_ranges(
        dd,
        val(lo.value()),
        val(hi.value()),
        val(rl.value()),
        val(rh.value()),
        k,
        t,
        pw(66),
    );
    lemma_pw_mono(-0x3fff_ffff, -66);
    lemma_pw_mono(66, 0x3fff_fffd);
    assert(pw(-66) == 1real / pw(66));
}

/// In the modular branch, the products of the reciprocals by `k` are in the safe
/// range, and the rounded products are within `4 * 2^(1 - fp)` of `k / denom`.
proof fn lemma_modular_branch(
    denom: u64,
    fp: u64,
    lo: FloatVal,
    hi: FloatVal,
    rl: FloatVal,
    rh: FloatVal,
    k: u64,
)
    requires
        reciprocal_stage(denom, fp, lo, hi, rl, rh),
        1 <= k < denom,
    ensures
        in_safe_range(rl.value().mul_int(k as int)),
        in_safe_range(rh.value().mul_int(k as int)),
        forall|ol: FloatVal, oh: FloatVal|
            fp >= 4 && #[trigger] within_relative_error(ol, rl.value().mul_int(k as int), fp as nat)
                && #[trigger] within_relative_error(oh, rh.value().mul_int(k as int), fp as nat)
                ==> ({
                let x = val(Rat::of_u64(denom).recip().mul_int(k as int));
                &&& x - x * pw(3 - fp) <= val(ol.value())
                &&& val(oh.value()) <= x + x * pw(3 - fp)
            }),
        forall|ol: FloatVal, oh: FloatVal|
            #[trigger] within_relative_error(ol, rl.value().mul_int(k as int), fp as nat)
                && #[trigger] within_relative_error(oh, rh.value().mul_int(k as int), fp as nat)
                ==> at_most_pow2(ol.value(), 3) && at_most_pow2(oh.value(), 3),
{
    let kk = k as real;
    assert(4real * kk <= pw(66)) by {
        lemma_denominator_bracket(denom, fp, lo, hi);
    }
    lemma_reciprocal_stage(denom, fp, lo, hi, rl, rh, kk);
    lemma_val_mul_int(rl.value(), k as int);
    lemma_val_mul_int(rh.value(), k as int);
    lemma_in_safe_range(rl.value().mul_int(k as int));
    lemma_in_safe_range(rh.value().mul_int(k as int));
    let d = Rat::of_u64(denom);
    let (dd, t) = (denom as real, pw(1 - fp));
    lemma_val_of_int(denom as int);
    lemma_val_recip(d);
    lemma_val_mul_int(d.recip(), k as int);
    lemma_pw_add(2, 1 - fp);
    vstd::arithmetic::power2::lemma2_to64();
    assert(pw(2) == 4real);
    assert(kk / dd == (1real / dd) * kk) by (nonlinear_arith)
        requires
            dd >= 1real,
    ;
    let (vl, vh) = (val(rl.value()), val(rh.value()));
    lemma_pw_pos(66);
    assert(1real / pw(66) > 0real) by (nonlinear_arith)
        requires
            pw(66) > 0real,
    ;
    assert(val(rl.value().mul_int(k as int)) > 0real);
    assert(val(rh.value().mul_int(k as int)) > 0real);
    lemma_val_sign(rl.value().mul_int(k as int));
    lemma_val_sign(rh.value().mul_int(k as int));
    assert forall|ol: FloatVal, oh: FloatVal|
        fp >= 4 && #[trigger] within_relative_error(ol, rl.value().mul_int(k as int), fp as nat)
            && #[trigger] within_relative_error(oh, rh.value().mul_int(k as int), fp as nat)
        implies ({
        let x = val(d.recip().mul_int(k as int));
        &&& x - x * pw(3 - fp) <= val(ol.value())
        &&& val(oh.value()) <= x + x * pw(3 - fp)
    }) by {
        lemma_within_real(ol, rl.value().mul_int(k as int), fp as nat);
        lemma_within_real(oh, rh.value().mul_int(k as int), fp as nat);
        lemma_enclosure_error(
            dd,
            val(lo.value()),
            val(hi.value()),
            vl,
            vh,
            kk,
            val(ol.value()),
            val(oh.value()),
            t,
            t,
        );
    }
    assert(pw(3) == 8real);
    assert forall|ol: FloatVal, oh: FloatVal|
        #[trigger] within_relative_error(ol, rl.value().mul_int(k as int), fp as nat)
            && #[trigger] within_relative_error(oh, rh.value().mul_int(k as int), fp as nat)
        implies at_most_pow2(ol.value(), 3) && at_most_pow2(oh.value(), 3) by {
        lemma_within_real(ol, rl.value().mul_int(k as int), fp as nat);
        lemma_within_real(oh, rh.value().mul_int(k as int), fp as nat);
        lemma_enclosure_magnitude(
            dd,
            val(lo.value()),
            val(hi.value()),
            vl,
            vh,
            kk,
            val(ol.value()),
            val(oh.value()),
            t,
        );
        lemma_value_wf(ol);
        lemma_value_wf(oh);
        lemma_at_most_pow2(ol.value(), 3);
        lemma_at_most_pow2(oh.value(), 3);
    }
}

/// In the shifting branch, the reciprocals shifted by `e` stay below the overflow;
/// where `2^e / denom` is well inside the exponent range, so are they, and they are
/// within `4 * 2^(1 - fp)` of `2^e / denom`.
proof fn lemma_shift_branch(
    denom: u64,
    fp: u64,
    lo: FloatVal,
    hi: FloatVal,
    rl: FloatVal,
    rh: FloatVal,
    e: int,
)
    requires
        reciprocal_stage(denom, fp, lo, hi, rl, rh),
        pw(e) <= denom as real,
    ensures
        below_overflow(rl.value().scale2(e)),
        below_overflow(rh.value().scale2(e)),
        at_most_pow2(rl.value().scale2(e), 3),
        at_most_pow2(rh.value().scale2(e), 3),
        ({
            let x = val(Rat::of_u64(denom).recip().scale2(e));
            fp >= 4 && pw(-0x3fff_fffe) <= x ==> {
                &&& in_safe_range(rl.value().scale2(e))
                &&& in_safe_range(rh.value().scale2(e))
                &&& x - x * pw(3 - fp) <= val(rl.value().scale2(e))
                &&& val(rh.value().scale2(e)) <= x + x * pw(3 - fp)
            }
        }),
{
    lemma_denominator_bracket(denom, fp, lo, hi);
    lemma_reciprocal_stage(denom, fp, lo, hi, rl, rh, 1real);
    let d = Rat::of_u64(denom);
    let (dd, t, m) = (denom as real, pw(1 - fp), pw(e));
    assert(val(lo.value()) > 0real) by (nonlinear_arith)
        requires
            dd - dd * t <= val(lo.value()),
            2real * t <= 1real,
            dd >= 1real,
    ;
    let (l, h, vl, vh) = (val(lo.value()), val(hi.value()), val(rl.value()), val(rh.value()));
    lemma_pw_pos(e);
    lemma_val_scale2(rl.value(), e);
    lemma_val_scale2(rh.value(), e);
    lemma_scale2_wf(rl.value(), e);
    lemma_scale2_wf(rh.value(), e);
    assert(0real <= vl * m <= pw(66) && 0real <= vh * m <= pw(66)) by (nonlinear_arith)
        requires
            0real <= vl <= 2real,
            0real <= vh <= 4real,
            0real < m <= dd,
            4real * dd <= pw(66),
    ;
    lemma_pw_mono(66, 0x3fff_fffd);
    lemma_below_overflow(rl.value().scale2(e));
    lemma_below_overflow(rh.value().scale2(e));
    assert(vl * m - vl * m * t <= vl * m <= vl * m + vl * m * t
        && vh * m - vh * m * t <= vh * m <= vh * m + vh * m * t) by (nonlinear_arith)
        requires
            0real <= vl,
            0real <= vh,
            m > 0real,
            t > 0real,
    ;
    lemma_enclosure_magnitude(dd, l, h, vl, vh, m, vl * m, vh * m, t);
    vstd::arithmetic::power2::lemma2_to64();
    assert(pw(3) == 8real);
    lemma_at_most_pow2(rl.value().scale2(e), 3);
    lemma_at_most_pow2(rh.value().scale2(e), 3);
    lemma_val_of_int(denom as int);
    lemma_val_recip(d);
    lemma_val_scale2(d.recip(), e);
    let x = val(d.recip().scale2(e));
    assert(x == m / dd) by (nonlinear_arith)
        requires
            x == (1real / dd) * m,
            dd >= 1real,
    ;
    if fp >= 4 && pw(-0x3fff_fffe) <= x {
        lemma_enclosure_error(dd, l, h, vl, vh, m, vl * m, vh * m, t, 0real);
        lemma_pw_add(2, 1 - fp);
        lemma_pw_add(-0x3fff_ffff, 1);
        vstd::arithmetic::power2::lemma2_to64();
        assert(pw(2) == 4real);
        assert(pw(1) == 2real);
        assert(vl * m >= pw(-0x3fff_ffff) && vh * m >= pw(-0x3fff_ffff)) by (nonlinear_arith)
            requires
                vl * m >= x - x * (4real * t),
                vh >= 1real / l - (1real / l) * t,
                l <= dd,
                l > 0real,
                dd >= 1real,
                m > 0real,
                x == m / dd,
                8real * t <= 1real,
                t > 0real,
                pw(-0x3fff_fffe) <= x,
                pw(-0x3fff_fffe) == pw(-0x3fff_ffff) * 2real,
        ;
        lemma_in_safe_range(rl.value().scale2(e));
        lemma_in_safe_range(rh.value().scale2(e));
    }
}

/// `(2^exp / denom) mod 1`, enclosed in an interval at precision `fp`.
///
/// The denominator is odd, as every denominator of Bellard's formula is: then
/// `2^exp mod denom` is never zero, and never asks `malachite` for a power modulo
/// two, which it refuses.
///
/// From a precision of two bits on, both ends are finite and of magnitude at most 8;
/// from four bits on, where the fraction is well inside the range of a float's
/// exponent, they are within a factor `1 +- 2^(3 - fp)` of it.
pub fn mod_pow_div(exp: &BigInt, denom: u64, fp: u64) -> (r: Interval)
    requires
        denom % 2 == 1,
        fp >= 1,
        exp@ >= i64::MIN,
    ensures
        r.wf(),
        r.bounds() == mod_pow_div_bounds(exp@, denom, fp),
        r.contains_rat(frac_pow2_div(exp@, denom as nat)),
        fp >= 2 ==> r.inf@.is_finite() && r.sup@.is_finite(),
        fp >= 2 ==> at_most_pow2(r.inf@.value(), 3) && at_most_pow2(r.sup@.value(), 3),
        fp >= 2 && r.inf@ is Finite ==> crate::float::significant_bits(r.inf@) >= fp
            && crate::float::significant_bits(r.inf@) <= fp + 64,
        fp >= 2 && r.sup@ is Finite ==> crate::float::significant_bits(r.sup@) >= fp
            && crate::float::significant_bits(r.sup@) <= fp + 64,
        val(frac_pow2_div(exp@, denom as nat)) == 0real ==> val(r.inf@.value()) == 0real && val(
            r.sup@.value(),
        ) == 0real,
        fp >= 4 && pw(-0x3fff_fffe) <= val(frac_pow2_div(exp@, denom as nat)) ==> ({
            let x = val(frac_pow2_div(exp@, denom as nat));
            &&& x - x * pw(3 - fp) <= val(r.inf@.value())
            &&& val(r.sup@.value()) <= x + x * pw(3 - fp)
        }),
{
    let (float, approx) = Flt::from_natural_prec(denom, fp);
    let rounded = Interval::from_rounded(float, approx);
    let ghost d = Rat::of_u64(denom);
    proof {
        crate::float::lemma_value_wf(rounded.inf@);
        crate::float::lemma_value_wf(rounded.sup@);
        assert(rounded.contains_rat(d));
    }
    // the only place the precision is set explicitly: it propagates from here.
    let denom_int = rounded.reciprocal();
    assert(denom_int.contains_rat(d.recip()));
    let ghost (lo, hi, rl, rh) = (rounded.inf@, rounded.sup@, denom_int.inf@, denom_int.sup@);
    proof {
        if fp >= 2 {
            assert(lo is Finite && hi is Finite);
            assert(crate::float::significant_bits(lo) == fp);
            assert(crate::float::significant_bits(hi) == fp);
            assert(within_relative_error(lo, d, fp as nat));
            assert(within_relative_error(hi, d, fp as nat));
            lemma_denominator_bracket(denom, fp, lo, hi);
            assert(reciprocal_stage(denom, fp, lo, hi, rl, rh));
        }
    }
    let bits = significant_bits(denom);
    proof {
        lemma_frac_wf(exp@, denom as nat);
        assert(denom_int.bounds() == reciprocal_bounds(rounded_bounds(
            float_from_natural_prec(denom, fp).0,
            float_from_natural_prec(denom, fp).1,
        )));
    }
    // modular arithmetic is only needed when 2^exp >= denom, that is when
    // exp >= floor(lb(denom)) = significant_bits(denom) - 1.
    if exp.ge_i64(bits as i64 - 1) {
        if denom == 1 {
            proof {
                assert(pow2(exp@ as nat) % 1 == 0);
                lemma_pw_pos(-0x3fff_fffe);
                assert(val(frac_pow2_div(exp@, denom as nat)) == 0real);
                vstd::arithmetic::power2::lemma2_to64();
                assert(at_most_pow2(Rat::of_int(0), 3));
                lemma_val_of_int(0);
            }
            return Interval::zero();
        }
        // (1 / denom) * (2^exp mod denom)
        let k = BigInt::mod_pow2(exp, denom);
        proof {
            lemma_pow2_mod_odd(exp@ as nat, denom as nat);
            if fp >= 2 {
                lemma_modular_branch(denom, fp, lo, hi, rl, rh, k);
            }
        }
        let r = denom_int.mul_natural(k);
        assert(r.contains_rat(d.recip().mul_int(k as int)));
        assert(exp@ >= 0);
        assert(d.recip() == Rat { num: 1, den: denom as int });
        assert(d.recip().mul_int(k as int) == Rat { num: 1 * (k as int), den: denom as int });
        assert(frac_pow2_div(exp@, denom as nat) == Rat {
            num: (pow2(exp@ as nat) % (denom as nat)) as int,
            den: denom as int,
        });
        assert(d.recip().mul_int(k as int) == frac_pow2_div(exp@, denom as nat));
        proof {
            lemma_val_sign(frac_pow2_div(exp@, denom as nat));
        }
        proof {
            if fp >= 2 {
                assert(within_relative_error(r.inf@, rl.value().mul_int(k as int), fp as nat));
                assert(within_relative_error(r.sup@, rh.value().mul_int(k as int), fp as nat));
            }
        }
        r
    } else {
        // (1 / denom) * 2^exp
        let e = exp.to_i64().unwrap();
        proof {
            assert(e as int == exp@);
            if fp >= 2 {
                lemma_pw_pos(e as int);
                if e >= 0 {
                    lemma_pow2_strictly_increases(e as nat, (bits - 1) as nat);
                    assert(pw(e as int) <= denom as real);
                } else {
                    lemma_pw_mono(e as int, 0);
                    vstd::arithmetic::power2::lemma2_to64();
                    assert(pw(0) == 1real);
                }
                lemma_shift_branch(denom, fp, lo, hi, rl, rh, e as int);
            }
        }
        let r = denom_int.shl(e);
        proof {
            if fp >= 2 {
                assert(at_most_pow2(rl.value().scale2(e as int), 3));
                assert(at_most_pow2(rh.value().scale2(e as int), 3));
            }
        }
        assert(d.recip() == Rat { num: 1, den: denom as int });
        assert(r.contains_rat(d.recip().scale2(e as int)));
        proof {
            if e >= 0 {
                lemma_pow2_strictly_increases(e as nat, (bits - 1) as nat);
                lemma_small_mod(pow2(e as nat), denom as nat);
                assert(pow2(e as nat) % (denom as nat) == pow2(e as nat));
                assert(d.recip().scale2(e as int) == Rat {
                    num: 1 * pow2(e as nat) as int,
                    den: denom as int,
                });
            } else {
                assert(d.recip().scale2(e as int) == Rat {
                    num: 1,
                    den: denom as int * pow2((-e) as nat),
                });
            }
        }
        assert(d.recip().scale2(e as int) == frac_pow2_div(exp@, denom as nat));
        proof {
            lemma_pow2_pos(if e >= 0 { e as nat } else { (-e) as nat });
            lemma_val_sign(frac_pow2_div(exp@, denom as nat));
        }
        proof {
            let x = val(frac_pow2_div(exp@, denom as nat));
            if fp >= 4 && pw(-0x3fff_fffe) <= x {
                lemma_value_wf(r.inf@);
                lemma_value_wf(r.sup@);
                lemma_value_wf(rl);
                lemma_value_wf(rh);
                lemma_scale2_wf(rl.value(), e as int);
                lemma_scale2_wf(rh.value(), e as int);
                lemma_val_le(r.inf@.value(), rl.value().scale2(e as int));
                lemma_val_le(r.sup@.value(), rh.value().scale2(e as int));
            }
        }
        r
    }
}

/// One term of Bellard's formula, scaled by `2^offset` and with each fraction taken
/// modulo one: `(-1)^n (-{2^(e+5)/(4n+1)} - {2^e/(4n+3)} + {2^(e+8)/(10n+1)}
/// - {2^(e+6)/(10n+3)} - {2^(e+2)/(10n+5)} - {2^(e+2)/(10n+7)} + {2^e/(10n+9)})` with
/// `e = offset - 5 - 10n`.
pub open spec fn bellard_term_exact(n: nat, offset: int) -> Rat {
    let e = offset - 5 - 10 * n;
    let s = bellard_combo(
        frac_pow2_div(e + 5, 4 * n + 1),
        frac_pow2_div(e, 4 * n + 3),
        frac_pow2_div(e + 8, 10 * n + 1),
        frac_pow2_div(e + 6, 10 * n + 3),
        frac_pow2_div(e + 2, 10 * n + 5),
        frac_pow2_div(e + 2, 10 * n + 7),
        frac_pow2_div(e, 10 * n + 9),
    );
    if n % 2 == 1 {
        s.neg()
    } else {
        s
    }
}

/// The endpoints of `bellard_term(n, offset, precision)`: the outward-rounded
/// combination of the seven fractions of the term, negated for an odd `n`.
pub open spec fn bellard_term_bounds(n: nat, offset: int, precision: u64) -> (FloatVal, FloatVal) {
    let e = offset - 5 - 10 * n;
    let x1 = mod_pow_div_bounds(e + 5, (4 * n + 1) as u64, precision);
    let x2 = mod_pow_div_bounds(e, (4 * n + 3) as u64, precision);
    let x3 = mod_pow_div_bounds(e + 8, (10 * n + 1) as u64, precision);
    let x4 = mod_pow_div_bounds(e + 6, (10 * n + 3) as u64, precision);
    let x5 = mod_pow_div_bounds(e + 2, (10 * n + 5) as u64, precision);
    let x6 = mod_pow_div_bounds(e + 2, (10 * n + 7) as u64, precision);
    let x7 = mod_pow_div_bounds(e, (10 * n + 9) as u64, precision);
    let t = combo_bounds(x1, x2, x3, x4, x5, x6, x7);
    if n % 2 == 1 {
        neg_bounds(t)
    } else {
        t
    }
}

/// Adding or taking away a number of magnitude at most 8 from one of magnitude at
/// most `2^j` (with `j >= 3`) gives one of magnitude at most `2^(j + 1)`.
proof fn lemma_endpoint_sum(a: FloatVal, b: FloatVal, j: nat)
    requires
        j >= 3,
        at_most_pow2(a.value(), j),
        at_most_pow2(b.value(), 3),
    ensures
        at_most_pow2(a.value().add(b.value()), j + 1),
        at_most_pow2(a.value().sub(b.value()), j + 1),
{
    lemma_value_wf(a);
    lemma_value_wf(b);
    lemma_add_wf(a.value(), b.value());
    lemma_add_wf(a.value(), b.value().neg());
    crate::rational::lemma_val_add(a.value(), b.value());
    lemma_at_most_pow2(a.value(), j);
    lemma_at_most_pow2(b.value(), 3);
    lemma_at_most_pow2(a.value().add(b.value()), j + 1);
    lemma_at_most_pow2(a.value().sub(b.value()), j + 1);
    lemma_pw_mono(3, j as int);
    lemma_pw_add(j as int, 1);
    vstd::arithmetic::power2::lemma2_to64();
    assert(pw(1) == 2real);
    assert(pw((j + 1) as int) == 2real * pw(j as int)) by (nonlinear_arith)
        requires
            pw(j as int + 1) == pw(j as int) * pw(1),
            pw(1) == 2real,
            (j + 1) as int == j as int + 1,
    ;
    assert(val(a.value().add(b.value())) == val(a.value()) + val(b.value()));
    assert(val(a.value().sub(b.value())) == val(a.value()) - val(b.value()));
}

/// A negated endpoint keeps its magnitude.
proof fn lemma_endpoint_neg(a: FloatVal, j: nat)
    requires
        a.is_finite(),
        at_most_pow2(a.value(), j),
    ensures
        a.negated().is_finite(),
        at_most_pow2(a.negated().value(), j),
{
    crate::model::intervals::lemma_negated_value(a);
    lemma_value_wf(a);
    lemma_add_wf(a.value(), a.value());
    crate::rational::lemma_val_add(a.value(), a.value());
    lemma_at_most_pow2(a.value(), j);
    lemma_at_most_pow2(a.value().neg(), j);
}

/// A fraction of the formula is zero, or well inside the range of a float's exponent
/// (above `2^-(2^30 - 2)`), so that its enclosure does not underflow.
pub open spec fn fraction_in_range(q: Rat) -> bool {
    val(q) == 0real || pw(-0x3fff_fffe) <= val(q)
}

/// Each of the seven fractions of term `n` at offset `offset` is in range.
pub open spec fn term_fractions_in_range(n: nat, offset: int) -> bool {
    let e = offset - 5 - 10 * n;
    &&& fraction_in_range(frac_pow2_div(e + 5, 4 * n + 1))
    &&& fraction_in_range(frac_pow2_div(e, 4 * n + 3))
    &&& fraction_in_range(frac_pow2_div(e + 8, 10 * n + 1))
    &&& fraction_in_range(frac_pow2_div(e + 6, 10 * n + 3))
    &&& fraction_in_range(frac_pow2_div(e + 2, 10 * n + 5))
    &&& fraction_in_range(frac_pow2_div(e + 2, 10 * n + 7))
    &&& fraction_in_range(frac_pow2_div(e, 10 * n + 9))
}

/// A fraction with a denominator of at most `2^64` and an exponent of at least
/// `-2^29` is in range.
pub proof fn lemma_fraction_in_range(e: int, d: nat)
    requires
        1 <= d <= 0x1_0000_0000_0000_0000,
        e >= -0x2000_0000,
    ensures
        fraction_in_range(frac_pow2_div(e, d)),
{
    lemma_frac_wf(e, d);
    let q = frac_pow2_div(e, d);
    let big = pow2(0x3fff_fffe) as int;
    lemma_pow2_pos(0x3fff_fffe);
    assert(pw(-0x3fff_fffe) == 1real / big as real);
    if e >= 0 {
        if q.num == 0 {
            assert(val(q) == 0real) by (nonlinear_arith)
                requires
                    q.num == 0,
                    q.den > 0,
                    val(q) == q.num as real / q.den as real,
            ;
        } else {
            vstd::arithmetic::power2::lemma2_to64();
            lemma_pow2_strictly_increases(64, 0x3fff_fffe);
            assert(q.den <= big);
            assert(1real / big as real <= q.num as real / q.den as real) by (nonlinear_arith)
                requires
                    q.num >= 1,
                    1 <= q.den <= big,
            ;
        }
    } else {
        let p = pow2((-e) as nat) as int;
        lemma_pow2_pos((-e) as nat);
        vstd::arithmetic::power2::lemma2_to64();
        lemma_pow2_adds(64, (-e) as nat);
        if (-e) as nat + 64 < 0x3fff_fffe {
            lemma_pow2_strictly_increases((-e) as nat + 64, 0x3fff_fffe);
        }
        assert(d as int * p <= pow2(64) as int * p) by (nonlinear_arith)
            requires
                d <= pow2(64),
                p > 0,
        ;
        assert(q.den <= big);
        assert(1real / big as real <= 1real / q.den as real) by (nonlinear_arith)
            requires
                1 <= q.den <= big,
        ;
        assert(q.num == 1);
        assert(val(q) == 1real / q.den as real);
    }
}

/// The fractions of a term are in range where its exponent `offset - 5 - 10n` is at
/// least `-2^29`.
pub proof fn lemma_term_fractions_in_range(n: nat, offset: int)
    requires
        n < MAX_TERMS,
        offset - 5 - 10 * n >= -0x1fff_fff0,
    ensures
        term_fractions_in_range(n, offset),
{
    let e = offset - 5 - 10 * n;
    lemma_fraction_in_range(e + 5, 4 * n + 1);
    lemma_fraction_in_range(e, 4 * n + 3);
    lemma_fraction_in_range(e + 8, 10 * n + 1);
    lemma_fraction_in_range(e + 6, 10 * n + 3);
    lemma_fraction_in_range(e + 2, 10 * n + 5);
    lemma_fraction_in_range(e + 2, 10 * n + 7);
    lemma_fraction_in_range(e, 10 * n + 9);
}

/// A fraction taken modulo one lies in `[0, 1]`.
proof fn lemma_frac_unit(e: int, d: nat)
    requires
        d >= 1,
    ensures
        frac_pow2_div(e, d).wf(),
        0real <= val(frac_pow2_div(e, d)) <= 1real,
{
    lemma_frac_wf(e, d);
    let q = frac_pow2_div(e, d);
    if e >= 0 {
        assert(0 <= q.num < q.den);
    } else {
        lemma_pow2_pos((-e) as nat);
        assert(q.den >= 1) by (nonlinear_arith)
            requires
                q.den == d as int * pow2((-e) as nat) as int,
                d >= 1,
                pow2((-e) as nat) >= 1,
        ;
        assert(0 <= q.num <= q.den);
    }
    assert(0real <= q.num as real / q.den as real <= 1real) by (nonlinear_arith)
        requires
            0 <= q.num <= q.den,
            q.den > 0,
    ;
}

/// The enclosure of an in-range fraction is within `2^(3 - fp)` of it.
proof fn lemma_fraction_error(lo: FloatVal, hi: FloatVal, q: Rat, fp: u64)
    requires
        fp >= 4,
        0real <= val(q) <= 1real,
        fraction_in_range(q),
        val(q) == 0real ==> val(lo.value()) == 0real && val(hi.value()) == 0real,
        pw(-0x3fff_fffe) <= val(q) ==> val(q) - val(q) * pw(3 - fp) <= val(lo.value()) && val(
            hi.value(),
        ) <= val(q) + val(q) * pw(3 - fp),
    ensures
        val(q) - pw(3 - fp) <= val(lo.value()),
        val(hi.value()) <= val(q) + pw(3 - fp),
{
    lemma_pw_pos(3 - fp);
    if val(q) != 0real {
        assert(val(q) * pw(3 - fp) <= pw(3 - fp)) by (nonlinear_arith)
            requires
                0real <= val(q) <= 1real,
                pw(3 - fp) > 0real,
        ;
    }
}

/// An endpoint of the sums in a term: finite, and of precision from `fp` to `fp + 64`
/// where it is nonzero.
spec fn endpoint_precision(a: FloatVal, fp: u64) -> bool {
    a.is_finite() && (a is Finite ==> fp <= crate::float::significant_bits(a) <= fp + 64)
}

/// One rounded addition or subtraction in a term, of a sum `x` of magnitude at most
/// `2^j`: its result is within `2^(j + 1 - fp)` of `x` and keeps the precisions.
proof fn lemma_rounded_step(a: FloatVal, b: FloatVal, r: FloatVal, x: Rat, fp: u64, j: nat)
    requires
        fp >= 1,
        fp + 64 <= 0x2000_0000,
        endpoint_precision(a, fp),
        endpoint_precision(b, fp),
        r.is_finite(),
        crate::float::max_bits(a, b) <= 0x2000_0000 ==> crate::float::error_at_most(
            r,
            x,
            j + 1 - crate::float::max_bits(a, b),
        ),
        a is Zero && b is Zero ==> r is Zero,
        r is Finite ==> crate::float::significant_bits(r) == crate::float::max_bits(a, b),
        x.wf(),
        a is Zero && b is Zero ==> val(x) == 0real,
    ensures
        val(x) - pw(j + 1 - fp) <= val(r.value()),
        val(r.value()) <= val(x) + pw(j + 1 - fp),
        endpoint_precision(r, fp),
{
    lemma_value_wf(r);
    lemma_pw_pos(j + 1 - fp);
    if a is Zero && b is Zero {
        lemma_val_of_int(0);
    } else {
        let p = crate::float::max_bits(a, b);
        assert(fp <= p <= fp + 64);
        let d = r.value().sub(x);
        lemma_add_wf(r.value(), x.neg());
        crate::rational::lemma_val_add(r.value(), x);
        crate::rational::lemma_val_add(d, d);
        lemma_scale2_wf(Rat::of_int(1), j + 1 - p);
        lemma_val_scale2(Rat::of_int(1), j + 1 - p);
        lemma_val_of_int(1);
        lemma_add_wf(d, d);
        crate::rational::lemma_val_sign(d);
        lemma_val_le(crate::float::magnitude(d), Rat::of_int(1).scale2(j + 1 - p));
        lemma_pw_mono(j + 1 - p, j + 1 - fp);
    }
}

/// The enclosure `b` of a fraction `q` at precision `fp`, as `mod_pow_div` gives it.
spec fn fraction_enclosed(b: (FloatVal, FloatVal), q: Rat, fp: u64) -> bool {
    &&& endpoint_precision(b.0, fp) && endpoint_precision(b.1, fp)
    &&& val(q) == 0real ==> val(b.0.value()) == 0real && val(b.1.value()) == 0real
    &&& pw(-0x3fff_fffe) <= val(q) ==> val(q) - val(q) * pw(3 - fp) <= val(b.0.value()) && val(
        b.1.value(),
    ) <= val(q) + val(q) * pw(3 - fp)
}

/// `r` is `a + b` or `a - b` (exactly `x`, of magnitude at most `2^j`) as `add_round`
/// and `sub_round` give it.
spec fn rounded_step(a: FloatVal, b: FloatVal, r: FloatVal, x: Rat, j: nat) -> bool {
    &&& r.is_finite()
    &&& crate::float::max_bits(a, b) <= 0x2000_0000 ==> crate::float::error_at_most(
        r,
        x,
        j + 1 - crate::float::max_bits(a, b),
    )
    &&& a is Zero && b is Zero ==> r is Zero
    &&& r is Finite ==> crate::float::significant_bits(r) == crate::float::max_bits(a, b)
}

/// One endpoint step of a term, with the bound carried along: `a` is within `ea` of
/// `pa`, `b` within `c` of `f`, and `r` rounds `a + sign * b` at magnitude `2^j`.
proof fn lemma_term_step(
    a: FloatVal,
    b: FloatVal,
    r: FloatVal,
    add: bool,
    j: nat,
    fp: u64,
)
    requires
        fp >= 1,
        fp + 64 <= 0x2000_0000,
        endpoint_precision(a, fp),
        endpoint_precision(b, fp),
        rounded_step(a, b, r, if add { a.value().add(b.value()) } else { a.value().sub(b.value()) }, j),
    ensures
        endpoint_precision(r, fp),
        ({
            let x = if add {
                val(a.value()) + val(b.value())
            } else {
                val(a.value()) - val(b.value())
            };
            x - pw(j + 1 - fp) <= val(r.value()) && val(r.value()) <= x + pw(j + 1 - fp)
        }),
{
    lemma_value_wf(a);
    lemma_value_wf(b);
    lemma_add_wf(a.value(), b.value());
    lemma_add_wf(a.value(), b.value().neg());
    crate::rational::lemma_val_add(a.value(), b.value());
    lemma_val_of_int(0);
    let x = if add { a.value().add(b.value()) } else { a.value().sub(b.value()) };
    lemma_rounded_step(a, b, r, x, fp, j);
}

/// A negated endpoint keeps its precision, and its value is negated.
proof fn lemma_negated_endpoint(a: FloatVal, fp: u64)
    requires
        endpoint_precision(a, fp),
    ensures
        endpoint_precision(a.negated(), fp),
        val(a.negated().value()) == -val(a.value()),
{
    crate::model::intervals::lemma_negated_value(a);
    lemma_value_wf(a);
    crate::rational::lemma_val_add(a.value(), a.value());
}

/// The error of a whole term: seven fractions, each enclosed within `2^(3 - fp)`, and
/// six rounded steps at magnitudes up to `2^9`, stay within `2^(12 - fp)` of the exact
/// combination.
proof fn lemma_term_error(
    fp: u64,
    q: (Rat, Rat, Rat, Rat, Rat, Rat, Rat),
    x: (
        (FloatVal, FloatVal),
        (FloatVal, FloatVal),
        (FloatVal, FloatVal),
        (FloatVal, FloatVal),
        (FloatVal, FloatVal),
        (FloatVal, FloatVal),
        (FloatVal, FloatVal),
    ),
    t: (
        (FloatVal, FloatVal),
        (FloatVal, FloatVal),
        (FloatVal, FloatVal),
        (FloatVal, FloatVal),
        (FloatVal, FloatVal),
        (FloatVal, FloatVal),
        (FloatVal, FloatVal),
    ),
)
    requires
        4 <= fp,
        fp + 64 <= 0x2000_0000,
        q.0.wf() && q.1.wf() && q.2.wf() && q.3.wf() && q.4.wf() && q.5.wf() && q.6.wf(),
        0real <= val(q.0) <= 1real && 0real <= val(q.1) <= 1real && 0real <= val(q.2) <= 1real,
        0real <= val(q.3) <= 1real && 0real <= val(q.4) <= 1real && 0real <= val(q.5) <= 1real,
        0real <= val(q.6) <= 1real,
        fraction_in_range(q.0) && fraction_in_range(q.1) && fraction_in_range(q.2),
        fraction_in_range(q.3) && fraction_in_range(q.4) && fraction_in_range(q.5),
        fraction_in_range(q.6),
        fraction_enclosed(x.0, q.0, fp) && fraction_enclosed(x.1, q.1, fp),
        fraction_enclosed(x.2, q.2, fp) && fraction_enclosed(x.3, q.3, fp),
        fraction_enclosed(x.4, q.4, fp) && fraction_enclosed(x.5, q.5, fp),
        fraction_enclosed(x.6, q.6, fp),
        t.0 == (x.0.1.negated(), x.0.0.negated()),
        rounded_step(t.0.0, x.1.1, t.1.0, t.0.0.value().sub(x.1.1.value()), 4),
        rounded_step(t.0.1, x.1.0, t.1.1, t.0.1.value().sub(x.1.0.value()), 4),
        rounded_step(t.1.0, x.2.0, t.2.0, t.1.0.value().add(x.2.0.value()), 5),
        rounded_step(t.1.1, x.2.1, t.2.1, t.1.1.value().add(x.2.1.value()), 5),
        rounded_step(t.2.0, x.3.1, t.3.0, t.2.0.value().sub(x.3.1.value()), 6),
        rounded_step(t.2.1, x.3.0, t.3.1, t.2.1.value().sub(x.3.0.value()), 6),
        rounded_step(t.3.0, x.4.1, t.4.0, t.3.0.value().sub(x.4.1.value()), 7),
        rounded_step(t.3.1, x.4.0, t.4.1, t.3.1.value().sub(x.4.0.value()), 7),
        rounded_step(t.4.0, x.5.1, t.5.0, t.4.0.value().sub(x.5.1.value()), 8),
        rounded_step(t.4.1, x.5.0, t.5.1, t.4.1.value().sub(x.5.0.value()), 8),
        rounded_step(t.5.0, x.6.0, t.6.0, t.5.0.value().add(x.6.0.value()), 9),
        rounded_step(t.5.1, x.6.1, t.6.1, t.5.1.value().add(x.6.1.value()), 9),
    ensures
        ({
            let p = -val(q.0) - val(q.1) + val(q.2) - val(q.3) - val(q.4) - val(q.5) + val(q.6);
            &&& p - pw(12 - fp) <= val(t.6.0.value())
            &&& val(t.6.1.value()) <= p + pw(12 - fp)
        }),
{
    lemma_fraction_error(x.0.0, x.0.1, q.0, fp);
    lemma_fraction_error(x.1.0, x.1.1, q.1, fp);
    lemma_fraction_error(x.2.0, x.2.1, q.2, fp);
    lemma_fraction_error(x.3.0, x.3.1, q.3, fp);
    lemma_fraction_error(x.4.0, x.4.1, q.4, fp);
    lemma_fraction_error(x.5.0, x.5.1, q.5, fp);
    lemma_fraction_error(x.6.0, x.6.1, q.6, fp);
    lemma_negated_endpoint(x.0.1, fp);
    lemma_negated_endpoint(x.0.0, fp);
    lemma_term_step(t.0.0, x.1.1, t.1.0, false, 4, fp);
    lemma_term_step(t.0.1, x.1.0, t.1.1, false, 4, fp);
    lemma_term_step(t.1.0, x.2.0, t.2.0, true, 5, fp);
    lemma_term_step(t.1.1, x.2.1, t.2.1, true, 5, fp);
    lemma_term_step(t.2.0, x.3.1, t.3.0, false, 6, fp);
    lemma_term_step(t.2.1, x.3.0, t.3.1, false, 6, fp);
    lemma_term_step(t.3.0, x.4.1, t.4.0, false, 7, fp);
    lemma_term_step(t.3.1, x.4.0, t.4.1, false, 7, fp);
    lemma_term_step(t.4.0, x.5.1, t.5.0, false, 8, fp);
    lemma_term_step(t.4.1, x.5.0, t.5.1, false, 8, fp);
    lemma_term_step(t.5.0, x.6.0, t.6.0, true, 9, fp);
    lemma_term_step(t.5.1, x.6.1, t.6.1, true, 9, fp);
    let c = pw(3 - fp);
    vstd::arithmetic::power2::lemma2_to64();
    lemma_pw_add(2, 3 - fp);
    lemma_pw_add(3, 3 - fp);
    lemma_pw_add(4, 3 - fp);
    lemma_pw_add(5, 3 - fp);
    lemma_pw_add(6, 3 - fp);
    lemma_pw_add(7, 3 - fp);
    lemma_pw_add(9, 3 - fp);
    assert(pw(2) == 4real && pw(3) == 8real && pw(4) == 16real && pw(5) == 32real);
    assert(pw(6) == 64real && pw(7) == 128real && pw(9) == 512real);
    lemma_pw_pos(3 - fp);
    assert(pw(5 - fp) + pw(6 - fp) + pw(7 - fp) + pw(8 - fp) + pw(9 - fp) + pw(10 - fp) + 7real
        * c <= pw(12 - fp)) by (nonlinear_arith)
        requires
            pw(5 - fp) == pw(2) * c,
            pw(6 - fp) == pw(3) * c,
            pw(7 - fp) == pw(4) * c,
            pw(8 - fp) == pw(5) * c,
            pw(9 - fp) == pw(6) * c,
            pw(10 - fp) == pw(7) * c,
            pw(12 - fp) == pw(9) * c,
            pw(2) == 4real,
            pw(3) == 8real,
            pw(4) == 16real,
            pw(5) == 32real,
            pw(6) == 64real,
            pw(7) == 128real,
            pw(9) == 512real,
            c > 0real,
    ;
}

/// The endpoints of the signed sum of seven fraction enclosures, as a term combines
/// them before its sign.
pub open spec fn combo_bounds(
    x1: (FloatVal, FloatVal),
    x2: (FloatVal, FloatVal),
    x3: (FloatVal, FloatVal),
    x4: (FloatVal, FloatVal),
    x5: (FloatVal, FloatVal),
    x6: (FloatVal, FloatVal),
    x7: (FloatVal, FloatVal),
) -> (FloatVal, FloatVal) {
    add_bounds(
        sub_bounds(sub_bounds(sub_bounds(add_bounds(sub_bounds(neg_bounds(x1), x2), x3), x4), x5), x6),
        x7,
    )
}

/// An enclosure of a fraction at precision `fp` or more: finite, of precision from `fp`
/// to `fp + 64`, and of magnitude at most 8.
spec fn fraction_endpoints(x: Interval, fp: u64) -> bool {
    &&& endpoint_precision(x.inf@, fp) && endpoint_precision(x.sup@, fp)
    &&& at_most_pow2(x.inf@.value(), 3) && at_most_pow2(x.sup@.value(), 3)
}

/// Where `tight` holds, the fraction `q` is in `[0, 1]`, in range, and enclosed by
/// `x` within `2^(3 - fp)` of it.
spec fn fraction_tight(x: Interval, q: Rat, fp: u64) -> bool {
    &&& 0real <= val(q) <= 1real
    &&& fraction_in_range(q)
    &&& fraction_enclosed(x.bounds(), q, fp)
}

/// The value of the signed sum of seven fractions.
proof fn lemma_combo_value(q1: Rat, q2: Rat, q3: Rat, q4: Rat, q5: Rat, q6: Rat, q7: Rat)
    requires
        q1.wf() && q2.wf() && q3.wf() && q4.wf() && q5.wf() && q6.wf() && q7.wf(),
    ensures
        val(bellard_combo(q1, q2, q3, q4, q5, q6, q7)) == -val(q1) - val(q2) + val(q3) - val(q4)
            - val(q5) - val(q6) + val(q7),
{
    let a1 = q1.neg();
    let a2 = a1.sub(q2);
    let a3 = a2.add(q3);
    let a4 = a3.sub(q4);
    let a5 = a4.sub(q5);
    let a6 = a5.sub(q6);
    crate::rational::lemma_val_add(q1, q1);
    lemma_add_wf(a1, q2.neg());
    crate::rational::lemma_val_add(a1, q2);
    lemma_add_wf(a2, q3);
    crate::rational::lemma_val_add(a2, q3);
    lemma_add_wf(a3, q4.neg());
    crate::rational::lemma_val_add(a3, q4);
    lemma_add_wf(a4, q5.neg());
    crate::rational::lemma_val_add(a4, q5);
    lemma_add_wf(a5, q6.neg());
    crate::rational::lemma_val_add(a5, q6);
    crate::rational::lemma_val_add(a6, q7);
}

/// The signed sum of the seven fraction enclosures of a term, before its sign:
/// `-x1 - x2 + x3 - x4 - x5 - x6 + x7`.
#[verifier::rlimit(100)]
fn combine_fractions(
    x1: Interval,
    x2: &Interval,
    x3: &Interval,
    x4: &Interval,
    x5: &Interval,
    x6: &Interval,
    x7: &Interval,
    Ghost(fp): Ghost<u64>,
    Ghost(tight): Ghost<bool>,
    Ghost(q): Ghost<(Rat, Rat, Rat, Rat, Rat, Rat, Rat)>,
) -> (term: Interval)
    requires
        x1.wf() && x2.wf() && x3.wf() && x4.wf() && x5.wf() && x6.wf() && x7.wf(),
        q.0.wf() && q.1.wf() && q.2.wf() && q.3.wf() && q.4.wf() && q.5.wf() && q.6.wf(),
        x1.contains_rat(q.0) && x2.contains_rat(q.1) && x3.contains_rat(q.2) && x4.contains_rat(
            q.3,
        ) && x5.contains_rat(q.4) && x6.contains_rat(q.5) && x7.contains_rat(q.6),
        fp >= 2 ==> fraction_endpoints(x1, fp) && fraction_endpoints(*x2, fp) && fraction_endpoints(
            *x3,
            fp,
        ) && fraction_endpoints(*x4, fp) && fraction_endpoints(*x5, fp) && fraction_endpoints(
            *x6,
            fp,
        ) && fraction_endpoints(*x7, fp),
        tight ==> 4 <= fp && fp + 64 <= 0x2000_0000,
        tight ==> fraction_tight(x1, q.0, fp) && fraction_tight(*x2, q.1, fp) && fraction_tight(
            *x3,
            q.2,
            fp,
        ) && fraction_tight(*x4, q.3, fp) && fraction_tight(*x5, q.4, fp) && fraction_tight(
            *x6,
            q.5,
            fp,
        ) && fraction_tight(*x7, q.6, fp),
    ensures
        term.wf(),
        term.bounds() == combo_bounds(
            x1.bounds(),
            x2.bounds(),
            x3.bounds(),
            x4.bounds(),
            x5.bounds(),
            x6.bounds(),
            x7.bounds(),
        ),
        term.contains_rat(bellard_combo(q.0, q.1, q.2, q.3, q.4, q.5, q.6)),
        fp >= 2 ==> term.inf@.is_finite() && term.sup@.is_finite() && at_most_pow2(
            term.inf@.value(),
            9,
        ) && at_most_pow2(term.sup@.value(), 9),
        tight ==> ({
            let c = val(bellard_combo(q.0, q.1, q.2, q.3, q.4, q.5, q.6));
            &&& c - pw(12 - fp) <= val(term.inf@.value())
            &&& val(term.sup@.value()) <= c + pw(12 - fp)
        }),
{
    let ghost (q1, q2, q3, q4, q5, q6, q7) = q;
    let t1 = x1.neg();
    proof {
        if fp >= 2 {
            lemma_endpoint_neg(x1.sup@, 3);
            lemma_endpoint_neg(x1.inf@, 3);
        }
    }
    assert(t1.contains_rat(q1.neg()));
    let t2 = t1.sub(&x2);
    proof {
        if fp >= 2 {
            lemma_endpoint_sum(t1.inf@, x2.sup@, 3);
            lemma_endpoint_sum(t1.sup@, x2.inf@, 3);
        }
        if tight {
            assert(rounded_step(t1.inf@, x2.sup@, t2.inf@, t1.inf@.value().sub(x2.sup@.value()), 4));
            assert(rounded_step(t1.sup@, x2.inf@, t2.sup@, t1.sup@.value().sub(x2.inf@.value()), 4));
        }
    }
    assert(t2.contains_rat(q1.neg().sub(q2)));
    proof {
        lemma_add_wf(q1.neg(), q2);
    }
    let t3 = t2.add(&x3);
    proof {
        if fp >= 2 {
            lemma_endpoint_sum(t2.inf@, x3.inf@, 4);
            lemma_endpoint_sum(t2.sup@, x3.sup@, 4);
        }
        if tight {
            assert(rounded_step(t2.inf@, x3.inf@, t3.inf@, t2.inf@.value().add(x3.inf@.value()), 5));
            assert(rounded_step(t2.sup@, x3.sup@, t3.sup@, t2.sup@.value().add(x3.sup@.value()), 5));
        }
    }
    assert(t3.contains_rat(q1.neg().sub(q2).add(q3)));
    proof {
        lemma_add_wf(q1.neg().sub(q2), q3);
    }
    let t4 = t3.sub(&x4);
    proof {
        if fp >= 2 {
            lemma_endpoint_sum(t3.inf@, x4.sup@, 5);
            lemma_endpoint_sum(t3.sup@, x4.inf@, 5);
        }
        if tight {
            assert(rounded_step(t3.inf@, x4.sup@, t4.inf@, t3.inf@.value().sub(x4.sup@.value()), 6));
            assert(rounded_step(t3.sup@, x4.inf@, t4.sup@, t3.sup@.value().sub(x4.inf@.value()), 6));
        }
    }
    assert(t4.contains_rat(q1.neg().sub(q2).add(q3).sub(q4)));
    proof {
        lemma_add_wf(q1.neg().sub(q2).add(q3), q4);
    }
    let t5 = t4.sub(&x5);
    proof {
        if fp >= 2 {
            lemma_endpoint_sum(t4.inf@, x5.sup@, 6);
            lemma_endpoint_sum(t4.sup@, x5.inf@, 6);
        }
        if tight {
            assert(rounded_step(t4.inf@, x5.sup@, t5.inf@, t4.inf@.value().sub(x5.sup@.value()), 7));
            assert(rounded_step(t4.sup@, x5.inf@, t5.sup@, t4.sup@.value().sub(x5.inf@.value()), 7));
        }
    }
    assert(t5.contains_rat(q1.neg().sub(q2).add(q3).sub(q4).sub(q5)));
    proof {
        lemma_add_wf(q1.neg().sub(q2).add(q3).sub(q4), q5);
    }
    let t6 = t5.sub(&x6);
    proof {
        if fp >= 2 {
            lemma_endpoint_sum(t5.inf@, x6.sup@, 7);
            lemma_endpoint_sum(t5.sup@, x6.inf@, 7);
        }
        if tight {
            assert(rounded_step(t5.inf@, x6.sup@, t6.inf@, t5.inf@.value().sub(x6.sup@.value()), 8));
            assert(rounded_step(t5.sup@, x6.inf@, t6.sup@, t5.sup@.value().sub(x6.inf@.value()), 8));
        }
    }
    assert(t6.contains_rat(q1.neg().sub(q2).add(q3).sub(q4).sub(q5).sub(q6)));
    proof {
        lemma_add_wf(q1.neg().sub(q2).add(q3).sub(q4).sub(q5), q6);
    }
    let term = t6.add(&x7);
    proof {
        if fp >= 2 {
            lemma_endpoint_sum(t6.inf@, x7.inf@, 8);
            lemma_endpoint_sum(t6.sup@, x7.sup@, 8);
        }
        if tight {
            assert(rounded_step(t6.inf@, x7.inf@, term.inf@, t6.inf@.value().add(x7.inf@.value()), 9));
            assert(rounded_step(t6.sup@, x7.sup@, term.sup@, t6.sup@.value().add(x7.sup@.value()), 9));
        }
    }
    let ghost s = q1.neg().sub(q2).add(q3).sub(q4).sub(q5).sub(q6).add(q7);
    assert(term.contains_rat(s));
    proof {
        if tight {
            lemma_term_error(
                fp,
                (q1, q2, q3, q4, q5, q6, q7),
                (x1.bounds(), x2.bounds(), x3.bounds(), x4.bounds(), x5.bounds(), x6.bounds(), x7.bounds()),
                (t1.bounds(), t2.bounds(), t3.bounds(), t4.bounds(), t5.bounds(), t6.bounds(), term.bounds()),
            );
            lemma_combo_value(q1, q2, q3, q4, q5, q6, q7);
        }
    }
    term
}

/// One term of [Bellard's formula](https://en.wikipedia.org/wiki/Bellard's_formula)
/// for tau, enclosed in an interval. From a precision of two bits on its ends are
/// finite and of magnitude at most `2^9`; from four bits on (up to `2^29 - 64`), where
/// its fractions are in range, they are within `2^(12 - precision)` of the term.
#[verifier::rlimit(100)]
#[verifier::spinoff_prover]
pub fn bellard_term(n: u64, offset: &BigInt, precision: u64) -> (r: Interval)
    requires
        n < MAX_TERMS,
        offset@ >= -8,
        precision >= 1,
    ensures
        r.wf(),
        r.bounds() == bellard_term_bounds(n as nat, offset@, precision),
        r.contains_rat(bellard_term_exact(n as nat, offset@)),
        precision >= 2 ==> r.inf@.is_finite() && r.sup@.is_finite(),
        precision >= 2 ==> at_most_pow2(r.inf@.value(), 9) && at_most_pow2(r.sup@.value(), 9),
        4 <= precision && precision + 64 <= 0x2000_0000 && term_fractions_in_range(
            n as nat,
            offset@,
        ) ==> ({
            let t = val(bellard_term_exact(n as nat, offset@));
            &&& t - pw(12 - precision) <= val(r.inf@.value())
            &&& val(r.sup@.value()) <= t + pw(12 - precision)
        }),
{
    let ghost nn = n as nat;
    let four_n: u64 = 4 * n;
    let ten_n: u64 = 10 * n;
    // Bellard's formula uses -6, but this uses -5 because we are calculating tau, not pi.
    let exp = offset.add_i64(-5 - ten_n as i64);
    let ghost e = exp@;
    assert(e == offset@ - 5 - 10 * nn);
    proof {
        lemma_frac_wf(e + 5, 4 * nn + 1);
        lemma_frac_wf(e, 4 * nn + 3);
        lemma_frac_wf(e + 8, 10 * nn + 1);
        lemma_frac_wf(e + 6, 10 * nn + 3);
        lemma_frac_wf(e + 2, 10 * nn + 5);
        lemma_frac_wf(e + 2, 10 * nn + 7);
        lemma_frac_wf(e, 10 * nn + 9);
    }
    let x1 = mod_pow_div(&exp.add_i64(5), four_n + 1, precision);
    let x2 = mod_pow_div(&exp, four_n + 3, precision);
    let x3 = mod_pow_div(&exp.add_i64(8), ten_n + 1, precision);
    let x4 = mod_pow_div(&exp.add_i64(6), ten_n + 3, precision);
    let x5 = mod_pow_div(&exp.add_i64(2), ten_n + 5, precision);
    let x6 = mod_pow_div(&exp.add_i64(2), ten_n + 7, precision);
    let x7 = mod_pow_div(&exp, ten_n + 9, precision);
    let ghost q1 = frac_pow2_div(e + 5, 4 * nn + 1);
    let ghost q2 = frac_pow2_div(e, 4 * nn + 3);
    let ghost q3 = frac_pow2_div(e + 8, 10 * nn + 1);
    let ghost q4 = frac_pow2_div(e + 6, 10 * nn + 3);
    let ghost q5 = frac_pow2_div(e + 2, 10 * nn + 5);
    let ghost q6 = frac_pow2_div(e + 2, 10 * nn + 7);
    let ghost q7 = frac_pow2_div(e, 10 * nn + 9);
    proof {
        assert(mod_pow_div_bounds(e + 5, (4 * nn + 1) as u64, precision) == x1.bounds());
        if 4 <= precision && precision + 64 <= 0x2000_0000 && term_fractions_in_range(nn, offset@) {
            lemma_frac_unit(e + 5, 4 * nn + 1);
            lemma_frac_unit(e, 4 * nn + 3);
            lemma_frac_unit(e + 8, 10 * nn + 1);
            lemma_frac_unit(e + 6, 10 * nn + 3);
            lemma_frac_unit(e + 2, 10 * nn + 5);
            lemma_frac_unit(e + 2, 10 * nn + 7);
            lemma_frac_unit(e, 10 * nn + 9);
        }
    }
    let ghost tight = 4 <= precision && precision + 64 <= 0x2000_0000 && term_fractions_in_range(
        nn,
        offset@,
    );
    let term = combine_fractions(
        x1,
        &x2,
        &x3,
        &x4,
        &x5,
        &x6,
        &x7,
        Ghost(precision),
        Ghost(tight),
        Ghost((q1, q2, q3, q4, q5, q6, q7)),
    );
    let ghost s = q1.neg().sub(q2).add(q3).sub(q4).sub(q5).sub(q6).add(q7);
    if n % 2 == 1 {
        let r = term.neg();
        proof {
            if precision >= 2 {
                lemma_endpoint_neg(term.sup@, 9);
                lemma_endpoint_neg(term.inf@, 9);
            }
            if tight {
                crate::model::intervals::lemma_negated_value(term.sup@);
                crate::model::intervals::lemma_negated_value(term.inf@);
                lemma_value_wf(term.sup@);
                lemma_value_wf(term.inf@);
                crate::rational::lemma_val_add(term.sup@.value(), term.sup@.value());
                crate::rational::lemma_val_add(term.inf@.value(), term.inf@.value());
                crate::model::series::lemma_combo_wf(q1, q2, q3, q4, q5, q6, q7);
                crate::rational::lemma_val_add(s, s);
            }
        }
        assert(r.contains_rat(s.neg()));
        r
    } else {
        term
    }
}

/// Term `n` at `offset` still has a fraction that wraps around modulo one, which
/// makes a convergence check meaningless: the term is far too large for a byte to
/// have settled.
pub open spec fn term_wraps(n: nat, offset: int) -> bool {
    offset - 5 - 10 * n + 8 >= bit_length(10 * n + 1) - 1
}

/// Whether the convergence check is skipped after term `n`.
pub fn skips_convergence_check(n: u64, offset: &BigInt) -> (r: bool)
    requires
        n < MAX_TERMS,
    ensures
        r == term_wraps(n as nat, offset@),
        has_significant_bits(10 * n as nat + 1, bit_length(10 * n as nat + 1)),
{
    let bits = significant_bits(10 * n + 1);
    offset.add_i64(3 - (10 * n) as i64).ge_i64(bits as i64 - 1)
}

/// The bytes of a result, whether it is `Ok` or `Err`.
pub open spec fn result_bytes(r: Result<Vec<u8>, Vec<u8>>) -> Seq<u8> {
    match r {
        Ok(b) => b@,
        Err(b) => b@,
    }
}

/// What a calculation of bytes from index `start` returns, given the bytes it found
/// and the batch sizes: `Ok` where there are at least `min_batch_size` bytes or the
/// maximum was reached, `Err` otherwise; never more than the maximum; and every byte
/// certain.
pub open spec fn batch_result_ok(
    start: nat,
    min_batch_size: usize,
    max_batch_size: Option<usize>,
    r: Result<Vec<u8>, Vec<u8>>,
    certain: bool,
) -> bool {
    let b = result_bytes(r);
    &&& r is Ok ==> b.len() >= min_batch_size || max_batch_size == Some(b.len() as usize)
    &&& r is Err ==> b.len() < min_batch_size && max_batch_size != Some(b.len() as usize)
    &&& max_batch_size matches Some(m) ==> b.len() <= m
    &&& certain ==> forall|j: int|
        0 <= j < b.len() ==> #[trigger] byte_certified(8 * start - 8, j as nat, b[j])
}

/// The bit offset of the first byte, shifted down by one byte: `8 * start - 8`.
pub fn first_offset(start: &BigNat) -> (r: BigInt)
    ensures
        r@ == 8 * start@ - 8,
{
    BigInt::from_nat(start).mul_i64(8).add_i64(-8)
}

/// The state a calculation of bytes from index `start` starts in, after
/// `first_terms` terms summed into an accumulator with endpoints `acc`.
pub open spec fn start_state(start: nat, first_terms: nat, acc: (FloatVal, FloatVal)) -> RangeState {
    RangeState {
        offset: 8 * start - 8,
        n: first_terms,
        acc,
        bytes: Seq::empty(),
        stopped: false,
    }
}

/// Calculates bytes of tau from index `start` on (byte 0 is its integer part, 6),
/// carrying on from `first_terms` terms whose sum, shifted left by a byte, is
/// enclosed by `acc`.
pub fn calculate_byte_range_from(
    start: &BigNat,
    precision: u64,
    min_batch_size: usize,
    max_batch_size: Option<usize>,
    first_terms: u64,
    acc: Interval,
) -> (r: Result<Vec<u8>, Vec<u8>>)
    requires
        max_batch_size matches Some(m) ==> m > 0,
        first_terms <= MAX_TERMS,
        acc.wf(),
    ensures
        precision < 2 ==> r is Err && result_bytes(r).len() == 0,
        precision >= 2 ==> batch_result_ok(
            start@,
            min_batch_size,
            max_batch_size,
            r,
            acc.contains_rat(partial_sum(first_terms as nat, 8 * start@ - 8).scale2(8)),
        ),
        precision >= 2 ==> ({
            let s = final_state(
                start_state(start@, first_terms as nat, acc.bounds()),
                precision,
                max_batch_size,
            );
            &&& (r is Ok) == range_result(s, min_batch_size, max_batch_size).0
            &&& result_bytes(r) == s.bytes
        }),
{
    // return early if precision isn't large enough to avoid a few edge cases.
    if precision < 2 {
        return Err(Vec::new());
    }
    let ghost init = start_state(start@, first_terms as nat, acc.bounds());
    let mut state = ByteRange::resume(start, precision, max_batch_size, first_terms, acc);
    let ghost sound = state.is_sound();
    loop
        invariant_except_break
            !state.is_stopped(),
        invariant
            state.inv(),
            state.precision_bits() == precision,
            final_state(state.state(), precision, max_batch_size) == final_state(
                init,
                precision,
                max_batch_size,
            ),
            state.start_offset() == 8 * start@ - 8,
            state.is_sound() == sound,
            state.max_batch() == max_batch_size,
            state.terms() <= MAX_TERMS,
        ensures
            state.inv(),
            state.is_stopped(),
        decreases MAX_TERMS - state.terms(),
    {
        proof {
            state.lemma_state();
        }
        if !state.step() {
            break;
        }
    }
    proof {
        state.lemma_found_certified();
        state.lemma_state();
    }
    state.into_result(min_batch_size)
}

/// Calculates bytes of tau from index `start` on (byte 0 is its integer part, 6), one
/// term of Bellard's formula after another, until no further byte can become certain
/// at this precision or `max_batch_size` bytes are found.
pub fn calculate_byte_range_non_parallel(
    start: &BigNat,
    precision: u64,
    min_batch_size: usize,
    max_batch_size: Option<usize>,
) -> (r: Result<Vec<u8>, Vec<u8>>)
    requires
        max_batch_size matches Some(m) ==> m > 0,
    ensures
        precision < 2 ==> r is Err && result_bytes(r).len() == 0,
        precision >= 2 ==> batch_result_ok(start@, min_batch_size, max_batch_size, r, true),
        precision >= 2 ==> ({
            let s = final_state(
                start_state(
                    start@,
                    0,
                    (FloatVal::Zero { neg: false }, FloatVal::Zero { neg: false }),
                ),
                precision,
                max_batch_size,
            );
            &&& (r is Ok) == range_result(s, min_batch_size, max_batch_size).0
            &&& result_bytes(r) == s.bytes
        }),
{
    let acc = Interval::zero();
    proof {
        let z = partial_sum(0, 8 * start@ - 8).scale2(8);
        assert(partial_sum(0, 8 * start@ - 8) == Rat::of_int(0));
        assert(z.num == 0 * pow2(8));
        assert(acc.contains_rat(z));
    }
    calculate_byte_range_from(start, precision, min_batch_size, max_batch_size, 0, acc)
}

/// Two calculations from the same start whose bytes are certain agree on every byte
/// that both return: the sequential calculation, and one carried on from an
/// accumulator that encloses the partial sum of the terms before it, give no byte
/// that the other gives differently, whatever their precisions and batch sizes.
pub proof fn lemma_batches_agree(
    start: nat,
    min1: usize,
    max1: Option<usize>,
    r1: Result<Vec<u8>, Vec<u8>>,
    min2: usize,
    max2: Option<usize>,
    r2: Result<Vec<u8>, Vec<u8>>,
)
    requires
        batch_result_ok(start, min1, max1, r1, true),
        batch_result_ok(start, min2, max2, r2, true),
    ensures
        forall|j: int|
            0 <= j < result_bytes(r1).len() && j < result_bytes(r2).len() ==> #[trigger] result_bytes(
                r1,
            )[j] == result_bytes(r2)[j],
{
    assert forall|j: int|
        0 <= j < result_bytes(r1).len() && j < result_bytes(r2).len() implies #[trigger] result_bytes(
            r1,
        )[j] == result_bytes(r2)[j] by {
        let b1 = result_bytes(r1);
        let b2 = result_bytes(r2);
        assert(byte_certified(8 * start - 8, j as nat, b1[j]));
        assert(byte_certified(8 * start - 8, j as nat, b2[j]));
        lemma_certified_bytes_agree(8 * start - 8, j as nat, b1[j], b2[j]);
    }
}

/// Where a maximum batch size `m` is given, the calculation from byte `start` returns
/// the first `m` bytes of those that it returns without a maximum, or all of them where
/// there are fewer: a maximum only ever cuts the run short.
pub proof fn lemma_batch_maximum_truncates(start: nat, precision: u64, m: usize)
    requires
        m > 0,
    ensures
        ({
            let zero = (FloatVal::Zero { neg: false }, FloatVal::Zero { neg: false });
            let bounded = final_state(start_state(start, 0, zero), precision, Some(m)).bytes;
            let unbounded = final_state(start_state(start, 0, zero), precision, None).bytes;
            bounded == unbounded.take(if m <= unbounded.len() { m as int } else { unbounded.len() as int })
        }),
{
    let zero = (FloatVal::Zero { neg: false }, FloatVal::Zero { neg: false });
    let s = start_state(start, 0, zero);
    crate::model::batch::lemma_unbounded_run_extends(s, precision, m);
    let bounded = final_state(s, precision, Some(m)).bytes;
    let unbounded = final_state(s, precision, None).bytes;
    if bounded.len() == m {
        assert(bounded =~= unbounded.take(m as int));
    } else {
        assert(bounded =~= unbounded.take(unbounded.len() as int));
    }
}

/// About how many terms a batch takes: ten bits come from each term, and eight make
/// a byte.
pub fn expected_terms(start: &BigNat, min_batch_size: usize) -> (r: BigNat)
    ensures
        r@ == (start@ + min_batch_size) * 8 / 10,
{
    start.add(&BigNat::from_u64(min_batch_size as u64)).mul_u64(8).div_u64(10)
}

} // verus!
