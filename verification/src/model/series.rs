//! Exact facts about the terms of Bellard's series for tau: how a term changes when
//! its offset grows by eight bits, and the partial sums that bytes are read from.

use crate::model::{bellard_term_exact, frac_pow2_div, has_significant_bits, term_wraps};
use crate::rational::{
    differ_by, lemma_add_eqv, lemma_add_wf, lemma_differ_by_add,
    lemma_differ_by_neg, lemma_differ_by_scale2, lemma_differ_by_sub, lemma_differ_by_trans,
    lemma_eqv_le, lemma_eqv_trans, lemma_neg_eqv, lemma_scale2_add, lemma_scale2_scale2,
    lemma_scale2_neg, lemma_scale2_sub, lemma_scale2_wf, lemma_sub_eqv, Rat,
};
use vstd::arithmetic::div_mod::{lemma_fundamental_div_mod, lemma_small_mod};
use vstd::arithmetic::power2::{lemma_pow2_adds, lemma_pow2_pos, lemma_pow2_strictly_increases, pow2};
use vstd::prelude::*;

verus! {

/// The signed sum of the seven fractions of one term of Bellard's formula.
pub open spec fn bellard_combo(q1: Rat, q2: Rat, q3: Rat, q4: Rat, q5: Rat, q6: Rat, q7: Rat) -> Rat {
    q1.neg().sub(q2).add(q3).sub(q4).sub(q5).sub(q6).add(q7)
}

pub proof fn lemma_combo_wf(q1: Rat, q2: Rat, q3: Rat, q4: Rat, q5: Rat, q6: Rat, q7: Rat)
    requires
        q1.wf(),
        q2.wf(),
        q3.wf(),
        q4.wf(),
        q5.wf(),
        q6.wf(),
        q7.wf(),
    ensures
        bellard_combo(q1, q2, q3, q4, q5, q6, q7).wf(),
        q1.neg().wf(),
        q1.neg().sub(q2).wf(),
        q1.neg().sub(q2).add(q3).wf(),
        q1.neg().sub(q2).add(q3).sub(q4).wf(),
        q1.neg().sub(q2).add(q3).sub(q4).sub(q5).wf(),
        q1.neg().sub(q2).add(q3).sub(q4).sub(q5).sub(q6).wf(),
{
    lemma_add_wf(q1.neg(), q2);
    lemma_add_wf(q1.neg().sub(q2), q3);
    lemma_add_wf(q1.neg().sub(q2).add(q3), q4);
    lemma_add_wf(q1.neg().sub(q2).add(q3).sub(q4), q5);
    lemma_add_wf(q1.neg().sub(q2).add(q3).sub(q4).sub(q5), q6);
    lemma_add_wf(q1.neg().sub(q2).add(q3).sub(q4).sub(q5).sub(q6), q7);
}

/// Where each fraction moves by an integer, the signed sum moves by the signed sum
/// of those integers.
pub proof fn lemma_combo_differ(
    f1: Rat,
    f2: Rat,
    f3: Rat,
    f4: Rat,
    f5: Rat,
    f6: Rat,
    f7: Rat,
    g1: Rat,
    g2: Rat,
    g3: Rat,
    g4: Rat,
    g5: Rat,
    g6: Rat,
    g7: Rat,
    w1: int,
    w2: int,
    w3: int,
    w4: int,
    w5: int,
    w6: int,
    w7: int,
)
    requires
        f1.wf(),
        f2.wf(),
        f3.wf(),
        f4.wf(),
        f5.wf(),
        f6.wf(),
        f7.wf(),
        g1.wf(),
        g2.wf(),
        g3.wf(),
        g4.wf(),
        g5.wf(),
        g6.wf(),
        g7.wf(),
        differ_by(g1, f1, w1),
        differ_by(g2, f2, w2),
        differ_by(g3, f3, w3),
        differ_by(g4, f4, w4),
        differ_by(g5, f5, w5),
        differ_by(g6, f6, w6),
        differ_by(g7, f7, w7),
    ensures
        differ_by(
            bellard_combo(g1, g2, g3, g4, g5, g6, g7),
            bellard_combo(f1, f2, f3, f4, f5, f6, f7),
            -w1 - w2 + w3 - w4 - w5 - w6 + w7,
        ),
{
    lemma_combo_wf(f1, f2, f3, f4, f5, f6, f7);
    lemma_combo_wf(g1, g2, g3, g4, g5, g6, g7);
    lemma_differ_by_neg(g1, f1, w1);
    lemma_differ_by_sub(g1.neg(), f1.neg(), -w1, g2, f2, w2);
    lemma_differ_by_add(g1.neg().sub(g2), f1.neg().sub(f2), -w1 - w2, g3, f3, w3);
    lemma_differ_by_sub(
        g1.neg().sub(g2).add(g3),
        f1.neg().sub(f2).add(f3),
        -w1 - w2 + w3,
        g4,
        f4,
        w4,
    );
    lemma_differ_by_sub(
        g1.neg().sub(g2).add(g3).sub(g4),
        f1.neg().sub(f2).add(f3).sub(f4),
        -w1 - w2 + w3 - w4,
        g5,
        f5,
        w5,
    );
    lemma_differ_by_sub(
        g1.neg().sub(g2).add(g3).sub(g4).sub(g5),
        f1.neg().sub(f2).add(f3).sub(f4).sub(f5),
        -w1 - w2 + w3 - w4 - w5,
        g6,
        f6,
        w6,
    );
    lemma_differ_by_add(
        g1.neg().sub(g2).add(g3).sub(g4).sub(g5).sub(g6),
        f1.neg().sub(f2).add(f3).sub(f4).sub(f5).sub(f6),
        -w1 - w2 + w3 - w4 - w5 - w6,
        g7,
        f7,
        w7,
    );
}

proof fn lemma_scale2_step_add(t: Rat, f: Rat, u: Rat, k: int)
    requires
        t.wf(),
        f.wf(),
        u.wf(),
        t.scale2(k).eqv(u),
    ensures
        t.add(f).scale2(k).eqv(u.add(f.scale2(k))),
{
    lemma_scale2_add(t, f, k);
    lemma_scale2_wf(t, k);
    lemma_scale2_wf(f, k);
    lemma_eqv_le(f.scale2(k), f.scale2(k));
    lemma_add_eqv(t.scale2(k), f.scale2(k), u, f.scale2(k));
    lemma_add_wf(t, f);
    lemma_scale2_wf(t.add(f), k);
    lemma_add_wf(t.scale2(k), f.scale2(k));
    lemma_add_wf(u, f.scale2(k));
    lemma_eqv_trans(t.add(f).scale2(k), t.scale2(k).add(f.scale2(k)), u.add(f.scale2(k)));
}

proof fn lemma_scale2_step_sub(t: Rat, f: Rat, u: Rat, k: int)
    requires
        t.wf(),
        f.wf(),
        u.wf(),
        t.scale2(k).eqv(u),
    ensures
        t.sub(f).scale2(k).eqv(u.sub(f.scale2(k))),
{
    lemma_scale2_sub(t, f, k);
    lemma_scale2_wf(t, k);
    lemma_scale2_wf(f, k);
    lemma_eqv_le(f.scale2(k), f.scale2(k));
    lemma_sub_eqv(t.scale2(k), f.scale2(k), u, f.scale2(k));
    lemma_add_wf(t, f);
    lemma_scale2_wf(t.sub(f), k);
    lemma_add_wf(t.scale2(k), f.scale2(k));
    lemma_add_wf(u, f.scale2(k));
    lemma_eqv_trans(t.sub(f).scale2(k), t.scale2(k).sub(f.scale2(k)), u.sub(f.scale2(k)));
}

/// Multiplying every fraction by a power of two multiplies the signed sum by it.
pub proof fn lemma_combo_scale2(f1: Rat, f2: Rat, f3: Rat, f4: Rat, f5: Rat, f6: Rat, f7: Rat, k: int)
    requires
        f1.wf(),
        f2.wf(),
        f3.wf(),
        f4.wf(),
        f5.wf(),
        f6.wf(),
        f7.wf(),
    ensures
        bellard_combo(f1, f2, f3, f4, f5, f6, f7).scale2(k).eqv(
            bellard_combo(
                f1.scale2(k),
                f2.scale2(k),
                f3.scale2(k),
                f4.scale2(k),
                f5.scale2(k),
                f6.scale2(k),
                f7.scale2(k),
            ),
        ),
{
    let (g1, g2, g3, g4, g5, g6, g7) = (
        f1.scale2(k),
        f2.scale2(k),
        f3.scale2(k),
        f4.scale2(k),
        f5.scale2(k),
        f6.scale2(k),
        f7.scale2(k),
    );
    lemma_scale2_wf(f1, k);
    lemma_scale2_wf(f2, k);
    lemma_scale2_wf(f3, k);
    lemma_scale2_wf(f4, k);
    lemma_scale2_wf(f5, k);
    lemma_scale2_wf(f6, k);
    lemma_scale2_wf(f7, k);
    lemma_combo_wf(f1, f2, f3, f4, f5, f6, f7);
    lemma_combo_wf(g1, g2, g3, g4, g5, g6, g7);
    lemma_scale2_neg(f1, k);
    lemma_scale2_step_sub(f1.neg(), f2, g1.neg(), k);
    lemma_scale2_step_add(f1.neg().sub(f2), f3, g1.neg().sub(g2), k);
    lemma_scale2_step_sub(f1.neg().sub(f2).add(f3), f4, g1.neg().sub(g2).add(g3), k);
    lemma_scale2_step_sub(
        f1.neg().sub(f2).add(f3).sub(f4),
        f5,
        g1.neg().sub(g2).add(g3).sub(g4),
        k,
    );
    lemma_scale2_step_sub(
        f1.neg().sub(f2).add(f3).sub(f4).sub(f5),
        f6,
        g1.neg().sub(g2).add(g3).sub(g4).sub(g5),
        k,
    );
    lemma_scale2_step_add(
        f1.neg().sub(f2).add(f3).sub(f4).sub(f5).sub(f6),
        f7,
        g1.neg().sub(g2).add(g3).sub(g4).sub(g5).sub(g6),
        k,
    );
}

/// The fractional part of `2^(x+8) / d` is that of `2^x / d` times 256, up to an
/// integer.
pub proof fn lemma_frac_shift(x: int, d: nat) -> (w: int)
    requires
        d >= 1,
    ensures
        differ_by(frac_pow2_div(x + 8, d), frac_pow2_div(x, d).scale2(8), w),
{
    vstd::arithmetic::power2::lemma2_to64();
    let di = d as int;
    if x >= 0 {
        let px = pow2(x as nat) as int;
        lemma_pow2_adds(x as nat, 8);
        let p8 = pow2((x + 8) as nat) as int;
        assert(p8 == px * 256);
        lemma_fundamental_div_mod(p8, di);
        lemma_fundamental_div_mod(px, di);
        let (q1, r1) = (p8 / di, p8 % di);
        let (q2, r2) = (px / di, px % di);
        let w = 256 * q2 - q1;
        assert(r1 == r2 * 256 + w * di) by (nonlinear_arith)
            requires
                p8 == di * q1 + r1,
                px == di * q2 + r2,
                p8 == px * 256,
                w == 256 * q2 - q1,
        ;
        assert(r1 * di == (r2 * 256 + w * di) * di);
        w
    } else if x + 8 >= 0 {
        let m = (-x) as nat;
        let p = pow2(m) as int;
        let p8 = pow2((x + 8) as nat) as int;
        lemma_pow2_adds((x + 8) as nat, m);
        assert(p8 * p == 256);
        lemma_fundamental_div_mod(p8, di);
        let (q1, r1) = (p8 / di, p8 % di);
        let w = -q1;
        assert(r1 * (di * p) == (256 + w * (di * p)) * di) by (nonlinear_arith)
            requires
                p8 == di * q1 + r1,
                p8 * p == 256,
                w == -q1,
        ;
        w
    } else {
        let m = (-x - 8) as nat;
        lemma_pow2_adds(m, 8);
        assert(pow2((-x) as nat) == pow2(m) * 256);
        let a = frac_pow2_div(x + 8, d);
        let b = frac_pow2_div(x, d).scale2(8);
        assert(a.num * b.den == (b.num + 0 * b.den) * a.den) by (nonlinear_arith)
            requires
                a == (Rat { num: 1, den: di * pow2(m) }),
                b == (Rat { num: 256, den: di * (pow2(m) * 256) }),
        ;
        0
    }
}

pub proof fn lemma_frac_wf(e: int, d: nat)
    requires
        d >= 1,
    ensures
        frac_pow2_div(e, d).wf(),
{
    if e < 0 {
        lemma_pow2_pos((-e) as nat);
        vstd::arithmetic::mul::lemma_mul_strictly_positive(d as int, pow2((-e) as nat) as int);
    }
}

pub proof fn lemma_differ_by_eqv_right(a: Rat, b: Rat, c: Rat, w: int)
    requires
        a.wf(),
        b.wf(),
        c.wf(),
        differ_by(a, b, w),
        b.eqv(c),
    ensures
        differ_by(a, c, w),
{
    crate::rational::lemma_differ_by_eqv(b, c);
    lemma_differ_by_trans(a, b, w, c, 0);
}

pub proof fn lemma_term_wf(n: nat, off: int)
    ensures
        bellard_term_exact(n, off).wf(),
{
    let e = off - 5 - 10 * n;
    lemma_frac_wf(e + 5, 4 * n + 1);
    lemma_frac_wf(e, 4 * n + 3);
    lemma_frac_wf(e + 8, 10 * n + 1);
    lemma_frac_wf(e + 6, 10 * n + 3);
    lemma_frac_wf(e + 2, 10 * n + 5);
    lemma_frac_wf(e + 2, 10 * n + 7);
    lemma_frac_wf(e, 10 * n + 9);
    lemma_combo_wf(
        frac_pow2_div(e + 5, 4 * n + 1),
        frac_pow2_div(e, 4 * n + 3),
        frac_pow2_div(e + 8, 10 * n + 1),
        frac_pow2_div(e + 6, 10 * n + 3),
        frac_pow2_div(e + 2, 10 * n + 5),
        frac_pow2_div(e + 2, 10 * n + 7),
        frac_pow2_div(e, 10 * n + 9),
    );
}

/// Raising the offset of a term by eight bits multiplies it by 256, up to an
/// integer.
pub proof fn lemma_term_shift(n: nat, off: int) -> (w: int)
    ensures
        differ_by(bellard_term_exact(n, off + 8), bellard_term_exact(n, off).scale2(8), w),
{
    let e = off - 5 - 10 * n;
    let (d1, d2, d3, d4, d5, d6, d7) = (
        4 * n + 1,
        4 * n + 3,
        10 * n + 1,
        10 * n + 3,
        10 * n + 5,
        10 * n + 7,
        10 * n + 9,
    );
    let (x1, x2, x3, x4, x5, x6, x7) = (e + 5, e, e + 8, e + 6, e + 2, e + 2, e);
    let f1 = frac_pow2_div(x1, d1);
    let f2 = frac_pow2_div(x2, d2);
    let f3 = frac_pow2_div(x3, d3);
    let f4 = frac_pow2_div(x4, d4);
    let f5 = frac_pow2_div(x5, d5);
    let f6 = frac_pow2_div(x6, d6);
    let f7 = frac_pow2_div(x7, d7);
    let g1 = frac_pow2_div(x1 + 8, d1);
    let g2 = frac_pow2_div(x2 + 8, d2);
    let g3 = frac_pow2_div(x3 + 8, d3);
    let g4 = frac_pow2_div(x4 + 8, d4);
    let g5 = frac_pow2_div(x5 + 8, d5);
    let g6 = frac_pow2_div(x6 + 8, d6);
    let g7 = frac_pow2_div(x7 + 8, d7);
    let w1 = lemma_frac_shift(x1, d1);
    let w2 = lemma_frac_shift(x2, d2);
    let w3 = lemma_frac_shift(x3, d3);
    let w4 = lemma_frac_shift(x4, d4);
    let w5 = lemma_frac_shift(x5, d5);
    let w6 = lemma_frac_shift(x6, d6);
    let w7 = lemma_frac_shift(x7, d7);
    lemma_frac_wf(x1, d1);
    lemma_frac_wf(x2, d2);
    lemma_frac_wf(x3, d3);
    lemma_frac_wf(x4, d4);
    lemma_frac_wf(x5, d5);
    lemma_frac_wf(x6, d6);
    lemma_frac_wf(x7, d7);
    lemma_frac_wf(x1 + 8, d1);
    lemma_frac_wf(x2 + 8, d2);
    lemma_frac_wf(x3 + 8, d3);
    lemma_frac_wf(x4 + 8, d4);
    lemma_frac_wf(x5 + 8, d5);
    lemma_frac_wf(x6 + 8, d6);
    lemma_frac_wf(x7 + 8, d7);
    lemma_scale2_wf(f1, 8);
    lemma_scale2_wf(f2, 8);
    lemma_scale2_wf(f3, 8);
    lemma_scale2_wf(f4, 8);
    lemma_scale2_wf(f5, 8);
    lemma_scale2_wf(f6, 8);
    lemma_scale2_wf(f7, 8);
    lemma_combo_differ(
        f1.scale2(8),
        f2.scale2(8),
        f3.scale2(8),
        f4.scale2(8),
        f5.scale2(8),
        f6.scale2(8),
        f7.scale2(8),
        g1,
        g2,
        g3,
        g4,
        g5,
        g6,
        g7,
        w1,
        w2,
        w3,
        w4,
        w5,
        w6,
        w7,
    );
    let w = -w1 - w2 + w3 - w4 - w5 - w6 + w7;
    let sg = bellard_combo(g1, g2, g3, g4, g5, g6, g7);
    let sf = bellard_combo(f1, f2, f3, f4, f5, f6, f7);
    let sfs = bellard_combo(
        f1.scale2(8),
        f2.scale2(8),
        f3.scale2(8),
        f4.scale2(8),
        f5.scale2(8),
        f6.scale2(8),
        f7.scale2(8),
    );
    lemma_combo_scale2(f1, f2, f3, f4, f5, f6, f7, 8);
    lemma_combo_wf(f1, f2, f3, f4, f5, f6, f7);
    lemma_combo_wf(g1, g2, g3, g4, g5, g6, g7);
    lemma_combo_wf(
        f1.scale2(8),
        f2.scale2(8),
        f3.scale2(8),
        f4.scale2(8),
        f5.scale2(8),
        f6.scale2(8),
        f7.scale2(8),
    );
    lemma_scale2_wf(sf, 8);
    lemma_eqv_le(sf.scale2(8), sfs);
    lemma_differ_by_eqv_right(sg, sfs, sf.scale2(8), w);
    let e2 = (off + 8) - 5 - 10 * n;
    assert(e2 == e + 8);
    assert(bellard_term_exact(n, off + 8) == (if n % 2 == 1 { sg.neg() } else { sg }));
    assert(bellard_term_exact(n, off) == (if n % 2 == 1 { sf.neg() } else { sf }));
    if n % 2 == 1 {
        lemma_differ_by_neg(sg, sf.scale2(8), w);
        lemma_scale2_neg(sf, 8);
        lemma_eqv_le(sf.neg().scale2(8), sf.scale2(8).neg());
        lemma_scale2_wf(sf.neg(), 8);
        lemma_differ_by_eqv_right(sg.neg(), sf.scale2(8).neg(), sf.neg().scale2(8), -w);
        -w
    } else {
        w
    }
}

/// Raising the offset of a term by `8k` bits multiplies it by `2^(8k)`, up to an
/// integer.
pub proof fn lemma_term_shift_k(n: nat, off: int, k: nat) -> (w: int)
    ensures
        differ_by(
            bellard_term_exact(n, off + 8 * k),
            bellard_term_exact(n, off).scale2(8 * k as int),
            w,
        ),
    decreases k,
{
    lemma_term_wf(n, off);
    let t = bellard_term_exact(n, off);
    if k == 0 {
        assert(t.scale2(0) == (Rat { num: t.num * pow2(0), den: t.den }));
        vstd::arithmetic::power2::lemma2_to64();
        assert(t.eqv(t.scale2(0)));
        crate::rational::lemma_differ_by_eqv(t, t.scale2(0));
        0
    } else {
        let k1 = (k - 1) as nat;
        let wk = lemma_term_shift_k(n, off, k1);
        let w1 = lemma_term_shift(n, off + 8 * k1);
        let a = bellard_term_exact(n, off + 8 * k);
        let b = bellard_term_exact(n, off + 8 * k1);
        assert(off + 8 * k1 + 8 == off + 8 * k);
        lemma_term_wf(n, off + 8 * k);
        lemma_term_wf(n, off + 8 * k1);
        // a == b * 256 + w1
        lemma_differ_by_scale2(b, t.scale2(8 * k1 as int), wk, 8);
        // b * 256 == t * 2^(8 k1) * 256 + wk * 256
        lemma_scale2_wf(b, 8);
        lemma_scale2_wf(t, 8 * k1 as int);
        lemma_scale2_wf(t.scale2(8 * k1 as int), 8);
        lemma_differ_by_trans(a, b.scale2(8), w1, t.scale2(8 * k1 as int).scale2(8), wk * pow2(8));
        lemma_scale2_scale2(t, 8 * k1 as int, 8);
        lemma_scale2_wf(t, 8 * k as int);
        lemma_differ_by_eqv_right(a, t.scale2(8 * k1 as int).scale2(8), t.scale2(8 * k as int), wk * pow2(8) + w1);
        wk * pow2(8) + w1
    }
}

/// Where `2^(x+j) < d`, the fraction is the exact quotient, so that it is the
/// fraction of `2^x / d` times `2^j`.
pub proof fn lemma_frac_exact_shift(x: int, d: nat, j: nat)
    requires
        d >= 1,
        x + j < 0 || pow2((x + j) as nat) < d,
    ensures
        frac_pow2_div(x + j, d).eqv(frac_pow2_div(x, d).scale2(j as int)),
{
    let di = d as int;
    if x + j < 0 {
        let m = (-x - j) as nat;
        lemma_pow2_adds(m, j);
        assert(pow2((-x) as nat) == pow2(m) * pow2(j));
        let a = frac_pow2_div(x + j, d);
        let b = frac_pow2_div(x, d).scale2(j as int);
        assert(a.num * b.den == b.num * a.den) by (nonlinear_arith)
            requires
                a == (Rat { num: 1, den: di * pow2(m) }),
                b == (Rat { num: 1 * pow2(j) as int, den: di * (pow2(m) * pow2(j)) }),
        ;
    } else if x < 0 {
        let m = (-x) as nat;
        let p = pow2((x + j) as nat);
        lemma_pow2_adds((x + j) as nat, m);
        assert(p * pow2(m) == pow2(j));
        lemma_small_mod(p, d);
        let a = frac_pow2_div(x + j, d);
        let b = frac_pow2_div(x, d).scale2(j as int);
        assert(a.num * b.den == b.num * a.den) by (nonlinear_arith)
            requires
                a == (Rat { num: p as int, den: di }),
                b == (Rat { num: 1 * pow2(j) as int, den: di * pow2(m) }),
                p * pow2(m) == pow2(j),
        ;
    } else {
        let p = pow2(x as nat);
        lemma_pow2_adds(x as nat, j);
        if j > 0 {
            lemma_pow2_strictly_increases(x as nat, (x + j) as nat);
        }
        lemma_small_mod(p, d);
        lemma_small_mod(pow2((x + j) as nat), d);
        let a = frac_pow2_div(x + j, d);
        let b = frac_pow2_div(x, d).scale2(j as int);
        assert(a.num * b.den == b.num * a.den) by (nonlinear_arith)
            requires
                a == (Rat { num: pow2((x + j) as nat) as int, den: di }),
                b == (Rat { num: (p * pow2(j)) as int, den: di }),
                p * pow2(j) == pow2((x + j) as nat),
        ;
    }
}

proof fn lemma_pow2_le(a: nat, b: nat)
    requires
        a <= b,
    ensures
        pow2(a) <= pow2(b),
{
    if a < b {
        lemma_pow2_strictly_increases(a, b);
    }
}

/// Below the point where `significant_bits(10n+1) - 1 <= e + 8`, no fraction of a
/// term wraps around, so the term is the exact scaled summand of the series.
pub proof fn lemma_term_exact_shift(n: nat, off: int, k: nat, bits: nat)
    requires
        has_significant_bits(10 * n + 1, bits),
        off + 8 * k - 5 - 10 * n + 8 < bits - 1,
    ensures
        differ_by(
            bellard_term_exact(n, off + 8 * k),
            bellard_term_exact(n, off).scale2(8 * k as int),
            0,
        ),
{
    let e = off - 5 - 10 * n;
    let big_e = e + 8 * k;
    let j = 8 * k;
    vstd::arithmetic::power2::lemma2_to64();
    let top = (bits - 1) as nat;
    assert(pow2(top) <= 10 * n + 1);
    // each exponent at the larger offset is small enough
    if big_e + 8 >= 0 {
        lemma_pow2_strictly_increases((big_e + 8) as nat, top);
    }
    if big_e + 6 >= 0 {
        lemma_pow2_strictly_increases((big_e + 6) as nat, top);
    }
    if big_e + 2 >= 0 {
        lemma_pow2_strictly_increases((big_e + 2) as nat, top);
    }
    if big_e >= 0 {
        lemma_pow2_strictly_increases(big_e as nat, top);
        lemma_pow2_adds(big_e as nat, 9);
        lemma_pow2_le((big_e + 9) as nat, top);
        assert(pow2(big_e as nat) * 512 <= 10 * n + 1);
    }
    if big_e + 5 >= 0 {
        lemma_pow2_adds((big_e + 5) as nat, 4);
        lemma_pow2_le((big_e + 9) as nat, top);
        assert(pow2((big_e + 5) as nat) * 16 <= 10 * n + 1);
    }
    let (d1, d2, d3, d4, d5, d6, d7) = (
        4 * n + 1,
        4 * n + 3,
        10 * n + 1,
        10 * n + 3,
        10 * n + 5,
        10 * n + 7,
        10 * n + 9,
    );
    let (x1, x2, x3, x4, x5, x6, x7) = (e + 5, e, e + 8, e + 6, e + 2, e + 2, e);
    lemma_frac_exact_shift(x1, d1, j);
    lemma_frac_exact_shift(x2, d2, j);
    lemma_frac_exact_shift(x3, d3, j);
    lemma_frac_exact_shift(x4, d4, j);
    lemma_frac_exact_shift(x5, d5, j);
    lemma_frac_exact_shift(x6, d6, j);
    lemma_frac_exact_shift(x7, d7, j);
    let f1 = frac_pow2_div(x1, d1);
    let f2 = frac_pow2_div(x2, d2);
    let f3 = frac_pow2_div(x3, d3);
    let f4 = frac_pow2_div(x4, d4);
    let f5 = frac_pow2_div(x5, d5);
    let f6 = frac_pow2_div(x6, d6);
    let f7 = frac_pow2_div(x7, d7);
    let g1 = frac_pow2_div(x1 + j, d1);
    let g2 = frac_pow2_div(x2 + j, d2);
    let g3 = frac_pow2_div(x3 + j, d3);
    let g4 = frac_pow2_div(x4 + j, d4);
    let g5 = frac_pow2_div(x5 + j, d5);
    let g6 = frac_pow2_div(x6 + j, d6);
    let g7 = frac_pow2_div(x7 + j, d7);
    lemma_frac_wf(x1, d1);
    lemma_frac_wf(x2, d2);
    lemma_frac_wf(x3, d3);
    lemma_frac_wf(x4, d4);
    lemma_frac_wf(x5, d5);
    lemma_frac_wf(x6, d6);
    lemma_frac_wf(x7, d7);
    lemma_frac_wf(x1 + j, d1);
    lemma_frac_wf(x2 + j, d2);
    lemma_frac_wf(x3 + j, d3);
    lemma_frac_wf(x4 + j, d4);
    lemma_frac_wf(x5 + j, d5);
    lemma_frac_wf(x6 + j, d6);
    lemma_frac_wf(x7 + j, d7);
    let ji = j as int;
    lemma_scale2_wf(f1, ji);
    lemma_scale2_wf(f2, ji);
    lemma_scale2_wf(f3, ji);
    lemma_scale2_wf(f4, ji);
    lemma_scale2_wf(f5, ji);
    lemma_scale2_wf(f6, ji);
    lemma_scale2_wf(f7, ji);
    crate::rational::lemma_differ_by_eqv(g1, f1.scale2(ji));
    crate::rational::lemma_differ_by_eqv(g2, f2.scale2(ji));
    crate::rational::lemma_differ_by_eqv(g3, f3.scale2(ji));
    crate::rational::lemma_differ_by_eqv(g4, f4.scale2(ji));
    crate::rational::lemma_differ_by_eqv(g5, f5.scale2(ji));
    crate::rational::lemma_differ_by_eqv(g6, f6.scale2(ji));
    crate::rational::lemma_differ_by_eqv(g7, f7.scale2(ji));
    lemma_combo_differ(
        f1.scale2(ji),
        f2.scale2(ji),
        f3.scale2(ji),
        f4.scale2(ji),
        f5.scale2(ji),
        f6.scale2(ji),
        f7.scale2(ji),
        g1,
        g2,
        g3,
        g4,
        g5,
        g6,
        g7,
        0,
        0,
        0,
        0,
        0,
        0,
        0,
    );
    let sg = bellard_combo(g1, g2, g3, g4, g5, g6, g7);
    let sf = bellard_combo(f1, f2, f3, f4, f5, f6, f7);
    let sfs = bellard_combo(
        f1.scale2(ji),
        f2.scale2(ji),
        f3.scale2(ji),
        f4.scale2(ji),
        f5.scale2(ji),
        f6.scale2(ji),
        f7.scale2(ji),
    );
    lemma_combo_scale2(f1, f2, f3, f4, f5, f6, f7, ji);
    lemma_combo_wf(f1, f2, f3, f4, f5, f6, f7);
    lemma_combo_wf(g1, g2, g3, g4, g5, g6, g7);
    lemma_combo_wf(
        f1.scale2(ji),
        f2.scale2(ji),
        f3.scale2(ji),
        f4.scale2(ji),
        f5.scale2(ji),
        f6.scale2(ji),
        f7.scale2(ji),
    );
    lemma_scale2_wf(sf, ji);
    lemma_eqv_le(sf.scale2(ji), sfs);
    lemma_differ_by_eqv_right(sg, sfs, sf.scale2(ji), 0);
    let e2 = (off + 8 * k) - 5 - 10 * n;
    assert(e2 == e + j);
    assert(bellard_term_exact(n, off + 8 * k) == (if n % 2 == 1 { sg.neg() } else { sg }));
    assert(bellard_term_exact(n, off) == (if n % 2 == 1 { sf.neg() } else { sf }));
    if n % 2 == 1 {
        lemma_differ_by_neg(sg, sf.scale2(ji), 0);
        lemma_scale2_neg(sf, ji);
        lemma_eqv_le(sf.neg().scale2(ji), sf.scale2(ji).neg());
        lemma_scale2_wf(sf.neg(), ji);
        lemma_differ_by_eqv_right(sg.neg(), sf.scale2(ji).neg(), sf.neg().scale2(ji), 0);
    }
}

// ---------------------------------------------------------------------------
// Partial sums and the bytes that they determine
// ---------------------------------------------------------------------------

/// The sum of the first `count` terms at offset `off`.
pub open spec fn partial_sum(count: nat, off: int) -> Rat
    decreases count,
{
    if count == 0 {
        Rat::of_int(0)
    } else {
        partial_sum((count - 1) as nat, off).add(bellard_term_exact((count - 1) as nat, off))
    }
}

/// `x` lies between the sum of the first `count` terms and that sum moved by 1/1024
/// of the last of them against its sign: where the alternating series puts its
/// limit.
pub open spec fn in_tail_hull(x: Rat, count: nat, off: int) -> bool {
    &&& count >= 1
    &&& {
        let d = x.sub(partial_sum(count, off)).scale2(10);
        let t = bellard_term_exact((count - 1) as nat, off).neg();
        (Rat::of_int(0).le(d) && d.le(t)) || (t.le(d) && d.le(Rat::of_int(0)))
    }
}

/// Byte `k` after offset `off` (the integer part of `x * 2^(8(k+1))`, modulo 256) is
/// `b` for every number `x` in the tail hull of `count` terms.
pub open spec fn byte_of_hull(off: int, count: nat, k: nat, b: u8) -> bool {
    forall|x: Rat|
        x.wf() && #[trigger] in_tail_hull(x, count, off) ==> x.scale2(8 * (k + 1) as int).floor() % 256
            == b
}

/// Byte `k` after offset `off` is `b` for every number in the tail hull of some
/// count of terms past the wrapping ones.
pub open spec fn byte_certified(off: int, k: nat, b: u8) -> bool {
    exists|count: nat|
        count >= 1 && !term_wraps((count - 1) as nat, off) && #[trigger] byte_of_hull(
            off,
            count,
            k,
            b,
        )
}

/// A certified byte is the byte of every number that lies in the tail hulls of all
/// counts of terms past the wrapping ones: of the limit of the series, which the
/// tail bound (`lemma_tail_bound`) puts in each of them.
pub proof fn lemma_certified_byte_of_limit(off: int, k: nat, b: u8, x: Rat)
    requires
        byte_certified(off, k, b),
        x.wf(),
        forall|count: nat|
            count >= 1 && !term_wraps((count - 1) as nat, off) ==> #[trigger] in_tail_hull(
                x,
                count,
                off,
            ),
    ensures
        x.scale2(8 * (k + 1) as int).floor() % 256 == b,
{
    let count = choose|count: nat|
        count >= 1 && !term_wraps((count - 1) as nat, off) && #[trigger] byte_of_hull(
            off,
            count,
            k,
            b,
        );
    assert(in_tail_hull(x, count, off));
}

pub proof fn lemma_partial_sum_wf(count: nat, off: int)
    ensures
        partial_sum(count, off).wf(),
    decreases count,
{
    if count > 0 {
        lemma_partial_sum_wf((count - 1) as nat, off);
        lemma_term_wf((count - 1) as nat, off);
        lemma_add_wf(partial_sum((count - 1) as nat, off), bellard_term_exact((count - 1) as nat, off));
    }
}

/// Adding the next term, computed at the offset reached after `k` bytes, keeps the
/// running value equal to the scaled partial sum up to a multiple of 256.
pub proof fn lemma_add_term(off: int, k: nat, n: nat, exact: Rat, z: int) -> (z2: int)
    requires
        exact.wf(),
        differ_by(exact, partial_sum(n, off).scale2(8 * (k + 1) as int), 256 * z),
    ensures
        differ_by(
            exact.add(bellard_term_exact(n, off + 8 * k).scale2(8)),
            partial_sum(n + 1, off).scale2(8 * (k + 1) as int),
            256 * z2,
        ),
{
    let s: int = 8 * (k + 1) as int;
    let t = bellard_term_exact(n, off);
    let tk = bellard_term_exact(n, off + 8 * k);
    let p = partial_sum(n, off);
    lemma_term_wf(n, off);
    lemma_term_wf(n, off + 8 * k);
    lemma_partial_sum_wf(n, off);
    let w = lemma_term_shift_k(n, off, k);
    lemma_differ_by_scale2(tk, t.scale2(8 * k as int), w, 8);
    vstd::arithmetic::power2::lemma2_to64();
    lemma_scale2_wf(t, 8 * k as int);
    lemma_scale2_scale2(t, 8 * k as int, 8);
    lemma_scale2_wf(tk, 8);
    lemma_scale2_wf(t.scale2(8 * k as int), 8);
    lemma_scale2_wf(t, s);
    lemma_differ_by_eqv_right(tk.scale2(8), t.scale2(8 * k as int).scale2(8), t.scale2(s), w * 256);
    lemma_scale2_wf(p, s);
    lemma_differ_by_add(exact, p.scale2(s), 256 * z, tk.scale2(8), t.scale2(s), w * 256);
    lemma_scale2_add(p, t, s);
    lemma_add_wf(p, t);
    lemma_scale2_wf(p.add(t), s);
    lemma_add_wf(p.scale2(s), t.scale2(s));
    lemma_add_wf(exact, tk.scale2(8));
    lemma_eqv_le(p.add(t).scale2(s), p.scale2(s).add(t.scale2(s)));
    lemma_differ_by_eqv_right(
        exact.add(tk.scale2(8)),
        p.scale2(s).add(t.scale2(s)),
        p.add(t).scale2(s),
        256 * z + w * 256,
    );
    z + w
}

/// Taking away an integer `f` and multiplying by 256 moves the running value to the
/// next byte.
pub proof fn lemma_next_byte(v: Rat, y: Rat, s: int, z: int, f: int)
    requires
        v.wf(),
        y.wf(),
        differ_by(v, y.scale2(s), 256 * z),
    ensures
        differ_by(v.sub(Rat::of_int(f)).scale2(8), y.scale2(s + 8), 256 * (256 * z - f)),
        v.sub(Rat::of_int(f)).wf(),
{
    lemma_scale2_wf(y, s);
    let ys = y.scale2(s);
    assert(differ_by(Rat::of_int(f), Rat::of_int(0), f));
    lemma_differ_by_sub(v, ys, 256 * z, Rat::of_int(f), Rat::of_int(0), f);
    lemma_add_wf(v, Rat::of_int(f));
    lemma_add_wf(ys, Rat::of_int(0));
    assert(ys.sub(Rat::of_int(0)).eqv(ys));
    lemma_differ_by_eqv_right(v.sub(Rat::of_int(f)), ys.sub(Rat::of_int(0)), ys, 256 * z - f);
    lemma_differ_by_scale2(v.sub(Rat::of_int(f)), ys, 256 * z - f, 8);
    vstd::arithmetic::power2::lemma2_to64();
    lemma_scale2_scale2(y, s, 8);
    lemma_scale2_wf(ys, 8);
    lemma_scale2_wf(v.sub(Rat::of_int(f)), 8);
    lemma_scale2_wf(y, s + 8);
    lemma_differ_by_eqv_right(
        v.sub(Rat::of_int(f)).scale2(8),
        ys.scale2(8),
        y.scale2(s + 8),
        (256 * z - f) * 256,
    );
}

/// Where the running value has integer part `f`, the byte of the scaled number is
/// `f` modulo 256.
pub proof fn lemma_byte_of_floor(v: Rat, y: Rat, s: int, z: int, f: int)
    requires
        v.wf(),
        y.wf(),
        differ_by(v, y.scale2(s), 256 * z),
        v.floor() == f,
    ensures
        y.scale2(s).floor() % 256 == f % 256,
{
    lemma_scale2_wf(y, s);
    crate::rational::lemma_floor_differ_by(v, y.scale2(s), 256 * z);
    vstd::arithmetic::div_mod::lemma_mod_multiples_vanish(-z, f, 256);
    assert(f + 256 * (-z) == f - 256 * z) by (nonlinear_arith);
    assert((256 * -z + f) % 256 == f % 256);
}

proof fn lemma_add_sub_cancel(p: Rat, x: Rat)
    requires
        p.wf(),
        x.wf(),
    ensures
        p.add(x.sub(p)).eqv(x),
{
    let (pn, pd, xn, xd) = (p.num, p.den, x.num, x.den);
    let q = x.sub(p);
    assert(q == (Rat { num: xn * pd + (-pn) * xd, den: xd * pd }));
    let r = p.add(q);
    vstd::arithmetic::mul::lemma_mul_is_distributive_add_other_way(pd, xn * pd, (-pn) * xd);
    assert(r.num == pn * (xd * pd) + (xn * pd * pd + (-pn) * xd * pd));
    assert(pn * (xd * pd) + (-pn) * xd * pd == 0) by (nonlinear_arith);
    assert(r.num == xn * pd * pd);
    assert(r.den == pd * (xd * pd));
    assert(xn * pd * pd * xd == xn * (pd * (xd * pd))) by (nonlinear_arith);
}

/// Every number of the tail hull appears in the bounds that the loop forms from the
/// running value and the last term: the bounds value that stands for it is the
/// running value less `y / 1024`, with `y` between zero and the last term.
pub proof fn lemma_tail_point(off: int, k: nat, n: nat, a2: Rat, z: int, c: Rat, x: Rat) -> (y: Rat)
    requires
        a2.wf(),
        c.wf(),
        x.wf(),
        differ_by(a2, partial_sum(n + 1, off).scale2(8 * (k + 1) as int), 256 * z),
        c.eqv(bellard_term_exact(n, off).scale2(8 * (k + 1) as int)),
        in_tail_hull(x, n + 1, off),
    ensures
        y.wf(),
        (Rat::of_int(0).le(y) && y.le(c)) || (c.le(y) && y.le(Rat::of_int(0))),
        differ_by(a2.sub(y.scale2(-10)), x.scale2(8 * (k + 1) as int), 256 * z),
{
    let s: int = 8 * (k + 1) as int;
    let p = partial_sum(n + 1, off);
    let t = bellard_term_exact(n, off);
    lemma_partial_sum_wf(n + 1, off);
    lemma_term_wf(n, off);
    let dd = x.sub(p);
    lemma_add_wf(x, p);
    let d = dd.scale2(10);
    lemma_scale2_wf(dd, 10);
    let y = d.neg().scale2(s);
    lemma_scale2_wf(d.neg(), s);
    let zero = Rat::of_int(0);
    lemma_scale2_wf(t, s);
    lemma_scale2_wf(zero, s);
    assert(zero.scale2(s).eqv(zero));
    // y lies between zero and c
    if zero.le(d) && d.le(t.neg()) {
        crate::rational::lemma_neg_le(zero, d);
        crate::rational::lemma_neg_le(d, t.neg());
        assert(t.neg().neg() == t);
        crate::rational::lemma_scale2_le(t, d.neg(), s);
        crate::rational::lemma_scale2_le(d.neg(), zero.neg(), s);
        assert(zero.neg() == zero);
        lemma_eqv_le(c, t.scale2(s));
        crate::rational::lemma_le_trans(c, t.scale2(s), y);
        lemma_eqv_le(zero.scale2(s), zero);
        crate::rational::lemma_le_trans(y, zero.scale2(s), zero);
    } else {
        crate::rational::lemma_neg_le(t.neg(), d);
        crate::rational::lemma_neg_le(d, zero);
        assert(t.neg().neg() == t);
        assert(zero.neg() == zero);
        crate::rational::lemma_scale2_le(zero, d.neg(), s);
        crate::rational::lemma_scale2_le(d.neg(), t, s);
        lemma_eqv_le(c, t.scale2(s));
        crate::rational::lemma_le_trans(y, t.scale2(s), c);
        lemma_eqv_le(zero.scale2(s), zero);
        crate::rational::lemma_le_trans(zero, zero.scale2(s), y);
    }
    // y / 1024 == -(x - p) * 2^s
    let yy = y.scale2(-10);
    lemma_scale2_scale2(d.neg(), s, -10);
    lemma_scale2_wf(y, -10);
    lemma_scale2_wf(d.neg(), s - 10);
    lemma_scale2_neg(dd, 10);
    lemma_eqv_le(dd.neg().scale2(10), d.neg());
    lemma_scale2_wf(dd.neg(), 10);
    crate::rational::lemma_scale2_eqv(d.neg(), dd.neg().scale2(10), s - 10);
    lemma_scale2_wf(dd.neg().scale2(10), s - 10);
    lemma_scale2_scale2(dd.neg(), 10, s - 10);
    lemma_scale2_wf(dd.neg(), s);
    lemma_eqv_trans(yy, d.neg().scale2(s - 10), dd.neg().scale2(10).scale2(s - 10));
    lemma_eqv_trans(yy, dd.neg().scale2(10).scale2(s - 10), dd.neg().scale2(s));
    // -(y / 1024) == (x - p) * 2^s
    lemma_neg_eqv(yy, dd.neg().scale2(s));
    lemma_scale2_neg(dd, s);
    lemma_neg_eqv(dd.neg().scale2(s), dd.scale2(s).neg());
    assert(dd.scale2(s).neg().neg() == dd.scale2(s));
    lemma_scale2_wf(dd, s);
    lemma_eqv_trans(yy.neg(), dd.neg().scale2(s).neg(), dd.scale2(s));
    // a2 - y/1024 == p * 2^s + (x - p) * 2^s + 256 z == x * 2^s + 256 z
    crate::rational::lemma_differ_by_eqv(yy.neg(), dd.scale2(s));
    lemma_scale2_wf(p, s);
    lemma_differ_by_add(a2, p.scale2(s), 256 * z, yy.neg(), dd.scale2(s), 0);
    lemma_scale2_add(p, dd, s);
    lemma_add_wf(p, dd);
    lemma_add_sub_cancel(p, x);
    crate::rational::lemma_scale2_eqv(p.add(dd), x, s);
    lemma_scale2_wf(p.add(dd), s);
    lemma_scale2_wf(x, s);
    lemma_add_wf(p.scale2(s), dd.scale2(s));
    lemma_eqv_le(p.add(dd).scale2(s), p.scale2(s).add(dd.scale2(s)));
    lemma_eqv_trans(p.scale2(s).add(dd.scale2(s)), p.add(dd).scale2(s), x.scale2(s));
    lemma_add_wf(a2, yy.neg());
    lemma_differ_by_eqv_right(a2.add(yy.neg()), p.scale2(s).add(dd.scale2(s)), x.scale2(s), 256 * z);
    y
}

} // verus!
