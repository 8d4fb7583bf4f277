//! Exact rational numbers for specifications, with the order lemmas that the
//! interval arithmetic rests on.

use vstd::arithmetic::div_mod::{lemma_fundamental_div_mod, lemma_mod_bound};
use vstd::arithmetic::mul::{lemma_mul_is_distributive_add_other_way, lemma_mul_strictly_positive};
use vstd::arithmetic::power2::{lemma_pow2_pos, pow2};
use vstd::prelude::*;

verus! {

/// A rational number `num / den`; meaningful when `den > 0`.
pub struct Rat {
    pub num: int,
    pub den: int,
}

impl Rat {
    pub open spec fn wf(self) -> bool {
        self.den > 0
    }

    pub open spec fn of_int(k: int) -> Rat {
        Rat { num: k, den: 1 }
    }

    pub open spec fn of_u64(k: u64) -> Rat {
        Rat::of_int(k as int)
    }

    /// `self <= other`
    pub open spec fn le(self, other: Rat) -> bool {
        self.num * other.den <= other.num * self.den
    }

    /// `self < other`
    pub open spec fn lt(self, other: Rat) -> bool {
        self.num * other.den < other.num * self.den
    }

    pub open spec fn add(self, other: Rat) -> Rat {
        Rat { num: self.num * other.den + other.num * self.den, den: self.den * other.den }
    }

    pub open spec fn neg(self) -> Rat {
        Rat { num: -self.num, den: self.den }
    }

    pub open spec fn sub(self, other: Rat) -> Rat {
        self.add(other.neg())
    }

    pub open spec fn mul_int(self, k: int) -> Rat {
        Rat { num: self.num * k, den: self.den }
    }

    /// `self * 2^k`
    pub open spec fn scale2(self, k: int) -> Rat {
        if k >= 0 {
            Rat { num: self.num * pow2(k as nat), den: self.den }
        } else {
            Rat { num: self.num, den: self.den * pow2((-k) as nat) }
        }
    }

    /// `1 / self`, for a nonzero `self`.
    pub open spec fn recip(self) -> Rat {
        if self.num > 0 {
            Rat { num: self.den, den: self.num }
        } else {
            Rat { num: -self.den, den: -self.num }
        }
    }

    /// `self` and `other` are the same number.
    pub open spec fn eqv(self, other: Rat) -> bool {
        self.num * other.den == other.num * self.den
    }

    /// The greatest integer not above `self`.
    pub open spec fn floor(self) -> int {
        self.num / self.den
    }

    /// The least integer not below `self`.
    pub open spec fn ceil(self) -> int {
        -((-self.num) / self.den)
    }
}

pub proof fn lemma_le_trans(a: Rat, b: Rat, c: Rat)
    requires
        a.wf(),
        b.wf(),
        c.wf(),
        a.le(b),
        b.le(c),
    ensures
        a.le(c),
{
    assert(a.num * b.den * c.den <= b.num * a.den * c.den) by (nonlinear_arith)
        requires
            a.num * b.den <= b.num * a.den,
            c.den > 0,
    ;
    assert(b.num * c.den * a.den <= c.num * b.den * a.den) by (nonlinear_arith)
        requires
            b.num * c.den <= c.num * b.den,
            a.den > 0,
    ;
    assert(a.num * c.den * b.den <= c.num * a.den * b.den) by (nonlinear_arith)
        requires
            a.num * b.den * c.den <= b.num * a.den * c.den,
            b.num * c.den * a.den <= c.num * b.den * a.den,
    ;
    assert(a.num * c.den <= c.num * a.den) by (nonlinear_arith)
        requires
            a.num * c.den * b.den <= c.num * a.den * b.den,
            b.den > 0,
    ;
}

pub proof fn lemma_lt_le_trans(a: Rat, b: Rat, c: Rat)
    requires
        a.wf(),
        b.wf(),
        c.wf(),
        a.lt(b),
        b.le(c),
    ensures
        a.lt(c),
{
    assert(a.num * b.den * c.den < b.num * a.den * c.den) by (nonlinear_arith)
        requires
            a.num * b.den < b.num * a.den,
            c.den > 0,
    ;
    assert(b.num * c.den * a.den <= c.num * b.den * a.den) by (nonlinear_arith)
        requires
            b.num * c.den <= c.num * b.den,
            a.den > 0,
    ;
    assert(a.num * c.den * b.den < c.num * a.den * b.den) by (nonlinear_arith)
        requires
            a.num * b.den * c.den < b.num * a.den * c.den,
            b.num * c.den * a.den <= c.num * b.den * a.den,
    ;
    assert(a.num * c.den < c.num * a.den) by (nonlinear_arith)
        requires
            a.num * c.den * b.den < c.num * a.den * b.den,
            b.den > 0,
    ;
}

pub proof fn lemma_le_lt_trans(a: Rat, b: Rat, c: Rat)
    requires
        a.wf(),
        b.wf(),
        c.wf(),
        a.le(b),
        b.lt(c),
    ensures
        a.lt(c),
{
    assert(a.num * b.den * c.den <= b.num * a.den * c.den) by (nonlinear_arith)
        requires
            a.num * b.den <= b.num * a.den,
            c.den > 0,
    ;
    assert(b.num * c.den * a.den < c.num * b.den * a.den) by (nonlinear_arith)
        requires
            b.num * c.den < c.num * b.den,
            a.den > 0,
    ;
    assert(a.num * c.den * b.den < c.num * a.den * b.den) by (nonlinear_arith)
        requires
            a.num * b.den * c.den <= b.num * a.den * c.den,
            b.num * c.den * a.den < c.num * b.den * a.den,
    ;
    assert(a.num * c.den < c.num * a.den) by (nonlinear_arith)
        requires
            a.num * c.den * b.den < c.num * a.den * b.den,
            b.den > 0,
    ;
}

pub proof fn lemma_add_wf(a: Rat, b: Rat)
    requires
        a.wf(),
        b.wf(),
    ensures
        a.add(b).wf(),
        a.sub(b).wf(),
{
    lemma_mul_strictly_positive(a.den, b.den);
}

proof fn lemma_mul_swap(a: int, b: int, c: int, d: int)
    ensures
        a * b * (c * d) == a * c * (b * d),
{
    assert(a * b * (c * d) == a * c * (b * d)) by (nonlinear_arith);
}

/// Addition is monotone in both arguments.
pub proof fn lemma_add_le(a: Rat, b: Rat, x: Rat, y: Rat)
    requires
        a.wf(),
        b.wf(),
        x.wf(),
        y.wf(),
        a.le(x),
        b.le(y),
    ensures
        a.add(b).le(x.add(y)),
{
    let (an, ad, bn, bd, xn, xd, yn, yd) = (a.num, a.den, b.num, b.den, x.num, x.den, y.num, y.den);
    assert(an * xd * (bd * yd) <= xn * ad * (bd * yd)) by (nonlinear_arith)
        requires
            an * xd <= xn * ad,
            bd > 0,
            yd > 0,
    ;
    assert(bn * yd * (ad * xd) <= yn * bd * (ad * xd)) by (nonlinear_arith)
        requires
            bn * yd <= yn * bd,
            ad > 0,
            xd > 0,
    ;
    lemma_mul_is_distributive_add_other_way(xd * yd, an * bd, bn * ad);
    lemma_mul_is_distributive_add_other_way(ad * bd, xn * yd, yn * xd);
    lemma_mul_swap(an, bd, xd, yd);
    lemma_mul_swap(bn, ad, yd, xd);
    assert(xd * yd == yd * xd) by (nonlinear_arith);
    lemma_mul_swap(xn, yd, ad, bd);
    lemma_mul_swap(yn, xd, bd, ad);
    assert(ad * bd == bd * ad) by (nonlinear_arith);
}

/// Negation reverses the order.
pub proof fn lemma_neg_le(a: Rat, x: Rat)
    requires
        a.le(x),
    ensures
        x.neg().le(a.neg()),
{
    assert((-x.num) * a.den <= (-a.num) * x.den) by (nonlinear_arith)
        requires
            a.num * x.den <= x.num * a.den,
    ;
}

/// Subtraction is monotone in the first argument and antitone in the second.
pub proof fn lemma_sub_le(a: Rat, b: Rat, x: Rat, y: Rat)
    requires
        a.wf(),
        b.wf(),
        x.wf(),
        y.wf(),
        a.le(x),
        y.le(b),
    ensures
        a.sub(b).le(x.sub(y)),
{
    lemma_neg_le(y, b);
    lemma_add_le(a, b.neg(), x, y.neg());
}

proof fn lemma_expand_shifted(x: int, y: int, z: int, w: int, c: int)
    ensures
        (x * c + y * z) * (w * c) == x * w * (c * c) + y * z * w * c,
{
    assert((x * c + y * z) * (w * c) == x * w * (c * c) + y * z * w * c) by (nonlinear_arith);
}

/// Adding the same number to both sides leaves a difference unchanged.
pub proof fn lemma_sub_shift(p: Rat, q: Rat, s: Rat)
    requires
        p.wf(),
        q.wf(),
        s.wf(),
    ensures
        p.add(s).sub(q.add(s)).eqv(p.sub(q)),
{
    let (pn, pd, qn, qd, sn, sd) = (p.num, p.den, q.num, q.den, s.num, s.den);
    let a = p.add(s).sub(q.add(s));
    let b = p.sub(q);
    assert(a.num == (pn * sd + sn * pd) * (qd * sd) + (-(qn * sd + sn * qd)) * (pd * sd));
    assert(a.den == (pd * sd) * (qd * sd));
    assert(b.num == pn * qd + (-qn) * pd);
    assert(b.den == pd * qd);
    let k = sd * sd;
    lemma_expand_shifted(pn, sn, pd, qd, sd);
    lemma_expand_shifted(qn, sn, qd, pd, sd);
    assert(sn * qd * pd * sd == sn * pd * qd * sd) by (nonlinear_arith);
    vstd::arithmetic::mul::lemma_mul_unary_negation(qn * sd + sn * qd, pd * sd);
    assert(pn * qd * k - qn * pd * k == k * (pn * qd + (-qn) * pd)) by (nonlinear_arith);
    assert((pd * sd) * (qd * sd) == k * (pd * qd)) by (nonlinear_arith)
        requires
            k == sd * sd,
    ;
    assert(a.num * b.den == b.num * a.den) by (nonlinear_arith)
        requires
            a.num == k * b.num,
            a.den == k * b.den,
    ;
}

/// Multiplication by a natural number is monotone.
pub proof fn lemma_mul_int_le(a: Rat, x: Rat, k: int)
    requires
        k >= 0,
        a.le(x),
    ensures
        a.mul_int(k).le(x.mul_int(k)),
{
    assert(a.num * k * x.den <= x.num * k * a.den) by (nonlinear_arith)
        requires
            a.num * x.den <= x.num * a.den,
            k >= 0,
    ;
}

/// Multiplication by a power of two is monotone.
pub proof fn lemma_scale2_le(a: Rat, x: Rat, k: int)
    requires
        a.le(x),
    ensures
        a.scale2(k).le(x.scale2(k)),
{
    if k >= 0 {
        lemma_pow2_pos(k as nat);
        let p = pow2(k as nat) as int;
        assert(a.num * p * x.den <= x.num * p * a.den) by (nonlinear_arith)
            requires
                a.num * x.den <= x.num * a.den,
                p > 0,
        ;
    } else {
        lemma_pow2_pos((-k) as nat);
        let p = pow2((-k) as nat) as int;
        assert(a.num * (x.den * p) <= x.num * (a.den * p)) by (nonlinear_arith)
            requires
                a.num * x.den <= x.num * a.den,
                p > 0,
        ;
    }
}

pub proof fn lemma_scale2_wf(a: Rat, k: int)
    requires
        a.wf(),
    ensures
        a.scale2(k).wf(),
{
    if k < 0 {
        lemma_pow2_pos((-k) as nat);
        lemma_mul_strictly_positive(a.den, pow2((-k) as nat) as int);
    }
}

/// The reciprocal is antitone on the positive numbers.
pub proof fn lemma_recip_le(a: Rat, x: Rat)
    requires
        a.wf(),
        x.wf(),
        a.num > 0,
        a.le(x),
    ensures
        x.num > 0,
        x.recip().le(a.recip()),
        x.recip().wf(),
        a.recip().wf(),
{
    assert(x.num > 0) by (nonlinear_arith)
        requires
            a.num * x.den <= x.num * a.den,
            a.num > 0,
            x.den > 0,
            a.den > 0,
    ;
    assert(x.den * a.num <= a.den * x.num) by (nonlinear_arith)
        requires
            a.num * x.den <= x.num * a.den,
    ;
}

/// The reciprocal is antitone on the negative numbers.
pub proof fn lemma_recip_le_neg(a: Rat, x: Rat)
    requires
        a.wf(),
        x.wf(),
        x.num < 0,
        a.le(x),
    ensures
        a.num < 0,
        x.recip().le(a.recip()),
        x.recip().wf(),
        a.recip().wf(),
{
    assert(a.num < 0) by (nonlinear_arith)
        requires
            a.num * x.den <= x.num * a.den,
            x.num < 0,
            x.den > 0,
            a.den > 0,
    ;
    assert((-x.den) * (-a.num) <= (-a.den) * (-x.num)) by (nonlinear_arith)
        requires
            a.num * x.den <= x.num * a.den,
    ;
}

/// The floor is monotone.
pub proof fn lemma_floor_le(a: Rat, x: Rat)
    requires
        a.wf(),
        x.wf(),
        a.le(x),
    ensures
        a.floor() <= x.floor(),
{
    let fa = a.floor();
    let fx = x.floor();
    lemma_fundamental_div_mod(a.num, a.den);
    lemma_fundamental_div_mod(x.num, x.den);
    lemma_mod_bound(a.num, a.den);
    lemma_mod_bound(x.num, x.den);
    assert(fa * a.den <= a.num) by (nonlinear_arith)
        requires
            a.num == a.den * fa + a.num % a.den,
            a.num % a.den >= 0,
    ;
    assert(x.num < (fx + 1) * x.den) by (nonlinear_arith)
        requires
            x.num == x.den * fx + x.num % x.den,
            x.num % x.den < x.den,
    ;
    if fa > fx {
        // a >= fa >= fx + 1 > x
        assert(fa * a.den * x.den <= a.num * x.den) by (nonlinear_arith)
            requires
                fa * a.den <= a.num,
                x.den > 0,
        ;
        assert(x.num * a.den < (fx + 1) * x.den * a.den) by (nonlinear_arith)
            requires
                x.num < (fx + 1) * x.den,
                a.den > 0,
        ;
        assert((fx + 1) * x.den * a.den <= fa * a.den * x.den) by (nonlinear_arith)
            requires
                fx + 1 <= fa,
                x.den > 0,
                a.den > 0,
        ;
    }
}

/// An integer is at most a number exactly when it is at most the number's floor.
pub proof fn lemma_int_le_floor(a: Rat, j: int)
    requires
        a.wf(),
    ensures
        Rat::of_int(j).le(a) <==> j <= a.floor(),
{
    lemma_fundamental_div_mod(a.num, a.den);
    lemma_mod_bound(a.num, a.den);
    let f = a.floor();
    assert(f * a.den <= a.num < (f + 1) * a.den) by (nonlinear_arith)
        requires
            a.num == a.den * f + a.num % a.den,
            0 <= a.num % a.den < a.den,
    ;
    if j <= f {
        assert(j * a.den <= f * a.den) by (nonlinear_arith)
            requires
                j <= f,
                a.den > 0,
        ;
    } else {
        assert((f + 1) * a.den <= j * a.den) by (nonlinear_arith)
            requires
                f + 1 <= j,
                a.den > 0,
        ;
    }
}

/// A number is at most an integer exactly when the number's ceiling is.
pub proof fn lemma_le_int_ceil(a: Rat, j: int)
    requires
        a.wf(),
    ensures
        a.le(Rat::of_int(j)) <==> a.ceil() <= j,
{
    lemma_int_le_floor(a.neg(), -j);
    vstd::arithmetic::mul::lemma_mul_unary_negation(j, a.den);
}

// ---------------------------------------------------------------------------
// Equality of values
// ---------------------------------------------------------------------------

pub proof fn lemma_eqv_le(a: Rat, b: Rat)
    requires
        a.eqv(b),
    ensures
        a.le(b),
        b.le(a),
        b.eqv(a),
{
}

pub proof fn lemma_eqv_trans(a: Rat, b: Rat, c: Rat)
    requires
        a.wf(),
        b.wf(),
        c.wf(),
        a.eqv(b),
        b.eqv(c),
    ensures
        a.eqv(c),
{
    lemma_le_trans(a, b, c);
    lemma_le_trans(c, b, a);
}

pub proof fn lemma_add_eqv(a: Rat, b: Rat, x: Rat, y: Rat)
    requires
        a.wf(),
        b.wf(),
        x.wf(),
        y.wf(),
        a.eqv(x),
        b.eqv(y),
    ensures
        a.add(b).eqv(x.add(y)),
{
    lemma_add_le(a, b, x, y);
    lemma_add_le(x, y, a, b);
}

pub proof fn lemma_neg_eqv(a: Rat, x: Rat)
    requires
        a.eqv(x),
    ensures
        a.neg().eqv(x.neg()),
{
    lemma_neg_le(a, x);
    lemma_neg_le(x, a);
}

pub proof fn lemma_sub_eqv(a: Rat, b: Rat, x: Rat, y: Rat)
    requires
        a.wf(),
        b.wf(),
        x.wf(),
        y.wf(),
        a.eqv(x),
        b.eqv(y),
    ensures
        a.sub(b).eqv(x.sub(y)),
{
    lemma_neg_eqv(b, y);
    lemma_add_eqv(a, b.neg(), x, y.neg());
}

pub proof fn lemma_scale2_eqv(a: Rat, x: Rat, k: int)
    requires
        a.eqv(x),
    ensures
        a.scale2(k).eqv(x.scale2(k)),
{
    lemma_scale2_le(a, x, k);
    lemma_scale2_le(x, a, k);
}

pub proof fn lemma_floor_eqv(a: Rat, x: Rat)
    requires
        a.wf(),
        x.wf(),
        a.eqv(x),
    ensures
        a.floor() == x.floor(),
{
    lemma_floor_le(a, x);
    lemma_floor_le(x, a);
}

/// `a * 2^k` is `(a.num * 2^k+) / (a.den * 2^k-)` where `k = k+ - k-`.
pub open spec fn pos_part(k: int) -> nat {
    if k >= 0 {
        k as nat
    } else {
        0
    }
}

pub open spec fn neg_part(k: int) -> nat {
    if k >= 0 {
        0
    } else {
        (-k) as nat
    }
}

pub proof fn lemma_scale2_normal(a: Rat, k: int)
    requires
        a.wf(),
    ensures
        a.scale2(k).eqv(
            Rat { num: a.num * pow2(pos_part(k)), den: a.den * pow2(neg_part(k)) },
        ),
{
    vstd::arithmetic::power2::lemma2_to64();
    if k >= 0 {
        assert(pow2(neg_part(k)) == 1);
    } else {
        assert(pow2(pos_part(k)) == 1);
    }
}

/// Multiplying by `2^j` and then by `2^k` multiplies by `2^(j+k)`.
pub proof fn lemma_scale2_scale2(a: Rat, j: int, k: int)
    requires
        a.wf(),
    ensures
        a.scale2(j).scale2(k).eqv(a.scale2(j + k)),
        a.scale2(j).wf(),
{
    lemma_scale2_wf(a, j);
    lemma_scale2_wf(a.scale2(j), k);
    lemma_scale2_wf(a, j + k);
    lemma_scale2_normal(a, j);
    lemma_scale2_normal(a.scale2(j), k);
    lemma_scale2_normal(a, j + k);
    let b = a.scale2(j);
    let jp = pow2(pos_part(j)) as int;
    let jn = pow2(neg_part(j)) as int;
    let kp = pow2(pos_part(k)) as int;
    let kn = pow2(neg_part(k)) as int;
    let sp = pow2(pos_part(j + k)) as int;
    let sn = pow2(neg_part(j + k)) as int;
    lemma_pow2_pos(pos_part(j));
    lemma_pow2_pos(neg_part(j));
    lemma_pow2_pos(pos_part(k));
    lemma_pow2_pos(neg_part(k));
    lemma_pow2_pos(pos_part(j + k));
    lemma_pow2_pos(neg_part(j + k));
    // the exponents balance: j+ + k+ + (j+k)- == (j+k)+ + j- + k-
    vstd::arithmetic::power2::lemma_pow2_adds(pos_part(j), pos_part(k));
    vstd::arithmetic::power2::lemma_pow2_adds(pos_part(j) + pos_part(k), neg_part(j + k));
    vstd::arithmetic::power2::lemma_pow2_adds(neg_part(j), neg_part(k));
    vstd::arithmetic::power2::lemma_pow2_adds(neg_part(j) + neg_part(k), pos_part(j + k));
    assert(pos_part(j) + pos_part(k) + neg_part(j + k) == neg_part(j) + neg_part(k) + pos_part(j + k));
    let e = pow2(pos_part(j) + pos_part(k) + neg_part(j + k)) as int;
    assert(jp * kp * sn == e);
    assert(jn * kn * sp == e);
    let c = Rat { num: b.num * kp, den: b.den * kn };
    let d = Rat { num: a.num * jp, den: a.den * jn };
    // b eqv d, so c eqv (d.num * kp, d.den * kn)
    let d2 = Rat { num: d.num * kp, den: d.den * kn };
    assert(c.eqv(d2)) by (nonlinear_arith)
        requires
            b.num * d.den == d.num * b.den,
            c == (Rat { num: b.num * kp, den: b.den * kn }),
            d2 == (Rat { num: d.num * kp, den: d.den * kn }),
    ;
    let t = Rat { num: a.num * sp, den: a.den * sn };
    let (u, v) = (a.num, a.den);
    let x = jp * kp;
    let y = jn * kn;
    vstd::arithmetic::mul::lemma_mul_is_associative(u, jp, kp);
    vstd::arithmetic::mul::lemma_mul_is_associative(v, jn, kn);
    assert(d2 == (Rat { num: u * x, den: v * y }));
    lemma_mul_swap(u, x, v, sn);
    lemma_mul_swap(u, sp, v, y);
    assert(x * sn == y * sp);
    assert(sp * y == y * sp) by (nonlinear_arith);
    assert(d2.eqv(t));
    assert(d2 == (Rat { num: a.num * jp * kp, den: a.den * jn * kn }));
    vstd::arithmetic::mul::lemma_mul_strictly_positive(a.den, jn);
    vstd::arithmetic::mul::lemma_mul_strictly_positive(b.den, kn);
    vstd::arithmetic::mul::lemma_mul_strictly_positive(a.den * jn, kn);
    vstd::arithmetic::mul::lemma_mul_strictly_positive(a.den, sn);
    lemma_eqv_trans(b.scale2(k), c, d2);
    lemma_eqv_trans(b.scale2(k), d2, t);
    lemma_eqv_le(a.scale2(j + k), t);
    lemma_eqv_trans(b.scale2(k), t, a.scale2(j + k));
}

/// Multiplying by a power of two distributes over a sum.
pub proof fn lemma_scale2_add(a: Rat, b: Rat, k: int)
    requires
        a.wf(),
        b.wf(),
    ensures
        a.add(b).scale2(k).eqv(a.scale2(k).add(b.scale2(k))),
{
    lemma_pow2_pos(pos_part(k));
    lemma_pow2_pos(neg_part(k));
    let p = pow2(pos_part(k)) as int;
    let q = pow2(neg_part(k)) as int;
    lemma_add_wf(a, b);
    lemma_scale2_normal(a, k);
    lemma_scale2_normal(b, k);
    lemma_scale2_normal(a.add(b), k);
    let an = Rat { num: a.num * p, den: a.den * q };
    let bn = Rat { num: b.num * p, den: b.den * q };
    let sn = Rat { num: a.add(b).num * p, den: a.add(b).den * q };
    let m = a.num * b.den + b.num * a.den;
    let dd = a.den * b.den;
    lemma_mul_swap(a.num, p, b.den, q);
    lemma_mul_swap(b.num, p, a.den, q);
    vstd::arithmetic::mul::lemma_mul_is_distributive_add_other_way(p * q, a.num * b.den, b.num * a.den);
    assert(an.add(bn).num == m * (p * q));
    lemma_mul_swap(a.den, q, b.den, q);
    assert(an.add(bn).den == dd * (q * q));
    assert(sn == (Rat { num: m * p, den: dd * q }));
    assert((m * p) * (dd * (q * q)) == (m * (p * q)) * (dd * q)) by (nonlinear_arith);
    assert(sn.eqv(an.add(bn)));
    vstd::arithmetic::mul::lemma_mul_strictly_positive(a.den, q);
    vstd::arithmetic::mul::lemma_mul_strictly_positive(b.den, q);
    vstd::arithmetic::mul::lemma_mul_strictly_positive(a.den * b.den, q);
    lemma_scale2_wf(a, k);
    lemma_scale2_wf(b, k);
    lemma_scale2_wf(a.add(b), k);
    lemma_add_eqv(a.scale2(k), b.scale2(k), an, bn);
    lemma_add_wf(an, bn);
    lemma_add_wf(a.scale2(k), b.scale2(k));
    lemma_eqv_trans(a.add(b).scale2(k), sn, an.add(bn));
    lemma_eqv_le(a.scale2(k).add(b.scale2(k)), an.add(bn));
    lemma_eqv_trans(a.add(b).scale2(k), an.add(bn), a.scale2(k).add(b.scale2(k)));
}


// ---------------------------------------------------------------------------
// Numbers that differ by an integer
// ---------------------------------------------------------------------------

/// `a == b + z`
pub open spec fn differ_by(a: Rat, b: Rat, z: int) -> bool {
    a.eqv(b.add(Rat::of_int(z)))
}

pub proof fn lemma_differ_by_eqv(a: Rat, b: Rat)
    requires
        a.eqv(b),
    ensures
        differ_by(a, b, 0),
{
}

pub proof fn lemma_differ_by_zero(a: Rat, b: Rat)
    requires
        differ_by(a, b, 0),
    ensures
        a.eqv(b),
{
}

pub proof fn lemma_add_comm(a: Rat, b: Rat)
    ensures
        a.add(b).eqv(b.add(a)),
{
    assert(a.den * b.den == b.den * a.den) by (nonlinear_arith);
}

pub proof fn lemma_add_assoc(a: Rat, b: Rat, c: Rat)
    ensures
        a.add(b).add(c).eqv(a.add(b.add(c))),
{
    let (an, ad, bn, bd, cn, cd) = (a.num, a.den, b.num, b.den, c.num, c.den);
    vstd::arithmetic::mul::lemma_mul_is_distributive_add_other_way(cd, an * bd, bn * ad);
    vstd::arithmetic::mul::lemma_mul_is_distributive_add_other_way(ad, bn * cd, cn * bd);
    assert(an * bd * cd == an * (bd * cd)) by (nonlinear_arith);
    assert(bn * ad * cd == bn * cd * ad) by (nonlinear_arith);
    assert(cn * (ad * bd) == cn * bd * ad) by (nonlinear_arith);
    assert(ad * bd * cd == ad * (bd * cd)) by (nonlinear_arith);
    assert(a.add(b).add(c).num == a.add(b.add(c)).num);
    assert(a.add(b).add(c).den == a.add(b.add(c)).den);
}

pub proof fn lemma_of_int_add(z: int, w: int)
    ensures
        Rat::of_int(z).add(Rat::of_int(w)).eqv(Rat::of_int(z + w)),
{
}

pub proof fn lemma_differ_by_add(a: Rat, b: Rat, z: int, x: Rat, y: Rat, w: int)
    requires
        a.wf(),
        b.wf(),
        x.wf(),
        y.wf(),
        differ_by(a, b, z),
        differ_by(x, y, w),
    ensures
        differ_by(a.add(x), b.add(y), z + w),
{
    let zr = Rat::of_int(z);
    let wr = Rat::of_int(w);
    lemma_add_wf(b, zr);
    lemma_add_wf(y, wr);
    lemma_add_wf(a, x);
    lemma_add_wf(b, y);
    // a + x == (b + z) + (y + w)
    lemma_add_eqv(a, x, b.add(zr), y.add(wr));
    let s1 = b.add(zr).add(y.add(wr));
    // == ((b + z) + y) + w
    lemma_add_assoc(b.add(zr), y, wr);
    let s2 = b.add(zr).add(y).add(wr);
    lemma_add_wf(b.add(zr), y);
    lemma_add_wf(b.add(zr).add(y), wr);
    lemma_add_wf(b.add(zr), y.add(wr));
    lemma_eqv_le(s2, s1);
    lemma_eqv_trans(a.add(x), s1, s2);
    // (b + z) + y == b + (z + y) == b + (y + z) == (b + y) + z
    lemma_add_assoc(b, zr, y);
    lemma_add_comm(zr, y);
    lemma_add_wf(zr, y);
    lemma_add_wf(y, zr);
    lemma_eqv_le(b, b);
    lemma_add_eqv(b, zr.add(y), b, y.add(zr));
    lemma_add_assoc(b, y, zr);
    lemma_add_wf(b, zr.add(y));
    lemma_add_wf(b, y.add(zr));
    lemma_add_wf(b.add(y), zr);
    lemma_eqv_trans(b.add(zr).add(y), b.add(zr.add(y)), b.add(y.add(zr)));
    lemma_eqv_le(b.add(y).add(zr), b.add(y.add(zr)));
    lemma_eqv_trans(b.add(zr).add(y), b.add(y.add(zr)), b.add(y).add(zr));
    // so s2 == ((b + y) + z) + w == (b + y) + (z + w)
    lemma_eqv_le(wr, wr);
    lemma_add_eqv(b.add(zr).add(y), wr, b.add(y).add(zr), wr);
    lemma_add_wf(b.add(y).add(zr), wr);
    lemma_eqv_trans(a.add(x), s2, b.add(y).add(zr).add(wr));
    lemma_add_assoc(b.add(y), zr, wr);
    lemma_add_wf(zr, wr);
    lemma_add_wf(b.add(y), zr.add(wr));
    lemma_eqv_trans(a.add(x), b.add(y).add(zr).add(wr), b.add(y).add(zr.add(wr)));
    lemma_of_int_add(z, w);
    lemma_eqv_le(b.add(y), b.add(y));
    lemma_add_eqv(b.add(y), zr.add(wr), b.add(y), Rat::of_int(z + w));
    lemma_add_wf(b.add(y), Rat::of_int(z + w));
    lemma_eqv_trans(a.add(x), b.add(y).add(zr.add(wr)), b.add(y).add(Rat::of_int(z + w)));
}

pub proof fn lemma_differ_by_neg(a: Rat, b: Rat, z: int)
    requires
        differ_by(a, b, z),
    ensures
        differ_by(a.neg(), b.neg(), -z),
{
    assert(a.num * b.den == (b.num + z * b.den) * a.den);
    assert((-a.num) * b.den == (-b.num + (-z) * b.den) * a.den) by (nonlinear_arith)
        requires
            a.num * b.den == (b.num + z * b.den) * a.den,
    ;
}

pub proof fn lemma_differ_by_sub(a: Rat, b: Rat, z: int, x: Rat, y: Rat, w: int)
    requires
        a.wf(),
        b.wf(),
        x.wf(),
        y.wf(),
        differ_by(a, b, z),
        differ_by(x, y, w),
    ensures
        differ_by(a.sub(x), b.sub(y), z - w),
{
    lemma_differ_by_neg(x, y, w);
    lemma_differ_by_add(a, b, z, x.neg(), y.neg(), -w);
}

/// `a == b + z` gives `a * 2^k == b * 2^k + z * 2^k`.
pub proof fn lemma_differ_by_scale2(a: Rat, b: Rat, z: int, k: nat)
    requires
        differ_by(a, b, z),
    ensures
        differ_by(a.scale2(k as int), b.scale2(k as int), z * pow2(k)),
{
    let p = pow2(k) as int;
    assert(a.num * b.den == (b.num + z * b.den) * a.den);
    assert(a.num * p * b.den == (b.num * p + z * p * b.den) * a.den) by (nonlinear_arith)
        requires
            a.num * b.den == (b.num + z * b.den) * a.den,
    ;
}

pub proof fn lemma_differ_by_trans(a: Rat, b: Rat, z: int, c: Rat, w: int)
    requires
        a.wf(),
        b.wf(),
        c.wf(),
        differ_by(a, b, z),
        differ_by(b, c, w),
    ensures
        differ_by(a, c, w + z),
{
    let zr = Rat::of_int(z);
    let wr = Rat::of_int(w);
    // b + z == (c + w) + z == c + (w + z)
    lemma_eqv_le(zr, zr);
    lemma_add_wf(c, wr);
    lemma_add_wf(b, zr);
    lemma_add_eqv(b, zr, c.add(wr), zr);
    lemma_add_assoc(c, wr, zr);
    lemma_add_wf(c.add(wr), zr);
    lemma_add_wf(wr, zr);
    lemma_add_wf(c, wr.add(zr));
    lemma_eqv_trans(a, b.add(zr), c.add(wr).add(zr));
    lemma_eqv_trans(a, c.add(wr).add(zr), c.add(wr.add(zr)));
    lemma_of_int_add(w, z);
    lemma_eqv_le(c, c);
    lemma_add_eqv(c, wr.add(zr), c, Rat::of_int(w + z));
    lemma_add_wf(c, Rat::of_int(w + z));
    lemma_eqv_trans(a, c.add(wr.add(zr)), c.add(Rat::of_int(w + z)));
}

/// Adding an integer moves the floor by that integer.
pub proof fn lemma_floor_differ_by(a: Rat, b: Rat, z: int)
    requires
        a.wf(),
        b.wf(),
        differ_by(a, b, z),
    ensures
        a.floor() == b.floor() + z,
{
    lemma_add_wf(b, Rat::of_int(z));
    lemma_floor_eqv(a, b.add(Rat::of_int(z)));
    let c = b.add(Rat::of_int(z));
    assert(c == (Rat { num: b.num + z * b.den, den: b.den })) by (nonlinear_arith)
        requires
            c == b.add(Rat::of_int(z)),
    ;
    vstd::arithmetic::div_mod::lemma_fundamental_div_mod(b.num, b.den);
    lemma_mod_bound(b.num, b.den);
    let f = b.floor();
    let r = b.num % b.den;
    assert(b.num + z * b.den == b.den * (f + z) + r) by (nonlinear_arith)
        requires
            b.num == b.den * f + r,
    ;
    vstd::arithmetic::div_mod::lemma_fundamental_div_mod_converse(b.num + z * b.den, b.den, f + z, r);
}

/// Multiplying by a power of two commutes with negation.
pub proof fn lemma_scale2_neg(a: Rat, k: int)
    ensures
        a.neg().scale2(k).eqv(a.scale2(k).neg()),
{
    if k >= 0 {
        vstd::arithmetic::mul::lemma_mul_unary_negation(a.num, pow2(k as nat) as int);
    }
}

/// Multiplying by a power of two distributes over a difference.
pub proof fn lemma_scale2_sub(a: Rat, b: Rat, k: int)
    requires
        a.wf(),
        b.wf(),
    ensures
        a.sub(b).scale2(k).eqv(a.scale2(k).sub(b.scale2(k))),
{
    lemma_scale2_add(a, b.neg(), k);
    lemma_scale2_neg(b, k);
    lemma_scale2_wf(a, k);
    lemma_scale2_wf(b, k);
    lemma_scale2_wf(b.neg(), k);
    lemma_eqv_le(a.scale2(k), a.scale2(k));
    lemma_add_eqv(a.scale2(k), b.neg().scale2(k), a.scale2(k), b.scale2(k).neg());
    lemma_add_wf(a, b.neg());
    lemma_scale2_wf(a.sub(b), k);
    lemma_add_wf(a.scale2(k), b.neg().scale2(k));
    lemma_add_wf(a.scale2(k), b.scale2(k).neg());
    lemma_eqv_trans(a.sub(b).scale2(k), a.scale2(k).add(b.neg().scale2(k)), a.scale2(k).sub(b.scale2(k)));
}


/// Doubling a number that is not negative never makes it smaller.
pub proof fn lemma_scale2_grows(d: Rat, k: int)
    requires
        d.wf(),
        k >= 0,
        d.num >= 0,
    ensures
        d.le(d.scale2(k)),
{
    lemma_pow2_pos(k as nat);
    let m = pow2(k as nat) as int;
    assert(d.num * d.den <= d.num * m * d.den) by (nonlinear_arith)
        requires
            d.num >= 0,
            d.den > 0,
            m >= 1,
    ;
}


// ---------------------------------------------------------------------------
// Values as real numbers
// ---------------------------------------------------------------------------

/// The value of `q` as a real number.
pub open spec fn val(q: Rat) -> real {
    q.num as real / q.den as real
}

/// `2^k` as a real number.
pub open spec fn pw(k: int) -> real {
    if k >= 0 {
        pow2(k as nat) as real
    } else {
        1real / pow2((-k) as nat) as real
    }
}

pub proof fn lemma_cast_mul(x: int, y: int)
    ensures
        (x * y) as real == x as real * y as real,
{
    assert((x * y) as real == x as real * y as real) by (nonlinear_arith);
}

pub proof fn lemma_val_add(a: Rat, b: Rat)
    requires
        a.wf(),
        b.wf(),
    ensures
        val(a.add(b)) == val(a) + val(b),
        val(a.sub(b)) == val(a) - val(b),
        val(a.neg()) == -val(a),
{
    let (x, y, u, v) = (a.num as real, a.den as real, b.num as real, b.den as real);
    lemma_cast_mul(a.num, b.den);
    lemma_cast_mul(b.num, a.den);
    lemma_cast_mul(a.den, b.den);
    lemma_cast_mul(-b.num, a.den);
    assert((a.num * b.den + b.num * a.den) as real == x * v + u * y);
    assert((a.num * b.den + (-b.num) * a.den) as real == x * v + (-u) * y);
    assert((x * v + u * y) / (y * v) == x / y + u / v) by (nonlinear_arith)
        requires
            y > 0real,
            v > 0real,
    ;
    assert((x * v + (-u) * y) / (y * v) == x / y - u / v) by (nonlinear_arith)
        requires
            y > 0real,
            v > 0real,
    ;
    assert((-x) / y == -(x / y)) by (nonlinear_arith)
        requires
            y > 0real,
    ;
}

pub proof fn lemma_val_le(a: Rat, b: Rat)
    requires
        a.wf(),
        b.wf(),
    ensures
        a.le(b) <==> val(a) <= val(b),
        a.lt(b) <==> val(a) < val(b),
        a.eqv(b) <==> val(a) == val(b),
{
    let (x, y, u, v) = (a.num as real, a.den as real, b.num as real, b.den as real);
    lemma_cast_mul(a.num, b.den);
    lemma_cast_mul(b.num, a.den);
    assert(x * v <= u * y <==> x / y <= u / v) by (nonlinear_arith)
        requires
            y > 0real,
            v > 0real,
    ;
    assert(x * v < u * y <==> x / y < u / v) by (nonlinear_arith)
        requires
            y > 0real,
            v > 0real,
    ;
    assert(x * v == u * y <==> x / y == u / v) by (nonlinear_arith)
        requires
            y > 0real,
            v > 0real,
    ;
}

pub proof fn lemma_val_of_int(k: int)
    ensures
        val(Rat::of_int(k)) == k as real,
{
    let x = k as real;
    assert(x / 1real == x) by (nonlinear_arith);
}

pub proof fn lemma_pw_pos(k: int)
    ensures
        pw(k) > 0real,
{
    if k >= 0 {
        lemma_pow2_pos(k as nat);
    } else {
        lemma_pow2_pos((-k) as nat);
        let p = pow2((-k) as nat) as real;
        assert(1real / p > 0real) by (nonlinear_arith)
            requires
                p > 0real,
        ;
    }
}

pub proof fn lemma_pw_add(a: int, b: int)
    ensures
        pw(a + b) == pw(a) * pw(b),
{
    lemma_pw_pos(a);
    lemma_pw_pos(b);
    if a >= 0 && b >= 0 {
        vstd::arithmetic::power2::lemma_pow2_adds(a as nat, b as nat);
        lemma_cast_mul(pow2(a as nat) as int, pow2(b as nat) as int);
    } else if a < 0 && b < 0 {
        vstd::arithmetic::power2::lemma_pow2_adds((-a) as nat, (-b) as nat);
        lemma_pow2_pos((-a) as nat);
        lemma_pow2_pos((-b) as nat);
        lemma_cast_mul(pow2((-a) as nat) as int, pow2((-b) as nat) as int);
        let (p, q) = (pow2((-a) as nat) as real, pow2((-b) as nat) as real);
        assert(1real / (p * q) == (1real / p) * (1real / q)) by (nonlinear_arith)
            requires
                p > 0real,
                q > 0real,
        ;
    } else {
        // one is negative: write the larger magnitude as a sum
        let (x, y) = if a >= 0 {
            (a, b)
        } else {
            (b, a)
        };
        assert(x >= 0 && y < 0);
        lemma_pow2_pos((-y) as nat);
        let q = pow2((-y) as nat) as real;
        if x + y >= 0 {
            vstd::arithmetic::power2::lemma_pow2_adds((x + y) as nat, (-y) as nat);
            lemma_cast_mul(pow2((x + y) as nat) as int, pow2((-y) as nat) as int);
            let r = pow2((x + y) as nat) as real;
            assert(pw(x) == r * q);
            assert(r == (r * q) * (1real / q)) by (nonlinear_arith)
                requires
                    q > 0real,
            ;
        } else {
            vstd::arithmetic::power2::lemma_pow2_adds(x as nat, (-(x + y)) as nat);
            lemma_pow2_pos((-(x + y)) as nat);
            lemma_cast_mul(pow2(x as nat) as int, pow2((-(x + y)) as nat) as int);
            let p = pow2(x as nat) as real;
            let r = pow2((-(x + y)) as nat) as real;
            assert(q == p * r);
            assert(1real / r == p * (1real / (p * r))) by (nonlinear_arith)
                requires
                    p > 0real,
                    r > 0real,
            ;
        }
        assert(pw(a + b) == pw(x + y));
        assert(pw(a) * pw(b) == pw(x) * pw(y));
    }
}

pub proof fn lemma_val_scale2(q: Rat, k: int)
    requires
        q.wf(),
    ensures
        val(q.scale2(k)) == val(q) * pw(k),
{
    let (x, y) = (q.num as real, q.den as real);
    if k >= 0 {
        lemma_cast_mul(q.num, pow2(k as nat) as int);
        let p = pow2(k as nat) as real;
        assert((x * p) / y == (x / y) * p) by (nonlinear_arith)
            requires
                y > 0real,
        ;
    } else {
        lemma_pow2_pos((-k) as nat);
        lemma_cast_mul(q.den, pow2((-k) as nat) as int);
        let p = pow2((-k) as nat) as real;
        assert(x / (y * p) == (x / y) * (1real / p)) by (nonlinear_arith)
            requires
                y > 0real,
                p > 0real,
        ;
    }
}


/// The reciprocal as a real number.
pub proof fn lemma_val_recip(q: Rat)
    requires
        q.wf(),
        q.num != 0,
    ensures
        q.recip().wf(),
        val(q.recip()) == 1real / val(q),
{
    let (x, y) = (q.num as real, q.den as real);
    if q.num > 0 {
        assert(y / x == 1real / (x / y)) by (nonlinear_arith)
            requires
                x > 0real,
                y > 0real,
        ;
    } else {
        assert((-y) / (-x) == 1real / (x / y)) by (nonlinear_arith)
            requires
                x < 0real,
                y > 0real,
        ;
    }
}

/// A multiple by an integer as a real number.
pub proof fn lemma_val_mul_int(q: Rat, k: int)
    requires
        q.wf(),
    ensures
        q.mul_int(k).wf(),
        val(q.mul_int(k)) == val(q) * k as real,
{
    lemma_cast_mul(q.num, k);
    let (x, y, z) = (q.num as real, q.den as real, k as real);
    assert((x * z) / y == (x / y) * z) by (nonlinear_arith)
        requires
            y > 0real,
    ;
}

/// A power of two grows with its exponent.
pub proof fn lemma_pw_mono(a: int, b: int)
    requires
        a <= b,
    ensures
        pw(a) <= pw(b),
{
    lemma_pw_add(a, b - a);
    lemma_pw_pos(a);
    assert(pw(b - a) >= 1real) by {
        vstd::arithmetic::power2::lemma_pow2_pos((b - a) as nat);
    }
    assert(pw(a) <= pw(a) * pw(b - a)) by (nonlinear_arith)
        requires
            pw(a) > 0real,
            pw(b - a) >= 1real,
    ;
}


/// The sign of a number is that of its numerator.
pub proof fn lemma_val_sign(q: Rat)
    requires
        q.wf(),
    ensures
        q.num >= 0 <==> val(q) >= 0real,
        q.num > 0 <==> val(q) > 0real,
{
    let (x, y) = (q.num as real, q.den as real);
    if q.num >= 0 {
        assert(x / y >= 0real) by (nonlinear_arith)
            requires
                x >= 0real,
                y > 0real,
        ;
    } else {
        assert(x / y < 0real) by (nonlinear_arith)
            requires
                x < 0real,
                y > 0real,
        ;
    }
    if q.num > 0 {
        assert(x / y > 0real) by (nonlinear_arith)
            requires
                x > 0real,
                y > 0real,
        ;
    } else {
        assert(x / y <= 0real) by (nonlinear_arith)
            requires
                x <= 0real,
                y > 0real,
        ;
    }
}

} // verus!
