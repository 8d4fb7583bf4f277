//! The bound on the tail of Bellard's series: past the terms whose fractions wrap,
//! the terms alternate in sign and shrink by a factor of at least 1024, so every
//! later partial sum lies between a partial sum and that sum moved by 1/1024 of its
//! last term.

use crate::model::series::{
    byte_certified, byte_of_hull, in_tail_hull, lemma_partial_sum_wf, lemma_term_wf, partial_sum,
};
use crate::model::{bellard_term_exact, bit_length, frac_pow2_div, term_wraps};
use crate::rational::{
    lemma_add_wf, lemma_cast_mul, lemma_pw_add, lemma_pw_pos, lemma_scale2_wf, lemma_val_add,
    lemma_val_le, lemma_val_of_int, lemma_val_scale2, pw, val, Rat,
};
use vstd::arithmetic::power2::{lemma_pow2_pos, lemma_pow2_strictly_increases, pow2};
use vstd::prelude::*;

verus! {

/// `c / d` as a real number.
pub open spec fn ratio(c: int, d: nat) -> real {
    c as real / d as real
}

/// The bracket of term `n` of Bellard's formula: `-32/(4n+1) - 1/(4n+3) +
/// 256/(10n+1) - 64/(10n+3) - 4/(10n+5) - 4/(10n+7) + 1/(10n+9)`.
pub open spec fn bracket(n: nat) -> real {
    -ratio(32, 4 * n + 1) - ratio(1, 4 * n + 3) + ratio(256, 10 * n + 1) - ratio(64, 10 * n + 3)
        - ratio(4, 10 * n + 5) - ratio(4, 10 * n + 7) + ratio(1, 10 * n + 9)
}

/// `c / (x y)` for positive `x`, `y`.
proof fn lemma_piece(c: real, x: real, y: real, x2: real, y2: real)
    requires
        c > 0real,
        0real < x <= x2,
        0real < y <= y2,
    ensures
        c / (x * y) > 0real,
        c / (x2 * y2) <= c / (x * y),
{
    assert(c / (x * y) > 0real && c / (x2 * y2) <= c / (x * y)) by (nonlinear_arith)
        requires
            c > 0real,
            0real < x <= x2,
            0real < y <= y2,
    ;
}

/// The bracket as a sum of seven pieces, each positive and not growing with `n`.
pub open spec fn bracket_pieces(n: nat) -> real {
    let r = n as real;
    let (d1, d2, d3, d4, d5, d6, d7) = (
        4real * r + 1real,
        4real * r + 3real,
        10real * r + 1real,
        10real * r + 3real,
        10real * r + 5real,
        10real * r + 7real,
        10real * r + 9real,
    );
    128real / (d3 * d4) + 16real / (d3 * d5) + 24real / (d3 * d6) + 552real / (5real * d3 * d1)
        + 203real / (5real * d1 * 1real) + 2real / (d1 * d2) + 1real / (d7 * 1real)
}

proof fn lemma_bracket_pieces(n: nat)
    ensures
        bracket(n) == bracket_pieces(n),
{
    let r = n as real;
    let (d1, d2, d3, d4, d5, d6, d7) = (
        4real * r + 1real,
        4real * r + 3real,
        10real * r + 1real,
        10real * r + 3real,
        10real * r + 5real,
        10real * r + 7real,
        10real * r + 9real,
    );
    assert((4 * n + 1) as real == d1 && (4 * n + 3) as real == d2 && (10 * n + 1) as real == d3
        && (10 * n + 3) as real == d4 && (10 * n + 5) as real == d5 && (10 * n + 7) as real == d6
        && (10 * n + 9) as real == d7);
    assert(256real / d3 == 64real / d3 + 4real / d3 + 4real / d3 + 184real / d3) by (nonlinear_arith)
        requires
            d3 > 0real,
    ;
    assert(64real / d3 - 64real / d4 == 128real / (d3 * d4)) by (nonlinear_arith)
        requires
            d3 > 0real,
            d4 == d3 + 2real,
    ;
    assert(4real / d3 - 4real / d5 == 16real / (d3 * d5)) by (nonlinear_arith)
        requires
            d3 > 0real,
            d5 == d3 + 4real,
    ;
    assert(4real / d3 - 4real / d6 == 24real / (d3 * d6)) by (nonlinear_arith)
        requires
            d3 > 0real,
            d6 == d3 + 6real,
    ;
    assert(184real / d3 - 32real / d1 == 208real / (5real * d1 * 1real) + 552real / (5real * d3
        * d1)) by (nonlinear_arith)
        requires
            d1 > 0real,
            d3 > 0real,
            2real * d3 == 5real * d1 - 3real,
    ;
    assert(208real / (5real * d1 * 1real) - 1real / d2 == 203real / (5real * d1 * 1real) + 2real
        / (d1 * d2)) by (nonlinear_arith)
        requires
            d1 > 0real,
            d2 == d1 + 2real,
    ;
    assert(1real / d7 == 1real / (d7 * 1real)) by (nonlinear_arith)
        requires
            d7 > 0real,
    ;
}

/// The bracket is positive and does not grow with `n`.
pub proof fn lemma_bracket_decreasing(n: nat)
    ensures
        bracket(n) > 0real,
        bracket(n + 1) <= bracket(n),
{
    lemma_bracket_pieces(n);
    lemma_bracket_pieces(n + 1);
    let r = n as real;
    let r2 = (n + 1) as nat as real;
    assert(r2 == r + 1real);
    let (d1, d2, d3, d4, d5, d6, d7) = (
        4real * r + 1real,
        4real * r + 3real,
        10real * r + 1real,
        10real * r + 3real,
        10real * r + 5real,
        10real * r + 7real,
        10real * r + 9real,
    );
    let (e1, e2, e3, e4, e5, e6, e7) = (
        4real * r2 + 1real,
        4real * r2 + 3real,
        10real * r2 + 1real,
        10real * r2 + 3real,
        10real * r2 + 5real,
        10real * r2 + 7real,
        10real * r2 + 9real,
    );
    assert(r >= 0real);
    lemma_piece(128real, d3, d4, e3, e4);
    lemma_piece(16real, d3, d5, e3, e5);
    lemma_piece(24real, d3, d6, e3, e6);
    lemma_piece(552real, 5real * d3, d1, 5real * e3, e1);
    lemma_piece(203real, 5real * d1, 1real, 5real * e1, 1real);
    lemma_piece(2real, d1, d2, e1, e2);
    lemma_piece(1real, d7, 1real, e7, 1real);
}

/// The size of term `n` at offset `off` past the wrapping fractions: `2^e` times the
/// bracket, with `e = off - 5 - 10n`.
pub open spec fn term_size(n: nat, off: int) -> real {
    pw(off - 5 - 10 * n) * bracket(n)
}

/// `2^(bit_length(x) - 1) <= x` for `x >= 1`.
pub proof fn lemma_bit_length_bound(x: nat)
    requires
        x >= 1,
    ensures
        bit_length(x) >= 1,
        pow2((bit_length(x) - 1) as nat) <= x,
    decreases x,
{
    if x == 1 {
        assert(bit_length(0) == 0);
        vstd::arithmetic::power2::lemma2_to64();
    } else {
        lemma_bit_length_bound(x / 2);
        vstd::arithmetic::power2::lemma_pow2_unfold((bit_length(x) - 1) as nat);
    }
}

/// `bit_length` does not shrink as its argument grows.
pub proof fn lemma_bit_length_mono(x: nat, y: nat)
    requires
        x <= y,
    ensures
        bit_length(x) <= bit_length(y),
    decreases y,
{
    if x > 0 {
        lemma_bit_length_mono(x / 2, y / 2);
    }
}

/// A term that does not wrap is followed by terms that do not either.
pub proof fn lemma_no_wrap_later(n: nat, m: nat, off: int)
    requires
        n <= m,
        !term_wraps(n, off),
    ensures
        !term_wraps(m, off),
{
    lemma_bit_length_mono(10 * n + 1, 10 * m + 1);
}

/// The value of a fraction `2^(e+s) / d` that does not wrap: `2^e * 2^s / d`.
proof fn lemma_frac_value(e: int, s: nat, d: nat)
    requires
        d >= 1,
        e + s >= 0 ==> pow2((e + s) as nat) < d,
    ensures
        val(frac_pow2_div(e + s, d)) == pw(e) * ratio(pow2(s) as int, d),
{
    lemma_pw_add(e, s as int);
    let x = d as real;
    let ps = pow2(s) as real;
    assert(pw(s as int) == ps);
    if e + s >= 0 {
        vstd::arithmetic::div_mod::lemma_small_mod(pow2((e + s) as nat), d);
        assert(val(frac_pow2_div(e + s, d)) == pw(e + s) / x);
    } else {
        let q = pow2((-(e + s)) as nat);
        lemma_pow2_pos((-(e + s)) as nat);
        lemma_cast_mul(d as int, q as int);
        let qr = q as real;
        assert(val(frac_pow2_div(e + s, d)) == 1real / (x * qr));
        assert(1real / (x * qr) == (1real / qr) / x) by (nonlinear_arith)
            requires
                x > 0real,
                qr > 0real,
        ;
    }
    let pe = pw(e);
    assert((pe * ps) / x == pe * (ps / x)) by (nonlinear_arith)
        requires
            x > 0real,
    ;
}

/// Where the largest fraction of term `n` does not wrap, `2^(e+s)` is below each
/// denominator.
proof fn lemma_small_power(e: int, s: nat, k: nat, n: nat)
    requires
        s + k == 8,
        e + s >= 0,
        e + 8 < bit_length(10 * n + 1) - 1,
    ensures
        pow2((e + s) as nat) * pow2(k) < 10 * n + 1,
{
    lemma_bit_length_bound(10 * n + 1);
    vstd::arithmetic::power2::lemma_pow2_adds((e + s) as nat, k);
    lemma_pow2_strictly_increases((e + 8) as nat, (bit_length(10 * n + 1) - 1) as nat);
}

/// Past the wrapping fractions, term `n` is `(-1)^n` times its size.
pub proof fn lemma_term_value(n: nat, off: int)
    requires
        !term_wraps(n, off),
    ensures
        val(bellard_term_exact(n, off)) == (if n % 2 == 1 {
            -term_size(n, off)
        } else {
            term_size(n, off)
        }),
{
    let e = off - 5 - 10 * n;
    vstd::arithmetic::power2::lemma2_to64();
    if e + 5 >= 0 {
        lemma_small_power(e, 5, 3, n);
    }
    if e >= 0 {
        lemma_small_power(e, 0, 8, n);
    }
    if e + 8 >= 0 {
        lemma_small_power(e, 8, 0, n);
    }
    if e + 6 >= 0 {
        lemma_small_power(e, 6, 2, n);
    }
    if e + 2 >= 0 {
        lemma_small_power(e, 2, 6, n);
    }
    lemma_frac_value(e, 5, 4 * n + 1);
    lemma_frac_value(e, 0, 4 * n + 3);
    lemma_frac_value(e, 8, 10 * n + 1);
    lemma_frac_value(e, 6, 10 * n + 3);
    lemma_frac_value(e, 2, 10 * n + 5);
    lemma_frac_value(e, 2, 10 * n + 7);
    lemma_frac_value(e, 0, 10 * n + 9);
    let f1 = frac_pow2_div(e + 5, 4 * n + 1);
    let f2 = frac_pow2_div(e, 4 * n + 3);
    let f3 = frac_pow2_div(e + 8, 10 * n + 1);
    let f4 = frac_pow2_div(e + 6, 10 * n + 3);
    let f5 = frac_pow2_div(e + 2, 10 * n + 5);
    let f6 = frac_pow2_div(e + 2, 10 * n + 7);
    let f7 = frac_pow2_div(e, 10 * n + 9);
    crate::model::series::lemma_frac_wf(e + 5, 4 * n + 1);
    crate::model::series::lemma_frac_wf(e, 4 * n + 3);
    crate::model::series::lemma_frac_wf(e + 8, 10 * n + 1);
    crate::model::series::lemma_frac_wf(e + 6, 10 * n + 3);
    crate::model::series::lemma_frac_wf(e + 2, 10 * n + 5);
    crate::model::series::lemma_frac_wf(e + 2, 10 * n + 7);
    crate::model::series::lemma_frac_wf(e, 10 * n + 9);
    crate::model::series::lemma_combo_wf(f1, f2, f3, f4, f5, f6, f7);
    lemma_val_add(f1, f1);
    lemma_val_add(f1.neg(), f2);
    lemma_val_add(f1.neg().sub(f2), f3);
    lemma_val_add(f1.neg().sub(f2).add(f3), f4);
    lemma_val_add(f1.neg().sub(f2).add(f3).sub(f4), f5);
    lemma_val_add(f1.neg().sub(f2).add(f3).sub(f4).sub(f5), f6);
    lemma_val_add(f1.neg().sub(f2).add(f3).sub(f4).sub(f5).sub(f6), f7);
    let c = crate::model::series::bellard_combo(f1, f2, f3, f4, f5, f6, f7);
    let pe = pw(e);
    let (r1, r2, r3, r4, r5, r6, r7) = (
        ratio(32, 4 * n + 1),
        ratio(1, 4 * n + 3),
        ratio(256, 10 * n + 1),
        ratio(64, 10 * n + 3),
        ratio(4, 10 * n + 5),
        ratio(4, 10 * n + 7),
        ratio(1, 10 * n + 9),
    );
    assert(val(c) == -(pe * r1) - pe * r2 + pe * r3 - pe * r4 - pe * r5 - pe * r6 + pe * r7);
    assert(-(pe * r1) - pe * r2 + pe * r3 - pe * r4 - pe * r5 - pe * r6 + pe * r7 == pe * (-r1 - r2
        + r3 - r4 - r5 - r6 + r7)) by (nonlinear_arith);
    assert(val(c) == term_size(n, off));
    if n % 2 == 1 {
        lemma_val_add(c, c);
    }
}

/// Each term is positive in size and at least 1024 times the size of the next.
pub proof fn lemma_size(n: nat, off: int)
    ensures
        term_size(n, off) > 0real,
        1024real * term_size(n + 1, off) <= term_size(n, off),
{
    let e = off - 5 - 10 * n;
    lemma_bracket_decreasing(n);
    lemma_pw_pos(e);
    lemma_pw_pos(e - 10);
    lemma_pw_add(e - 10, 10);
    vstd::arithmetic::power2::lemma2_to64();
    assert(pw(10) == 1024real);
    assert(off - 5 - 10 * (n + 1) == e - 10);
    let (p, q, b, b2) = (pw(e), pw(e - 10), bracket(n), bracket(n + 1));
    assert(p * b > 0real && 1024real * (q * b2) <= p * b) by (nonlinear_arith)
        requires
            p > 0real,
            b > 0real,
            b2 <= b,
            p == q * 1024real,
    ;
}

/// `(-1)^n` as a real number.
pub open spec fn sgn(n: int) -> real {
    if n % 2 == 0 {
        1real
    } else {
        -1real
    }
}

/// The alternating series past the wrapping terms: the partial sums from `c` on,
/// signed by `(-1)^c`, stay between zero and the size of term `c`, swinging down to
/// within the next term's size of zero and up to within it of the top.
proof fn lemma_alternating(off: int, c: nat, m: nat)
    requires
        c >= 1,
        m >= c,
        !term_wraps((c - 1) as nat, off),
    ensures
        ({
            let u = sgn(c as int) * (val(partial_sum(m, off)) - val(partial_sum(c, off)));
            &&& (m - c) % 2 == 0 ==> 0real <= u && u + term_size(m, off) <= term_size(c, off)
            &&& (m - c) % 2 == 1 ==> term_size(m, off) <= u && u <= term_size(c, off)
        }),
    decreases m - c,
{
    lemma_size(m, off);
    if m > c {
        let k = (m - 1) as nat;
        lemma_alternating(off, c, k);
        lemma_no_wrap_later((c - 1) as nat, k, off);
        lemma_term_value(k, off);
        lemma_size(k, off);
        lemma_partial_sum_wf(k, off);
        lemma_term_wf(k, off);
        lemma_val_add(partial_sum(k, off), bellard_term_exact(k, off));
        assert(val(partial_sum(m, off)) == val(partial_sum(k, off)) + val(bellard_term_exact(k, off)));
        let (pm, pk, pc, tk) = (
            val(partial_sum(m, off)),
            val(partial_sum(k, off)),
            val(partial_sum(c, off)),
            val(bellard_term_exact(k, off)),
        );
        let (sm, sk, sc) = (term_size(m, off), term_size(k, off), term_size(c, off));
        assert(sm <= sk);
        if c % 2 == 0 {
            assert(sgn(c as int) == 1real);
            if k % 2 == 0 {
                assert(tk == sk);
            } else {
                assert(tk == -sk);
            }
            assert(1real * (pm - pc) == pm - pc);
            assert(1real * (pk - pc) == pk - pc);
        } else {
            assert(sgn(c as int) == -1real);
            if k % 2 == 0 {
                assert(tk == sk);
            } else {
                assert(tk == -sk);
            }
            assert(-1real * (pm - pc) == pc - pm);
            assert(-1real * (pk - pc) == pc - pk);
        }
    } else {
        let pc = val(partial_sum(c, off));
        assert(sgn(c as int) * (pc - pc) == 0real) by (nonlinear_arith);
    }
}

/// The tail bound of Bellard's series: past the wrapping terms, every later partial
/// sum lies in the tail hull of `c` terms, between the sum of the first `c` terms and
/// that sum moved by 1/1024 of the last of them against its sign.
pub proof fn lemma_tail_bound(off: int, c: nat, m: nat)
    requires
        c >= 1,
        m >= c,
        !term_wraps((c - 1) as nat, off),
    ensures
        in_tail_hull(partial_sum(m, off), c, off),
{
    let k = (c - 1) as nat;
    lemma_alternating(off, c, m);
    lemma_size(m, off);
    lemma_size(k, off);
    lemma_term_value(k, off);
    let x = partial_sum(m, off);
    let pc = partial_sum(c, off);
    let t = bellard_term_exact(k, off);
    lemma_partial_sum_wf(m, off);
    lemma_partial_sum_wf(c, off);
    lemma_term_wf(k, off);
    lemma_add_wf(x, pc);
    lemma_scale2_wf(x.sub(pc), 10);
    lemma_val_add(x, pc);
    lemma_val_add(t, t);
    lemma_val_scale2(x.sub(pc), 10);
    vstd::arithmetic::power2::lemma2_to64();
    assert(pw(10) == 1024real);
    let d = x.sub(pc).scale2(10);
    let zero = Rat::of_int(0);
    lemma_val_of_int(0);
    lemma_val_le(zero, d);
    lemma_val_le(d, t.neg());
    lemma_val_le(t.neg(), d);
    lemma_val_le(d, zero);
    assert(c == k + 1);
    let u = sgn(c as int) * (val(x) - val(pc));
    assert(val(d) == (val(x) - val(pc)) * 1024real);
    if c % 2 == 0 {
        assert(val(x) - val(pc) == u);
        assert(val(t.neg()) == term_size(k, off));
        assert(0real <= val(d) && val(d) <= val(t.neg()));
    } else {
        assert(val(x) - val(pc) == -u);
        assert(val(t.neg()) == -term_size(k, off));
        assert(val(t.neg()) <= val(d) && val(d) <= 0real);
    }
}

/// Byte `k` after offset `off` is `b` in every partial sum of `count` terms or more.
pub open spec fn partial_sums_settle(off: int, k: nat, b: u8, count: nat) -> bool {
    forall|m: nat|
        m >= count ==> #[trigger] partial_sum(m, off).scale2(8 * (k + 1) as int).floor() % 256
            == b
}

/// A certified byte is the byte of every partial sum from some count of terms on:
/// the partial sums settle on it, so it is the byte of the sum of the whole series.
pub proof fn lemma_certified_byte_of_partial_sums(off: int, k: nat, b: u8)
    requires
        byte_certified(off, k, b),
    ensures
        exists|c: nat| #[trigger] partial_sums_settle(off, k, b, c),
{
    let c = choose|count: nat|
        count >= 1 && !term_wraps((count - 1) as nat, off) && #[trigger] byte_of_hull(
            off,
            count,
            k,
            b,
        );
    assert forall|m: nat| m >= c implies #[trigger] partial_sum(m, off).scale2(
        8 * (k + 1) as int,
    ).floor() % 256 == b by {
        lemma_tail_bound(off, c, m);
        lemma_partial_sum_wf(m, off);
    }
    assert(partial_sums_settle(off, k, b, c));
}

/// Two certified values of one byte agree: whatever count of terms and precision
/// certified them, they are the byte of the same later partial sums.
pub proof fn lemma_certified_bytes_agree(off: int, k: nat, b1: u8, b2: u8)
    requires
        byte_certified(off, k, b1),
        byte_certified(off, k, b2),
    ensures
        b1 == b2,
{
    let c1 = choose|count: nat|
        count >= 1 && !term_wraps((count - 1) as nat, off) && #[trigger] byte_of_hull(
            off,
            count,
            k,
            b1,
        );
    let c2 = choose|count: nat|
        count >= 1 && !term_wraps((count - 1) as nat, off) && #[trigger] byte_of_hull(
            off,
            count,
            k,
            b2,
        );
    let m = if c1 >= c2 {
        c1
    } else {
        c2
    };
    lemma_tail_bound(off, c1, m);
    lemma_tail_bound(off, c2, m);
    lemma_partial_sum_wf(m, off);
    assert(in_tail_hull(partial_sum(m, off), c1, off));
    assert(in_tail_hull(partial_sum(m, off), c2, off));
}

} // verus!
