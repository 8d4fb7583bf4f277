//! The loop that turns the terms of Bellard's formula into bytes of tau: terms are
//! added to an interval accumulator until a byte is certain, and each certain byte
//! is taken off before the next one is sought.

use crate::float::{
    fits_float_exponent, float_add_round, float_of_integer, float_sub_round, FloatVal, Round,
};
use crate::model::intervals::{
    add_bounds, maybe_bounds, shl_bounds, shr_bounds, sub_bounds, Interval,
};
use crate::model::series::{
    byte_certified, byte_of_hull, in_tail_hull, lemma_add_term, lemma_byte_of_floor,
    lemma_next_byte, lemma_partial_sum_wf, lemma_tail_point, lemma_term_exact_shift,
    lemma_term_wf, partial_sum,
};
use crate::model::{
    bellard_term, bellard_term_bounds, bellard_term_exact, bit_length, skips_convergence_check,
    term_wraps, MAX_TERMS,
};
use crate::numbers::{BigInt, BigNat};
use crate::rational::{differ_by, lemma_add_wf, lemma_scale2_wf, Rat};
use vstd::prelude::*;

verus! {

/// The plain state of a calculation: the bit offset of the next byte, the number of
/// terms added, the endpoints of the accumulator, the bytes found and whether it has
/// stopped.
pub struct RangeState {
    pub offset: int,
    pub n: nat,
    pub acc: (FloatVal, FloatVal),
    pub bytes: Seq<u8>,
    pub stopped: bool,
}

/// Both endpoints are finite.
pub open spec fn finite_bounds(b: (FloatVal, FloatVal)) -> bool {
    b.0.is_finite() && b.1.is_finite()
}

/// Both endpoints are finite and have the same floor.
pub open spec fn one_floor(b: (FloatVal, FloatVal)) -> bool {
    finite_bounds(b) && b.0.value().floor() == b.1.value().floor()
}

/// `b` less the integer `f` (as a float), shifted left by a byte.
pub open spec fn next_bounds(b: (FloatVal, FloatVal), f: int) -> (FloatVal, FloatVal) {
    shl_bounds(sub_bounds(b, (float_of_integer(f), float_of_integer(f))), 8)
}

/// Takes off every byte that the bounds `b` make certain, as one round of the
/// calculation does after it has added a term: returns the state and the bounds once
/// no further byte is certain, or the state stopped.
pub open spec fn take_bytes(s: RangeState, b: (FloatVal, FloatVal), max: Option<usize>) -> (
    RangeState,
    (FloatVal, FloatVal),
)
    decreases usize::MAX - s.bytes.len(),
{
    if !finite_bounds(b) || !one_floor(b) {
        (s, b)
    } else if s.bytes.len() >= usize::MAX {
        (RangeState { stopped: true, ..s }, b)
    } else {
        let f = b.0.value().floor();
        let bytes = s.bytes.push((f % 256) as u8);
        if (max matches Some(m) && bytes.len() >= m) || !fits_float_exponent(f) || !one_floor(
            s.acc,
        ) || !fits_float_exponent(s.acc.0.value().floor()) {
            (RangeState { bytes, stopped: true, ..s }, b)
        } else {
            let a = s.acc.0.value().floor();
            take_bytes(
                RangeState { offset: s.offset + 8, acc: next_bounds(s.acc, a), bytes, ..s },
                next_bounds(b, f),
                max,
            )
        }
    }
}

/// Whether more terms can still make a byte certain, given the accumulator and the
/// bounds on the series after the bytes were taken off: not where the accumulator
/// holds several integers, nor where it holds one that the bounds cannot leave.
pub open spec fn may_converge(acc: (FloatVal, FloatVal), b: (FloatVal, FloatVal)) -> bool {
    if !finite_bounds(acc) {
        false
    } else {
        let lo = acc.0.value().ceil();
        let hi = acc.1.value().floor();
        if lo != hi {
            hi - lo + 1 == 0
        } else {
            let w = float_sub_round(acc.1, acc.0, Round::Ceiling);
            let max_inf = float_sub_round(b.1, w, Round::Floor);
            let min_sup = float_add_round(b.0, w, Round::Ceiling);
            !(max_inf.le_rat(Rat::of_int(lo)) && min_sup.ge_rat(Rat::of_int(lo)))
        }
    }
}

/// One round of the calculation at `precision` with at most `max` bytes: the state
/// after `ByteRange::step`.
pub open spec fn step_state(s: RangeState, precision: u64, max: Option<usize>) -> RangeState {
    if s.n >= MAX_TERMS {
        RangeState { stopped: true, ..s }
    } else {
        let change = shl_bounds(bellard_term_bounds(s.n, s.offset, precision), 8);
        let acc = add_bounds(s.acc, change);
        let b = sub_bounds(acc, shr_bounds(maybe_bounds(change), 10));
        let s1 = RangeState { acc, n: s.n + 1, ..s };
        if term_wraps(s.n, s.offset) {
            s1
        } else {
            finish_round(take_bytes(s1, b, max))
        }
    }
}

/// The end of a round, once no further byte is certain: it stops unless more terms
/// may still make a byte certain.
pub open spec fn finish_round(t: (RangeState, (FloatVal, FloatVal))) -> RangeState {
    if t.0.stopped || may_converge(t.0.acc, t.1) {
        t.0
    } else {
        RangeState { stopped: true, ..t.0 }
    }
}

/// Taking bytes off keeps the number of terms.
pub proof fn lemma_take_bytes_terms(s: RangeState, b: (FloatVal, FloatVal), max: Option<usize>)
    ensures
        take_bytes(s, b, max).0.n == s.n,
    decreases usize::MAX - s.bytes.len(),
{
    if finite_bounds(b) && one_floor(b) && s.bytes.len() < usize::MAX {
        let f = b.0.value().floor();
        let bytes = s.bytes.push((f % 256) as u8);
        if !((max matches Some(m) && bytes.len() >= m) || !fits_float_exponent(f) || !one_floor(
            s.acc,
        ) || !fits_float_exponent(s.acc.0.value().floor())) {
            let a = s.acc.0.value().floor();
            lemma_take_bytes_terms(
                RangeState { offset: s.offset + 8, acc: next_bounds(s.acc, a), bytes, ..s },
                next_bounds(b, f),
                max,
            );
        }
    }
}

/// A round that does not stop adds one term.
pub proof fn lemma_step_adds_a_term(s: RangeState, precision: u64, max: Option<usize>)
    ensures
        !step_state(s, precision, max).stopped ==> s.n < MAX_TERMS && step_state(
            s,
            precision,
            max,
        ).n == s.n + 1,
{
    if s.n < MAX_TERMS {
        let change = shl_bounds(bellard_term_bounds(s.n, s.offset, precision), 8);
        let acc = add_bounds(s.acc, change);
        let b = sub_bounds(acc, shr_bounds(maybe_bounds(change), 10));
        let s1 = RangeState { acc, n: s.n + 1, ..s };
        lemma_take_bytes_terms(s1, b, max);
    }
}

/// The state in which a calculation stops, from state `s`: rounds until one stops.
pub open spec fn final_state(s: RangeState, precision: u64, max: Option<usize>) -> RangeState
    decreases MAX_TERMS - s.n,
{
    if s.stopped {
        s
    } else {
        let t = step_state(s, precision, max);
        if t.stopped || s.n >= MAX_TERMS {
            t
        } else {
            proof {
                lemma_step_adds_a_term(s, precision, max);
            }
            final_state(t, precision, max)
        }
    }
}

proof fn lemma_prefix_refl(a: Seq<u8>)
    ensures
        a.is_prefix_of(a),
{
    assert(a =~= a.subrange(0, a.len() as int));
}

proof fn lemma_prefix_trans(a: Seq<u8>, b: Seq<u8>, c: Seq<u8>)
    requires
        a.is_prefix_of(b),
        b.is_prefix_of(c),
    ensures
        a.is_prefix_of(c),
{
    assert forall|i: int| 0 <= i < a.len() implies a[i] == c.subrange(0, a.len() as int)[i] by {
        assert(a[i] == b.subrange(0, a.len() as int)[i]);
        assert(b[i] == c.subrange(0, b.len() as int)[i]);
    }
    assert(a =~= c.subrange(0, a.len() as int));
}

/// Taking bytes off only adds bytes.
proof fn lemma_take_bytes_grows(s: RangeState, b: (FloatVal, FloatVal), max: Option<usize>)
    ensures
        s.bytes.is_prefix_of(take_bytes(s, b, max).0.bytes),
    decreases usize::MAX - s.bytes.len(),
{
    lemma_prefix_refl(s.bytes);
    if finite_bounds(b) && one_floor(b) && s.bytes.len() < usize::MAX {
        let f = b.0.value().floor();
        let bytes = s.bytes.push((f % 256) as u8);
        assert(s.bytes =~= bytes.subrange(0, s.bytes.len() as int));
        if !((max matches Some(m) && bytes.len() >= m) || !fits_float_exponent(f) || !one_floor(
            s.acc,
        ) || !fits_float_exponent(s.acc.0.value().floor())) {
            let a = s.acc.0.value().floor();
            let s2 = RangeState { offset: s.offset + 8, acc: next_bounds(s.acc, a), bytes, ..s };
            lemma_take_bytes_grows(s2, next_bounds(b, f), max);
            lemma_prefix_trans(s.bytes, bytes, take_bytes(s2, next_bounds(b, f), max).0.bytes);
        }
    }
}

/// A round only adds bytes.
proof fn lemma_step_grows(s: RangeState, precision: u64, max: Option<usize>)
    ensures
        s.bytes.is_prefix_of(step_state(s, precision, max).bytes),
{
    lemma_prefix_refl(s.bytes);
    if s.n < MAX_TERMS {
        let change = shl_bounds(bellard_term_bounds(s.n, s.offset, precision), 8);
        let acc = add_bounds(s.acc, change);
        let b = sub_bounds(acc, shr_bounds(maybe_bounds(change), 10));
        let s1 = RangeState { acc, n: s.n + 1, ..s };
        lemma_take_bytes_grows(s1, b, max);
    }
}

/// A calculation only adds bytes to those of the state it starts from.
proof fn lemma_final_grows(s: RangeState, precision: u64, max: Option<usize>)
    ensures
        s.bytes.is_prefix_of(final_state(s, precision, max).bytes),
    decreases MAX_TERMS - s.n,
{
    lemma_prefix_refl(s.bytes);
    if !s.stopped {
        let t = step_state(s, precision, max);
        lemma_step_grows(s, precision, max);
        if !(t.stopped || s.n >= MAX_TERMS) {
            lemma_step_adds_a_term(s, precision, max);
            lemma_final_grows(t, precision, max);
            lemma_prefix_trans(s.bytes, t.bytes, final_state(t, precision, max).bytes);
        }
    }
}

/// How a calculation with at most `m` bytes, in state `t1`, stands to the same
/// calculation without a maximum, in state `t2`: in the same state, with fewer than
/// `m` bytes unless it has stopped; or stopped at exactly `m` bytes, the first of those
/// of the other.
pub open spec fn runs_agree(t1: RangeState, t2: RangeState, m: usize) -> bool {
    (t1 == t2 && t1.bytes.len() <= m && (!t1.stopped ==> t1.bytes.len() < m)) || (t1.stopped
        && t1.bytes.len() == m && t1.bytes.is_prefix_of(t2.bytes))
}

/// With a maximum, taking bytes off goes as without one until the maximum stops it.
proof fn lemma_take_bytes_max(s: RangeState, b: (FloatVal, FloatVal), m: usize)
    requires
        s.bytes.len() < m,
    ensures
        runs_agree(take_bytes(s, b, Some(m)).0, take_bytes(s, b, None).0, m),
        !take_bytes(s, b, Some(m)).0.stopped ==> take_bytes(s, b, Some(m)) == take_bytes(
            s,
            b,
            None,
        ),
    decreases usize::MAX - s.bytes.len(),
{
    if finite_bounds(b) && one_floor(b) && s.bytes.len() < usize::MAX {
        let f = b.0.value().floor();
        let bytes = s.bytes.push((f % 256) as u8);
        let other_stop = !fits_float_exponent(f) || !one_floor(s.acc) || !fits_float_exponent(
            s.acc.0.value().floor(),
        );
        let a = s.acc.0.value().floor();
        let s2 = RangeState { offset: s.offset + 8, acc: next_bounds(s.acc, a), bytes, ..s };
        if bytes.len() >= m {
            lemma_take_bytes_grows(s2, next_bounds(b, f), None);
            lemma_prefix_refl(bytes);
        } else if other_stop {
        } else {
            lemma_take_bytes_max(s2, next_bounds(b, f), m);
        }
    }
}

/// With a maximum, a round goes as without one until the maximum stops it.
proof fn lemma_step_max(s: RangeState, precision: u64, m: usize)
    requires
        s.bytes.len() < m,
    ensures
        runs_agree(step_state(s, precision, Some(m)), step_state(s, precision, None), m),
{
    if s.n < MAX_TERMS {
        let change = shl_bounds(bellard_term_bounds(s.n, s.offset, precision), 8);
        let acc = add_bounds(s.acc, change);
        let b = sub_bounds(acc, shr_bounds(maybe_bounds(change), 10));
        let s1 = RangeState { acc, n: s.n + 1, ..s };
        lemma_take_bytes_max(s1, b, m);
    }
}

/// A calculation with a maximum batch size `m` gives the first `m` bytes of those that
/// the same calculation gives without one, or all of them where there are fewer:
/// without a maximum it takes every byte that the one with a maximum takes, and
/// carries on until no further byte can settle.
pub proof fn lemma_unbounded_run_extends(s: RangeState, precision: u64, m: usize)
    requires
        s.bytes.len() < m,
    ensures
        final_state(s, precision, Some(m)).bytes.is_prefix_of(final_state(s, precision, None).bytes),
        final_state(s, precision, Some(m)).bytes.len() == m || final_state(
            s,
            precision,
            Some(m),
        ).bytes == final_state(s, precision, None).bytes,
        final_state(s, precision, Some(m)).bytes.len() <= m,
    decreases MAX_TERMS - s.n,
{
    lemma_prefix_refl(s.bytes);
    if !s.stopped {
        let t1 = step_state(s, precision, Some(m));
        let t2 = step_state(s, precision, None);
        lemma_step_max(s, precision, m);
        if t1 == t2 {
            lemma_prefix_refl(t1.bytes);
            if !(t1.stopped || s.n >= MAX_TERMS) {
                lemma_step_adds_a_term(s, precision, Some(m));
                lemma_unbounded_run_extends(t1, precision, m);
            }
        } else if !(t2.stopped || s.n >= MAX_TERMS) {
            lemma_step_adds_a_term(s, precision, None);
            lemma_final_grows(t2, precision, None);
            lemma_prefix_trans(t1.bytes, t2.bytes, final_state(t2, precision, None).bytes);
        }
    }
}

/// What a calculation that stopped in state `s` returns: its bytes, as `Ok` where
/// there are at least `min_batch_size` of them or the maximum was reached.
pub open spec fn range_result(s: RangeState, min_batch_size: usize, max: Option<usize>) -> (bool, Seq<u8>) {
    (s.bytes.len() >= min_batch_size || max == Some(s.bytes.len() as usize), s.bytes)
}

/// The number of bits in each step of the calculation: one byte.
pub const BITS: i64 = 8;

/// The state of a calculation of a run of bytes of tau.
pub struct ByteRange {
    offset: BigInt,
    precision: u64,
    max_batch_size: Option<usize>,
    n: u64,
    acc: Interval,
    bytes: Vec<u8>,
    stopped: bool,
    first_offset: Ghost<int>,
    sound: Ghost<bool>,
    exact: Ghost<Rat>,
    carry: Ghost<int>,
}

/// `w` is a point of `bounds` that stands for the number `x` of a tail hull when `k`
/// bytes have been taken off: it is `x * 2^(8(k+1))` up to a multiple of 256.
pub open spec fn hull_witness(bounds: Interval, x: Rat, k: nat, w: Rat, z: int) -> bool {
    &&& w.wf()
    &&& bounds.contains_rat(w)
    &&& differ_by(w, x.scale2(8 * (k + 1) as int), 256 * z)
}

/// Every number of the tail hull of `count` terms has a point in `bounds`.
pub open spec fn encloses_hull(bounds: Interval, first: int, count: nat, k: nat) -> bool {
    forall|x: Rat|
        x.wf() && #[trigger] in_tail_hull(x, count, first) ==> exists|w: Rat, z: int|
            #[trigger] hull_witness(bounds, x, k, w, z)
}

/// Where the bounds enclose the tail hull and have a single integer part, the byte
/// is certain.
proof fn lemma_certify(bounds: Interval, first: int, count: nat, k: nat, f: int, byte: u8)
    requires
        count >= 1,
        !term_wraps((count - 1) as nat, first),
        encloses_hull(bounds, first, count, k),
        forall|w: Rat| w.wf() && #[trigger] bounds.contains_rat(w) ==> w.floor() == f,
        byte == f % 256,
    ensures
        byte_certified(first, k, byte),
{
    assert forall|x: Rat| x.wf() && #[trigger] in_tail_hull(x, count, first) implies x.scale2(
        8 * (k + 1) as int,
    ).floor() % 256 == byte by {
        let (w, z) = choose|w: Rat, z: int| #[trigger] hull_witness(bounds, x, k, w, z);
        assert(bounds.contains_rat(w));
        lemma_byte_of_floor(w, x, 8 * (k + 1) as int, z, f);
    }
    assert(byte_of_hull(first, count, k, byte));
}

/// The bounds formed after a term is added enclose the tail hull: the running value
/// less up to 1/1024 of the last term.
proof fn lemma_enclose_after_term(
    first: int,
    k: nat,
    n: nat,
    a2: Rat,
    z2: int,
    c: Rat,
    change: Interval,
    tail_src: Interval,
    tail: Interval,
    acc: Interval,
    bounds: Interval,
)
    requires
        a2.wf(),
        c.wf(),
        acc.contains_rat(a2),
        change.contains_rat(c),
        differ_by(a2, partial_sum(n + 1, first).scale2(8 * (k + 1) as int), 256 * z2),
        c.eqv(bellard_term_exact(n, first).scale2(8 * (k + 1) as int)),
        forall|x: Rat, y: Rat|
            #![trigger change.contains_rat(x), tail_src.contains_rat(y)]
            x.wf() && y.wf() && change.contains_rat(x) && (Rat::of_int(0).le(y) && y.le(x) || x.le(y)
                && y.le(Rat::of_int(0))) ==> tail_src.contains_rat(y),
        forall|x: Rat| x.wf() && #[trigger] tail_src.contains_rat(x) ==> tail.contains_rat(x.scale2(-10)),
        forall|x: Rat, y: Rat|
            x.wf() && y.wf() && acc.contains_rat(x) && tail.contains_rat(y) ==> #[trigger] bounds.contains_rat(
                x.sub(y),
            ),
    ensures
        encloses_hull(bounds, first, n + 1, k),
{
    assert forall|x: Rat| x.wf() && #[trigger] in_tail_hull(x, n + 1, first) implies exists|w: Rat, z: int|
        #[trigger] hull_witness(bounds, x, k, w, z) by {
        let y = lemma_tail_point(first, k, n, a2, z2, c, x);
        assert(tail_src.contains_rat(y));
        lemma_scale2_wf(y, -10);
        assert(tail.contains_rat(y.scale2(-10)));
        let w = a2.sub(y.scale2(-10));
        assert(bounds.contains_rat(w));
        lemma_add_wf(a2, y.scale2(-10));
        assert(hull_witness(bounds, x, k, w, z2));
    }
}

/// Taking the integer part `f` off the bounds and multiplying by 256 gives bounds
/// that enclose the tail hull for the next byte.
proof fn lemma_enclose_next(
    first: int,
    count: nat,
    k: nat,
    bounds: Interval,
    f: int,
    fi: Interval,
    diff: Interval,
    next: Interval,
)
    requires
        encloses_hull(bounds, first, count, k),
        fi.contains_rat(Rat::of_int(f)),
        forall|x: Rat, y: Rat|
            x.wf() && y.wf() && bounds.contains_rat(x) && fi.contains_rat(y) ==> #[trigger] diff.contains_rat(
                x.sub(y),
            ),
        forall|x: Rat| x.wf() && #[trigger] diff.contains_rat(x) ==> next.contains_rat(x.scale2(8)),
    ensures
        encloses_hull(next, first, count, k + 1),
{
    assert forall|x: Rat| x.wf() && #[trigger] in_tail_hull(x, count, first) implies exists|w: Rat, z: int|
        #[trigger] hull_witness(next, x, k + 1, w, z) by {
        let (w, z) = choose|w: Rat, z: int| #[trigger] hull_witness(bounds, x, k, w, z);
        assert(diff.contains_rat(w.sub(Rat::of_int(f))));
        lemma_next_byte(w, x, 8 * (k + 1) as int, z, f);
        let w2 = w.sub(Rat::of_int(f)).scale2(8);
        lemma_scale2_wf(w.sub(Rat::of_int(f)), 8);
        assert(next.contains_rat(w2));
        assert(8 * (k + 1) as int + 8 == 8 * (k + 1 + 1) as int);
        assert(hull_witness(next, x, k + 1, w2, 256 * z - f));
    }
}

impl ByteRange {
    /// The bytes found so far.
    pub closed spec fn found(&self) -> Seq<u8> {
        self.bytes@
    }

    /// The number of terms added so far.
    pub closed spec fn terms(&self) -> nat {
        self.n as nat
    }

    /// `8 * start - 8`: the bit offset of the first byte sought.
    pub closed spec fn start_offset(&self) -> int {
        self.first_offset@
    }

    /// The calculation started from an accumulator that encloses the sum of the
    /// terms it stands for.
    pub closed spec fn is_sound(&self) -> bool {
        self.sound@
    }

    pub closed spec fn is_stopped(&self) -> bool {
        self.stopped
    }

    pub closed spec fn max_batch(&self) -> Option<usize> {
        self.max_batch_size
    }

    /// The precision the terms are calculated at.
    pub closed spec fn precision_bits(&self) -> u64 {
        self.precision
    }

    /// The plain state of the calculation.
    pub closed spec fn state(&self) -> RangeState {
        RangeState {
            offset: self.offset@,
            n: self.n as nat,
            acc: self.acc.bounds(),
            bytes: self.bytes@,
            stopped: self.stopped,
        }
    }

    /// The invariant of the calculation.
    pub closed spec fn inv(&self) -> bool {
        let len = self.bytes@.len();
        &&& self.precision >= 2
        &&& self.acc.wf()
        &&& self.n <= MAX_TERMS
        &&& self.first_offset@ >= -8
        &&& !self.stopped ==> self.offset@ == self.first_offset@ + 8 * len
        &&& self.max_batch_size matches Some(m) ==> m > 0 && (len < m || (len == m && self.stopped))
        &&& self.sound@ && !self.stopped ==> {
            &&& self.exact@.wf()
            &&& self.acc.contains_rat(self.exact@)
            &&& differ_by(
                self.exact@,
                partial_sum(self.n as nat, self.first_offset@).scale2(8 * (len + 1) as int),
                256 * self.carry@,
            )
        }
        &&& self.sound@ ==> forall|j: int|
            0 <= j < len ==> #[trigger] byte_certified(self.first_offset@, j as nat, self.bytes@[j])
    }

    /// A calculation that starts at byte `start` (byte 0 is the integer part of tau)
    /// with `first_terms` terms already summed into `acc`.
    pub fn resume(
        start: &BigNat,
        precision: u64,
        max_batch_size: Option<usize>,
        first_terms: u64,
        acc: Interval,
    ) -> (r: ByteRange)
        requires
            precision >= 2,
            first_terms <= MAX_TERMS,
            max_batch_size matches Some(m) ==> m > 0,
            acc.wf(),
        ensures
            r.inv(),
            r.found().len() == 0,
            r.terms() == first_terms,
            r.terms() <= MAX_TERMS,
            r.start_offset() == 8 * start@ - 8,
            r.max_batch() == max_batch_size,
            !r.is_stopped(),
            r.is_sound() == acc.contains_rat(
                partial_sum(first_terms as nat, 8 * start@ - 8).scale2(8),
            ),
            r.precision_bits() == precision,
            r.state() == (RangeState {
                offset: 8 * start@ - 8,
                n: first_terms as nat,
                acc: acc.bounds(),
                bytes: Seq::empty(),
                stopped: false,
            }),
    {
        // the offset of the first byte, shifted down by one byte so that the value
        // of the series lies in [0, 256).
        let offset = BigInt::from_nat(start).mul_i64(8).add_i64(-BITS);
        let ghost first = 8 * start@ - 8;
        let ghost sum = partial_sum(first_terms as nat, first).scale2(8);
        let ghost sound = acc.contains_rat(sum);
        proof {
            lemma_partial_sum_wf(first_terms as nat, first);
            lemma_scale2_wf(partial_sum(first_terms as nat, first), 8);
            assert(differ_by(sum, sum, 0));
        }
        ByteRange {
            offset,
            precision,
            max_batch_size,
            n: first_terms,
            acc,
            bytes: Vec::new(),
            stopped: false,
            first_offset: Ghost(first),
            sound: Ghost(sound),
            exact: Ghost(sum),
            carry: Ghost(0),
        }
    }

    /// A calculation from the first term.
    pub fn new(start: &BigNat, precision: u64, max_batch_size: Option<usize>) -> (r: ByteRange)
        requires
            precision >= 2,
            max_batch_size matches Some(m) ==> m > 0,
        ensures
            r.inv(),
            r.found().len() == 0,
            r.terms() == 0,
            r.start_offset() == 8 * start@ - 8,
            r.max_batch() == max_batch_size,
            !r.is_stopped(),
            r.is_sound(),
            r.precision_bits() == precision,
            r.state() == (RangeState {
                offset: 8 * start@ - 8,
                n: 0,
                acc: (FloatVal::Zero { neg: false }, FloatVal::Zero { neg: false }),
                bytes: Seq::empty(),
                stopped: false,
            }),
    {
        let acc = Interval::zero();
        proof {
            let z = partial_sum(0, 8 * start@ - 8).scale2(8);
            assert(partial_sum(0, 8 * start@ - 8) == Rat::of_int(0));
            assert(z.num == 0 * vstd::arithmetic::power2::pow2(8));
            assert(acc.contains_rat(z));
        }
        ByteRange::resume(start, precision, max_batch_size, 0, acc)
    }

    pub fn terms_added(&self) -> (r: u64)
        ensures
            r == self.terms(),
    {
        self.n
    }

    pub fn is_done(&self) -> (r: bool)
        ensures
            r == self.is_stopped(),
    {
        self.stopped
    }

    /// The bytes found so far.
    pub fn bytes(&self) -> (r: &Vec<u8>)
        ensures
            r@ == self.found(),
    {
        &self.bytes
    }

    /// The result of a finished calculation: the bytes, as `Ok` where there are at
    /// least `min_batch_size` of them or the maximum was reached, else as `Err`.
    pub fn into_result(self, min_batch_size: usize) -> (r: Result<Vec<u8>, Vec<u8>>)
        ensures
            r matches Ok(b) ==> b@ == self.found() && (b@.len() >= min_batch_size
                || self.max_batch() == Some(b@.len() as usize)),
            r matches Err(b) ==> b@ == self.found() && b@.len() < min_batch_size
                && self.max_batch() != Some(b@.len() as usize),
    {
        let len = self.bytes.len();
        let reached_max = match self.max_batch_size {
            Some(m) => len == m,
            None => false,
        };
        if reached_max || len >= min_batch_size {
            Ok(self.bytes)
        } else {
            Err(self.bytes)
        }
    }

    /// One round of the calculation: adds the next term, takes off every byte that
    /// has become certain, and decides whether more terms can still help. Returns
    /// whether the calculation goes on. The calculation also stops where the
    /// accumulator loses a finite endpoint or its integer part, where an integer part
    /// is too large for a float, where the bytes would fill a `usize`, and after
    /// `MAX_TERMS` terms.
    pub fn step(&mut self) -> (running: bool)
        requires
            old(self).inv(),
            !old(self).is_stopped(),
        ensures
            final(self).inv(),
            final(self).found().len() >= old(self).found().len(),
            final(self).found().subrange(0, old(self).found().len() as int) == old(self).found(),
            final(self).start_offset() == old(self).start_offset(),
            final(self).is_sound() == old(self).is_sound(),
            final(self).max_batch() == old(self).max_batch(),
            running == !final(self).is_stopped(),
            running ==> final(self).terms() == old(self).terms() + 1,
            final(self).terms() <= MAX_TERMS,
            final(self).precision_bits() == old(self).precision_bits(),
            final(self).state() == step_state(
                old(self).state(),
                old(self).precision_bits(),
                old(self).max_batch(),
            ),
    {
        if self.n >= MAX_TERMS {
            self.stopped = true;
            return false;
        }
        let ghost first = self.first_offset@;
        let ghost k = self.bytes@.len();
        let ghost old_bytes = self.bytes@;
        let ghost n = self.n as nat;
        let ghost sound = self.sound@;
        let term = bellard_term(self.n, &self.offset, self.precision);
        // shift left by a byte to bring the term from [0, 1] into [0, 256].
        let change = term.shl(BITS);
        let new_acc = self.acc.add(&change);
        // an interval that contains the value of the whole series, by the bound on the
        // tail of an alternating series.
        let change_copy = change.copy();
        let tail_src = change_copy.maybe();
        let tail = tail_src.shr(10);
        let mut bounds = new_acc.sub(&tail);
        let skip = skips_convergence_check(self.n, &self.offset);
        let ghost s0 = self.state();
        let ghost max = self.max_batch_size;
        let ghost s1 = RangeState { acc: new_acc.bounds(), n: n + 1, ..s0 };
        let ghost b0 = bounds.bounds();
        proof {
            assert(change_copy.bounds() == change.bounds());
            assert(step_state(s0, self.precision, max) == (if skip {
                s1
            } else {
                finish_round(take_bytes(s1, b0, max))
            }));
        }
        let ghost c = bellard_term_exact(n, self.offset@).scale2(8);
        let ghost mut z2: int = 0;
        proof {
            lemma_term_wf(n, self.offset@);
            lemma_scale2_wf(bellard_term_exact(n, self.offset@), 8);
            assert(change.contains_rat(c));
            assert(change_copy.contains_rat(c));
            if sound {
                assert(self.offset@ == first + 8 * k);
                z2 = lemma_add_term(first, k, n, self.exact@, self.carry@);
                lemma_add_wf(self.exact@, c);
                assert(new_acc.contains_rat(self.exact@.add(c)));
            }
        }
        self.acc = new_acc;
        self.exact = Ghost(self.exact@.add(c));
        self.carry = Ghost(z2);
        self.n = self.n + 1;
        if skip {
            return true;
        }
        proof {
            if sound {
                // no fraction of this term wraps around, so it is the scaled summand.
                lemma_term_exact_shift(n, first, k, bit_length(10 * n + 1));
                lemma_term_wf(n, first);
                let t = bellard_term_exact(n, first);
                crate::rational::lemma_differ_by_scale2(
                    bellard_term_exact(n, first + 8 * k),
                    t.scale2(8 * k as int),
                    0,
                    8,
                );
                lemma_scale2_wf(t, 8 * k as int);
                crate::rational::lemma_scale2_scale2(t, 8 * k as int, 8);
                lemma_scale2_wf(t.scale2(8 * k as int), 8);
                lemma_scale2_wf(t, 8 * (k + 1) as int);
                assert(8 * k as int + 8 == 8 * (k + 1) as int);
                crate::model::series::lemma_differ_by_eqv_right(
                    c,
                    t.scale2(8 * k as int).scale2(8),
                    t.scale2(8 * (k + 1) as int),
                    0,
                );
                crate::rational::lemma_differ_by_zero(c, t.scale2(8 * (k + 1) as int));
                lemma_enclose_after_term(
                    first,
                    k,
                    n,
                    self.exact@,
                    z2,
                    c,
                    change_copy,
                    tail_src,
                    tail,
                    self.acc,
                    bounds,
                );
            }
        }
        // take off every byte that is certain.
        loop
            invariant
                old_bytes == old(self).bytes@,
                k == old(self).bytes@.len(),
                s0 == old(self).state(),
                !term_wraps(n, first),
                max == self.max_batch_size,
                step_state(s0, old(self).precision, max) == finish_round(take_bytes(s1, b0, max)),
                take_bytes(s1, b0, max) == take_bytes(self.state(), bounds.bounds(), max),
                self.precision == old(self).precision,
                self.max_batch_size == old(self).max_batch_size,
                self.first_offset == old(self).first_offset,
                self.sound == old(self).sound,
                !self.stopped,
                self.n == n + 1,
                self.n <= MAX_TERMS,
                self.precision >= 2,
                self.acc.wf(),
                bounds.wf(),
                first >= -8,
                first == self.first_offset@,
                sound == self.sound@,
                self.offset@ == first + 8 * self.bytes@.len(),
                self.bytes@.len() >= k,
                self.bytes@.subrange(0, k as int) == old_bytes,
                self.max_batch_size matches Some(m) ==> m > 0 && self.bytes@.len() < m,
                sound ==> {
                    &&& self.exact@.wf()
                    &&& self.acc.contains_rat(self.exact@)
                    &&& differ_by(
                        self.exact@,
                        partial_sum(n + 1, first).scale2(8 * (self.bytes@.len() + 1) as int),
                        256 * self.carry@,
                    )
                    &&& encloses_hull(bounds, first, n + 1, self.bytes@.len() as nat)
                    &&& forall|j: int|
                        0 <= j < self.bytes@.len() ==> #[trigger] byte_certified(
                            first,
                            j as nat,
                            self.bytes@[j],
                        )
                },
            ensures
                take_bytes(self.state(), bounds.bounds(), max) == (self.state(), bounds.bounds()),
            decreases usize::MAX - self.bytes@.len(),
        {
            if !bounds.bounded() {
                break;
            }
            let floor = match bounds.try_floor() {
                Some(f) => f,
                None => break,
            };
            if self.bytes.len() == usize::MAX {
                self.stopped = true;
                return false;
            }
            let byte = floor.low_byte();
            let ghost len = self.bytes@.len();
            proof {
                if sound {
                    lemma_certify(bounds, first, n + 1, len as nat, floor@, byte);
                }
            }
            self.bytes.push(byte);
            proof {
                assert(self.bytes@.subrange(0, k as int) == old_bytes);
                if sound {
                    assert forall|j: int| 0 <= j < self.bytes@.len() implies #[trigger] byte_certified(
                        first,
                        j as nat,
                        self.bytes@[j],
                    ) by {
                        if j < len {
                            assert(self.bytes@[j] == self.bytes@.drop_last()[j]);
                        }
                    }
                }
            }
            if let Some(max_bytes) = self.max_batch_size {
                if self.bytes.len() >= max_bytes {
                    self.stopped = true;
                    return false;
                }
            }
            // take the integer part off the bounds and multiply by 256 for the next byte.
            let floor_int = match Interval::from_integer(&floor) {
                Some(i) => i,
                None => {
                    self.stopped = true;
                    return false;
                },
            };
            let diff = bounds.sub(&floor_int);
            let next_bounds = diff.shl(BITS);
            proof {
                if sound {
                    lemma_enclose_next(first, n + 1, len as nat, bounds, floor@, floor_int, diff, next_bounds);
                }
            }
            bounds = next_bounds;
            // do the same for the accumulator.
            if !self.acc.bounded() {
                self.stopped = true;
                return false;
            }
            let acc_floor = match self.acc.try_floor() {
                Some(f) => f,
                None => {
                    self.stopped = true;
                    return false;
                },
            };
            let acc_floor_int = match Interval::from_integer(&acc_floor) {
                Some(i) => i,
                None => {
                    self.stopped = true;
                    return false;
                },
            };
            let acc_diff = self.acc.sub(&acc_floor_int);
            let next_acc = acc_diff.shl(BITS);
            let ghost next_exact = self.exact@.sub(Rat::of_int(acc_floor@)).scale2(8);
            let ghost next_carry = 256 * self.carry@ - acc_floor@;
            proof {
                if sound {
                    lemma_partial_sum_wf(n + 1, first);
                    lemma_next_byte(
                        self.exact@,
                        partial_sum(n + 1, first),
                        8 * (len + 1) as int,
                        self.carry@,
                        acc_floor@,
                    );
                    lemma_partial_sum_wf(n + 1, first);
                    assert(acc_diff.contains_rat(self.exact@.sub(Rat::of_int(acc_floor@))));
                    lemma_scale2_wf(self.exact@.sub(Rat::of_int(acc_floor@)), 8);
                    assert(next_acc.contains_rat(next_exact));
                    assert(8 * (len + 1) as int + 8 == 8 * (len + 1 + 1) as int);
                }
            }
            self.acc = next_acc;
            self.exact = Ghost(next_exact);
            self.carry = Ghost(next_carry);
            // adjust the offset accordingly.
            self.offset = self.offset.add_i64(BITS);
        }
        if !self.acc.bounded() {
            self.stopped = true;
            return false;
        }
        match self.acc.inner_int() {
            // no integer in the accumulator: more terms may still shrink the bounds
            // enough for another byte.
            Err(count) => {
                if count.eq(&BigInt::zero()) {
                    true
                } else {
                    // several integers: more terms cannot make it converge.
                    self.stopped = true;
                    false
                }
            },
            // one integer: the byte can only still settle if the bounds can move to
            // one side of it.
            Ok(inner_int) => {
                let width = self.acc.width();
                let max_inf = bounds.sup.sub_round(&width, Round::Floor);
                let min_sup = bounds.inf.add_round(&width, Round::Ceiling);
                if max_inf.le_integer(&inner_int) && min_sup.ge_integer(&inner_int) {
                    self.stopped = true;
                    false
                } else {
                    true
                }
            },
        }
    }

    /// The plain state holds the bytes found, the terms added and whether the
    /// calculation stopped.
    pub proof fn lemma_state(&self)
        ensures
            self.state().bytes == self.found(),
            self.state().n == self.terms(),
            self.state().stopped == self.is_stopped(),
    {
    }

    /// Every byte found is certain, where the calculation is sound.
    pub proof fn lemma_found_certified(&self)
        requires
            self.inv(),
        ensures
            self.max_batch() matches Some(m) ==> self.found().len() <= m,
            self.is_sound() ==> forall|j: int|
                0 <= j < self.found().len() ==> #[trigger] byte_certified(
                    self.start_offset(),
                    j as nat,
                    self.found()[j],
                ),
    {
    }
}

} // verus!
