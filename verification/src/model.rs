//! The reduction as a function of unbounded integers: what each pass does
//! to the basis, what is kept between passes, and what follows for the
//! vector that the reduction ends with.
//!
//! Squared norms and scalar products are compared as the integers they
//! are. Their bit lengths and signs are read as a fixed width holds them,
//! which makes a difference on the first pass only, when `n * k` or
//! `k * k + 1` may fill the width.

use vstd::arithmetic::div_mod::{lemma_mod_add_multiples_vanish, lemma_small_mod};
use vstd::arithmetic::power2::{
    lemma2_to64, lemma_pow2_adds, lemma_pow2_pos, lemma_pow2_strictly_increases,
    lemma_pow2_unfold, pow2,
};
use vstd::prelude::*;

use crate::lattice::{
    abs, in_lattice, lemma_not_reduced, lemma_reduced_norm, lemma_scalar_bound,
    lemma_step_progress, lemma_step_shift, lemma_step_shrinks, lemma_tame_preserved,
    magnitude_of, step_shift, tame, Basis,
};
use crate::word::{
    bit_length, lemma_bit_length_below, lemma_bit_length_bounds, lemma_bit_length_gt,
    lemma_bit_length_le, lemma_bit_length_monotonic,
};

verus! {

/// What a bit length is taken of when `x` is held in a width of `m`
/// values: the value held, or its complement if its top bit is set.
pub open spec fn canonical(x: int, m: int) -> nat {
    let v = x % m;
    if 2 * v >= m {
        (m - 1 - v) as nat
    } else {
        v as nat
    }
}

/// The bit length of `x` as a width of `m` values gives it.
pub open spec fn width_bits(x: int, m: int) -> nat {
    bit_length(canonical(x, m))
}

/// The excess of `a` over `b`, or zero.
pub open spec fn excess(a: nat, b: nat) -> nat {
    if a > b {
        (a - b) as nat
    } else {
        0
    }
}

/// The basis with the longer vector first.
pub open spec fn ordered(b: Basis) -> Basis {
    if b.nu() < b.nv() {
        b.swapped()
    } else {
        b
    }
}

/// The multiple of `v` that a pass adds to `u`: `2^s` against the sign of
/// the scalar product, where `s` is the excess of the bit length of the
/// scalar product over that of the squared norm of `v`. The first pass
/// takes the scalar product as not negative.
pub open spec fn coefficient(b: Basis, first: bool, m: int) -> int {
    let s = excess(width_bits(b.sp(), m), width_bits(b.nv(), m));
    if first || b.sp() >= 0 {
        -(pow2(s) as int)
    } else {
        pow2(s) as int
    }
}

/// The passes on Gram values of `wide` values of width, then on Gram values
/// of `mid` values, from the basis `b`. The result is the vector that the
/// reduction ends with and whether it ended because that vector passed for
/// short; `None` if `fuel` passes do not bring it to an end.
pub open spec fn wide_run(b: Basis, first: bool, wide: int, mid: int, max_bitlen: nat, fuel: nat)
    -> Option<(int, int, bool)>
    decreases fuel,
{
    if fuel == 0 {
        None
    } else {
        let o = ordered(b);
        if 2 * o.nu() < mid {
            narrow_run(o, first, width_bits(o.sp(), mid), 0, mid, max_bitlen, (fuel - 1) as nat)
        } else if width_bits(o.nv(), wide) <= max_bitlen {
            Some((o.v0, o.v1, true))
        } else {
            wide_run(
                o.stepped(coefficient(o, first, wide)),
                false,
                wide,
                mid,
                max_bitlen,
                (fuel - 1) as nat,
            )
        }
    }
}

/// The passes on Gram values of `mid` values of width. They end when `v`
/// passes for short, when the bit length of the scalar product grows, or
/// when it has not shrunk for four passes in a row.
pub open spec fn narrow_run(
    b: Basis,
    first: bool,
    last: nat,
    stuck: nat,
    mid: int,
    max_bitlen: nat,
    fuel: nat,
) -> Option<(int, int, bool)>
    decreases fuel,
{
    if fuel == 0 {
        None
    } else {
        let o = ordered(b);
        let bits = width_bits(o.sp(), mid);
        if width_bits(o.nv(), mid) <= max_bitlen {
            Some((o.v0, o.v1, true))
        } else if bits > last || (bits == last && stuck >= 3) {
            Some((o.v0, o.v1, false))
        } else {
            narrow_run(
                o.stepped(coefficient(o, first, mid)),
                false,
                if bits == last { last } else { bits },
                if bits == last { stuck + 1 } else { 0 },
                mid,
                max_bitlen,
                (fuel - 1) as nat,
            )
        }
    }
}

/// The reduction of the basis `(n, 0)`, `(k, 1)`.
pub open spec fn reduction(k: int, n: int, wide: int, mid: int, max_bitlen: nat, fuel: nat)
    -> Option<(int, int, bool)> {
    wide_run(Basis::initial(k, n), true, wide, mid, max_bitlen, fuel)
}

/// A value within the two's-complement range of the width is read with
/// its own bit length and sign.
pub proof fn lemma_canonical_in_range(x: int, m: int)
    requires
        m > 0,
        -m <= 2 * x < m,
    ensures
        canonical(x, m) == magnitude_of(x),
        (2 * (x % m) >= m) == (x < 0),
{
    if x >= 0 {
        lemma_small_mod(x as nat, m as nat);
    } else {
        lemma_mod_add_multiples_vanish(x, m);
        lemma_small_mod((m + x) as nat, m as nat);
    }
}

/// The widths of a reduction: operands below `2^e1`, Gram values first
/// at `2 * e1` bits and then at `em` bits.
pub struct Widths {
    pub e1: nat,
    pub em: nat,
}

impl Widths {
    /// The bound on the operands.
    pub open spec fn limit(self) -> int {
        pow2(self.e1) as int
    }

    /// The number of values of the full Gram width.
    pub open spec fn wide(self) -> int {
        pow2(2 * self.e1) as int
    }

    /// The number of values of the middle Gram width.
    pub open spec fn mid(self) -> int {
        pow2(self.em) as int
    }

    /// Half the number of values of the middle Gram width.
    pub open spec fn half(self) -> int {
        pow2((self.em - 1) as nat) as int
    }

    /// The middle width lies between the operand width and the full Gram
    /// width.
    pub open spec fn valid(self) -> bool {
        32 <= self.e1 < self.em < 2 * self.e1
    }

    /// The numbers that the widths stand for.
    pub proof fn lemma_widths(self)
        requires
            self.valid(),
        ensures
            self.limit() >= 0x1_0000_0000,
            self.wide() == self.limit() * self.limit(),
            self.mid() == 2 * self.half(),
            self.half() >= 0x1_0000_0000,
            self.mid() < self.wide(),
    {
        lemma2_to64();
        if self.e1 > 32 {
            lemma_pow2_strictly_increases(32, self.e1);
        }
        lemma_pow2_adds(self.e1, self.e1);
        lemma_pow2_unfold(self.em);
        if self.em - 1 > 32 {
            lemma_pow2_strictly_increases(32, (self.em - 1) as nat);
        }
        lemma_pow2_strictly_increases(self.em, 2 * self.e1);
    }
}

/// `max_bitlen` is ample for the modulus `n`: a basis that is neither
/// short nor within the middle width is not reduced, so that the passes at
/// the full width go on shortening it.
pub open spec fn ample(n: int, w: Widths, max_bitlen: nat) -> bool {
    3 * (w.half() * pow2(max_bitlen)) > 4 * (n * n)
}

/// `max_bitlen` is enough for the passes at the full width to come to an
/// end: it is ample for `n`, or `n * n` is within the middle width from the
/// start, or the first vector `(k, 1)` is short already.
pub open spec fn enough(k: int, n: int, w: Widths, max_bitlen: nat) -> bool {
    ||| ample(n, w, max_bitlen)
    ||| 2 * (n * n) < w.mid()
    ||| k * k + 1 < pow2(max_bitlen)
}

/// What is left of `enough` after the first pass: `max_bitlen` is ample,
/// if any pass has been made.
pub open spec fn goes(first: bool, k: int, n: int, w: Widths, max_bitlen: nat) -> bool {
    ample(n, w, max_bitlen) || (first && enough(k, n, w, max_bitlen))
}

/// A `max_bitlen` that makes up for the difference between the full and
/// the middle width, and two bits more, is ample for every modulus.
pub proof fn lemma_ample_by_width(n: int, w: Widths, max_bitlen: nat)
    requires
        w.valid(),
        0 <= n < w.limit(),
        max_bitlen + w.em >= 2 * w.e1 + 2,
    ensures
        ample(n, w, max_bitlen),
{
    w.lemma_widths();
    lemma_pow2_adds((w.em - 1) as nat, max_bitlen);
    lemma_pow2_unfold(2 * w.e1 + 1);
    if (w.em - 1) as nat + max_bitlen > 2 * w.e1 + 1 {
        lemma_pow2_strictly_increases(2 * w.e1 + 1, (w.em - 1) as nat + max_bitlen);
    }
    assert(n * n < w.limit() * w.limit()) by (nonlinear_arith)
        requires
            0 <= n < w.limit(),
    ;
}

/// What holds of the basis between two passes at the full Gram width.
pub open spec fn wide_inv(b: Basis, first: bool, k: int, n: int, wide: int) -> bool {
    &&& b.spans(k, n)
    &&& (b.nv() <= k * k + 1 || b.nu() <= k * k + 1)
    &&& first ==> b == Basis::initial(k, n)
    &&& !first ==> {
        &&& 0 <= b.nu() <= n * n
        &&& 0 <= b.nv() <= n * n
        &&& (2 * b.nu() < wide || 2 * b.nv() < wide)
        &&& -wide < 2 * b.sp() < wide
    }
}

/// What holds of the basis within a pass at the full Gram width, once the
/// longer vector is first.
pub open spec fn wide_ready(o: Basis, first: bool, k: int, n: int, wide: int) -> bool {
    &&& o.spans(k, n)
    &&& 1 <= o.nv() <= o.nu() <= n * n
    &&& o.nv() <= k * k + 1
    &&& first ==> o == Basis::initial(k, n)
    &&& !first ==> 2 * o.nv() < wide && -wide < 2 * o.sp() < wide
}

/// What holds of the basis between two passes at the middle Gram width.
pub open spec fn narrow_inv(b: Basis, first: bool, k: int, n: int, half: int) -> bool {
    &&& b.spans(k, n)
    &&& (b.nv() <= k * k + 1 || b.nu() <= k * k + 1)
    &&& first ==> b == Basis::initial(k, n)
    &&& tame(b.nu(), b.nv(), b.sp(), half)
}

/// What holds of the basis within a pass at the middle Gram width, once
/// the longer vector is first.
pub open spec fn narrow_ready(o: Basis, first: bool, k: int, n: int, half: int) -> bool {
    &&& o.spans(k, n)
    &&& 1 <= o.nv() <= o.nu() < 2 * half
    &&& o.nv() < half
    &&& abs(o.sp()) < half
    &&& o.nv() <= k * k + 1
    &&& first ==> o == Basis::initial(k, n)
    &&& tame(o.nu(), o.nv(), o.sp(), half)
}

/// The first basis has `v` no longer than `u`.
pub proof fn lemma_initial_order(k: int, n: int)
    requires
        0 <= k < n,
    ensures
        Basis::initial(k, n).spans(k, n),
        Basis::initial(k, n).nu() == n * n,
        Basis::initial(k, n).nv() == k * k + 1,
        Basis::initial(k, n).sp() == n * k,
        1 <= k * k + 1 <= n * n,
        0 <= n * k < n * n,
        ordered(Basis::initial(k, n)) == Basis::initial(k, n),
{
    Basis::lemma_initial_spans(k, n);
    assert(1 <= k * k + 1 <= n * n) by (nonlinear_arith)
        requires
            0 <= k < n,
    ;
    assert(0 <= n * k < n * n) by (nonlinear_arith)
        requires
            0 <= k < n,
    ;
}

/// Between passes at the full width both squared norms are held exactly,
/// and putting the longer vector first makes the basis ready.
pub proof fn lemma_wide_order(b: Basis, first: bool, k: int, n: int, w: Widths, max_bitlen: nat)
    requires
        w.valid(),
        0 <= k < n < w.limit(),
        wide_inv(b, first, k, n, w.wide()),
    ensures
        0 <= b.nu() < w.wide(),
        0 <= b.nv() < w.wide(),
        wide_ready(ordered(b), first, k, n, w.wide()),
{
    w.lemma_widths();
    lemma_initial_order(k, n);
    b.lemma_spans_gram(k, n);
    b.lemma_swapped_gram();
    b.lemma_spans_preserved(0, k, n);
    assert(n * n < w.limit() * w.limit()) by (nonlinear_arith)
        requires
            0 <= n < w.limit(),
    ;
}

/// A ready basis whose longer vector is within the middle width goes on
/// at the middle width.
pub proof fn lemma_wide_switch(o: Basis, first: bool, k: int, n: int, w: Widths, max_bitlen: nat)
    requires
        w.valid(),
        0 <= k < n < w.limit(),
        wide_ready(o, first, k, n, w.wide()),
        2 * o.nu() < w.mid(),
    ensures
        narrow_inv(o, first, k, n, w.half()),
{
    w.lemma_widths();
}

/// At the full width a vector passes for short only if it is short, unless
/// more than the operand width and one bit were asked for.
pub proof fn lemma_wide_found(o: Basis, first: bool, k: int, n: int, w: Widths, max_bitlen: nat)
    requires
        w.valid(),
        0 <= k < n < w.limit(),
        wide_ready(o, first, k, n, w.wide()),
        width_bits(o.nv(), w.wide()) <= max_bitlen,
        max_bitlen <= w.e1 + 1,
    ensures
        o.nv() < pow2(max_bitlen),
{
    w.lemma_widths();
    let m = w.wide();
    let r = w.limit();
    assert(n * n < r * r) by (nonlinear_arith)
        requires
            0 <= n < r,
    ;
    lemma_small_mod(o.nv() as nat, m as nat);
    if 2 * o.nv() < m {
        lemma_bit_length_below(o.nv() as nat, max_bitlen);
    } else {
        // Only the first basis can fill the width, and then what is read
        // in place of its squared norm has more than `e1 + 1` bits.
        lemma_initial_order(k, n);
        assert(k * k <= (r - 2) * (r - 2)) by (nonlinear_arith)
            requires
                0 <= k <= r - 2,
        ;
        assert((r - 2) * (r - 2) == r * r - 4 * r + 4) by (nonlinear_arith);
        lemma_pow2_unfold(w.e1 + 1);
        if max_bitlen < w.e1 + 1 {
            lemma_pow2_strictly_increases(max_bitlen, w.e1 + 1);
        }
        lemma_bit_length_below(canonical(o.nv(), m), max_bitlen);
    }
}

/// A step keeps the scalar product within the two's-complement range of
/// a width that holds it and the squared norm of `v`.
pub proof fn lemma_step_scalar(nv: int, sp: int, p: int, m: int)
    requires
        nv >= 1,
        2 * nv < m,
        -m < 2 * sp < m,
        p >= 1,
        p > 1 ==> p * nv < 2 * abs(sp),
    ensures
        ({
            let c = if sp >= 0 { -p } else { p };
            -m < 2 * (sp + c * nv) < m
        }),
{
    let c = if sp >= 0 { -p } else { p };
    assert(c * nv == if sp >= 0 { -(p * nv) } else { p * nv }) by (nonlinear_arith)
        requires
            c == (if sp >= 0 { -p } else { p }),
    ;
    assert(p * nv >= nv) by (nonlinear_arith)
        requires
            p >= 1,
            nv >= 1,
    ;
    if p == 1 {
        assert(p * nv == nv) by (nonlinear_arith)
            requires
                p == 1,
        ;
    }
}

/// The outcome of a step by `c`: a basis of the same lattice with a
/// shorter `u`, ready for the next pass at the full width.
pub open spec fn wide_step_ok(o: Basis, c: int, k: int, n: int, wide: int) -> bool {
    &&& wide_inv(o.stepped(c), false, k, n, wide)
    &&& 0 <= o.stepped(c).nu() < o.nu()
}

/// A step at the full width from a basis whose Gram values are within
/// the two's-complement range.
proof fn lemma_wide_step_exact(o: Basis, first: bool, k: int, n: int, w: Widths, max_bitlen: nat)
    requires
        w.valid(),
        0 <= k < n < w.limit(),
        wide_ready(o, first, k, n, w.wide()),
        2 * o.nu() >= w.mid(),
        width_bits(o.nv(), w.wide()) > max_bitlen,
        2 * o.nv() < w.wide(),
        -w.wide() < 2 * o.sp() < w.wide(),
        2 * abs(o.sp()) > o.nv(),
    ensures
        wide_step_ok(o, coefficient(o, first, w.wide()), k, n, w.wide()),
{
    let m = w.wide();
    let c = coefficient(o, first, m);
    let s = step_shift(o.nv(), o.sp());
    let p = pow2(s) as int;
    w.lemma_widths();
    lemma_initial_order(k, n);
    o.lemma_spans_gram(k, n);
    lemma_canonical_in_range(o.nv(), m);
    lemma_canonical_in_range(o.sp(), m);
    assert(c == if o.sp() >= 0 { -p } else { p });
    assert(n * n < w.limit() * w.limit()) by (nonlinear_arith)
        requires
            0 <= n < w.limit(),
    ;
    lemma_step_shift(o.nv(), o.sp());
    if s == 0 {
        lemma2_to64();
    }
    lemma_step_shrinks(o.nv(), o.sp(), p);
    lemma_step_scalar(o.nv(), o.sp(), p, m);
    o.lemma_stepped_gram(c);
    o.lemma_spans_preserved(c, k, n);
    o.stepped(c).lemma_norms_nonnegative();
}

/// The first step when `n * k` fills the full width and `k * k + 1` does
/// not: the bit length read for the scalar product is that of its
/// complement, and the step still shortens `u` and brings the scalar
/// product within range.
proof fn lemma_wide_step_filled(k: int, n: int, w: Widths, max_bitlen: nat)
    requires
        w.valid(),
        0 <= k < n < w.limit(),
        2 * (n * k) >= w.wide(),
        2 * (k * k + 1) < w.wide(),
    ensures
        wide_step_ok(
            Basis::initial(k, n),
            coefficient(Basis::initial(k, n), true, w.wide()),
            k,
            n,
            w.wide(),
        ),
{
    let o = Basis::initial(k, n);
    let m = w.wide();
    let r = w.limit();
    let c = coefficient(o, true, m);
    w.lemma_widths();
    lemma_initial_order(k, n);
    o.lemma_spans_gram(k, n);
    let sp = n * k;
    let nv = k * k + 1;
    assert(n * n < r * r) by (nonlinear_arith)
        requires
            0 <= n < r,
    ;
    lemma_small_mod(sp as nat, m as nat);
    lemma_canonical_in_range(nv, m);
    let cs = canonical(sp, m);
    assert(cs == m - 1 - sp);
    let a = bit_length(cs);
    let bz = bit_length(nv as nat);
    let s = excess(a, bz);
    let p = pow2(s) as int;
    assert(c == -p);
    lemma_pow2_pos(s);
    // n * k is below three quarters of the width.
    assert(4 * sp < 3 * m) by (nonlinear_arith)
        requires
            sp == n * k,
            0 <= k < n,
            n * n < m,
            2 * (k * k + 1) < m,
    {
        assert(sp * sp == (n * n) * (k * k)) by (nonlinear_arith)
            requires
                sp == n * k,
        ;
        assert((n * n) * (k * k) < m * (k * k + 1)) by (nonlinear_arith)
            requires
                0 <= n * n < m,
                0 <= k * k,
        ;
        assert(2 * (m * (k * k + 1)) < m * m) by (nonlinear_arith)
            requires
                2 * (k * k + 1) < m,
                m > 0,
        ;
        if 4 * sp >= 3 * m {
            assert(16 * (sp * sp) >= 9 * (m * m)) by (nonlinear_arith)
                requires
                    4 * sp >= 3 * m,
                    m > 0,
            ;
        }
    }
    // p * nv lies between a quarter and a half of the width.
    lemma_pow2_unfold(2 * w.e1);
    lemma_pow2_unfold((2 * w.e1 - 1) as nat);
    let quarter = pow2((2 * w.e1 - 2) as nat) as int;
    assert(m == 4 * quarter);
    assert(4 * (sp - nv) <= n * n) by (nonlinear_arith)
        requires
            sp == n * k,
            nv == k * k + 1,
    {
        assert((n - 2 * k) * (n - 2 * k) >= 0) by (nonlinear_arith);
        assert((n - 2 * k) * (n - 2 * k) == n * n - 4 * (n * k) + 4 * (k * k)) by (nonlinear_arith);
    }
    if s > 0 {
        lemma_bit_length_bounds(nv as nat);
        lemma_bit_length_bounds(cs);
        lemma_pow2_adds(s, bz);
        lemma_pow2_adds(s, (bz - 1) as nat);
        assert(s + (bz - 1) as nat == (a - 1) as nat);
        let hi = pow2(bz) as int;
        let lo = pow2((bz - 1) as nat) as int;
        assert(p * lo <= p * nv < p * hi) by (nonlinear_arith)
            requires
                p >= 1,
                lo <= nv < hi,
        ;
        // The complement is below half the width and at least a quarter.
        lemma_bit_length_le(cs, (2 * w.e1 - 1) as nat);
        if a < 2 * w.e1 - 1 {
            lemma_pow2_strictly_increases(a, (2 * w.e1 - 1) as nat);
        }
        lemma_bit_length_gt(cs, (2 * w.e1 - 2) as nat);
        if a - 1 > 2 * w.e1 - 2 {
            lemma_pow2_strictly_increases((2 * w.e1 - 2) as nat, (a - 1) as nat);
        }
        assert(s + bz == a);
        assert(p * hi == pow2(a));
        assert(p * lo == pow2((a - 1) as nat));
        assert(pow2(a) <= 2 * quarter);
        assert(pow2((a - 1) as nat) >= quarter);
    } else {
        lemma2_to64();
        assert(p == 1);
        assert(p * nv == nv) by (nonlinear_arith)
            requires
                p == 1,
        ;
    }
    assert(sp - 2 * quarter < p * nv && 2 * (p * nv) < m);
    assert(c * nv == -(p * nv)) by (nonlinear_arith)
        requires
            c == -p,
    ;
    assert(c * c * nv == p * (p * nv)) by (nonlinear_arith)
        requires
            c == -p,
    ;
    assert(2 * c * sp == -(2 * (p * sp))) by (nonlinear_arith)
        requires
            c == -p,
    ;
    assert(p * (p * nv) < p * sp) by (nonlinear_arith)
        requires
            p >= 1,
            p * nv < sp,
    ;
    o.lemma_stepped_gram(c);
    o.lemma_spans_preserved(c, k, n);
    o.stepped(c).lemma_norms_nonnegative();
}

/// The first step when `k * k + 1` fills the full width, and `n * k` with
/// it: there is no shift, and the step leaves a `u` within half the
/// width.
proof fn lemma_wide_step_crowded(k: int, n: int, w: Widths, max_bitlen: nat)
    requires
        w.valid(),
        0 <= k < n < w.limit(),
        2 * (k * k + 1) >= w.wide(),
    ensures
        wide_step_ok(
            Basis::initial(k, n),
            coefficient(Basis::initial(k, n), true, w.wide()),
            k,
            n,
            w.wide(),
        ),
{
    let o = Basis::initial(k, n);
    let m = w.wide();
    let r = w.limit();
    let c = coefficient(o, true, m);
    w.lemma_widths();
    lemma_initial_order(k, n);
    o.lemma_spans_gram(k, n);
    let sp = n * k;
    let nv = k * k + 1;
    let d = n - k;
    assert(n * n < r * r) by (nonlinear_arith)
        requires
            0 <= n < r,
    ;
    assert(sp == k * k + d * k && n * n == k * k + 2 * (d * k) + d * d) by (nonlinear_arith)
        requires
            sp == n * k,
            d == n - k,
    ;
    assert(d * k >= 1 && d * d >= 1) by (nonlinear_arith)
        requires
            d >= 1,
            k >= 1,
    ;
    // No shift: what is read for the scalar product is no larger than what
    // is read for the squared norm.
    lemma_small_mod(sp as nat, m as nat);
    lemma_small_mod(nv as nat, m as nat);
    lemma_bit_length_monotonic(canonical(sp, m), canonical(nv, m));
    lemma2_to64();
    assert(c == -1);
    // k is at least seven tenths of the limit, so n - k is at most three.
    assert(10 * k >= 7 * r) by (nonlinear_arith)
        requires
            2 * (k * k + 1) >= r * r,
            r >= 0x1_0000_0000,
            k >= 0,
    {
        if 10 * k < 7 * r {
            assert(100 * (k * k) <= 49 * (r * r)) by (nonlinear_arith)
                requires
                    0 <= 10 * k <= 7 * r,
            ;
            assert(r * r >= 0x1_0000_0000 * 0x1_0000_0000) by (nonlinear_arith)
                requires
                    r >= 0x1_0000_0000,
            ;
        }
    }
    assert(100 * (d * d) <= 9 * (r * r)) by (nonlinear_arith)
        requires
            0 <= 10 * d <= 3 * r,
    ;
    assert(r * r >= 0x1_0000_0000 * 0x1_0000_0000) by (nonlinear_arith)
        requires
            r >= 0x1_0000_0000,
    ;
    assert(4 * (d * k) <= n * n) by (nonlinear_arith)
        requires
            n == d + k,
    {
        assert((d - k) * (d - k) >= 0) by (nonlinear_arith);
        assert((d - k) * (d - k) == d * d - 2 * (d * k) + k * k) by (nonlinear_arith);
        assert((d + k) * (d + k) == d * d + 2 * (d * k) + k * k) by (nonlinear_arith);
    }
    o.lemma_stepped_gram(c);
    o.lemma_spans_preserved(c, k, n);
    o.stepped(c).lemma_norms_nonnegative();
    assert(c * c * nv == nv && 2 * c * sp == -2 * sp && c * nv == -nv) by (nonlinear_arith)
        requires
            c == -1,
    ;
}

/// What is held for a value that fits the width has no more bits than
/// the value.
pub proof fn lemma_width_bits_le(x: int, m: int)
    requires
        0 <= x < m,
    ensures
        width_bits(x, m) <= bit_length(x as nat),
{
    lemma_small_mod(x as nat, m as nat);
    lemma_bit_length_monotonic(canonical(x, m), x as nat);
}

/// A basis at rest at the full width: it is reduced, its longer vector
/// is not within the middle width, and its shorter vector does not pass
/// for short.
pub open spec fn at_rest(o: Basis, w: Widths, max_bitlen: nat) -> bool {
    &&& 1 <= o.nv() <= o.nu()
    &&& 2 * abs(o.sp()) <= o.nv()
    &&& 2 * o.nv() < w.wide()
    &&& 2 * o.nu() >= w.mid()
    &&& width_bits(o.nv(), w.wide()) > max_bitlen
}

/// From a basis at rest the passes at the full width never come to an
/// end: each step is taken back by the next.
pub proof fn lemma_rest_never_ends(o: Basis, first: bool, w: Widths, max_bitlen: nat, fuel: nat)
    requires
        w.valid(),
        at_rest(o, w, max_bitlen),
        first ==> o.sp() >= 0,
    ensures
        wide_run(o, first, w.wide(), w.mid(), max_bitlen, fuel) is None,
    decreases fuel,
{
    if fuel >= 2 {
        let m = w.wide();
        w.lemma_widths();
        lemma2_to64();
        let c = coefficient(o, first, m);
        lemma_canonical_in_range(o.nv(), m);
        lemma_canonical_in_range(o.sp(), m);
        lemma_step_shift(o.nv(), o.sp());
        assert(c == if o.sp() >= 0 { -1int } else { 1int });
        let t = o.stepped(c);
        o.lemma_stepped_gram(c);
        assert(c * c * o.nv() == o.nv() && c * o.nv() == (if o.sp() >= 0 { -o.nv() } else {
            o.nv()
        }) && 2 * c * o.sp() == -2 * abs(o.sp())) by (nonlinear_arith)
            requires
                c == (if o.sp() >= 0 { -1int } else { 1int }),
        ;
        assert(ordered(o) == o);
        assert(ordered(t) == t);
        let c2 = coefficient(t, false, m);
        lemma_canonical_in_range(t.sp(), m);
        lemma_step_shift(t.nv(), t.sp());
        assert(c2 == -c);
        let t2 = t.stepped(c2);
        assert(t2.u0 == o.u0 && t2.u1 == o.u1) by (nonlinear_arith)
            requires
                t2.u0 == (o.u0 + c * o.v0) + c2 * o.v0,
                t2.u1 == (o.u1 + c * o.v1) + c2 * o.v1,
                c2 == -c,
        ;
        assert(t2 == o);
        assert(wide_run(o, first, m, w.mid(), max_bitlen, fuel) == wide_run(
            t,
            false,
            m,
            w.mid(),
            max_bitlen,
            (fuel - 1) as nat,
        ));
        assert(wide_run(t, false, m, w.mid(), max_bitlen, (fuel - 1) as nat) == wide_run(
            o,
            false,
            m,
            w.mid(),
            max_bitlen,
            (fuel - 2) as nat,
        ));
        lemma_rest_never_ends(o, false, w, max_bitlen, (fuel - 2) as nat);
    } else if fuel == 1 {
        assert(ordered(o) == o);
        assert(wide_run(
            o.stepped(coefficient(o, first, w.wide())),
            false,
            w.wide(),
            w.mid(),
            max_bitlen,
            0,
        ) is None);
    }
}

/// A pass at the full width that comes to its step, in a reduction that
/// comes to an end, starts from a basis that is not reduced.
pub proof fn lemma_step_not_reduced(
    o: Basis,
    first: bool,
    k: int,
    n: int,
    w: Widths,
    max_bitlen: nat,
    fuel: nat,
)
    requires
        w.valid(),
        0 <= k < n < w.limit(),
        wide_ready(o, first, k, n, w.wide()),
        2 * o.nu() >= w.mid(),
        width_bits(o.nv(), w.wide()) > max_bitlen,
        wide_run(o, first, w.wide(), w.mid(), max_bitlen, fuel) is Some,
    ensures
        2 * abs(o.sp()) > o.nv(),
{
    if 2 * abs(o.sp()) <= o.nv() {
        w.lemma_widths();
        lemma_initial_order(k, n);
        if first {
            // Only k = 0 makes the first basis a reduced one.
            assert(k == 0) by (nonlinear_arith)
                requires
                    0 <= k < n,
                    2 * (n * k) <= k * k + 1,
            {
                if k >= 1 {
                    assert(n * k >= (k + 1) * k) by (nonlinear_arith)
                        requires
                            n >= k + 1,
                            k >= 1,
                    ;
                    assert((k + 1) * k == k * k + k) by (nonlinear_arith);
                }
            }
            assert(o.nv() == 1) by (nonlinear_arith)
                requires
                    o.nv() == k * k + 1,
                    k == 0,
            ;
        }
        lemma_rest_never_ends(o, first, w, max_bitlen, fuel);
    }
}

/// A pass at the full width that comes to its step has an ample
/// `max_bitlen`, if it had enough: were it only enough for the first
/// pass, that pass would have gone on at the middle width or ended. And
/// with an ample `max_bitlen` the basis is not reduced.
pub proof fn lemma_goes_on(o: Basis, first: bool, k: int, n: int, w: Widths, max_bitlen: nat)
    requires
        w.valid(),
        0 <= k < n < w.limit(),
        wide_ready(o, first, k, n, w.wide()),
        goes(first, k, n, w, max_bitlen),
        2 * o.nu() >= w.mid(),
        width_bits(o.nv(), w.wide()) > max_bitlen,
    ensures
        ample(n, w, max_bitlen),
        2 * abs(o.sp()) > o.nv(),
{
    w.lemma_widths();
    lemma_initial_order(k, n);
    assert(n * n < w.limit() * w.limit()) by (nonlinear_arith)
        requires
            0 <= n < w.limit(),
    ;
    lemma_width_bits_le(o.nv(), w.wide());
    lemma_bit_length_below(o.nv() as nat, max_bitlen);
    assert(ample(n, w, max_bitlen));
    o.lemma_spans_gram(k, n);
    lemma_pow2_pos(max_bitlen);
    lemma_not_reduced(o.nu(), o.nv(), o.sp(), n, w.half(), pow2(max_bitlen) as int);
}

/// A step at the full width: from a ready basis that is neither within
/// the middle width nor passes for short, and is not reduced, the step
/// leaves a basis for the next pass, with a shorter `u`.
pub proof fn lemma_wide_step(o: Basis, first: bool, k: int, n: int, w: Widths, max_bitlen: nat)
    requires
        w.valid(),
        0 <= k < n < w.limit(),
        wide_ready(o, first, k, n, w.wide()),
        2 * o.nu() >= w.mid(),
        width_bits(o.nv(), w.wide()) > max_bitlen,
        2 * abs(o.sp()) > o.nv(),
    ensures
        wide_step_ok(o, coefficient(o, first, w.wide()), k, n, w.wide()),
{
    lemma_initial_order(k, n);
    if 2 * o.nv() < w.wide() && -w.wide() < 2 * o.sp() < w.wide() {
        lemma_wide_step_exact(o, first, k, n, w, max_bitlen);
    } else if 2 * (k * k + 1) >= w.wide() {
        lemma_wide_step_crowded(k, n, w, max_bitlen);
    } else {
        lemma_wide_step_filled(k, n, w, max_bitlen);
    }
}

/// Between passes at the middle width both squared norms are held
/// exactly, and putting the longer vector first makes the basis ready.
pub proof fn lemma_narrow_order(b: Basis, first: bool, k: int, n: int, w: Widths, max_bitlen: nat)
    requires
        w.valid(),
        0 <= k < n < w.limit(),
        narrow_inv(b, first, k, n, w.half()),
    ensures
        0 <= b.nu() < w.mid(),
        0 <= b.nv() < w.mid(),
        narrow_ready(ordered(b), first, k, n, w.half()),
{
    w.lemma_widths();
    lemma_initial_order(k, n);
    b.lemma_spans_gram(k, n);
    b.lemma_swapped_gram();
    b.lemma_spans_preserved(0, k, n);
    let o = ordered(b);
    o.lemma_spans_gram(k, n);
    if o.nu() < w.half() {
        lemma_scalar_bound(o.nu(), o.nv(), o.sp(), n, w.half());
    }
}

/// At the middle width a vector passes for short exactly if it is short.
pub proof fn lemma_narrow_found(o: Basis, first: bool, k: int, n: int, w: Widths, max_bitlen: nat)
    requires
        w.valid(),
        0 <= k < n < w.limit(),
        narrow_ready(o, first, k, n, w.half()),
    ensures
        width_bits(o.nv(), w.mid()) <= max_bitlen <==> o.nv() < pow2(max_bitlen),
{
    w.lemma_widths();
    lemma_canonical_in_range(o.nv(), w.mid());
    lemma_bit_length_below(o.nv() as nat, max_bitlen);
}

/// A step at the middle width leaves a basis for the next pass.
pub proof fn lemma_narrow_step(o: Basis, first: bool, k: int, n: int, w: Widths, max_bitlen: nat)
    requires
        w.valid(),
        0 <= k < n < w.limit(),
        narrow_ready(o, first, k, n, w.half()),
    ensures
        narrow_inv(o.stepped(coefficient(o, first, w.mid())), false, k, n, w.half()),
{
    let m = w.mid();
    let c = coefficient(o, first, m);
    let s = step_shift(o.nv(), o.sp());
    let p = pow2(s) as int;
    w.lemma_widths();
    lemma_initial_order(k, n);
    lemma_canonical_in_range(o.nv(), m);
    lemma_canonical_in_range(o.sp(), m);
    assert(c == if o.sp() >= 0 { -p } else { p });
    lemma_step_shift(o.nv(), o.sp());
    if s == 0 {
        lemma2_to64();
    }
    o.lemma_stepped_gram(c);
    o.lemma_spans_preserved(c, k, n);
    o.stepped(c).lemma_norms_nonnegative();
    lemma_tame_preserved(o.nu(), o.nv(), o.sp(), w.half(), p);
}

/// What the reduction promises of the vector `(t0, t1)` that it ends with:
/// it is a vector of the lattice of `k` and `n`, other than zero and no
/// longer than `(k, 1)`. If the reduction did not end for its being short,
/// its squared norm is not below `2^max_bitlen`; if it did, it is, unless
/// more than `e1 + 1` bits were asked for.
pub open spec fn sound(t0: int, t1: int, short: bool, k: int, n: int, w: Widths, max_bitlen: nat)
    -> bool {
    &&& in_lattice(t0, t1, k, n)
    &&& 1 <= t0 * t0 + t1 * t1 <= k * k + 1
    &&& !short ==> t0 * t0 + t1 * t1 >= pow2(max_bitlen)
    &&& short && max_bitlen <= w.e1 + 1 ==> t0 * t0 + t1 * t1 < pow2(max_bitlen)
}

/// The passes at the middle width end with a sound vector.
pub proof fn lemma_narrow_run_sound(
    b: Basis,
    first: bool,
    last: nat,
    stuck: nat,
    k: int,
    n: int,
    w: Widths,
    max_bitlen: nat,
    fuel: nat,
)
    requires
        w.valid(),
        0 <= k < n < w.limit(),
        narrow_inv(b, first, k, n, w.half()),
        narrow_run(b, first, last, stuck, w.mid(), max_bitlen, fuel) is Some,
    ensures
        ({
            let r = narrow_run(b, first, last, stuck, w.mid(), max_bitlen, fuel).unwrap();
            sound(r.0, r.1, r.2, k, n, w, max_bitlen)
        }),
    decreases fuel,
{
    let o = ordered(b);
    let bits = width_bits(o.sp(), w.mid());
    lemma_narrow_order(b, first, k, n, w, max_bitlen);
    lemma_narrow_found(o, first, k, n, w, max_bitlen);
    if width_bits(o.nv(), w.mid()) <= max_bitlen {
    } else if bits > last || (bits == last && stuck >= 3) {
    } else {
        lemma_narrow_step(o, first, k, n, w, max_bitlen);
        lemma_narrow_run_sound(
            o.stepped(coefficient(o, first, w.mid())),
            false,
            if bits == last { last } else { bits },
            if bits == last { stuck + 1 } else { 0 },
            k,
            n,
            w,
            max_bitlen,
            (fuel - 1) as nat,
        );
    }
}

/// The passes at the full width, and those at the middle width after
/// them, end with a sound vector.
pub proof fn lemma_wide_run_sound(
    b: Basis,
    first: bool,
    k: int,
    n: int,
    w: Widths,
    max_bitlen: nat,
    fuel: nat,
)
    requires
        w.valid(),
        0 <= k < n < w.limit(),
        wide_inv(b, first, k, n, w.wide()),
        wide_run(b, first, w.wide(), w.mid(), max_bitlen, fuel) is Some,
    ensures
        ({
            let r = wide_run(b, first, w.wide(), w.mid(), max_bitlen, fuel).unwrap();
            sound(r.0, r.1, r.2, k, n, w, max_bitlen)
        }),
    decreases fuel,
{
    let o = ordered(b);
    lemma_wide_order(b, first, k, n, w, max_bitlen);
    if 2 * o.nu() < w.mid() {
        lemma_wide_switch(o, first, k, n, w, max_bitlen);
        lemma_narrow_run_sound(
            o,
            first,
            width_bits(o.sp(), w.mid()),
            0,
            k,
            n,
            w,
            max_bitlen,
            (fuel - 1) as nat,
        );
    } else if width_bits(o.nv(), w.wide()) <= max_bitlen {
        if max_bitlen <= w.e1 + 1 {
            lemma_wide_found(o, first, k, n, w, max_bitlen);
        }
    } else {
        b.lemma_swapped_gram();
        assert(ordered(o) == o);
        lemma_step_not_reduced(o, first, k, n, w, max_bitlen, fuel);
        lemma_wide_step(o, first, k, n, w, max_bitlen);
        lemma_wide_run_sound(
            o.stepped(coefficient(o, first, w.wide())),
            false,
            k,
            n,
            w,
            max_bitlen,
            (fuel - 1) as nat,
        );
    }
}

/// More fuel does not change what the passes at the middle width end
/// with.
pub proof fn lemma_narrow_run_stable(
    b: Basis,
    first: bool,
    last: nat,
    stuck: nat,
    mid: int,
    max_bitlen: nat,
    fuel: nat,
    more: nat,
)
    requires
        narrow_run(b, first, last, stuck, mid, max_bitlen, fuel) is Some,
        fuel <= more,
    ensures
        narrow_run(b, first, last, stuck, mid, max_bitlen, more) == narrow_run(
            b,
            first,
            last,
            stuck,
            mid,
            max_bitlen,
            fuel,
        ),
    decreases fuel,
{
    let o = ordered(b);
    let bits = width_bits(o.sp(), mid);
    if width_bits(o.nv(), mid) <= max_bitlen {
    } else if bits > last || (bits == last && stuck >= 3) {
    } else {
        lemma_narrow_run_stable(
            o.stepped(coefficient(o, first, mid)),
            false,
            if bits == last { last } else { bits },
            if bits == last { stuck + 1 } else { 0 },
            mid,
            max_bitlen,
            (fuel - 1) as nat,
            (more - 1) as nat,
        );
    }
}

/// More fuel does not change what the passes end with.
pub proof fn lemma_wide_run_stable(
    b: Basis,
    first: bool,
    wide: int,
    mid: int,
    max_bitlen: nat,
    fuel: nat,
    more: nat,
)
    requires
        wide_run(b, first, wide, mid, max_bitlen, fuel) is Some,
        fuel <= more,
    ensures
        wide_run(b, first, wide, mid, max_bitlen, more) == wide_run(
            b,
            first,
            wide,
            mid,
            max_bitlen,
            fuel,
        ),
    decreases fuel,
{
    let o = ordered(b);
    if 2 * o.nu() < mid {
        lemma_narrow_run_stable(
            o,
            first,
            width_bits(o.sp(), mid),
            0,
            mid,
            max_bitlen,
            (fuel - 1) as nat,
            (more - 1) as nat,
        );
    } else if width_bits(o.nv(), wide) <= max_bitlen {
    } else {
        lemma_wide_run_stable(
            o.stepped(coefficient(o, first, wide)),
            false,
            wide,
            mid,
            max_bitlen,
            (fuel - 1) as nat,
            (more - 1) as nat,
        );
    }
}

/// The squared norm of the shorter vector of the basis.
pub open spec fn shorter_norm(b: Basis) -> int {
    if b.nu() < b.nv() {
        b.nu()
    } else {
        b.nv()
    }
}

/// The shorter vector of the basis is as short as the shorter vector of a
/// reduced basis is bound to be: three times the square of its squared
/// norm is at most four times `n * n`.
pub open spec fn settled(b: Basis, n: int) -> bool {
    3 * (shorter_norm(b) * shorter_norm(b)) <= 4 * (n * n)
}

/// `n` is small enough for a lattice of determinant `n` to hold a vector
/// of squared norm below `2^max_bitlen`, whatever `k` is: `n` is below
/// `sqrt(3) / 2` times `2^max_bitlen`.
pub open spec fn below_bound(n: int, max_bitlen: nat) -> bool {
    4 * (n * n) < 3 * (pow2(max_bitlen) * pow2(max_bitlen))
}

/// Between passes at the middle width the reduction is on course: the
/// basis is settled, or the scalar product has lost a bit since the pass
/// before, or this is the first of these passes.
pub open spec fn on_course(b: Basis, last: nat, stuck: nat, n: int, mid: int) -> bool {
    ||| settled(b, n)
    ||| width_bits(ordered(b).sp(), mid) < last
    ||| (width_bits(ordered(b).sp(), mid) == last && stuck == 0)
}

/// Below the bound, a settled basis passes for short.
proof fn lemma_settled_short(nv: int, n: int, max_bitlen: nat)
    requires
        nv >= pow2(max_bitlen),
        below_bound(n, max_bitlen),
    ensures
        3 * (nv * nv) > 4 * (n * n),
{
    let p = pow2(max_bitlen) as int;
    assert(nv * nv >= p * p) by (nonlinear_arith)
        requires
            nv >= p >= 0,
    ;
}

/// A pass at the middle width that does not end the reduction for a short
/// vector does not end it at all, below the bound, and leaves it on
/// course.
pub proof fn lemma_narrow_pass_on_course(
    o: Basis,
    first: bool,
    last: nat,
    stuck: nat,
    k: int,
    n: int,
    w: Widths,
    max_bitlen: nat,
)
    requires
        w.valid(),
        0 <= k < n < w.limit(),
        below_bound(n, max_bitlen),
        narrow_ready(o, first, k, n, w.half()),
        on_course(o, last, stuck, n, w.mid()),
        width_bits(o.nv(), w.mid()) > max_bitlen,
    ensures
        width_bits(o.sp(), w.mid()) <= last,
        width_bits(o.sp(), w.mid()) == last ==> stuck == 0,
        forall|any: nat|
            on_course(
                o.stepped(coefficient(o, first, w.mid())),
                width_bits(o.sp(), w.mid()),
                any,
                n,
                w.mid(),
            ),
{
    let m = w.mid();
    let c = coefficient(o, first, m);
    let t = o.stepped(c);
    let s = step_shift(o.nv(), o.sp());
    let p = pow2(s) as int;
    w.lemma_widths();
    lemma_initial_order(k, n);
    o.lemma_spans_gram(k, n);
    lemma_narrow_found(o, first, k, n, w, max_bitlen);
    lemma_settled_short(o.nv(), n, max_bitlen);
    assert(shorter_norm(o) == o.nv());
    assert(ordered(o) == o);
    // The basis is not settled, hence not reduced.
    if 2 * abs(o.sp()) <= o.nv() {
        lemma_reduced_norm(o.nu(), o.nv(), o.sp(), n);
    }
    lemma_canonical_in_range(o.nv(), m);
    lemma_canonical_in_range(o.sp(), m);
    assert(c == if o.sp() >= 0 { -p } else { p });
    lemma_step_progress(o.nu(), o.nv(), o.sp());
    o.lemma_stepped_gram(c);
    lemma_narrow_step(o, first, k, n, w, max_bitlen);
    lemma_narrow_order(t, false, k, n, w, max_bitlen);
    let o2 = ordered(t);
    t.lemma_swapped_gram();
    o2.lemma_spans_gram(k, n);
    lemma_canonical_in_range(o2.sp(), m);
    if 2 * abs(t.sp()) <= o.nv() && 2 * abs(t.sp()) <= t.nu() {
        lemma_reduced_norm(o2.nu(), o2.nv(), o2.sp(), n);
        assert(shorter_norm(t) == o2.nv());
        assert(settled(t, n));
    } else {
        assert(width_bits(o2.sp(), m) < width_bits(o.sp(), m));
    }
}

/// Below the bound, the passes at the middle width end for a short
/// vector if they are on course.
pub proof fn lemma_narrow_run_short(
    b: Basis,
    first: bool,
    last: nat,
    stuck: nat,
    k: int,
    n: int,
    w: Widths,
    max_bitlen: nat,
    fuel: nat,
)
    requires
        w.valid(),
        0 <= k < n < w.limit(),
        below_bound(n, max_bitlen),
        narrow_inv(b, first, k, n, w.half()),
        on_course(b, last, stuck, n, w.mid()),
        narrow_run(b, first, last, stuck, w.mid(), max_bitlen, fuel) is Some,
    ensures
        narrow_run(b, first, last, stuck, w.mid(), max_bitlen, fuel).unwrap().2,
    decreases fuel,
{
    let o = ordered(b);
    let bits = width_bits(o.sp(), w.mid());
    lemma_narrow_order(b, first, k, n, w, max_bitlen);
    b.lemma_swapped_gram();
    assert(ordered(o) == o);
    assert(shorter_norm(o) == shorter_norm(b));
    if width_bits(o.nv(), w.mid()) <= max_bitlen {
    } else {
        lemma_narrow_pass_on_course(o, first, last, stuck, k, n, w, max_bitlen);
        lemma_narrow_step(o, first, k, n, w, max_bitlen);
        let last2 = if bits == last { last } else { bits };
        let stuck2 = if bits == last { stuck + 1 } else { 0 };
        assert(on_course(o.stepped(coefficient(o, first, w.mid())), bits, stuck2, n, w.mid()));
        lemma_narrow_run_short(
            o.stepped(coefficient(o, first, w.mid())),
            false,
            last2,
            stuck2,
            k,
            n,
            w,
            max_bitlen,
            (fuel - 1) as nat,
        );
    }
}

/// Below the bound, the passes at the full width, and those at the middle
/// width after them, end for a short vector.
pub proof fn lemma_wide_run_short(
    b: Basis,
    first: bool,
    k: int,
    n: int,
    w: Widths,
    max_bitlen: nat,
    fuel: nat,
)
    requires
        w.valid(),
        0 <= k < n < w.limit(),
        below_bound(n, max_bitlen),
        wide_inv(b, first, k, n, w.wide()),
        wide_run(b, first, w.wide(), w.mid(), max_bitlen, fuel) is Some,
    ensures
        wide_run(b, first, w.wide(), w.mid(), max_bitlen, fuel).unwrap().2,
    decreases fuel,
{
    let o = ordered(b);
    lemma_wide_order(b, first, k, n, w, max_bitlen);
    if 2 * o.nu() < w.mid() {
        lemma_wide_switch(o, first, k, n, w, max_bitlen);
        assert(ordered(o) == o);
        lemma_narrow_run_short(
            o,
            first,
            width_bits(o.sp(), w.mid()),
            0,
            k,
            n,
            w,
            max_bitlen,
            (fuel - 1) as nat,
        );
    } else if width_bits(o.nv(), w.wide()) <= max_bitlen {
    } else {
        b.lemma_swapped_gram();
        assert(ordered(o) == o);
        lemma_step_not_reduced(o, first, k, n, w, max_bitlen, fuel);
        lemma_wide_step(o, first, k, n, w, max_bitlen);
        lemma_wide_run_short(
            o.stepped(coefficient(o, first, w.wide())),
            false,
            k,
            n,
            w,
            max_bitlen,
            (fuel - 1) as nat,
        );
    }
}

/// Below the bound the reduction always ends for a short vector: with a
/// vector `(t0, t1)` of the lattice, other than zero, whose squared norm
/// is below `2^max_bitlen`, so that `k * t1` is congruent to `t0` modulo
/// `n`.
pub proof fn lemma_reduction_short(k: int, n: int, w: Widths, max_bitlen: nat, fuel: nat)
    requires
        w.valid(),
        0 <= k < n < w.limit(),
        below_bound(n, max_bitlen),
        max_bitlen <= w.e1 + 1,
        reduction(k, n, w.wide(), w.mid(), max_bitlen, fuel) is Some,
    ensures
        ({
            let r = reduction(k, n, w.wide(), w.mid(), max_bitlen, fuel).unwrap();
            &&& r.2
            &&& in_lattice(r.0, r.1, k, n)
            &&& 1 <= r.0 * r.0 + r.1 * r.1 < pow2(max_bitlen)
        }),
{
    lemma_initial_order(k, n);
    lemma_wide_run_short(Basis::initial(k, n), true, k, n, w, max_bitlen, fuel);
    lemma_wide_run_sound(Basis::initial(k, n), true, k, n, w, max_bitlen, fuel);
}

/// The reduction of `(n, 0)`, `(k, 1)` comes to an end.
pub open spec fn ends(k: int, n: int, w: Widths, max_bitlen: nat) -> bool {
    exists|fuel: nat| (#[trigger] reduction(k, n, w.wide(), w.mid(), max_bitlen, fuel)) is Some
}

/// The passes at the middle width come to an end: the bit length of the
/// scalar product cannot keep from growing for ever without shrinking.
pub proof fn lemma_narrow_ends(
    b: Basis,
    first: bool,
    last: nat,
    stuck: nat,
    k: int,
    n: int,
    w: Widths,
    max_bitlen: nat,
) -> (fuel: nat)
    requires
        w.valid(),
        0 <= k < n < w.limit(),
        narrow_inv(b, first, k, n, w.half()),
        stuck <= 3,
    ensures
        narrow_run(b, first, last, stuck, w.mid(), max_bitlen, fuel) is Some,
    decreases 4 * last + 3 - stuck,
{
    let o = ordered(b);
    let bits = width_bits(o.sp(), w.mid());
    lemma_narrow_order(b, first, k, n, w, max_bitlen);
    if width_bits(o.nv(), w.mid()) <= max_bitlen {
        1
    } else if bits > last || (bits == last && stuck >= 3) {
        1
    } else {
        lemma_narrow_step(o, first, k, n, w, max_bitlen);
        let rest = lemma_narrow_ends(
            o.stepped(coefficient(o, first, w.mid())),
            false,
            if bits == last { last } else { bits },
            if bits == last { stuck + 1 } else { 0 },
            k,
            n,
            w,
            max_bitlen,
        );
        rest + 1
    }
}

/// With enough `max_bitlen` the passes at the full width, and those at
/// the middle width after them, come to an end: every step at the full
/// width shortens the longer vector.
pub proof fn lemma_wide_ends(b: Basis, first: bool, k: int, n: int, w: Widths, max_bitlen: nat)
    -> (fuel: nat)
    requires
        w.valid(),
        0 <= k < n < w.limit(),
        wide_inv(b, first, k, n, w.wide()),
        goes(first, k, n, w, max_bitlen),
    ensures
        wide_run(b, first, w.wide(), w.mid(), max_bitlen, fuel) is Some,
    decreases b.nu() + b.nv(),
{
    let o = ordered(b);
    lemma_wide_order(b, first, k, n, w, max_bitlen);
    b.lemma_swapped_gram();
    b.lemma_norms_nonnegative();
    if 2 * o.nu() < w.mid() {
        lemma_wide_switch(o, first, k, n, w, max_bitlen);
        let rest = lemma_narrow_ends(o, first, width_bits(o.sp(), w.mid()), 0, k, n, w, max_bitlen);
        rest + 1
    } else if width_bits(o.nv(), w.wide()) <= max_bitlen {
        1
    } else {
        let c = coefficient(o, first, w.wide());
        lemma_goes_on(o, first, k, n, w, max_bitlen);
        lemma_wide_step(o, first, k, n, w, max_bitlen);
        o.lemma_stepped_gram(c);
        let rest = lemma_wide_ends(o.stepped(c), false, k, n, w, max_bitlen);
        rest + 1
    }
}

/// With enough `max_bitlen` the reduction comes to an end.
pub proof fn lemma_enough_ends(k: int, n: int, w: Widths, max_bitlen: nat)
    requires
        w.valid(),
        0 <= k < n < w.limit(),
        enough(k, n, w, max_bitlen),
    ensures
        ends(k, n, w, max_bitlen),
{
    lemma_initial_order(k, n);
    let fuel = lemma_wide_ends(Basis::initial(k, n), true, k, n, w, max_bitlen);
    assert(reduction(k, n, w.wide(), w.mid(), max_bitlen, fuel) is Some);
}

/// The reduction ends with one vector and one verdict, however much fuel
/// it is given beyond what it needs.
pub proof fn lemma_reduction_deterministic(
    k: int,
    n: int,
    wide: int,
    mid: int,
    max_bitlen: nat,
    fuel: nat,
    other: nat,
)
    requires
        reduction(k, n, wide, mid, max_bitlen, fuel) is Some,
        reduction(k, n, wide, mid, max_bitlen, other) is Some,
    ensures
        reduction(k, n, wide, mid, max_bitlen, fuel) == reduction(
            k,
            n,
            wide,
            mid,
            max_bitlen,
            other,
        ),
{
    let b = Basis::initial(k, n);
    if fuel <= other {
        lemma_wide_run_stable(b, true, wide, mid, max_bitlen, fuel, other);
    } else {
        lemma_wide_run_stable(b, true, wide, mid, max_bitlen, other, fuel);
    }
}

/// The vector that the reduction ends with is sound.
pub proof fn lemma_reduction_sound(k: int, n: int, w: Widths, max_bitlen: nat, fuel: nat)
    requires
        w.valid(),
        0 <= k < n < w.limit(),
        reduction(k, n, w.wide(), w.mid(), max_bitlen, fuel) is Some,
    ensures
        ({
            let r = reduction(k, n, w.wide(), w.mid(), max_bitlen, fuel).unwrap();
            sound(r.0, r.1, r.2, k, n, w, max_bitlen)
        }),
{
    lemma_initial_order(k, n);
    lemma_wide_run_sound(Basis::initial(k, n), true, k, n, w, max_bitlen, fuel);
}

/// When the first vector `(k, 1)` is short already the reduction ends at
/// once with it.
pub proof fn lemma_reduction_of_short_start(
    k: int,
    n: int,
    w: Widths,
    max_bitlen: nat,
    fuel: nat,
)
    requires
        w.valid(),
        0 <= k < n < w.limit(),
        k * k + 1 < pow2(max_bitlen),
        fuel >= 2,
    ensures
        reduction(k, n, w.wide(), w.mid(), max_bitlen, fuel) == Some((k, 1int, true)),
{
    let b = Basis::initial(k, n);
    w.lemma_widths();
    lemma_initial_order(k, n);
    assert(n * n < w.limit() * w.limit()) by (nonlinear_arith)
        requires
            0 <= n < w.limit(),
    ;
    assert(ordered(b) == b);
    lemma_bit_length_below(b.nv() as nat, max_bitlen);
    if 2 * b.nu() < w.mid() {
        lemma_width_bits_le(b.nv(), w.mid());
        assert(narrow_run(
            b,
            true,
            width_bits(b.sp(), w.mid()),
            0,
            w.mid(),
            max_bitlen,
            (fuel - 1) as nat,
        ) == Some((k, 1int, true)));
    } else {
        lemma_width_bits_le(b.nv(), w.wide());
    }
}

/// For `k = 0` and any `max_bitlen` but zero the reduction ends at once
/// with the vector `(0, 1)`.
pub proof fn lemma_reduction_of_zero(n: int, w: Widths, max_bitlen: nat, fuel: nat)
    requires
        w.valid(),
        0 < n < w.limit(),
        max_bitlen >= 1,
        fuel >= 2,
    ensures
        reduction(0, n, w.wide(), w.mid(), max_bitlen, fuel) == Some((0int, 1int, true)),
{
    lemma2_to64();
    if max_bitlen > 1 {
        lemma_pow2_strictly_increases(1, max_bitlen);
    }
    lemma_reduction_of_short_start(0, n, w, max_bitlen, fuel);
}

} // verus!
