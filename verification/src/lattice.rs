//! The two-dimensional lattice spanned by `(n, 0)` and `(k, 1)`, a basis
//! of it with its Gram values, and what one size-reduction step does to
//! them. Everything here is about unbounded integers.

use vstd::arithmetic::div_mod::{lemma_fundamental_div_mod, lemma_mod_multiples_basic};
use vstd::arithmetic::power2::{
    lemma2_to64, lemma_pow2_adds, lemma_pow2_pos, lemma_pow2_unfold, pow2,
};
use vstd::prelude::*;

use crate::algebra::{lemma_mul_exchange, lemma_mul_sums, lemma_square_sum};
use crate::word::{
    bit_length, lemma_bit_length_bounds, lemma_bit_length_le, lemma_bit_length_monotonic,
};

verus! {

/// The absolute value.
pub open spec fn abs(x: int) -> int {
    if x < 0 {
        -x
    } else {
        x
    }
}

/// A step by `c = -p` or `c = p`, against the sign of the scalar product,
/// shortens `u` whenever `p * nv` is below twice the size of the scalar
/// product.
pub proof fn lemma_step_shrinks(nv: int, sp: int, p: int)
    requires
        p >= 1,
        nv >= 1,
        p * nv < 2 * abs(sp),
    ensures
        ({
            let c = if sp >= 0 { -p } else { p };
            c * c * nv + 2 * c * sp < 0
        }),
{
    let c = if sp >= 0 { -p } else { p };
    let g = abs(sp);
    assert(c * c * nv == p * (p * nv)) by (nonlinear_arith)
        requires
            c == p || c == -p,
    ;
    assert(2 * c * sp == -(p * (2 * g))) by (nonlinear_arith)
        requires
            (sp >= 0 && c == -p && g == sp) || (sp < 0 && c == p && g == -sp),
    ;
    assert(p * (p * nv) - p * (2 * g) == p * (p * nv - 2 * g)) by (nonlinear_arith);
    assert(p * (p * nv - 2 * g) <= -1) by (nonlinear_arith)
        requires
            p >= 1,
            p * nv - 2 * g <= -1,
    ;
}

/// A pair with Gram determinant `n * n` whose longer vector has squared
/// norm at least `h` and whose shorter one at least `q`, with three times
/// `h * q` above four times `n * n`, is not yet reduced: twice the scalar
/// product exceeds the shorter squared norm.
pub proof fn lemma_not_reduced(nu: int, nv: int, sp: int, n: int, h: int, q: int)
    requires
        n >= 1,
        nu * nv - sp * sp == n * n,
        1 <= nv <= nu,
        0 <= h <= nu,
        0 <= q <= nv,
        3 * (h * q) > 4 * (n * n),
    ensures
        2 * abs(sp) > nv,
{
    let g = abs(sp);
    if 2 * g <= nv {
        assert(g * g == sp * sp) by (nonlinear_arith)
            requires
                g == sp || g == -sp,
        ;
        assert((2 * g) * (2 * g) <= nv * nv) by (nonlinear_arith)
            requires
                0 <= 2 * g <= nv,
        ;
        assert((2 * g) * (2 * g) == 4 * (g * g)) by (nonlinear_arith);
        assert(nv * nv <= nu * nv) by (nonlinear_arith)
            requires
                0 <= nv <= nu,
        ;
        assert(h * q <= nu * nv) by (nonlinear_arith)
            requires
                0 <= h <= nu,
                0 <= q <= nv,
        ;
        assert(n * n >= 1) by (nonlinear_arith)
            requires
                n >= 1,
        ;
        assert(false);
    }
}

/// With a positive Gram determinant the scalar product is smaller in size
/// than any bound on both squared norms.
pub proof fn lemma_scalar_bound(nu: int, nv: int, sp: int, n: int, bound: int)
    requires
        n >= 1,
        nu * nv - sp * sp == n * n,
        0 <= nu <= bound,
        0 <= nv <= bound,
    ensures
        abs(sp) < bound,
{
    let g = abs(sp);
    if g >= bound {
        assert(g * g == sp * sp) by (nonlinear_arith)
            requires
                g == sp || g == -sp,
        ;
        assert(g * g >= bound * bound) by (nonlinear_arith)
            requires
                g >= bound >= 0,
        ;
        assert(nu * nv <= bound * bound) by (nonlinear_arith)
            requires
                0 <= nu <= bound,
                0 <= nv <= bound,
        ;
        assert(n * n >= 1) by (nonlinear_arith)
            requires
                n >= 1,
        ;
        assert(false);
    }
}

/// With a positive Gram determinant neither squared norm is zero.
pub proof fn lemma_norms_positive(nu: int, nv: int, sp: int, n: int)
    requires
        n >= 1,
        nu * nv - sp * sp == n * n,
        nu >= 0,
        nv >= 0,
    ensures
        nu >= 1,
        nv >= 1,
{
    assert(sp * sp >= 0) by (nonlinear_arith);
    assert(n * n >= 1) by (nonlinear_arith)
        requires
            n >= 1,
    ;
    assert(nu >= 1 && nv >= 1) by (nonlinear_arith)
        requires
            nu * nv >= 1,
            nu >= 0,
            nv >= 0,
    ;
}

/// What the bit length of a two's-complement value is taken of: the value
/// itself, or `-x - 1` for a negative `x`.
pub open spec fn magnitude_of(x: int) -> nat {
    if x < 0 {
        (-x - 1) as nat
    } else {
        x as nat
    }
}

/// The shift of a step: the excess of the bit length of the scalar product
/// over that of the squared norm of `v`, if any.
pub open spec fn step_shift(nv: int, sp: int) -> nat {
    let a = bit_length(magnitude_of(sp));
    let b = bit_length(nv as nat);
    if a > b {
        (a - b) as nat
    } else {
        0
    }
}

/// With the shift of a step, `v * 2^s` is not longer than twice the
/// scalar product allows; and there is no shift when the scalar product is
/// no larger than the squared norm of `v`.
pub proof fn lemma_step_shift(nv: int, sp: int)
    requires
        nv >= 1,
    ensures
        pow2(step_shift(nv, sp)) >= 1,
        step_shift(nv, sp) > 0 ==> pow2(step_shift(nv, sp)) * nv < 2 * abs(sp),
        abs(sp) <= nv ==> step_shift(nv, sp) == 0,
{
    let m = magnitude_of(sp);
    let a = bit_length(m);
    let b = bit_length(nv as nat);
    let s = step_shift(nv, sp);
    lemma_pow2_pos(s);
    if s > 0 {
        lemma_bit_length_bounds(nv as nat);
        lemma_bit_length_bounds(m);
        lemma_pow2_adds(s, b);
        lemma_pow2_unfold(a);
        let p = pow2(s) as int;
        let pb = pow2(b) as int;
        assert(p * nv < p * pb) by (nonlinear_arith)
            requires
                p >= 1,
                nv < pb,
        ;
    }
    if abs(sp) <= nv {
        lemma_bit_length_monotonic(m, nv as nat);
    }
}

/// The state of the Gram values between two steps once the longer squared
/// norm has come below `h`: either both squared norms are below `h`, or
/// the last step has lengthened `u` from below `h`, and the next one will
/// take it back.
pub open spec fn tame(nu: int, nv: int, sp: int, h: int) -> bool {
    ||| (nu < h && nv < h)
    ||| (nv < h <= nu && abs(sp) <= nv && 2 * abs(sp) > nv && nu + nv - 2 * abs(sp) < h)
}

/// A step against the sign of the scalar product, by the shift of the
/// bit lengths, keeps the Gram values tame.
pub proof fn lemma_tame_preserved(nu: int, nv: int, sp: int, h: int, p: int)
    requires
        tame(nu, nv, sp, h),
        1 <= nv <= nu,
        p >= 1,
        p > 1 ==> p * nv < 2 * abs(sp),
        abs(sp) <= nv ==> p == 1,
        ({
            let c = if sp >= 0 { -p } else { p };
            nu + c * c * nv + 2 * c * sp >= 0
        }),
    ensures
        ({
            let c = if sp >= 0 { -p } else { p };
            tame(nu + c * c * nv + 2 * c * sp, nv, sp + c * nv, h)
        }),
{
    let c = if sp >= 0 { -p } else { p };
    if p > 1 {
        lemma_step_shrinks(nv, sp, p);
    } else {
        assert(c * c * nv == nv) by (nonlinear_arith)
            requires
                c == 1 || c == -1,
        ;
        assert(2 * c * sp == -2 * abs(sp)) by (nonlinear_arith)
            requires
                (c == -1 && sp >= 0) || (c == 1 && sp < 0),
        ;
        assert(c * nv == if sp >= 0 { -nv } else { nv }) by (nonlinear_arith)
            requires
                (c == -1 && sp >= 0) || (c == 1 && sp < 0),
        ;
    }
}

/// A step by the shift of the bit lengths, from a pair that is not
/// reduced, leaves a reduced pair or a scalar product of fewer bits.
pub proof fn lemma_step_progress(nu: int, nv: int, sp: int)
    requires
        1 <= nv <= nu,
        2 * abs(sp) > nv,
    ensures
        ({
            let p = pow2(step_shift(nv, sp)) as int;
            let c = if sp >= 0 { -p } else { p };
            let nu2 = nu + c * c * nv + 2 * c * sp;
            let sp2 = sp + c * nv;
            ||| (2 * abs(sp2) <= nv && 2 * abs(sp2) <= nu2)
            ||| bit_length(magnitude_of(sp2)) < bit_length(magnitude_of(sp))
        }),
{
    let m = magnitude_of(sp);
    let a = bit_length(m);
    let bz = bit_length(nv as nat);
    let s = step_shift(nv, sp);
    let p = pow2(s) as int;
    let c = if sp >= 0 { -p } else { p };
    let g = abs(sp);
    let sp2 = sp + c * nv;
    lemma_bit_length_bounds(nv as nat);
    lemma_bit_length_bounds(m);
    lemma_pow2_pos(s);
    assert(c * nv == if sp >= 0 { -(p * nv) } else { p * nv }) by (nonlinear_arith)
        requires
            c == (if sp >= 0 { -p } else { p }),
    ;
    let half = pow2((a - 1) as nat) as int;
    if s > 0 {
        lemma_pow2_unfold(a);
        // p * nv and the scalar product have the same bit length.
        lemma_pow2_adds(s, bz);
        lemma_pow2_adds(s, (bz - 1) as nat);
        assert(s + bz == a);
        assert(s + (bz - 1) as nat == (a - 1) as nat);
        let hi = pow2(bz) as int;
        let lo = pow2((bz - 1) as nat) as int;
        assert(p * lo <= p * nv < p * hi) by (nonlinear_arith)
            requires
                p >= 1,
                lo <= nv < hi,
        ;
        assert(magnitude_of(sp2) < half);
        lemma_bit_length_le(magnitude_of(sp2), (a - 1) as nat);
    } else {
        lemma2_to64();
        assert(p == 1);
        assert(p * nv == nv) by (nonlinear_arith)
            requires
                p == 1,
        ;
        assert(c * c * nv == nv) by (nonlinear_arith)
            requires
                c == 1 || c == -1,
        ;
        assert(2 * c * sp == -2 * g) by (nonlinear_arith)
            requires
                (c == -1 && sp >= 0 && g == sp) || (c == 1 && sp < 0 && g == -sp),
        ;
        if g < nv {
            // The pair after the step is reduced.
        } else if sp2 == 0 {
        } else {
            assert(m >= nv);
            assert(a == bz) by {
                lemma_bit_length_monotonic(nv as nat, m);
            }
            lemma_pow2_unfold(a);
            assert(magnitude_of(sp2) < half);
            lemma_bit_length_le(magnitude_of(sp2), (a - 1) as nat);
        }
    }
}

/// A reduced pair has a shorter vector of squared norm at most
/// `2 / sqrt(3)` times the determinant.
pub proof fn lemma_reduced_norm(nu: int, nv: int, sp: int, n: int)
    requires
        nu * nv - sp * sp == n * n,
        0 <= nv <= nu,
        2 * abs(sp) <= nv,
    ensures
        3 * (nv * nv) <= 4 * (n * n),
{
    let g = abs(sp);
    assert(g * g == sp * sp) by (nonlinear_arith)
        requires
            g == sp || g == -sp,
    ;
    assert((2 * g) * (2 * g) <= nv * nv) by (nonlinear_arith)
        requires
            0 <= 2 * g <= nv,
    ;
    assert((2 * g) * (2 * g) == 4 * (g * g)) by (nonlinear_arith);
    assert(nv * nv <= nu * nv) by (nonlinear_arith)
        requires
            0 <= nv <= nu,
    ;
}

/// A vector whose squared norm is below `h * h` has both coordinates
/// below `h` in size.
pub proof fn lemma_coordinate_bound(x: int, y: int, h: int)
    requires
        h >= 0,
        x * x + y * y < h * h,
    ensures
        abs(x) < h,
        abs(y) < h,
{
    assert(x * x >= 0 && y * y >= 0) by (nonlinear_arith);
    if abs(x) >= h {
        assert(x * x >= h * h) by (nonlinear_arith)
            requires
                (x >= h || -x >= h),
                h >= 0,
        ;
    }
    if abs(y) >= h {
        assert(y * y >= h * h) by (nonlinear_arith)
            requires
                (y >= h || -y >= h),
                h >= 0,
        ;
    }
}

/// A pair of plane vectors `u = (u0, u1)` and `v = (v0, v1)`.
pub struct Basis {
    pub u0: int,
    pub u1: int,
    pub v0: int,
    pub v1: int,
}

/// True iff `(x, y)` lies in the lattice spanned by `(n, 0)` and `(k, 1)`:
/// `x` is congruent to `k * y` modulo `n`.
pub open spec fn in_lattice(x: int, y: int, k: int, n: int) -> bool {
    (x - k * y) % n == 0
}

impl Basis {
    /// The squared norm of `u`.
    pub open spec fn nu(self) -> int {
        self.u0 * self.u0 + self.u1 * self.u1
    }

    /// The squared norm of `v`.
    pub open spec fn nv(self) -> int {
        self.v0 * self.v0 + self.v1 * self.v1
    }

    /// The scalar product of `u` and `v`.
    pub open spec fn sp(self) -> int {
        self.u0 * self.v0 + self.u1 * self.v1
    }

    /// The determinant of the pair.
    pub open spec fn det(self) -> int {
        self.u0 * self.v1 - self.u1 * self.v0
    }

    /// The basis that `(n, 0)` and `(k, 1)` make.
    pub open spec fn initial(k: int, n: int) -> Basis {
        Basis { u0: n, u1: 0, v0: k, v1: 1 }
    }

    /// The same vectors in the other order.
    pub open spec fn swapped(self) -> Basis {
        Basis { u0: self.v0, u1: self.v1, v0: self.u0, v1: self.u1 }
    }

    /// The basis after `c * v` is added to `u`.
    pub open spec fn stepped(self, c: int) -> Basis {
        Basis { u0: self.u0 + c * self.v0, u1: self.u1 + c * self.v1, v0: self.v0, v1: self.v1 }
    }

    /// Both vectors lie in the lattice of `k` and `n`, and they span all of
    /// it: their determinant is `n` up to sign.
    pub open spec fn spans(self, k: int, n: int) -> bool {
        &&& in_lattice(self.u0, self.u1, k, n)
        &&& in_lattice(self.v0, self.v1, k, n)
        &&& (self.det() == n || self.det() == -n)
    }

    /// Squared norms are not negative.
    pub proof fn lemma_norms_nonnegative(self)
        ensures
            self.nu() >= 0,
            self.nv() >= 0,
    {
        assert(self.u0 * self.u0 >= 0 && self.u1 * self.u1 >= 0) by (nonlinear_arith);
        assert(self.v0 * self.v0 >= 0 && self.v1 * self.v1 >= 0) by (nonlinear_arith);
    }

    /// Lagrange's identity: the Gram determinant is the square of the
    /// determinant.
    pub proof fn lemma_gram_determinant(self)
        ensures
            self.nu() * self.nv() - self.sp() * self.sp() == self.det() * self.det(),
    {
        let a = self.u0;
        let b = self.u1;
        let c = self.v0;
        let d = self.v1;
        lemma_mul_sums(a * a, b * b, c * c, d * d);
        lemma_square_sum(a * c, b * d);
        lemma_square_sum(a * d, b * c);
        lemma_mul_exchange(a, a, c, c);
        lemma_mul_exchange(a, a, d, d);
        lemma_mul_exchange(b, b, c, c);
        lemma_mul_exchange(b, b, d, d);
        lemma_mul_exchange(a, c, b, d);
        lemma_mul_exchange(a, d, b, c);
        assert(a * b == b * a) by (nonlinear_arith);
        assert(c * d == d * c) by (nonlinear_arith);
    }

    /// The Gram values after a step, in terms of those before it.
    pub proof fn lemma_stepped_gram(self, c: int)
        ensures
            self.stepped(c).nu() == self.nu() + c * c * self.nv() + 2 * c * self.sp(),
            self.stepped(c).sp() == self.sp() + c * self.nv(),
            self.stepped(c).nv() == self.nv(),
            self.stepped(c).det() == self.det(),
    {
        let a = self.u0;
        let b = self.u1;
        let x = self.v0;
        let y = self.v1;
        // the squared norm
        lemma_square_sum(a, c * x);
        lemma_square_sum(b, c * y);
        lemma_mul_exchange(c, x, c, x);
        lemma_mul_exchange(c, y, c, y);
        assert(a * (c * x) == c * (a * x)) by (nonlinear_arith);
        assert(b * (c * y) == c * (b * y)) by (nonlinear_arith);
        assert((c * c) * (x * x + y * y) == (c * c) * (x * x) + (c * c) * (y * y))
            by (nonlinear_arith);
        assert(c * (a * x + b * y) == c * (a * x) + c * (b * y)) by (nonlinear_arith);
        assert(2 * c * (a * x + b * y) == 2 * (c * (a * x + b * y))) by (nonlinear_arith);
        assert(c * c * (x * x + y * y) == (c * c) * (x * x + y * y));
        // the scalar product
        assert((a + c * x) * x == a * x + c * (x * x)) by (nonlinear_arith);
        assert((b + c * y) * y == b * y + c * (y * y)) by (nonlinear_arith);
        assert(c * (x * x + y * y) == c * (x * x) + c * (y * y)) by (nonlinear_arith);
        // the determinant
        assert((a + c * x) * y == a * y + c * (x * y)) by (nonlinear_arith);
        assert((b + c * y) * x == b * x + c * (x * y)) by (nonlinear_arith);
    }

    /// A step and a swap keep the pair a basis of the same lattice.
    pub proof fn lemma_spans_preserved(self, c: int, k: int, n: int)
        requires
            n > 0,
            self.spans(k, n),
        ensures
            self.stepped(c).spans(k, n),
            self.swapped().spans(k, n),
    {
        self.lemma_stepped_gram(c);
        let a = self.u0 - k * self.u1;
        let b = self.v0 - k * self.v1;
        lemma_fundamental_div_mod(a, n);
        lemma_fundamental_div_mod(b, n);
        let qa = a / n;
        let qb = b / n;
        assert((self.u0 + c * self.v0) - k * (self.u1 + c * self.v1) == (qa + c * qb) * n)
            by (nonlinear_arith)
            requires
                self.u0 - k * self.u1 == n * qa,
                self.v0 - k * self.v1 == n * qb,
        ;
        lemma_mod_multiples_basic(qa + c * qb, n);
        assert(self.swapped().det() == -self.det()) by (nonlinear_arith);
    }

    /// Exchanging the vectors exchanges the squared norms and keeps the
    /// scalar product.
    pub proof fn lemma_swapped_gram(self)
        ensures
            self.swapped().nu() == self.nv(),
            self.swapped().nv() == self.nu(),
            self.swapped().sp() == self.sp(),
    {
        assert(self.v0 * self.u0 == self.u0 * self.v0) by (nonlinear_arith);
        assert(self.v1 * self.u1 == self.u1 * self.v1) by (nonlinear_arith);
    }

    /// A basis of the lattice has Gram determinant `n * n`, and neither of
    /// its vectors is zero.
    pub proof fn lemma_spans_gram(self, k: int, n: int)
        requires
            n >= 1,
            self.spans(k, n),
        ensures
            self.nu() * self.nv() - self.sp() * self.sp() == n * n,
            self.nu() >= 1,
            self.nv() >= 1,
    {
        self.lemma_gram_determinant();
        self.lemma_norms_nonnegative();
        let d = self.det();
        assert(d * d == n * n) by (nonlinear_arith)
            requires
                d == n || d == -n,
        ;
        lemma_norms_positive(self.nu(), self.nv(), self.sp(), n);
    }

    /// The first basis spans the lattice.
    pub proof fn lemma_initial_spans(k: int, n: int)
        requires
            n > 0,
        ensures
            Self::initial(k, n).spans(k, n),
            Self::initial(k, n).nu() == n * n,
            Self::initial(k, n).nv() == k * k + 1,
            Self::initial(k, n).sp() == n * k,
    {
        let b = Self::initial(k, n);
        assert(n - k * 0 == 1 * n) by (nonlinear_arith);
        lemma_mod_multiples_basic(1, n);
        assert(k - k * 1 == 0 * n) by (nonlinear_arith);
        lemma_mod_multiples_basic(0, n);
        assert(b.det() == n) by (nonlinear_arith)
            requires
                b.det() == n * 1 - 0 * k,
        ;
        assert(b.nu() == n * n) by (nonlinear_arith)
            requires
                b.nu() == n * n + 0 * 0,
        ;
        assert(b.nv() == k * k + 1) by (nonlinear_arith)
            requires
                b.nv() == k * k + 1 * 1,
        ;
        assert(b.sp() == n * k) by (nonlinear_arith)
            requires
                b.sp() == n * k + 0 * 1,
        ;
    }
}

} // verus!
