//! Fixed-width integers of `N` limbs of 32 bits, read as unsigned or in
//! two's complement. Arithmetic wraps at the width.

use vstd::arithmetic::div_mod::{
    lemma_add_mod_noop, lemma_add_mod_noop_right, lemma_fundamental_div_mod_converse,
    lemma_mod_add_multiples_vanish, lemma_mod_mod, lemma_mod_multiples_basic,
    lemma_mul_mod_noop_left, lemma_small_mod, lemma_sub_mod_noop, lemma_sub_mod_noop_right,
};
use vstd::arithmetic::power2::{
    lemma2_to64, lemma_pow2_adds, lemma_pow2_pos, lemma_pow2_strictly_increases,
    lemma_pow2_unfold, pow2,
};
use vstd::prelude::*;

use crate::algebra::{lemma_mul_exchange, lemma_mul_rotate, lemma_mul_sums};
use crate::limbs::{
    lemma_complement, lemma_high_zero, lemma_prefix_bound, lemma_prefix_full,
    lemma_prefix_is_mod, lemma_prefix_le, lemma_prefix_step, lemma_radix_adds,
    lemma_radix_monotonic, lemma_radix_pos, lemma_radix_succ, lemma_radix_zero,
    lemma_value_bound, lemma_value_split, lemma_zero_value, limbs_value, radix, signed_of,
};
use crate::word::{
    addcarry_u32, bit_length, lemma_bit_length_le, lemma_bit_length_pow2,
    lemma_bit_length_shifted, lzcnt, sgnw, shl_carry, subborrow_u32, word_base,
};

verus! {

/// An integer of `N` limbs, least significant limb first.
#[derive(Clone, Copy, Debug)]
pub struct ZInt<const N: usize> {
    pub limbs: [u32; N],
}

/// An integer of 128 bits.
pub type ZInt128 = ZInt<4>;

/// An integer of 192 bits.
pub type ZInt192 = ZInt<6>;

/// An integer of 256 bits.
pub type ZInt256 = ZInt<8>;

/// An integer of 320 bits.
pub type ZInt320 = ZInt<10>;

/// An integer of 384 bits.
pub type ZInt384 = ZInt<12>;

/// An integer of 448 bits.
pub type ZInt448 = ZInt<14>;

/// An integer of 512 bits.
pub type ZInt512 = ZInt<16>;

/// An integer of 640 bits.
pub type ZInt640 = ZInt<20>;

/// An integer of 768 bits.
pub type ZInt768 = ZInt<24>;

/// An integer of 896 bits.
pub type ZInt896 = ZInt<28>;

/// An integer of 1024 bits.
pub type ZInt1024 = ZInt<32>;

/// One step of a carry chain: if the limbs below position `i` are summed
/// up to a carry, so are the limbs below `i + 1`.
proof fn lemma_add_chain(lo: int, a: int, b: int, r: int, x: int, y: int, c: int, d: int, e: int)
    requires
        lo + c * r == a + b,
        d + e * word_base() == x + y + c,
    ensures
        (lo + d * r) + e * (word_base() * r) == (a + x * r) + (b + y * r),
{
    assert((d + e * word_base()) * r == d * r + e * (word_base() * r)) by (nonlinear_arith);
    assert((x + y + c) * r == x * r + y * r + c * r) by (nonlinear_arith);
}

/// One step of a borrow chain read as a comparison: the borrow out of the
/// limbs below `i + 1` says which of the two prefixes is smaller.
proof fn lemma_borrow_sign(a: int, b: int, r: int, x: int, y: int, c: int, d: int, e: int)
    requires
        r > 0,
        c == 0 || c == 1,
        e == 0 || e == 1,
        0 <= d < word_base(),
        c == 0 ==> 0 <= a - b < r,
        c == 1 ==> -r <= a - b < 0,
        d - e * word_base() == x - y - c,
    ensures
        e == 0 ==> 0 <= (a + x * r) - (b + y * r) < word_base() * r,
        e == 1 ==> -(word_base() * r) <= (a + x * r) - (b + y * r) < 0,
{
    let low = if c == 1 { a - b + r } else { a - b };
    assert(0 <= low < r);
    assert(c * r == if c == 1 { r } else { 0 }) by (nonlinear_arith)
        requires
            c == 0 || c == 1,
    ;
    assert(e * (word_base() * r) == if e == 1 { word_base() * r } else { 0 }) by (nonlinear_arith)
        requires
            e == 0 || e == 1,
    ;
    assert(x * r - y * r == (d + c) * r - e * (word_base() * r)) by (nonlinear_arith)
        requires
            d - e * word_base() == x - y - c,
    ;
    assert((d + c) * r == d * r + c * r) by (nonlinear_arith);
    assert(0 <= d * r <= (word_base() - 1) * r) by (nonlinear_arith)
        requires
            0 <= d <= word_base() - 1,
            r > 0,
    ;
    assert((word_base() - 1) * r == word_base() * r - r) by (nonlinear_arith);
}

/// One step of a shift chain: limb `x` of the source, shifted by `p` and
/// joined with the carry from below, lands `rj` above its own weight `rd`.
proof fn lemma_shift_chain(
    acc: int,
    src: int,
    x: int,
    p: int,
    ri: int,
    rj: int,
    rd: int,
    carry: int,
    lo: int,
    hi: int,
)
    requires
        acc + carry * ri == src * p * rj,
        lo + hi * word_base() == x * p + carry,
        ri == rd * rj,
    ensures
        (acc + lo * ri) + hi * (word_base() * ri) == (src + x * rd) * p * rj,
{
    assert((lo + hi * word_base()) * ri == lo * ri + hi * (word_base() * ri)) by (nonlinear_arith);
    assert((x * p + carry) * ri == x * p * ri + carry * ri) by (nonlinear_arith);
    assert(x * p * ri == x * rd * p * rj) by (nonlinear_arith)
        requires
            ri == rd * rj,
    ;
    assert((src + x * rd) * p * rj == src * p * rj + x * rd * p * rj) by (nonlinear_arith);
}

/// Exclusive-or with a sign mask keeps a word or complements it.
proof fn lemma_xor_mask(w: u32)
    by (bit_vector)
    ensures
        w ^ 0 == w,
        w ^ 0xffff_ffff == 0xffff_ffff - w,
{
}

/// One step of a borrow chain.
proof fn lemma_sub_chain(lo: int, a: int, b: int, r: int, x: int, y: int, c: int, d: int, e: int)
    requires
        lo - c * r == a - b,
        d - e * word_base() == x - y - c,
    ensures
        (lo + d * r) - e * (word_base() * r) == (a + x * r) - (b + y * r),
{
    assert((d - e * word_base()) * r == d * r - e * (word_base() * r)) by (nonlinear_arith);
    assert((x - y - c) * r == x * r - y * r - c * r) by (nonlinear_arith);
}

impl<const N: usize> ZInt<N> {
    /// The number of values of this width.
    pub open spec fn modulus() -> nat {
        radix(N as nat)
    }

    /// The unsigned reading.
    pub open spec fn value(&self) -> nat {
        limbs_value(self.limbs@)
    }

    /// The two's-complement reading.
    pub open spec fn signed_value(&self) -> int {
        signed_of(self.value(), Self::modulus())
    }

    /// The two's-complement reading if it is not negative, else its bitwise
    /// complement: `-x - 1` for a negative `x`.
    pub open spec fn magnitude(&self) -> nat {
        if 2 * self.value() >= Self::modulus() {
            (Self::modulus() - 1 - self.value()) as nat
        } else {
            self.value()
        }
    }

    /// The value that the width holds for `x`: `x` modulo the modulus.
    pub open spec fn wrap(x: int) -> int {
        x % (Self::modulus() as int)
    }

    /// The unsigned reading is below the modulus.
    pub proof fn lemma_value_range(&self)
        ensures
            self.value() < Self::modulus(),
            Self::modulus() > 0,
    {
        lemma_value_bound(self.limbs@);
        lemma_radix_pos(N as nat);
    }

    /// Wrapping commutes with adding a multiple: if two values are those
    /// that the width holds for `x` and `y`, then what it holds for their
    /// combination is what it holds for the combination of `x` and `y`.
    pub proof fn lemma_wrap_add(x: int, y: int, c: int)
        ensures
            Self::wrap(Self::wrap(x) + Self::wrap(y) * c) == Self::wrap(x + y * c),
            Self::wrap(Self::wrap(x) - Self::wrap(y) * c) == Self::wrap(x - y * c),
    {
        let m = Self::modulus() as int;
        lemma_radix_pos(N as nat);
        lemma_mul_mod_noop_left(y, c, m);
        lemma_add_mod_noop(x, (y % m) * c, m);
        lemma_add_mod_noop(x, y * c, m);
        lemma_add_mod_noop_right(x % m, (y % m) * c, m);
        lemma_sub_mod_noop(x, (y % m) * c, m);
        lemma_sub_mod_noop(x, y * c, m);
        lemma_sub_mod_noop_right(x % m, (y % m) * c, m);
    }

    /// A value in range is held as it is.
    pub proof fn lemma_wrap_exact(x: int)
        requires
            0 <= x < Self::modulus(),
        ensures
            Self::wrap(x) == x,
    {
        lemma_small_mod(x as nat, Self::modulus());
    }

    /// A value within the two's-complement range is what the signed
    /// reading gives back.
    pub proof fn lemma_signed_exact(&self, x: int)
        requires
            N > 0,
            self.value() == Self::wrap(x),
            -(Self::modulus() as int) <= 2 * x < Self::modulus(),
        ensures
            self.signed_value() == x,
            self.magnitude() == if x < 0 {
                -x - 1
            } else {
                x
            },
    {
        let m = Self::modulus() as int;
        lemma_radix_pos(N as nat);
        if x >= 0 {
            lemma_small_mod(x as nat, m as nat);
        } else {
            lemma_radix_succ((N - 1) as nat);
            lemma_mod_add_multiples_vanish(x, m);
            lemma_small_mod((m + x) as nat, m as nat);
        }
    }

    /// Adding `b * 2^s` and then subtracting it, both wrapped at the width,
    /// gives back the value that was there, whatever was dropped on the
    /// way; and so does subtracting and then adding.
    pub proof fn lemma_add_sub_shifted(a: nat, b: nat, s: nat)
        requires
            a < Self::modulus(),
        ensures
            Self::wrap(Self::wrap(a as int + b * pow2(s)) - b * pow2(s)) == a,
            Self::wrap(Self::wrap(a as int - b * pow2(s)) + b * pow2(s)) == a,
    {
        let m = Self::modulus() as int;
        let t = (b * pow2(s)) as int;
        lemma_sub_mod_noop(a as int + t, t, m);
        lemma_sub_mod_noop_right((a as int + t) % m, t, m);
        lemma_add_mod_noop(a as int - t, t, m);
        lemma_add_mod_noop_right((a as int - t) % m, t, m);
        lemma_small_mod(a, Self::modulus());
    }

    /// Zero and minus one have a magnitude of no bits, and `2^m` one of
    /// `m + 1` bits as long as it leaves the sign bit clear.
    pub proof fn lemma_bitlength_values(&self, m: nat)
        requires
            N > 0,
        ensures
            self.value() == 0 ==> bit_length(self.magnitude()) == 0,
            self.value() == Self::modulus() - 1 ==> bit_length(self.magnitude()) == 0,
            self.value() == pow2(m) && m + 1 < 32 * N ==> bit_length(self.magnitude()) == m + 1,
    {
        self.lemma_value_range();
        lemma_pow2_pos(m);
        if m + 1 < 32 * N {
            lemma_pow2_unfold(32 * (N as nat));
            lemma_pow2_unfold(m + 1);
            if m + 1 < 32 * N - 1 {
                lemma_pow2_strictly_increases(m + 1, (32 * N - 1) as nat);
            }
            lemma_bit_length_pow2(m);
        }
        if Self::modulus() == 1 {
            lemma_radix_succ((N - 1) as nat);
            lemma_radix_pos((N - 1) as nat);
        }
    }

    /// The low `M` limbs: the value modulo the narrower width.
    pub fn truncated<const M: usize>(&self) -> (r: ZInt<M>)
        requires
            M <= N,
        ensures
            r.limbs@ == self.limbs@.take(M as int),
            r.value() == self.value() % radix(M as nat),
    {
        let mut r = ZInt::<M>::zero();
        let mut i: usize = 0;
        while i < M
            invariant
                i <= M <= N,
                forall|j: int| 0 <= j < i ==> r.limbs[j] == self.limbs[j],
            decreases M - i,
        {
            r.limbs[i] = self.limbs[i];
            i = i + 1;
        }
        proof {
            assert(r.limbs@ =~= self.limbs@.take(M as int));
            lemma_prefix_is_mod(self.limbs@, M as int);
        }
        r
    }

    /// What the narrower width holds for `x` follows from what the wider
    /// one holds for it.
    pub proof fn lemma_wrap_narrow<const M: usize>(x: int)
        requires
            M <= N,
        ensures
            Self::wrap(x) % (radix(M as nat) as int) == ZInt::<M>::wrap(x),
    {
        lemma_radix_adds(M as nat, (N - M) as nat);
        lemma_radix_pos(M as nat);
        lemma_radix_pos((N - M) as nat);
        lemma_mod_mod(x, radix(M as nat) as int, radix((N - M) as nat) as int);
    }

    /// Zero.
    pub fn zero() -> (r: Self)
        ensures
            r.value() == 0,
            forall|i: int| 0 <= i < N ==> r.limbs[i] == 0,
    {
        let r = ZInt { limbs: [0u32; N] };
        proof {
            lemma_zero_value(r.limbs@);
        }
        r
    }

    /// True iff `self < rhs`, both read as unsigned.
    pub fn lt(self, rhs: &Self) -> (r: bool)
        ensures
            r == (self.value() < rhs.value()),
    {
        let mut cc: u8 = 0;
        let mut i: usize = 0;
        proof {
            lemma_radix_zero();
        }
        while i < N
            invariant
                i <= N,
                cc <= 1,
                cc == 0 ==> 0 <= limbs_value(self.limbs@.take(i as int)) - limbs_value(
                    rhs.limbs@.take(i as int),
                ) < radix(i as nat),
                cc == 1 ==> -radix(i as nat) <= limbs_value(self.limbs@.take(i as int))
                    - limbs_value(rhs.limbs@.take(i as int)) < 0,
            decreases N - i,
        {
            let (d, ee) = subborrow_u32(self.limbs[i], rhs.limbs[i], cc);
            proof {
                lemma_prefix_step(self.limbs@, i as int);
                lemma_prefix_step(rhs.limbs@, i as int);
                lemma_radix_succ(i as nat);
                lemma_radix_pos(i as nat);
                lemma_borrow_sign(
                    limbs_value(self.limbs@.take(i as int)) as int,
                    limbs_value(rhs.limbs@.take(i as int)) as int,
                    radix(i as nat) as int,
                    self.limbs[i as int] as int,
                    rhs.limbs[i as int] as int,
                    cc as int,
                    d as int,
                    ee as int,
                );
            }
            cc = ee;
            i = i + 1;
        }
        proof {
            lemma_prefix_full(self.limbs@);
            lemma_prefix_full(rhs.limbs@);
            lemma_radix_pos(N as nat);
        }
        cc != 0
    }

    /// The pair `p` with its two values exchanged.
    pub open spec fn exchanged(p: (Self, Self)) -> (Self, Self) {
        (p.1, p.0)
    }

    /// Exchanging twice gives back the pair.
    pub proof fn lemma_exchanged_twice(p: (Self, Self))
        ensures
            Self::exchanged(Self::exchanged(p)) == p,
    {
    }

    /// Exchanges the contents of `self` and `rhs`.
    pub fn swap(&mut self, rhs: &mut Self)
        ensures
            (*final(self), *final(rhs)) == Self::exchanged((*old(self), *old(rhs))),
            final(self).limbs@ == old(rhs).limbs@,
            final(rhs).limbs@ == old(self).limbs@,
    {
        let t = *self;
        *self = *rhs;
        *rhs = t;
    }

    /// True iff the two's-complement reading is negative.
    pub fn is_negative(self) -> (r: bool)
        requires
            N > 0,
        ensures
            r == (self.signed_value() < 0),
            r == (self.limbs[N - 1] >= 0x8000_0000u32),
    {
        proof {
            self.lemma_top_limb();
        }
        self.limbs[N - 1] >= 0x8000_0000
    }

    /// The top limb decides the sign.
    pub proof fn lemma_top_limb(&self)
        requires
            N > 0,
        ensures
            (self.limbs[N - 1] >= 0x8000_0000u32) == (2 * self.value() >= Self::modulus()),
            (self.limbs[N - 1] >= 0x8000_0000u32) == (self.signed_value() < 0),
    {
        let s = self.limbs@;
        let r = radix((N - 1) as nat) as int;
        let lo = limbs_value(s.drop_last()) as int;
        let w = s.last() as int;
        lemma_value_bound(s.drop_last());
        lemma_radix_succ((N - 1) as nat);
        lemma_radix_pos((N - 1) as nat);
        assert(w >= 0x8000_0000 <==> 2 * (lo + w * r) >= word_base() * r) by (nonlinear_arith)
            requires
                0 <= lo < r,
                0 <= w < word_base(),
        ;
        self.lemma_value_range();
    }

    /// Adds `rhs` to `self`; returns the carry out of the top limb.
    pub fn add_words(&mut self, rhs: &Self) -> (cc: u8)
        ensures
            cc <= 1,
            final(self).value() + cc * Self::modulus() == old(self).value() + rhs.value(),
    {
        let mut cc: u8 = 0;
        let mut i: usize = 0;
        proof {
            lemma_radix_zero();
        }
        while i < N
            invariant
                i <= N,
                cc <= 1,
                forall|j: int| i <= j < N ==> self.limbs[j] == old(self).limbs[j],
                limbs_value(self.limbs@.take(i as int)) + cc * radix(i as nat) == limbs_value(
                    old(self).limbs@.take(i as int),
                ) + limbs_value(rhs.limbs@.take(i as int)),
            decreases N - i,
        {
            let ghost before = self.limbs@;
            let (d, ee) = addcarry_u32(self.limbs[i], rhs.limbs[i], cc);
            self.limbs[i] = d;
            proof {
                assert(self.limbs@.take(i as int) =~= before.take(i as int));
                lemma_prefix_step(self.limbs@, i as int);
                lemma_prefix_step(old(self).limbs@, i as int);
                lemma_prefix_step(rhs.limbs@, i as int);
                lemma_radix_succ(i as nat);
                lemma_add_chain(
                    limbs_value(before.take(i as int)) as int,
                    limbs_value(old(self).limbs@.take(i as int)) as int,
                    limbs_value(rhs.limbs@.take(i as int)) as int,
                    radix(i as nat) as int,
                    old(self).limbs[i as int] as int,
                    rhs.limbs[i as int] as int,
                    cc as int,
                    d as int,
                    ee as int,
                );
            }
            cc = ee;
            i = i + 1;
        }
        proof {
            lemma_prefix_full(self.limbs@);
            lemma_prefix_full(old(self).limbs@);
            lemma_prefix_full(rhs.limbs@);
        }
        cc
    }

    /// Subtracts `rhs` from `self`; returns the borrow out of the top limb.
    pub fn sub_words(&mut self, rhs: &Self) -> (cc: u8)
        ensures
            cc <= 1,
            final(self).value() - cc * Self::modulus() == old(self).value() - rhs.value(),
    {
        let mut cc: u8 = 0;
        let mut i: usize = 0;
        proof {
            lemma_radix_zero();
        }
        while i < N
            invariant
                i <= N,
                cc <= 1,
                forall|j: int| i <= j < N ==> self.limbs[j] == old(self).limbs[j],
                limbs_value(self.limbs@.take(i as int)) - cc * radix(i as nat) == limbs_value(
                    old(self).limbs@.take(i as int),
                ) - limbs_value(rhs.limbs@.take(i as int)),
            decreases N - i,
        {
            let ghost before = self.limbs@;
            let (d, ee) = subborrow_u32(self.limbs[i], rhs.limbs[i], cc);
            self.limbs[i] = d;
            proof {
                assert(self.limbs@.take(i as int) =~= before.take(i as int));
                lemma_prefix_step(self.limbs@, i as int);
                lemma_prefix_step(old(self).limbs@, i as int);
                lemma_prefix_step(rhs.limbs@, i as int);
                lemma_radix_succ(i as nat);
                lemma_sub_chain(
                    limbs_value(before.take(i as int)) as int,
                    limbs_value(old(self).limbs@.take(i as int)) as int,
                    limbs_value(rhs.limbs@.take(i as int)) as int,
                    radix(i as nat) as int,
                    old(self).limbs[i as int] as int,
                    rhs.limbs[i as int] as int,
                    cc as int,
                    d as int,
                    ee as int,
                );
            }
            cc = ee;
            i = i + 1;
        }
        proof {
            lemma_prefix_full(self.limbs@);
            lemma_prefix_full(old(self).limbs@);
            lemma_prefix_full(rhs.limbs@);
        }
        cc
    }

    /// The bit length of the magnitude; zero for `0` and for `-1`.
    pub fn bitlength(self) -> (r: u32)
        requires
            0 < N <= 0x0400_0000,
        ensures
            r == bit_length(self.magnitude()),
            r <= 32 * N,
    {
        proof {
            self.lemma_value_range();
            lemma_bit_length_le(self.magnitude(), 32 * (N as nat));
        }
        let m: u32 = sgnw(self.limbs[N - 1]);
        let ghost c = Seq::new(N as nat, |k: int| self.limbs[k] ^ m);
        proof {
            self.lemma_top_limb();
            self.lemma_value_range();
            assert forall|k: int| 0 <= k < N implies #[trigger] c[k] == (if m == 0 {
                self.limbs[k]
            } else {
                (0xffff_ffff - self.limbs[k]) as u32
            }) by {
                lemma_xor_mask(self.limbs[k]);
            }
            if m == 0 {
                assert(c =~= self.limbs@);
            } else {
                lemma_complement(self.limbs@, c);
            }
            assert(limbs_value(c) == self.magnitude());
        }
        let mut i: usize = N;
        while i > 0
            invariant
                i <= N,
                0 < N <= 0x0400_0000,
                c == Seq::new(N as nat, |k: int| self.limbs[k] ^ m),
                limbs_value(c) == self.magnitude(),
                forall|k: int| i <= k < N ==> c[k] == 0,
            decreases i,
        {
            i = i - 1;
            let aw: u32 = self.limbs[i] ^ m;
            if aw != 0 {
                let z: u32 = lzcnt(aw);
                proof {
                    assert(c[i as int] == aw);
                    lemma_high_zero(c, i + 1);
                    lemma_prefix_step(c, i as int);
                    lemma_prefix_bound(c, i as int);
                    lemma_bit_length_shifted(
                        aw as nat,
                        32 * (i as nat),
                        limbs_value(c.take(i as int)),
                    );
                    lemma2_to64();
                    lemma_bit_length_le(aw as nat, 32);
                }
                return 32 * (i as u32) + 32 - z;
            }
            assert(c[i as int] == 0);
        }
        proof {
            lemma_zero_value(c);
        }
        0
    }

    /// True iff the unsigned reading is below `2^(32 * s - 1)`: the top
    /// bit of limb `s - 1` and all limbs above it are clear.
    pub fn ltnw(self, s: usize) -> (r: bool)
        requires
            0 < s <= N,
        ensures
            r == (2 * self.value() < radix(s as nat)),
    {
        let mut i: usize = s;
        while i < N
            invariant
                s <= i <= N,
                forall|k: int| s <= k < i ==> self.limbs[k] == 0,
            decreases N - i,
        {
            if self.limbs[i] != 0 {
                proof {
                    lemma_prefix_le(self.limbs@, i + 1);
                    lemma_prefix_step(self.limbs@, i as int);
                    lemma_radix_monotonic(s as nat, i as nat);
                    let w = self.limbs[i as int] as int;
                    let ri = radix(i as nat) as int;
                    assert(w * ri >= ri) by (nonlinear_arith)
                        requires
                            w >= 1,
                            ri >= 0,
                    ;
                }
                return false;
            }
            i = i + 1;
        }
        proof {
            lemma_high_zero(self.limbs@, s as int);
            lemma_prefix_step(self.limbs@, s - 1);
            lemma_prefix_bound(self.limbs@, s - 1);
            lemma_radix_succ((s - 1) as nat);
            lemma_radix_pos((s - 1) as nat);
            let lo = limbs_value(self.limbs@.take(s - 1)) as int;
            let w = self.limbs[s - 1] as int;
            let r = radix((s - 1) as nat) as int;
            assert(w < 0x8000_0000 <==> 2 * (lo + w * r) < word_base() * r) by (nonlinear_arith)
                requires
                    0 <= lo < r,
                    0 <= w < word_base(),
            ;
        }
        self.limbs[s - 1] < 0x8000_0000
    }

    /// `self` times `2^s`, wrapped at the width: the bits shifted past the
    /// top limb are dropped.
    pub fn shifted(&self, s: u32) -> (r: Self)
        ensures
            r.value() == Self::wrap((self.value() * pow2(s as nat)) as int),
    {
        let mut out = Self::zero();
        let j: usize = (s >> 5) as usize;
        let t: u32 = s & 31;
        assert(t < 32 && (s >> 5) * 32 + t == s) by (bit_vector)
            requires
                t == s & 31,
        ;
        proof {
            lemma_radix_pos(N as nat);
            lemma_pow2_adds(32 * (j as nat), t as nat);
            lemma_pow2_pos(t as nat);
        }
        if j >= N {
            proof {
                // 2^s is a multiple of the modulus.
                let d = (j - N) as nat;
                lemma_radix_adds(N as nat, d);
                let m = radix(N as nat) as int;
                let q = self.value() as int * (radix(d) as int * pow2(t as nat) as int);
                assert(self.value() * pow2(s as nat) == q * m) by (nonlinear_arith)
                    requires
                        pow2(s as nat) == radix(j as nat) * pow2(t as nat),
                        radix(j as nat) == m * radix(d),
                        q == self.value() as int * (radix(d) as int * pow2(t as nat) as int),
                ;
                lemma_mod_multiples_basic(q, m);
            }
            return out;
        }
        let mut carry: u32 = 0;
        let mut i: usize = j;
        proof {
            assert(out.limbs@.take(j as int) =~= Seq::new(j as nat, |k: int| 0u32));
            lemma_zero_value(out.limbs@.take(j as int));
            assert(self.limbs@.take(0).len() == 0);
            let p = pow2(t as nat) as int;
            let rj = radix(j as nat) as int;
            assert(0 * rj == 0 && 0 * p * rj == 0) by (nonlinear_arith);
        }
        while i < N
            invariant
                j <= i <= N,
                t < 32,
                carry < pow2(t as nat),
                limbs_value(out.limbs@.take(i as int)) + carry * radix(i as nat) == limbs_value(
                    self.limbs@.take(i - j),
                ) * pow2(t as nat) * radix(j as nat),
            decreases N - i,
        {
            let ghost before = out.limbs@;
            let (lo, hi) = shl_carry(self.limbs[i - j], t, carry);
            out.limbs[i] = lo;
            proof {
                assert(out.limbs@.take(i as int) =~= before.take(i as int));
                lemma_prefix_step(out.limbs@, i as int);
                lemma_prefix_step(self.limbs@, i - j);
                lemma_radix_succ(i as nat);
                lemma_radix_adds((i - j) as nat, j as nat);
                let acc = limbs_value(before.take(i as int)) as int;
                let src = limbs_value(self.limbs@.take(i - j)) as int;
                let x = self.limbs[i - j] as int;
                let p = pow2(t as nat) as int;
                let ri = radix(i as nat) as int;
                let rj = radix(j as nat) as int;
                let rd = radix((i - j) as nat) as int;
                lemma_shift_chain(acc, src, x, p, ri, rj, rd, carry as int, lo as int, hi as int);
            }
            carry = hi;
            i = i + 1;
        }
        proof {
            let k = (N - j) as int;
            lemma_prefix_full(out.limbs@);
            lemma_value_split(self.limbs@, k);
            lemma_value_bound(out.limbs@);
            lemma_radix_adds(k as nat, j as nat);
            let m = radix(N as nat) as int;
            let low = limbs_value(self.limbs@.take(k)) as int;
            let high = limbs_value(self.limbs@.skip(k)) as int;
            let p = pow2(t as nat) as int;
            let rj = radix(j as nat) as int;
            let rk = radix(k as nat) as int;
            let q = carry + high * p;
            let v = self.value() as int;
            let e = pow2(s as nat) as int;
            let o = out.value() as int;
            let c = carry as int;
            lemma_mul_sums(low, high * rk, rj * p, 0);
            lemma_mul_rotate(low, rj, p);
            lemma_mul_exchange(high, rk, p, rj);
            assert(rj * p == p * rj) by (nonlinear_arith);
            assert(low * 0 == 0 && (high * rk) * 0 == 0);
            assert(v * e == low * p * rj + high * p * m);
            assert(q * m + o == (o + c * m) + high * p * m) by (nonlinear_arith)
                requires
                    q == c + high * p,
            ;
            lemma_fundamental_div_mod_converse(
                (self.value() * pow2(s as nat)) as int,
                m,
                q,
                out.value() as int,
            );
        }
        out
    }

    /// Adds `rhs * 2^s` to `self`, wrapping at the width. A shift of the
    /// whole width or more leaves `self` as it is.
    pub fn set_add_shifted(&mut self, rhs: &Self, s: u32)
        ensures
            final(self).value() == Self::wrap(
                old(self).value() as int + rhs.value() * pow2(s as nat),
            ),
    {
        let t = rhs.shifted(s);
        let cc = self.add_words(&t);
        proof {
            let m = Self::modulus() as int;
            let full = (rhs.value() * pow2(s as nat)) as int;
            self.lemma_value_range();
            lemma_add_mod_noop_right(old(self).value() as int, full, m);
            assert(cc * m == m * cc) by (nonlinear_arith);
            lemma_fundamental_div_mod_converse(
                (old(self).value() + t.value()) as int,
                m,
                cc as int,
                self.value() as int,
            );
        }
    }

    /// Subtracts `rhs * 2^s` from `self`, wrapping at the width. A shift of
    /// the whole width or more leaves `self` as it is.
    pub fn set_sub_shifted(&mut self, rhs: &Self, s: u32)
        ensures
            final(self).value() == Self::wrap(
                old(self).value() as int - rhs.value() * pow2(s as nat),
            ),
    {
        let t = rhs.shifted(s);
        let cc = self.sub_words(&t);
        proof {
            let m = Self::modulus() as int;
            let full = (rhs.value() * pow2(s as nat)) as int;
            self.lemma_value_range();
            lemma_sub_mod_noop_right(old(self).value() as int, full, m);
            assert((-(cc as int)) * m == -(cc * m)) by (nonlinear_arith);
            lemma_fundamental_div_mod_converse(
                old(self).value() - t.value(),
                m,
                -(cc as int),
                self.value() as int,
            );
        }
    }
}

} // verus!
