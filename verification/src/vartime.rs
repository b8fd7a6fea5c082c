//! Entry points: the reduction by operand size, for operands given as
//! slices, and for 256-bit operands with the result as two machine
//! integers.

use vstd::arithmetic::div_mod::lemma_mod_mod;
use vstd::arithmetic::power2::{
    lemma2_to64, lemma_pow2_adds, lemma_pow2_strictly_increases, lemma_pow2_unfold, pow2,
};
use vstd::prelude::*;

use crate::lattice::{in_lattice, lemma_coordinate_bound, Basis};
use crate::limbs::{
    lemma_high_zero, lemma_prefix_is_mod, lemma_prefix_step, lemma_radix_adds, lemma_radix_pos,
    lemma_radix_zero, lemma_value_bound, limbs_value, radix, signed_of,
};
use crate::model::{
    below_bound, ends, lemma_ample_by_width, lemma_canonical_in_range, lemma_enough_ends,
    lemma_initial_order, lemma_reduction_sound, lemma_wide_run_short, reduction, sound, Widths,
};
use crate::reduce::{lagrange_reduce, lemma_reduced_sound, reduced_from, widths, Reduced};
use crate::zint::ZInt;

verus! {

/// The reduction for operands of 8 limbs.
pub fn lagrange256_vartime(k: &[u32; 8], n: &[u32; 8], max_bitlen: u32) -> (r: Reduced<4>)
    requires
        limbs_value(k@) < limbs_value(n@),
        ends(
            limbs_value(k@) as int,
            limbs_value(n@) as int,
            widths(8, 12),
            max_bitlen as nat,
        ),
    ensures
        exists|fuel: nat, t0: int, t1: int| #[trigger]
            reduced_from(
                r,
                limbs_value(k@) as int,
                limbs_value(n@) as int,
                widths(8, 12),
                max_bitlen as nat,
                fuel,
                t0,
                t1,
            ),
{
    lagrange_reduce::<4, 8, 12, 16>(k, n, max_bitlen)
}

/// The reduction for operands of 10 limbs.
pub fn lagrange320_vartime(k: &[u32; 10], n: &[u32; 10], max_bitlen: u32) -> (r: Reduced<6>)
    requires
        limbs_value(k@) < limbs_value(n@),
        ends(
            limbs_value(k@) as int,
            limbs_value(n@) as int,
            widths(10, 14),
            max_bitlen as nat,
        ),
    ensures
        exists|fuel: nat, t0: int, t1: int| #[trigger]
            reduced_from(
                r,
                limbs_value(k@) as int,
                limbs_value(n@) as int,
                widths(10, 14),
                max_bitlen as nat,
                fuel,
                t0,
                t1,
            ),
{
    lagrange_reduce::<6, 10, 14, 20>(k, n, max_bitlen)
}

/// The reduction for operands of 12 limbs.
pub fn lagrange384_vartime(k: &[u32; 12], n: &[u32; 12], max_bitlen: u32) -> (r: Reduced<6>)
    requires
        limbs_value(k@) < limbs_value(n@),
        ends(
            limbs_value(k@) as int,
            limbs_value(n@) as int,
            widths(12, 16),
            max_bitlen as nat,
        ),
    ensures
        exists|fuel: nat, t0: int, t1: int| #[trigger]
            reduced_from(
                r,
                limbs_value(k@) as int,
                limbs_value(n@) as int,
                widths(12, 16),
                max_bitlen as nat,
                fuel,
                t0,
                t1,
            ),
{
    lagrange_reduce::<6, 12, 16, 24>(k, n, max_bitlen)
}

/// The reduction for operands of 14 limbs.
pub fn lagrange448_vartime(k: &[u32; 14], n: &[u32; 14], max_bitlen: u32) -> (r: Reduced<8>)
    requires
        limbs_value(k@) < limbs_value(n@),
        ends(
            limbs_value(k@) as int,
            limbs_value(n@) as int,
            widths(14, 20),
            max_bitlen as nat,
        ),
    ensures
        exists|fuel: nat, t0: int, t1: int| #[trigger]
            reduced_from(
                r,
                limbs_value(k@) as int,
                limbs_value(n@) as int,
                widths(14, 20),
                max_bitlen as nat,
                fuel,
                t0,
                t1,
            ),
{
    lagrange_reduce::<8, 14, 20, 28>(k, n, max_bitlen)
}

/// The reduction for operands of 16 limbs.
pub fn lagrange512_vartime(k: &[u32; 16], n: &[u32; 16], max_bitlen: u32) -> (r: Reduced<8>)
    requires
        limbs_value(k@) < limbs_value(n@),
        ends(
            limbs_value(k@) as int,
            limbs_value(n@) as int,
            widths(16, 24),
            max_bitlen as nat,
        ),
    ensures
        exists|fuel: nat, t0: int, t1: int| #[trigger]
            reduced_from(
                r,
                limbs_value(k@) as int,
                limbs_value(n@) as int,
                widths(16, 24),
                max_bitlen as nat,
                fuel,
                t0,
                t1,
            ),
{
    lagrange_reduce::<8, 16, 24, 32>(k, n, max_bitlen)
}

/// The number of limbs that operands of `len` limbs are reduced at: `len`
/// made even.
pub open spec fn operand_limbs(len: nat) -> nat {
    len + len % 2
}

/// The middle Gram width, in limbs, for operands of `n1` limbs.
pub open spec fn middle_limbs(n1: nat) -> nat {
    if n1 == 8 {
        12
    } else if n1 == 10 {
        14
    } else if n1 == 12 {
        16
    } else if n1 == 14 {
        20
    } else {
        24
    }
}

/// The widths at which operands of `len` limbs are reduced.
pub open spec fn slice_widths(len: nat) -> Widths {
    widths(operand_limbs(len), middle_limbs(operand_limbs(len)))
}

/// `c0` and `c1` hold the low limbs of the vector that the reduction of
/// `(n, 0)`, `(k, 1)` at the widths `w` ends with.
pub open spec fn holds_reduction(
    c0: Seq<u32>,
    c1: Seq<u32>,
    k: int,
    n: int,
    w: Widths,
    max_bitlen: nat,
    fuel: nat,
    t0: int,
    t1: int,
    short: bool,
) -> bool {
    &&& reduction(k, n, w.wide(), w.mid(), max_bitlen, fuel) == Some((t0, t1, short))
    &&& limbs_value(c0) == t0 % (radix(c0.len()) as int)
    &&& limbs_value(c1) == t1 % (radix(c1.len()) as int)
}

/// Copies `a` into the low limbs of a buffer of 16 limbs.
fn widen(a: &[u32]) -> (r: [u32; 16])
    requires
        a@.len() <= 16,
    ensures
        r@.take(a@.len() as int) == a@,
        forall|i: int| a@.len() <= i < 16 ==> r[i] == 0,
{
    let mut r = [0u32; 16];
    let len = a.len();
    let mut i: usize = 0;
    while i < len
        invariant
            i <= len,
            len == a@.len(),
            len <= 16,
            forall|j: int| 0 <= j < i ==> r[j] == a@[j],
            forall|j: int| i <= j < 16 ==> r[j] == 0,
        decreases len - i,
    {
        r[i] = a[i];
        i = i + 1;
    }
    proof {
        assert(r@.take(len as int) =~= a@);
    }
    r
}

/// The low `M` limbs of a buffer of 16 limbs.
fn low<const M: usize>(a: &[u32; 16]) -> (r: [u32; M])
    requires
        M <= 16,
    ensures
        r@ == a@.take(M as int),
{
    let mut r = [0u32; M];
    let mut i: usize = 0;
    while i < M
        invariant
            i <= M <= 16,
            forall|j: int| 0 <= j < i ==> r[j] == a[j],
        decreases M - i,
    {
        r[i] = a[i];
        i = i + 1;
    }
    proof {
        assert(r@ =~= a@.take(M as int));
    }
    r
}

/// Copies the low limbs of `v` into `out`.
fn store<const N0: usize>(v: &ZInt<N0>, out: &mut [u32])
    requires
        old(out)@.len() <= N0,
    ensures
        final(out)@.len() == old(out)@.len(),
        final(out)@ == v.limbs@.take(old(out)@.len() as int),
{
    let len = out.len();
    let mut i: usize = 0;
    while i < len
        invariant
            i <= len <= N0,
            len == out@.len(),
            forall|j: int| 0 <= j < i ==> out@[j] == v.limbs[j],
        decreases len - i,
    {
        out[i] = v.limbs[i];
        i = i + 1;
    }
    proof {
        assert(out@ =~= v.limbs@.take(len as int));
    }
}

/// A buffer that holds `a` in its low limbs and zeros above holds the
/// value of `a` in its low `m` limbs, for any `m` that covers `a`.
proof fn lemma_widened(a: Seq<u32>, r: Seq<u32>, m: int)
    requires
        a.len() <= m <= r.len(),
        r.take(a.len() as int) == a,
        forall|i: int| a.len() <= i < r.len() ==> r[i] == 0,
    ensures
        limbs_value(r.take(m)) == limbs_value(a),
{
    lemma_high_zero(r.take(m), a.len() as int);
    assert(r.take(m).take(a.len() as int) =~= r.take(a.len() as int));
}

/// The low limbs of a result hold the vector modulo their own width.
proof fn lemma_stored<const N0: usize>(v: ZInt<N0>, out: Seq<u32>, t: int)
    requires
        out.len() <= N0,
        out == v.limbs@.take(out.len() as int),
        v.value() == ZInt::<N0>::wrap(t),
    ensures
        limbs_value(out) == t % (radix(out.len()) as int),
{
    let len = out.len();
    lemma_prefix_is_mod(v.limbs@, len as int);
    lemma_radix_adds(len, (N0 - len) as nat);
    lemma_radix_pos(len);
    lemma_radix_pos((N0 - len) as nat);
    lemma_mod_mod(t, radix(len) as int, radix((N0 - len) as nat) as int);
}

/// What the buffers of a reduction hold: the vector that the reduction
/// ends with is sound; below the bound the reduction ends for a short
/// vector; and buffers that stand for a short vector and have room for it
/// hold its coordinates exactly, in two's complement.
pub proof fn lemma_holds_reduction(
    c0: Seq<u32>,
    c1: Seq<u32>,
    k: int,
    n: int,
    w: Widths,
    max_bitlen: nat,
    fuel: nat,
    t0: int,
    t1: int,
    short: bool,
)
    requires
        w.valid(),
        0 <= k < n < w.limit(),
        holds_reduction(c0, c1, k, n, w, max_bitlen, fuel, t0, t1, short),
    ensures
        sound(t0, t1, short, k, n, w, max_bitlen),
        below_bound(n, max_bitlen) ==> short,
        short && max_bitlen <= w.e1 + 1 && c0.len() == c1.len() && 0 < c0.len() && max_bitlen
            <= 64 * c0.len() - 2 ==> {
            &&& signed_of(limbs_value(c0), radix(c0.len())) == t0
            &&& signed_of(limbs_value(c1), radix(c1.len())) == t1
        },
{
    lemma_reduction_sound(k, n, w, max_bitlen, fuel);
    if below_bound(n, max_bitlen) {
        lemma_initial_order(k, n);
        lemma_wide_run_short(Basis::initial(k, n), true, k, n, w, max_bitlen, fuel);
    }
    if short && max_bitlen <= w.e1 + 1 && c0.len() == c1.len() && 0 < c0.len() && max_bitlen <= 64
        * c0.len() - 2 {
        let len = c0.len();
        let e = (32 * len - 1) as nat;
        let h = pow2(e) as int;
        lemma_pow2_adds(e, e);
        lemma_pow2_unfold(32 * len);
        if max_bitlen < 64 * len - 2 {
            lemma_pow2_strictly_increases(max_bitlen, (64 * len - 2) as nat);
        }
        assert(e + e == (64 * len - 2) as nat);
        lemma_coordinate_bound(t0, t1, h);
        lemma_canonical_in_range(t0, radix(len) as int);
        lemma_canonical_in_range(t1, radix(len) as int);
        lemma_value_bound(c0);
        lemma_value_bound(c1);
    }
}

/// Reduces the basis `(n, 0)`, `(k, 1)` for operands of 8 to 16 limbs and
/// writes the low limbs of the vector it ends with to `c0` and `c1`, in
/// two's complement.
///
/// `k` and `n` have the same length and `k` is below `n`; `c0` and `c1`
/// have at most half as many limbs as `n`, rounded up. The reduction ends
/// when the shorter vector has a squared norm of at most `max_bitlen`
/// bits, or when it comes to a standstill. The reduction must be one that
/// comes to an end: `lemma_enough_ends` names values of `max_bitlen` with
/// which it does, among them any value for a modulus whose square fits the
/// middle width.
pub fn lagrange_vartime(k: &[u32], n: &[u32], max_bitlen: u32, c0: &mut [u32], c1: &mut [u32])
    requires
        8 <= n@.len() <= 16,
        k@.len() == n@.len(),
        old(c0)@.len() <= (n@.len() + 1) / 2,
        old(c1)@.len() <= (n@.len() + 1) / 2,
        limbs_value(k@) < limbs_value(n@),
        ends(
            limbs_value(k@) as int,
            limbs_value(n@) as int,
            slice_widths(n@.len()),
            max_bitlen as nat,
        ),
    ensures
        final(c0)@.len() == old(c0)@.len(),
        final(c1)@.len() == old(c1)@.len(),
        exists|fuel: nat, t0: int, t1: int, short: bool| #[trigger]
            holds_reduction(
                final(c0)@,
                final(c1)@,
                limbs_value(k@) as int,
                limbs_value(n@) as int,
                slice_widths(n@.len()),
                max_bitlen as nat,
                fuel,
                t0,
                t1,
                short,
            ),
{
    let len = n.len();
    // Operands of an odd number of limbs get a zero limb on top.
    let nk = widen(k);
    let nn = widen(n);
    let nlen: usize = (len + 1) & !1usize;
    assert(nlen == len + len % 2) by (bit_vector)
        requires
            8 <= len <= 16,
            nlen == ((len + 1) as usize) & !1usize,
    ;
    let ghost kv = limbs_value(k@) as int;
    let ghost nv = limbs_value(n@) as int;
    let ghost mb = max_bitlen as nat;
    proof {
        lemma_widened(k@, nk@, nlen as int);
        lemma_widened(n@, nn@, nlen as int);
    }
    if nlen == 8 {
        let r = lagrange256_vartime(&low::<8>(&nk), &low::<8>(&nn), max_bitlen);
        store(&r.c0, c0);
        store(&r.c1, c1);
        proof {
            let (fuel, t0, t1) = choose|fuel: nat, t0: int, t1: int| #[trigger]
                reduced_from(r, kv, nv, widths(8, 12), mb, fuel, t0, t1);
            lemma_stored(r.c0, c0@, t0);
            lemma_stored(r.c1, c1@, t1);
            assert(holds_reduction(c0@, c1@, kv, nv, slice_widths(len as nat), mb, fuel, t0, t1, r.short));
        }
    } else if nlen == 10 {
        let r = lagrange320_vartime(&low::<10>(&nk), &low::<10>(&nn), max_bitlen);
        store(&r.c0, c0);
        store(&r.c1, c1);
        proof {
            let (fuel, t0, t1) = choose|fuel: nat, t0: int, t1: int| #[trigger]
                reduced_from(r, kv, nv, widths(10, 14), mb, fuel, t0, t1);
            lemma_stored(r.c0, c0@, t0);
            lemma_stored(r.c1, c1@, t1);
            assert(holds_reduction(c0@, c1@, kv, nv, slice_widths(len as nat), mb, fuel, t0, t1, r.short));
        }
    } else if nlen == 12 {
        let r = lagrange384_vartime(&low::<12>(&nk), &low::<12>(&nn), max_bitlen);
        store(&r.c0, c0);
        store(&r.c1, c1);
        proof {
            let (fuel, t0, t1) = choose|fuel: nat, t0: int, t1: int| #[trigger]
                reduced_from(r, kv, nv, widths(12, 16), mb, fuel, t0, t1);
            lemma_stored(r.c0, c0@, t0);
            lemma_stored(r.c1, c1@, t1);
            assert(holds_reduction(c0@, c1@, kv, nv, slice_widths(len as nat), mb, fuel, t0, t1, r.short));
        }
    } else if nlen == 14 {
        let r = lagrange448_vartime(&low::<14>(&nk), &low::<14>(&nn), max_bitlen);
        store(&r.c0, c0);
        store(&r.c1, c1);
        proof {
            let (fuel, t0, t1) = choose|fuel: nat, t0: int, t1: int| #[trigger]
                reduced_from(r, kv, nv, widths(14, 20), mb, fuel, t0, t1);
            lemma_stored(r.c0, c0@, t0);
            lemma_stored(r.c1, c1@, t1);
            assert(holds_reduction(c0@, c1@, kv, nv, slice_widths(len as nat), mb, fuel, t0, t1, r.short));
        }
    } else {
        let r = lagrange512_vartime(&low::<16>(&nk), &low::<16>(&nn), max_bitlen);
        store(&r.c0, c0);
        store(&r.c1, c1);
        proof {
            let (fuel, t0, t1) = choose|fuel: nat, t0: int, t1: int| #[trigger]
                reduced_from(r, kv, nv, widths(16, 24), mb, fuel, t0, t1);
            lemma_stored(r.c0, c0@, t0);
            lemma_stored(r.c1, c1@, t1);
            assert(holds_reduction(c0@, c1@, kv, nv, slice_widths(len as nat), mb, fuel, t0, t1, r.short));
        }
    }
}

/// The two's-complement reading of four limbs as one machine integer.
fn join(v: &ZInt<4>) -> (c: i128)
    ensures
        c == v.signed_value(),
{
    let v0: u32 = v.limbs[0];
    let v1: u32 = v.limbs[1];
    let v2: u32 = v.limbs[2];
    let v3: u32 = v.limbs[3];
    let u: u128 = ((((((v3 as u128) << 32) | (v2 as u128)) << 32) | (v1 as u128)) << 32) | (
    v0 as u128);
    let c: i128 = u as i128;
    proof {
        assert(u == v0 + v1 * 0x1_0000_0000 + v2 * 0x1_0000_0000_0000_0000 + v3
            * 0x1_0000_0000_0000_0000_0000_0000 && c == (if u
            >= 0x8000_0000_0000_0000_0000_0000_0000_0000 {
            u - 0x1_0000_0000_0000_0000_0000_0000_0000_0000
        } else {
            u as int
        })) by (bit_vector)
            requires
                u == ((((((v3 as u128) << 32) | (v2 as u128)) << 32) | (v1 as u128)) << 32) | (
                v0 as u128),
                c == u as i128,
        ;
        let s = v.limbs@;
        lemma2_to64();
        lemma_pow2_adds(64, 32);
        lemma_pow2_adds(64, 64);
        lemma_radix_zero();
        assert(s.take(4) =~= s);
        lemma_prefix_step(s, 0);
        lemma_prefix_step(s, 1);
        lemma_prefix_step(s, 2);
        lemma_prefix_step(s, 3);
        assert(radix(1) == 0x1_0000_0000);
        assert(radix(2) == 0x1_0000_0000_0000_0000);
        assert(radix(3) == 0x1_0000_0000_0000_0000_0000_0000);
        assert(radix(4) == 0x1_0000_0000_0000_0000_0000_0000_0000_0000);
        assert(v.value() == u);
    }
    c
}

/// `c0` and `c1` are what the reduction of `(n, 0)`, `(k, 1)` for operands
/// of 256 bits and a squared norm of 254 bits ends with: the vector
/// `(t0, t1)` read in 128 bits of two's complement. The reduction ends for
/// a short vector whenever `n` is below `sqrt(3) / 2` times `2^254`, and
/// then `c0` and `c1` are that vector itself, so that `k * c1` is
/// congruent to `c0` modulo `n`.
pub open spec fn holds_reduction_253(
    c0: i128,
    c1: i128,
    k: int,
    n: int,
    fuel: nat,
    t0: int,
    t1: int,
    short: bool,
) -> bool {
    &&& reduction(k, n, widths(8, 12).wide(), widths(8, 12).mid(), 254, fuel) == Some(
        (t0, t1, short),
    )
    &&& c0 == signed_of((t0 % (radix(4) as int)) as nat, radix(4))
    &&& c1 == signed_of((t1 % (radix(4) as int)) as nat, radix(4))
    &&& sound(t0, t1, short, k, n, widths(8, 12), 254)
    &&& below_bound(n, 254) ==> short
    &&& short ==> c0 == t0 && c1 == t1 && in_lattice(c0 as int, c1 as int, k, n)
}

/// Reduces the basis `(n, 0)`, `(k, 1)` for operands of 256 bits until the
/// shorter vector has a squared norm of at most 254 bits, or until the
/// reduction comes to a standstill, and returns the shorter vector in 128
/// bits per coordinate.
pub fn lagrange253_vartime(k: &[u32; 8], n: &[u32; 8]) -> (r: (i128, i128))
    requires
        limbs_value(k@) < limbs_value(n@),
    ensures
        exists|fuel: nat, t0: int, t1: int, short: bool| #[trigger]
            holds_reduction_253(
                r.0,
                r.1,
                limbs_value(k@) as int,
                limbs_value(n@) as int,
                fuel,
                t0,
                t1,
                short,
            ),
{
    proof {
        lemma_value_bound(n@);
        lemma_ample_by_width(limbs_value(n@) as int, widths(8, 12), 254);
        lemma_enough_ends(
            limbs_value(k@) as int,
            limbs_value(n@) as int,
            widths(8, 12),
            254,
        );
    }
    let v = lagrange256_vartime(k, n, 254);
    let c0 = join(&v.c0);
    let c1 = join(&v.c1);
    let r = (c0, c1);
    proof {
        let kv = limbs_value(k@) as int;
        let nv = limbs_value(n@) as int;
        let (fuel, t0, t1) = choose|fuel: nat, t0: int, t1: int| #[trigger]
            reduced_from(v, kv, nv, widths(8, 12), 254, fuel, t0, t1);
        lemma_value_bound(n@);
        lemma_reduced_sound(v, kv, nv, widths(8, 12), 254, fuel, t0, t1);
        assert(holds_reduction_253(r.0, r.1, kv, nv, fuel, t0, t1, v.short));
    }
    r
}

} // verus!
