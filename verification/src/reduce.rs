//! Reduction of the basis `(n, 0)`, `(k, 1)` by repeated size-reduction
//! steps on fixed-width integers, tracked against the unbounded basis that
//! the steps stand for.

use vstd::arithmetic::div_mod::lemma_small_mod;
use vstd::arithmetic::power2::{
    lemma_pow2_adds, lemma_pow2_strictly_increases, lemma_pow2_unfold, pow2,
};
use vstd::prelude::*;

use crate::lattice::{in_lattice, lemma_coordinate_bound, Basis};
use crate::limbs::{
    lemma_radix_monotonic, lemma_radix_pos, lemma_radix_succ, lemma_radix_zero,
    lemma_update_value, limbs_value, radix,
};
use crate::model::{
    below_bound, canonical, coefficient, ends, excess, lemma_canonical_in_range,
    lemma_initial_order,
    lemma_narrow_order, lemma_narrow_step, lemma_step_not_reduced, lemma_wide_order,
    lemma_wide_run_short,
    lemma_wide_run_sound, lemma_wide_step, lemma_wide_switch, narrow_inv, narrow_run, ordered,
    reduction, sound, wide_inv, wide_run, width_bits, Widths,
};
use crate::mul::umul;
use crate::zint::ZInt;

verus! {

/// The vectors at `N0` limbs and the Gram values at `NG` limbs hold what
/// their widths hold for the basis `b`.
pub open spec fn tracks<const N0: usize, const NG: usize>(
    b: Basis,
    u0: ZInt<N0>,
    u1: ZInt<N0>,
    v0: ZInt<N0>,
    v1: ZInt<N0>,
    nu: ZInt<NG>,
    nv: ZInt<NG>,
    sp: ZInt<NG>,
) -> bool {
    &&& u0.value() == ZInt::<N0>::wrap(b.u0)
    &&& u1.value() == ZInt::<N0>::wrap(b.u1)
    &&& v0.value() == ZInt::<N0>::wrap(b.v0)
    &&& v1.value() == ZInt::<N0>::wrap(b.v1)
    &&& nu.value() == ZInt::<NG>::wrap(b.nu())
    &&& nv.value() == ZInt::<NG>::wrap(b.nv())
    &&& sp.value() == ZInt::<NG>::wrap(b.sp())
}

/// The excess of one bit length over another, or zero if there is none.
pub fn shift_amount(bl_sp: u32, bl_nv: u32) -> (s: u32)
    requires
        bl_sp <= 0x4000_0000,
        bl_nv <= 0x4000_0000,
    ensures
        s == if bl_sp > bl_nv {
            bl_sp - bl_nv
        } else {
            0
        },
{
    let d: u32 = bl_sp.wrapping_sub(bl_nv);
    let s: u32 = d & !(((d as i32) >> 31) as u32);
    assert(s == if bl_sp > bl_nv { (bl_sp - bl_nv) as u32 } else { 0u32 }) by (bit_vector)
        requires
            bl_sp <= 0x4000_0000,
            bl_nv <= 0x4000_0000,
            d == bl_sp.wrapping_sub(bl_nv),
            s == d & !(((d as i32) >> 31) as u32),
    ;
    s
}

/// One size-reduction step: `u` loses (`subtract`) or gains `v * 2^s`, and
/// the Gram values follow.
fn size_reduce<const N0: usize, const NG: usize>(
    u0: &mut ZInt<N0>,
    u1: &mut ZInt<N0>,
    v0: &ZInt<N0>,
    v1: &ZInt<N0>,
    nu: &mut ZInt<NG>,
    nv: &ZInt<NG>,
    sp: &mut ZInt<NG>,
    s: u32,
    subtract: bool,
    Ghost(b): Ghost<Basis>,
)
    requires
        s <= 0x4000_0000,
        tracks(b, *old(u0), *old(u1), *v0, *v1, *old(nu), *nv, *old(sp)),
    ensures
        tracks(
            b.stepped(if subtract { -(pow2(s as nat) as int) } else { pow2(s as nat) as int }),
            *final(u0),
            *final(u1),
            *v0,
            *v1,
            *final(nu),
            *nv,
            *final(sp),
        ),
{
    let ghost p = pow2(s as nat) as int;
    let ghost c = if subtract { -p } else { p };
    proof {
        lemma_pow2_adds(s as nat, s as nat);
        lemma_pow2_unfold((s + 1) as nat);
        b.lemma_stepped_gram(c);
        assert(c * c == p * p) by (nonlinear_arith)
            requires
                c == p || c == -p,
        ;
        assert(c * c * b.nv() == b.nv() * (p * p)) by (nonlinear_arith)
            requires
                c * c == p * p,
        ;
        assert(2 * c * b.sp() == b.sp() * (2 * c)) by (nonlinear_arith);
        assert(c * b.nv() == b.nv() * c) by (nonlinear_arith);
        assert(c * b.v0 == b.v0 * c && c * b.v1 == b.v1 * c) by (nonlinear_arith);
        ZInt::<NG>::lemma_wrap_add(b.nu(), b.nv(), p * p);
        ZInt::<NG>::lemma_wrap_add(b.nu() + b.nv() * (p * p), b.sp(), 2 * p);
        ZInt::<NG>::lemma_wrap_add(b.sp(), b.nv(), p);
        ZInt::<N0>::lemma_wrap_add(b.u0, b.v0, p);
        ZInt::<N0>::lemma_wrap_add(b.u1, b.v1, p);
        assert(b.sp() * (2 * -p) == -(b.sp() * (2 * p))) by (nonlinear_arith);
        assert(b.nv() * -p == -(b.nv() * p)) by (nonlinear_arith);
        assert(b.v0 * -p == -(b.v0 * p) && b.v1 * -p == -(b.v1 * p)) by (nonlinear_arith);
    }
    if subtract {
        u0.set_sub_shifted(v0, s);
        u1.set_sub_shifted(v1, s);
        nu.set_add_shifted(nv, 2 * s);
        nu.set_sub_shifted(sp, s + 1);
        sp.set_sub_shifted(nv, s);
    } else {
        u0.set_add_shifted(v0, s);
        u1.set_add_shifted(v1, s);
        nu.set_add_shifted(nv, 2 * s);
        nu.set_add_shifted(sp, s + 1);
        sp.set_add_shifted(nv, s);
    }
}

/// A vector at `N0` limbs per coordinate, and whether the reduction ended
/// because it passed for short.
#[derive(Clone, Copy, Debug)]
pub struct Reduced<const N0: usize> {
    pub c0: ZInt<N0>,
    pub c1: ZInt<N0>,
    pub short: bool,
}

/// The widths of a reduction of operands of `n1` limbs with a middle Gram
/// width of `n2` limbs.
pub open spec fn widths(n1: nat, n2: nat) -> Widths {
    Widths { e1: 32 * n1, em: 32 * n2 }
}

/// `r` is what the reduction of `(n, 0)`, `(k, 1)` ends with after at most
/// `fuel` passes: the vector `(t0, t1)`, of which `r` holds each coordinate
/// as far as its width does.
pub open spec fn reduced_from<const N0: usize>(
    r: Reduced<N0>,
    k: int,
    n: int,
    w: Widths,
    max_bitlen: nat,
    fuel: nat,
    t0: int,
    t1: int,
) -> bool {
    &&& reduction(k, n, w.wide(), w.mid(), max_bitlen, fuel) == Some((t0, t1, r.short))
    &&& r.c0.value() == ZInt::<N0>::wrap(t0)
    &&& r.c1.value() == ZInt::<N0>::wrap(t1)
}

/// What a value holds for `x` is read with the bit length and the sign
/// that its width gives `x`.
proof fn lemma_reads<const NG: usize>(v: ZInt<NG>, x: int)
    requires
        NG > 0,
        v.value() == ZInt::<NG>::wrap(x),
    ensures
        v.magnitude() == canonical(x, ZInt::<NG>::modulus() as int),
        (v.signed_value() < 0) == (2 * (x % (ZInt::<NG>::modulus() as int)) >= ZInt::<NG>::modulus()),
{
    v.lemma_value_range();
}

/// The vector that a reduction ends with is sound; below the bound the
/// reduction ends for a short vector; and a result that stands for a short
/// vector holds its coordinates exactly, in two's complement, if its width
/// has room for them.
pub proof fn lemma_reduced_sound<const N0: usize>(
    r: Reduced<N0>,
    k: int,
    n: int,
    w: Widths,
    max_bitlen: nat,
    fuel: nat,
    t0: int,
    t1: int,
)
    requires
        N0 > 0,
        w.valid(),
        0 <= k < n < w.limit(),
        reduced_from(r, k, n, w, max_bitlen, fuel, t0, t1),
    ensures
        sound(t0, t1, r.short, k, n, w, max_bitlen),
        below_bound(n, max_bitlen) ==> r.short,
        r.short && max_bitlen <= w.e1 + 1 && max_bitlen <= 64 * N0 - 2 ==> {
            &&& r.c0.signed_value() == t0
            &&& r.c1.signed_value() == t1
            &&& in_lattice(r.c0.signed_value(), r.c1.signed_value(), k, n)
        },
{
    lemma_initial_order(k, n);
    lemma_wide_run_sound(Basis::initial(k, n), true, k, n, w, max_bitlen, fuel);
    if below_bound(n, max_bitlen) {
        lemma_wide_run_short(Basis::initial(k, n), true, k, n, w, max_bitlen, fuel);
    }
    if r.short && max_bitlen <= w.e1 + 1 && max_bitlen <= 64 * N0 - 2 {
        let e = (32 * N0 - 1) as nat;
        let h = pow2(e) as int;
        lemma_pow2_adds(e, e);
        lemma_pow2_unfold(32 * (N0 as nat));
        if max_bitlen < 64 * N0 - 2 {
            lemma_pow2_strictly_increases(max_bitlen, (64 * N0 - 2) as nat);
        }
        assert(e + e == (64 * N0 - 2) as nat);
        lemma_coordinate_bound(t0, t1, h);
        r.c0.lemma_signed_exact(t0);
        r.c1.lemma_signed_exact(t1);
    }
}

/// Reduces the basis `(n, 0)`, `(k, 1)` until the shorter vector has a
/// squared norm of at most `max_bitlen` bits, or until the reduction comes
/// to a standstill, and returns the shorter vector.
///
/// The operands have `N1` limbs and the coordinates of the result `N0`.
/// The Gram values are held at `N3` limbs until they fit `N2` limbs, and at
/// `N2` limbs from then on. `k` must be below `n`, and the reduction must
/// be one that comes to an end. It does not if the basis gets reduced at
/// `N3` limbs, with a longer vector that does not fit `N2` limbs and a
/// shorter one that does not pass for short: there the passes would go on
/// for ever. `lemma_enough_ends` names values of `max_bitlen` that rule
/// this out.
///
/// This function is not constant-time: it is for public operands only.
#[verifier::rlimit(40)]
pub fn lagrange_reduce<const N0: usize, const N1: usize, const N2: usize, const N3: usize>(
    k: &[u32; N1],
    n: &[u32; N1],
    max_bitlen: u32,
) -> (r: Reduced<N0>)
    requires
        1 <= N0 <= N1,
        N1 < N2 < N3,
        N3 == 2 * N1,
        N3 <= 0x0200_0000,
        limbs_value(k@) < limbs_value(n@),
        ends(
            limbs_value(k@) as int,
            limbs_value(n@) as int,
            widths(N1 as nat, N2 as nat),
            max_bitlen as nat,
        ),
    ensures
        exists|fuel: nat, t0: int, t1: int| #[trigger]
            reduced_from(
                r,
                limbs_value(k@) as int,
                limbs_value(n@) as int,
                widths(N1 as nat, N2 as nat),
                max_bitlen as nat,
                fuel,
                t0,
                t1,
            ),
{
    let ghost kv = limbs_value(k@) as int;
    let ghost nn = limbs_value(n@) as int;
    let ghost mb = max_bitlen as nat;
    let ghost w = widths(N1 as nat, N2 as nat);
    let ghost wide = w.wide();
    let ghost mid = w.mid();
    let ghost total = choose|fuel: nat|
        (#[trigger] reduction(kv, nn, wide, mid, mb, fuel)) is Some;

    // u = (n, 0) and v = (k, 1), at the width of the result.
    let nz = ZInt::<N1> { limbs: *n };
    let kz = ZInt::<N1> { limbs: *k };
    let mut u0: ZInt<N0> = nz.truncated::<N0>();
    let mut u1: ZInt<N0> = ZInt::<N0>::zero();
    let mut v0: ZInt<N0> = kz.truncated::<N0>();
    let mut v1: ZInt<N0> = ZInt::<N0>::zero();
    let ghost z1 = v1.limbs@;
    v1.limbs[0] = 1;

    // The squared norms n^2 and k^2 + 1 and the scalar product n * k, at
    // full precision.
    let mut nu: ZInt<N3> = umul::<N1, N3>(n, n);
    let mut nv: ZInt<N3> = umul::<N1, N3>(k, k);
    let mut one: ZInt<N3> = ZInt::<N3>::zero();
    let ghost z3 = one.limbs@;
    one.limbs[0] = 1;
    proof {
        lemma_radix_zero();
        lemma_update_value(z1, 0, 1);
        assert(v1.limbs@ =~= z1.update(0, 1));
        lemma_update_value(z3, 0, 1);
        assert(one.limbs@ =~= z3.update(0, 1));
        lemma_radix_pos(N0 as nat);
        lemma_radix_monotonic(1, N0 as nat);
        lemma_radix_succ(0);
        nz.lemma_value_range();
        w.lemma_widths();
        lemma_initial_order(kv, nn);
        assert(nn * nn < w.limit() * w.limit()) by (nonlinear_arith)
            requires
                0 <= nn < w.limit(),
        ;
        nv.lemma_value_range();
    }
    let carry = nv.add_words(&one);
    let mut sp: ZInt<N3> = umul::<N1, N3>(n, k);
    let ghost mut b = Basis::initial(kv, nn);
    let ghost mut used: nat = 0;
    proof {
        assert(carry == 0) by {
            nv.lemma_value_range();
            assert(carry * wide >= wide || carry == 0) by (nonlinear_arith)
                requires
                    carry <= 1,
                    wide >= 0,
            ;
        }
        ZInt::<N3>::lemma_wrap_exact(nn * nn);
        ZInt::<N3>::lemma_wrap_exact(kv * kv + 1);
        ZInt::<N3>::lemma_wrap_exact(nn * kv);
        lemma_small_mod(0, radix(N0 as nat));
        lemma_small_mod(1, radix(N0 as nat));
    }

    // On the first pass the scalar product is not negative, whatever its
    // top bit says.
    let mut first = true;

    // Passes at full precision, until the Gram values fit the middle
    // width.
    loop
        invariant_except_break
            wide_inv(b, first, kv, nn, wide),
            used <= total,
            forall|f: nat| #[trigger]
                wide_run(b, first, wide, mid, mb, f) == reduction(kv, nn, wide, mid, mb, f + used),
        invariant
            1 <= N0 <= N1,
            N1 < N2 < N3,
            N3 == 2 * N1,
            N3 <= 0x0200_0000,
            mb == max_bitlen,
            w == widths(N1 as nat, N2 as nat),
            w.valid(),
            wide == w.wide(),
            mid == w.mid(),
            wide == radix(N3 as nat),
            mid == radix(N2 as nat),
            kv == limbs_value(k@),
            nn == limbs_value(n@),
            0 <= kv < nn < w.limit(),
            reduction(kv, nn, wide, mid, mb, total) is Some,
            tracks(b, u0, u1, v0, v1, nu, nv, sp),
        ensures
            narrow_inv(b, first, kv, nn, w.half()),
            tracks(b, u0, u1, v0, v1, nu, nv, sp),
            forall|f: nat| #[trigger]
                narrow_run(b, first, width_bits(b.sp(), mid), 0, mid, mb, f) == reduction(
                    kv,
                    nn,
                    wide,
                    mid,
                    mb,
                    f + used,
                ),
        decreases b.nu() + b.nv(),
    {
        let ghost at_head = b;
        let ghost left = (total - used) as nat;
        proof {
            assert(wide_run(b, first, wide, mid, mb, left) == reduction(
                kv,
                nn,
                wide,
                mid,
                mb,
                left + used,
            ));
            assert(left >= 1);
            lemma_wide_order(b, first, kv, nn, w, mb);
            ZInt::<N3>::lemma_wrap_exact(b.nu());
            ZInt::<N3>::lemma_wrap_exact(b.nv());
            b.lemma_swapped_gram();
        }
        // Keep v the shorter of the two.
        if nu.lt(&nv) {
            u0.swap(&mut v0);
            u1.swap(&mut v1);
            nu.swap(&mut nv);
            proof {
                b = b.swapped();
            }
        }
        proof {
            assert(b == ordered(at_head));
            ZInt::<N3>::lemma_wrap_exact(b.nu());
            lemma_reads(nv, b.nv());
            lemma_reads(sp, b.sp());
        }

        // Once u fits the middle width, so do v and the scalar product.
        if nu.ltnw(N2) {
            proof {
                lemma_wide_switch(b, first, kv, nn, w, mb);
                assert forall|f: nat| #[trigger]
                    narrow_run(b, first, width_bits(b.sp(), mid), 0, mid, mb, f) == reduction(
                        kv,
                        nn,
                        wide,
                        mid,
                        mb,
                        f + (used + 1),
                    ) by {
                    assert(wide_run(at_head, first, wide, mid, mb, f + 1) == narrow_run(
                        b,
                        first,
                        width_bits(b.sp(), mid),
                        0,
                        mid,
                        mb,
                        f,
                    ));
                    assert(f + 1 + used == f + (used + 1));
                }
                used = used + 1;
            }
            break ;
        }
        // Return v if it passes for short.

        let bl_nv = nv.bitlength();
        if bl_nv <= max_bitlen {
            let r = Reduced { c0: v0, c1: v1, short: true };
            proof {
                assert(wide_run(at_head, first, wide, mid, mb, 1) == Some((b.v0, b.v1, true)));
                assert(reduced_from(r, kv, nn, w, mb, 1 + used, b.v0, b.v1));
            }
            return r;
        }
        let bl_sp = sp.bitlength();
        let s = shift_amount(bl_sp, bl_nv);
        let subtract = first || !sp.is_negative();
        let ghost c = coefficient(b, first, wide);
        proof {
            if !first {
                lemma_canonical_in_range(b.sp(), wide);
            }
            assert(s == excess(width_bits(b.sp(), wide), width_bits(b.nv(), wide)));
            assert(c == if subtract { -(pow2(s as nat) as int) } else { pow2(s as nat) as int });
            assert(ordered(b) == b);
            assert(wide_run(b, first, wide, mid, mb, left) == wide_run(
                at_head,
                first,
                wide,
                mid,
                mb,
                left,
            ));
            lemma_step_not_reduced(b, first, kv, nn, w, mb, left);
            lemma_wide_step(b, first, kv, nn, w, mb);
            assert forall|f: nat| #[trigger]
                wide_run(b.stepped(c), false, wide, mid, mb, f) == reduction(
                    kv,
                    nn,
                    wide,
                    mid,
                    mb,
                    f + (used + 1),
                ) by {
                assert(wide_run(at_head, first, wide, mid, mb, f + 1) == wide_run(
                    b.stepped(c),
                    false,
                    wide,
                    mid,
                    mb,
                    f,
                ));
                assert(f + 1 + used == f + (used + 1));
            }
        }
        first = false;
        size_reduce(&mut u0, &mut u1, &v0, &v1, &mut nu, &nv, &mut sp, s, subtract, Ghost(b));
        proof {
            b = b.stepped(c);
            used = used + 1;
        }
    }

    // The Gram values at the middle width.
    let mut nu: ZInt<N2> = nu.truncated::<N2>();
    let mut nv: ZInt<N2> = nv.truncated::<N2>();
    let mut sp: ZInt<N2> = sp.truncated::<N2>();
    proof {
        ZInt::<N3>::lemma_wrap_narrow::<N2>(b.nu());
        ZInt::<N3>::lemma_wrap_narrow::<N2>(b.nv());
        ZInt::<N3>::lemma_wrap_narrow::<N2>(b.sp());
        lemma_reads(sp, b.sp());
    }

    // The scalar product loses a bit every other pass or so. When it has
    // not for four passes, or grows, the basis is as short as it gets.
    let mut last_bl_sp = sp.bitlength();
    let mut stuck: u32 = 0;
    proof {
        assert(mid == radix(N2 as nat));
        assert(last_bl_sp as nat == width_bits(b.sp(), mid));
    }

    loop
        invariant
            1 <= N0 <= N1,
            N1 < N2 < N3,
            N3 <= 0x0200_0000,
            mb == max_bitlen,
            w == widths(N1 as nat, N2 as nat),
            w.valid(),
            wide == w.wide(),
            mid == w.mid(),
            mid == radix(N2 as nat),
            kv == limbs_value(k@),
            nn == limbs_value(n@),
            0 <= kv < nn < w.limit(),
            narrow_inv(b, first, kv, nn, w.half()),
            tracks(b, u0, u1, v0, v1, nu, nv, sp),
            forall|f: nat| #[trigger]
                narrow_run(b, first, last_bl_sp as nat, stuck as nat, mid, mb, f) == reduction(
                    kv,
                    nn,
                    wide,
                    mid,
                    mb,
                    f + used,
                ),
            stuck <= 3,
            last_bl_sp <= 32 * N2,
        decreases 4 * last_bl_sp + 3 - stuck,
    {
        let ghost at_head = b;
        let ghost last_at_head = last_bl_sp as nat;
        let ghost stuck_at_head = stuck as nat;
        proof {
            lemma_narrow_order(b, first, kv, nn, w, mb);
            ZInt::<N2>::lemma_wrap_exact(b.nu());
            ZInt::<N2>::lemma_wrap_exact(b.nv());
            b.lemma_swapped_gram();
        }
        // Keep v the shorter of the two.
        if nu.lt(&nv) {
            u0.swap(&mut v0);
            u1.swap(&mut v1);
            nu.swap(&mut nv);
            proof {
                b = b.swapped();
            }
        }
        proof {
            assert(b == ordered(at_head));
            lemma_reads(nv, b.nv());
            lemma_reads(sp, b.sp());
            w.lemma_widths();
            lemma_canonical_in_range(b.sp(), mid);
        }

        // Return v if it passes for short.
        let bl_nv = nv.bitlength();
        if bl_nv <= max_bitlen {
            let r = Reduced { c0: v0, c1: v1, short: true };
            proof {
                assert(narrow_run(at_head, first, last_at_head, stuck_at_head, mid, mb, 1) == Some(
                    (b.v0, b.v1, true),
                ));
                assert(reduced_from(r, kv, nn, w, mb, 1 + used, b.v0, b.v1));
            }
            return r;
        }
        let bl_sp = sp.bitlength();
        if bl_sp >= last_bl_sp {
            stuck = stuck + 1;
            if bl_sp > last_bl_sp || stuck > 3 {
                let r = Reduced { c0: v0, c1: v1, short: false };
                proof {
                    assert(narrow_run(at_head, first, last_at_head, stuck_at_head, mid, mb, 1)
                        == Some((b.v0, b.v1, false)));
                    assert(reduced_from(r, kv, nn, w, mb, 1 + used, b.v0, b.v1));
                }
                return r;
            }
        } else {
            last_bl_sp = bl_sp;
            stuck = 0;
        }
        let s = shift_amount(bl_sp, bl_nv);
        let subtract = first || !sp.is_negative();
        let ghost c = coefficient(b, first, mid);
        proof {
            assert(s == excess(width_bits(b.sp(), mid), width_bits(b.nv(), mid)));
            if first {
                lemma_initial_order(kv, nn);
            }
            assert(c == if subtract { -(pow2(s as nat) as int) } else { pow2(s as nat) as int });
            lemma_narrow_step(b, first, kv, nn, w, mb);
            assert forall|f: nat| #[trigger]
                narrow_run(b.stepped(c), false, last_bl_sp as nat, stuck as nat, mid, mb, f)
                    == reduction(kv, nn, wide, mid, mb, f + (used + 1)) by {
                assert(narrow_run(at_head, first, last_at_head, stuck_at_head, mid, mb, f + 1)
                    == narrow_run(
                    b.stepped(c),
                    false,
                    last_bl_sp as nat,
                    stuck as nat,
                    mid,
                    mb,
                    f,
                ));
                assert(f + 1 + used == f + (used + 1));
            }
        }
        first = false;
        size_reduce(&mut u0, &mut u1, &v0, &v1, &mut nu, &nv, &mut sp, s, subtract, Ghost(b));
        proof {
            b = b.stepped(c);
            used = used + 1;
        }
    }
}

} // verus!
