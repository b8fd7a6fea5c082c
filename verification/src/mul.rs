//! Products of limb arrays at full precision.

use vstd::prelude::*;

use crate::limbs::{
    lemma_prefix_empty, lemma_prefix_full, lemma_prefix_step, lemma_radix_adds, lemma_radix_succ,
    lemma_radix_zero, lemma_update_value, limbs_value, radix,
};
use crate::word::{umull_add, umull_add2, word_base};
use crate::zint::ZInt;

verus! {

/// One limb product entering the accumulator: the accumulator with limb
/// `i + j` replaced and the new carry holds what the old accumulator and
/// carry held, plus `x * y` at the weight of `i + j`.
proof fn lemma_mul_chain(
    acc: int,
    start: int,
    x: int,
    bj: int,
    y: int,
    ri: int,
    rj: int,
    rij: int,
    c: int,
    old_limb: int,
    lo: int,
    hi: int,
)
    requires
        acc + c * rij == start + x * bj * ri,
        lo + hi * word_base() == x * y + old_limb + c,
        rij == ri * rj,
    ensures
        (acc + (lo - old_limb) * rij) + hi * (word_base() * rij) == start + x * (bj + y * rj) * ri,
{
    assert((lo + hi * word_base()) * rij == lo * rij + hi * (word_base() * rij))
        by (nonlinear_arith);
    assert((x * y + old_limb + c) * rij == (x * y) * rij + old_limb * rij + c * rij)
        by (nonlinear_arith);
    assert((lo - old_limb) * rij == lo * rij - old_limb * rij) by (nonlinear_arith);
    assert((x * y) * rij == x * (y * rj) * ri) by (nonlinear_arith)
        requires
            rij == ri * rj,
    ;
    assert(x * (bj + y * rj) * ri == x * bj * ri + x * (y * rj) * ri) by (nonlinear_arith);
}

/// The product of two numbers of `N1` limbs, as a number of twice as many
/// limbs.
pub fn umul<const N1: usize, const N3: usize>(a: &[u32; N1], b: &[u32; N1]) -> (d: ZInt<N3>)
    requires
        N1 >= 1,
        N3 == 2 * N1,
    ensures
        d.value() == limbs_value(a@) * limbs_value(b@),
{
    let mut d = ZInt::<N3>::zero();
    let ghost bv = limbs_value(b@) as int;
    proof {
        lemma_prefix_empty(a@);
        assert(0 * bv == 0) by (nonlinear_arith);
    }
    let mut i: usize = 0;
    while i < N1
        invariant
            i <= N1,
            N1 >= 1,
            N3 == 2 * N1,
            bv == limbs_value(b@),
            forall|m: int| i + N1 <= m < N3 ==> d.limbs[m] == 0,
            d.value() == limbs_value(a@.take(i as int)) * bv,
        decreases N1 - i,
    {
        let ghost start = d.value() as int;
        let ghost x = a[i as int] as int;
        let ghost ri = radix(i as nat) as int;
        let ghost before = d.limbs@;
        let (lo, hi) = umull_add(a[i], b[0], d.limbs[i]);
        d.limbs[i] = lo;
        let mut cc: u32 = hi;
        proof {
            lemma_radix_zero();
            lemma_radix_adds(i as nat, 0);
            lemma_radix_succ(i as nat);
            lemma_prefix_empty(b@);
            lemma_prefix_step(b@, 0);
            lemma_update_value(before, i as int, lo);
            assert(d.limbs@ =~= before.update(i as int, lo));
            assert(x * 0 * ri == 0) by (nonlinear_arith);
            lemma_mul_chain(
                start,
                start,
                x,
                0,
                b[0] as int,
                ri,
                1,
                ri,
                0,
                before[i as int] as int,
                lo as int,
                hi as int,
            );
            assert(b[0] as int * 1 == b[0] as int);
            assert(0 * ri == 0);
        }
        let mut j: usize = 1;
        while j < N1
            invariant
                1 <= j <= N1,
                i < N1,
                N3 == 2 * N1,
                x == a[i as int],
                ri == radix(i as nat),
                forall|m: int| i + N1 <= m < N3 ==> d.limbs[m] == 0,
                d.value() + cc * radix((i + j) as nat) == start + x * limbs_value(
                    b@.take(j as int),
                ) * ri,
            decreases N1 - j,
        {
            let ghost prev = d.limbs@;
            let ghost acc = d.value() as int;
            let (lo, hi) = umull_add2(a[i], b[j], d.limbs[i + j], cc);
            d.limbs[i + j] = lo;
            proof {
                lemma_radix_adds(i as nat, j as nat);
                lemma_radix_succ((i + j) as nat);
                lemma_prefix_step(b@, j as int);
                lemma_update_value(prev, i + j, lo);
                assert(d.limbs@ =~= prev.update(i + j, lo));
                lemma_mul_chain(
                    acc,
                    start,
                    x,
                    limbs_value(b@.take(j as int)) as int,
                    b[j as int] as int,
                    ri,
                    radix(j as nat) as int,
                    radix((i + j) as nat) as int,
                    cc as int,
                    prev[i + j] as int,
                    lo as int,
                    hi as int,
                );
            }
            cc = hi;
            j = j + 1;
        }
        let ghost prev = d.limbs@;
        d.limbs[i + N1] = cc;
        proof {
            lemma_prefix_full(b@);
            lemma_prefix_step(a@, i as int);
            lemma_update_value(prev, i + N1, cc);
            assert(d.limbs@ =~= prev.update(i + N1, cc));
            let ai = limbs_value(a@.take(i as int)) as int;
            assert((ai + x * ri) * bv == ai * bv + x * bv * ri) by (nonlinear_arith);
            assert((cc - 0) * radix((i + N1) as nat) == cc * radix((i + N1) as nat));
        }
        i = i + 1;
    }
    proof {
        lemma_prefix_full(a@);
    }
    d
}

} // verus!
