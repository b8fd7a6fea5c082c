//! The integer denoted by a sequence of 32-bit limbs, least significant
//! limb first, and the facts about it that the fixed-width arithmetic
//! rests on.

use vstd::arithmetic::div_mod::lemma_fundamental_div_mod_converse;
use vstd::arithmetic::power2::{
    lemma2_to64, lemma_pow2_adds, lemma_pow2_pos, lemma_pow2_strictly_increases, pow2,
};
use vstd::prelude::*;

use crate::word::word_base;

verus! {

/// Two to the power of `32 * n`: the weight of limb `n`, and the number of
/// values that `n` limbs can hold.
pub open spec fn radix(n: nat) -> nat {
    pow2(32 * n)
}

/// The unsigned integer held by `s`, least significant limb first.
pub open spec fn limbs_value(s: Seq<u32>) -> nat
    decreases s.len(),
{
    if s.len() == 0 {
        0
    } else {
        limbs_value(s.drop_last()) + (s.last() as nat) * radix((s.len() - 1) as nat)
    }
}

/// The two's-complement reading of an unsigned value `v` below `m`, where
/// `m` is the number of values of the width.
pub open spec fn signed_of(v: nat, m: nat) -> int {
    if 2 * v >= m {
        v - m
    } else {
        v as int
    }
}

/// The radix is positive.
pub proof fn lemma_radix_pos(n: nat)
    ensures
        radix(n) > 0,
{
    lemma_pow2_pos(32 * n);
}

/// No limbs hold one value.
pub proof fn lemma_radix_zero()
    ensures
        radix(0) == 1,
{
    lemma2_to64();
}

/// One more limb holds `2^32` times as many values.
pub proof fn lemma_radix_succ(n: nat)
    ensures
        radix(n + 1) == word_base() * radix(n),
{
    lemma_pow2_adds(32, 32 * n);
    lemma2_to64();
    assert(32 + 32 * n == 32 * (n + 1));
}

/// The radix of a sum of lengths is the product of the radices.
pub proof fn lemma_radix_adds(a: nat, b: nat)
    ensures
        radix(a + b) == radix(a) * radix(b),
{
    lemma_pow2_adds(32 * a, 32 * b);
    assert(32 * a + 32 * b == 32 * (a + b));
}

/// The radix grows with the length.
pub proof fn lemma_radix_monotonic(a: nat, b: nat)
    requires
        a <= b,
    ensures
        radix(a) <= radix(b),
{
    if a < b {
        lemma_pow2_strictly_increases(32 * a, 32 * b);
    }
}

/// The value of the first `i + 1` limbs is that of the first `i` plus
/// limb `i` at its weight.
pub proof fn lemma_prefix_step(s: Seq<u32>, i: int)
    requires
        0 <= i < s.len(),
    ensures
        limbs_value(s.take(i + 1)) == limbs_value(s.take(i)) + (s[i] as nat) * radix(i as nat),
{
    assert(s.take(i + 1).drop_last() =~= s.take(i));
}

/// No limbs hold zero.
pub proof fn lemma_prefix_empty(s: Seq<u32>)
    ensures
        limbs_value(s.take(0)) == 0,
{
}

/// All the limbs of a sequence hold its value.
pub proof fn lemma_prefix_full(s: Seq<u32>)
    ensures
        limbs_value(s.take(s.len() as int)) == limbs_value(s),
{
    assert(s.take(s.len() as int) =~= s);
}

/// A sequence of limbs holds a value below the radix of its length.
pub proof fn lemma_value_bound(s: Seq<u32>)
    ensures
        limbs_value(s) < radix(s.len()),
    decreases s.len(),
{
    if s.len() == 0 {
        lemma_radix_zero();
    } else {
        let n = (s.len() - 1) as nat;
        lemma_value_bound(s.drop_last());
        lemma_radix_succ(n);
        let r = radix(n) as int;
        let w = s.last() as int;
        assert(w * r <= (word_base() - 1) * r) by (nonlinear_arith)
            requires
                0 <= w <= word_base() - 1,
                r >= 0,
        ;
        assert((word_base() - 1) * r + r == word_base() * r) by (nonlinear_arith);
    }
}

/// The first `i` limbs hold a value below the radix of `i`.
pub proof fn lemma_prefix_bound(s: Seq<u32>, i: int)
    requires
        0 <= i <= s.len(),
    ensures
        limbs_value(s.take(i)) < radix(i as nat),
{
    lemma_value_bound(s.take(i));
}

/// Limbs that are all zero hold zero.
pub proof fn lemma_zero_value(s: Seq<u32>)
    requires
        forall|j: int| 0 <= j < s.len() ==> s[j] == 0,
    ensures
        limbs_value(s) == 0,
    decreases s.len(),
{
    if s.len() > 0 {
        lemma_zero_value(s.drop_last());
        assert(s.last() == 0);
        assert(0 * radix((s.len() - 1) as nat) == 0);
    }
}

/// The value splits at any limb: the low limbs as they are, the high limbs
/// at the weight of the split.
pub proof fn lemma_value_split(s: Seq<u32>, i: int)
    requires
        0 <= i <= s.len(),
    ensures
        limbs_value(s) == limbs_value(s.take(i)) + limbs_value(s.skip(i)) * radix(i as nat),
    decreases s.len() - i,
{
    if i == s.len() {
        lemma_prefix_full(s);
        assert(s.skip(i).len() == 0);
        assert(0 * radix(i as nat) == 0);
    } else {
        let n = (s.len() - 1) as nat;
        let t = s.drop_last();
        lemma_value_split(t, i);
        assert(t.take(i) =~= s.take(i));
        assert(s.skip(i).drop_last() =~= t.skip(i));
        assert(s.skip(i).last() == s.last());
        let hi = limbs_value(t.skip(i)) as int;
        let w = s.last() as int;
        let ri = radix(i as nat) as int;
        let rd = radix((n - i) as nat) as int;
        lemma_radix_adds(i as nat, (n - i) as nat);
        assert(i as nat + (n - i) as nat == n);
        assert((hi + w * rd) * ri == hi * ri + w * (ri * rd)) by (nonlinear_arith);
    }
}

/// The first `i` limbs hold no more than the whole sequence.
pub proof fn lemma_prefix_le(s: Seq<u32>, i: int)
    requires
        0 <= i <= s.len(),
    ensures
        limbs_value(s.take(i)) <= limbs_value(s),
{
    lemma_value_split(s, i);
    let hi = limbs_value(s.skip(i)) as int;
    let r = radix(i as nat) as int;
    assert(hi * r >= 0) by (nonlinear_arith)
        requires
            hi >= 0,
            r >= 0,
    ;
}

/// When the limbs from `i` on are zero the first `i` limbs hold the whole
/// value.
pub proof fn lemma_high_zero(s: Seq<u32>, i: int)
    requires
        0 <= i <= s.len(),
        forall|j: int| i <= j < s.len() ==> s[j] == 0,
    ensures
        limbs_value(s) == limbs_value(s.take(i)),
{
    lemma_value_split(s, i);
    lemma_zero_value(s.skip(i));
    assert(0 * radix(i as nat) == 0);
}

/// Limbs and their bitwise complements add up to the largest value of the
/// width.
pub proof fn lemma_complement(s: Seq<u32>, c: Seq<u32>)
    requires
        c.len() == s.len(),
        forall|j: int| 0 <= j < s.len() ==> c[j] == 0xffff_ffff - s[j],
    ensures
        limbs_value(c) + limbs_value(s) + 1 == radix(s.len()),
    decreases s.len(),
{
    if s.len() == 0 {
        lemma_radix_zero();
    } else {
        let n = (s.len() - 1) as nat;
        lemma_complement(s.drop_last(), c.drop_last());
        lemma_radix_succ(n);
        let r = radix(n) as int;
        let x = s.last() as int;
        let y = c.last() as int;
        assert(y * r + x * r + r == word_base() * r) by (nonlinear_arith)
            requires
                y == 0xffff_ffff - x,
        ;
    }
}

/// Replacing one limb changes the value by the difference of the limbs at
/// the weight of the place.
pub proof fn lemma_update_value(s: Seq<u32>, i: int, w: u32)
    requires
        0 <= i < s.len(),
    ensures
        limbs_value(s.update(i, w)) == limbs_value(s) + (w - s[i]) * radix(i as nat),
{
    let t = s.update(i, w);
    lemma_value_split(s, i + 1);
    lemma_value_split(t, i + 1);
    lemma_prefix_step(s, i);
    lemma_prefix_step(t, i);
    assert(t.take(i) =~= s.take(i));
    assert(t.skip(i + 1) =~= s.skip(i + 1));
    let r = radix(i as nat) as int;
    assert((w - s[i]) * r == w * r - s[i] * r) by (nonlinear_arith);
}

/// The first `i` limbs hold the value modulo the weight of limb `i`.
pub proof fn lemma_prefix_is_mod(s: Seq<u32>, i: int)
    requires
        0 <= i <= s.len(),
    ensures
        limbs_value(s.take(i)) == limbs_value(s) % radix(i as nat),
{
    lemma_value_split(s, i);
    lemma_prefix_bound(s, i);
    lemma_radix_pos(i as nat);
    lemma_fundamental_div_mod_converse(
        limbs_value(s) as int,
        radix(i as nat) as int,
        limbs_value(s.skip(i)) as int,
        limbs_value(s.take(i)) as int,
    );
}

/// Two equally long sequences hold the same value only if they are the
/// same sequence.
pub proof fn lemma_value_injective(a: Seq<u32>, b: Seq<u32>)
    requires
        a.len() == b.len(),
        limbs_value(a) == limbs_value(b),
    ensures
        a =~= b,
    decreases a.len(),
{
    if a.len() > 0 {
        let n = (a.len() - 1) as nat;
        let r = radix(n) as int;
        lemma_radix_pos(n);
        lemma_value_bound(a.drop_last());
        lemma_value_bound(b.drop_last());
        let la = limbs_value(a.drop_last()) as int;
        let lb = limbs_value(b.drop_last()) as int;
        let wa = a.last() as int;
        let wb = b.last() as int;
        assert(wa == wb) by (nonlinear_arith)
            requires
                la + wa * r == lb + wb * r,
                0 <= la < r,
                0 <= lb < r,
        ;
        lemma_value_injective(a.drop_last(), b.drop_last());
        assert(a =~= a.drop_last().push(a.last()));
        assert(b =~= b.drop_last().push(b.last()));
    }
}

} // verus!
