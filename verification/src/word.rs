//! Arithmetic on single 32-bit words: carry chains, widening products,
//! sign masks and leading-zero counts.

use vstd::arithmetic::div_mod::{lemma_fundamental_div_mod, lemma_mod_bound};
use vstd::arithmetic::power2::{
    lemma2_to64, lemma_pow2_adds, lemma_pow2_pos, lemma_pow2_strictly_increases,
    lemma_pow2_unfold, pow2,
};
use vstd::bits::{lemma_u32_shr_is_div, lemma_u64_shl_is_mul};
use vstd::prelude::*;

verus! {

/// Two to the power of the word size.
pub open spec fn word_base() -> int {
    0x1_0000_0000
}

/// Number of significant bits of `v`: the least `b` with `v < 2^b`.
pub open spec fn bit_length(v: nat) -> nat
    decreases v,
{
    if v == 0 {
        0
    } else {
        1 + bit_length(v / 2)
    }
}

/// The all-ones word if the top bit of `x` is set, zero otherwise.
pub open spec fn sign_mask(x: u32) -> u32 {
    if x >= 0x8000_0000 {
        0xffff_ffff
    } else {
        0
    }
}

/// Adds two words and an incoming carry bit; returns the low word of the
/// sum and the outgoing carry bit.
pub fn addcarry_u32(x: u32, y: u32, c: u8) -> (r: (u32, u8))
    requires
        c <= 1,
    ensures
        r.1 <= 1,
        r.0 + r.1 * word_base() == x + y + c,
{
    let z: u64 = (x as u64) + (y as u64) + (c as u64);
    assert(z >> 32 <= 1 && (z as u32) + (z >> 32) * 0x1_0000_0000 == z) by (bit_vector)
        requires
            z <= 0x1_ffff_ffff,
    ;
    (z as u32, (z >> 32) as u8)
}

/// Subtracts a word and an incoming borrow bit from a word; returns the
/// low word of the difference and the outgoing borrow bit.
pub fn subborrow_u32(x: u32, y: u32, c: u8) -> (r: (u32, u8))
    requires
        c <= 1,
    ensures
        r.1 <= 1,
        r.0 - r.1 * word_base() == x - y - c,
{
    let z: u64 = (x as u64).wrapping_sub(y as u64).wrapping_sub(c as u64);
    assert(z >> 63 <= 1 && (z as u32) - (z >> 63) * 0x1_0000_0000 == x - y - c) by (bit_vector)
        requires
            c <= 1,
            z == ((x as u64).wrapping_sub(y as u64)).wrapping_sub(c as u64),
    ;
    (z as u32, (z >> 63) as u8)
}

/// Splits a 64-bit value into its low and high words.
fn split(t: u64) -> (r: (u32, u32))
    ensures
        r.0 + r.1 * word_base() == t,
{
    assert((t as u32) + ((t >> 32) as u32) * 0x1_0000_0000 == t) by (bit_vector);
    (t as u32, (t >> 32) as u32)
}

/// The product of two words, low word first.
pub fn umull(x: u32, y: u32) -> (r: (u32, u32))
    ensures
        r.0 + r.1 * word_base() == x * y,
{
    assert(x * y <= 0xffff_fffe_0000_0001) by (nonlinear_arith);
    split((x as u64) * (y as u64))
}

/// The product of two words plus a third word, low word first; the sum
/// always fits in 64 bits.
pub fn umull_add(x: u32, y: u32, z: u32) -> (r: (u32, u32))
    ensures
        r.0 + r.1 * word_base() == x * y + z,
{
    assert(x * y <= 0xffff_fffe_0000_0001) by (nonlinear_arith);
    split((x as u64) * (y as u64) + (z as u64))
}

/// The product of two words plus two further words, low word first; the
/// sum always fits in 64 bits.
pub fn umull_add2(x: u32, y: u32, z1: u32, z2: u32) -> (r: (u32, u32))
    ensures
        r.0 + r.1 * word_base() == x * y + z1 + z2,
{
    assert(x * y <= 0xffff_fffe_0000_0001) by (nonlinear_arith);
    split((x as u64) * (y as u64) + (z1 as u64) + (z2 as u64))
}

/// The sum of two word products reduced modulo 2^64, low word first.
pub fn umull_x2(x1: u32, y1: u32, x2: u32, y2: u32) -> (r: (u32, u32))
    ensures
        r.0 + r.1 * word_base() == (x1 * y1 + x2 * y2) % 0x1_0000_0000_0000_0000,
{
    assert(x1 * y1 <= 0xffff_fffe_0000_0001) by (nonlinear_arith);
    assert(x2 * y2 <= 0xffff_fffe_0000_0001) by (nonlinear_arith);
    let z1: u64 = (x1 as u64) * (y1 as u64);
    let z2: u64 = (x2 as u64) * (y2 as u64);
    split(z1.wrapping_add(z2))
}

/// The sum of two word products and a further word reduced modulo 2^64,
/// low word first.
pub fn umull_x2_add(x1: u32, y1: u32, x2: u32, y2: u32, z3: u32) -> (r: (u32, u32))
    ensures
        r.0 + r.1 * word_base() == (x1 * y1 + x2 * y2 + z3) % 0x1_0000_0000_0000_0000,
{
    assert(x1 * y1 <= 0xffff_fffe_0000_0001) by (nonlinear_arith);
    assert(x2 * y2 <= 0xffff_fffe_0000_0001) by (nonlinear_arith);
    let z1: u64 = (x1 as u64) * (y1 as u64);
    let z2: u64 = (x2 as u64) * (y2 as u64);
    split(z1.wrapping_add(z2).wrapping_add(z3 as u64))
}

/// Shifts a word left by `t` bits and brings in the bits that the word
/// below it shifted out; returns the low word and the bits shifted out.
pub fn shl_carry(x: u32, t: u32, carry: u32) -> (r: (u32, u32))
    requires
        t < 32,
        carry < pow2(t as nat),
    ensures
        r.0 + r.1 * word_base() == x * pow2(t as nat) + carry,
        r.1 < pow2(t as nat),
{
    proof {
        lemma2_to64();
        let p = pow2(t as nat) as int;
        assert(pow2(t as nat) <= 0x8000_0000) by {
            if t < 31 {
                lemma_pow2_strictly_increases(t as nat, 31);
            }
        }
        assert(x * p <= 0xffff_ffff * p) by (nonlinear_arith)
            requires
                0 <= x <= 0xffff_ffff,
                p >= 0,
        ;
        lemma_u64_shl_is_mul(x as u64, t as u64);
    }
    let w: u64 = ((x as u64) << (t as u64)) + (carry as u64);
    let r = split(w);
    proof {
        let p = pow2(t as nat) as int;
        assert(r.1 < p) by (nonlinear_arith)
            requires
                r.0 + r.1 * 0x1_0000_0000 == x * p + carry,
                0 <= carry < p,
                0 <= x < 0x1_0000_0000,
                0 <= r.0,
        ;
    }
    r
}

/// Spreads the top bit of a word over the whole word.
pub fn sgnw(x: u32) -> (r: u32)
    ensures
        r == sign_mask(x),
{
    let r: u32 = ((x as i32) >> 31) as u32;
    assert(r == if x >= 0x8000_0000u32 { 0xffff_ffffu32 } else { 0u32 }) by (bit_vector)
        requires
            r == ((x as i32) >> 31) as u32,
    ;
    r
}

/// The bit length of `v` is the only `b` with `2^(b-1) <= v < 2^b`.
pub proof fn lemma_bit_length_bounds(v: nat)
    ensures
        v < pow2(bit_length(v)),
        v > 0 ==> bit_length(v) > 0 && pow2((bit_length(v) - 1) as nat) <= v,
    decreases v,
{
    lemma2_to64();
    if v > 0 {
        lemma_bit_length_bounds(v / 2);
        lemma_pow2_unfold(bit_length(v));
        if v / 2 > 0 {
            lemma_pow2_unfold((bit_length(v) - 1) as nat);
        }
    }
}

/// Whatever lies between two consecutive powers of two has the bit length
/// of the higher exponent.
pub proof fn lemma_bit_length_unique(v: nat, b: nat)
    requires
        b > 0,
        pow2((b - 1) as nat) <= v < pow2(b),
    ensures
        bit_length(v) == b,
    decreases b,
{
    lemma2_to64();
    lemma_pow2_pos((b - 1) as nat);
    lemma_pow2_unfold(b);
    if b == 1 {
        assert(v == 1);
        assert(bit_length(1) == 1 + bit_length(0));
    } else {
        lemma_pow2_unfold((b - 1) as nat);
        lemma_bit_length_unique(v / 2, (b - 1) as nat);
    }
}

/// A value below `2^b` has at most `b` bits.
pub proof fn lemma_bit_length_le(v: nat, b: nat)
    requires
        v < pow2(b),
    ensures
        bit_length(v) <= b,
    decreases v,
{
    if v > 0 {
        lemma2_to64();
        if b == 0 {
            assert(false);
        } else {
            lemma_pow2_unfold(b);
            lemma_bit_length_le(v / 2, (b - 1) as nat);
        }
    }
}

/// A value of at least `2^b` has more than `b` bits.
pub proof fn lemma_bit_length_gt(v: nat, b: nat)
    requires
        pow2(b) <= v,
    ensures
        bit_length(v) > b,
    decreases b,
{
    lemma_pow2_pos(b);
    if b > 0 {
        lemma_pow2_unfold(b);
        lemma_bit_length_gt(v / 2, (b - 1) as nat);
    }
}

/// `2^m` has `m + 1` bits.
pub proof fn lemma_bit_length_pow2(m: nat)
    ensures
        bit_length(pow2(m)) == m + 1,
{
    lemma_pow2_unfold(m + 1);
    lemma_pow2_pos(m);
    lemma_bit_length_unique(pow2(m), m + 1);
}

/// Bit lengths grow with the value.
pub proof fn lemma_bit_length_monotonic(a: nat, b: nat)
    requires
        a <= b,
    ensures
        bit_length(a) <= bit_length(b),
{
    lemma_bit_length_bounds(b);
    lemma_bit_length_le(a, bit_length(b));
}

/// A value has at most `b` bits exactly if it is below `2^b`.
pub proof fn lemma_bit_length_below(v: nat, b: nat)
    ensures
        bit_length(v) <= b <==> v < pow2(b),
{
    if v < pow2(b) {
        lemma_bit_length_le(v, b);
    } else {
        lemma_bit_length_gt(v, b);
    }
}

/// Shifting a positive value up by `k` bits, and filling the low bits in
/// any way, adds `k` to its bit length.
pub proof fn lemma_bit_length_shifted(a: nat, k: nat, b: nat)
    requires
        a > 0,
        b < pow2(k),
    ensures
        bit_length(a * pow2(k) + b) == k + bit_length(a),
{
    lemma_bit_length_bounds(a);
    let la = bit_length(a);
    let p = pow2(k) as int;
    let lo = pow2((la - 1) as nat) as int;
    let hi = pow2(la) as int;
    lemma_pow2_adds((la - 1) as nat, k);
    lemma_pow2_adds(la, k);
    lemma_pow2_pos(k);
    assert(lo * p <= a * p + b < hi * p) by (nonlinear_arith)
        requires
            lo <= a < hi,
            0 <= b < p,
    ;
    assert((la - 1) as nat + k == (k + la - 1) as nat);
    lemma_bit_length_unique(a * pow2(k) + b, k + la);
}

/// The number of leading zero bits of a word, found by halving the range
/// five times with sign masks in place of branches.
pub fn lzcnt(x: u32) -> (r: u32)
    ensures
        r == 32 - bit_length(x as nat),
{
    let m1: u32 = sgnw((x >> 16).wrapping_sub(1));
    let s1: u32 = m1 & 16;
    let x1: u32 = (x >> 16) ^ (m1 & (x ^ (x >> 16)));

    let m2: u32 = sgnw((x1 >> 8).wrapping_sub(1));
    let s2: u32 = s1 | (m2 & 8);
    let x2: u32 = (x1 >> 8) ^ (m2 & (x1 ^ (x1 >> 8)));

    let m3: u32 = sgnw((x2 >> 4).wrapping_sub(1));
    let s3: u32 = s2 | (m3 & 4);
    let x3: u32 = (x2 >> 4) ^ (m3 & (x2 ^ (x2 >> 4)));

    let m4: u32 = sgnw((x3 >> 2).wrapping_sub(1));
    let s4: u32 = s3 | (m4 & 2);
    let x4: u32 = (x3 >> 2) ^ (m4 & (x3 ^ (x3 >> 2)));

    // Two bits are left: 0 has two leading zeros, 1 has one, 2 and 3 none.
    let r: u32 = s4.wrapping_add(2u32.wrapping_sub(x4) & (x4.wrapping_sub(3) >> 2));

    proof {
        assert(r <= 32 && (r == 32 <==> x == 0) && (r < 32 ==> x >> ((31 - r) as u32) == 1))
            by (bit_vector)
            requires
                m1 == sign_mask((x >> 16).wrapping_sub(1)),
                s1 == m1 & 16,
                x1 == (x >> 16) ^ (m1 & (x ^ (x >> 16))),
                m2 == sign_mask((x1 >> 8).wrapping_sub(1)),
                s2 == s1 | (m2 & 8),
                x2 == (x1 >> 8) ^ (m2 & (x1 ^ (x1 >> 8))),
                m3 == sign_mask((x2 >> 4).wrapping_sub(1)),
                s3 == s2 | (m3 & 4),
                x3 == (x2 >> 4) ^ (m3 & (x2 ^ (x2 >> 4))),
                m4 == sign_mask((x3 >> 2).wrapping_sub(1)),
                s4 == s3 | (m4 & 2),
                x4 == (x3 >> 2) ^ (m4 & (x3 ^ (x3 >> 2))),
                r == s4.wrapping_add(2u32.wrapping_sub(x4) & (x4.wrapping_sub(3) >> 2)),
        ;
        if r < 32 {
            let k = (31 - r) as u32;
            lemma_u32_shr_is_div(x, k);
            lemma_pow2_pos(k as nat);
            lemma_fundamental_div_mod(x as int, pow2(k as nat) as int);
            lemma_mod_bound(x as int, pow2(k as nat) as int);
            lemma_pow2_unfold((k + 1) as nat);
            lemma_bit_length_unique(x as nat, (k + 1) as nat);
        }
    }
    r
}

} // verus!
