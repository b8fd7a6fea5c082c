//! Elements of the 256-bit prime field whose scalars feed the reduction.

use vstd::arithmetic::div_mod::{lemma_fundamental_div_mod_converse, lemma_small_mod};
use vstd::arithmetic::power2::{lemma2_to64, lemma_pow2_adds, lemma_pow2_pos, pow2};
use vstd::prelude::*;

use crate::limbs::{lemma_prefix_full, lemma_prefix_step, lemma_radix_zero, limbs_value, radix};
use crate::zint::ZInt;

verus! {

/// An integer modulo `2^256 - 2^224 + 2^192 + 2^96 - 1`, held in eight
/// limbs, least significant limb first. Any eight limbs stand for the
/// residue of the integer they hold; those that hold the residue itself
/// are canonical.
#[derive(Clone, Copy, Debug)]
pub struct GFp256 {
    pub limbs: [u32; 8],
}

/// Byte `i` of a word, counting from the least significant byte.
pub open spec fn byte_of(w: u32, i: int) -> u8 {
    ((w >> ((8 * i) as u32)) & 0xff) as u8
}

/// The unsigned integer held by `s`, least significant byte first.
pub open spec fn bytes_value(s: Seq<u8>) -> nat
    decreases s.len(),
{
    if s.len() == 0 {
        0
    } else {
        bytes_value(s.drop_last()) + (s.last() as nat) * pow2((8 * (s.len() - 1)) as nat)
    }
}

/// The value of the first `i + 1` bytes is that of the first `i` plus
/// byte `i` at its weight.
proof fn lemma_bytes_step(s: Seq<u8>, i: int)
    requires
        0 <= i < s.len(),
    ensures
        bytes_value(s.take(i + 1)) == bytes_value(s.take(i)) + (s[i] as nat) * pow2((8 * i) as nat),
{
    assert(s.take(i + 1).drop_last() =~= s.take(i));
}

/// The four bytes of a word make up the word.
proof fn lemma_word_bytes(w: u32)
    by (bit_vector)
    ensures
        w == (w & 0xff) + ((w >> 8) & 0xff) * 0x100 + ((w >> 16) & 0xff) * 0x1_0000 + ((w >> 24)
            & 0xff) * 0x100_0000,
        w >> 0 == w,
        (w & 0xff) < 0x100,
        ((w >> 8) & 0xff) < 0x100,
        ((w >> 16) & 0xff) < 0x100,
        ((w >> 24) & 0xff) < 0x100,
{
}

/// The bytes of eight limbs, least significant byte first.
fn limbs_to_bytes(limbs: &[u32; 8]) -> (r: [u8; 32])
    ensures
        forall|i: int| 0 <= i < 32 ==> r[i] == byte_of(limbs[i / 4], i % 4),
        bytes_value(r@) == limbs_value(limbs@),
{
    let mut r = [0u8; 32];
    let mut i: usize = 0;
    while i < 8
        invariant
            i <= 8,
            forall|m: int| 0 <= m < 4 * i ==> r[m] == byte_of(limbs[m / 4], m % 4),
            bytes_value(r@.take(4 * i)) == limbs_value(limbs@.take(i as int)),
        decreases 8 - i,
    {
        let ghost before = r@;
        let w: u32 = limbs[i];
        r[4 * i] = (w & 0xff) as u8;
        r[4 * i + 1] = ((w >> 8) & 0xff) as u8;
        r[4 * i + 2] = ((w >> 16) & 0xff) as u8;
        r[4 * i + 3] = ((w >> 24) & 0xff) as u8;
        proof {
            lemma_word_bytes(w);
            assert forall|m: int| 0 <= m < 4 * (i + 1) implies r[m] == byte_of(
                limbs[m / 4],
                m % 4,
            ) by {
                if m >= 4 * i {
                    assert(m / 4 == i);
                }
            }
            assert(r@.take(4 * i) =~= before.take(4 * i));
            lemma_bytes_step(r@, 4 * i);
            lemma_bytes_step(r@, 4 * i + 1);
            lemma_bytes_step(r@, 4 * i + 2);
            lemma_bytes_step(r@, 4 * i + 3);
            lemma_prefix_step(limbs@, i as int);
            lemma2_to64();
            lemma_pow2_adds(32 * (i as nat), 8);
            lemma_pow2_adds(32 * (i as nat), 16);
            lemma_pow2_adds(32 * (i as nat), 24);
            let p = pow2(32 * (i as nat)) as int;
            let b0 = r[4 * i] as int;
            let b1 = r[4 * i + 1] as int;
            let b2 = r[4 * i + 2] as int;
            let b3 = r[4 * i + 3] as int;
            assert(pow2((8 * (4 * i)) as nat) == p);
            assert(pow2((8 * (4 * i + 1)) as nat) == p * 0x100);
            assert(pow2((8 * (4 * i + 2)) as nat) == p * 0x1_0000);
            assert(pow2((8 * (4 * i + 3)) as nat) == p * 0x100_0000);
            assert(b0 * p + b1 * (p * 0x100) + b2 * (p * 0x1_0000) + b3 * (p * 0x100_0000) == (b0
                + b1 * 0x100 + b2 * 0x1_0000 + b3 * 0x100_0000) * p) by (nonlinear_arith);
            assert(radix(i as nat) == p);
        }
        i = i + 1;
    }
    proof {
        assert(r@.take(32) =~= r@);
        lemma_prefix_full(limbs@);
    }
    r
}

impl GFp256 {
    /// The modulus of the field.
    pub open spec fn modulus() -> nat {
        (pow2(256) - pow2(224) + pow2(192) + pow2(96) - 1) as nat
    }

    /// The integer that the limbs hold.
    pub open spec fn value(&self) -> nat {
        limbs_value(self.limbs@)
    }

    /// The limbs hold the residue itself.
    pub open spec fn is_canonical(&self) -> bool {
        self.value() < Self::modulus()
    }

    /// The modulus lies in the upper half of 256 bits.
    pub proof fn lemma_modulus_range()
        ensures
            pow2(256) < 2 * Self::modulus(),
            Self::modulus() < pow2(256),
    {
        lemma2_to64();
        lemma_pow2_adds(224, 32);
        lemma_pow2_adds(192, 32);
        lemma_pow2_adds(96, 96);
        lemma_pow2_adds(64, 32);
        lemma_pow2_pos(192);
        let a = pow2(96) as int;
        assert(a * a >= a) by (nonlinear_arith)
            requires
                a >= 1,
        ;
    }

    /// The modulus in limbs.
    fn modulus_limbs() -> (p: ZInt<8>)
        ensures
            p.value() == Self::modulus(),
    {
        let p = ZInt::<8> {
            limbs: [0xffff_ffff, 0xffff_ffff, 0xffff_ffff, 0, 0, 0, 1, 0xffff_ffff],
        };
        proof {
            let s = p.limbs@;
            lemma_radix_zero();
            lemma2_to64();
            lemma_pow2_adds(64, 32);
            lemma_pow2_adds(224, 32);
            assert(s.take(0).len() == 0);
            lemma_prefix_step(s, 0);
            lemma_prefix_step(s, 1);
            lemma_prefix_step(s, 2);
            lemma_prefix_step(s, 3);
            lemma_prefix_step(s, 4);
            lemma_prefix_step(s, 5);
            lemma_prefix_step(s, 6);
            lemma_prefix_step(s, 7);
            lemma_prefix_full(s);
            assert(radix(1) == pow2(32) && radix(2) == pow2(64) && radix(3) == pow2(96));
            assert(radix(6) == pow2(192) && radix(7) == pow2(224));
            let t = pow2(224) as int;
            assert(0xffff_ffff * t == 0x1_0000_0000 * t - t) by (nonlinear_arith);
            assert(0 * radix(3) == 0 && 0 * radix(4) == 0 && 0 * radix(5) == 0);
        }
        p
    }

    /// Encodes the element into the bytes of its residue, least significant
    /// byte first. Canonical limbs are encoded as they are.
    pub fn encode(self) -> (r: [u8; 32])
        ensures
            bytes_value(r@) == self.value() % Self::modulus(),
            self.is_canonical() ==> forall|i: int|
                0 <= i < 32 ==> r[i] == byte_of(self.limbs[i / 4], i % 4),
    {
        let mut x = ZInt::<8> { limbs: self.limbs };
        let p = Self::modulus_limbs();
        proof {
            Self::lemma_modulus_range();
            x.lemma_value_range();
            assert(radix(8) == pow2(256));
        }
        if !x.lt(&p) {
            // The value is below twice the modulus: taking the modulus off
            // once leaves the residue.
            let borrow = x.sub_words(&p);
            proof {
                x.lemma_value_range();
                let m = radix(8) as int;
                assert(borrow == 0) by {
                    assert(borrow * m >= m || borrow == 0) by (nonlinear_arith)
                        requires
                            borrow <= 1,
                            m >= 0,
                    ;
                }
                lemma_fundamental_div_mod_converse(
                    self.value() as int,
                    Self::modulus() as int,
                    1,
                    x.value() as int,
                );
            }
        } else {
            proof {
                lemma_small_mod(self.value(), Self::modulus());
            }
        }
        limbs_to_bytes(&x.limbs)
    }
}

} // verus!
