use lagrange::reduce::{lagrange_reduce, shift_amount};
use lagrange::vartime::{
    lagrange253_vartime, lagrange256_vartime, lagrange320_vartime, lagrange384_vartime,
    lagrange448_vartime, lagrange512_vartime, lagrange_vartime,
};

// The order of the prime-order subgroup of Curve25519.
const ED25519_ORDER: [u32; 8] = [
    0x5cf5d3ed, 0x5812631a, 0xa2f79cd6, 0x14def9de, 0x00000000, 0x00000000, 0x00000000, 0x10000000,
];

// The order of the curve P-256: the top bit of its width is set.
const P256_ORDER: [u32; 8] = [
    0xfc632551, 0xf3b9cac2, 0xa7179e84, 0xbce6faad, 0xffffffff, 0xffffffff, 0x00000000, 0xffffffff,
];

// Schoolbook product of two numbers of 32-bit limbs.
fn big_mul(a: &[u32], b: &[u32]) -> Vec<u32> {
    let mut d = vec![0u32; a.len() + b.len()];
    for i in 0..a.len() {
        let mut carry: u64 = 0;
        for j in 0..b.len() {
            let t = (a[i] as u64) * (b[j] as u64) + (d[i + j] as u64) + carry;
            d[i + j] = t as u32;
            carry = t >> 32;
        }
        d[i + b.len()] = carry as u32;
    }
    d
}

fn big_ge(a: &[u32], b: &[u32]) -> bool {
    for i in (0..a.len()).rev() {
        if a[i] != b[i] {
            return a[i] > b[i];
        }
    }
    true
}

// Remainder of a by n, bit by bit.
fn big_rem(a: &[u32], n: &[u32]) -> Vec<u32> {
    let len = n.len() + 1;
    let mut nn = n.to_vec();
    nn.push(0);
    let mut r = vec![0u32; len];
    for bit in (0..32 * a.len()).rev() {
        let mut carry = (a[bit / 32] >> (bit % 32)) & 1;
        for w in r.iter_mut() {
            let top = *w >> 31;
            *w = (*w << 1) | carry;
            carry = top;
        }
        if big_ge(&r, &nn) {
            let mut borrow: u64 = 0;
            for i in 0..len {
                let t = (r[i] as u64).wrapping_sub(nn[i] as u64).wrapping_sub(borrow);
                r[i] = t as u32;
                borrow = (t >> 63) & 1;
            }
        }
    }
    r.truncate(n.len());
    r
}

// True iff k * c1 is congruent to c0 modulo n.
fn congruent(k: &[u32], n: &[u32], c0: i128, c1: i128) -> bool {
    let m1 = c1.unsigned_abs();
    let m0 = c0.unsigned_abs();
    let l1 = [m1 as u32, (m1 >> 32) as u32, (m1 >> 64) as u32, (m1 >> 96) as u32];
    let l0 = [m0 as u32, (m0 >> 32) as u32, (m0 >> 64) as u32, (m0 >> 96) as u32];
    // k * |c1| + (sign) |c0| must be a multiple of n, with the sign chosen so
    // that it stands for k * c1 - c0 up to sign.
    let p = big_rem(&big_mul(k, &l1), n);
    let q = big_rem(&l0, n);
    let same_sign = (c0 < 0) == (c1 < 0) || c0 == 0 || c1 == 0;
    if same_sign {
        p == q
    } else {
        // p + q must be 0 or n
        let mut sum = vec![0u32; n.len() + 1];
        let mut carry: u64 = 0;
        for i in 0..n.len() {
            let t = (p[i] as u64) + (q[i] as u64) + carry;
            sum[i] = t as u32;
            carry = t >> 32;
        }
        sum[n.len()] = carry as u32;
        let zero = sum.iter().all(|w| *w == 0);
        let mut nn = n.to_vec();
        nn.push(0);
        zero || sum == nn
    }
}

fn square_norm_bits(c0: i128, c1: i128) -> u32 {
    let m0 = c0.unsigned_abs();
    let m1 = c1.unsigned_abs();
    let l0 = [m0 as u32, (m0 >> 32) as u32, (m0 >> 64) as u32, (m0 >> 96) as u32];
    let l1 = [m1 as u32, (m1 >> 32) as u32, (m1 >> 64) as u32, (m1 >> 96) as u32];
    let a = big_mul(&l0, &l0);
    let b = big_mul(&l1, &l1);
    let mut sum = vec![0u32; 9];
    let mut carry: u64 = 0;
    for i in 0..8 {
        let t = (a[i] as u64) + (b[i] as u64) + carry;
        sum[i] = t as u32;
        carry = t >> 32;
    }
    sum[8] = carry as u32;
    for i in (0..9).rev() {
        if sum[i] != 0 {
            return 32 * (i as u32) + 32 - sum[i].leading_zeros();
        }
    }
    0
}

#[test]
fn shift_amount_is_the_excess_or_zero() {
    assert_eq!(shift_amount(10, 3), 7);
    assert_eq!(shift_amount(3, 10), 0);
    assert_eq!(shift_amount(5, 5), 0);
    assert_eq!(shift_amount(0, 0), 0);
    assert_eq!(shift_amount(1024, 0), 1024);
    assert_eq!(shift_amount(0, 1024), 0);
}

#[test]
fn five_modulo_seventeen() {
    let k = [5u32, 0, 0, 0, 0, 0, 0, 0];
    let n = [17u32, 0, 0, 0, 0, 0, 0, 0];
    let (c0, c1) = lagrange253_vartime(&k, &n);
    // 5 * c1 = c0 modulo 17
    assert_eq!((5 * c1 - c0).rem_euclid(17), 0);
    // both coordinates within twice the square root of 17
    assert!(c0 * c0 <= 4 * 17 && c1 * c1 <= 4 * 17);
    assert!((c0, c1) != (0, 0));
    // the first vector is short enough already
    assert_eq!((c0, c1), (5, 1));
}

#[test]
fn zero_gives_the_unit_vector() {
    let k = [0u32; 8];
    assert_eq!(lagrange253_vartime(&k, &ED25519_ORDER), (0, 1));
    assert_eq!(lagrange253_vartime(&k, &P256_ORDER), (0, 1));
    assert_eq!(lagrange253_vartime(&k, &[17, 0, 0, 0, 0, 0, 0, 0]), (0, 1));
    assert_eq!(lagrange253_vartime(&k, &[1, 0, 0, 0, 0, 0, 0, 0]), (0, 1));
    let r = lagrange256_vartime(&k, &ED25519_ORDER, 130);
    assert_eq!(r.c0.limbs, [0, 0, 0, 0]);
    assert_eq!(r.c1.limbs, [1, 0, 0, 0]);
    assert!(r.short);
}

#[test]
fn small_operands_return_at_once() {
    let r = lagrange256_vartime(&[3, 0, 0, 0, 0, 0, 0, 0], &[1000003, 0, 0, 0, 0, 0, 0, 0], 130);
    assert_eq!(r.c0.limbs, [3, 0, 0, 0]);
    assert_eq!(r.c1.limbs, [1, 0, 0, 0]);
    assert!(r.short);
    assert_eq!(lagrange253_vartime(&[1, 0, 0, 0, 0, 0, 0, 0], &[2, 0, 0, 0, 0, 0, 0, 0]), (1, 1));
}

#[test]
fn known_scalar_for_the_curve25519_order() {
    let k = [
        0x87654321, 0x0fedcba9, 0x89abcdef, 0x01234567, 0xc6d7e8f9, 0x8293a4b5, 0x4e5f6071,
        0x0a1b2c3d,
    ];
    let r = lagrange256_vartime(&k, &ED25519_ORDER, 254);
    assert_eq!(r.c0.limbs, [0x21fff049, 0x8a3c9856, 0x322a2189, 0x859ab645]);
    assert_eq!(r.c1.limbs, [0xc01b9d9e, 0xf595c531, 0x84170739, 0xf3934d50]);
    assert!(r.short);
    let (c0, c1) = lagrange253_vartime(&k, &ED25519_ORDER);
    assert_eq!(c0, -162691732884514027073368174995896799159);
    assert_eq!(c1, -16515128182326943650591112441444459106);
    assert!(congruent(&k, &ED25519_ORDER, c0, c1));
    assert!(square_norm_bits(c0, c1) <= 254);
}

#[test]
fn repeated_runs_give_the_same_result() {
    let k = [
        0x87654321, 0x0fedcba9, 0x89abcdef, 0x01234567, 0xc6d7e8f9, 0x8293a4b5, 0x4e5f6071,
        0x0a1b2c3d,
    ];
    let first = lagrange253_vartime(&k, &ED25519_ORDER);
    for _ in 0..10 {
        assert_eq!(lagrange253_vartime(&k, &ED25519_ORDER), first);
    }
    let a = lagrange256_vartime(&k, &P256_ORDER, 254);
    let b = lagrange256_vartime(&k, &P256_ORDER, 254);
    assert_eq!(a.c0.limbs, b.c0.limbs);
    assert_eq!(a.c1.limbs, b.c1.limbs);
    assert_eq!(a.short, b.short);
}

#[test]
fn random_scalars_decompose_modulo_the_curve25519_order() {
    let mut x: u64 = 0x2545_f491_4f6c_dd1d;
    let mut next = || {
        x = x.wrapping_mul(6364136223846793005).wrapping_add(1442695040888963407);
        (x >> 32) as u32
    };
    for _ in 0..200 {
        // below 2^252, hence below the order
        let k = [next(), next(), next(), next(), next(), next(), next(), next() & 0x0fff_ffff];
        let r = lagrange256_vartime(&k, &ED25519_ORDER, 254);
        assert!(r.short);
        let (c0, c1) = lagrange253_vartime(&k, &ED25519_ORDER);
        assert!(congruent(&k, &ED25519_ORDER, c0, c1));
        assert!(square_norm_bits(c0, c1) <= 254);
        assert!((c0, c1) != (0, 0));
    }
}

#[test]
fn modulus_with_the_top_bit_set_may_stall() {
    let k = [
        0xe6f70819, 0xa2b3c4d5, 0x6e7f8091, 0x2a3b4c5d, 0xe6f70819, 0xa2b3c4d5, 0x5e6f8091,
        0x7d3c1a2b,
    ];
    // No vector of the lattice is as short as 254 bits ask for: the
    // reduction comes to a standstill and says so.
    let r = lagrange256_vartime(&k, &P256_ORDER, 254);
    assert_eq!(r.c0.limbs, [0x0fa58201, 0x8c3af277, 0x727b6368, 0xf5937a0f]);
    assert_eq!(r.c1.limbs, [0x44310505, 0x34f5ac83, 0x364d6baf, 0x0572d08a]);
    assert!(!r.short);
    let q = lagrange256_vartime(&k, &P256_ORDER, 130);
    assert_eq!(q.c0.limbs, r.c0.limbs);
    assert_eq!(q.c1.limbs, r.c1.limbs);
    assert!(!q.short);
    // With 258 bits it passes, though the coordinates need more than the
    // 128 bits that are returned.
    let s = lagrange256_vartime(&k, &P256_ORDER, 258);
    assert_eq!(s.c0.limbs, [0x47dfe6a9, 0x7c8df912, 0x45236385, 0xf6c5f867]);
    assert_eq!(s.c1.limbs, [0xf60badab, 0x4d7fe8b4, 0xea5f3669, 0xdbcd3ca8]);
    assert!(s.short);
}

#[test]
fn standstill_is_reported() {
    let k = [
        0x892f902b, 0x1818e811, 0x5d9dc9f8, 0x9531985d, 0x0ed90475, 0xe8e25d94, 0x81e74ef5,
        0x36f675cc,
    ];
    let n = [
        0x52e6b439, 0xf2a74de4, 0x269e0d37, 0x6513270e, 0xa6a3a450, 0x0c5c7fd0, 0x128b2f33,
        0xd23f0824,
    ];
    let r = lagrange256_vartime(&k, &n, 250);
    assert_eq!(r.c0.limbs, [0x42461315, 0x167808ae, 0xef078b4f, 0xdf66edf1]);
    assert_eq!(r.c1.limbs, [0x344ab2aa, 0xfc627e69, 0xf981da22, 0xfbda04da]);
    assert!(!r.short);
}

#[test]
fn operands_that_fill_the_width() {
    // n = 2^256 - 189 and k = n - 12345: both squares fill 512 bits.
    let k = [
        0xffffcf0a, 0xffffffff, 0xffffffff, 0xffffffff, 0xffffffff, 0xffffffff, 0xffffffff,
        0xffffffff,
    ];
    let n = [
        0xffffff43, 0xffffffff, 0xffffffff, 0xffffffff, 0xffffffff, 0xffffffff, 0xffffffff,
        0xffffffff,
    ];
    let r = lagrange256_vartime(&k, &n, 254);
    assert_eq!(r.c0.limbs, [0x00003039, 0, 0, 0]);
    assert_eq!(r.c1.limbs, [0xffffffff, 0xffffffff, 0xffffffff, 0xffffffff]);
    assert!(r.short);
    let (c0, c1) = lagrange253_vartime(&k, &n);
    assert_eq!((c0, c1), (12345, -1));
    assert!(congruent(&k, &n, c0, c1));
}

#[test]
fn generic_reduction_matches_the_sized_one() {
    let k = [
        0x87654321, 0x0fedcba9, 0x89abcdef, 0x01234567, 0xc6d7e8f9, 0x8293a4b5, 0x4e5f6071,
        0x0a1b2c3d,
    ];
    let a = lagrange_reduce::<4, 8, 12, 16>(&k, &ED25519_ORDER, 254);
    let b = lagrange256_vartime(&k, &ED25519_ORDER, 254);
    assert_eq!(a.c0.limbs, b.c0.limbs);
    assert_eq!(a.c1.limbs, b.c1.limbs);
    assert_eq!(a.short, b.short);
}

#[test]
fn twelve_limbs() {
    let k = [
        0x89abcdef, 0x01234567, 0xcafebabe, 0xdeadbeef, 0xf0f0f0f0, 0x0f0f0f0f, 0x5a5a5a5a,
        0xa5a5a5a5, 0x76543210, 0xfedcba98, 0x9abcdef0, 0x12345678,
    ];
    let n = [
        0xccc52973, 0xecec196a, 0x48b0a77a, 0x581a0db2, 0xf4372ddf, 0xc7634d81, 0xffffffff,
        0xffffffff, 0xffffffff, 0xffffffff, 0xffffffff, 0xffffffff,
    ];
    let r = lagrange384_vartime(&k, &n, 382);
    assert_eq!(
        r.c0.limbs,
        [0x61b738f7, 0x340fb670, 0xa9e6d5ab, 0x5b4faac5, 0x76c9ff20, 0x3a43e636]
    );
    assert_eq!(
        r.c1.limbs,
        [0x278d99e4, 0x85e0a43f, 0x66356c8d, 0x33896617, 0x6e28e14e, 0xfc7940c1]
    );
    assert!(r.short);
    let mut c0 = [0u32; 6];
    let mut c1 = [0u32; 6];
    lagrange_vartime(&k, &n, 382, &mut c0, &mut c1);
    assert_eq!(c0, r.c0.limbs);
    assert_eq!(c1, r.c1.limbs);
}

#[test]
fn nine_limbs_are_reduced_at_ten() {
    let k = [
        0x95275a2b, 0x11d0c18e, 0x51f86c6a, 0x6bf3a272, 0x34108227, 0x605cedc8, 0x15f39cc0,
        0xb97f4a7c, 0x009e3779,
    ];
    let n = [
        0xffffffd1, 0xffffffff, 0xffffffff, 0xffffffff, 0xffffffff, 0xffffffff, 0xffffffff,
        0xffffffff, 0x00ffffff,
    ];
    let mut c0 = [0u32; 5];
    let mut c1 = [0u32; 5];
    lagrange_vartime(&k, &n, 300, &mut c0, &mut c1);
    assert_eq!(c0, [0x955219b7, 0x6383fb83, 0xfd43ea81, 0xd0c25ada, 0xffe496bf]);
    assert_eq!(c1, [0x977711fe, 0x45dc359e, 0x8219f738, 0xdb54f487, 0xfffffffb]);
    let mut k10 = [0u32; 10];
    let mut n10 = [0u32; 10];
    k10[..9].copy_from_slice(&k);
    n10[..9].copy_from_slice(&n);
    let r = lagrange320_vartime(&k10, &n10, 300);
    assert_eq!(
        r.c0.limbs,
        [0x955219b7, 0x6383fb83, 0xfd43ea81, 0xd0c25ada, 0xffe496bf, 0xffffffff]
    );
    assert_eq!(
        r.c1.limbs,
        [0x977711fe, 0x45dc359e, 0x8219f738, 0xdb54f487, 0xfffffffb, 0xffffffff]
    );
    assert!(r.short);
}

#[test]
fn fourteen_limbs() {
    let k = [
        0x0a090807, 0x0e0d0c0b, 0x1211100f, 0x16151413, 0x1a191817, 0x1e1d1c1b, 0x2221201f,
        0x26252423, 0x2a292827, 0x2e2d2c2b, 0x3231302f, 0x36353433, 0x3a393837, 0x3e3d3c3b,
    ];
    let n = [
        0xffffffff, 0xffffffff, 0xffffffff, 0xffffffff, 0xffffffff, 0xffffffff, 0xffffffff,
        0xfffffffe, 0xffffffff, 0xffffffff, 0xffffffff, 0xffffffff, 0xffffffff, 0xffffffff,
    ];
    let r = lagrange448_vartime(&k, &n, 446);
    assert_eq!(
        r.c0.limbs,
        [
            0x8b9be663, 0x51dc92f1, 0x8ebaf03f, 0xd4f13fb0, 0x8805aaa0, 0x75b0748e, 0x202fc3da,
            0xffffffff
        ]
    );
    assert_eq!(
        r.c1.limbs,
        [
            0xe501793a, 0xe7311d42, 0xf7ca3cfb, 0xa53866ba, 0x74ac3b65, 0x337a809b, 0xd2b512d5,
            0xffffffff
        ]
    );
    assert!(!r.short);
    let mut c0 = [0u32; 7];
    let mut c1 = [0u32; 7];
    lagrange_vartime(&k, &n, 446, &mut c0, &mut c1);
    assert_eq!(c0[..], r.c0.limbs[..7]);
    assert_eq!(c1[..], r.c1.limbs[..7]);
}

#[test]
fn sixteen_limbs() {
    let k = [
        0x04030201, 0x08070605, 0x0c0b0a09, 0x100f0e0d, 0x14131211, 0x18171615, 0x1c1b1a19,
        0x201f1e1d, 0x24232221, 0x28272625, 0x2c2b2a29, 0x302f2e2d, 0x34333231, 0x38373635,
        0x3c3b3a39, 0x403f3e3d,
    ];
    let mut n = [0xffffffffu32; 16];
    n[0] = 0xfffffdc7;
    let r = lagrange512_vartime(&k, &n, 510);
    assert_eq!(
        r.c0.limbs,
        [
            0xff725078, 0xffffffff, 0xffffffff, 0xffffffff, 0xffffffff, 0xffffffff, 0xffffffff,
            0xffffffff
        ]
    );
    assert_eq!(
        r.c1.limbs,
        [
            0xffff01ff, 0xffffffff, 0xffffffff, 0xffffffff, 0xffffffff, 0xffffffff, 0xffffffff,
            0xffffffff
        ]
    );
    assert!(r.short);
    let mut c0 = [0u32; 8];
    let mut c1 = [0u32; 8];
    lagrange_vartime(&k, &n, 510, &mut c0, &mut c1);
    assert_eq!(c0, r.c0.limbs);
    assert_eq!(c1, r.c1.limbs);
}

#[test]
fn short_buffers_take_the_low_limbs() {
    let k = [
        0x87654321, 0x0fedcba9, 0x89abcdef, 0x01234567, 0xc6d7e8f9, 0x8293a4b5, 0x4e5f6071,
        0x0a1b2c3d,
    ];
    let mut c0 = [0u32; 4];
    let mut c1 = [0u32; 4];
    lagrange_vartime(&k, &ED25519_ORDER, 254, &mut c0, &mut c1);
    assert_eq!(c0, [0x21fff049, 0x8a3c9856, 0x322a2189, 0x859ab645]);
    assert_eq!(c1, [0xc01b9d9e, 0xf595c531, 0x84170739, 0xf3934d50]);
    let mut d0 = [0u32; 2];
    let mut d1 = [0u32; 3];
    lagrange_vartime(&k, &ED25519_ORDER, 254, &mut d0, &mut d1);
    assert_eq!(d0, [0x21fff049, 0x8a3c9856]);
    assert_eq!(d1, [0xc01b9d9e, 0xf595c531, 0x84170739]);
    let mut e0: [u32; 0] = [];
    let mut e1 = [7u32; 1];
    lagrange_vartime(&k, &ED25519_ORDER, 254, &mut e0, &mut e1);
    assert_eq!(e1, [0xc01b9d9e]);
}

#[test]
fn small_budget_reduces_a_small_modulus() {
    let k = [5u32, 0, 0, 0, 0, 0, 0, 0];
    let n = [17u32, 0, 0, 0, 0, 0, 0, 0];
    let mut c0 = [0u32; 4];
    let mut c1 = [0u32; 4];
    lagrange_vartime(&k, &n, 4, &mut c0, &mut c1);
    // (2, -3): 5 * -3 = 2 modulo 17, and 2 * 2 + 3 * 3 = 13
    assert_eq!(c0, [2, 0, 0, 0]);
    assert_eq!(c1, [0xffff_fffd, 0xffff_ffff, 0xffff_ffff, 0xffff_ffff]);
    let r = lagrange256_vartime(&k, &n, 4);
    assert_eq!(r.c0.limbs, c0);
    assert_eq!(r.c1.limbs, c1);
    assert!(r.short);
}

#[test]
fn budget_of_zero_ends_at_the_standstill() {
    let k = [5u32, 0, 0, 0, 0, 0, 0, 0];
    let n = [17u32, 0, 0, 0, 0, 0, 0, 0];
    let mut c0 = [0u32; 4];
    let mut c1 = [0u32; 4];
    lagrange_vartime(&k, &n, 0, &mut c0, &mut c1);
    assert_eq!(c0, [2, 0, 0, 0]);
    assert_eq!(c1, [0xffff_fffd, 0xffff_ffff, 0xffff_ffff, 0xffff_ffff]);
    assert!(!lagrange256_vartime(&k, &n, 0).short);
}

#[test]
fn small_budget_at_nine_limbs() {
    let k = [5u32, 0, 0, 0, 0, 0, 0, 0, 0];
    let n = [17u32, 0, 0, 0, 0, 0, 0, 0, 0];
    let mut c0 = [0u32; 5];
    let mut c1 = [0u32; 5];
    lagrange_vartime(&k, &n, 4, &mut c0, &mut c1);
    assert_eq!(c0, [2, 0, 0, 0, 0]);
    assert_eq!(c1, [0xffff_fffd, 0xffff_ffff, 0xffff_ffff, 0xffff_ffff, 0xffff_ffff]);
}

#[test]
fn thirty_seven_modulo_one_hundred_and_one() {
    let k = [37u32, 0, 0, 0, 0, 0, 0, 0];
    let n = [101u32, 0, 0, 0, 0, 0, 0, 0];
    let mut c0 = [0u32; 4];
    let mut c1 = [0u32; 4];
    lagrange_vartime(&k, &n, 7, &mut c0, &mut c1);
    // 37 * 3 = 111 = 10 modulo 101, and 10 * 10 + 3 * 3 = 109 has 7 bits
    assert_eq!(c0, [10, 0, 0, 0]);
    assert_eq!(c1, [3, 0, 0, 0]);
}

#[test]
fn zero_with_the_least_budget() {
    let k = [0u32; 8];
    let mut c0 = [7u32; 4];
    let mut c1 = [7u32; 4];
    lagrange_vartime(&k, &P256_ORDER, 1, &mut c0, &mut c1);
    assert_eq!(c0, [0, 0, 0, 0]);
    assert_eq!(c1, [1, 0, 0, 0]);
    let k12 = [0u32; 12];
    let mut n12 = [0xffff_ffffu32; 12];
    n12[0] = 0xffff_fff1;
    let mut d0 = [7u32; 6];
    let mut d1 = [7u32; 6];
    lagrange_vartime(&k12, &n12, 1, &mut d0, &mut d1);
    assert_eq!(d0, [0; 6]);
    assert_eq!(d1, [1, 0, 0, 0, 0, 0]);
}

#[test]
fn start_vector_that_meets_a_small_budget() {
    // n = 2^200 + 235
    let n = [0xeb, 0, 0, 0, 0, 0, 0x100, 0];
    let k = [1000u32, 0, 0, 0, 0, 0, 0, 0];
    let r = lagrange256_vartime(&k, &n, 100);
    assert_eq!(r.c0.limbs, [1000, 0, 0, 0]);
    assert_eq!(r.c1.limbs, [1, 0, 0, 0]);
    assert!(r.short);
    // 1000 * 1000 + 1 has 20 bits
    let s = lagrange256_vartime(&k, &n, 20);
    assert_eq!(s.c0.limbs, [1000, 0, 0, 0]);
    assert_eq!(s.c1.limbs, [1, 0, 0, 0]);
    assert!(s.short);
}

#[test]
fn budget_that_is_ample_for_the_modulus() {
    // n = 2^200 + 235: from 18 bits on the budget is ample for it.
    let n = [0xeb, 0, 0, 0, 0, 0, 0x100, 0];
    let k = [
        0xcd99a1cb, 0xcd25e8c3, 0x22299f31, 0x44a40938, 0x2e037073, 0xd313198a, 0x00000008, 0,
    ];
    for budget in [18u32, 60, 100, 101] {
        let r = lagrange256_vartime(&k, &n, budget);
        assert_eq!(r.c0.limbs, [0x49af21cf, 0x71ae1ae4, 0xe46f28ee, 0x0000000b]);
        assert_eq!(r.c1.limbs, [0xd7c87618, 0x2cd9d675, 0x191bdc38, 0xfffffff8]);
        assert!(!r.short);
    }
    let (c0, c1) = {
        let r = lagrange256_vartime(&k, &n, 18);
        let join = |l: [u32; 4]| {
            ((l[0] as u128) | ((l[1] as u128) << 32) | ((l[2] as u128) << 64) | ((l[3] as u128) << 96))
                as i128
        };
        (join(r.c0.limbs), join(r.c1.limbs))
    };
    assert!(congruent(&k, &n, c0, c1));
    // a scalar that is its own shortest vector
    let small = [123456789u32, 0, 0, 0, 0, 0, 0, 0];
    let q = lagrange256_vartime(&small, &n, 30);
    assert_eq!(q.c0.limbs, [123456789, 0, 0, 0]);
    assert_eq!(q.c1.limbs, [1, 0, 0, 0]);
    assert!(!q.short);
}

#[test]
fn budget_of_zero_gives_the_shortest_vector() {
    let k = [
        0x87654321, 0x0fedcba9, 0x89abcdef, 0x01234567, 0xc6d7e8f9, 0x8293a4b5, 0x4e5f6071,
        0x0a1b2c3d,
    ];
    // No vector meets a budget of zero: the reduction goes on to its
    // standstill, where the shortest vector of the lattice is left.
    for budget in [0u32, 100] {
        let r = lagrange256_vartime(&k, &ED25519_ORDER, budget);
        assert_eq!(r.c0.limbs, [0xd7f6512e, 0x049b417b, 0x85f236a0, 0xf702e540]);
        assert_eq!(r.c1.limbs, [0xf13186bf, 0xf6b3b5a9, 0xf55eeb30, 0x208d831e]);
        assert!(!r.short);
    }
    // The vector has 251 bits: a budget of 253 stops there as well.
    let s = lagrange256_vartime(&k, &ED25519_ORDER, 253);
    assert_eq!(s.c0.limbs, [0xd7f6512e, 0x049b417b, 0x85f236a0, 0xf702e540]);
    assert_eq!(s.c1.limbs, [0xf13186bf, 0xf6b3b5a9, 0xf55eeb30, 0x208d831e]);
    assert!(s.short);
    let c0: i128 = -11948017584491211741245820489760878290;
    let c1: i128 = 43270069170612249517917549587967608511;
    assert!(congruent(&k, &ED25519_ORDER, c0, c1));
    assert_eq!(square_norm_bits(c0, c1), 251);
    // The same with a modulus that fills its width.
    let q = [
        0xe6f70819, 0xa2b3c4d5, 0x6e7f8091, 0x2a3b4c5d, 0xe6f70819, 0xa2b3c4d5, 0x5e6f8091,
        0x7d3c1a2b,
    ];
    for budget in [0u32, 1, 129] {
        let r = lagrange256_vartime(&q, &P256_ORDER, budget);
        assert_eq!(r.c0.limbs, [0x0fa58201, 0x8c3af277, 0x727b6368, 0xf5937a0f]);
        assert_eq!(r.c1.limbs, [0x44310505, 0x34f5ac83, 0x364d6baf, 0x0572d08a]);
        assert!(!r.short);
    }
}
