use lagrange::mul::umul;
use lagrange::zint::ZInt;

#[test]
fn product_of_small_numbers() {
    let a = [7u32, 0, 0, 0];
    let b = [6u32, 0, 0, 0];
    let d: ZInt<8> = umul::<4, 8>(&a, &b);
    assert_eq!(d.limbs, [42, 0, 0, 0, 0, 0, 0, 0]);
}

#[test]
fn product_of_largest_numbers() {
    // (2^128 - 1)^2 = 2^256 - 2^129 + 1
    let a = [0xffff_ffffu32; 4];
    let d: ZInt<8> = umul::<4, 8>(&a, &a);
    assert_eq!(d.limbs, [1, 0, 0, 0, 0xffff_fffe, 0xffff_ffff, 0xffff_ffff, 0xffff_ffff]);
}

#[test]
fn product_by_zero_and_by_one() {
    let a = [0x1234_5678u32, 0x9abc_def0];
    let d: ZInt<4> = umul::<2, 4>(&a, &[0, 0]);
    assert_eq!(d.limbs, [0, 0, 0, 0]);
    let e: ZInt<4> = umul::<2, 4>(&a, &[1, 0]);
    assert_eq!(e.limbs, [0x1234_5678, 0x9abc_def0, 0, 0]);
    let f: ZInt<4> = umul::<2, 4>(&a, &[0, 1]);
    assert_eq!(f.limbs, [0, 0x1234_5678, 0x9abc_def0, 0]);
}

#[test]
fn product_agrees_with_u128() {
    let mut x: u64 = 0x0bad_cafe_f00d_beef;
    let mut next = || {
        x = x.wrapping_mul(6364136223846793005).wrapping_add(1442695040888963407);
        (x >> 32) as u32
    };
    for _ in 0..1000 {
        let a = [next(), next()];
        let b = [next(), next()];
        let va = (a[0] as u128) | ((a[1] as u128) << 32);
        let vb = (b[0] as u128) | ((b[1] as u128) << 32);
        let p = va * vb;
        let d: ZInt<4> = umul::<2, 4>(&a, &b);
        assert_eq!(
            d.limbs,
            [p as u32, (p >> 32) as u32, (p >> 64) as u32, (p >> 96) as u32]
        );
    }
}
