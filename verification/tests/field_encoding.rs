use lagrange::field::GFp256;

const MODULUS: [u32; 8] = [
    0xffff_ffff, 0xffff_ffff, 0xffff_ffff, 0, 0, 0, 1, 0xffff_ffff,
];

#[test]
fn encode_is_little_endian() {
    let x = GFp256 {
        limbs: [
            0x0403_0201, 0x0807_0605, 0x0c0b_0a09, 0x100f_0e0d, 0x1413_1211, 0x1817_1615,
            0x1c1b_1a19, 0x201f_1e1d,
        ],
    };
    let bytes = x.encode();
    for i in 0..32 {
        assert_eq!(bytes[i], (i + 1) as u8);
    }
}

#[test]
fn encode_of_zero_and_of_one() {
    assert_eq!(GFp256 { limbs: [0; 8] }.encode(), [0u8; 32]);
    let mut one = [0u8; 32];
    one[0] = 1;
    assert_eq!(GFp256 { limbs: [1, 0, 0, 0, 0, 0, 0, 0] }.encode(), one);
    let mut top = [0u8; 32];
    top[31] = 0x80;
    assert_eq!(GFp256 { limbs: [0, 0, 0, 0, 0, 0, 0, 0x8000_0000] }.encode(), top);
}

#[test]
fn encode_of_the_largest_residue() {
    let mut limbs = MODULUS;
    limbs[0] -= 1;
    let bytes = GFp256 { limbs }.encode();
    let mut expected = [0u8; 32];
    for i in 0..12 {
        expected[i] = 0xff;
    }
    expected[0] = 0xfe;
    expected[24] = 1;
    for i in 28..32 {
        expected[i] = 0xff;
    }
    assert_eq!(bytes, expected);
}

#[test]
fn encode_gives_the_bytes_of_the_residue() {
    // the modulus itself stands for zero
    assert_eq!(GFp256 { limbs: MODULUS }.encode(), [0u8; 32]);
    // one above the modulus stands for one
    let mut limbs = MODULUS;
    limbs[3] = 1;
    limbs[0] = 0;
    limbs[1] = 0;
    limbs[2] = 0;
    let mut one = [0u8; 32];
    one[0] = 1;
    assert_eq!(GFp256 { limbs }.encode(), one);
    // 2^256 - 1 stands for 2^224 - 2^192 - 2^96
    let bytes = GFp256 { limbs: [0xffff_ffff; 8] }.encode();
    let mut expected = [0u8; 32];
    for i in 12..24 {
        expected[i] = 0xff;
    }
    expected[24] = 0xfe;
    for i in 25..28 {
        expected[i] = 0xff;
    }
    assert_eq!(bytes, expected);
}

#[test]
fn equal_elements_have_equal_bytes() {
    // 5 and 5 + modulus
    let a = GFp256 { limbs: [5, 0, 0, 0, 0, 0, 0, 0] };
    let b = GFp256 { limbs: [4, 0, 0, 1, 0, 0, 1, 0xffff_ffff] };
    assert_eq!(a.encode(), b.encode());
}
