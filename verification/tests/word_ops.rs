use lagrange::word::{
    addcarry_u32, lzcnt, sgnw, shl_carry, subborrow_u32, umull, umull_add, umull_add2, umull_x2,
    umull_x2_add,
};

#[test]
fn addcarry_wraps_and_carries() {
    assert_eq!(addcarry_u32(0xffff_ffff, 0, 1), (0, 1));
    assert_eq!(addcarry_u32(0xffff_ffff, 0xffff_ffff, 1), (0xffff_ffff, 1));
    assert_eq!(addcarry_u32(1, 2, 0), (3, 0));
    assert_eq!(addcarry_u32(0x8000_0000, 0x8000_0000, 0), (0, 1));
}

#[test]
fn subborrow_wraps_and_borrows() {
    assert_eq!(subborrow_u32(0, 0, 1), (0xffff_ffff, 1));
    assert_eq!(subborrow_u32(5, 3, 1), (1, 0));
    assert_eq!(subborrow_u32(0, 0xffff_ffff, 1), (0, 1));
    assert_eq!(subborrow_u32(7, 7, 0), (0, 0));
}

#[test]
fn leading_zero_count_edges() {
    assert_eq!(lzcnt(0), 32);
    assert_eq!(lzcnt(0x8000_0000), 0);
    assert_eq!(lzcnt(1), 31);
    assert_eq!(lzcnt(0xffff_ffff), 0);
    assert_eq!(lzcnt(0x0001_0000), 15);
    assert_eq!(lzcnt(0x0000_ffff), 16);
}

#[test]
fn leading_zero_count_matches_bit_scan() {
    let mut x: u32 = 0x9e37_79b9;
    for _ in 0..20000 {
        x = x.wrapping_mul(1664525).wrapping_add(1013904223);
        let shift = x >> 27;
        let y = x >> shift;
        assert_eq!(lzcnt(y), y.leading_zeros());
    }
    for m in 0..32u32 {
        assert_eq!(lzcnt(1u32 << m), 31 - m);
        assert_eq!(lzcnt((1u32 << m) - 1), 32 - m);
    }
}

#[test]
fn widening_product_is_exact() {
    assert_eq!(umull(0xffff_ffff, 0xffff_ffff), (1, 0xffff_fffe));
    assert_eq!(umull(0, 0xffff_ffff), (0, 0));
    assert_eq!(umull(0x1_0000, 0x1_0000), (0, 1));
}

#[test]
fn fused_multiply_add_is_exact_at_the_boundary() {
    // 0xffffffff * 0xffffffff + 0xffffffff = 0xffffffff_00000000
    assert_eq!(umull_add(0xffff_ffff, 0xffff_ffff, 0xffff_ffff), (0, 0xffff_ffff));
    assert_eq!(umull_add(3, 5, 7), (22, 0));
    // 0xffffffff * 0xffffffff + 2 * 0xffffffff = 0xffffffff_ffffffff
    assert_eq!(
        umull_add2(0xffff_ffff, 0xffff_ffff, 0xffff_ffff, 0xffff_ffff),
        (0xffff_ffff, 0xffff_ffff)
    );
    assert_eq!(umull_add2(3, 5, 7, 11), (33, 0));
}

#[test]
fn double_products_wrap_at_64_bits() {
    // 2 * 0xfffffffe_00000001 = 0x1_fffffffc_00000002, of which 64 bits stay.
    assert_eq!(
        umull_x2(0xffff_ffff, 0xffff_ffff, 0xffff_ffff, 0xffff_ffff),
        (2, 0xffff_fffc)
    );
    assert_eq!(umull_x2(2, 3, 4, 5), (26, 0));
    assert_eq!(
        umull_x2_add(0xffff_ffff, 0xffff_ffff, 0xffff_ffff, 0xffff_ffff, 0xffff_ffff),
        (1, 0xffff_fffd)
    );
    assert_eq!(umull_x2_add(2, 3, 4, 5, 6), (32, 0));
}

#[test]
fn sign_mask_spreads_the_top_bit() {
    assert_eq!(sgnw(0x8000_0000), 0xffff_ffff);
    assert_eq!(sgnw(0x7fff_ffff), 0);
    assert_eq!(sgnw(0), 0);
    assert_eq!(sgnw(0xffff_ffff), 0xffff_ffff);
}

#[test]
fn shift_with_carry_joins_neighbouring_words() {
    assert_eq!(shl_carry(0x8000_0001, 1, 1), (3, 1));
    assert_eq!(shl_carry(0xffff_ffff, 31, 0x7fff_ffff), (0xffff_ffff, 0x7fff_ffff));
    assert_eq!(shl_carry(0x1234_5678, 0, 0), (0x1234_5678, 0));
    assert_eq!(shl_carry(0x1234_5678, 8, 0xab), (0x3456_78ab, 0x12));
}
