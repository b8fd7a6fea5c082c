use lagrange::zint::{ZInt, ZInt128, ZInt256};

fn z4(a: u32, b: u32, c: u32, d: u32) -> ZInt128 {
    ZInt { limbs: [a, b, c, d] }
}

#[test]
fn less_than_matches_magnitude_comparison() {
    let a = z4(1, 0, 0, 0);
    let b = z4(0, 1, 0, 0);
    assert!(a.lt(&b));
    assert!(!b.lt(&a));
    // equal operands
    assert!(!a.lt(&a));
    assert!(!z4(0, 0, 0, 0).lt(&z4(0, 0, 0, 0)));
    // the most significant limb decides
    assert!(z4(0xffff_ffff, 0xffff_ffff, 0xffff_ffff, 0).lt(&z4(0, 0, 0, 1)));
    // maximal values
    let max = z4(0xffff_ffff, 0xffff_ffff, 0xffff_ffff, 0xffff_ffff);
    let below = z4(0xffff_fffe, 0xffff_ffff, 0xffff_ffff, 0xffff_ffff);
    assert!(below.lt(&max));
    assert!(!max.lt(&below));
    assert!(!max.lt(&max));
    assert!(z4(0, 0, 0, 0).lt(&max));
}

#[test]
fn less_than_agrees_with_u128() {
    let mut x: u64 = 0x0123_4567_89ab_cdef;
    let mut next = || {
        x = x.wrapping_mul(6364136223846793005).wrapping_add(1442695040888963407);
        (x >> 32) as u32
    };
    for _ in 0..2000 {
        let a = [next(), next(), next() & 3, 0];
        let b = [next(), next(), next() & 3, 0];
        let va = (a[0] as u128) | ((a[1] as u128) << 32) | ((a[2] as u128) << 64);
        let vb = (b[0] as u128) | ((b[1] as u128) << 32) | ((b[2] as u128) << 64);
        assert_eq!((ZInt { limbs: a }).lt(&ZInt { limbs: b }), va < vb);
    }
}

#[test]
fn swap_is_its_own_inverse() {
    let mut a = z4(1, 2, 3, 4);
    let mut b = z4(5, 6, 7, 8);
    a.swap(&mut b);
    assert_eq!(a.limbs, [5, 6, 7, 8]);
    assert_eq!(b.limbs, [1, 2, 3, 4]);
    a.swap(&mut b);
    assert_eq!(a.limbs, [1, 2, 3, 4]);
    assert_eq!(b.limbs, [5, 6, 7, 8]);
}

#[test]
fn bit_length_of_zero_and_of_minus_one_is_zero() {
    assert_eq!(z4(0, 0, 0, 0).bitlength(), 0);
    assert_eq!(z4(0xffff_ffff, 0xffff_ffff, 0xffff_ffff, 0xffff_ffff).bitlength(), 0);
}

#[test]
fn bit_length_of_powers_of_two() {
    // 2^m has m + 1 bits, for every m that leaves the sign bit clear.
    for m in 0..127u32 {
        let mut limbs = [0u32; 4];
        limbs[(m / 32) as usize] = 1 << (m % 32);
        assert_eq!((ZInt { limbs }).bitlength(), m + 1);
    }
    // 2^127 is the most negative value: its complement is 2^127 - 1.
    assert_eq!(z4(0, 0, 0, 0x8000_0000).bitlength(), 127);
}

#[test]
fn bit_length_of_negative_values_is_that_of_the_complement() {
    // -2 is the complement of 1
    assert_eq!(z4(0xffff_fffe, 0xffff_ffff, 0xffff_ffff, 0xffff_ffff).bitlength(), 1);
    // -2^32 - 1 is the complement of 2^32
    assert_eq!(z4(0xffff_ffff, 0xffff_fffe, 0xffff_ffff, 0xffff_ffff).bitlength(), 33);
    assert_eq!(z4(5, 0, 0, 0).bitlength(), 3);
    assert_eq!(z4(0, 0, 0x10, 0).bitlength(), 69);
}

#[test]
fn fits_below_tests_top_bit_and_higher_limbs() {
    let x = z4(0xffff_ffff, 0x7fff_ffff, 0, 0);
    assert!(x.ltnw(2));
    assert!(x.ltnw(3));
    assert!(x.ltnw(4));
    assert!(!x.ltnw(1));
    let y = z4(0, 0x8000_0000, 0, 0);
    assert!(!y.ltnw(2));
    assert!(y.ltnw(3));
    let z = z4(0, 0, 0, 1);
    assert!(!z.ltnw(1));
    assert!(!z.ltnw(3));
    assert!(z.ltnw(4));
    assert!(z4(0, 0, 0, 0).ltnw(1));
    assert!(!z4(0, 0, 0, 0x8000_0000).ltnw(4));
}

#[test]
fn negative_means_top_bit_set() {
    assert!(z4(0, 0, 0, 0x8000_0000).is_negative());
    assert!(z4(0xffff_ffff, 0xffff_ffff, 0xffff_ffff, 0xffff_ffff).is_negative());
    assert!(!z4(0xffff_ffff, 0xffff_ffff, 0xffff_ffff, 0x7fff_ffff).is_negative());
    assert!(!z4(0, 0, 0, 0).is_negative());
}

#[test]
fn add_shifted_within_a_word() {
    let mut a = z4(1, 0, 0, 0);
    a.set_add_shifted(&z4(0x8000_0001, 0, 0, 0), 1);
    // 1 + 2 * 0x80000001 = 0x1_00000003
    assert_eq!(a.limbs, [3, 1, 0, 0]);
    let mut b = z4(0xffff_ffff, 0xffff_ffff, 0, 0);
    b.set_add_shifted(&z4(1, 0, 0, 0), 0);
    assert_eq!(b.limbs, [0, 0, 1, 0]);
}

#[test]
fn add_shifted_across_words() {
    let mut a = z4(7, 0, 0, 0);
    a.set_add_shifted(&z4(0x1234_5678, 0x9abc_def0, 0, 0), 40);
    // (0x9abcdef0_12345678 << 40) + 7
    assert_eq!(a.limbs, [7, 0x3456_7800, 0xbcde_f012, 0x9a]);
    let mut b = z4(0, 0, 0, 0);
    b.set_add_shifted(&z4(0xdead_beef, 0, 0, 0), 64);
    assert_eq!(b.limbs, [0, 0, 0xdead_beef, 0]);
}

#[test]
fn shifted_bits_past_the_width_are_dropped() {
    let mut a = z4(0, 0, 0, 0);
    a.set_add_shifted(&z4(0xffff_ffff, 0xffff_ffff, 0xffff_ffff, 0xffff_ffff), 100);
    assert_eq!(a.limbs, [0, 0, 0, 0xffff_fff0]);
    let mut b = z4(0, 0, 0, 0);
    b.set_sub_shifted(&z4(1, 0, 0, 0), 127);
    assert_eq!(b.limbs, [0, 0, 0, 0x8000_0000]);
}

#[test]
fn shift_of_the_whole_width_changes_nothing() {
    let mut a = z4(1, 2, 3, 4);
    a.set_add_shifted(&z4(0xffff_ffff, 0xffff_ffff, 0xffff_ffff, 0xffff_ffff), 128);
    assert_eq!(a.limbs, [1, 2, 3, 4]);
    a.set_sub_shifted(&z4(0xffff_ffff, 0xffff_ffff, 0xffff_ffff, 0xffff_ffff), 129);
    assert_eq!(a.limbs, [1, 2, 3, 4]);
    a.set_add_shifted(&z4(9, 9, 9, 9), 1000);
    assert_eq!(a.limbs, [1, 2, 3, 4]);
    a.set_sub_shifted(&z4(9, 9, 9, 9), 0xffff_ffff);
    assert_eq!(a.limbs, [1, 2, 3, 4]);
}

#[test]
fn sub_shifted_borrows_and_wraps() {
    let mut a = z4(0, 0, 0, 0);
    a.set_sub_shifted(&z4(1, 0, 0, 0), 0);
    assert_eq!(a.limbs, [0xffff_ffff, 0xffff_ffff, 0xffff_ffff, 0xffff_ffff]);
    let mut b = z4(0, 1, 0, 0);
    b.set_sub_shifted(&z4(1, 0, 0, 0), 4);
    // 2^32 - 16
    assert_eq!(b.limbs, [0xffff_fff0, 0, 0, 0]);
    let mut c = z4(0, 0, 0, 1);
    c.set_sub_shifted(&z4(3, 0, 0, 0), 33);
    // 2^96 - 6 * 2^32
    assert_eq!(c.limbs, [0, 0xffff_fffa, 0xffff_ffff, 0]);
}

#[test]
fn add_then_sub_shifted_restores_the_value() {
    let mut x: u64 = 0x5151_5151_a0a0_a0a0;
    let mut next = || {
        x = x.wrapping_mul(6364136223846793005).wrapping_add(1442695040888963407);
        (x >> 32) as u32
    };
    for _ in 0..500 {
        let start: ZInt256 = ZInt { limbs: [next(), next(), next(), next(), next(), next(), next(), next()] };
        let other: ZInt256 = ZInt { limbs: [next(), next(), next(), next(), next(), next(), next(), next()] };
        let s = next() % 300;
        let mut a = start;
        a.set_add_shifted(&other, s);
        a.set_sub_shifted(&other, s);
        assert_eq!(a.limbs, start.limbs);
        a.set_sub_shifted(&other, s);
        a.set_add_shifted(&other, s);
        assert_eq!(a.limbs, start.limbs);
    }
}

#[test]
fn add_and_sub_words_report_carry_and_borrow() {
    let mut a = z4(0xffff_ffff, 0xffff_ffff, 0xffff_ffff, 0xffff_ffff);
    assert_eq!(a.add_words(&z4(1, 0, 0, 0)), 1);
    assert_eq!(a.limbs, [0, 0, 0, 0]);
    assert_eq!(a.sub_words(&z4(1, 0, 0, 0)), 1);
    assert_eq!(a.limbs, [0xffff_ffff, 0xffff_ffff, 0xffff_ffff, 0xffff_ffff]);
    let mut b = z4(5, 0, 0, 0);
    assert_eq!(b.add_words(&z4(6, 0, 0, 0)), 0);
    assert_eq!(b.limbs, [11, 0, 0, 0]);
    assert_eq!(b.sub_words(&z4(11, 0, 0, 0)), 0);
    assert_eq!(b.limbs, [0, 0, 0, 0]);
}

#[test]
fn shifted_multiplies_by_a_power_of_two() {
    assert_eq!(z4(1, 0, 0, 0).shifted(0).limbs, [1, 0, 0, 0]);
    assert_eq!(z4(1, 0, 0, 0).shifted(33).limbs, [0, 2, 0, 0]);
    assert_eq!(z4(0x8000_0000, 0, 0, 0).shifted(1).limbs, [0, 1, 0, 0]);
    assert_eq!(z4(0xffff_ffff, 0xffff_ffff, 0xffff_ffff, 0xffff_ffff).shifted(127).limbs, [0, 0, 0, 0x8000_0000]);
    assert_eq!(z4(1, 2, 3, 4).shifted(128).limbs, [0, 0, 0, 0]);
}

#[test]
fn truncated_keeps_the_low_limbs() {
    let wide: ZInt256 = ZInt { limbs: [1, 2, 3, 4, 5, 6, 7, 8] };
    let narrow: ZInt128 = wide.truncated::<4>();
    assert_eq!(narrow.limbs, [1, 2, 3, 4]);
    assert_eq!(ZInt128::zero().limbs, [0, 0, 0, 0]);
}
