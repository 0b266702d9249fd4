use voronoi::wide::{magnitude, mul_wide, product_le, product_lt, signed_product, square, Wide};

#[test]
fn wide_product_of_small_numbers() {
    let w = mul_wide(6, 7);
    assert_eq!((w.hi, w.lo), (0, 42));
    let w = mul_wide(0, u128::MAX);
    assert_eq!((w.hi, w.lo), (0, 0));
    assert!(w.is_zero());
    let w = mul_wide(1, u128::MAX);
    assert_eq!((w.hi, w.lo), (0, u128::MAX));
}

#[test]
fn wide_product_carries_into_the_high_half() {
    // 2^64 * 2^64 = 2^128
    let w = mul_wide(1 << 64, 1 << 64);
    assert_eq!((w.hi, w.lo), (1, 0));
    // (2^128 - 1)^2 = (2^128 - 2) * 2^128 + 1
    let w = mul_wide(u128::MAX, u128::MAX);
    assert_eq!((w.hi, w.lo), (u128::MAX - 1, 1));
    // (2^64 + 1) * (2^64 - 1) = 2^128 - 1
    let w = mul_wide((1 << 64) + 1, (1 << 64) - 1);
    assert_eq!((w.hi, w.lo), (0, u128::MAX));
    // (2^127 + 3) * 6 = 3 * 2^128 + 18
    let w = mul_wide((1 << 127) + 3, 6);
    assert_eq!((w.hi, w.lo), (3, 18));
    // 0xFFFF_FFFF_FFFF_FFFF^2 * 2^64 crosses both halves
    let w = mul_wide(0xFFFF_FFFF_FFFF_FFFF * 0xFFFF_FFFF_FFFF_FFFF, 1 << 64);
    assert_eq!((w.hi, w.lo), (0xFFFF_FFFF_FFFF_FFFE, 1 << 64));
}

#[test]
fn wide_numbers_are_ordered_by_their_value() {
    let small = mul_wide(u128::MAX, 1);
    let large = mul_wide(u128::MAX, 2);
    assert!(small.lt(&large));
    assert!(!large.lt(&small));
    assert!(!small.lt(&small));
    assert!(mul_wide(3, 5).lt(&mul_wide(4, 4)));
}

#[test]
fn magnitude_is_the_absolute_value() {
    assert_eq!(magnitude(0), 0);
    assert_eq!(magnitude(17), 17);
    assert_eq!(magnitude(-17), 17);
    assert_eq!(magnitude(i128::MAX), i128::MAX as u128);
    assert_eq!(magnitude(i128::MIN), 1 << 127);
}

#[test]
fn signed_product_has_the_sign_of_its_factors() {
    let p = signed_product(-3, 4);
    assert!(p.negative);
    assert_eq!((p.magnitude.hi, p.magnitude.lo), (0, 12));
    let p = signed_product(-3, -4);
    assert!(!p.negative);
    let p = signed_product(-3, 0);
    assert!(!p.negative);
    assert!(p.magnitude.is_zero());
    let p = signed_product(i128::MIN, i128::MIN);
    assert!(!p.negative);
    assert_eq!((p.magnitude.hi, p.magnitude.lo), (1 << 126, 0));
    let p = signed_product(i128::MIN, i128::MAX);
    assert!(p.negative);
    assert_eq!((p.magnitude.hi, p.magnitude.lo), ((1 << 126) - 1, 1 << 127));
}

#[test]
fn products_compare_without_overflow() {
    assert!(product_lt(2, 3, 7, 1));
    assert!(!product_lt(2, 3, 6, 1));
    assert!(product_le(2, 3, 6, 1));
    assert!(!product_le(2, 3, 5, 1));
    assert!(product_lt(-2, 3, 0, 5));
    assert!(product_lt(-2, 3, -1, 5));
    assert!(!product_lt(-2, 3, -3, 2));
    assert!(product_le(-2, 3, -3, 2));
    assert!(product_lt(i128::MIN, i128::MAX, i128::MAX, i128::MAX));
    assert!(product_lt(i128::MAX, i128::MAX, i128::MIN, i128::MIN));
    assert!(!product_lt(i128::MIN, i128::MIN, i128::MAX, i128::MAX));
    assert!(product_lt(i128::MAX, i128::MAX - 1, i128::MAX, i128::MAX));
    assert!(product_lt(i128::MIN, i128::MAX, i128::MIN, i128::MAX - 1));
    assert!(product_le(i128::MIN, 1, 1, i128::MIN));
    assert!(!product_lt(i128::MIN, 1, 1, i128::MIN));
}

#[test]
fn wide_sum_carries_into_the_high_half() {
    let a = Wide { hi: 3, lo: u128::MAX };
    let b = Wide { hi: 4, lo: 2 };
    assert_eq!(a.add(&b), Wide { hi: 8, lo: 1 });
    assert_eq!(b.add(&a), Wide { hi: 8, lo: 1 });
    assert_eq!(Wide { hi: 1, lo: 5 }.add(&Wide { hi: 2, lo: 6 }), Wide { hi: 3, lo: 11 });
    assert_eq!(Wide { hi: 0, lo: u128::MAX }.add(&Wide { hi: 0, lo: 1 }), Wide { hi: 1, lo: 0 });
    assert_eq!(Wide { hi: 7, lo: 9 }.add(&Wide { hi: 0, lo: 0 }), Wide { hi: 7, lo: 9 });
}

#[test]
fn square_of_a_signed_number() {
    assert_eq!(square(-12), Wide { hi: 0, lo: 144 });
    assert_eq!(square(12), Wide { hi: 0, lo: 144 });
    assert_eq!(square(0), Wide { hi: 0, lo: 0 });
    assert_eq!(square(i128::MIN), Wide { hi: 1 << 126, lo: 0 });
    assert_eq!(square(-(1 << 100)), Wide { hi: 1 << 72, lo: 0 });
}
