use ap::integral::ApInt;

fn v(w: usize, x: u128) -> ApInt {
    ApInt::new(w, x)
}

#[test]
fn add_is_commutative_and_associative() {
    let a = v(8, 200);
    let b = v(8, 100);
    let c = v(8, 7);
    assert_eq!(a.add(&b), b.add(&a));
    assert_eq!(a.add(&b).add(&c), a.add(&b.add(&c)));
    assert_eq!(a.add(&b).to_u8_lossy(), 44);
}

#[test]
fn add_zero_and_negation() {
    let a = v(13, 0x1abc);
    assert_eq!(a.add(&ApInt::zero(13)), a);
    assert!(a.add(&a.neg()).is_zero());
    assert_eq!(a.neg().neg(), a);
    assert_eq!(a.neg(), a.not().add(&ApInt::one(13)));
}

#[test]
fn sub_is_add_of_negation() {
    let a = v(70, 5);
    let b = v(70, 9);
    assert_eq!(a.sub(&b), a.add(&b.neg()));
    assert!(a.sub(&a).is_zero());
    assert_eq!(a.sub(&b).add(&b), a);
    assert_eq!(a.sub(&b).get_limbs()[0], u64::MAX - 3);
    assert_eq!(a.sub(&b).get_limbs()[1], 0x3f);
}

#[test]
fn not_is_involutive() {
    let a = v(65, 0x1_0000_0000_0000_0001);
    assert_eq!(a.not().not(), a);
    assert_eq!(a.not().get_limbs()[0], u64::MAX - 1);
    assert_eq!(a.not().get_limbs()[1], 0);
}

#[test]
fn mul_is_a_commutative_ring() {
    let a = v(100, 0xdead_beef_1234_5678_9abc);
    let b = v(100, 0x1_0000_0001);
    let c = v(100, 77);
    assert_eq!(a.mul(&b), b.mul(&a));
    assert_eq!(a.mul(&b).mul(&c), a.mul(&b.mul(&c)));
    assert_eq!(a.mul(&b.add(&c)), a.mul(&b).add(&a.mul(&c)));
    assert_eq!(a.mul(&ApInt::one(100)), a);
}

#[test]
fn udivrem_identity() {
    let a = v(128, 0x1234_5678_9abc_def0_1111_2222_3333_4444);
    let b = v(128, 0xfedc_ba98_7654_3210);
    let (q, r) = a.udivrem(&b);
    assert_eq!(q.mul(&b).add(&r), a);
    assert!(r.ult(&b));
}

#[test]
fn sdivrem_rounds_toward_zero() {
    let a = v(8, 0xf9); // -7
    let b = v(8, 2);
    let (q, r) = a.sdivrem(&b);
    assert_eq!(q.to_u8_lossy(), 0xfd); // -3
    assert_eq!(r.to_u8_lossy(), 0xff); // -1
    assert_eq!(q.mul(&b).add(&r), a);
    let c = v(8, 0xfe); // -2
    let (q2, r2) = a.sdivrem(&c);
    assert_eq!(q2.to_u8_lossy(), 3);
    assert_eq!(r2.to_u8_lossy(), 0xff);
}

#[test]
fn sdivrem_overflow_wraps() {
    let min = v(8, 0x80);
    let minus_one = v(8, 0xff);
    let (q, r) = min.sdivrem(&minus_one);
    assert_eq!(q, min);
    assert!(r.is_zero());
    assert_eq!(q.mul(&minus_one).add(&r), min);
}

#[test]
fn shl_is_mul_and_lshr_is_udiv() {
    let a = v(40, 0x12_3456_789a);
    assert_eq!(a.shl(5), a.mul(&v(40, 1 << 5)));
    assert_eq!(a.lshr(7), a.udiv(&v(40, 1 << 7)));
    assert_eq!(a.shl(40).to_u64_lossy(), 0);
    assert_eq!(a.lshr(40).to_u64_lossy(), 0);
}

#[test]
fn ashr_keeps_sign() {
    let neg = v(12, 0x800);
    assert!(neg.ashr(3).is_negative());
    assert_eq!(neg.ashr(3).get_limbs()[0], 0xf00);
    assert_eq!(neg.ashr(100).get_limbs()[0], 0xfff);
    let pos = v(12, 0x7ff);
    assert_eq!(pos.ashr(3), pos.lshr(3));
}

#[test]
fn zext_and_sext_round_trip() {
    let a = v(8, 0x80);
    assert_eq!(a.zext(100).trunc(8), a);
    assert_eq!(a.sext(100).trunc(8), a);
    assert!(a.sext(100).is_negative());
    assert_eq!(a.sext(100).get_limbs()[0], 0xffff_ffff_ffff_ff80);
    assert_eq!(a.sext(100).get_limbs()[1], 0xf_ffff_ffff);
    let b = v(8, 0x7f);
    assert_eq!(b.sext(100), b.zext(100));
}

#[test]
fn signed_and_unsigned_orders() {
    let neg = v(16, 0x8000);
    let pos = v(16, 0x7fff);
    assert!(neg.slt(&pos));
    assert!(neg.ugt(&pos));
    let small = v(16, 3);
    assert_eq!(small.slt(&pos), small.ult(&pos));
}

#[test]
fn bitwise_laws() {
    let a = v(70, 0x3f_0f0f_0f0f_0f0f_0f0f);
    let b = v(70, 0x15_ff00_ff00_ff00_ff00);
    assert_eq!(a.bitand(&b), b.bitand(&a));
    assert_eq!(a.bitor(&b), b.bitor(&a));
    assert_eq!(a.bitxor(&b), b.bitxor(&a));
    assert_eq!(a.bitand(&a), a);
    assert_eq!(a.bitor(&a), a);
    assert!(a.bitxor(&a).is_zero());
    assert_eq!(a.bitand(&b).not(), a.not().bitor(&b.not()));
    assert_eq!(a.bitor(&b).not(), a.not().bitand(&b.not()));
}

#[test]
fn top_limb_bits_stay_clear() {
    let a = v(70, u128::MAX);
    assert_eq!(a.get_limbs()[1], 0x3f);
    assert_eq!(a.not().get_limbs()[1], 0);
    assert_eq!(a.add(&a).get_limbs()[1], 0x3f);
    assert_eq!(a.shl(1).get_limbs()[1], 0x3f);
}

#[test]
fn u128_round_trip() {
    let x = 0x0123_4567_89ab_cdef_fedc_ba98_7654_3210u128;
    assert_eq!(v(128, x).to_u128_lossy(), x);
    assert_eq!(v(300, x).to_u128_lossy(), x);
}

#[test]
fn display_and_debug_text() {
    let a = v(72, 0xab_0000_0000_0000_0001);
    assert_eq!(a.display_string(), "0xab0000000000000001");
    assert_eq!(a.debug_string(), "ApInt(72 bits: ab_0000000000000001)");
    assert_eq!(ApInt::zero(8).display_string(), "0x0");
}

#[test]
fn display_then_from_str_radix() {
    for x in [0u128, 1, 0xb000_0000_0000_0000, 0xdead_beef_0000_0000_1234, u128::MAX] {
        let a = v(128, x);
        assert_eq!(ApInt::from_str_radix(128, &a.display_string(), 10).unwrap(), a);
    }
}

#[test]
fn shl_then_lshr_drops_top_bits() {
    let a = v(8, 0x55);
    assert_eq!(a.shl(2).lshr(2).to_u8_lossy(), 0x15);
    let b = v(16, 0x1555);
    assert_eq!(b.shl(2).lshr(2), b);
    let c = v(100, u128::MAX);
    assert_eq!(c.shl(36).lshr(36).to_u128_lossy(), (1u128 << 64) - 1);
}

#[test]
fn trunc_twice_is_trunc_once() {
    let a = v(128, 0x1234_5678_9abc_def0_1122_3344_5566_7788);
    assert_eq!(a.trunc(64).trunc(8), a.trunc(8));
    assert_eq!(a.trunc(8).to_u8_lossy(), 0x88);
}

#[test]
fn lossy_conversions_agree() {
    let a = v(128, 0x0123_4567_89ab_cdef_fedc_ba98_7654_3210);
    assert_eq!(a.to_u64_lossy(), a.to_u128_lossy() as u64);
    assert_eq!(a.to_u32_lossy(), a.to_u64_lossy() as u32);
    assert_eq!(a.to_u16_lossy(), a.to_u32_lossy() as u16);
    assert_eq!(a.to_u8_lossy(), a.to_u16_lossy() as u8);
}

#[test]
fn negating_zero_gives_zero() {
    assert!(ApInt::zero(77).neg().is_zero());
}

#[test]
fn from_limbs_of_get_limbs_is_identity() {
    let a = ApInt::new(130, 0xffff_0000_ffff_0000_1234_5678_9abc_def0);
    let b = ApInt::from_limbs(130, a.get_limbs().clone());
    assert_eq!(a, b);
}

#[test]
fn display_then_parse() {
    for x in [0u128, 1, 0xb000_0000_0000_0000, 0x0b1, u128::MAX] {
        let a = v(128, x);
        assert_eq!(ApInt::parse(128, &a.display_string()).unwrap(), a);
    }
}
