use sumcheck::bigint_field::StdFr2;

/// p - 1, the largest canonical element.
fn minus_one() -> StdFr2 {
    StdFr2([0xffff_ffff_0000_0000, 0x53bd_a402_fffe_5bfe, 0x3339_d808_09a1_d805, 0x73ed_a753_299d_7d48])
}

/// The modulus p itself, not a canonical element.
fn modulus_limbs() -> [u64; 4] {
    [0xffff_ffff_0000_0001, 0x53bd_a402_fffe_5bfe, 0x3339_d808_09a1_d805, 0x73ed_a753_299d_7d48]
}

#[test]
fn add_of_small_values() {
    let a = StdFr2::from_u64(2);
    let b = StdFr2::from_u64(3);
    assert!(a.add(&b) == StdFr2::from_u64(5));
}

#[test]
fn sub_wraps_below_zero() {
    let a = StdFr2::from_u64(2);
    let b = StdFr2::from_u64(3);
    let minus_one = a.sub(&b);
    assert!(minus_one.add(&StdFr2::one()) == StdFr2::zero());
}

#[test]
fn zero_one_and_from_u64() {
    assert!(StdFr2::zero().is_zero());
    assert!(!StdFr2::one().is_zero());
    assert!(StdFr2::one() == StdFr2::from_u64(1));
    assert_eq!(StdFr2::from_u64(u64::MAX).0, [u64::MAX, 0, 0, 0]);
}

#[test]
fn sub_of_zero_is_minus_one() {
    assert!(StdFr2::zero().sub(&StdFr2::one()) == minus_one());
    assert!(minus_one().add(&StdFr2::from_u64(2)) == StdFr2::one());
}

#[test]
fn barrett_products_agree() {
    let a = minus_one();
    // (-1) * (-1) = 1
    assert!(a.mul_bb(&a) == StdFr2::one());
    assert!(a.mul_bb_truncated(&a) == StdFr2::one());
    assert!(a.mul_bb_mu4shift(&a) == StdFr2::one());
    let x = StdFr2([0x1234_5678_9abc_def0, 0x0fed_cba9_8765_4321, 0x1111_2222_3333_4444, 0x0555_6666_7777_8888]);
    let y = StdFr2([0xdead_beef_0000_0001, 0x0123_4567_89ab_cdef, 0x7777_0000_aaaa_bbbb, 0x0000_1111_2222_3333]);
    let p1 = x.mul_bb(&y);
    assert!(p1 == x.mul_bb_truncated(&y));
    assert!(p1 == x.mul_bb_mu4shift(&y));
    assert!(p1 == y.mul_bb(&x));
}

#[test]
fn small_products() {
    let x = StdFr2::from_u64(1 << 40);
    assert!(x.mul_bb(&StdFr2::from_u64(1 << 40)) == StdFr2([0, 1 << 16, 0, 0]));
    assert!(x.mul_sb(1 << 40) == StdFr2([0, 1 << 16, 0, 0]));
    // (-1) * 3 = -3
    assert!(minus_one().mul_sb(3) == StdFr2::zero().sub(&StdFr2::from_u64(3)));
}

#[test]
fn inverse_of_two_and_zero() {
    let two = StdFr2::from_u64(2);
    let inv = two.inverse();
    assert!(inv.mul_bb(&two) == StdFr2::one());
    assert!(StdFr2::zero().inverse() == StdFr2::zero());
    assert!(minus_one().inverse() == minus_one());
}

#[test]
fn rejection_step_accepts_below_modulus_only() {
    assert!(StdFr2::try_from_limbs(modulus_limbs()).is_none());
    let below = minus_one().0;
    assert!(StdFr2::try_from_limbs(below) == Some(minus_one()));
    assert!(StdFr2::try_from_limbs([u64::MAX; 4]).is_none());
}

#[test]
fn barrett_variants_agree_on_random_elements() {
    let xs = sumcheck::sc_verifier::random_challenges(500);
    let ys = sumcheck::sc_verifier::random_challenges(500);
    for (x, y) in xs.iter().zip(ys.iter()) {
        let p = x.mul_bb(y);
        assert!(p == x.mul_bb_truncated(y));
        assert!(p == x.mul_bb_mu4shift(y));
    }
}

#[test]
fn inverse_inverts_nonzero_elements() {
    for x in sumcheck::sc_verifier::random_challenges(20) {
        if !x.is_zero() {
            assert!(x.mul_bb(&x.inverse()) == StdFr2::one());
        }
    }
    let two = StdFr2::from_u64(2);
    assert!(two.mul_bb(&two.inverse()) == StdFr2::one());
}
