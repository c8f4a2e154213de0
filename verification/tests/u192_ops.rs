use facet::U192;

fn limbs(lo: u64, mid: u64, hi: u64) -> U192 {
    U192 { lo, mid, hi }
}

#[test]
fn small_values() {
    assert_eq!(U192::zero(), limbs(0, 0, 0));
    assert_eq!(U192::one(), limbs(1, 0, 0));
    assert_eq!(U192::from_u64(42), limbs(42, 0, 0));
    assert_eq!(U192::max_value(), limbs(u64::MAX, u64::MAX, u64::MAX));
}

#[test]
fn add_carries_across_limbs() {
    let a = limbs(u64::MAX, 0, 0);
    assert_eq!(a.add(U192::one()), limbs(0, 1, 0));
    let b = limbs(u64::MAX, u64::MAX, 0);
    assert_eq!(b.add(U192::one()), limbs(0, 0, 1));
    let c = limbs(5, 7, 9);
    assert_eq!(c.add(limbs(10, 20, 30)), limbs(15, 27, 39));
}

#[test]
fn mul_carries_across_limbs() {
    let a = limbs(1 << 63, 0, 0);
    assert_eq!(a.mul_u64(4), limbs(0, 2, 0));
    let b = limbs(0, 1 << 63, 0);
    assert_eq!(b.mul_u64(4), limbs(0, 0, 2));
    let c = limbs(3, 0, 0);
    assert_eq!(c.mul_u64(7), limbs(21, 0, 0));
}

#[test]
fn mul_matches_128_bit_arithmetic() {
    // a two-limb operand against wide multiplication done with u128
    let a: u128 = 0x1234_5678_9abc_def0_0fed_cba9_8765_4321;
    let m: u64 = 0xdead_beef;
    let lo = (a & 0xffff_ffff_ffff_ffff) as u64;
    let mid = (a >> 64) as u64;
    let v = limbs(lo, mid, 0).mul_u64(m);
    // compute the reference product in parts
    let p_lo = lo as u128 * m as u128;
    let p_mid = mid as u128 * m as u128 + (p_lo >> 64);
    assert_eq!(v.lo, p_lo as u64);
    assert_eq!(v.mid, p_mid as u64);
    assert_eq!(v.hi, (p_mid >> 64) as u64);
}

#[test]
fn lt_orders_by_value() {
    let small = limbs(u64::MAX, u64::MAX, 0);
    let big = limbs(0, 0, 1);
    assert!(small.lt(&big));
    assert!(!big.lt(&small));
    assert!(!big.lt(&big));
    assert!(U192::zero().lt(&U192::one()));
    assert!(limbs(0, 1, 0).lt(&limbs(0, 2, 0)));
    assert!(limbs(7, 1, 0).lt(&limbs(3, 2, 0)));
}

#[test]
fn max_picks_larger_value() {
    let a = limbs(9, 0, 0);
    let b = limbs(0, 1, 0);
    assert_eq!(a.max(b), b);
    assert_eq!(b.max(a), b);
    assert_eq!(a.max(a), a);
}
