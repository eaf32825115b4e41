use elgamal::bignat::BigNat;

fn n(v: u64) -> BigNat {
    BigNat::from_u64(v)
}

#[test]
fn from_u64_round_trips_through_bytes() {
    let v = n(1125);
    assert_eq!(v.to_bytes_be(), vec![4u8, 101u8]);
    assert_eq!(v.to_u64(), Some(1125));
    assert_eq!(n(u64::MAX).to_bytes_be(), vec![0xffu8; 8]);
    assert_eq!(n(u64::MAX).to_u64(), Some(u64::MAX));
    assert_eq!(n(256).to_bytes_be(), vec![1u8, 0u8]);
}

#[test]
fn zero_is_a_single_zero_byte() {
    assert_eq!(BigNat::zero().to_bytes_be(), vec![0u8]);
    assert_eq!(BigNat::from_bytes_be(&[]).to_bytes_be(), vec![0u8]);
    assert_eq!(BigNat::from_bytes_be(&[0, 0, 0]).to_u64(), Some(0));
    assert_eq!(n(0), BigNat::zero());
    assert!(BigNat::zero().is_zero());
    assert!(!BigNat::one().is_zero());
}

#[test]
fn one_is_one() {
    assert_eq!(BigNat::one().to_u64(), Some(1));
    assert_eq!(BigNat::one(), n(1));
}

#[test]
fn from_bytes_strips_leading_zeros() {
    let v = BigNat::from_bytes_be(&[0, 0, 1, 2]);
    assert_eq!(v.to_bytes_be(), vec![1u8, 2u8]);
    assert_eq!(v.to_u64(), Some(258));
    assert_eq!(BigNat::from_bytes_be(b"A").to_u64(), Some(65));
    assert_eq!(BigNat::from_bytes_be(b"AB").to_u64(), Some(16706));
}

#[test]
fn to_u64_is_none_above_the_range() {
    let big = BigNat::from_bytes_be(&[1, 0, 0, 0, 0, 0, 0, 0, 0]);
    assert_eq!(big.to_u64(), None);
    let max = BigNat::from_bytes_be(&[0xff; 8]);
    assert_eq!(max.to_u64(), Some(u64::MAX));
    assert_eq!(max.plus(&BigNat::one()), big);
}

#[test]
fn ordering_follows_the_values() {
    assert!(n(3).less_than(&n(4)));
    assert!(!n(4).less_than(&n(4)));
    assert!(!n(5).less_than(&n(4)));
    assert!(n(255).less_than(&n(256)));
    assert!(!n(256).less_than(&n(255)));
    assert!(n(0x0100).less_than(&n(0x0101)));
    assert!(n(0x01ff).less_than(&n(0x0200)));
    assert!(!n(0x0200).less_than(&n(0x01ff)));
    assert!(n(0).less_than(&n(1)));
    let big = BigNat::from_bytes_be(&[1, 0, 0, 0, 0, 0, 0, 0, 0]);
    assert!(n(u64::MAX).less_than(&big));
    assert!(!big.less_than(&n(u64::MAX)));
}

#[test]
fn equality_follows_the_values() {
    assert!(n(77).equals(&n(77)));
    assert!(!n(77).equals(&n(78)));
    assert!(BigNat::from_bytes_be(&[0, 77]).equals(&n(77)));
    assert!(!n(0x0100).equals(&n(0x0001)));
}

#[test]
fn clone_keeps_the_value() {
    let v = BigNat::from_bytes_be(&[9, 8, 7, 6, 5, 4, 3, 2, 1, 0]);
    assert_eq!(v.clone(), v);
}

#[test]
fn sum_is_exact() {
    assert_eq!(n(2).plus(&n(3)).to_u64(), Some(5));
    assert_eq!(n(255).plus(&n(1)).to_bytes_be(), vec![1u8, 0u8]);
    assert_eq!(n(0).plus(&n(0)).to_bytes_be(), vec![0u8]);
    let wide = n(u64::MAX).plus(&n(u64::MAX));
    assert_eq!(wide.to_bytes_be(), vec![1u8, 0xff, 0xff, 0xff, 0xff, 0xff, 0xff, 0xff, 0xfe]);
}

#[test]
fn difference_is_exact() {
    assert_eq!(n(10).minus(&n(3)).to_u64(), Some(7));
    assert_eq!(n(256).minus(&n(1)).to_bytes_be(), vec![255u8]);
    assert_eq!(n(9).minus(&n(9)).to_bytes_be(), vec![0u8]);
}

#[test]
fn product_is_exact() {
    assert_eq!(n(6).times(&n(7)).to_u64(), Some(42));
    assert_eq!(n(0).times(&n(7)).to_bytes_be(), vec![0u8]);
    let square = n(u64::MAX).times(&n(u64::MAX));
    assert_eq!(
        square.to_bytes_be(),
        vec![0xffu8, 0xff, 0xff, 0xff, 0xff, 0xff, 0xff, 0xfe, 0, 0, 0, 0, 0, 0, 0, 1]
    );
}

#[test]
fn quotient_rounds_down() {
    assert_eq!(n(17).div_floor(&n(5)).to_u64(), Some(3));
    assert_eq!(n(15).div_floor(&n(5)).to_u64(), Some(3));
    assert_eq!(n(4).div_floor(&n(5)).to_u64(), Some(0));
    assert_eq!(n(466).div_floor(&n(233)).to_u64(), Some(2));
}

#[test]
fn remainder_is_exact() {
    assert_eq!(n(17).modulo(&n(5)).to_u64(), Some(2));
    assert_eq!(n(15).modulo(&n(5)).to_u64(), Some(0));
    assert_eq!(n(4).modulo(&n(5)).to_u64(), Some(4));
    assert_eq!(n(2_097_152).modulo(&n(467)).to_u64(), Some(322));
}

#[test]
fn modpow_matches_small_arithmetic() {
    assert_eq!(n(2).modpow(&n(7), &n(467)).to_u64(), Some(128));
    assert_eq!(n(8).modpow(&n(7), &n(467)).to_u64(), Some(322));
    assert_eq!(n(2).modpow(&n(466), &n(467)).to_u64(), Some(1));
    assert_eq!(n(5).modpow(&n(0), &n(7)).to_u64(), Some(1));
    assert_eq!(n(5).modpow(&n(0), &n(1)).to_u64(), Some(0));
    assert_eq!(n(0).modpow(&n(5), &n(7)).to_u64(), Some(0));
    assert_eq!(n(3).modpow(&n(4), &n(10)).to_u64(), Some(1));
    assert_eq!(n(7).modpow(&n(3), &n(10)).to_u64(), Some(3));
}
