use elgamal::bignat::BigNat;
use elgamal::entropy::random_in_range;

#[test]
fn random_draw_stays_in_range() {
    let low = BigNat::from_u64(10);
    let high = BigNat::from_u64(13);
    let mut seen = [false; 3];
    for _ in 0..200 {
        let v = random_in_range(&low, &high).to_u64().unwrap();
        assert!((10..13).contains(&v));
        seen[(v - 10) as usize] = true;
    }
    assert_eq!(seen, [true, true, true]);
    let only = random_in_range(&BigNat::from_u64(7), &BigNat::from_u64(8));
    assert_eq!(only.to_u64(), Some(7));
}

#[test]
fn wide_random_draw_stays_in_range() {
    let low = BigNat::from_bytes_be(&[1, 0, 0, 0, 0, 0, 0, 0, 0, 0, 0, 0]);
    let high = low.plus(&low);
    for _ in 0..50 {
        let v = random_in_range(&low, &high);
        assert!(!v.less_than(&low));
        assert!(v.less_than(&high));
    }
}
