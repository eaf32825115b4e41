use elgamal::bignat::BigNat;
use elgamal::error::ElGamalError;
use elgamal::generator::{
    find_primitive_root, find_primitive_root_with, is_primitive_root, prime_factors,
};

fn n(v: u64) -> BigNat {
    BigNat::from_u64(v)
}

fn small(values: &[BigNat]) -> Vec<u64> {
    values.iter().map(|v| v.to_u64().unwrap()).collect()
}

#[test]
fn prime_factors_are_distinct_and_increasing() {
    assert_eq!(small(&prime_factors(&n(466))), vec![2, 233]);
    assert_eq!(small(&prime_factors(&n(360))), vec![2, 3, 5]);
    assert_eq!(small(&prime_factors(&n(1))), Vec::<u64>::new());
    assert_eq!(small(&prime_factors(&n(2))), vec![2]);
    assert_eq!(small(&prime_factors(&n(97))), vec![97]);
    assert_eq!(small(&prime_factors(&n(1024))), vec![2]);
    assert_eq!(small(&prime_factors(&n(49))), vec![7]);
    assert_eq!(small(&prime_factors(&n(65536 * 3 * 65537))), vec![2, 3, 65537]);
    assert_eq!(small(&prime_factors(&n(10_007 * 10_009))), vec![10_007, 10_009]);
}

#[test]
fn least_generator_of_small_primes() {
    assert_eq!(find_primitive_root(&n(5)), Ok(n(2)));
    assert_eq!(find_primitive_root(&n(7)), Ok(n(3)));
    assert_eq!(find_primitive_root(&n(11)), Ok(n(2)));
    assert_eq!(find_primitive_root(&n(23)), Ok(n(5)));
    assert_eq!(find_primitive_root(&n(41)), Ok(n(6)));
    assert_eq!(find_primitive_root(&n(467)), Ok(n(2)));
    assert_eq!(find_primitive_root(&n(65537)), Ok(n(3)));
}

#[test]
fn no_generator_for_tiny_moduli() {
    assert_eq!(find_primitive_root(&n(0)), Err(ElGamalError::NoGeneratorFound));
    assert_eq!(find_primitive_root(&n(1)), Err(ElGamalError::NoGeneratorFound));
    assert_eq!(find_primitive_root(&n(2)), Err(ElGamalError::NoGeneratorFound));
    assert_eq!(find_primitive_root(&n(3)), Err(ElGamalError::NoGeneratorFound));
}

#[test]
fn no_generator_for_composite_moduli() {
    assert_eq!(find_primitive_root(&n(4)), Err(ElGamalError::NoGeneratorFound));
    assert_eq!(find_primitive_root(&n(9)), Err(ElGamalError::NoGeneratorFound));
    assert_eq!(find_primitive_root(&n(15)), Err(ElGamalError::NoGeneratorFound));
    assert_eq!(find_primitive_root(&n(561)), Err(ElGamalError::NoGeneratorFound));
}

#[test]
fn generator_test_agrees_with_the_order() {
    let p = n(23);
    let factors = prime_factors(&n(22));
    let generators: Vec<u64> =
        (0..30).filter(|g| is_primitive_root(&n(*g), &p, &factors)).collect();
    assert_eq!(generators, vec![5, 7, 10, 11, 14, 15, 17, 19, 20, 21, 28]);
}

#[test]
fn generator_of_a_safe_prime_from_known_factors() {
    // 2879 = 2 * 1439 + 1, both prime
    let p = n(2879);
    let factors = vec![n(2), n(1439)];
    assert_eq!(find_primitive_root_with(&p, &factors), Ok(n(7)));
    assert_eq!(find_primitive_root(&p), Ok(n(7)));
}

#[test]
fn found_generator_has_full_order() {
    let p = n(467);
    let g = find_primitive_root(&p).unwrap();
    let one = BigNat::one();
    assert_eq!(g.modpow(&n(466), &p), one);
    assert_ne!(g, one);
    assert_ne!(g.modpow(&n(233), &p), one);
    assert_ne!(g.modpow(&n(2), &p), one);
}

#[test]
fn a_generator_is_found_exactly_for_primes_from_five() {
    for p in 0u64..400 {
        let found = find_primitive_root(&n(p)).is_ok();
        assert_eq!(found, primal::is_prime(p) && p >= 5, "modulus {}", p);
    }
}

fn pow2(k: u32) -> BigNat {
    let mut r = BigNat::one();
    for _ in 0..k {
        r = r.plus(&r);
    }
    r
}

#[test]
fn generator_of_a_wide_prime() {
    // 2^89 - 1 is prime, and 2^89 - 2 has the prime factors
    // 2, 3, 5, 17, 23, 89, 353, 397, 683, 2113 and 2931542417
    let p = pow2(89).minus(&BigNat::one());
    let factors = prime_factors(&p.minus(&BigNat::one()));
    assert_eq!(
        small(&factors),
        vec![2, 3, 5, 17, 23, 89, 353, 397, 683, 2113, 2_931_542_417]
    );
    assert_eq!(find_primitive_root(&p), Ok(n(3)));
}

#[test]
fn wide_composite_is_turned_away() {
    let m89 = pow2(89).minus(&BigNat::one());
    let m127 = pow2(127).minus(&BigNat::one());
    assert_eq!(find_primitive_root(&m89.times(&m127)), Err(ElGamalError::NoGeneratorFound));
    assert_eq!(find_primitive_root(&pow2(200)), Err(ElGamalError::NoGeneratorFound));
}
