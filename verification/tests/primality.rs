use elgamal::bignat::BigNat;
use elgamal::error::ElGamalError;
use elgamal::miller_rabin::{miller_rabin, miller_rabin_round};
use elgamal::prime_generator::{generate_prime, is_probable_prime};

fn n(v: u64) -> BigNat {
    BigNat::from_u64(v)
}

fn pow2(k: u32) -> BigNat {
    let mut r = BigNat::one();
    for _ in 0..k {
        r = r.plus(&r);
    }
    r
}

fn bits(v: &BigNat) -> usize {
    let bytes = v.to_bytes_be();
    if bytes == vec![0u8] {
        return 0;
    }
    8 * (bytes.len() - 1) + (8 - bytes[0].leading_zeros() as usize)
}

fn first_primes() -> Vec<BigNat> {
    [2u64, 3, 5, 7, 11, 13, 17, 19, 23, 29, 31, 37].iter().map(|b| n(*b)).collect()
}

/// The least composite that is a strong probable prime to each of the
/// first twelve primes.
fn twelve_base_pseudoprime() -> BigNat {
    // 318665857834031151167461 = 0x437ae92817f9fc85b7e5
    BigNat::from_bytes_be(&[0x43, 0x7a, 0xe9, 0x28, 0x17, 0xf9, 0xfc, 0x85, 0xb7, 0xe5])
}

#[test]
fn round_accepts_primes_to_any_base() {
    for p in [2u64, 3, 5, 7, 11, 13, 467, 65537, 1_000_003] {
        for a in 0u64..40 {
            assert!(miller_rabin_round(&n(p), &n(a)), "prime {} base {}", p, a);
        }
    }
}

#[test]
fn round_rejects_composites_to_a_witness() {
    assert!(!miller_rabin_round(&n(4), &n(2)));
    assert!(!miller_rabin_round(&n(9), &n(3)));
    assert!(!miller_rabin_round(&n(561), &n(2)));
    assert!(!miller_rabin_round(&n(2047), &n(3)));
    assert!(!miller_rabin_round(&n(3_215_031_751), &n(11)));
}

#[test]
fn round_is_fooled_by_strong_liars() {
    assert!(miller_rabin_round(&n(2047), &n(2)));
    assert!(miller_rabin_round(&n(9), &n(8)));
    assert!(miller_rabin_round(&n(25), &n(7)));
    assert!(miller_rabin_round(&n(3_215_031_751), &n(2)));
    assert!(miller_rabin_round(&n(3_215_031_751), &n(7)));
}

#[test]
fn round_passes_a_base_that_the_number_divides() {
    assert!(miller_rabin_round(&n(15), &n(0)));
    assert!(miller_rabin_round(&n(15), &n(30)));
    assert!(!miller_rabin_round(&n(15), &n(32)));
}

#[test]
fn all_rounds_must_pass() {
    assert!(miller_rabin(&n(2047), &vec![n(2)]));
    assert!(!miller_rabin(&n(2047), &vec![n(2), n(3)]));
    assert!(miller_rabin(&n(2047), &vec![]));
    assert!(miller_rabin(&n(467), &first_primes()));
}

#[test]
fn primality_is_exact_within_64_bits() {
    let primes = [2u64, 3, 5, 7, 65537, 4_294_967_291, 18_446_744_073_709_551_557];
    for p in primes {
        assert!(is_probable_prime(&n(p), &vec![]), "{}", p);
    }
    let composites =
        [0u64, 1, 4, 9, 561, 2047, 3_215_031_751, 4_294_967_297, 18_446_744_073_709_551_615];
    for c in composites {
        assert!(!is_probable_prime(&n(c), &vec![]), "{}", c);
    }
    for v in 0u64..2000 {
        assert_eq!(is_probable_prime(&n(v), &vec![]), primal::is_prime(v), "{}", v);
    }
}

#[test]
fn wide_primes_are_accepted() {
    // 2^89 - 1 and 2^127 - 1 are Mersenne primes
    let m89 = pow2(89).minus(&BigNat::one());
    let m127 = pow2(127).minus(&BigNat::one());
    assert!(is_probable_prime(&m89, &vec![n(41), n(43)]));
    assert!(is_probable_prime(&m127, &vec![n(41), n(43)]));
}

#[test]
fn wide_composites_are_rejected() {
    let m89 = pow2(89).minus(&BigNat::one());
    let m127 = pow2(127).minus(&BigNat::one());
    assert!(!is_probable_prime(&m89.times(&m127), &vec![]));
    assert!(!is_probable_prime(&pow2(128).plus(&BigNat::one()), &vec![]));
    assert!(!is_probable_prime(&pow2(100), &vec![]));
}

#[test]
fn extra_bases_catch_what_the_fixed_bases_miss() {
    let liar = twelve_base_pseudoprime();
    assert_eq!(liar.modulo(&n(399_165_290_221)).to_u64(), Some(0));
    assert!(miller_rabin(&liar, &first_primes()));
    assert!(is_probable_prime(&liar, &vec![]));
    assert!(!miller_rabin_round(&liar, &n(41)));
    assert!(!is_probable_prime(&liar, &vec![n(41)]));
}

#[test]
fn generated_prime_has_the_requested_width() {
    for width in [2usize, 3, 4, 8, 16, 31, 32, 33, 63, 64] {
        let p = generate_prime(width).unwrap();
        assert_eq!(bits(&p), width);
        assert!(primal::is_prime(p.to_u64().unwrap()), "width {}", width);
    }
}

#[test]
fn generated_wide_prime_passes_the_test_again() {
    for width in [65usize, 96, 128, 200] {
        let p = generate_prime(width).unwrap();
        assert_eq!(bits(&p), width);
        assert_eq!(p.to_u64(), None);
        assert!(is_probable_prime(&p, &vec![n(41), n(43), n(47), n(53)]));
        assert!(!p.modulo(&n(2)).is_zero());
    }
}

#[test]
fn no_prime_has_fewer_than_two_bits() {
    assert_eq!(generate_prime(0), Err(ElGamalError::PrimeGenerationFailed));
    assert_eq!(generate_prime(1), Err(ElGamalError::PrimeGenerationFailed));
}

#[test]
fn two_bit_primes_are_two_and_three() {
    for _ in 0..20 {
        let p = generate_prime(2).unwrap().to_u64().unwrap();
        assert!(p == 2 || p == 3);
    }
}
