use elgamal::bignat::BigNat;
use elgamal::domain::generate_domain_parameters;
use elgamal::error::ElGamalError;
use elgamal::generator::find_primitive_root;

fn n(v: u64) -> BigNat {
    BigNat::from_u64(v)
}

/// The multiplicative order of `g` modulo `p`, by repeated multiplication.
fn order(g: u64, p: u64) -> u64 {
    let mut power = g % p;
    let mut exponent = 1;
    while power != 1 {
        power = power * g % p;
        exponent += 1;
    }
    exponent
}

#[test]
fn generated_parameters_are_a_prime_and_its_least_generator() {
    for width in [3usize, 4, 5, 8, 12, 16, 20] {
        let (p, g) = generate_domain_parameters(width).unwrap();
        let p = p.to_u64().unwrap();
        let g = g.to_u64().unwrap();
        assert!(p >> (width - 1) == 1, "width {}", width);
        assert!(primal::is_prime(p));
        assert!(1 < g && g < p - 1);
        assert_eq!(order(g, p), p - 1);
        for h in 2..g {
            assert_ne!(order(h, p), p - 1);
        }
    }
}

#[test]
fn generated_base_satisfies_fermat() {
    let (p, g) = generate_domain_parameters(40).unwrap();
    let one = BigNat::one();
    assert_eq!(g.modpow(&p.minus(&one), &p), one);
    assert_ne!(g, one);
    assert_eq!(find_primitive_root(&p), Ok(g));
}

#[test]
fn fermat_holds_for_every_base_of_a_prime() {
    let p = n(467);
    for g in 2..467u64 {
        assert_eq!(n(g).modpow(&n(466), &p), BigNat::one(), "base {}", g);
    }
}

#[test]
fn no_parameters_below_two_bits() {
    assert_eq!(generate_domain_parameters(0), Err(ElGamalError::PrimeGenerationFailed));
    assert_eq!(generate_domain_parameters(1), Err(ElGamalError::PrimeGenerationFailed));
}

#[test]
fn two_bit_primes_have_no_generator_in_range() {
    assert_eq!(generate_domain_parameters(2), Err(ElGamalError::NoGeneratorFound));
}
