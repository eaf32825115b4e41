//! Domain parameters: a prime modulus together with a generator of its
//! multiplicative group.

use crate::bignat::BigNat;
use crate::error::ElGamalError;
use crate::generator::{find_primitive_root, is_least_generator, no_generator, valid_domain};
use crate::prime_generator::{bit_count, generate_prime, lemma_bit_count_bound, probable_prime};
use vstd::arithmetic::power2::{lemma2_to64, lemma2_to64_rest, lemma_pow2_strictly_increases};
use vstd::prelude::*;

verus! {

/// Domain parameters `(p, g)` for a requested bit length: a prime `p` of
/// exactly that many bits and the least generator `g` modulo `p`.
///
/// The modulus comes from the prime generator, which can only vouch for a
/// probable prime; finding a generator then proves it prime. When the
/// search finds none the modulus is not used, and `NoGeneratorFound` is
/// returned; nothing is retried. That is always so for two bits, where
/// the primes are two and three, and never so from three to 64 bits,
/// where the prime generator is exact. Beyond 64 bits it means that a
/// composite passed the primality test.
pub fn generate_domain_parameters(bit_length: usize) -> (r: Result<(BigNat, BigNat), ElGamalError>)
    ensures
        match r {
            Ok(params) => {
                &&& bit_count(params.0@) == bit_length
                &&& valid_domain(params.0@, params.1@)
                &&& is_least_generator(params.1@, params.0@)
            },
            Err(e) => {
                ||| e == ElGamalError::PrimeGenerationFailed
                ||| e == ElGamalError::NoGeneratorFound && exists|p: nat|
                    bit_count(p) == bit_length && probable_prime(p, Seq::<nat>::empty())
                        && #[trigger] no_generator(p)
            },
        },
        3 <= bit_length <= 64 ==> r != Err::<(BigNat, BigNat), ElGamalError>(
            ElGamalError::NoGeneratorFound,
        ),
        bit_length < 2 ==> r == Err::<(BigNat, BigNat), ElGamalError>(
            ElGamalError::PrimeGenerationFailed,
        ),
        bit_length == 2 ==> r == Err::<(BigNat, BigNat), ElGamalError>(
            ElGamalError::NoGeneratorFound,
        ),
{
    match generate_prime(bit_length) {
        Ok(p) => {
            proof {
                if bit_length == 2 {
                    reveal_with_fuel(bit_count, 4);
                    assert(p@ < 4);
                }
                if 3 <= bit_length <= 64 {
                    lemma_bit_count_bound(p@);
                    lemma2_to64();
                    lemma2_to64_rest();
                    if bit_length < 64 {
                        lemma_pow2_strictly_increases(bit_length as nat, 64);
                    }
                    reveal_with_fuel(bit_count, 4);
                    assert(p@ >= 4);
                    assert(p@ != 4) by {
                        if p@ == 4 {
                            assert(p@ % 2 == 0);
                        }
                    }
                }
            }
            match find_primitive_root(&p) {
                Ok(g) => Ok((p, g)),
                Err(e) => {
                    proof {
                        assert(bit_count(p@) == bit_length && no_generator(p@));
                    }
                    Err(e)
                },
            }
        },
        Err(e) => Err(e),
    }
}

} // verus!
