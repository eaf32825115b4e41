//! ElGamal-style public-key primitives over arbitrary-precision integers:
//! prime and generator search, key generation, encryption of a message
//! digest, decryption, and the scheme's signature check.
//!
//! Every function carries a contract over mathematical integers, and the
//! number theory the scheme rests on is proved in this crate: Euclid's
//! lemma, Fermat's little theorem, the order criterion for generators
//! with Lucas's converse, the existence of a primitive root for every
//! prime, and the fact that the Miller–Rabin test never rejects a prime.
//!
//! Big-integer arithmetic, randomness and hashing come from outside
//! crates. Each such call is a private function whose contract is taken
//! on trust; they are found in [`bignat`], [`entropy`], [`digest`] and
//! [`prime_generator`].

pub mod bignat;
pub mod bytes;
pub mod cipher;
pub mod digest;
pub mod domain;
pub mod entropy;
pub mod error;
pub mod fermat;
pub mod gcd;
pub mod generator;
pub mod miller_rabin;
pub mod order;
pub mod polynomial;
pub mod prime_generator;
pub mod primitive_root;
pub mod primes;
pub mod signature;
