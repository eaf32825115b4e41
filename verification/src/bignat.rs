//! Arbitrary-precision natural numbers.
//!
//! A [`BigNat`] holds the canonical big-endian bytes of its value, so the
//! value is a plain function of data that the verifier can see. Conversion
//! and ordering are computed and proved here; addition, subtraction,
//! multiplication, division and modular exponentiation are performed by
//! `num_bigint_dig::BigUint`, whose results are taken on trust as stated on
//! the private `*_bytes` functions at the end of this module. Those
//! functions exchange big-endian bytes, and what they return is brought
//! into canonical form by verified code.

use crate::bytes::{
    be_bytes, be_value, is_canonical, lemma_be_value_bound, lemma_be_value_lower_bound,
    lemma_be_value_push, lemma_be_value_single, lemma_be_value_skip_zeros,
    lemma_canonical_encoding, lemma_first_difference, lemma_shorter_is_smaller,
};
use crate::primes::mod_pow;
use num_bigint_dig::BigUint;
use vstd::arithmetic::div_mod::{lemma_div_denominator, lemma_fundamental_div_mod};
use vstd::arithmetic::power::*;
use vstd::prelude::*;

verus! {

/// A natural number of any size. Its view is the number itself.
#[derive(Debug, PartialEq, Eq)]
pub struct BigNat {
    bytes: Vec<u8>,
}

impl View for BigNat {
    type V = nat;

    closed spec fn view(&self) -> nat {
        be_value(self.bytes@)
    }
}

impl Clone for BigNat {
    fn clone(&self) -> (r: Self)
        ensures
            r@ == self@,
    {
        proof {
            use_type_invariant(self);
        }
        BigNat { bytes: self.bytes.clone() }
    }
}

impl BigNat {
    #[verifier::type_invariant]
    spec fn well_formed(self) -> bool {
        is_canonical(self.bytes@)
    }

    /// The number zero.
    pub fn zero() -> (r: BigNat)
        ensures
            r@ == 0,
    {
        let mut bytes: Vec<u8> = Vec::new();
        bytes.push(0u8);
        proof {
            lemma_be_value_single(bytes@);
        }
        BigNat { bytes }
    }

    /// The number one.
    pub fn one() -> (r: BigNat)
        ensures
            r@ == 1,
    {
        let mut bytes: Vec<u8> = Vec::new();
        bytes.push(1u8);
        proof {
            lemma_be_value_single(bytes@);
        }
        BigNat { bytes }
    }

    /// The number that `bytes` denotes in big-endian order. Leading zero
    /// bytes are allowed, and the empty string denotes zero.
    pub fn from_bytes_be(bytes: &[u8]) -> (r: BigNat)
        ensures
            r@ == be_value(bytes@),
    {
        let n = bytes.len();
        let mut start: usize = 0;
        while start < n && bytes[start] == 0
            invariant
                start <= n,
                n == bytes@.len(),
                forall|i: int| 0 <= i < start ==> bytes@[i] == 0,
            decreases n - start,
        {
            start += 1;
        }
        proof {
            lemma_be_value_skip_zeros(bytes@, start as int);
        }
        let mut out: Vec<u8> = Vec::new();
        if start == n {
            out.push(0u8);
            proof {
                lemma_be_value_single(out@);
                assert(bytes@.skip(start as int).len() == 0);
            }
        } else {
            let mut i: usize = start;
            while i < n
                invariant
                    start <= i <= n,
                    n == bytes@.len(),
                    out@ == bytes@.subrange(start as int, i as int),
                decreases n - i,
            {
                let b = bytes[i];
                out.push(b);
                proof {
                    assert(out@ =~= bytes@.subrange(start as int, i + 1));
                }
                i += 1;
            }
            proof {
                assert(out@ =~= bytes@.skip(start as int));
            }
        }
        BigNat { bytes: out }
    }

    /// The number `v`.
    pub fn from_u64(v: u64) -> (r: BigNat)
        ensures
            r@ == v,
    {
        let mut bytes: Vec<u8> = Vec::new();
        let mut weight: u64 = 0x0100_0000_0000_0000;
        let mut i: usize = 0;
        proof {
            lemma_pow_256_8();
            lemma_pow_unfold(7);
        }
        while i < 8
            invariant
                i <= 8,
                i < 8 ==> weight == pow(256, (7 - i) as nat),
                be_value(bytes@) == v as int / pow(256, (8 - i) as nat),
            decreases 8 - i,
        {
            proof {
                lemma_pow_positive(256, (7 - i) as nat);
            }
            let b: u8 = ((v / weight) % 256) as u8;
            proof {
                let w = weight as int;
                lemma_pow_unfold((7 - i) as nat);
                lemma_be_value_push(bytes@, b);
                lemma_div_denominator(v as int, w, 256);
                lemma_fundamental_div_mod(v as int / w, 256);
                if i < 7 {
                    lemma_pow_unfold((6 - i) as nat);
                    lemma_pow_positive(256, (6 - i) as nat);
                }
            }
            bytes.push(b);
            weight = weight / 256;
            i += 1;
        }
        proof {
            lemma_pow0(256);
        }
        BigNat::from_bytes_be(bytes.as_slice())
    }

    /// The canonical big-endian bytes of the number: no leading zero byte,
    /// except that zero is a single zero byte.
    pub fn to_bytes_be(&self) -> (r: Vec<u8>)
        ensures
            r@ == be_bytes(self@),
    {
        proof {
            use_type_invariant(self);
            lemma_canonical_encoding(self.bytes@);
        }
        self.bytes.clone()
    }

    /// The number as a `u64`, if it fits.
    pub fn to_u64(&self) -> (r: Option<u64>)
        ensures
            match r {
                Some(v) => v == self@,
                None => self@ > u64::MAX,
            },
    {
        proof {
            use_type_invariant(self);
            lemma_pow_256_8();
        }
        let n = self.bytes.len();
        if n > 8 {
            proof {
                lemma_be_value_lower_bound(self.bytes@);
                lemma_pow_increases(256, 8, (n - 1) as nat);
            }
            return None;
        }
        let mut acc: u64 = 0;
        let mut i: usize = 0;
        while i < n
            invariant
                i <= n <= 8,
                n == self.bytes@.len(),
                acc == be_value(self.bytes@.take(i as int)),
                pow(256, 8) == 0x1_0000_0000_0000_0000,
            decreases n - i,
        {
            let b = self.bytes[i];
            proof {
                let front = self.bytes@.take(i as int);
                lemma_be_value_bound(front);
                lemma_pow_increases(256, i as nat, 7);
                lemma_pow_adds(256, 7, 1);
                lemma_pow1(256);
                lemma_be_value_push(front, b);
                assert(front.push(b) =~= self.bytes@.take(i + 1));
            }
            acc = acc * 256 + b as u64;
            i += 1;
        }
        proof {
            assert(self.bytes@.take(n as int) =~= self.bytes@);
        }
        Some(acc)
    }

    /// Whether the number is zero.
    pub fn is_zero(&self) -> (r: bool)
        ensures
            r == (self@ == 0),
    {
        let zero = BigNat::zero();
        self.equals(&zero)
    }

    /// Whether the number is strictly below `other`.
    pub fn less_than(&self, other: &BigNat) -> (r: bool)
        ensures
            r == (self@ < other@),
    {
        proof {
            use_type_invariant(self);
            use_type_invariant(other);
        }
        let n = self.bytes.len();
        let m = other.bytes.len();
        if n != m {
            proof {
                if n < m {
                    lemma_shorter_is_smaller(self.bytes@, other.bytes@);
                } else {
                    lemma_shorter_is_smaller(other.bytes@, self.bytes@);
                }
            }
            return n < m;
        }
        let mut i: usize = 0;
        while i < n
            invariant
                i <= n,
                n == self.bytes@.len(),
                n == other.bytes@.len(),
                self.bytes@.take(i as int) == other.bytes@.take(i as int),
            decreases n - i,
        {
            let a = self.bytes[i];
            let b = other.bytes[i];
            if a != b {
                proof {
                    if a < b {
                        lemma_first_difference(self.bytes@, other.bytes@, i as int);
                    } else {
                        lemma_first_difference(other.bytes@, self.bytes@, i as int);
                    }
                }
                return a < b;
            }
            proof {
                assert(self.bytes@.take(i + 1) =~= self.bytes@.take(i as int).push(a));
                assert(other.bytes@.take(i + 1) =~= other.bytes@.take(i as int).push(b));
            }
            i += 1;
        }
        proof {
            assert(self.bytes@.take(n as int) =~= self.bytes@);
            assert(other.bytes@.take(n as int) =~= other.bytes@);
        }
        false
    }

    /// Whether the number equals `other`.
    pub fn equals(&self, other: &BigNat) -> (r: bool)
        ensures
            r == (self@ == other@),
    {
        !self.less_than(other) && !other.less_than(self)
    }

    /// The sum of the two numbers.
    pub fn plus(&self, other: &BigNat) -> (r: BigNat)
        ensures
            r@ == self@ + other@,
    {
        BigNat::from_bytes_be(add_bytes(self.bytes.as_slice(), other.bytes.as_slice()).as_slice())
    }

    /// The difference of the two numbers.
    pub fn minus(&self, other: &BigNat) -> (r: BigNat)
        requires
            other@ <= self@,
        ensures
            r@ == self@ - other@,
    {
        BigNat::from_bytes_be(sub_bytes(self.bytes.as_slice(), other.bytes.as_slice()).as_slice())
    }

    /// The product of the two numbers.
    pub fn times(&self, other: &BigNat) -> (r: BigNat)
        ensures
            r@ == self@ * other@,
    {
        BigNat::from_bytes_be(mul_bytes(self.bytes.as_slice(), other.bytes.as_slice()).as_slice())
    }

    /// The quotient of the number by `divisor`, rounded down.
    pub fn div_floor(&self, divisor: &BigNat) -> (r: BigNat)
        requires
            divisor@ != 0,
        ensures
            r@ == self@ / divisor@,
    {
        BigNat::from_bytes_be(div_bytes(self.bytes.as_slice(), divisor.bytes.as_slice()).as_slice())
    }

    /// The remainder of the number on division by `modulus`.
    pub fn modulo(&self, modulus: &BigNat) -> (r: BigNat)
        requires
            modulus@ != 0,
        ensures
            r@ == self@ % modulus@,
    {
        BigNat::from_bytes_be(rem_bytes(self.bytes.as_slice(), modulus.bytes.as_slice()).as_slice())
    }

    /// The number raised to `exponent`, reduced modulo `modulus`.
    pub fn modpow(&self, exponent: &BigNat, modulus: &BigNat) -> (r: BigNat)
        requires
            modulus@ != 0,
        ensures
            r@ == mod_pow(self@, exponent@, modulus@),
    {
        let bytes = modpow_bytes(
            self.bytes.as_slice(),
            exponent.bytes.as_slice(),
            modulus.bytes.as_slice(),
        );
        BigNat::from_bytes_be(bytes.as_slice())
    }
}

/// The numbers that a sequence of [`BigNat`]s holds, in order.
pub open spec fn values(v: Seq<BigNat>) -> Seq<nat> {
    Seq::new(v.len(), |i: int| v[i]@)
}

proof fn lemma_pow_256_8()
    ensures
        pow(256, 8) == 0x1_0000_0000_0000_0000,
{
    reveal_with_fuel(pow, 9);
}

/// `256^(e+1)` is `256 * 256^e`.
proof fn lemma_pow_unfold(e: nat)
    ensures
        pow(256, e + 1) == 256 * pow(256, e),
        pow(256, e + 1) == pow(256, e) * 256,
{
    reveal(pow);
}

/// `num_bigint_dig::BigUint`'s `+`, on operands and result in big-endian
/// bytes. Trusted: the result denotes the sum.
#[verifier::external_body]
fn add_bytes(a: &[u8], b: &[u8]) -> (r: Vec<u8>)
    ensures
        be_value(r@) == be_value(a@) + be_value(b@),
{
    (BigUint::from_bytes_be(a) + BigUint::from_bytes_be(b)).to_bytes_be()
}

/// `num_bigint_dig::BigUint`'s `-`, which panics when the subtrahend is
/// the larger operand. Trusted: otherwise the result denotes the
/// difference.
#[verifier::external_body]
fn sub_bytes(a: &[u8], b: &[u8]) -> (r: Vec<u8>)
    requires
        be_value(b@) <= be_value(a@),
    ensures
        be_value(r@) == be_value(a@) - be_value(b@),
{
    (BigUint::from_bytes_be(a) - BigUint::from_bytes_be(b)).to_bytes_be()
}

/// `num_bigint_dig::BigUint`'s `*`. Trusted: the result denotes the
/// product.
#[verifier::external_body]
fn mul_bytes(a: &[u8], b: &[u8]) -> (r: Vec<u8>)
    ensures
        be_value(r@) == be_value(a@) * be_value(b@),
{
    (BigUint::from_bytes_be(a) * BigUint::from_bytes_be(b)).to_bytes_be()
}

/// `num_bigint_dig::BigUint`'s `/`, which panics on a zero divisor.
/// Trusted: otherwise the result denotes the quotient rounded down.
#[verifier::external_body]
fn div_bytes(a: &[u8], b: &[u8]) -> (r: Vec<u8>)
    requires
        be_value(b@) != 0,
    ensures
        be_value(r@) == be_value(a@) / be_value(b@),
{
    (BigUint::from_bytes_be(a) / BigUint::from_bytes_be(b)).to_bytes_be()
}

/// `num_bigint_dig::BigUint`'s `%`, which panics on a zero divisor.
/// Trusted: otherwise the result denotes the remainder.
#[verifier::external_body]
fn rem_bytes(a: &[u8], b: &[u8]) -> (r: Vec<u8>)
    requires
        be_value(b@) != 0,
    ensures
        be_value(r@) == be_value(a@) % be_value(b@),
{
    (BigUint::from_bytes_be(a) % BigUint::from_bytes_be(b)).to_bytes_be()
}

/// `num_bigint_dig::BigUint::modpow`, which panics on a zero modulus.
/// Trusted: otherwise the result denotes `base^exponent mod modulus`.
#[verifier::external_body]
fn modpow_bytes(base: &[u8], exponent: &[u8], modulus: &[u8]) -> (r: Vec<u8>)
    requires
        be_value(modulus@) != 0,
    ensures
        be_value(r@) == mod_pow(be_value(base@), be_value(exponent@), be_value(modulus@)),
{
    let e = BigUint::from_bytes_be(exponent);
    let m = BigUint::from_bytes_be(modulus);
    BigUint::from_bytes_be(base).modpow(&e, &m).to_bytes_be()
}

} // verus!
