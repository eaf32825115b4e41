//! The scheme's signature check.
//!
//! The check needs the signer's secret exponent, so it is not a
//! publicly verifiable signature: only the holder of the key can run it.
//! The algebra is kept exactly as the scheme defines it.

use crate::bignat::BigNat;
use crate::cipher::{ciphertext_of, decrypted_value, lemma_round_trip, shared_secret};
use crate::generator::valid_domain;
use crate::primes::mod_pow;
use vstd::arithmetic::div_mod::lemma_mod_bound;
use vstd::prelude::*;

verus! {

/// The value that a signature's `x` must equal: with `s = x^a mod p` and
/// `w = s^(p-2) mod p`, `u1 = h * w mod p` and `u2 = y * w mod p`, it is
/// `(g^u1 * y^u2 mod p) mod (p - 1)`.
pub open spec fn check_value(x: nat, y: nat, p: nat, g: nat, a: nat, h: nat) -> nat {
    let s = mod_pow(x, a, p);
    let w = mod_pow(s, (p - 2) as nat, p);
    let u1 = (h * w) % p;
    let u2 = (y * w) % p;
    (((mod_pow(g, u1, p) * mod_pow(y, u2, p)) % p) % ((p - 1) as nat)) as nat
}

/// The signature `(x, y)` is accepted for the digest `h` under the key
/// `a`.
pub open spec fn signature_accepted(x: nat, y: nat, p: nat, g: nat, a: nat, h: nat) -> bool {
    check_value(x, y, p, g, a, h) == x
}

/// A signature derived as the ciphertext of the digest `h` under the
/// signer's own key pair: its second exponent `u2` is the digest reduced
/// modulo `p`, and it is accepted exactly when its `x` equals
/// `(g^u1 * y^(h mod p) mod p) mod (p - 1)`. Such a signature need not be
/// accepted.
pub proof fn lemma_derived_signature(p: nat, g: nat, a: nat, k: nat, h: nat)
    requires
        valid_domain(p, g),
    ensures
        ({
            let c = ciphertext_of(h, p, g, mod_pow(g, a, p), k);
            let w = mod_pow(shared_secret(c.0, p, a), (p - 2) as nat, p);
            let u1 = (h * w) % p;
            &&& (c.1 * w) % p == h % p
            &&& signature_accepted(c.0, c.1, p, g, a, h) <==> c.0 == ((mod_pow(g, u1, p)
                * mod_pow(c.1, h % p, p)) % p) % ((p - 1) as nat)
        }),
{
    lemma_round_trip(p, g, a, k, h);
    let c = ciphertext_of(h, p, g, mod_pow(g, a, p), k);
    assert(decrypted_value(c.0, c.1, p, a) == h % p);
}

/// An accepted signature has its `x` below `p - 1`: the check value is a
/// remainder modulo `p - 1`.
pub proof fn lemma_accepted_below_order(x: nat, y: nat, p: nat, g: nat, a: nat, h: nat)
    requires
        p >= 2,
        signature_accepted(x, y, p, g, a, h),
    ensures
        x < p - 1,
{
    let w = mod_pow(mod_pow(x, a, p), (p - 2) as nat, p);
    let v = (mod_pow(g, (h * w) % p, p) * mod_pow(y, (y * w) % p, p)) % p;
    lemma_mod_bound(v as int, p - 1);
}

/// Checks the signature `(x, y)` against the digest `message_hash`, with
/// the key `a`.
pub fn verify_signature(
    signature: &(BigNat, BigNat),
    p: &BigNat,
    g: &BigNat,
    a: &BigNat,
    message_hash: &BigNat,
) -> (accepted: bool)
    requires
        p@ >= 2,
    ensures
        accepted == signature_accepted(signature.0@, signature.1@, p@, g@, a@, message_hash@),
{
    let x = &signature.0;
    let y = &signature.1;
    let one = BigNat::one();
    let two = BigNat::from_u64(2);
    let order = p.minus(&one);
    let s = x.modpow(a, p);
    let w = s.modpow(&p.minus(&two), p);
    let u1 = message_hash.times(&w).modulo(p);
    let u2 = y.times(&w).modulo(p);
    let v = g.modpow(&u1, p).times(&y.modpow(&u2, p)).modulo(p).modulo(&order);
    v.equals(x)
}

} // verus!
