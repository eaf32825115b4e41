//! Key generation, encryption and decryption.
//!
//! What is encrypted is the digest of the message, not the message:
//! decryption recovers the digest reduced modulo `p`, which is the digest
//! itself whenever `p` exceeds it.

use crate::bignat::BigNat;
use crate::bytes::{be_bytes, lemma_be_bytes_value};
use crate::digest::{digest_value, message_digest};
use crate::entropy::random_in_range;
use crate::error::ElGamalError;
use crate::fermat::lemma_fermat_little;
use crate::generator::valid_domain;
use crate::primes::{
    is_prime, lemma_cancel_mod_prime, lemma_mod_pow_pow, lemma_pow_coprime, mod_pow,
};
use vstd::arithmetic::div_mod::*;
use vstd::arithmetic::power::*;
use vstd::arithmetic::power2::*;
use vstd::prelude::*;

verus! {

/// The ciphertext `(x, y)` of the digest `m` under public key `b` with
/// ephemeral exponent `k`: `x = g^k mod p` and `y = (b^k * m) mod p`.
pub open spec fn ciphertext_of(m: nat, p: nat, g: nat, b: nat, k: nat) -> (nat, nat) {
    (mod_pow(g, k, p), (mod_pow(b, k, p) * m) % p)
}

/// The secret shared by the two parties: `x^a mod p`.
pub open spec fn shared_secret(x: nat, p: nat, a: nat) -> nat {
    mod_pow(x, a, p)
}

/// What decryption recovers: `y * s^(p-2) mod p`, where `s` is the shared
/// secret and `s^(p-2)` its inverse modulo a prime `p`.
pub open spec fn decrypted_value(x: nat, y: nat, p: nat, a: nat) -> nat {
    (y * mod_pow(shared_secret(x, p, a), (p - 2) as nat, p)) % p
}

/// `y` with its binary digit of weight `2^i` inverted.
pub open spec fn flip_bit(y: nat, i: nat) -> nat {
    if (y / pow2(i)) % 2 == 0 {
        y + pow2(i)
    } else {
        (y - pow2(i)) as nat
    }
}

/// Both parties arrive at the same secret: the public key raised to the
/// ephemeral exponent equals the ciphertext's `x` raised to the private
/// key, modulo `p`.
pub proof fn lemma_shared_secret_agrees(p: nat, g: nat, a: nat, k: nat)
    requires
        p > 0,
    ensures
        mod_pow(mod_pow(g, a, p), k, p) == mod_pow(mod_pow(g, k, p), a, p),
        mod_pow(mod_pow(g, k, p), a, p) == mod_pow(g, k * a, p),
{
    lemma_mod_pow_pow(g, a, k, p);
    lemma_mod_pow_pow(g, k, a, p);
    assert(a * k == k * a) by (nonlinear_arith);
}

/// Multiplying by the shared secret and then by its `(p-2)`-th power
/// gives back the residue that was multiplied.
proof fn lemma_secret_cancels(p: nat, s: nat, m: nat)
    requires
        is_prime(p),
        0 < s < p,
    ensures
        (((s * m) % p) * mod_pow(s, (p - 2) as nat, p)) % p == m % p,
{
    let q = p as int;
    let w = pow(s as int, (p - 2) as nat);
    lemma_small_mod(s, p);
    lemma_fermat_little(p, s as int);
    reveal(pow);
    assert(pow(s as int, (p - 1) as nat) == s * w);
    lemma_mul_mod_noop_general((s * m) as int, w, q);
    assert((s * m) * w == m * (s * w)) by (nonlinear_arith);
    lemma_mul_mod_noop_general(m as int, s * w, q);
    let r = (m as int) % q;
    assert(r * 1 == r);
    lemma_mod_twice(m as int, q);
}

/// Round trip: for valid domain parameters, decrypting the ciphertext of
/// a digest `m` under the matching key pair recovers `m` reduced modulo
/// `p`, whatever the private key and the ephemeral exponent; so it
/// recovers `m` itself when `m` is below `p`. The shared secret of such a
/// ciphertext is never zero.
pub proof fn lemma_round_trip(p: nat, g: nat, a: nat, k: nat, m: nat)
    requires
        valid_domain(p, g),
    ensures
        ({
            let b = mod_pow(g, a, p);
            let c = ciphertext_of(m, p, g, b, k);
            &&& shared_secret(c.0, p, a) != 0
            &&& decrypted_value(c.0, c.1, p, a) == m % p
            &&& m < p ==> decrypted_value(c.0, c.1, p, a) == m
        }),
{
    let b = mod_pow(g, a, p);
    let x = mod_pow(g, k, p);
    let s = mod_pow(x, a, p);
    lemma_shared_secret_agrees(p, g, a, k);
    lemma_small_mod(g, p);
    lemma_pow_coprime(p, g as int, k * a);
    lemma_mod_bound(pow(g as int, k * a), p as int);
    lemma_secret_cancels(p, s, m);
    if m < p {
        lemma_small_mod(m, p);
    }
}

/// Decryption tells apart any two values of `y` that differ modulo `p`:
/// for a prime `p` and an `x` that `p` does not divide, they decrypt to
/// different values, hence to different byte strings.
pub proof fn lemma_decryption_separates(p: nat, x: nat, a: nat, y1: nat, y2: nat)
    requires
        is_prime(p),
        x % p != 0,
        y1 % p != y2 % p,
    ensures
        decrypted_value(x, y1, p, a) != decrypted_value(x, y2, p, a),
        be_bytes(decrypted_value(x, y1, p, a)) != be_bytes(decrypted_value(x, y2, p, a)),
{
    let q = p as int;
    let s = shared_secret(x, p, a);
    let w = mod_pow(s, (p - 2) as nat, p);
    lemma_pow_coprime(p, x as int, a);
    lemma_mod_bound(pow(x as int, a), q);
    lemma_small_mod(s, p);
    lemma_pow_coprime(p, s as int, (p - 2) as nat);
    lemma_mod_bound(pow(s as int, (p - 2) as nat), q);
    lemma_small_mod(w, p);
    if decrypted_value(x, y1, p, a) == decrypted_value(x, y2, p, a) {
        assert(y1 * w == w * y1 && y2 * w == w * y2) by (nonlinear_arith);
        lemma_cancel_mod_prime(p, w as int, y1 as int, y2 as int);
    }
    lemma_be_bytes_value(decrypted_value(x, y1, p, a));
    lemma_be_bytes_value(decrypted_value(x, y2, p, a));
}

/// Tamper detection: for an odd prime `p` and an `x` that `p` does not
/// divide, inverting any one binary digit of `y` changes what decryption
/// returns.
pub proof fn lemma_bit_flip_detected(p: nat, x: nat, a: nat, y: nat, i: nat)
    requires
        is_prime(p),
        p > 2,
        x % p != 0,
    ensures
        decrypted_value(x, flip_bit(y, i), p, a) != decrypted_value(x, y, p, a),
        be_bytes(decrypted_value(x, flip_bit(y, i), p, a)) != be_bytes(
            decrypted_value(x, y, p, a),
        ),
{
    let q = p as int;
    let t = pow2(i);
    lemma_pow2(i);
    lemma_pow2_pos(i);
    lemma_small_mod(2, p);
    lemma_pow_coprime(p, 2, i);
    let z = flip_bit(y, i);
    if (y / t) % 2 != 0 {
        lemma_fundamental_div_mod(y as int, t as int);
        assert(t * (y / t) >= t) by (nonlinear_arith)
            requires
                y / t >= 1,
                t >= 1,
        ;
        assert(z + t == y);
        if z % p == y % p {
            lemma_mod_equivalence(y as int, z as int, q);
        }
    } else {
        assert(z == y + t);
        if z % p == y % p {
            lemma_mod_equivalence(z as int, y as int, q);
        }
    }
    lemma_decryption_separates(p, x, a, z, y);
}

/// The public key that belongs to the private key `a`: `g^a mod p`.
pub fn public_key(p: &BigNat, g: &BigNat, a: &BigNat) -> (b: BigNat)
    requires
        p@ >= 2,
    ensures
        b@ == mod_pow(g@, a@, p@),
{
    g.modpow(a, p)
}

/// A fresh key pair `(private, public)`: the private key is drawn from
/// `[1, p - 2]` and the public key is `g^private mod p`.
pub fn generate_keys(p: &BigNat, g: &BigNat) -> (keys: (BigNat, BigNat))
    requires
        p@ >= 3,
    ensures
        1 <= keys.0@ <= p@ - 2,
        keys.1@ == mod_pow(g@, keys.0@, p@),
{
    let one = BigNat::one();
    let top = p.minus(&one);
    let a = random_in_range(&one, &top);
    let b = public_key(p, g, &a);
    (a, b)
}

/// The ciphertext of `digest` under public key `b` with the ephemeral
/// exponent `k`.
pub fn encrypt_digest(digest: &BigNat, p: &BigNat, g: &BigNat, b: &BigNat, k: &BigNat) -> (c: (
    BigNat,
    BigNat,
))
    requires
        p@ >= 2,
    ensures
        (c.0@, c.1@) == ciphertext_of(digest@, p@, g@, b@, k@),
{
    let x = g.modpow(k, p);
    let y = b.modpow(k, p).times(digest).modulo(p);
    (x, y)
}

/// Encrypts the digest of `message` under public key `b`, with an
/// ephemeral exponent drawn from `[1, p - 2]`.
pub fn encrypt_message(message: &[u8], p: &BigNat, g: &BigNat, b: &BigNat) -> (c: (BigNat, BigNat))
    requires
        p@ >= 3,
    ensures
        exists|k: nat|
            1 <= k <= p@ - 2 && (c.0@, c.1@) == #[trigger] ciphertext_of(
                digest_value(message@),
                p@,
                g@,
                b@,
                k,
            ),
{
    let one = BigNat::one();
    let top = p.minus(&one);
    let k = random_in_range(&one, &top);
    let digest = message_digest(message);
    let c = encrypt_digest(&digest, p, g, b, &k);
    proof {
        assert((c.0@, c.1@) == ciphertext_of(digest_value(message@), p@, g@, b@, k@));
    }
    c
}

/// Decrypts the ciphertext `(x, y)` with the private key `a`, and returns
/// the canonical big-endian bytes of the recovered value.
///
/// `InvalidCiphertext` is returned exactly when the shared secret
/// `x^a mod p` is zero, which has no inverse.
pub fn decrypt_message(x: &BigNat, y: &BigNat, p: &BigNat, a: &BigNat) -> (r: Result<
    Vec<u8>,
    ElGamalError,
>)
    requires
        p@ >= 2,
    ensures
        match r {
            Ok(bytes) => shared_secret(x@, p@, a@) != 0 && bytes@ == be_bytes(
                decrypted_value(x@, y@, p@, a@),
            ),
            Err(e) => e == ElGamalError::InvalidCiphertext && shared_secret(x@, p@, a@) == 0,
        },
{
    let s = x.modpow(a, p);
    if s.is_zero() {
        return Err(ElGamalError::InvalidCiphertext);
    }
    let two = BigNat::from_u64(2);
    let exponent = p.minus(&two);
    let inverse = s.modpow(&exponent, p);
    let m = y.times(&inverse).modulo(p);
    Ok(m.to_bytes_be())
}

} // verus!
