use elgamal::bignat::BigNat;
use elgamal::cipher::{
    decrypt_message, encrypt_digest, encrypt_message, generate_keys, public_key,
};
use elgamal::digest::message_digest;
use elgamal::error::ElGamalError;
use elgamal::generator::find_primitive_root;
use elgamal::prime_generator::generate_prime;

fn n(v: u64) -> BigNat {
    BigNat::from_u64(v)
}

#[test]
fn small_prime_scenario() {
    let p = n(467);
    let g = n(2);
    let a = n(3);
    let b = public_key(&p, &g, &a);
    assert_eq!(b, n(8));
    let (x, y) = encrypt_digest(&n(5), &p, &g, &b, &n(7));
    assert_eq!(x, n(2).modpow(&n(7), &p));
    assert_eq!(y, b.modpow(&n(7), &p).times(&n(5)).modulo(&p));
    assert_eq!(x, n(128));
    assert_eq!(y, n(209));
    assert_eq!(decrypt_message(&x, &y, &p, &a), Ok(vec![5u8]));
}

#[test]
fn key_pair_is_consistent() {
    let p = n(467);
    let g = n(2);
    for _ in 0..50 {
        let (a, b) = generate_keys(&p, &g);
        assert!(!a.less_than(&BigNat::one()));
        assert!(a.less_than(&n(466)));
        assert_eq!(b, g.modpow(&a, &p));
    }
}

#[test]
fn smallest_modulus_has_one_private_key() {
    let (a, b) = generate_keys(&n(3), &n(2));
    assert_eq!(a, n(1));
    assert_eq!(b, n(2));
}

#[test]
fn round_trip_recovers_the_digest_modulo_a_small_prime() {
    let p = n(467);
    let g = n(2);
    let message = b"Hello, world!";
    for _ in 0..20 {
        let (a, b) = generate_keys(&p, &g);
        let (x, y) = encrypt_message(message, &p, &g, &b);
        let recovered = decrypt_message(&x, &y, &p, &a).unwrap();
        // the SHA-256 digest of the message leaves 455 modulo 467
        assert_eq!(recovered, vec![1u8, 199u8]);
        assert_eq!(recovered, message_digest(message).modulo(&p).to_bytes_be());
    }
}

#[test]
fn round_trip_recovers_the_digest_under_a_wide_prime() {
    let p = generate_prime(264).unwrap();
    let g = n(3);
    let message = b"Hello, world!";
    let (a, b) = generate_keys(&p, &g);
    let (x, y) = encrypt_message(message, &p, &g, &b);
    let recovered = decrypt_message(&x, &y, &p, &a).unwrap();
    let digest: [u8; 32] = [
        0x31, 0x5f, 0x5b, 0xdb, 0x76, 0xd0, 0x78, 0xc4, 0x3b, 0x8a, 0xc0, 0x06, 0x4e, 0x4a, 0x01,
        0x64, 0x61, 0x2b, 0x1f, 0xce, 0x77, 0xc8, 0x69, 0x34, 0x5b, 0xfc, 0x94, 0xc7, 0x58, 0x94,
        0xed, 0xd3,
    ];
    assert_eq!(recovered, digest.to_vec());
    assert_ne!(recovered, message.to_vec());
}

#[test]
fn round_trip_over_generated_parameters() {
    let p = generate_prime(24).unwrap();
    let g = find_primitive_root(&p).unwrap();
    let (a, b) = generate_keys(&p, &g);
    for m in [0u64, 1, 2, 5, 1000, 65535] {
        let digest = n(m);
        let k = n(12345).modulo(&p.minus(&n(2))).plus(&BigNat::one());
        let (x, y) = encrypt_digest(&digest, &p, &g, &b, &k);
        let recovered = decrypt_message(&x, &y, &p, &a).unwrap();
        assert_eq!(recovered, digest.modulo(&p).to_bytes_be());
    }
}

#[test]
fn ephemeral_exponent_varies() {
    let p = generate_prime(128).unwrap();
    let g = n(2);
    let (_, b) = generate_keys(&p, &g);
    let (x1, _) = encrypt_message(b"same", &p, &g, &b);
    let (x2, _) = encrypt_message(b"same", &p, &g, &b);
    assert_ne!(x1, x2);
}

#[test]
fn tampered_ciphertext_decrypts_differently() {
    let p = n(467);
    let a = n(3);
    let x = n(128);
    let y = n(209);
    let untouched = decrypt_message(&x, &y, &p, &a).unwrap();
    assert_eq!(untouched, vec![5u8]);
    let incremented = decrypt_message(&x, &y.plus(&BigNat::one()), &p, &a).unwrap();
    assert_ne!(incremented, untouched);
    for bit in 0..16u32 {
        let weight = n(1u64 << bit);
        let set = y.div_floor(&weight).modulo(&n(2)) == BigNat::one();
        let flipped = if set { y.minus(&weight) } else { y.plus(&weight) };
        let changed = decrypt_message(&x, &flipped, &p, &a).unwrap();
        assert_ne!(changed, untouched, "bit {}", bit);
    }
}

#[test]
fn zero_decrypts_to_a_zero_byte() {
    let p = n(467);
    assert_eq!(decrypt_message(&n(128), &n(0), &p, &n(3)), Ok(vec![0u8]));
    assert_eq!(decrypt_message(&n(128), &n(467), &p, &n(3)), Ok(vec![0u8]));
}

#[test]
fn non_invertible_secret_is_rejected() {
    let p = n(467);
    let a = n(3);
    assert_eq!(decrypt_message(&n(0), &n(209), &p, &a), Err(ElGamalError::InvalidCiphertext));
    assert_eq!(decrypt_message(&n(467), &n(209), &p, &a), Err(ElGamalError::InvalidCiphertext));
    assert_eq!(decrypt_message(&n(934), &n(1), &p, &a), Err(ElGamalError::InvalidCiphertext));
    // with a zero exponent the secret is one, whatever x is
    assert_eq!(decrypt_message(&n(0), &n(209), &p, &n(0)), Ok(vec![209u8]));
}
