use elgamal::bignat::BigNat;
use elgamal::cipher::{encrypt_digest, public_key};
use elgamal::signature::verify_signature;

fn n(v: u64) -> BigNat {
    BigNat::from_u64(v)
}

/// The check value, computed independently on machine integers.
fn check_value(x: u64, y: u64, p: u64, g: u64, a: u64, h: u64) -> u64 {
    fn power(base: u64, exp: u64, modulus: u64) -> u64 {
        let mut result = 1 % modulus;
        for _ in 0..exp {
            result = result * (base % modulus) % modulus;
        }
        result
    }
    let s = power(x, a, p);
    let w = power(s, p - 2, p);
    let u1 = h * w % p;
    let u2 = y * w % p;
    power(g, u1, p) * power(y, u2, p) % p % (p - 1)
}

#[test]
fn accepted_signature_equals_its_check_value() {
    // for p = 467, g = 2, key 3 and digest 5 the pair (2, 254) satisfies the check
    assert_eq!(check_value(2, 254, 467, 2, 3, 5), 2);
    assert!(verify_signature(&(n(2), n(254)), &n(467), &n(2), &n(3), &n(5)));
    assert!(verify_signature(&(n(10), n(460)), &n(467), &n(2), &n(3), &n(5)));
}

#[test]
fn incremented_signature_is_rejected() {
    assert!(!verify_signature(&(n(2), n(255)), &n(467), &n(2), &n(3), &n(5)));
    assert!(!verify_signature(&(n(10), n(461)), &n(467), &n(2), &n(3), &n(5)));
}

#[test]
fn wrong_digest_is_rejected() {
    assert_eq!(check_value(2, 254, 467, 2, 3, 6), 298);
    assert!(!verify_signature(&(n(2), n(254)), &n(467), &n(2), &n(3), &n(6)));
}

#[test]
fn ciphertext_is_not_a_signature() {
    let p = n(467);
    let g = n(2);
    let a = n(3);
    let b = public_key(&p, &g, &a);
    let (x, y) = encrypt_digest(&n(5), &p, &g, &b, &n(7));
    assert_eq!(check_value(128, 209, 467, 2, 3, 5), 32);
    assert!(!verify_signature(&(x, y), &p, &g, &a, &n(5)));
}

#[test]
fn check_agrees_with_machine_arithmetic() {
    let (p, g, a, h) = (23u64, 5u64, 6u64, 9u64);
    for x in 0..25u64 {
        for y in 0..25u64 {
            let expected = check_value(x, y, p, g, a, h) == x;
            let accepted = verify_signature(&(n(x), n(y)), &n(p), &n(g), &n(a), &n(h));
            assert_eq!(accepted, expected, "x {} y {}", x, y);
        }
    }
}

#[test]
fn component_at_or_above_the_group_order_is_rejected() {
    // the check value is below p - 1, so x = p - 1 and beyond can never match
    for y in 0..30u64 {
        assert!(!verify_signature(&(n(466), n(y)), &n(467), &n(2), &n(3), &n(5)));
        assert!(!verify_signature(&(n(467 + 2), n(y)), &n(467), &n(2), &n(3), &n(5)));
    }
}

#[test]
fn derived_signature_is_accepted_when_it_meets_the_check() {
    let p = n(467);
    let g = n(2);
    let a = n(3);
    let b = public_key(&p, &g, &a);
    // with the ephemeral exponent 404 the ciphertext of the digest 5 is (324, 268)
    let (x, y) = encrypt_digest(&n(5), &p, &g, &b, &n(404));
    assert_eq!((x.clone(), y.clone()), (n(324), n(268)));
    assert!(verify_signature(&(x.clone(), y.clone()), &p, &g, &a, &n(5)));
    let corrupted = (x, y.plus(&BigNat::one()));
    assert!(!verify_signature(&corrupted, &p, &g, &a, &n(5)));
}

#[test]
fn derived_signature_has_the_digest_as_second_exponent() {
    let (p, g, a, h) = (467u64, 2u64, 3u64, 5u64);
    let b = public_key(&n(p), &n(g), &n(a));
    let mut accepted = Vec::new();
    for k in 1..=p - 2 {
        let (x, y) = encrypt_digest(&n(h), &n(p), &n(g), &b, &n(k));
        let s = x.modpow(&n(a), &n(p));
        let w = s.modpow(&n(p - 2), &n(p));
        assert_eq!(y.times(&w).modulo(&n(p)), n(h));
        let x64 = x.to_u64().unwrap();
        let y64 = y.to_u64().unwrap();
        let expected = check_value(x64, y64, p, g, a, h) == x64;
        assert_eq!(verify_signature(&(x, y), &n(p), &n(g), &n(a), &n(h)), expected);
        if expected {
            accepted.push(k);
        }
    }
    assert_eq!(accepted, vec![404]);
}
