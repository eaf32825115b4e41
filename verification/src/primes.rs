//! Primes, and the facts about them that the scheme depends on.

use vstd::arithmetic::div_mod::*;
use vstd::arithmetic::mul::*;
use vstd::arithmetic::power::*;
use vstd::prelude::*;

verus! {

/// `n` is at least two and no number strictly between one and `n` divides it.
pub open spec fn is_prime(n: nat) -> bool {
    n >= 2 && forall|d: nat| 1 < d < n ==> #[trigger] (n % d) != 0
}

/// `base` raised to `exp`, reduced modulo `modulus`.
pub open spec fn mod_pow(base: nat, exp: nat, modulus: nat) -> nat {
    (pow(base as int, exp) % (modulus as int)) as nat
}

/// A multiple of `m` leaves no remainder.
pub proof fn lemma_multiple_mod(k: int, m: int)
    requires
        m > 0,
    ensures
        (k * m) % m == 0,
        (m * k) % m == 0,
{
    lemma_mod_multiples_basic(k, m);
    lemma_mul_is_commutative(k, m);
}

/// A number that leaves no remainder is a multiple.
pub proof fn lemma_mod_zero_multiple(x: int, m: int)
    requires
        m > 0,
        x % m == 0,
    ensures
        x == m * (x / m),
{
    lemma_fundamental_div_mod(x, m);
}

/// Divisibility passes along a chain: if `a` divides `b` and `b` divides
/// `c`, then `a` divides `c`.
pub proof fn lemma_divides_transitive(a: int, b: int, c: int)
    requires
        a > 0,
        b > 0,
        b % a == 0,
        c % b == 0,
    ensures
        c % a == 0,
{
    lemma_mod_zero_multiple(b, a);
    lemma_mod_zero_multiple(c, b);
    let k = b / a;
    let l = c / b;
    assert(c == (k * l) * a) by (nonlinear_arith)
        requires
            b == a * k,
            c == b * l,
    ;
    lemma_multiple_mod(k * l, a);
}

proof fn lemma_euclid_descent(p: int, a: int, b: int)
    requires
        p >= 2,
        is_prime(p as nat),
        0 < a < p,
        (a * b) % p == 0,
    ensures
        b % p == 0,
    decreases a,
{
    if a == 1 {
        assert(a * b == b) by (nonlinear_arith)
            requires
                a == 1,
        ;
    } else {
        let q = p / a;
        let r = p % a;
        assert((p as nat) % (a as nat) != 0);
        assert(0 < r < a) by {
            lemma_mod_bound(p, a);
        }
        lemma_fundamental_div_mod(p, a);
        lemma_mod_zero_multiple(a * b, p);
        let k = (a * b) / p;
        assert(r * b == (b - q * k) * p) by (nonlinear_arith)
            requires
                p == a * q + r,
                a * b == p * k,
        ;
        lemma_multiple_mod(b - q * k, p);
        lemma_euclid_descent(p, r, b);
    }
}

/// Euclid's lemma: a prime that divides a product divides one of its
/// factors.
pub proof fn lemma_euclid(p: nat, a: int, b: int)
    requires
        is_prime(p),
        (a * b) % (p as int) == 0,
    ensures
        a % (p as int) == 0 || b % (p as int) == 0,
{
    let m = p as int;
    let a0 = a % m;
    lemma_mod_bound(a, m);
    if a0 != 0 {
        lemma_mul_mod_noop_left(a, b, m);
        lemma_euclid_descent(m, a0, b);
    }
}

/// A power of a number that a prime does not divide is not divisible by
/// that prime either.
pub proof fn lemma_pow_coprime(p: nat, a: int, e: nat)
    requires
        is_prime(p),
        a % (p as int) != 0,
    ensures
        pow(a, e) % (p as int) != 0,
    decreases e,
{
    reveal(pow);
    if e == 0 {
        lemma_small_mod(1, p);
    } else {
        lemma_pow_coprime(p, a, (e - 1) as nat);
        if pow(a, e) % (p as int) == 0 {
            lemma_euclid(p, a, pow(a, (e - 1) as nat));
        }
    }
}

/// A power of a power, modulo `p`: reducing in between changes nothing.
pub proof fn lemma_mod_pow_pow(g: nat, u: nat, v: nat, p: nat)
    requires
        p > 0,
    ensures
        mod_pow(mod_pow(g, u, p), v, p) == mod_pow(g, u * v, p),
{
    lemma_pow_mod_noop(pow(g as int, u), v, p as int);
    lemma_pow_multiplies(g as int, u, v);
}

/// A power of a product, modulo `p`, is the product of the powers.
pub proof fn lemma_mod_pow_product(a: nat, b: nat, k: nat, p: nat)
    requires
        p > 0,
    ensures
        mod_pow((a * b) % p, k, p) == (mod_pow(a, k, p) * mod_pow(b, k, p)) % p,
{
    let m = p as int;
    lemma_pow_mod_noop((a * b) as int, k, m);
    lemma_pow_distributes(a as int, b as int, k);
    lemma_mul_mod_noop(pow(a as int, k), pow(b as int, k), m);
}

/// Cancellation modulo a prime: a common factor that the prime does not
/// divide can be dropped from both sides of a congruence.
pub proof fn lemma_cancel_mod_prime(p: nat, c: int, a: int, b: int)
    requires
        is_prime(p),
        c % (p as int) != 0,
        (c * a) % (p as int) == (c * b) % (p as int),
    ensures
        a % (p as int) == b % (p as int),
{
    let m = p as int;
    lemma_mod_equivalence(c * a, c * b, m);
    assert(c * a - c * b == c * (a - b)) by (nonlinear_arith);
    lemma_euclid(p, c, a - b);
    lemma_mod_equivalence(a, b, m);
}

/// A prime that divides a prime is that prime.
pub proof fn lemma_prime_divides_prime(q: nat, d: nat)
    requires
        is_prime(q),
        is_prime(d),
        d % q == 0,
    ensures
        q == d,
{
    if q > d {
        lemma_small_mod(d, q);
    }
}

/// Every number from two upwards has a prime divisor.
pub proof fn lemma_prime_divisor(m: nat) -> (q: nat)
    requires
        m >= 2,
    ensures
        is_prime(q),
        m % q == 0,
        q <= m,
    decreases m,
{
    if is_prime(m) {
        lemma_mod_self_0(m as int);
        m
    } else {
        let d = choose|d: nat| 1 < d < m && #[trigger] (m % d) == 0;
        let q = lemma_prime_divisor(d);
        lemma_divides_transitive(q as int, d as int, m as int);
        q
    }
}

} // verus!
