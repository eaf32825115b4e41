//! Generators of the multiplicative group modulo `p`, and the criterion
//! that decides whether an element is one from the prime factors of
//! `p - 1`.

use crate::gcd::gcd;
use crate::primes::{is_prime, lemma_mod_zero_multiple, lemma_multiple_mod, lemma_prime_divisor,
    mod_pow};
use vstd::arithmetic::div_mod::*;
use vstd::arithmetic::power::*;
use vstd::prelude::*;
use vstd::relations::injective_on;
use vstd::set_lib::{lemma_int_range, lemma_map_size, lemma_subset_equality, set_int_range};

verus! {

/// `g` has multiplicative order exactly `p - 1` modulo `p`: its
/// `(p - 1)`-th power is one and no smaller positive power is.
pub open spec fn is_generator(g: nat, p: nat) -> bool {
    &&& p >= 2
    &&& mod_pow(g, (p - 1) as nat, p) == 1
    &&& forall|e: nat| 0 < e < p - 1 ==> #[trigger] mod_pow(g, e, p) != 1
}

/// The test that needs only the prime factors of `p - 1`: the
/// `(p - 1)`-th power of `g` is one, and for no prime `q` dividing
/// `p - 1` is the `((p - 1) / q)`-th power one.
pub open spec fn passes_factor_test(g: nat, p: nat) -> bool {
    &&& p >= 2
    &&& mod_pow(g, (p - 1) as nat, p) == 1
    &&& forall|q: nat| #[trigger]
        is_prime(q) && (p - 1) % (q as int) == 0 ==> mod_pow(g, ((p - 1) / (q as int)) as nat, p)
            != 1
}

/// If two powers of `g` are one, so is the power with the sum of their
/// exponents.
pub proof fn lemma_unit_power_add(g: nat, p: nat, a: nat, b: nat)
    requires
        p >= 2,
        mod_pow(g, a, p) == 1,
        mod_pow(g, b, p) == 1,
    ensures
        mod_pow(g, a + b, p) == 1,
{
    lemma_pow_adds(g as int, a, b);
    lemma_mul_mod_noop(pow(g as int, a), pow(g as int, b), p as int);
    lemma_small_mod(1, p);
}

/// If the powers of `g` with exponents `a + b` and `b` are one, so is the
/// power with exponent `a`.
pub proof fn lemma_unit_power_sub(g: nat, p: nat, a: nat, b: nat)
    requires
        p >= 2,
        mod_pow(g, a + b, p) == 1,
        mod_pow(g, b, p) == 1,
    ensures
        mod_pow(g, a, p) == 1,
{
    lemma_pow_adds(g as int, a, b);
    lemma_mul_mod_noop(pow(g as int, a), pow(g as int, b), p as int);
    let x = pow(g as int, a) % (p as int);
    assert(x * 1 == x) by (nonlinear_arith);
    lemma_mod_twice(pow(g as int, a), p as int);
}

/// If a power of `g` is one, so is every power whose exponent is a
/// multiple of that exponent.
pub proof fn lemma_unit_power_multiple(g: nat, p: nat, a: nat, k: nat)
    requires
        p >= 2,
        mod_pow(g, a, p) == 1,
    ensures
        mod_pow(g, a * k, p) == 1,
    decreases k,
{
    if k == 0 {
        assert(a * k == 0) by (nonlinear_arith)
            requires
                k == 0,
        ;
        lemma_pow0(g as int);
        lemma_small_mod(1, p);
    } else {
        lemma_unit_power_multiple(g, p, a, (k - 1) as nat);
        assert(a * k == a * (k - 1) + a) by (nonlinear_arith);
        lemma_unit_power_add(g, p, a * ((k - 1) as nat), a);
    }
}

/// If two positive powers of `g` are one, so is the power whose exponent
/// is the greatest common divisor of their exponents, and that exponent
/// divides both.
pub proof fn lemma_unit_power_gcd(g: nat, p: nat, a: nat, b: nat)
    requires
        p >= 2,
        a > 0,
        b > 0,
        mod_pow(g, a, p) == 1,
        mod_pow(g, b, p) == 1,
    ensures
        gcd(a, b) > 0,
        a % gcd(a, b) == 0,
        b % gcd(a, b) == 0,
        mod_pow(g, gcd(a, b), p) == 1,
    decreases a + b,
{
    if a == b {
        assert(gcd(a, b) == gcd(0, b));
        lemma_mod_self_0(a as int);
    } else if a > b {
        let c = (a - b) as nat;
        lemma_unit_power_sub(g, p, c, b);
        lemma_unit_power_gcd(g, p, c, b);
        let d = gcd(c, b);
        lemma_mod_adds(c as int, b as int, d as int);
    } else {
        let c = (b - a) as nat;
        lemma_unit_power_sub(g, p, c, a);
        lemma_unit_power_gcd(g, p, a, c);
        let d = gcd(a, c);
        lemma_mod_adds(a as int, c as int, d as int);
    }
}

/// The factor test decides generators exactly.
pub proof fn lemma_factor_test_decides(g: nat, p: nat)
    ensures
        passes_factor_test(g, p) <==> is_generator(g, p),
{
    if p >= 2 && mod_pow(g, (p - 1) as nat, p) == 1 {
        let n = (p - 1) as nat;
        if is_generator(g, p) {
            assert forall|q: nat| #[trigger] is_prime(q) && n % q == 0 implies mod_pow(
                g,
                n / q,
                p,
            ) != 1 by {
                lemma_mod_zero_multiple(n as int, q as int);
                let e = n / q;
                assert(0 < e < n) by (nonlinear_arith)
                    requires
                        n == q * e,
                        q >= 2,
                        n >= 1,
                ;
            }
        }
        if passes_factor_test(g, p) {
            assert forall|e: nat| 0 < e < n implies #[trigger] mod_pow(g, e, p) != 1 by {
                if mod_pow(g, e, p) == 1 {
                    lemma_unit_power_gcd(g, p, e, n);
                    let d = gcd(e, n);
                    lemma_mod_zero_multiple(e as int, d as int);
                    lemma_mod_zero_multiple(n as int, d as int);
                    let m = n / d;
                    assert(d <= e && m >= 2) by (nonlinear_arith)
                        requires
                            e == d * (e / d),
                            n == d * m,
                            0 < e < n,
                            d > 0,
                    ;
                    let q = lemma_prime_divisor(m);
                    lemma_mod_zero_multiple(m as int, q as int);
                    let t = m / q;
                    assert(n == q * (d * t)) by (nonlinear_arith)
                        requires
                            n == d * m,
                            m == q * t,
                    ;
                    lemma_multiple_mod((d * t) as int, q as int);
                    lemma_div_multiples_vanish((d * t) as int, q as int);
                    assert(n / q == d * t);
                    lemma_unit_power_multiple(g, p, d, t);
                    assert(is_prime(q) && n % q == 0);
                }
            }
        }
    }
}

/// The map that sends an exponent to the residue of that power of `g`.
spec fn power_residue(g: nat, p: nat) -> spec_fn(int) -> int {
    |i: int| pow(g as int, i as nat) % (p as int)
}

/// The powers of a generator with exponents from one to `p - 1` are
/// non-zero residues.
proof fn lemma_generator_power_nonzero(g: nat, p: nat, i: nat)
    requires
        is_generator(g, p),
        1 <= i <= p - 1,
    ensures
        1 <= power_residue(g, p)(i as int) < p,
{
    let m = p as int;
    let rest = (p - 1 - i) as nat;
    lemma_mod_bound(pow(g as int, i), m);
    lemma_pow_adds(g as int, i, rest);
    lemma_mul_mod_noop_left(pow(g as int, i), pow(g as int, rest), m);
    if pow(g as int, i) % m == 0 {
        assert(0 * pow(g as int, rest) == 0) by (nonlinear_arith);
        lemma_small_mod(0, p);
    }
}

/// The powers of a generator with exponents from one to `p - 1` are
/// pairwise different modulo `p`.
proof fn lemma_generator_powers_distinct(g: nat, p: nat, i: nat, j: nat)
    requires
        is_generator(g, p),
        1 <= i < j <= p - 1,
    ensures
        power_residue(g, p)(i as int) != power_residue(g, p)(j as int),
{
    let m = p as int;
    let n = (p - 1) as nat;
    let up = (n - i) as nat;
    let gap = (j - i) as nat;
    let lift = pow(g as int, up);
    if pow(g as int, i) % m == pow(g as int, j) % m {
        lemma_mul_mod_noop_right(lift, pow(g as int, i), m);
        lemma_mul_mod_noop_right(lift, pow(g as int, j), m);
        lemma_pow_adds(g as int, up, i);
        lemma_pow_adds(g as int, up, j);
        assert(up + j == n + gap);
        lemma_pow_adds(g as int, n, gap);
        lemma_mul_mod_noop_left(pow(g as int, n), pow(g as int, gap), m);
        let r = pow(g as int, gap) % m;
        assert(1 * pow(g as int, gap) == pow(g as int, gap));
        assert(mod_pow(g, gap, p) == 1);
    }
}

/// Lucas's criterion: a modulus that has a generator is prime.
pub proof fn lemma_generator_implies_prime(g: nat, p: nat)
    requires
        is_generator(g, p),
    ensures
        is_prime(p),
{
    let m = p as int;
    let n = (p - 1) as nat;
    let u = set_int_range(1, m);
    let f = power_residue(g, p);
    lemma_int_range(1, m);
    assert(injective_on(f, u)) by {
        assert forall|x1: int, x2: int|
            u.contains(x1) && u.contains(x2) && #[trigger] f(x1) == #[trigger] f(
                x2,
            ) implies x1 == x2 by {
            if x1 < x2 {
                lemma_generator_powers_distinct(g, p, x1 as nat, x2 as nat);
            } else if x2 < x1 {
                lemma_generator_powers_distinct(g, p, x2 as nat, x1 as nat);
            }
        }
    }
    lemma_map_size(u, u.map(f), f);
    assert(u.map(f).subset_of(u)) by {
        assert forall|r: int| u.map(f).contains(r) implies u.contains(r) by {
            let i = choose|i: int| u.contains(i) && r == f(i);
            lemma_generator_power_nonzero(g, p, i as nat);
        }
    }
    lemma_subset_equality(u.map(f), u);
    assert forall|d: nat| 1 < d < p implies #[trigger] (p % d) != 0 by {
        if p % d == 0 {
            assert(u.map(f).contains(d as int));
            let i = choose|i: int| u.contains(i) && d as int == f(i);
            let rest = (n - i) as nat;
            let t = pow(g as int, rest);
            lemma_pow_adds(g as int, i as nat, rest);
            lemma_mul_mod_noop_left(pow(g as int, i as nat), t, m);
            assert((d * t) % m == 1);
            lemma_fundamental_div_mod(d * t, m);
            lemma_mod_zero_multiple(m, d as int);
            let c = (d * t) / m;
            let e = m / (d as int);
            assert(false) by (nonlinear_arith)
                requires
                    d * t == m * c + 1,
                    m == d * e,
                    d > 1,
            {
                assert(d * (t - e * c) == 1);
            }
        }
    }
}

} // verus!
