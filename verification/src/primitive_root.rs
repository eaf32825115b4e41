//! Every prime has a primitive root: an element of its multiplicative
//! group whose order is the whole group.
//!
//! For each prime power dividing `p - 1` an element of that order is
//! found from a unit that is not a root of a polynomial with too few
//! roots, and elements of coprime orders are multiplied together.

use crate::fermat::lemma_fermat_little;
use crate::gcd::{coprime, gcd, lemma_coprime_cancel, lemma_coprime_product, lemma_gcd_divides};
use crate::order::{is_generator, lemma_unit_power_gcd, lemma_unit_power_multiple};
use crate::polynomial::{lemma_power_minus_one, lemma_root_bound, poly_eval, power_minus_one};
use crate::primes::{
    is_prime, lemma_divides_transitive, lemma_euclid, lemma_mod_pow_pow, lemma_mod_pow_product,
    lemma_mod_zero_multiple, lemma_multiple_mod, lemma_pow_coprime, lemma_prime_divides_prime,
    lemma_prime_divisor, mod_pow,
};
use vstd::arithmetic::div_mod::*;
use vstd::arithmetic::power::*;
use vstd::prelude::*;
use vstd::set_lib::{lemma_int_range, set_int_range};

verus! {

/// `g` has multiplicative order `d` modulo `p`: its `d`-th power is one
/// and no smaller positive power is.
pub open spec fn has_order(g: nat, d: nat, p: nat) -> bool {
    &&& d > 0
    &&& mod_pow(g, d, p) == 1
    &&& forall|e: nat| 0 < e < d ==> #[trigger] mod_pow(g, e, p) != 1
}

/// How many times the prime `q` divides `m`.
spec fn multiplicity(q: nat, m: nat) -> nat
    decreases m,
    when q >= 2
    via multiplicity_decreases
{
    if m > 0 && m % q == 0 {
        1 + multiplicity(q, m / q)
    } else {
        0
    }
}

#[via_fn]
proof fn multiplicity_decreases(q: nat, m: nat) {
    if m > 0 && m % q == 0 {
        lemma_div_decreases(m as int, q as int);
    }
}

/// What is left of `m` when every factor `q` is divided out.
spec fn cofactor(q: nat, m: nat) -> nat
    decreases m,
    when q >= 2
    via cofactor_decreases
{
    if m > 0 && m % q == 0 {
        cofactor(q, m / q)
    } else {
        m
    }
}

#[via_fn]
proof fn cofactor_decreases(q: nat, m: nat) {
    if m > 0 && m % q == 0 {
        lemma_div_decreases(m as int, q as int);
    }
}

/// A positive number is a power of `q` times a cofactor that `q` does not
/// divide.
proof fn lemma_prime_power_split(q: nat, m: nat)
    requires
        q >= 2,
        m > 0,
    ensures
        m == pow(q as int, multiplicity(q, m)) * cofactor(q, m),
        cofactor(q, m) > 0,
        cofactor(q, m) % q != 0,
        m % q == 0 ==> multiplicity(q, m) >= 1 && cofactor(q, m) < m,
    decreases m,
{
    reveal(pow);
    if m % q == 0 {
        let h = m / q;
        lemma_mod_zero_multiple(m as int, q as int);
        lemma_div_decreases(m as int, q as int);
        assert(h > 0) by (nonlinear_arith)
            requires
                m == q * h,
                m > 0,
                h >= 0,
        ;
        lemma_prime_power_split(q, h);
        let w = pow(q as int, multiplicity(q, h));
        assert((q * w) * cofactor(q, h) == q * (w * cofactor(q, h))) by (nonlinear_arith);
    } else {
        assert(1 * m == m);
    }
}

/// The order of an element divides every positive exponent whose power
/// is one.
pub proof fn lemma_order_divides(g: nat, d: nat, k: nat, p: nat)
    requires
        p >= 2,
        has_order(g, d, p),
        k > 0,
        mod_pow(g, k, p) == 1,
    ensures
        k % d == 0,
{
    lemma_unit_power_gcd(g, p, d, k);
    let c = gcd(d, k);
    lemma_mod_zero_multiple(d as int, c as int);
    assert(c <= d) by (nonlinear_arith)
        requires
            d == c * (d / c),
            d > 0,
            c > 0,
            d / c >= 0,
    ;
}

/// A prime that divides a power of a prime is that prime.
proof fn lemma_prime_divides_power(t: nat, q: nat, e: nat)
    requires
        is_prime(t),
        is_prime(q),
        pow(q as int, e) % (t as int) == 0,
    ensures
        t == q,
    decreases e,
{
    reveal(pow);
    if e == 0 {
        lemma_small_mod(1, t);
    } else {
        lemma_euclid(t, q as int, pow(q as int, (e - 1) as nat));
        if (q as int) % (t as int) == 0 {
            lemma_prime_divides_prime(t, q);
        } else {
            lemma_prime_divides_power(t, q, (e - 1) as nat);
        }
    }
}

/// A number that a prime does not divide has no factor in common with
/// any power of that prime.
proof fn lemma_coprime_to_prime_power(r: nat, q: nat, e: nat)
    requires
        is_prime(q),
        r > 0,
        r % q != 0,
    ensures
        pow(q as int, e) > 0,
        coprime(r, pow(q as int, e) as nat),
{
    lemma_pow_positive(q as int, e);
    let w = pow(q as int, e) as nat;
    lemma_gcd_divides(r, w);
    let d = gcd(r, w);
    if d >= 2 {
        let t = lemma_prime_divisor(d);
        lemma_divides_transitive(t as int, d as int, w as int);
        lemma_prime_divides_power(t, q, e);
        lemma_divides_transitive(t as int, d as int, r as int);
    }
}

/// A proper divisor of a prime power divides the next smaller power.
proof fn lemma_proper_divisor_of_prime_power(q: nat, e: nat, d: nat)
    requires
        is_prime(q),
        e >= 1,
        d > 0,
        pow(q as int, e) % (d as int) == 0,
        d < pow(q as int, e),
    ensures
        pow(q as int, (e - 1) as nat) % (d as int) == 0,
    decreases e,
{
    reveal(pow);
    let w = pow(q as int, e);
    let v = pow(q as int, (e - 1) as nat);
    lemma_pow_positive(q as int, (e - 1) as nat);
    assert(w == q * v);
    if d % q != 0 {
        lemma_coprime_to_prime_power(d, q, 1);
        lemma_pow1(q as int);
        assert(v * q == q * v) by (nonlinear_arith);
        lemma_coprime_cancel(d, q, v as nat);
    } else {
        lemma_mod_zero_multiple(d as int, q as int);
        lemma_mod_zero_multiple(w, d as int);
        let h = d / q;
        let c = w / (d as int);
        assert(v == h * c && 0 < h < v) by (nonlinear_arith)
            requires
                d == q * h,
                w == d * c,
                w == q * v,
                q >= 2,
                d > 0,
                d < w,
                v > 0,
        ;
        lemma_multiple_mod(c, h as int);
        if e == 1 {
            assert(v == 1);
        } else {
            lemma_proper_divisor_of_prime_power(q, (e - 1) as nat, h);
            let u = pow(q as int, (e - 2) as nat);
            lemma_mod_zero_multiple(u, h as int);
            let j = u / (h as int);
            assert(v == q * u);
            assert(v == j * d) by (nonlinear_arith)
                requires
                    v == q * u,
                    u == h * j,
                    d == q * h,
            ;
            lemma_multiple_mod(j, d as int);
        }
    }
}

/// An element whose `q^e`-th power is one and whose `q^(e-1)`-th power is
/// not has order exactly `q^e`.
proof fn lemma_prime_power_order(p: nat, b: nat, q: nat, e: nat)
    requires
        p >= 2,
        is_prime(q),
        e >= 1,
        mod_pow(b, pow(q as int, e) as nat, p) == 1,
        mod_pow(b, pow(q as int, (e - 1) as nat) as nat, p) != 1,
    ensures
        pow(q as int, e) > 0,
        has_order(b, pow(q as int, e) as nat, p),
{
    lemma_pow_positive(q as int, e);
    lemma_pow_positive(q as int, (e - 1) as nat);
    let w = pow(q as int, e) as nat;
    let v = pow(q as int, (e - 1) as nat) as nat;
    assert forall|t: nat| 0 < t < w implies #[trigger] mod_pow(b, t, p) != 1 by {
        if mod_pow(b, t, p) == 1 {
            lemma_unit_power_gcd(b, p, t, w);
            let d = gcd(t, w);
            lemma_mod_zero_multiple(t as int, d as int);
            assert(d <= t) by (nonlinear_arith)
                requires
                    t == d * (t / d),
                    t > 0,
                    d > 0,
                    t / d >= 0,
            ;
            lemma_proper_divisor_of_prime_power(q, e, d);
            lemma_mod_zero_multiple(v as int, d as int);
            lemma_unit_power_multiple(b, p, d, v / d);
        }
    }
}

/// Below `p - 1` no exponent sends every unit to one: some unit has a
/// `k`-th power other than one.
proof fn lemma_unit_not_root(p: nat, k: nat) -> (a: nat)
    requires
        is_prime(p),
        1 <= k < p - 1,
    ensures
        1 <= a < p,
        mod_pow(a, k, p) != 1,
{
    let m = p as int;
    let u = set_int_range(1, m);
    lemma_int_range(1, m);
    let is_root = |x: int| pow(x, k) % m == 1;
    let roots = u.filter(is_root);
    u.lemma_len_filter(is_root);
    let c = power_minus_one(k);
    lemma_small_mod(1, p);
    assert forall|x: int| roots.contains(x) implies 0 <= x < p && poly_eval(c, x) % m == 0 by {
        lemma_power_minus_one(k, x);
        lemma_mod_equivalence(pow(x, k), 1, m);
    }
    lemma_root_bound(p, c, roots);
    if forall|x: int| u.contains(x) ==> roots.contains(x) {
        assert(roots =~= u);
    }
    let a = choose|x: int| u.contains(x) && !roots.contains(x);
    a as nat
}

/// For each prime power `q^e` dividing `p - 1` there is a unit of order
/// `q^e`.
proof fn lemma_prime_power_element(p: nat, q: nat, e: nat) -> (b: nat)
    requires
        is_prime(p),
        is_prime(q),
        e >= 1,
        (p - 1) % pow(q as int, e) == 0,
    ensures
        pow(q as int, e) > 0,
        1 <= b < p,
        has_order(b, pow(q as int, e) as nat, p),
{
    reveal(pow);
    lemma_pow_positive(q as int, e);
    lemma_pow_positive(q as int, (e - 1) as nat);
    let n = (p - 1) as nat;
    let w = pow(q as int, e) as nat;
    let v = pow(q as int, (e - 1) as nat) as nat;
    assert(w == q * v);
    lemma_mod_zero_multiple(n as int, w as int);
    let c = n / w;
    let k = v * c;
    assert(1 <= k < n && n == c * w && k == c * v) by (nonlinear_arith)
        requires
            n == w * c,
            w == q * v,
            k == v * c,
            q >= 2,
            v > 0,
            n >= 1,
            c >= 0,
    ;
    let a = lemma_unit_not_root(p, k);
    lemma_small_mod(a, p);
    let b = mod_pow(a, c, p);
    lemma_pow_coprime(p, a as int, c);
    lemma_mod_bound(pow(a as int, c), p as int);
    lemma_mod_pow_pow(a, c, w, p);
    lemma_mod_pow_pow(a, c, v, p);
    lemma_fermat_little(p, a as int);
    lemma_prime_power_order(p, b, q, e);
    b
}

/// The product of two elements whose orders have no common factor has
/// the product of the orders as its order.
proof fn lemma_coprime_orders_multiply(p: nat, a: nat, r: nat, b: nat, s: nat)
    requires
        p >= 2,
        has_order(a, r, p),
        has_order(b, s, p),
        coprime(r, s),
    ensures
        has_order((a * b) % p, r * s, p),
{
    let g = (a * b) % p;
    lemma_small_mod(1, p);
    assert(r * s > 0 && r * s == s * r) by (nonlinear_arith)
        requires
            r > 0,
            s > 0,
    ;
    assert(mod_pow(g, r * s, p) == 1) by {
        lemma_mod_pow_product(a, b, r * s, p);
        lemma_unit_power_multiple(a, p, r, s);
        lemma_unit_power_multiple(b, p, s, r);
    }
    assert forall|k: nat| 0 < k < r * s implies #[trigger] mod_pow(g, k, p) != 1 by {
        if mod_pow(g, k, p) == 1 {
            assert(k * s > 0 && k * r > 0 && k * s == s * k && k * r == r * k)
                by (nonlinear_arith)
                requires
                    k > 0,
                    r > 0,
                    s > 0,
            ;
            lemma_mod_bound(pow(a as int, k * s), p as int);
            lemma_mod_bound(pow(b as int, k * r), p as int);
            lemma_unit_power_multiple(g, p, k, s);
            lemma_mod_pow_product(a, b, k * s, p);
            lemma_unit_power_multiple(b, p, s, k);
            let x = mod_pow(a, k * s, p);
            assert(x * 1 == x);
            lemma_small_mod(x, p);
            lemma_order_divides(a, r, k * s, p);
            lemma_coprime_cancel(r, s, k);
            lemma_unit_power_multiple(g, p, k, r);
            lemma_mod_pow_product(a, b, k * r, p);
            lemma_unit_power_multiple(a, p, r, k);
            let y = mod_pow(b, k * r, p);
            assert(1 * y == y);
            lemma_small_mod(y, p);
            lemma_order_divides(b, s, k * r, p);
            lemma_coprime_cancel(s, r, k);
            lemma_coprime_product(r, s, k);
            lemma_small_mod(k, r * s);
        }
    }
}

/// For every divisor `m` of `p - 1` there is a unit of order `m`.
pub proof fn lemma_element_of_order(p: nat, m: nat) -> (g: nat)
    requires
        is_prime(p),
        m >= 1,
        (p - 1) % (m as int) == 0,
    ensures
        1 <= g < p,
        has_order(g, m, p),
    decreases m,
{
    if m == 1 {
        lemma_pow1(1);
        lemma_small_mod(1, p);
        1
    } else {
        let q = lemma_prime_divisor(m);
        lemma_prime_power_split(q, m);
        let e = multiplicity(q, m);
        let c = cofactor(q, m);
        lemma_pow_positive(q as int, e);
        let w = pow(q as int, e) as nat;
        assert(m == c * w) by (nonlinear_arith)
            requires
                m == w * c,
        ;
        lemma_multiple_mod(c as int, w as int);
        lemma_multiple_mod(w as int, c as int);
        lemma_divides_transitive(c as int, m as int, p - 1);
        lemma_divides_transitive(w as int, m as int, p - 1);
        let h = lemma_element_of_order(p, c);
        let b = lemma_prime_power_element(p, q, e);
        lemma_coprime_to_prime_power(c, q, e);
        lemma_coprime_orders_multiply(p, h, c, b, w);
        let g = (h * b) % p;
        lemma_mod_bound((h * b) as int, p as int);
        if g == 0 {
            lemma0_pow(m);
            lemma_small_mod(0, p);
        }
        g
    }
}

/// Every prime has a generator of its multiplicative group.
pub proof fn lemma_prime_has_generator(p: nat) -> (g: nat)
    requires
        is_prime(p),
    ensures
        1 <= g < p,
        is_generator(g, p),
{
    lemma_mod_self_0(p - 1);
    lemma_element_of_order(p, (p - 1) as nat)
}

} // verus!
