//! The greatest common divisor, Bézout's identity, and what follows for
//! numbers without a common factor.

use crate::primes::{lemma_mod_zero_multiple, lemma_multiple_mod};
use vstd::arithmetic::div_mod::*;
use vstd::prelude::*;

verus! {

/// The greatest common divisor, by repeated subtraction.
pub open spec fn gcd(a: nat, b: nat) -> nat
    decreases a + b,
{
    if a == 0 {
        b
    } else if b == 0 {
        a
    } else if a >= b {
        gcd((a - b) as nat, b)
    } else {
        gcd(a, (b - a) as nat)
    }
}

/// The two numbers have no common divisor above one.
pub open spec fn coprime(a: nat, b: nat) -> bool {
    gcd(a, b) == 1
}

/// The greatest common divisor of two numbers, not both zero, is positive
/// and divides both.
pub proof fn lemma_gcd_divides(a: nat, b: nat)
    requires
        a > 0 || b > 0,
    ensures
        gcd(a, b) > 0,
        a % gcd(a, b) == 0,
        b % gcd(a, b) == 0,
    decreases a + b,
{
    if a == 0 {
        lemma_mod_self_0(b as int);
        lemma_small_mod(0, b);
    } else if b == 0 {
        lemma_mod_self_0(a as int);
        lemma_small_mod(0, a);
    } else if a >= b {
        let c = (a - b) as nat;
        lemma_gcd_divides(c, b);
        lemma_mod_adds(c as int, b as int, gcd(c, b) as int);
    } else {
        let c = (b - a) as nat;
        lemma_gcd_divides(a, c);
        lemma_mod_adds(a as int, c as int, gcd(a, c) as int);
    }
}

/// Bézout's identity: the greatest common divisor is an integer
/// combination of the two numbers.
pub proof fn lemma_bezout(a: nat, b: nat) -> (c: (int, int))
    ensures
        a * c.0 + b * c.1 == gcd(a, b),
    decreases a + b,
{
    if a == 0 {
        (0, 1)
    } else if b == 0 {
        (1, 0)
    } else if a >= b {
        let (x, y) = lemma_bezout((a - b) as nat, b);
        assert((a - b) * x + b * y == a * x + b * (y - x)) by (nonlinear_arith);
        (x, y - x)
    } else {
        let (x, y) = lemma_bezout(a, (b - a) as nat);
        assert(a * x + (b - a) * y == a * (x - y) + b * y) by (nonlinear_arith);
        (x - y, y)
    }
}

/// A number that divides a product and has no factor in common with one
/// of the two factors divides the other.
pub proof fn lemma_coprime_cancel(r: nat, s: nat, k: nat)
    requires
        r > 0,
        coprime(r, s) || coprime(s, r),
        (k * s) % r == 0,
    ensures
        k % r == 0,
{
    let (x, y) = if coprime(r, s) {
        lemma_bezout(r, s)
    } else {
        let (u, v) = lemma_bezout(s, r);
        (v, u)
    };
    assert(r * x + s * y == 1);
    lemma_mod_zero_multiple((k * s) as int, r as int);
    let t = (k * s) as int / (r as int);
    assert(k == (k * x + t * y) * r) by (nonlinear_arith)
        requires
            r * x + s * y == 1,
            k * s == r * t,
    ;
    lemma_multiple_mod(k * x + t * y, r as int);
}

/// A number divisible by each of two numbers without a common factor is
/// divisible by their product.
pub proof fn lemma_coprime_product(r: nat, s: nat, k: nat)
    requires
        r > 0,
        s > 0,
        coprime(r, s),
        k % r == 0,
        k % s == 0,
    ensures
        k % (r * s) == 0,
{
    lemma_mod_zero_multiple(k as int, r as int);
    let h = k / r;
    assert(h * r == k) by (nonlinear_arith)
        requires
            k == r * h,
    ;
    lemma_coprime_cancel(s, r, h);
    lemma_mod_zero_multiple(h as int, s as int);
    let j = h / s;
    assert(k == j * (r * s)) by (nonlinear_arith)
        requires
            k == r * h,
            h == s * j,
    ;
    assert(r * s > 0) by (nonlinear_arith)
        requires
            r > 0,
            s > 0,
    ;
    lemma_multiple_mod(j as int, (r * s) as int);
}

} // verus!
