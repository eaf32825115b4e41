//! Polynomials with integer coefficients, and the bound on the number of
//! their roots modulo a prime.

use crate::primes::{is_prime, lemma_euclid};
use vstd::arithmetic::div_mod::*;
use vstd::arithmetic::power::*;
use vstd::prelude::*;

verus! {

/// The value at `x` of the polynomial with coefficients `c`, the leading
/// coefficient first.
pub open spec fn poly_eval(c: Seq<int>, x: int) -> int
    decreases c.len(),
{
    if c.len() == 0 {
        0
    } else {
        poly_eval(c.drop_last(), x) * x + c.last()
    }
}

/// The quotient of the polynomial `c` on division by `x - r`: its
/// coefficients are the values at `r` of the leading parts of `c`.
pub open spec fn poly_quotient(c: Seq<int>, r: int) -> Seq<int> {
    Seq::new((c.len() - 1) as nat, |i: int| poly_eval(c.take(i + 1), r))
}

/// The coefficients of `x^k - 1`, for `k` from one upwards.
pub open spec fn power_minus_one(k: nat) -> Seq<int> {
    Seq::new(
        k + 1,
        |i: int|
            if i == 0 {
                1int
            } else if i == k {
                -1int
            } else {
                0int
            },
    )
}

/// A polynomial with one coefficient is that constant.
pub proof fn lemma_poly_constant(c: Seq<int>, x: int)
    requires
        c.len() == 1,
    ensures
        poly_eval(c, x) == c[0],
{
    reveal_with_fuel(poly_eval, 2);
    assert(c.drop_last().len() == 0);
    assert(0 * x == 0) by (nonlinear_arith);
}

/// Division with remainder by `x - r`: the remainder is the value at `r`.
pub proof fn lemma_poly_division(c: Seq<int>, r: int, x: int)
    requires
        c.len() >= 1,
    ensures
        poly_eval(c, x) == (x - r) * poly_eval(poly_quotient(c, r), x) + poly_eval(c, r),
    decreases c.len(),
{
    let q = poly_quotient(c, r);
    if c.len() == 1 {
        lemma_poly_constant(c, x);
        lemma_poly_constant(c, r);
        assert(q.len() == 0);
        assert((x - r) * 0 == 0) by (nonlinear_arith);
    } else {
        let front = c.drop_last();
        let qf = poly_quotient(front, r);
        lemma_poly_division(front, r, x);
        assert(q.drop_last() =~= qf) by {
            assert forall|i: int| 0 <= i < qf.len() implies q.drop_last()[i] == qf[i] by {
                assert(c.take(i + 1) =~= front.take(i + 1));
            }
        }
        assert(q.last() == poly_eval(front, r)) by {
            assert(c.take(c.len() - 1) =~= front);
        }
        let a = poly_eval(qf, x);
        let v = poly_eval(front, r);
        let t = c.last();
        assert(((x - r) * a + v) * x + t == (x - r) * (a * x + v) + (v * r + t))
            by (nonlinear_arith);
    }
}

/// A polynomial of degree `n` whose leading coefficient a prime `p` does
/// not divide has at most `n` roots modulo `p` among the residues.
pub proof fn lemma_root_bound(p: nat, c: Seq<int>, roots: Set<int>)
    requires
        is_prime(p),
        c.len() >= 1,
        c[0] % (p as int) != 0,
        roots.finite(),
        forall|x: int| roots.contains(x) ==> 0 <= x < p && poly_eval(c, x) % (p as int) == 0,
    ensures
        roots.len() <= c.len() - 1,
    decreases c.len(),
{
    let m = p as int;
    if roots.len() > 0 {
        let r = roots.choose();
        let rest = roots.remove(r);
        if c.len() == 1 {
            lemma_poly_constant(c, r);
        } else {
            let q = poly_quotient(c, r);
            assert(q[0] == c[0]) by {
                lemma_poly_constant(c.take(1), r);
            }
            assert forall|x: int| rest.contains(x) implies 0 <= x < p && poly_eval(q, x) % m
                == 0 by {
                lemma_poly_division(c, r, x);
                let v = poly_eval(q, x);
                lemma_mod_equivalence(poly_eval(c, x), poly_eval(c, r), m);
                assert(((x - r) * v) % m == 0);
                lemma_euclid(p, x - r, v);
                if (x - r) % m == 0 {
                    lemma_mod_equivalence(x, r, m);
                    lemma_small_mod(x as nat, p);
                    lemma_small_mod(r as nat, p);
                }
            }
            lemma_root_bound(p, q, rest);
        }
    }
}

/// The leading part of `x^k - 1` with `j` coefficients has the value
/// `x^(j-1)`.
proof fn lemma_power_prefix(k: nat, j: nat, x: int)
    requires
        1 <= j <= k,
    ensures
        poly_eval(power_minus_one(k).take(j as int), x) == pow(x, (j - 1) as nat),
    decreases j,
{
    let c = power_minus_one(k).take(j as int);
    reveal(pow);
    if j == 1 {
        lemma_poly_constant(c, x);
    } else {
        lemma_power_prefix(k, (j - 1) as nat, x);
        assert(c.drop_last() =~= power_minus_one(k).take(j - 1));
        assert(c.last() == 0);
        assert(pow(x, (j - 1) as nat) == x * pow(x, (j - 2) as nat));
        assert(pow(x, (j - 2) as nat) * x == x * pow(x, (j - 2) as nat)) by (nonlinear_arith);
    }
}

/// The polynomial `x^k - 1` has the value `x^k - 1`.
pub proof fn lemma_power_minus_one(k: nat, x: int)
    requires
        k >= 1,
    ensures
        poly_eval(power_minus_one(k), x) == pow(x, k) - 1,
{
    let c = power_minus_one(k);
    lemma_power_prefix(k, k, x);
    assert(c.drop_last() =~= c.take(k as int));
    reveal(pow);
    assert(pow(x, (k - 1) as nat) * x == x * pow(x, (k - 1) as nat)) by (nonlinear_arith);
}

} // verus!
