//! Fermat's little theorem, by the rearrangement argument: multiplying the
//! non-zero residues of a prime by a unit only permutes them, so their
//! product is unchanged.

use crate::primes::{is_prime, lemma_cancel_mod_prime, lemma_euclid};
use vstd::arithmetic::div_mod::*;
use vstd::arithmetic::power::*;
use vstd::prelude::*;
use vstd::relations::*;
use vstd::set_lib::*;

verus! {

/// Multiplication as a folding step.
spec fn times() -> spec_fn(int, int) -> int {
    |acc: int, x: int| acc * x
}

/// The product of the members of a finite set of integers.
spec fn set_product(s: Set<int>) -> int {
    s.fold(1int, times())
}

/// The map that sends a residue `i` to `a * i` reduced modulo `p`.
spec fn scale_by(a: int, p: int) -> spec_fn(int) -> int {
    |i: int| (a * i) % p
}

/// The non-zero residues of `p`.
spec fn units(p: int) -> Set<int> {
    set_int_range(1, p)
}

proof fn lemma_times_commutative()
    ensures
        vstd::set::fold::is_fun_commutative(times()),
{
    assert forall|a1: int, a2: int, b: int|
        #[trigger] times()(times()(b, a2), a1) == times()(times()(b, a1), a2) by {
        assert((b * a2) * a1 == (b * a1) * a2) by (nonlinear_arith);
    }
}

proof fn lemma_product_empty()
    ensures
        set_product(Set::<int>::empty()) == 1,
{
    lemma_times_commutative();
    vstd::set::fold::lemma_fold_empty(1int, times());
}

proof fn lemma_product_insert(s: Set<int>, x: int)
    requires
        s.finite(),
        !s.contains(x),
    ensures
        set_product(s.insert(x)) == set_product(s) * x,
{
    lemma_times_commutative();
    vstd::set::fold::lemma_fold_insert(s, 1int, times(), x);
}

proof fn lemma_scale_in_units(p: nat, a: int, i: int)
    requires
        is_prime(p),
        a % (p as int) != 0,
        units(p as int).contains(i),
    ensures
        units(p as int).contains(scale_by(a, p as int)(i)),
{
    let m = p as int;
    lemma_mod_bound(a * i, m);
    lemma_small_mod(i as nat, p);
    if (a * i) % m == 0 {
        lemma_euclid(p, a, i);
    }
}

proof fn lemma_scale_injective(p: nat, a: int)
    requires
        is_prime(p),
        a % (p as int) != 0,
    ensures
        injective_on(scale_by(a, p as int), units(p as int)),
{
    let m = p as int;
    let f = scale_by(a, m);
    assert forall|x1: int, x2: int|
        units(m).contains(x1) && units(m).contains(x2) && #[trigger] f(x1) == #[trigger] f(
            x2,
        ) implies x1 == x2 by {
        lemma_cancel_mod_prime(p, a, x1, x2);
        lemma_small_mod(x1 as nat, p);
        lemma_small_mod(x2 as nat, p);
    }
}

/// Scaling a set of units multiplies its product by one factor of `a` for
/// each member, modulo `p`.
proof fn lemma_scaled_product(p: nat, a: int, t: Set<int>)
    requires
        is_prime(p),
        a % (p as int) != 0,
        t.finite(),
        t.subset_of(units(p as int)),
    ensures
        t.map(scale_by(a, p as int)).finite(),
        set_product(t.map(scale_by(a, p as int))) % (p as int) == (pow(a, t.len()) * set_product(
            t,
        )) % (p as int),
    decreases t.len(),
{
    let m = p as int;
    let f = scale_by(a, m);
    if t.len() == 0 {
        assert(t =~= Set::<int>::empty());
        assert(t.map(f) =~= Set::<int>::empty());
        lemma_product_empty();
        reveal(pow);
        assert(pow(a, 0) * 1 == 1);
    } else {
        let x = t.choose();
        let rest = t.remove(x);
        lemma_scaled_product(p, a, rest);
        let img = rest.map(f);
        assert(rest.insert(x) =~= t);
        rest.lemma_set_map_insert_commute(x, f);
        assert(t.map(f) =~= img.insert(f(x)));
        lemma_scale_injective(p, a);
        assert(!img.contains(f(x))) by {
            if img.contains(f(x)) {
                let y = choose|y: int| rest.contains(y) && f(x) == f(y);
                assert(units(m).contains(x) && units(m).contains(y));
            }
        }
        lemma_product_insert(img, f(x));
        lemma_product_insert(rest, x);
        let pi = set_product(img);
        let pr = set_product(rest);
        let k = pow(a, rest.len());
        // pi * f(x) is congruent to (k * pr) * (a * x)
        lemma_mul_mod_noop_general(pi, a * x, m);
        lemma_mul_mod_noop_general(k * pr, a * x, m);
        assert((k * pr) * (a * x) == (k * a) * (pr * x)) by (nonlinear_arith);
        reveal(pow);
        assert(pow(a, t.len()) == a * k);
        assert(a * k == k * a) by (nonlinear_arith);
    }
}

proof fn lemma_units_product_coprime(p: nat, t: Set<int>)
    requires
        is_prime(p),
        t.finite(),
        t.subset_of(units(p as int)),
    ensures
        set_product(t) % (p as int) != 0,
    decreases t.len(),
{
    let m = p as int;
    if t.len() == 0 {
        assert(t =~= Set::<int>::empty());
        lemma_product_empty();
        lemma_small_mod(1, p);
    } else {
        let x = t.choose();
        let rest = t.remove(x);
        lemma_units_product_coprime(p, rest);
        assert(rest.insert(x) =~= t);
        lemma_product_insert(rest, x);
        assert(units(m).contains(x));
        lemma_small_mod(x as nat, p);
        if set_product(t) % m == 0 {
            lemma_euclid(p, set_product(rest), x);
        }
    }
}

/// Fermat's little theorem: for a prime `p` and any `a` that `p` does not
/// divide, `a` raised to `p - 1` leaves remainder one modulo `p`.
pub proof fn lemma_fermat_little(p: nat, a: int)
    requires
        is_prime(p),
        a % (p as int) != 0,
    ensures
        pow(a, (p - 1) as nat) % (p as int) == 1,
{
    let m = p as int;
    let u = units(m);
    let f = scale_by(a, m);
    lemma_int_range(1, m);
    lemma_scale_injective(p, a);
    lemma_scaled_product(p, a, u);
    lemma_map_size(u, u.map(f), f);
    assert(u.map(f).subset_of(u)) by {
        assert forall|j: int| u.map(f).contains(j) implies u.contains(j) by {
            let i = choose|i: int| u.contains(i) && j == f(i);
            lemma_scale_in_units(p, a, i);
        }
    }
    lemma_subset_equality(u.map(f), u);
    assert(u.map(f) == u);
    lemma_units_product_coprime(p, u);
    let c = set_product(u);
    let k = pow(a, (p - 1) as nat);
    assert(c * 1 == c) by (nonlinear_arith);
    assert(c * k == k * c) by (nonlinear_arith);
    lemma_cancel_mod_prime(p, c, 1, k);
    lemma_small_mod(1, p);
}

} // verus!
