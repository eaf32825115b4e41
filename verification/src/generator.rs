//! The group parameter builder: factoring `p - 1` and searching for the
//! least generator of the multiplicative group modulo `p`.

use crate::bignat::{values, BigNat};
use crate::error::ElGamalError;
use crate::fermat::lemma_fermat_little;
use crate::order::{is_generator, lemma_factor_test_decides, lemma_generator_implies_prime};
use crate::prime_generator::{
    is_probable_prime, lemma_prime_is_probable_prime, probable_prime,
};
use crate::primitive_root::lemma_prime_has_generator;
use crate::primes::{
    is_prime, lemma_divides_transitive, lemma_euclid, lemma_mod_zero_multiple, lemma_multiple_mod,
    lemma_prime_divides_prime, mod_pow,
};
use vstd::arithmetic::div_mod::*;
use vstd::arithmetic::power::*;
use vstd::prelude::*;

verus! {

/// The domain parameters the scheme is sound for: a prime modulus and a
/// base strictly between one and the modulus.
pub open spec fn valid_domain(p: nat, g: nat) -> bool {
    is_prime(p) && 1 < g < p
}

/// `fs` lists, in increasing order and without repetition, exactly the
/// primes that divide `n`.
pub open spec fn is_factor_basis(fs: Seq<nat>, n: nat) -> bool {
    &&& forall|i: int| 0 <= i < fs.len() ==> is_prime(#[trigger] fs[i]) && n % fs[i] == 0
    &&& forall|i: int, j: int| 0 <= i < j < fs.len() ==> fs[i] < fs[j]
    &&& forall|q: nat| #[trigger] is_prime(q) && n % q == 0 ==> fs.contains(q)
}

/// `g` is the least generator modulo `p` in the search range `[2, p - 1)`.
pub open spec fn is_least_generator(g: nat, p: nat) -> bool {
    &&& 2 <= g < p - 1
    &&& is_generator(g, p)
    &&& forall|h: nat| 2 <= h < g ==> !is_generator(h, p)
}

/// No element of the search range `[2, p - 1)` is a generator modulo `p`.
pub open spec fn no_generator(p: nat) -> bool {
    forall|h: nat| 2 <= h < p - 1 ==> !is_generator(h, p)
}

/// For valid domain parameters, `g^(p-1) mod p` is one, and `g` is not
/// one.
pub proof fn lemma_domain_base_is_unit(p: nat, g: nat)
    requires
        valid_domain(p, g),
    ensures
        mod_pow(g, (p - 1) as nat, p) == 1,
        g != 1,
{
    lemma_small_mod(g, p);
    lemma_fermat_little(p, g as int);
}

/// A least generator and its modulus are valid domain parameters: the
/// modulus is prime, by Lucas's criterion.
pub proof fn lemma_least_generator_valid(g: nat, p: nat)
    requires
        is_least_generator(g, p),
    ensures
        valid_domain(p, g),
{
    lemma_generator_implies_prime(g, p);
}

/// The search range holds a generator exactly for the primes from five
/// upwards: every prime has a generator, which from five upwards is
/// neither one nor `p - 1`, and only a prime has one.
pub proof fn lemma_generator_exists_iff_prime(p: nat)
    ensures
        no_generator(p) <==> !(is_prime(p) && p >= 5),
{
    if is_prime(p) && p >= 5 {
        let g = lemma_prime_has_generator(p);
        let m = p as int;
        assert(g != 1) by {
            lemma_pow1(1);
            lemma_small_mod(1, p);
            assert(mod_pow(1, 1, p) == 1);
        }
        assert(g != p - 1) by {
            reveal_with_fuel(pow, 3);
            assert(pow(m - 1, 2) == m * (m - 2) + 1) by (nonlinear_arith)
                requires
                    pow(m - 1, 2) == (m - 1) * ((m - 1) * 1),
            ;
            lemma_mod_multiples_vanish(m - 2, 1, m);
            lemma_small_mod(1, p);
            assert(mod_pow((p - 1) as nat, 2, p) == 1);
        }
        assert(2 <= g < p - 1 && is_generator(g, p));
    }
    if !no_generator(p) {
        let h = choose|h: nat| 2 <= h < p - 1 && is_generator(h, p);
        lemma_generator_implies_prime(h, p);
        assert(p != 4) by {
            if p == 4 {
                assert(p % 2 == 0);
            }
        }
    }
}

/// A divisor of a number without small divisors is itself without them,
/// so the least divisor above one is prime.
proof fn lemma_least_divisor_prime(r: nat, d: nat)
    requires
        d >= 2,
        r >= 1,
        r % d == 0,
        forall|k: nat| 2 <= k < d ==> #[trigger] (r % k) != 0,
    ensures
        is_prime(d),
{
    assert forall|k: nat| 1 < k < d implies #[trigger] (d % k) != 0 by {
        if d % k == 0 {
            lemma_divides_transitive(k as int, d as int, r as int);
            assert(r % k == 0);
        }
    }
}

/// A number above one with no divisor from two up to its square root is
/// prime.
proof fn lemma_no_small_divisor_prime(r: nat, d: nat)
    requires
        d >= 2,
        r >= 2,
        d * d > r,
        forall|k: nat| 2 <= k < d ==> #[trigger] (r % k) != 0,
    ensures
        is_prime(r),
{
    assert forall|k: nat| 1 < k < r implies #[trigger] (r % k) != 0 by {
        if r % k == 0 {
            let c = r / k;
            lemma_mod_zero_multiple(r as int, k as int);
            assert(r == k * c);
            if k >= d {
                assert(2 <= c < d) by (nonlinear_arith)
                    requires
                        r == k * c,
                        k >= d,
                        d * d > r,
                        k < r,
                        d >= 2,
                        c >= 0,
                ;
                assert(r == c * k) by (nonlinear_arith)
                    requires
                        r == k * c,
                ;
                lemma_multiple_mod(k as int, c as int);
                assert(r % c == 0);
            }
        }
    }
}

/// Dividing out a prime factor keeps every other prime divisor.
proof fn lemma_strip_factor(r: nat, d: nat, q: nat)
    requires
        is_prime(d),
        is_prime(q),
        r % d == 0,
        r % q == 0,
        q != d,
    ensures
        (r / d) % q == 0,
{
    lemma_mod_zero_multiple(r as int, d as int);
    let c = r / d;
    lemma_euclid(q, d as int, c as int);
    if d % q == 0 {
        lemma_prime_divides_prime(q, d);
    }
}

/// Whether `r` is a prime that fits in 64 bits. A wider number is not
/// examined and gives `false`.
fn is_small_prime(r: &BigNat) -> (known: bool)
    ensures
        known == (r@ <= u64::MAX && is_prime(r@)),
{
    match r.to_u64() {
        Some(_) => {
            let none: Vec<BigNat> = Vec::new();
            is_probable_prime(r, &none)
        },
        None => false,
    }
}

/// The distinct prime factors of `n`, in increasing order, found by trial
/// division. The division stops early once what is left of `n` is a prime
/// that fits in 64 bits.
pub fn prime_factors(n: &BigNat) -> (fs: Vec<BigNat>)
    requires
        n@ >= 1,
    ensures
        is_factor_basis(values(fs@), n@),
{
    let one = BigNat::one();
    let mut fs: Vec<BigNat> = Vec::new();
    let mut r = n.clone();
    let mut d = BigNat::from_u64(2);
    let mut done = is_small_prime(&r);
    proof {
        lemma_mod_self_0(n@ as int);
    }
    while !done && !r.less_than(&d.times(&d))
        invariant
            one@ == 1,
            done ==> is_prime(r@),
            r@ >= 1,
            d@ >= 2,
            n@ % r@ == 0,
            forall|q: nat| #[trigger]
                is_prime(q) && n@ % q == 0 ==> values(fs@).contains(q) || r@ % q == 0,
            forall|k: nat| 2 <= k < d@ ==> #[trigger] (r@ % k) != 0,
            forall|i: int|
                0 <= i < fs@.len() ==> is_prime(#[trigger] values(fs@)[i]) && n@ % values(fs@)[i]
                    == 0 && values(fs@)[i] < d@,
            forall|i: int, j: int| 0 <= i < j < fs@.len() ==> values(fs@)[i] < values(fs@)[j],
        decreases
                (if d@ <= r@ {
                    r@ - d@ + 1
                } else {
                    0
                }),
    {
        let ghost start = r@;
        proof {
            assert(d@ <= r@) by (nonlinear_arith)
                requires
                    d@ * d@ <= r@,
                    d@ >= 2,
            ;
        }
        if r.modulo(&d).is_zero() {
            proof {
                lemma_least_divisor_prime(r@, d@);
                lemma_divides_transitive(d@ as int, r@ as int, n@ as int);
            }
            let ghost before = values(fs@);
            fs.push(d.clone());
            proof {
                let after = values(fs@);
                assert(after =~= before.push(d@));
                assert forall|q: nat| #[trigger]
                    is_prime(q) && n@ % q == 0 implies after.contains(q) || r@ % q == 0 by {
                    if before.contains(q) {
                        let i = choose|i: int| 0 <= i < before.len() && before[i] == q;
                        assert(after[i] == q);
                    }
                }
                assert(after[after.len() - 1] == d@);
            }
            while r.modulo(&d).is_zero()
                invariant
                    1 <= r@ <= start,
                    d@ >= 2,
                    is_prime(d@),
                    n@ % r@ == 0,
                    values(fs@).contains(d@),
                    forall|q: nat| #[trigger]
                        is_prime(q) && n@ % q == 0 ==> values(fs@).contains(q) || r@ % q == 0,
                    forall|k: nat| 2 <= k < d@ ==> #[trigger] (r@ % k) != 0,
                decreases r@,
            {
                let next = r.div_floor(&d);
                proof {
                    lemma_mod_zero_multiple(r@ as int, d@ as int);
                    assert(1 <= next@ < r@) by (nonlinear_arith)
                        requires
                            r@ == d@ * next@,
                            d@ >= 2,
                            r@ >= 1,
                    ;
                    assert(r@ == next@ * d@) by (nonlinear_arith)
                        requires
                            r@ == d@ * next@,
                    ;
                    lemma_multiple_mod(d@ as int, next@ as int);
                    lemma_divides_transitive(next@ as int, r@ as int, n@ as int);
                    assert forall|q: nat| #[trigger]
                        is_prime(q) && n@ % q == 0 implies values(fs@).contains(q) || next@ % q
                        == 0 by {
                        if !values(fs@).contains(q) {
                            lemma_strip_factor(r@, d@, q);
                        }
                    }
                    assert forall|k: nat| 2 <= k < d@ implies #[trigger] (next@ % k) != 0 by {
                        if next@ % k == 0 {
                            lemma_divides_transitive(k as int, next@ as int, r@ as int);
                        }
                    }
                }
                r = next;
            }
            done = is_small_prime(&r);
        }
        d = d.plus(&one);
    }
    if one.less_than(&r) {
        proof {
            if !done {
                lemma_no_small_divisor_prime(r@, d@);
            }
            lemma_mod_self_0(r@ as int);
            assert(r@ >= d@);
        }
        let ghost before = values(fs@);
        let ghost last = r@;
        fs.push(r);
        proof {
            let after = values(fs@);
            assert(after =~= before.push(last));
            assert forall|q: nat| #[trigger] is_prime(q) && n@ % q == 0 implies after.contains(
                q,
            ) by {
                if before.contains(q) {
                    let i = choose|i: int| 0 <= i < before.len() && before[i] == q;
                    assert(after[i] == q);
                } else {
                    assert(last % q == 0);
                    lemma_prime_divides_prime(q, last);
                    assert(after[after.len() - 1] == q);
                }
            }
        }
    } else {
        proof {
            assert forall|q: nat| #[trigger] is_prime(q) && n@ % q == 0 implies values(
                fs@,
            ).contains(q) by {
                if r@ % q == 0 {
                    lemma_small_mod(1, q);
                }
            }
        }
    }
    fs
}

/// Whether `g` generates the multiplicative group modulo `p`, decided
/// from the prime factors of `p - 1`.
pub fn is_primitive_root(g: &BigNat, p: &BigNat, factors: &Vec<BigNat>) -> (r: bool)
    requires
        p@ >= 2,
        is_factor_basis(values(factors@), (p@ - 1) as nat),
    ensures
        r == is_generator(g@, p@),
{
    let one = BigNat::one();
    let n = p.minus(&one);
    proof {
        lemma_factor_test_decides(g@, p@);
    }
    let unit = g.modpow(&n, p).equals(&one);
    if !unit {
        return false;
    }
    let mut i: usize = 0;
    while i < factors.len()
        invariant
            i <= factors@.len(),
            one@ == 1,
            p@ >= 2,
            n@ == p@ - 1,
            mod_pow(g@, n@, p@) == 1,
            is_factor_basis(values(factors@), n@),
            forall|j: int|
                0 <= j < i ==> mod_pow(g@, n@ / #[trigger] values(factors@)[j], p@) != 1,
        decreases factors@.len() - i,
    {
        let q = &factors[i];
        proof {
            assert(is_prime(values(factors@)[i as int]));
        }
        let e = n.div_floor(q);
        if g.modpow(&e, p).equals(&one) {
            proof {
                assert(is_prime(q@) && (p@ - 1) % (q@ as int) == 0);
                lemma_factor_test_decides(g@, p@);
            }
            return false;
        }
        i += 1;
    }
    proof {
        lemma_factor_test_decides(g@, p@);
        assert forall|q: nat| #[trigger] is_prime(q) && n@ % q == 0 implies mod_pow(
            g@,
            n@ / q,
            p@,
        ) != 1 by {
            let fs = values(factors@);
            assert(fs.contains(q));
            let j = choose|j: int| 0 <= j < fs.len() && fs[j] == q;
            assert(mod_pow(g@, n@ / fs[j], p@) != 1);
        }
    }
    true
}

/// Whether `p` passes the primality test to the fixed bases alone. Every
/// prime passes; a number that fails is composite and has no generator.
fn passes_primality_test(p: &BigNat) -> (passed: bool)
    ensures
        passed == probable_prime(p@, Seq::<nat>::empty()),
        is_prime(p@) ==> passed,
        !passed ==> no_generator(p@),
{
    let none: Vec<BigNat> = Vec::new();
    proof {
        assert(values(none@) =~= Seq::<nat>::empty());
        if is_prime(p@) {
            lemma_prime_is_probable_prime(p@, values(none@));
        }
        lemma_generator_exists_iff_prime(p@);
    }
    is_probable_prime(p, &none)
}

/// The least generator modulo `p` in `[2, p - 1)`, found by trying the
/// candidates in increasing order.
fn search_generator(p: &BigNat, factors: &Vec<BigNat>) -> (r: Result<BigNat, ElGamalError>)
    requires
        p@ >= 2,
        is_factor_basis(values(factors@), (p@ - 1) as nat),
    ensures
        match r {
            Ok(g) => is_least_generator(g@, p@) && valid_domain(p@, g@),
            Err(e) => e == ElGamalError::NoGeneratorFound && no_generator(p@),
        },
        r is Ok <==> is_prime(p@) && p@ >= 5,
{
    let one = BigNat::one();
    let n = p.minus(&one);
    let mut g = BigNat::from_u64(2);
    while g.less_than(&n)
        invariant
            one@ == 1,
            p@ >= 2,
            n@ == p@ - 1,
            g@ >= 2,
            is_factor_basis(values(factors@), n@),
            forall|h: nat| 2 <= h < g@ ==> !is_generator(h, p@),
        decreases n@ - g@,
    {
        if is_primitive_root(&g, p, factors) {
            proof {
                lemma_least_generator_valid(g@, p@);
                lemma_generator_exists_iff_prime(p@);
            }
            return Ok(g);
        }
        g = g.plus(&one);
    }
    proof {
        lemma_generator_exists_iff_prime(p@);
    }
    Err(ElGamalError::NoGeneratorFound)
}

/// The least generator modulo `p` in `[2, p - 1)`, given the prime
/// factors of `p - 1`.
///
/// A `p` that fails the primality test has no generator and is turned
/// away at once. Otherwise the candidates are tried in increasing order;
/// a candidate is accepted when its `(p - 1)`-th power is one and, for
/// every prime `q` in `factors`, its `((p - 1) / q)`-th power is not.
pub fn find_primitive_root_with(p: &BigNat, factors: &Vec<BigNat>) -> (r: Result<
    BigNat,
    ElGamalError,
>)
    requires
        p@ >= 2,
        is_factor_basis(values(factors@), (p@ - 1) as nat),
    ensures
        match r {
            Ok(g) => is_least_generator(g@, p@) && valid_domain(p@, g@),
            Err(e) => e == ElGamalError::NoGeneratorFound && no_generator(p@),
        },
        r is Ok <==> is_prime(p@) && p@ >= 5,
{
    if !passes_primality_test(p) {
        return Err(ElGamalError::NoGeneratorFound);
    }
    search_generator(p, factors)
}

/// The least generator of the multiplicative group modulo `p` in
/// `[2, p - 1)`.
///
/// A `p` below four, or one that fails the primality test, has no
/// generator in that range and is turned away at once. Otherwise `p - 1`
/// is factored and the candidates are tried in increasing order; a
/// candidate is accepted when its `(p - 1)`-th power is one and, for
/// every prime `q` dividing `p - 1`, its `((p - 1) / q)`-th power is not.
///
/// A generator is returned for every prime from five upwards, and
/// `NoGeneratorFound` for every other number: a modulus for which a
/// generator is returned is thereby shown to be prime.
pub fn find_primitive_root(p: &BigNat) -> (r: Result<BigNat, ElGamalError>)
    ensures
        match r {
            Ok(g) => is_least_generator(g@, p@) && valid_domain(p@, g@),
            Err(e) => e == ElGamalError::NoGeneratorFound && no_generator(p@),
        },
        r is Ok <==> is_prime(p@) && p@ >= 5,
{
    proof {
        lemma_generator_exists_iff_prime(p@);
    }
    let four = BigNat::from_u64(4);
    if p.less_than(&four) || !passes_primality_test(p) {
        return Err(ElGamalError::NoGeneratorFound);
    }
    let one = BigNat::one();
    let n = p.minus(&one);
    let factors = prime_factors(&n);
    search_generator(p, &factors)
}

} // verus!
