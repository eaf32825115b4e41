//! The Miller–Rabin strong probable-prime test on numbers of any width,
//! with the proof that it never rejects a prime.

use crate::bignat::{values, BigNat};
use crate::fermat::lemma_fermat_little;
use crate::primes::{is_prime, lemma_euclid, mod_pow};
use vstd::arithmetic::div_mod::*;
use vstd::arithmetic::power::*;
use vstd::arithmetic::power2::*;
use vstd::prelude::*;

verus! {

/// What is left of `m` when every factor of two is divided out.
pub open spec fn odd_part(m: nat) -> nat
    decreases m,
{
    if m == 0 || m % 2 == 1 {
        m
    } else {
        odd_part(m / 2)
    }
}

/// How many times two divides `m`.
pub open spec fn two_adicity(m: nat) -> nat
    decreases m,
{
    if m == 0 || m % 2 == 1 {
        0
    } else {
        1 + two_adicity(m / 2)
    }
}

/// `n` is a strong probable prime to base `a`: with `d` the odd part of
/// `n - 1`, either `a^d` is one modulo `n`, or one of `a^d`, `a^(2d)`,
/// `a^(4d)`, ... with exponent below `n - 1` is `n - 1` modulo `n`.
pub open spec fn strong_probable_prime(n: nat, a: nat) -> bool {
    let d = odd_part((n - 1) as nat);
    ||| mod_pow(a, d, n) == 1
    ||| exists|r: nat| #[trigger] pow2(r) * d < n - 1 && mod_pow(a, pow2(r) * d, n) == n - 1
}

/// One round of the test: a base that `n` divides says nothing and
/// passes; any other base must show `n` to be a strong probable prime.
pub open spec fn passes_round(n: nat, a: nat) -> bool {
    a % n == 0 || strong_probable_prime(n, a)
}

/// `n` passes a round for every base in `bases`.
pub open spec fn passes_all(n: nat, bases: Seq<nat>) -> bool {
    forall|i: int| 0 <= i < bases.len() ==> passes_round(n, #[trigger] bases[i])
}

/// A positive number is its odd part times two to its two-adicity.
pub proof fn lemma_odd_part(m: nat)
    requires
        m > 0,
    ensures
        m == pow2(two_adicity(m)) * odd_part(m),
        odd_part(m) % 2 == 1,
    decreases m,
{
    if m % 2 == 1 {
        lemma2_to64();
        assert(pow2(0) * m == m);
    } else {
        let h = m / 2;
        lemma_odd_part(h);
        let s = two_adicity(h);
        lemma_pow2_unfold(s + 1);
        assert(pow2(s + 1) * odd_part(h) == 2 * h) by (nonlinear_arith)
            requires
                pow2(s + 1) == 2 * pow2(s),
                h == pow2(s) * odd_part(h),
        ;
    }
}

/// Modulo a prime, the only square roots of one are one and minus one.
pub proof fn lemma_square_root_of_one(p: nat, y: int)
    requires
        is_prime(p),
        (y * y) % (p as int) == 1,
    ensures
        y % (p as int) == 1 || y % (p as int) == p - 1,
{
    let m = p as int;
    lemma_small_mod(1, p);
    lemma_mod_equivalence(y * y, 1, m);
    assert(y * y - 1 == (y - 1) * (y + 1)) by (nonlinear_arith);
    lemma_euclid(p, y - 1, y + 1);
    if (y - 1) % m == 0 {
        lemma_mod_equivalence(y, 1, m);
    } else {
        lemma_small_mod((p - 1) as nat, p);
        lemma_mod_sub_multiples_vanish(y + 1, m);
        lemma_mod_equivalence(y, m - 1, m);
    }
}

/// Walking down the chain of squarings from an exponent whose power is
/// one: either the power at the odd exponent is one, or minus one occurs
/// on the way.
proof fn lemma_descend(p: nat, a: nat, d: nat, k: nat)
    requires
        is_prime(p),
        mod_pow(a, pow2(k) * d, p) == 1,
    ensures
        mod_pow(a, d, p) == 1 || exists|r: nat|
            r < k && mod_pow(a, #[trigger] pow2(r) * d, p) == p - 1,
    decreases k,
{
    if k == 0 {
        lemma2_to64();
        assert(pow2(0) * d == d);
    } else {
        let j = (k - 1) as nat;
        let e = pow2(j) * d;
        lemma_pow2_unfold(k);
        assert(pow2(k) * d == e + e) by (nonlinear_arith)
            requires
                pow2(k) == 2 * pow2(j),
                e == pow2(j) * d,
        ;
        let y = pow(a as int, e);
        lemma_pow_adds(a as int, e, e);
        lemma_square_root_of_one(p, y);
        if y % (p as int) == 1 {
            lemma_descend(p, a, d, j);
            if mod_pow(a, d, p) != 1 {
                let r = choose|r: nat| r < j && mod_pow(a, #[trigger] pow2(r) * d, p) == p - 1;
                assert(r < k);
            }
        } else {
            assert(j < k && mod_pow(a, pow2(j) * d, p) == p - 1);
        }
    }
}

/// A prime passes every round of the test, whatever the base.
pub proof fn lemma_prime_passes_round(p: nat, a: nat)
    requires
        is_prime(p),
    ensures
        passes_round(p, a),
{
    if a % p != 0 {
        let n = (p - 1) as nat;
        let d = odd_part(n);
        let s = two_adicity(n);
        lemma_odd_part(n);
        lemma_fermat_little(p, a as int);
        lemma_descend(p, a, d, s);
        if mod_pow(a, d, p) != 1 {
            let r = choose|r: nat| r < s && mod_pow(a, #[trigger] pow2(r) * d, p) == p - 1;
            lemma_pow2_strictly_increases(r, s);
            assert(pow2(r) * d < pow2(s) * d) by (nonlinear_arith)
                requires
                    pow2(r) < pow2(s),
                    d >= 1,
            ;
        }
    }
}

/// A prime passes every round for every list of bases.
pub proof fn lemma_prime_passes_all(p: nat, bases: Seq<nat>)
    requires
        is_prime(p),
    ensures
        passes_all(p, bases),
{
    assert forall|i: int| 0 <= i < bases.len() implies passes_round(p, #[trigger] bases[i]) by {
        lemma_prime_passes_round(p, bases[i]);
    }
}

/// The odd part of `m`.
fn odd_part_of(m: &BigNat) -> (d: BigNat)
    requires
        m@ >= 1,
    ensures
        d@ == odd_part(m@),
{
    let two = BigNat::from_u64(2);
    let mut d = m.clone();
    while d.modulo(&two).is_zero()
        invariant
            two@ == 2,
            d@ >= 1,
            odd_part(d@) == odd_part(m@),
        decreases d@,
    {
        d = d.div_floor(&two);
    }
    d
}

/// One round of the Miller–Rabin test of `n` to base `a`.
pub fn miller_rabin_round(n: &BigNat, a: &BigNat) -> (r: bool)
    requires
        n@ >= 2,
    ensures
        r == passes_round(n@, a@),
{
    if a.modulo(n).is_zero() {
        return true;
    }
    let one = BigNat::one();
    let top = n.minus(&one);
    let d = odd_part_of(&top);
    let mut x = a.modpow(&d, n);
    if x.equals(&one) {
        return true;
    }
    let mut e = d.clone();
    let ghost mut r: nat = 0;
    proof {
        lemma2_to64();
        assert(pow2(0) * d@ == d@);
        lemma_odd_part(top@);
        assert(d@ >= 1);
    }
    while e.less_than(&top)
        invariant
            n@ >= 2,
            top@ == n@ - 1,
            d@ == odd_part(top@),
            d@ >= 1,
            e@ == pow2(r) * d@,
            x@ == mod_pow(a@, e@, n@),
            a@ % n@ != 0,
            mod_pow(a@, d@, n@) != 1,
            forall|j: nat| j < r ==> mod_pow(a@, #[trigger] pow2(j) * d@, n@) != n@ - 1,
        decreases
                (if e@ <= top@ {
                    top@ - e@
                } else {
                    0
                }),
    {
        if x.equals(&top) {
            return true;
        }
        let square = x.times(&x).modulo(n);
        let twice = e.plus(&e);
        proof {
            lemma_pow_adds(a@ as int, e@, e@);
            lemma_mul_mod_noop(pow(a@ as int, e@), pow(a@ as int, e@), n@ as int);
            lemma_pow2_unfold(r + 1);
            assert(pow2(r + 1) * d@ == e@ + e@) by (nonlinear_arith)
                requires
                    pow2(r + 1) == 2 * pow2(r),
                    e@ == pow2(r) * d@,
            ;
            lemma_pow2_pos(r);
            assert(e@ >= 1) by (nonlinear_arith)
                requires
                    e@ == pow2(r) * d@,
                    pow2(r) >= 1,
                    d@ >= 1,
            ;
            assert forall|j: nat| j < r + 1 implies mod_pow(a@, #[trigger] pow2(j) * d@, n@) != n@
                - 1 by {
                if j == r {
                } else {
                    assert(j < r);
                }
            }
            r = r + 1;
        }
        x = square;
        e = twice;
    }
    proof {
        assert forall|j: nat| #[trigger] pow2(j) * d@ < n@ - 1 implies mod_pow(
            a@,
            pow2(j) * d@,
            n@,
        ) != n@ - 1 by {
            if j >= r {
                if j > r {
                    lemma_pow2_strictly_increases(r, j);
                }
                assert(pow2(r) * d@ <= pow2(j) * d@) by (nonlinear_arith)
                    requires
                        pow2(r) <= pow2(j),
                        d@ >= 1,
                ;
            }
        }
    }
    false
}

/// Whether `n` passes a round of the test for every base in `bases`.
pub fn miller_rabin(n: &BigNat, bases: &Vec<BigNat>) -> (r: bool)
    requires
        n@ >= 2,
    ensures
        r == passes_all(n@, values(bases@)),
{
    let mut i: usize = 0;
    while i < bases.len()
        invariant
            n@ >= 2,
            i <= bases@.len(),
            forall|j: int| 0 <= j < i ==> passes_round(n@, #[trigger] values(bases@)[j]),
        decreases bases@.len() - i,
    {
        if !miller_rabin_round(n, &bases[i]) {
            proof {
                assert(!passes_round(n@, values(bases@)[i as int]));
            }
            return false;
        }
        i += 1;
    }
    true
}

} // verus!
