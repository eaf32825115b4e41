//! The prime generator: random candidates of the full requested width,
//! each put to the primality test, up to an attempt limit.

use crate::bignat::{values, BigNat};
use crate::entropy::random_in_range;
use crate::error::ElGamalError;
use crate::miller_rabin::{lemma_prime_passes_all, miller_rabin, passes_all};
use crate::primes::is_prime;
use vstd::arithmetic::power2::*;
use vstd::prelude::*;

verus! {

/// The number of binary digits of `n`; zero has none.
pub open spec fn bit_count(n: nat) -> nat
    decreases n,
{
    if n == 0 {
        0
    } else {
        1 + bit_count(n / 2)
    }
}

/// The bases that every candidate is tested to: the first twelve primes.
pub open spec fn fixed_bases() -> Seq<nat> {
    seq![2, 3, 5, 7, 11, 13, 17, 19, 23, 29, 31, 37]
}

/// What the primality test accepts: a number from two upwards that
/// passes a Miller–Rabin round for each fixed base and each base in
/// `extra`, and that, if it fits in 64 bits, is a prime.
pub open spec fn probable_prime(n: nat, extra: Seq<nat>) -> bool {
    &&& n >= 2
    &&& n <= u64::MAX ==> is_prime(n)
    &&& passes_all(n, fixed_bases())
    &&& passes_all(n, extra)
}

/// How many random bases a candidate is tested to beside the fixed ones.
pub const RANDOM_ROUNDS: usize = 16;

/// How many candidates are drawn for each requested bit before the search
/// gives up.
pub const ATTEMPTS_PER_BIT: u64 = 256;

/// The numbers with exactly `b` binary digits are those from `2^(b-1)` up
/// to, but not including, `2^b`.
pub proof fn lemma_bit_count_range(n: nat, b: nat)
    requires
        b >= 1,
        pow2((b - 1) as nat) <= n < pow2(b),
    ensures
        bit_count(n) == b,
    decreases b,
{
    lemma2_to64();
    if b == 1 {
        assert(n == 1);
        assert(bit_count(n / 2) == 0);
    } else {
        lemma_pow2_unfold(b);
        lemma_pow2_unfold((b - 1) as nat);
        lemma_bit_count_range(n / 2, (b - 1) as nat);
    }
}

/// A number is below two raised to the number of its binary digits.
pub proof fn lemma_bit_count_bound(n: nat)
    ensures
        n < pow2(bit_count(n)),
    decreases n,
{
    lemma2_to64();
    if n > 0 {
        lemma_bit_count_bound(n / 2);
        lemma_pow2_unfold(bit_count(n));
    }
}

/// The primality test accepts every prime, whatever the extra bases.
pub proof fn lemma_prime_is_probable_prime(n: nat, extra: Seq<nat>)
    requires
        is_prime(n),
    ensures
        probable_prime(n, extra),
{
    lemma_prime_passes_all(n, fixed_bases());
    lemma_prime_passes_all(n, extra);
}

/// `primal::is_prime`. Trusted: it decides primality of every `u64`
/// exactly, as its documentation states of its deterministic
/// Miller–Rabin test.
#[verifier::external_body]
fn is_prime_u64(n: u64) -> (r: bool)
    ensures
        r == is_prime(n as nat),
{
    primal::is_prime(n)
}

fn fixed_base_list() -> (v: Vec<BigNat>)
    ensures
        values(v@) == fixed_bases(),
{
    let mut v: Vec<BigNat> = Vec::new();
    v.push(BigNat::from_u64(2));
    v.push(BigNat::from_u64(3));
    v.push(BigNat::from_u64(5));
    v.push(BigNat::from_u64(7));
    v.push(BigNat::from_u64(11));
    v.push(BigNat::from_u64(13));
    v.push(BigNat::from_u64(17));
    v.push(BigNat::from_u64(19));
    v.push(BigNat::from_u64(23));
    v.push(BigNat::from_u64(29));
    v.push(BigNat::from_u64(31));
    v.push(BigNat::from_u64(37));
    proof {
        assert(values(v@) =~= fixed_bases());
    }
    v
}

/// The primality test: exact for a number that fits in 64 bits, and for
/// every number a Miller–Rabin round for each fixed base and each base in
/// `extra`.
pub fn is_probable_prime(n: &BigNat, extra: &Vec<BigNat>) -> (r: bool)
    ensures
        r == probable_prime(n@, values(extra@)),
        n@ <= u64::MAX ==> r == is_prime(n@),
{
    let two = BigNat::from_u64(2);
    if n.less_than(&two) {
        return false;
    }
    match n.to_u64() {
        Some(small) => {
            if !is_prime_u64(small) {
                return false;
            }
            proof {
                lemma_prime_is_probable_prime(n@, values(extra@));
            }
        },
        None => {},
    }
    let fixed = fixed_base_list();
    miller_rabin(n, &fixed) && miller_rabin(n, extra)
}

/// Two raised to `k`.
fn power_of_two(k: usize) -> (r: BigNat)
    ensures
        r@ == pow2(k as nat),
{
    let mut r = BigNat::one();
    let mut i: usize = 0;
    proof {
        lemma2_to64();
    }
    while i < k
        invariant
            i <= k,
            r@ == pow2(i as nat),
        decreases k - i,
    {
        proof {
            lemma_pow2_unfold((i + 1) as nat);
        }
        r = r.plus(&r);
        i += 1;
    }
    r
}

/// Random bases for testing `n`: `count` of them, each drawn from
/// `[2, n - 1)`; none when `n` is below four and that range is empty.
fn random_bases(n: &BigNat, count: usize) -> (bases: Vec<BigNat>)
    ensures
        bases@.len() == (if n@ < 4 {
            0
        } else {
            count as int
        }),
        forall|i: int| 0 <= i < bases@.len() ==> 2 <= #[trigger] values(bases@)[i] < n@ - 1,
{
    let mut bases: Vec<BigNat> = Vec::new();
    let four = BigNat::from_u64(4);
    if n.less_than(&four) {
        return bases;
    }
    let two = BigNat::from_u64(2);
    let top = n.minus(&BigNat::one());
    let mut i: usize = 0;
    while i < count
        invariant
            two@ == 2,
            top@ == n@ - 1,
            n@ >= 4,
            i <= count,
            bases@.len() == i,
            forall|j: int| 0 <= j < bases@.len() ==> 2 <= #[trigger] values(bases@)[j] < n@ - 1,
        decreases count - i,
    {
        let base = random_in_range(&two, &top);
        let ghost before = values(bases@);
        let ghost value = base@;
        bases.push(base);
        proof {
            assert(values(bases@) =~= before.push(value));
        }
        i += 1;
    }
    bases
}

/// How many candidates are drawn before the search for a prime of
/// `bit_length` bits gives up.
pub open spec fn attempt_limit(bit_length: nat) -> nat {
    if bit_length * ATTEMPTS_PER_BIT <= u64::MAX {
        (bit_length * ATTEMPTS_PER_BIT) as nat
    } else {
        u64::MAX as nat
    }
}

/// Every number in `draws` has `bit_length` bits and is rejected by the
/// primality test with the extra bases listed for it in `bases`.
pub open spec fn all_rejected(draws: Seq<nat>, bases: Seq<Seq<nat>>, bit_length: nat) -> bool {
    &&& draws.len() == bases.len()
    &&& forall|i: int|
        0 <= i < draws.len() ==> bit_count(#[trigger] draws[i]) == bit_length && !probable_prime(
            draws[i],
            bases[i],
        )
}

fn attempt_limit_for(bit_length: usize) -> (limit: u64)
    ensures
        limit == attempt_limit(bit_length as nat),
{
    match (bit_length as u64).checked_mul(ATTEMPTS_PER_BIT) {
        Some(limit) => limit,
        None => u64::MAX,
    }
}

/// A probable prime of exactly `bit_length` bits.
///
/// Candidates are drawn at random over the whole range of numbers with
/// `bit_length` bits, and each is tested at its full width: first to the
/// fixed bases, then to `RANDOM_ROUNDS` random ones. The first candidate
/// that passes every round is returned, and it is certainly prime if it
/// fits in 64 bits.
///
/// `PrimeGenerationFailed` is returned when `attempt_limit(bit_length)`
/// candidates have been drawn and rejected, and at once when `bit_length`
/// is below two, for which no prime exists. With two bits every candidate
/// is prime, so the search succeeds.
pub fn generate_prime(bit_length: usize) -> (r: Result<BigNat, ElGamalError>)
    ensures
        match r {
            Ok(p) => bit_count(p@) == bit_length && probable_prime(p@, Seq::<nat>::empty()),
            Err(e) => {
                &&& e == ElGamalError::PrimeGenerationFailed
                &&& bit_length >= 2 ==> exists|draws: Seq<nat>, bases: Seq<Seq<nat>>|
                    #[trigger] all_rejected(draws, bases, bit_length as nat) && draws.len()
                        == attempt_limit(bit_length as nat)
            },
        },
        bit_length < 2 ==> r is Err,
        bit_length == 2 ==> r is Ok,
{
    if bit_length < 2 {
        return Err(ElGamalError::PrimeGenerationFailed);
    }
    let low = power_of_two(bit_length - 1);
    let high = low.plus(&low);
    proof {
        lemma_pow2_unfold(bit_length as nat);
        lemma_pow2_pos((bit_length - 1) as nat);
        lemma2_to64();
    }
    let limit = attempt_limit_for(bit_length);
    let mut attempt: u64 = 0;
    let ghost mut draws: Seq<nat> = Seq::empty();
    let ghost mut tried: Seq<Seq<nat>> = Seq::empty();
    while attempt < limit
        invariant
            bit_length >= 2,
            low@ == pow2((bit_length - 1) as nat),
            high@ == pow2(bit_length as nat),
            low@ < high@,
            pow2(1) == 2 && pow2(2) == 4,
            attempt <= limit,
            draws.len() == attempt,
            all_rejected(draws, tried, bit_length as nat),
            bit_length == 2 ==> attempt == 0,
        decreases limit - attempt,
    {
        let candidate = random_in_range(&low, &high);
        let none: Vec<BigNat> = Vec::new();
        proof {
            lemma_bit_count_range(candidate@, bit_length as nat);
            assert(values(none@) =~= Seq::<nat>::empty());
        }
        if is_probable_prime(&candidate, &none) {
            let bases = random_bases(&candidate, RANDOM_ROUNDS);
            proof {
                if bit_length == 2 {
                    assert(is_prime(2) && is_prime(3));
                    assert(candidate@ == 2 || candidate@ == 3);
                    lemma_prime_passes_all(candidate@, values(bases@));
                }
            }
            if miller_rabin(&candidate, &bases) {
                return Ok(candidate);
            }
            proof {
                draws = draws.push(candidate@);
                tried = tried.push(values(bases@));
            }
        } else {
            proof {
                assert(bit_length != 2) by {
                    if bit_length == 2 {
                        assert(is_prime(2) && is_prime(3));
                        assert(candidate@ == 2 || candidate@ == 3);
                    }
                }
                draws = draws.push(candidate@);
                tried = tried.push(Seq::<nat>::empty());
            }
        }
        attempt += 1;
    }
    Err(ElGamalError::PrimeGenerationFailed)
}

} // verus!
