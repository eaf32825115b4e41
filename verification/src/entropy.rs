//! The source of randomness.

use crate::bignat::BigNat;
use crate::bytes::{be_value, lemma_be_bytes_value};
use num_bigint_dig::{BigUint, RandBigInt};
use vstd::prelude::*;

verus! {

/// A number drawn from `[low, high)` by the thread-local generator.
///
/// Nothing is stated of the draw but its range, so whatever a caller
/// proves holds for every outcome.
pub fn random_in_range(low: &BigNat, high: &BigNat) -> (r: BigNat)
    requires
        low@ < high@,
    ensures
        low@ <= r@ < high@,
{
    let lo = low.to_bytes_be();
    let hi = high.to_bytes_be();
    proof {
        lemma_be_bytes_value(low@);
        lemma_be_bytes_value(high@);
    }
    let drawn = random_range_bytes(lo.as_slice(), hi.as_slice());
    BigNat::from_bytes_be(drawn.as_slice())
}

/// `num_bigint_dig::RandBigInt::gen_biguint_range` on `rand::thread_rng()`,
/// with bounds and result in big-endian bytes. The outside function panics
/// unless the lower bound is below the upper one. Trusted: the result lies
/// in the half-open range, lower bound included.
#[verifier::external_body]
fn random_range_bytes(low: &[u8], high: &[u8]) -> (r: Vec<u8>)
    requires
        be_value(low@) < be_value(high@),
    ensures
        be_value(low@) <= be_value(r@) < be_value(high@),
{
    let lo = BigUint::from_bytes_be(low);
    let hi = BigUint::from_bytes_be(high);
    rand::thread_rng().gen_biguint_range(&lo, &hi).to_bytes_be()
}

} // verus!
