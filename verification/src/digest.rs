//! The message digest: SHA-256, read as a big-endian number.

use crate::bignat::BigNat;
use crate::bytes::{be_value, lemma_be_value_bound};
use sha2::{Digest, Sha256};
use vstd::arithmetic::power::pow;
use vstd::prelude::*;

verus! {

/// The SHA-256 hash of `message`.
pub uninterp spec fn sha256(message: Seq<u8>) -> Seq<u8>;

/// The number that the scheme encrypts and signs in place of `message`:
/// its SHA-256 hash as a big-endian integer.
pub open spec fn digest_value(message: Seq<u8>) -> nat {
    be_value(sha256(message))
}

/// The digest of `message` as a number. It is below `256^32`.
pub fn message_digest(message: &[u8]) -> (r: BigNat)
    ensures
        r@ == digest_value(message@),
        r@ < pow(256, 32),
{
    let hash = sha256_bytes(message);
    proof {
        lemma_be_value_bound(hash@);
    }
    BigNat::from_bytes_be(hash.as_slice())
}

/// `sha2::Sha256::digest`. Trusted: the result is the SHA-256 hash of the
/// input, a function of the input bytes alone, and is 32 bytes long.
#[verifier::external_body]
fn sha256_bytes(message: &[u8]) -> (r: Vec<u8>)
    ensures
        r@ == sha256(message@),
        r@.len() == 32,
{
    Sha256::digest(message).to_vec()
}

} // verus!
