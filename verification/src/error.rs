//! Failure conditions of the scheme's operations.

use vstd::prelude::*;

verus! {

/// Why an operation could not produce a result. Each condition ends the
/// operation that raised it; nothing is retried with weaker parameters.
#[derive(Clone, Copy, Debug, PartialEq, Eq, Structural)]
pub enum ElGamalError {
    /// No candidate passed the primality test within the attempt limit.
    PrimeGenerationFailed,
    /// No element of `[2, p - 1)` generates the multiplicative group.
    NoGeneratorFound,
    /// The ciphertext's shared secret is not invertible modulo `p`.
    InvalidCiphertext,
}

impl ElGamalError {
    /// A short description of the condition.
    pub fn message(&self) -> (text: &'static str)
        ensures
            text@ == (match *self {
                ElGamalError::PrimeGenerationFailed => "prime generation failed"@,
                ElGamalError::NoGeneratorFound => "no generator found"@,
                ElGamalError::InvalidCiphertext => "invalid ciphertext"@,
            }),
    {
        match self {
            ElGamalError::PrimeGenerationFailed => "prime generation failed",
            ElGamalError::NoGeneratorFound => "no generator found",
            ElGamalError::InvalidCiphertext => "invalid ciphertext",
        }
    }
}

} // verus!
