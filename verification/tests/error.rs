use elgamal::error::ElGamalError;

#[test]
fn errors_describe_themselves() {
    assert_eq!(ElGamalError::PrimeGenerationFailed.message(), "prime generation failed");
    assert_eq!(ElGamalError::NoGeneratorFound.message(), "no generator found");
    assert_eq!(ElGamalError::InvalidCiphertext.message(), "invalid ciphertext");
    assert_ne!(ElGamalError::NoGeneratorFound, ElGamalError::InvalidCiphertext);
}
