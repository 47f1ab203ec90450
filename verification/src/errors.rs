//! Error taxonomy shared by every component of the library.

use vstd::prelude::*;

verus! {

/// The failure kind of every cryptographic operation.
#[derive(Debug, Clone)]
pub enum CryptoError {
    /// The plaintext is at least `n`, outside the Paillier message space.
    MessageOutOfRange,
    /// The ciphertext is at least `n²`, outside the Paillier ciphertext space.
    CiphertextOutOfRange,
    /// The requested key size is below the accepted minimum.
    KeySizeTooSmall { requested: u64, minimum: u64 },
    /// No modular inverse exists because the gcd is not one.
    NoModularInverse,
    /// An internal signed-to-unsigned conversion met a negative value.
    NegativeConversion,
    /// A key field holds text that is not valid hexadecimal.
    HexParseError,
    /// A hexadecimal key field exceeds the accepted length.
    HexFieldTooLong { actual: usize, maximum: usize },
    /// A loaded key fails the `n_squared == n * n` coherence check.
    KeyCoherenceError,
    /// The KEA image verification rejected the ciphertext.
    KeaImVerFailed,
    /// A generic invalid input, with a description.
    InvalidInput(String),
}

impl PartialEq for CryptoError {
    fn eq(&self, other: &Self) -> (r: bool) {
        match (self, other) {
            (CryptoError::MessageOutOfRange, CryptoError::MessageOutOfRange) => true,
            (CryptoError::CiphertextOutOfRange, CryptoError::CiphertextOutOfRange) => true,
            (
                CryptoError::KeySizeTooSmall { requested: r1, minimum: m1 },
                CryptoError::KeySizeTooSmall { requested: r2, minimum: m2 },
            ) => r1 == r2 && m1 == m2,
            (CryptoError::NoModularInverse, CryptoError::NoModularInverse) => true,
            (CryptoError::NegativeConversion, CryptoError::NegativeConversion) => true,
            (CryptoError::HexParseError, CryptoError::HexParseError) => true,
            (
                CryptoError::HexFieldTooLong { actual: a1, maximum: m1 },
                CryptoError::HexFieldTooLong { actual: a2, maximum: m2 },
            ) => a1 == a2 && m1 == m2,
            (CryptoError::KeyCoherenceError, CryptoError::KeyCoherenceError) => true,
            (CryptoError::KeaImVerFailed, CryptoError::KeaImVerFailed) => true,
            (CryptoError::InvalidInput(s1), CryptoError::InvalidInput(s2)) => String::eq(s1, s2),
            _ => false,
        }
    }
}

impl vstd::std_specs::cmp::PartialEqSpecImpl for CryptoError {
    open spec fn obeys_eq_spec() -> bool {
        true
    }

    open spec fn eq_spec(&self, other: &Self) -> bool {
        match (*self, *other) {
            (CryptoError::MessageOutOfRange, CryptoError::MessageOutOfRange) => true,
            (CryptoError::CiphertextOutOfRange, CryptoError::CiphertextOutOfRange) => true,
            (
                CryptoError::KeySizeTooSmall { requested: r1, minimum: m1 },
                CryptoError::KeySizeTooSmall { requested: r2, minimum: m2 },
            ) => r1 == r2 && m1 == m2,
            (CryptoError::NoModularInverse, CryptoError::NoModularInverse) => true,
            (CryptoError::NegativeConversion, CryptoError::NegativeConversion) => true,
            (CryptoError::HexParseError, CryptoError::HexParseError) => true,
            (
                CryptoError::HexFieldTooLong { actual: a1, maximum: m1 },
                CryptoError::HexFieldTooLong { actual: a2, maximum: m2 },
            ) => a1 == a2 && m1 == m2,
            (CryptoError::KeyCoherenceError, CryptoError::KeyCoherenceError) => true,
            (CryptoError::KeaImVerFailed, CryptoError::KeaImVerFailed) => true,
            (CryptoError::InvalidInput(s1), CryptoError::InvalidInput(s2)) => s1@ == s2@,
            _ => false,
        }
    }
}

/// The failure kind of the key registry, disjoint from [`CryptoError`].
#[derive(Debug, Clone, PartialEq, Eq, Structural)]
pub enum RegistryError {
    /// No Paillier key pair has been loaded into the registry.
    NoPaillierKey,
    /// No KEA key pair has been loaded into the registry.
    NoKeaKey,
    /// The guard around the registry state is unrecoverable.
    LockPoisoned,
}

} // verus!
