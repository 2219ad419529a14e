use vstd::prelude::*;

verus! {

/// Everything that can go wrong in the threshold scheme.
#[derive(Clone, Copy, Debug, PartialEq, Eq, Structural)]
pub enum TibeError {
    /// The number of parties, the threshold or a supplied scalar is out of range.
    InvalidParameters,
    /// A share index lies outside `1..=n` or disagrees with the share it accompanies.
    InvalidShareIndex,
    /// A partial key did not pass public verification.
    VerificationFailure,
    /// Fewer partial keys than the threshold were supplied.
    InsufficientShares,
    /// Two partial keys carry the same index.
    DuplicateShareIndex,
    /// A ciphertext failed the public validity check.
    InvalidCiphertext,
    /// A byte string has the wrong length or is no canonical group element.
    SerializationError,
    /// A scalar was presented for a field other than the scalar field of the curve.
    ModulusMismatch,
    /// The operating system's entropy source failed.
    EntropyFailure,
}

impl TibeError {
    /// A short human-readable description.
    pub fn describe(&self) -> (s: String)
        ensures
            s@ == Self::spec_describe(*self)@,
    {
        match self {
            TibeError::InvalidParameters => "invalid parameters".to_string(),
            TibeError::InvalidShareIndex => "invalid share index".to_string(),
            TibeError::VerificationFailure => "verification failure".to_string(),
            TibeError::InsufficientShares => "insufficient shares".to_string(),
            TibeError::DuplicateShareIndex => "duplicate share index".to_string(),
            TibeError::InvalidCiphertext => "invalid ciphertext".to_string(),
            TibeError::SerializationError => "serialization error".to_string(),
            TibeError::ModulusMismatch => "modulus mismatch".to_string(),
            TibeError::EntropyFailure => "entropy failure".to_string(),
        }
    }

    pub open spec fn spec_describe(e: TibeError) -> &'static str {
        match e {
            TibeError::InvalidParameters => "invalid parameters",
            TibeError::InvalidShareIndex => "invalid share index",
            TibeError::VerificationFailure => "verification failure",
            TibeError::InsufficientShares => "insufficient shares",
            TibeError::DuplicateShareIndex => "duplicate share index",
            TibeError::InvalidCiphertext => "invalid ciphertext",
            TibeError::SerializationError => "serialization error",
            TibeError::ModulusMismatch => "modulus mismatch",
            TibeError::EntropyFailure => "entropy failure",
        }
    }
}

} // verus!
