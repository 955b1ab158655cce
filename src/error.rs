use vstd::prelude::*;

verus! {

/// The ways an operation of this library can fail.
#[derive(Debug, Clone, Copy, PartialEq, Eq, Structural)]
pub enum CryptoError {
    /// Fixed-length XOR was given inputs of different lengths.
    LengthMismatch,
    /// The append-secret oracle was used before its suffix was configured.
    MissingConfiguration,
    /// Malformed hex, base64 or profile text, or bytes that are not UTF-8.
    DecodeError,
    /// Decrypted bytes do not end in valid PKCS#7 padding.
    PaddingError,
}

impl CryptoError {
    /// A short human-readable description of the failure.
    pub fn message(&self) -> (r: &'static str)
        ensures
            r@.len() > 0,
    {
        match self {
            CryptoError::LengthMismatch => {
                proof { reveal_strlit("inputs must be of equal length"); }
                "inputs must be of equal length"
            },
            CryptoError::MissingConfiguration => {
                proof { reveal_strlit("the append string must be set before using this method"); }
                "the append string must be set before using this method"
            },
            CryptoError::DecodeError => {
                proof { reveal_strlit("could not decode input"); }
                "could not decode input"
            },
            CryptoError::PaddingError => {
                proof { reveal_strlit("invalid PKCS#7 padding"); }
                "invalid PKCS#7 padding"
            },
        }
    }
}

} // verus!
