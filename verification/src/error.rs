//! Error type of the library.

use vstd::prelude::*;

verus! {

/// Every failure the library reports.
#[derive(Debug, Clone, PartialEq, Eq)]
pub enum ArcError {
    /// The bit-flipping decoder did not converge.
    DecodeError,
    /// An argument was malformed.
    InvalidInput(String),
    /// An AEAD tag did not verify.
    AuthFailed,
    /// Key generation rejected the candidate key.
    KeyGenError,
    /// A ring element had no inverse or a similar algebraic failure.
    AlgebraicError(String),
    /// The steganographic layer failed.
    StegoError(String),
    /// Encryption failed.
    EncryptionError(String),
    /// A symmetric primitive failed.
    CryptoError(String),
    /// No uniformly distributed digit block was found.
    EncodingError(String),
    /// The operating system entropy source failed.
    RngError(String),
    /// Any other failure.
    Unknown(String),
}

/// Result type used across the library.
pub type ArcResult<T> = Result<T, ArcError>;

} // verus!
