//! Error taxonomy of the cryptographic core.
//!
//! Every failure is reported to the immediate caller; no variant ever
//! carries secret material.

use vstd::prelude::*;

verus! {

/// Failures of the cryptographic core and of the keystore it is handed.
#[derive(Clone, Copy, Debug, PartialEq, Eq, Structural)]
pub enum CryptoError {
    /// The entropy source of a key-generating backend could not be read.
    RandomnessUnavailable,
    /// A keystore `put` targeted an id that already holds an entry.
    DuplicateKey,
    /// The keystore's backing store failed on I/O.
    StorageUnavailable,
    /// An operand's modulus or structural kind does not match the scheme
    /// it was to be combined under.
    SchemeMismatch,
    /// A sharing operation was configured outside `1 <= t <= n`.
    InvalidThreshold,
    /// Two supplied shares carry the same fragment index.
    DuplicateShareIndex,
    /// Fewer than the scheme's threshold of distinct shares were supplied.
    InsufficientShares,
    /// Ciphertext authentication failed; no partial plaintext is returned.
    DecryptionFailed,
}

/// Result type used throughout the core.
pub type CryptoResult<T> = Result<T, CryptoError>;

} // verus!
