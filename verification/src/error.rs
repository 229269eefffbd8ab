//! The ways in which packing, sealing, opening and unpacking can fail.

use vstd::prelude::*;

verus! {

/// Why an operation was given up. Every failure ends the operation; nothing
/// is retried and no partial result is handed out.
#[derive(Clone, Copy, Debug, PartialEq, Eq, Structural)]
pub enum ShadowError {
    /// The archiver or the compressor reported a failure.
    Io,
    /// The bytes are not laid out as a container.
    Format,
    /// The ciphertext did not verify under the derived key.
    Authentication,
    /// The key derivation refused the passphrase or the salt.
    Derivation,
    /// A path is not a plain path below its root.
    PathSafety,
}

impl ShadowError {
    /// A short text for the failure, fit for showing to a user. A failed
    /// authentication has one text whatever its cause.
    pub fn message(&self) -> (text: &'static str)
        ensures
            text@ == self.message_text(),
    {
        match self {
            ShadowError::Io => "archive could not be written or read",
            ShadowError::Format => "invalid file format",
            ShadowError::Authentication => "wrong passphrase or corrupted data",
            ShadowError::Derivation => "key derivation failed",
            ShadowError::PathSafety => "invalid path in source tree or archive",
        }
    }

    /// The text that `message` returns.
    pub open spec fn message_text(&self) -> Seq<char> {
        match self {
            ShadowError::Io => "archive could not be written or read"@,
            ShadowError::Format => "invalid file format"@,
            ShadowError::Authentication => "wrong passphrase or corrupted data"@,
            ShadowError::Derivation => "key derivation failed"@,
            ShadowError::PathSafety => "invalid path in source tree or archive"@,
        }
    }
}

} // verus!
