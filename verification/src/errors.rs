use vstd::prelude::*;

verus! {

/// Every failure this library reports, as one closed set of kinds.
///
/// The key store reports `MalformedKeyFile` and `KeyPersistError`; the cipher
/// engine reports the remaining kinds.  None of them is ever swallowed or
/// downgraded: a function that can fail returns `Result<_, CipherError>` and
/// its contract says exactly which kind comes with which inputs.
#[derive(Clone, Copy, Debug, PartialEq, Eq, Structural)]
pub enum CipherError {
    /// The persisted key file exists but a field is missing, non-numeric,
    /// not canonically written, or of the wrong byte length.
    MalformedKeyFile,
    /// A freshly generated key bundle could not be written to disk.
    KeyPersistError,
    /// The source file could not be opened or measured.
    SourceUnreadable,
    /// The destination file could not be created or written.
    DestinationWriteError,
    /// An authentication tag did not verify during decryption: the input is
    /// corrupted, truncated, tampered with, or sealed under another key.
    AuthenticationFailed,
    /// The requested mode is neither encryption nor decryption.
    InvalidMode,
}

} // verus!
