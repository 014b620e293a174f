//! The error taxonomy of the vault core. Every failure surfaces to the caller
//! as one of these kinds; nothing is recovered internally.

use vstd::prelude::*;

verus! {

/// Everything that can go wrong while opening, mutating or saving a vault.
#[derive(Debug, PartialEq, Eq)]
pub enum PasswordError {
    /// An OS or stream error, including short reads ("unexpected eof").
    Io(String),
    /// The container's version field is not the supported version.
    WrongVersion,
    /// MAC verification failed: the container or the passphrase is wrong.
    Corruption,
    /// The cipher layer rejected the ciphertext (bad length or padding).
    DecryptionError,
    /// The decrypted plaintext did not parse against the record schema.
    InvalidJson,
    /// The cipher layer failed to encrypt.
    EncryptionError,
    /// An add was attempted for a name that is already present.
    AppExists,
    /// A delete was attempted for a name that is absent.
    NoSuchApp,
    /// The stored key-derivation parameters are out of range.
    InvalidParameters,
}

impl PasswordError {
    /// A short stable label for each kind, for callers that print errors.
    pub fn label(&self) -> (r: &'static str)
        ensures
            self is Io ==> r@ == "io error"@,
            self is WrongVersion ==> r@ == "wrong version"@,
            self is Corruption ==> r@ == "corruption"@,
            self is DecryptionError ==> r@ == "decryption error"@,
            self is InvalidJson ==> r@ == "invalid json"@,
            self is EncryptionError ==> r@ == "encryption error"@,
            self is AppExists ==> r@ == "app already exists"@,
            self is NoSuchApp ==> r@ == "no such app"@,
            self is InvalidParameters ==> r@ == "invalid parameters"@,
    {
        match self {
            PasswordError::Io(_) => "io error",
            PasswordError::WrongVersion => "wrong version",
            PasswordError::Corruption => "corruption",
            PasswordError::DecryptionError => "decryption error",
            PasswordError::InvalidJson => "invalid json",
            PasswordError::EncryptionError => "encryption error",
            PasswordError::AppExists => "app already exists",
            PasswordError::NoSuchApp => "no such app",
            PasswordError::InvalidParameters => "invalid parameters",
        }
    }
}

} // verus!
