use vstd::prelude::*;

verus! {

/// The closed set of failures that vault operations report.
#[derive(Debug, Clone, Copy, PartialEq, Eq, Structural)]
pub enum VaultError {
    /// `init_vault` was attempted while a vault file already exists.
    VaultAlreadyExists,
    /// An operation that needs an existing vault file found none.
    VaultMissing,
    /// The AEAD tag check failed: wrong password or corrupt vault.
    AuthenticationFailure,
    /// The envelope or the plaintext vault encoding is malformed.
    FormatError,
    /// A note lookup by identifier or title found no match.
    NoteNotFound,
    /// An underlying filesystem operation failed.
    IOFailure,
}

} // verus!
