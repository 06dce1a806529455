//! A single-user encrypted note store: a password-protected vault of
//! title/description records, persisted as one encrypted text file.
//!
//! The vault is serialized to a canonical byte form, encrypted with an AEAD
//! cipher under a key derived from the master password and a random salt,
//! and framed — ciphertext, salt and nonce, each base64-encoded — into a
//! field-tagged envelope document. Every mutation re-encrypts the whole
//! vault with a fresh salt and nonce. The codecs and the store are verified;
//! the key derivation, the cipher, the base64 engine and the randomness are
//! trusted at narrow, documented boundaries.

mod cli;
mod codec;
mod crypto;
mod envelope;
mod errors;
mod notes;
mod store;

pub use cli::{Cli, Commands};
pub use crypto::{decrypt_vault, encrypt_vault, lemma_key_deterministic, EncryptedContent};
pub use envelope::{decode_envelope, encode_envelope};
pub use errors::VaultError;
pub use notes::{parse_vault, serialize_vault, Note, Vault};
pub use store::{
    add_note, change_password, delete_note, edit_note, init_vault, list_notes, read_vault,
    verify_password, view_note, write_vault,
};
