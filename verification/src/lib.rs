//! Core of a single-user password vault: an encrypted container file holding
//! a list of named credentials, protected by a key derived from a master
//! passphrase (scrypt), AES-256-CBC encryption, and an HMAC-SHA-512 tag.

pub mod codec;
pub mod crypto;
pub mod errors;
pub mod fold;
pub mod json;
pub mod record;
pub mod store;
