//! The cryptographic pipeline, each primitive behind a trusted wrapper: the
//! OS random source, the scrypt key derivation, the HMAC-SHA-512 tag, and
//! AES-256-CBC with PKCS#7 padding. The wrappers' contracts name the results
//! (`scrypt_key`, `hmac_sha512`, `aes_enc`, `aes_dec`); the verified pipeline
//! around them is stated over those names.

use aes::cipher::block_padding::Pkcs7;
use aes::cipher::{BlockModeDecrypt, BlockModeEncrypt, KeyIvInit};
use hmac::{KeyInit, Mac};
use vstd::prelude::*;

use crate::errors::PasswordError;
use crate::record::SafeVec;

verus! {

/// The key scrypt derives from a passphrase, a salt and the cost parameters
/// (32 bytes; a function of the arguments alone).
pub uninterp spec fn scrypt_key(pw: Seq<u8>, salt: Seq<u8>, log2_n: u8, r: u32, p: u32) -> Seq<u8>;

/// The HMAC-SHA-512 tag of a message under a key (64 bytes; a function of the
/// arguments alone).
pub uninterp spec fn hmac_sha512(key: Seq<u8>, msg: Seq<u8>) -> Seq<u8>;

/// The AES-256-CBC/PKCS#7 ciphertext of a plaintext under a key and IV (a
/// function of the arguments alone).
pub uninterp spec fn aes_enc(key: Seq<u8>, iv: Seq<u8>, pt: Seq<u8>) -> Seq<u8>;

/// The AES-256-CBC/PKCS#7 decryption of a ciphertext under a key and IV:
/// the plaintext, or nothing when the length or the padding is invalid (a
/// function of the arguments alone).
pub uninterp spec fn aes_dec(key: Seq<u8>, iv: Seq<u8>, ct: Seq<u8>) -> Option<Seq<u8>>;

/// The cost parameters this library accepts: a cost exponent of at most 20
/// (so that the derivation's memory stays bounded) and small positive block
/// size and parallelism factors. `scrypt::Params::new` accepts every triple
/// admitted here on every platform.
pub open spec fn params_ok(log2_n: u8, r: u32, p: u32) -> bool {
    &&& 1 <= log2_n <= 20
    &&& 1 <= r <= 16
    &&& 1 <= p <= 1024
}

/// Checks the cost parameters.
pub fn params_ok_exec(log2_n: u8, r: u32, p: u32) -> (b: bool)
    ensures
        b == params_ok(log2_n, r, p),
{
    1 <= log2_n && log2_n <= 20 && 1 <= r && r <= 16 && 1 <= p && p <= 1024
}

/// Relies on getrandom::fill: fills a buffer with bytes from the operating
/// system's CSPRNG, or reports the OS error. Nothing can be promised of the
/// values drawn.
#[verifier::external_body]
pub fn random_bytes(len: usize) -> (r: Result<Vec<u8>, PasswordError>)
    ensures
        r matches Ok(b) ==> b@.len() == len,
        r matches Err(e) ==> e is Io,
{
    let mut buf = vec![0u8; len];
    match getrandom::fill(&mut buf) {
        Ok(()) => Ok(buf),
        Err(e) => Err(PasswordError::Io(format!("{}", e))),
    }
}

/// Relies on scrypt::scrypt with scrypt::Params::new(log2_n, r, p): fills 32
/// bytes that are a function of the passphrase, the salt and the cost
/// parameters alone. Params::new accepts every triple `params_ok` admits, and
/// scrypt always accepts a 32-byte output buffer.
#[verifier::external_body]
pub fn scrypt_derive(pw: &[u8], salt: &[u8], log2_n: u8, r: u32, p: u32) -> (res: Result<
    SafeVec,
    PasswordError,
>)
    ensures
        res matches Ok(k) ==> k@ == scrypt_key(pw@, salt@, log2_n, r, p) && k@.len() == 32,
        res matches Err(e) ==> e is InvalidParameters,
        params_ok(log2_n, r, p) ==> res is Ok,
{
    let params = match scrypt::Params::new(log2_n, r, p) {
        Ok(ps) => ps,
        Err(_) => return Err(PasswordError::InvalidParameters),
    };
    let mut out = vec![0u8; 32];
    match scrypt::scrypt(pw, salt, &params, &mut out) {
        Ok(()) => Ok(SafeVec { inner: out }),
        Err(_) => Err(PasswordError::InvalidParameters),
    }
}

/// Relies on hmac::Hmac<sha2::Sha512> (Mac::update, Mac::finalize): the
/// 64-byte HMAC-SHA-512 tag of the message under the key, a function of the
/// two alone. HMAC accepts keys of any length, so construction cannot fail.
#[verifier::external_body]
pub fn hmac_sha512_tag(key: &[u8], msg: &[u8]) -> (r: Vec<u8>)
    ensures
        r@ == hmac_sha512(key@, msg@),
        r@.len() == 64,
{
    let mut mac = <hmac::Hmac<sha2::Sha512>>::new_from_slice(key)
        .expect("HMAC-SHA-512 accepts keys of any length");
    mac.update(msg);
    mac.finalize().into_bytes().to_vec()
}

/// Relies on hmac's Mac::verify_slice: constant-time equality between the
/// given tag and the HMAC-SHA-512 tag of the message under the key, over the
/// full tag, with no short-circuit on a differing byte.
#[verifier::external_body]
pub fn hmac_sha512_verify(key: &[u8], msg: &[u8], tag: &[u8]) -> (r: bool)
    ensures
        r == (tag@ == hmac_sha512(key@, msg@)),
{
    let mut mac = <hmac::Hmac<sha2::Sha512>>::new_from_slice(key)
        .expect("HMAC-SHA-512 accepts keys of any length");
    mac.update(msg);
    mac.verify_slice(tag).is_ok()
}

/// Relies on cbc::Encryptor<aes::Aes256> with PKCS#7 padding
/// (encrypt_padded_vec): the ciphertext is a function of the key, IV and
/// plaintext alone; it is one block longer than the plaintext rounded down
/// to whole blocks, and decrypting it under the same key and IV gives the
/// plaintext back.
#[verifier::external_body]
pub fn aes256_encrypt(key: &[u8], iv: &[u8], pt: &[u8]) -> (r: Vec<u8>)
    requires
        key@.len() == 32,
        iv@.len() == 16,
    ensures
        r@ == aes_enc(key@, iv@, pt@),
        r@.len() == 16 * (pt@.len() / 16) + 16,
        aes_dec(key@, iv@, r@) == Some(pt@),
{
    let enc = <cbc::Encryptor<aes::Aes256>>::new_from_slices(key, iv)
        .expect("the key and IV have the right lengths");
    enc.encrypt_padded_vec::<Pkcs7>(pt)
}

/// Relies on cbc::Decryptor<aes::Aes256> with PKCS#7 padding
/// (decrypt_padded_vec): success and the plaintext are a function of the key,
/// IV and ciphertext alone; an input whose length is not a multiple of 16, or
/// whose padding is malformed, is rejected.
#[verifier::external_body]
pub fn aes256_decrypt(key: &[u8], iv: &[u8], ct: &[u8]) -> (r: Option<SafeVec>)
    requires
        key@.len() == 32,
        iv@.len() == 16,
    ensures
        r matches Some(pt) ==> aes_dec(key@, iv@, ct@) == Some(pt@),
        r is None ==> aes_dec(key@, iv@, ct@) is None,
        ct@.len() % 16 != 0 ==> r is None,
{
    let dec = <cbc::Decryptor<aes::Aes256>>::new_from_slices(key, iv)
        .expect("the key and IV have the right lengths");
    match dec.decrypt_padded_vec::<Pkcs7>(ct) {
        Ok(pt) => Some(SafeVec { inner: pt }),
        Err(_) => None,
    }
}

/// Relies on std::str::from_utf8: succeeds exactly on valid UTF-8 and yields
/// the characters the bytes encode.
#[verifier::external_body]
pub fn bytes_to_string(v: &[u8]) -> (r: Option<String>)
    ensures
        r matches Some(s) ==> vstd::utf8::valid_utf8(v@) && s@ == vstd::utf8::decode_utf8(v@),
        r is None ==> !vstd::utf8::valid_utf8(v@),
{
    match std::str::from_utf8(v) {
        Ok(s) => Some(s.to_string()),
        Err(_) => None,
    }
}

} // verus!
