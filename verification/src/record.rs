//! The record model: secret buffers, one saved credential, and the plaintext
//! schema that groups the credentials into an ordered list.

use vstd::prelude::*;
use zeroize::Zeroize;

verus! {

/// An owned text buffer for sensitive material (passphrases and record
/// passwords). It is the only text container the core hands secrets to.
#[derive(Debug)]
pub struct SafeString {
    pub inner: String,
}

impl View for SafeString {
    type V = Seq<char>;

    open spec fn view(&self) -> Seq<char> {
        self.inner@
    }
}

impl SafeString {
    pub fn new(inner: String) -> (r: SafeString)
        ensures
            r@ == inner@,
    {
        SafeString { inner }
    }

    pub fn as_str(&self) -> (r: &str)
        ensures
            r@ == self@,
    {
        self.inner.as_str()
    }
}

impl Clone for SafeString {
    fn clone(&self) -> (r: Self)
        ensures
            r == self,
    {
        SafeString { inner: self.inner.clone() }
    }
}

impl Drop for SafeString {
    /// Relies on zeroize's Zeroize impl for String: the whole backing
    /// capacity is overwritten with zeros before the memory is freed.
    #[verifier::external_body]
    fn drop(&mut self)
        opens_invariants none
        no_unwind
    {
        self.inner.zeroize();
    }
}

/// An owned byte buffer for sensitive material (derived keys, raw container
/// bytes, decrypted plaintext).
pub struct SafeVec {
    pub inner: Vec<u8>,
}

impl View for SafeVec {
    type V = Seq<u8>;

    open spec fn view(&self) -> Seq<u8> {
        self.inner@
    }
}

impl SafeVec {
    pub fn new(inner: Vec<u8>) -> (r: SafeVec)
        ensures
            r@ == inner@,
    {
        SafeVec { inner }
    }

    pub fn as_slice(&self) -> (r: &[u8])
        ensures
            r@ == self@,
    {
        self.inner.as_slice()
    }
}

impl Clone for SafeVec {
    fn clone(&self) -> (r: Self)
        ensures
            r@ == self@,
    {
        SafeVec { inner: self.inner.clone() }
    }
}

impl Drop for SafeVec {
    /// Relies on zeroize's Zeroize impl for Vec<u8>: the whole backing
    /// capacity is overwritten with zeros before the memory is freed.
    #[verifier::external_body]
    fn drop(&mut self)
        opens_invariants none
        no_unwind
    {
        self.inner.zeroize();
    }
}

/// The mathematical value of one record.
#[verifier::ext_equal]
pub struct PasswordView {
    pub name: Seq<char>,
    pub username: Seq<char>,
    pub password: Seq<char>,
    pub created_at: i64,
    pub updated_at: i64,
}

/// One saved credential: a non-empty name, a username, a secret password,
/// and creation/update times in seconds since the Unix epoch.
#[derive(Debug)]
pub struct Password {
    pub name: String,
    pub username: String,
    pub password: SafeString,
    pub created_at: i64,
    pub updated_at: i64,
}

impl View for Password {
    type V = PasswordView;

    open spec fn view(&self) -> PasswordView {
        PasswordView {
            name: self.name@,
            username: self.username@,
            password: self.password@,
            created_at: self.created_at,
            updated_at: self.updated_at,
        }
    }
}

/// Relies on std::time::SystemTime::now, read against the Unix epoch: the
/// number of whole seconds since the epoch, or zero for a clock before it.
/// The value depends on the clock, so nothing is promised of it.
#[verifier::external_body]
pub fn unix_time_now() -> i64 {
    match std::time::SystemTime::now().duration_since(std::time::UNIX_EPOCH) {
        Ok(d) => d.as_secs() as i64,
        Err(_) => 0,
    }
}

impl Password {
    /// A fresh record, stamped with the current time for both its creation
    /// and its last update.
    pub fn new(name: String, username: String, password: SafeString) -> (r: Password)
        ensures
            r.name@ == name@,
            r.username@ == username@,
            r.password@ == password@,
            r.created_at == r.updated_at,
    {
        let timestamp = unix_time_now();
        Password { name, username, password, created_at: timestamp, updated_at: timestamp }
    }
}

impl Clone for Password {
    fn clone(&self) -> (r: Self)
        ensures
            r@ == self@,
    {
        Password {
            name: self.name.clone(),
            username: self.username.clone(),
            password: self.password.clone(),
            created_at: self.created_at,
            updated_at: self.updated_at,
        }
    }
}

/// The record views of a sequence of records, in the same order.
pub open spec fn views_of(ps: Seq<Password>) -> Seq<PasswordView> {
    ps.map_values(|p: Password| p@)
}

/// The plaintext schema: an ordered list of records. The list's invariant is
/// that no two records share a name under case folding.
pub struct Schema {
    pub passwords: Vec<Password>,
}

impl View for Schema {
    type V = Seq<PasswordView>;

    open spec fn view(&self) -> Seq<PasswordView> {
        views_of(self.passwords@)
    }
}

impl Schema {
    pub fn new() -> (r: Schema)
        ensures
            r@ == Seq::<PasswordView>::empty(),
    {
        Schema { passwords: Vec::new() }
    }
}

} // verus!
