use rooster::errors::PasswordError;
use rooster::record::{Password, SafeString, SafeVec};
use rooster::store::PasswordStore;

fn err_of(r: Result<PasswordStore, PasswordError>) -> PasswordError {
    match r {
        Err(e) => e,
        Ok(_) => panic!("expected an error"),
    }
}

fn pw(s: &str) -> SafeString {
    SafeString::new(s.to_string())
}

fn vault_bytes() -> Vec<u8> {
    let mut store = PasswordStore::new(pw("hunter2")).unwrap();
    store
        .add_password(Password {
            name: "YouTube".to_string(),
            username: "me@example.com".to_string(),
            password: SafeString::new("swordfish".to_string()),
            created_at: 1_000,
            updated_at: 1_000,
        })
        .unwrap();
    store.sync().unwrap()
}

fn open_flipped(bytes: &[u8], at: usize, mask: u8) -> PasswordError {
    let mut tampered = bytes.to_vec();
    tampered[at] ^= mask;
    err_of(PasswordStore::from_input(pw("hunter2"), SafeVec::new(tampered)))
}

#[test]
fn header_layout() {
    let bytes = vault_bytes();
    assert_eq!(&bytes[0..4], &[0x00, 0x00, 0x00, 0x02]);
    assert_eq!(bytes[4], 12);
    assert_eq!(&bytes[5..9], &[0x00, 0x00, 0x00, 0x08]);
    assert_eq!(&bytes[9..13], &[0x00, 0x00, 0x00, 0x01]);
    assert!(bytes.len() > 125);
    assert_eq!((bytes.len() - 125) % 16, 0);
}

#[test]
fn two_syncs_use_fresh_ivs() {
    let mut store = PasswordStore::new(pw("hunter2")).unwrap();
    store
        .add_password(Password {
            name: "YouTube".to_string(),
            username: "me@example.com".to_string(),
            password: SafeString::new("swordfish".to_string()),
            created_at: 1_000,
            updated_at: 1_000,
        })
        .unwrap();
    let first = store.sync().unwrap();
    let second = store.sync().unwrap();
    assert_ne!(&first[45..61], &second[45..61]);
    assert_ne!(&first[125..], &second[125..]);
}

#[test]
fn ciphertext_is_not_plaintext() {
    let bytes = vault_bytes();
    let body = &bytes[125..];
    let needle = b"passwords";
    let found = body.windows(needle.len()).any(|w| w == needle);
    assert!(!found);
}

#[test]
fn version_byte_corruption() {
    let bytes = vault_bytes();
    let mut v1 = bytes.clone();
    v1[3] = 0x01;
    let err = err_of(PasswordStore::from_input(pw("hunter2"), SafeVec::new(v1)));
    assert!(matches!(err, PasswordError::WrongVersion));
    let mut v3 = bytes.clone();
    v3[3] = 0x03;
    let err = err_of(PasswordStore::from_input(pw("hunter2"), SafeVec::new(v3)));
    assert!(matches!(err, PasswordError::WrongVersion));
}

#[test]
fn ciphertext_corruption_detected() {
    let bytes = vault_bytes();
    for at in [125, 126, 140, bytes.len() - 1] {
        let err = open_flipped(&bytes, at, 0x01);
        assert!(matches!(err, PasswordError::Corruption));
    }
}

#[test]
fn salt_iv_and_tag_corruption_detected() {
    let bytes = vault_bytes();
    for at in [13, 44, 45, 60, 61, 124] {
        let err = open_flipped(&bytes, at, 0x80);
        assert!(matches!(err, PasswordError::Corruption));
    }
}

#[test]
fn kdf_parameter_corruption_detected() {
    let bytes = vault_bytes();
    // log2_n 12 -> 13, r 8 -> 9, p 1 -> 3: still acceptable parameters, so
    // the MAC is what rejects them.
    for (at, mask) in [(4usize, 0x01u8), (8, 0x01), (12, 0x02)] {
        let err = open_flipped(&bytes, at, mask);
        assert!(matches!(err, PasswordError::Corruption));
    }
}

#[test]
fn unacceptable_parameters_rejected() {
    let bytes = vault_bytes();
    let mut big = bytes.clone();
    big[4] = 200;
    let err = err_of(PasswordStore::from_input(pw("hunter2"), SafeVec::new(big)));
    assert!(matches!(err, PasswordError::InvalidParameters));
    let mut zero_r = bytes.clone();
    zero_r[5] = 0;
    zero_r[6] = 0;
    zero_r[7] = 0;
    zero_r[8] = 0;
    let err = err_of(PasswordStore::from_input(pw("hunter2"), SafeVec::new(zero_r)));
    assert!(matches!(err, PasswordError::InvalidParameters));
}

#[test]
fn short_reads_are_io_errors() {
    for len in [0usize, 3, 4, 12, 60, 124] {
        let bytes = vault_bytes();
        let truncated = bytes[..len.min(bytes.len())].to_vec();
        let err = err_of(PasswordStore::from_input(pw("hunter2"), SafeVec::new(truncated)));
        assert!(matches!(err, PasswordError::Io(_)));
    }
}

#[test]
fn error_labels_are_stable() {
    assert_eq!(PasswordError::WrongVersion.label(), "wrong version");
    assert_eq!(PasswordError::Corruption.label(), "corruption");
    assert_eq!(PasswordError::AppExists.label(), "app already exists");
    assert_eq!(PasswordError::NoSuchApp.label(), "no such app");
    assert_eq!(PasswordError::InvalidParameters.label(), "invalid parameters");
}

#[test]
fn fresh_salts_differ_between_vaults() {
    let a = PasswordStore::new(pw("hunter2")).unwrap().sync().unwrap();
    let b = PasswordStore::new(pw("hunter2")).unwrap().sync().unwrap();
    assert_ne!(&a[13..45], &b[13..45]);
}
