use rooster::errors::PasswordError;
use rooster::record::{Password, SafeString, SafeVec};
use rooster::store::PasswordStore;

fn err_of(r: Result<PasswordStore, PasswordError>) -> PasswordError {
    match r {
        Err(e) => e,
        Ok(_) => panic!("expected an error"),
    }
}

fn pw(s: &str) -> SafeString {
    SafeString::new(s.to_string())
}

fn sample_record(name: &str) -> Password {
    Password {
        name: name.to_string(),
        username: "me@example.com".to_string(),
        password: SafeString::new("swordfish".to_string()),
        created_at: 1_000,
        updated_at: 1_000,
    }
}

#[test]
fn create_add_sync_reopen() {
    let mut store = PasswordStore::new(pw("hunter2")).unwrap();
    store.add_password(sample_record("YouTube")).unwrap();
    let bytes = store.sync().unwrap();
    let reopened = PasswordStore::from_input(pw("hunter2"), SafeVec::new(bytes)).unwrap();
    let got = reopened.get_password("youtube").unwrap();
    assert_eq!(got.name, "YouTube");
    assert_eq!(got.username, "me@example.com");
    assert_eq!(got.password.inner, "swordfish");
    assert_eq!(got.created_at, 1_000);
    assert_eq!(got.updated_at, 1_000);
}

#[test]
fn duplicate_add_rejected() {
    let mut store = PasswordStore::new(pw("hunter2")).unwrap();
    store.add_password(sample_record("YouTube")).unwrap();
    let err = store.add_password(sample_record("youtube")).unwrap_err();
    assert!(matches!(err, PasswordError::AppExists));
    assert_eq!(store.get_all_passwords().len(), 1);
}

#[test]
fn delete_missing_rejected() {
    let mut store = PasswordStore::new(pw("hunter2")).unwrap();
    store.add_password(sample_record("YouTube")).unwrap();
    let err = store.delete_password("Gmail").unwrap_err();
    assert!(matches!(err, PasswordError::NoSuchApp));
    assert_eq!(store.get_all_passwords().len(), 1);
}

#[test]
fn delete_is_case_insensitive() {
    let mut store = PasswordStore::new(pw("hunter2")).unwrap();
    store.add_password(sample_record("YouTube")).unwrap();
    let removed = store.delete_password("YOUTUBE").unwrap();
    assert_eq!(removed.name, "YouTube");
    assert!(store.get_all_passwords().is_empty());
}

#[test]
fn wrong_passphrase_is_corruption() {
    let mut store = PasswordStore::new(pw("hunter2")).unwrap();
    store.add_password(sample_record("YouTube")).unwrap();
    let bytes = store.sync().unwrap();
    let err = err_of(PasswordStore::from_input(pw("hunter3"), SafeVec::new(bytes)));
    assert!(matches!(err, PasswordError::Corruption));
}

#[test]
fn lookup_is_case_insensitive() {
    let mut store = PasswordStore::new(pw("hunter2")).unwrap();
    store.add_password(sample_record("YouTube")).unwrap();
    let a = store.get_password("YouTube").unwrap();
    let b = store.get_password("youtube").unwrap();
    let c = store.get_password("YOUTUBE").unwrap();
    assert_eq!(a.name, b.name);
    assert_eq!(b.name, c.name);
    assert!(store.has_password("yOuTuBe"));
    assert!(!store.has_password("Gmail"));
}

#[test]
fn order_and_fields_survive_round_trip() {
    let mut store = PasswordStore::new(pw("hunter2")).unwrap();
    let mut first = sample_record("alpha");
    first.created_at = -5;
    first.updated_at = 9_007_199_254_740_993;
    let mut second = sample_record("Beta");
    second.username = "with \"quotes\" and \\slashes\\".to_string();
    let mut third = sample_record("garde\u{301}");
    third.password = SafeString::new("p\u{00e4}ss\u{2603}".to_string());
    store.add_password(first).unwrap();
    store.add_password(second).unwrap();
    store.add_password(third).unwrap();
    let bytes = store.sync().unwrap();
    let reopened = PasswordStore::from_input(pw("hunter2"), SafeVec::new(bytes)).unwrap();
    let records = reopened.get_all_passwords();
    assert_eq!(records.len(), 3);
    assert_eq!(records[0].name, "alpha");
    assert_eq!(records[0].created_at, -5);
    assert_eq!(records[0].updated_at, 9_007_199_254_740_993);
    assert_eq!(records[1].name, "Beta");
    assert_eq!(records[1].username, "with \"quotes\" and \\slashes\\");
    assert_eq!(records[2].name, "garde\u{301}");
    assert_eq!(records[2].password.inner, "p\u{00e4}ss\u{2603}");
}

#[test]
fn empty_store_round_trip() {
    let store = PasswordStore::new(pw("hunter2")).unwrap();
    let bytes = store.sync().unwrap();
    let reopened = PasswordStore::from_input(pw("hunter2"), SafeVec::new(bytes)).unwrap();
    assert!(reopened.get_all_passwords().is_empty());
}

#[test]
fn rekey_preserves_records() {
    let mut store = PasswordStore::new(pw("hunter2")).unwrap();
    store.add_password(sample_record("YouTube")).unwrap();
    store.add_password(sample_record("Gmail")).unwrap();
    store.change_master_password("correct horse");
    let bytes = store.sync().unwrap();
    let reopened =
        PasswordStore::from_input(pw("correct horse"), SafeVec::new(bytes.clone())).unwrap();
    let records = reopened.get_all_passwords();
    assert_eq!(records.len(), 2);
    assert_eq!(records[0].name, "YouTube");
    assert_eq!(records[1].name, "Gmail");
    let err = err_of(PasswordStore::from_input(pw("hunter2"), SafeVec::new(bytes)));
    assert!(matches!(err, PasswordError::Corruption));
}

#[test]
fn rekey_reuses_salt() {
    let mut store = PasswordStore::new(pw("hunter2")).unwrap();
    store.add_password(sample_record("YouTube")).unwrap();
    let before = store.sync().unwrap();
    store.change_master_password("other");
    let after = store.sync().unwrap();
    assert_eq!(&before[13..45], &after[13..45]);
}

#[test]
fn password_new_stamps_equal_times() {
    let p = Password::new(
        "YouTube".to_string(),
        "me@example.com".to_string(),
        SafeString::new("swordfish".to_string()),
    );
    assert_eq!(p.created_at, p.updated_at);
    assert_eq!(p.name, "YouTube");
}

#[test]
fn added_record_returned_by_value() {
    let mut store = PasswordStore::new(pw("hunter2")).unwrap();
    store.add_password(sample_record("YouTube")).unwrap();
    let mut copy = store.get_password("YouTube").unwrap();
    copy.username = "someone-else".to_string();
    assert_eq!(store.get_password("YouTube").unwrap().username, "me@example.com");
}
