use diff_kdbx::change_set::{Change, ChangeSet, DatabaseChange, ValueDisplay};
use diff_kdbx::mask::HashPrefix;

#[test]
fn value_display_plain_for_unprotected() {
    let d = ValueDisplay::from_value("foo", false, false);
    match d {
        ValueDisplay::Plain { value } => assert_eq!(value, "foo"),
        _ => panic!("expected Plain"),
    }
}

#[test]
fn value_display_masked_for_protected() {
    let d = ValueDisplay::from_value("hunter2", true, false);
    match d {
        ValueDisplay::Masked { hash } => {
            assert_eq!(hash.0.len(), HashPrefix::LEN);
        }
        _ => panic!("expected Masked"),
    }
}

#[test]
fn show_secrets_overrides_masking() {
    let d = ValueDisplay::from_value("hunter2", true, true);
    match d {
        ValueDisplay::Plain { value } => assert_eq!(value, "hunter2"),
        _ => panic!("expected Plain when show_secrets=true"),
    }
}

#[test]
fn masked_value_is_hash_of_plaintext() {
    let d = ValueDisplay::from_value("hello", true, false);
    assert_eq!(d, ValueDisplay::Masked { hash: HashPrefix("2cf24dba".to_string()) });
}

#[test]
fn unprotected_value_shown_even_without_show_secrets() {
    let d = ValueDisplay::from_value("hello", false, true);
    assert_eq!(d, ValueDisplay::Plain { value: "hello".to_string() });
}

#[test]
fn empty_change_set_is_empty() {
    let cs = ChangeSet::default();
    assert!(cs.is_empty());
}

#[test]
fn change_set_with_changes_is_not_empty() {
    let cs = ChangeSet {
        changes: vec![Change::Database(DatabaseChange::NameChanged {
            from: "old".into(),
            to: "new".into(),
        })],
        ..Default::default()
    };
    assert!(!cs.is_empty());
}
