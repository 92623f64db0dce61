use record_store::auth::LoginOutcome;
use record_store::store::{Database, User};

#[test]
fn register_then_login_succeeds_and_rejections_are_distinguishable() {
    let mut db = Database::new();
    db.register(1, String::from("alice"), "secret").expect("hashing must succeed");
    assert_eq!(db.login(&String::from("alice"), "secret"), LoginOutcome::Success);
    assert_eq!(db.login(&String::from("alice"), "wrong"), LoginOutcome::WrongPassword);
    assert_eq!(db.login(&String::from("bob"), "secret"), LoginOutcome::UnknownUser);
}

#[test]
fn stored_password_is_a_hash_not_plaintext() {
    let mut db = Database::new();
    db.register(1, String::from("alice"), "secret").expect("hashing must succeed");
    let stored = db.get_user_by_name(&String::from("alice")).expect("alice registered");
    assert_ne!(stored.password, "secret");
}

#[test]
fn two_registrations_of_same_password_hash_differently_and_both_verify() {
    let mut db = Database::new();
    db.register(1, String::from("alice"), "same-pass").expect("hashing must succeed");
    db.register(2, String::from("bob"), "same-pass").expect("hashing must succeed");
    let h1 = db.get_user_by_name(&String::from("alice")).expect("alice").password;
    let h2 = db.get_user_by_name(&String::from("bob")).expect("bob").password;
    assert_ne!(h1, h2);
    assert_eq!(db.login(&String::from("alice"), "same-pass"), LoginOutcome::Success);
    assert_eq!(db.login(&String::from("bob"), "same-pass"), LoginOutcome::Success);
}

#[test]
fn passwords_with_equal_cyclic_key_streams_verify_alike() {
    // The hash keys on the 72-byte cyclic extension of the NUL-terminated
    // password bytes, so "ab" and "ab\0ab" extend to the same stream and
    // are indistinguishable to verification.
    let mut db = Database::new();
    db.register(1, String::from("alice"), "ab").expect("hashing must succeed");
    assert_eq!(db.login(&String::from("alice"), "ab\0ab"), LoginOutcome::Success);
    assert_eq!(db.login(&String::from("alice"), "abab"), LoginOutcome::WrongPassword);
}

#[test]
fn malformed_stored_hash_is_a_credential_fault_not_a_crash() {
    let mut db = Database::new();
    db.insert_user(User {
        id: 1,
        username: String::from("legacy"),
        password: String::from("not-a-bcrypt-hash"),
    });
    assert_eq!(db.login(&String::from("legacy"), "anything"), LoginOutcome::CredentialFault);
}

#[test]
fn registration_survives_a_snapshot_round_trip() {
    let mut db = Database::new();
    db.register(1, String::from("alice"), "secret").expect("hashing must succeed");
    let reloaded = Database::from_snapshot(&db.to_snapshot());
    assert_eq!(reloaded.login(&String::from("alice"), "secret"), LoginOutcome::Success);
    assert_eq!(reloaded.login(&String::from("alice"), "nope"), LoginOutcome::WrongPassword);
}
