use record_store::store::{Database, Task, User};

fn task(id: u64, name: &str, completed: bool) -> Task {
    Task { id, name: String::from(name), completed }
}

fn user(id: u64, username: &str, password: &str) -> User {
    User { id, username: String::from(username), password: String::from(password) }
}

#[test]
fn snapshot_of_empty_store() {
    let db = Database::new();
    assert_eq!(db.to_snapshot(), "{\"tasks\":{},\"users\":{}}");
}

#[test]
fn snapshot_exact_document() {
    let mut db = Database::new();
    db.insert(task(1, "a", true));
    assert_eq!(
        db.to_snapshot(),
        "{\"tasks\":{\"1\":{\"id\":1,\"name\":\"a\",\"completed\":true}},\"users\":{}}"
    );
}

#[test]
fn snapshot_escapes_quotes_backslashes_and_controls() {
    let mut db = Database::new();
    db.insert(task(2, "say \"hi\"\\\n", false));
    assert_eq!(
        db.to_snapshot(),
        "{\"tasks\":{\"2\":{\"id\":2,\"name\":\"say \\\"hi\\\"\\\\\\u000a\",\"completed\":false}},\"users\":{}}"
    );
}

#[test]
fn round_trip_preserves_all_associations() {
    let mut db = Database::new();
    db.insert(task(1, "plain", false));
    db.insert(task(2, "with \"quotes\" and \\slashes\\", true));
    db.insert(task(u64::MAX, "tab\there", false));
    db.insert_user(user(10, "alice", "$2b$12$abcdefghijklmnopqrstuv"));
    db.insert_user(user(11, "bob", "hash two"));
    let reloaded = Database::from_snapshot(&db.to_snapshot());

    let all = reloaded.get_all();
    assert_eq!(all.len(), 3);
    let t1 = reloaded.get(1).expect("task 1 survives");
    assert_eq!(t1.name, "plain");
    assert_eq!(t1.completed, false);
    let t2 = reloaded.get(2).expect("task 2 survives");
    assert_eq!(t2.name, "with \"quotes\" and \\slashes\\");
    assert_eq!(t2.completed, true);
    let t3 = reloaded.get(u64::MAX).expect("largest id survives");
    assert_eq!(t3.name, "tab\there");

    let alice = reloaded.get_user_by_name(&String::from("alice")).expect("alice survives");
    assert_eq!(alice.id, 10);
    assert_eq!(alice.password, "$2b$12$abcdefghijklmnopqrstuv");
    let bob = reloaded.get_user_by_name(&String::from("bob")).expect("bob survives");
    assert_eq!(bob.id, 11);
}

#[test]
fn round_trip_of_empty_store() {
    let db = Database::new();
    let reloaded = Database::from_snapshot(&db.to_snapshot());
    assert_eq!(reloaded.get_all().len(), 0);
    assert!(reloaded.get_user_by_name(&String::from("anyone")).is_none());
}

#[test]
fn corrupt_snapshot_yields_empty_store() {
    for text in [
        "",
        "garbage",
        "{\"tasks\":{},\"users\":{}",
        "{\"tasks\":{\"1\":{\"id\":2,\"name\":\"a\",\"completed\":true}},\"users\":{}}",
        "{\"tasks\":{\"01\":{\"id\":1,\"name\":\"a\",\"completed\":true}},\"users\":{}}",
        "{\"tasks\":{},\"users\":{}} ",
        "{\"tasks\":{\"1\":{\"id\":1,\"name\":\"a\",\"completed\":maybe}},\"users\":{}}",
        "{\"tasks\":{\"99999999999999999999999\":{\"id\":1,\"name\":\"a\",\"completed\":true}},\"users\":{}}",
    ] {
        let db = Database::from_snapshot(text);
        assert_eq!(db.get_all().len(), 0, "input must load as empty: {text}");
    }
}

#[test]
fn canonical_snapshot_parses_back() {
    let text = "{\"tasks\":{\"5\":{\"id\":5,\"name\":\"x\",\"completed\":false}},\"users\":{\"1\":{\"id\":1,\"username\":\"u\",\"password\":\"p\"}}}";
    let db = Database::from_snapshot(text);
    assert_eq!(db.get(5).expect("task must load").name, "x");
    let u = db.get_user_by_name(&String::from("u")).expect("user must load");
    assert_eq!(u.password, "p");
    assert_eq!(db.to_snapshot(), text);
}

#[test]
fn duplicate_keys_in_snapshot_keep_last_write() {
    let text = "{\"tasks\":{\"1\":{\"id\":1,\"name\":\"first\",\"completed\":false},\"1\":{\"id\":1,\"name\":\"second\",\"completed\":true}},\"users\":{}}";
    let db = Database::from_snapshot(text);
    assert_eq!(db.get_all().len(), 1);
    assert_eq!(db.get(1).expect("task must load").name, "second");
}
