use record_store::store::{Database, Task, User};

fn task(id: u64, name: &str, completed: bool) -> Task {
    Task { id, name: String::from(name), completed }
}

fn user(id: u64, username: &str, password: &str) -> User {
    User { id, username: String::from(username), password: String::from(password) }
}

#[test]
fn insert_then_get_returns_inserted_value() {
    let mut db = Database::new();
    db.insert(task(7, "write report", false));
    let got = db.get(7).expect("inserted task must be found");
    assert_eq!(got.id, 7);
    assert_eq!(got.name, "write report");
    assert_eq!(got.completed, false);
}

#[test]
fn get_absent_id_returns_none() {
    let db = Database::new();
    assert!(db.get(1).is_none());
}

#[test]
fn insert_overwrites_same_id() {
    let mut db = Database::new();
    db.insert(task(1, "first", false));
    db.insert(task(1, "second", true));
    let got = db.get(1).expect("task must be found");
    assert_eq!(got.name, "second");
    assert_eq!(got.completed, true);
    assert_eq!(db.get_all().len(), 1);
}

#[test]
fn update_replaces_value_for_existing_id() {
    let mut db = Database::new();
    db.insert(task(3, "draft", false));
    db.update(task(3, "draft", true));
    let got = db.get(3).expect("task must be found");
    assert_eq!(got.completed, true);
}

#[test]
fn update_nonexistent_id_creates_it() {
    let mut db = Database::new();
    db.update(task(9, "appeared", false));
    let got = db.get(9).expect("updated-in task must exist");
    assert_eq!(got.name, "appeared");
}

#[test]
fn delete_removes_id_and_absent_delete_is_noop() {
    let mut db = Database::new();
    db.insert(task(4, "to go", false));
    db.delete(4);
    assert!(db.get(4).is_none());
    db.delete(4);
    assert!(db.get(4).is_none());
    db.delete(12345);
    assert_eq!(db.get_all().len(), 0);
}

#[test]
fn get_all_cardinality_matches_live_entities() {
    let mut db = Database::new();
    db.insert(task(1, "a", false));
    db.insert(task(2, "b", false));
    db.insert(task(3, "c", true));
    db.insert(task(2, "b again", true));
    assert_eq!(db.get_all().len(), 3);
    db.delete(1);
    assert_eq!(db.get_all().len(), 2);
}

#[test]
fn serialized_mutations_keep_one_entity_per_id() {
    let mut db = Database::new();
    for i in 0..20u64 {
        db.insert(task(i, "item", false));
    }
    assert_eq!(db.get_all().len(), 20);
    let reloaded = Database::from_snapshot(&db.to_snapshot());
    assert_eq!(reloaded.get_all().len(), 20);
}

#[test]
fn get_user_by_name_finds_first_match() {
    let mut db = Database::new();
    db.insert_user(user(1, "alice", "h1"));
    db.insert_user(user(2, "bob", "h2"));
    let got = db.get_user_by_name(&String::from("bob")).expect("bob must be found");
    assert_eq!(got.id, 2);
    assert!(db.get_user_by_name(&String::from("carol")).is_none());
}

#[test]
fn insert_user_overwrites_same_id() {
    let mut db = Database::new();
    db.insert_user(user(1, "alice", "h1"));
    db.insert_user(user(1, "alicia", "h2"));
    assert!(db.get_user_by_name(&String::from("alice")).is_none());
    let got = db.get_user_by_name(&String::from("alicia")).expect("must be found");
    assert_eq!(got.password, "h2");
}
