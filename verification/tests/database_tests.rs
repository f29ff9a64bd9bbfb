use minikv::database::Database;
use minikv::types::TypedValue;

#[test]
fn database_insert_and_delete() {
    let mut db = Database::new();
    db.set("foo", TypedValue::Text(String::from("bar")));
    assert_eq!(
        db.get("foo"),
        Some(&TypedValue::Text(String::from("bar")))
    )
}

#[test]
fn store_overwrite_keeps_second_value() {
    let mut db = Database::new();
    db.set("k", TypedValue::Text(String::from("v1")));
    db.set("k", TypedValue::Text(String::from("v2")));
    assert_eq!(db.get("k"), Some(&TypedValue::Text(String::from("v2"))));
}

#[test]
fn missing_key_yields_none() {
    let mut db = Database::new();
    assert_eq!(db.get("never"), None);
    db.set("other", TypedValue::Numeric(String::from("3.0")));
    assert_eq!(db.get("never"), None);
}

#[test]
fn distinct_keys_stay_separate() {
    let mut db = Database::new();
    db.set("a", TypedValue::Text(String::from("1")));
    db.set("b", TypedValue::Text(String::from("2")));
    assert_eq!(db.get("a"), Some(&TypedValue::Text(String::from("1"))));
    assert_eq!(db.get("b"), Some(&TypedValue::Text(String::from("2"))));
}

#[test]
fn empty_key_and_value_are_legal() {
    let mut db = Database::new();
    db.set("", TypedValue::Text(String::new()));
    assert_eq!(db.get(""), Some(&TypedValue::Text(String::new())));
}
