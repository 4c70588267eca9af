use mini_redis::database::Database;

#[test]
fn set_then_get_without_expiry() {
    let mut db = Database::new("".to_string(), 6379);
    let prev = db.set(&"k".to_string(), &"v".to_string(), 0);
    assert_eq!(prev, None);
    assert_eq!(db.get(&"k".to_string()), Some(&"v".to_string()));
}

#[test]
fn never_expires_at_any_later_time() {
    let mut db = Database::new("".to_string(), 6379);
    db.set_at(&"k".to_string(), &"v".to_string(), 0, 1_000);
    assert_eq!(db.get_at(&"k".to_string(), 1_000), Some(&"v".to_string()));
    assert_eq!(db.get_at(&"k".to_string(), u64::MAX), Some(&"v".to_string()));
}

#[test]
fn expiration_boundary() {
    let mut db = Database::new("".to_string(), 6379);
    db.set_at(&"k".to_string(), &"v".to_string(), 100, 1_000);
    assert_eq!(db.get_at(&"k".to_string(), 1_000), Some(&"v".to_string()));
    assert_eq!(db.get_at(&"k".to_string(), 1_100), Some(&"v".to_string()));
    assert_eq!(db.get_at(&"k".to_string(), 1_101), None);
}

#[test]
fn overwrite_returns_previous_value() {
    let mut db = Database::new("".to_string(), 6379);
    assert_eq!(db.set(&"k".to_string(), &"a".to_string(), 0), None);
    assert_eq!(db.set(&"k".to_string(), &"b".to_string(), 0), Some("a".to_string()));
    assert_eq!(db.get(&"k".to_string()), Some(&"b".to_string()));
}

#[test]
fn overwrite_of_expired_entry_still_returns_it() {
    let mut db = Database::new("".to_string(), 6379);
    db.set_at(&"k".to_string(), &"old".to_string(), 10, 1_000);
    assert_eq!(db.get_at(&"k".to_string(), 2_000), None);
    let prev = db.set_at(&"k".to_string(), &"new".to_string(), 0, 2_000);
    assert_eq!(prev, Some("old".to_string()));
    assert_eq!(db.get_at(&"k".to_string(), 2_000), Some(&"new".to_string()));
}

#[test]
fn get_of_absent_key() {
    let db = Database::new("".to_string(), 6379);
    assert_eq!(db.get(&"missing".to_string()), None);
}

#[test]
fn role_reporting_master() {
    let db = Database::new("".to_string(), 6379);
    assert_eq!(db.host_info(), Some("role:master".to_string()));
}

#[test]
fn role_reporting_replica() {
    let db = Database::new("localhost".to_string(), 6380);
    assert_eq!(db.host_info(), Some("role:slave".to_string()));
}

#[test]
fn informational_accessors() {
    let db = Database::new("".to_string(), 7001);
    assert_eq!(db.current_port_info(), Some(7001));
    assert_eq!(
        db.repl_id(),
        Some("master_replid:8371b4fb1155b71f4a04d3e1bc3e18c4a990aeeb".to_string())
    );
    assert_eq!(db.repl_offset(), Some("master_repl_offset:0".to_string()));
}
