//! End-to-end use of the store: basic operations, recovery across
//! reopens, and edge cases.

use kvslite::{Db, Options};

fn fresh_db() -> Db {
    Db::open(Vec::new(), Options::default()).0
}

fn reopen(db: &Db) -> Db {
    Db::open(db.log_bytes().clone(), Options::default()).0
}

#[test]
fn test_basic_operations() {
    let mut db = fresh_db();

    db.put(b"hello", b"world").unwrap();
    db.put(b"foo", b"bar").unwrap();

    assert_eq!(db.get(b"hello").unwrap().as_deref(), Some(b"world" as &[u8]));
    assert_eq!(db.get(b"foo").unwrap().as_deref(), Some(b"bar" as &[u8]));
    assert_eq!(db.get(b"nonexistent").unwrap(), None);

    db.delete(b"hello").unwrap();
    assert_eq!(db.get(b"hello").unwrap(), None);
}

#[test]
fn test_last_write_wins() {
    let mut db = fresh_db();

    db.put(b"key", b"value1").unwrap();
    db.put(b"key", b"value2").unwrap();
    db.put(b"key", b"value3").unwrap();

    assert_eq!(db.get(b"key").unwrap().as_deref(), Some(b"value3" as &[u8]));
}

#[test]
fn test_persistence_across_reopen() {
    let mut db = fresh_db();
    db.put(b"persistent", b"data").unwrap();
    db.put(b"key1", b"value1").unwrap();
    db.put(b"key2", b"value2").unwrap();

    let mut db = reopen(&db);
    assert_eq!(
        db.get(b"persistent").unwrap().as_deref(),
        Some(b"data" as &[u8])
    );
    assert_eq!(db.get(b"key1").unwrap().as_deref(), Some(b"value1" as &[u8]));
    assert_eq!(db.get(b"key2").unwrap().as_deref(), Some(b"value2" as &[u8]));
}

#[test]
fn test_delete_and_reopen() {
    let mut db = fresh_db();
    db.put(b"temp", b"value").unwrap();
    db.delete(b"temp").unwrap();

    let mut db = reopen(&db);
    assert_eq!(db.get(b"temp").unwrap(), None);
}

#[test]
fn test_empty_key() {
    let mut db = fresh_db();

    db.put(b"", b"empty_key_value").unwrap();
    assert_eq!(
        db.get(b"").unwrap().as_deref(),
        Some(b"empty_key_value" as &[u8])
    );
}

#[test]
fn test_empty_value() {
    let mut db = fresh_db();

    db.put(b"empty_value", b"").unwrap();
    assert_eq!(db.get(b"empty_value").unwrap().as_deref(), Some(b"" as &[u8]));
}

#[test]
fn test_many_keys() {
    let mut db = fresh_db();

    for i in 0..1000 {
        let key = format!("key_{}", i);
        let value = format!("value_{}", i);
        db.put(key.as_bytes(), value.as_bytes()).unwrap();
    }

    for i in 0..1000 {
        let key = format!("key_{}", i);
        let expected_value = format!("value_{}", i);
        assert_eq!(
            db.get(key.as_bytes()).unwrap().as_deref(),
            Some(expected_value.as_bytes())
        );
    }

    let stats = db.stats();
    assert_eq!(stats.key_count, 1000);
}

#[test]
fn test_binary_data() {
    let mut db = fresh_db();

    let binary_key = b"\x00\x01\x02\xFF";
    let binary_value = b"\xDE\xAD\xBE\xEF";

    db.put(binary_key, binary_value).unwrap();
    assert_eq!(
        db.get(binary_key).unwrap().as_deref(),
        Some(binary_value as &[u8])
    );
}

#[test]
fn test_no_sync_mode() {
    let opts = Options { sync_on_write: false };
    let mut db = Db::open(Vec::new(), opts).0;

    db.put(b"fast_key", b"fast_value").unwrap();
    assert_eq!(
        db.get(b"fast_key").unwrap().as_deref(),
        Some(b"fast_value" as &[u8])
    );
}

#[test]
fn integration_tests_test_stats() {
    let mut db = fresh_db();

    let initial_stats = db.stats();
    assert_eq!(initial_stats.key_count, 0);

    db.put(b"key1", b"value1").unwrap();
    db.put(b"key2", b"value2").unwrap();

    let stats = db.stats();
    assert_eq!(stats.key_count, 2);
    assert!(stats.wal_size > 0);

    db.delete(b"key1").unwrap();

    let stats = db.stats();
    assert_eq!(stats.key_count, 1);
}
