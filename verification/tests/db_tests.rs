use kvslite::{Db, Options};

fn fresh_db() -> Db {
    Db::open(Vec::new(), Options::default()).0
}

fn reopen(db: &Db) -> Db {
    Db::open(db.log_bytes().clone(), Options::default()).0
}

#[test]
fn test_put_get() {
    let mut db = fresh_db();

    db.put(b"key1", b"value1").unwrap();
    db.put(b"key2", b"value2").unwrap();

    assert_eq!(db.get(b"key1").unwrap().as_deref(), Some(b"value1" as &[u8]));
    assert_eq!(db.get(b"key2").unwrap().as_deref(), Some(b"value2" as &[u8]));
    assert_eq!(db.get(b"key3").unwrap(), None);
}

#[test]
fn test_overwrite() {
    let mut db = fresh_db();

    db.put(b"key", b"value1").unwrap();
    db.put(b"key", b"value2").unwrap();

    assert_eq!(db.get(b"key").unwrap().as_deref(), Some(b"value2" as &[u8]));
}

#[test]
fn test_delete() {
    let mut db = fresh_db();

    db.put(b"key", b"value").unwrap();
    assert_eq!(db.get(b"key").unwrap().as_deref(), Some(b"value" as &[u8]));

    db.delete(b"key").unwrap();
    assert_eq!(db.get(b"key").unwrap(), None);
}

#[test]
fn test_reopen_persistence() {
    let mut db = fresh_db();
    db.put(b"key1", b"value1").unwrap();
    db.put(b"key2", b"value2").unwrap();
    db.delete(b"key1").unwrap();

    let mut db = reopen(&db);
    assert_eq!(db.get(b"key1").unwrap(), None);
    assert_eq!(db.get(b"key2").unwrap().as_deref(), Some(b"value2" as &[u8]));
}

#[test]
fn db_test_stats() {
    let mut db = fresh_db();

    db.put(b"key1", b"value1").unwrap();
    db.put(b"key2", b"value2").unwrap();

    let stats = db.stats();
    assert_eq!(stats.key_count, 2);
    assert!(stats.wal_size > 0);
}

#[test]
fn test_large_value() {
    let mut db = fresh_db();

    let large_value = vec![0xAB; 1024 * 1024];
    db.put(b"large", &large_value).unwrap();

    let retrieved = db.get(b"large").unwrap().unwrap();
    assert_eq!(retrieved, large_value);
}

#[test]
fn test_sync_option() {
    let opts = Options { sync_on_write: false };
    let mut db = Db::open(Vec::new(), opts).0;

    db.put(b"key", b"value").unwrap();
    assert_eq!(db.get(b"key").unwrap().as_deref(), Some(b"value" as &[u8]));
}

#[test]
fn test_oversized_put_rejected() {
    let mut db = fresh_db();
    let size_before = db.stats().wal_size;

    let large_key = vec![0u8; 1025];
    assert!(matches!(
        db.put(&large_key, b"v"),
        Err(kvslite::Error::KeyTooLarge { .. })
    ));
    let large_value = vec![0u8; 1024 * 1024 + 1];
    assert!(matches!(
        db.put(b"k", &large_value),
        Err(kvslite::Error::ValueTooLarge { .. })
    ));

    // A refused mutation writes nothing.
    assert_eq!(db.stats().wal_size, size_before);
    assert_eq!(db.stats().key_count, 0);
}

#[test]
fn test_idempotent_delete() {
    let mut db = fresh_db();
    db.put(b"k", b"v").unwrap();

    db.delete(b"k").unwrap();
    db.delete(b"k").unwrap();

    let mut db = reopen(&db);
    assert_eq!(db.get(b"k").unwrap(), None);
}

#[test]
fn test_reopen_after_garbage_suffix() {
    // Scenario: two live keys, then literal garbage appended to the log.
    // Reopening repairs by truncation and keeps both keys readable.
    let mut db = fresh_db();
    db.put(b"hello", b"world").unwrap();
    db.put(b"foo", b"bar").unwrap();

    let mut log = db.log_bytes().clone();
    log.extend_from_slice(b"KVSL garbage data");

    let (mut db, stats) = Db::open(log, Options::default());
    assert_eq!(stats.corrupted_records, 1);
    assert!(stats.truncated_bytes > 0);
    assert_eq!(db.get(b"hello").unwrap().as_deref(), Some(b"world" as &[u8]));
    assert_eq!(db.get(b"foo").unwrap().as_deref(), Some(b"bar" as &[u8]));
}
