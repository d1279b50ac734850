use kvslite::KvStore;

#[test]
fn test_store_set_get() {
    let mut store = KvStore::open(Vec::new());

    store.set("name".to_string(), "alice".to_string());
    store.set("city".to_string(), "paris".to_string());

    assert_eq!(store.get("name"), Some("alice"));
    assert_eq!(store.get("city"), Some("paris"));
    assert_eq!(store.get("missing"), None);
}

#[test]
fn test_store_overwrite() {
    let mut store = KvStore::open(Vec::new());

    store.set("k".to_string(), "first".to_string());
    store.set("k".to_string(), "second".to_string());

    assert_eq!(store.get("k"), Some("second"));
    assert_eq!(store.pairs().len(), 1);
}

#[test]
fn test_store_remove_and_clear() {
    let mut store = KvStore::open(Vec::new());

    store.set("a".to_string(), "1".to_string());
    store.set("b".to_string(), "2".to_string());

    store.remove("a");
    assert_eq!(store.get("a"), None);
    assert_eq!(store.get("b"), Some("2"));

    store.remove("a");
    assert_eq!(store.get("a"), None);

    store.clear();
    assert_eq!(store.get("b"), None);
    assert!(store.pairs().is_empty());
}

#[test]
fn test_store_open_from_pairs() {
    let pairs = vec![
        ("a".to_string(), "1".to_string()),
        ("b".to_string(), "2".to_string()),
        ("a".to_string(), "3".to_string()),
    ];
    let store = KvStore::open(pairs);

    // The later binding of a duplicated key wins.
    assert_eq!(store.get("a"), Some("3"));
    assert_eq!(store.get("b"), Some("2"));
    assert_eq!(store.pairs().len(), 2);
}

#[test]
fn test_store_pairs_round_trip() {
    let mut store = KvStore::open(Vec::new());
    store.set("x".to_string(), "10".to_string());
    store.set("y".to_string(), "20".to_string());

    let reopened = KvStore::open(store.pairs().clone());
    assert_eq!(reopened.get("x"), Some("10"));
    assert_eq!(reopened.get("y"), Some("20"));
}
