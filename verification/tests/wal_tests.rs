use kvslite::{Record, RecordKind, Wal};

#[test]
fn test_create_new_wal() {
    let (wal, records, stats) = Wal::open(Vec::new());

    assert_eq!(records.len(), 0);
    assert_eq!(stats.valid_records, 0);
    assert_eq!(wal.size(), 0);
}

#[test]
fn test_append_and_replay() {
    // Append a few records, then replay the bytes as a fresh open would.
    let log = {
        let (mut wal, _, _) = Wal::open(Vec::new());

        let r1 = Record::put(b"key1".to_vec(), b"value1".to_vec()).unwrap();
        let r2 = Record::put(b"key2".to_vec(), b"value2".to_vec()).unwrap();
        let r3 = Record::delete(b"key1".to_vec()).unwrap();

        wal.append(&r1, true).unwrap();
        wal.append(&r2, true).unwrap();
        wal.append(&r3, true).unwrap();
        wal.contents().clone()
    };

    let (_, records, stats) = Wal::open(log);

    assert_eq!(records.len(), 3);
    assert_eq!(stats.valid_records, 3);
    assert_eq!(stats.corrupted_records, 0);
    assert_eq!(stats.truncated_bytes, 0);

    assert_eq!(records[0].key, b"key1");
    assert_eq!(records[0].value, b"value1");
    assert_eq!(records[1].key, b"key2");
    assert_eq!(records[2].kind, RecordKind::Delete);
}

#[test]
fn test_read_at() {
    let (mut wal, _, _) = Wal::open(Vec::new());

    let r1 = Record::put(b"k1".to_vec(), b"v1".to_vec()).unwrap();
    let r2 = Record::put(b"k2".to_vec(), b"v2value2".to_vec()).unwrap();

    let offset1 = wal.append(&r1, true).unwrap();
    let offset2 = wal.append(&r2, true).unwrap();

    let r1_encoded = r1.encode().unwrap();
    let data1 = wal.read_at(offset1, r1_encoded.len()).unwrap();
    assert!(data1.starts_with(b"KVSL"));

    let r2_encoded = r2.encode().unwrap();
    let data2 = wal.read_at(offset2, r2_encoded.len()).unwrap();
    assert!(data2.starts_with(b"KVSL"));
}

#[test]
fn test_replay_with_corruption() {
    // Two whole records followed by a torn write: replay keeps the records
    // and truncates the garbage.
    let mut log = {
        let (mut wal, _, _) = Wal::open(Vec::new());
        let r1 = Record::put(b"key1".to_vec(), b"value1".to_vec()).unwrap();
        let r2 = Record::put(b"key2".to_vec(), b"value2".to_vec()).unwrap();
        wal.append(&r1, true).unwrap();
        wal.append(&r2, true).unwrap();
        wal.contents().clone()
    };

    log.extend_from_slice(b"KVSL garbage data");

    let (wal, records, stats) = Wal::open(log);

    assert_eq!(records.len(), 2);
    assert_eq!(stats.valid_records, 2);
    assert_eq!(stats.corrupted_records, 1);
    assert!(stats.truncated_bytes > 0);

    let file_len = wal.size();
    assert!(file_len > 0);
    assert!(file_len < 100);
}

#[test]
fn test_read_at_out_of_bounds() {
    let (mut wal, _, _) = Wal::open(Vec::new());
    let r = Record::put(b"k".to_vec(), b"v".to_vec()).unwrap();
    wal.append(&r, true).unwrap();

    let result = wal.read_at(wal.size(), 1);
    assert!(matches!(result, Err(kvslite::Error::Io(_))));
}

#[test]
fn test_replay_truncates_torn_tail() {
    // A prefix of one whole frame plus a half-written second frame: the
    // half frame is cut off exactly at the first frame's end.
    let r1 = Record::put(b"alpha".to_vec(), b"one".to_vec()).unwrap();
    let r2 = Record::put(b"beta".to_vec(), b"two".to_vec()).unwrap();
    let f1 = r1.encode().unwrap();
    let f2 = r2.encode().unwrap();

    let mut log = f1.clone();
    log.extend_from_slice(&f2[..f2.len() / 2]);

    let (wal, records, stats) = Wal::open(log);

    assert_eq!(records.len(), 1);
    assert_eq!(records[0].key, b"alpha");
    assert_eq!(stats.corrupted_records, 1);
    assert_eq!(stats.truncated_bytes, (f2.len() / 2) as u64);
    assert_eq!(wal.size(), f1.len() as u64);
    assert_eq!(wal.contents(), &f1);
}
