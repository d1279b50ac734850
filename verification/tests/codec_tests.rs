use kvslite::codec::{MAX_KEY_SIZE, MAX_VALUE_SIZE};
use kvslite::{Error, Record, RecordKind};

#[test]
fn test_encode_decode_put() {
    let record = Record::put(b"hello".to_vec(), b"world".to_vec()).unwrap();
    let encoded = record.encode().unwrap();

    let (decoded, consumed) = Record::decode(&encoded, 0).unwrap().unwrap();

    assert_eq!(record, decoded);
    assert_eq!(consumed, encoded.len());
}

#[test]
fn test_encode_decode_delete() {
    let record = Record::delete(b"hello".to_vec()).unwrap();
    let encoded = record.encode().unwrap();

    let (decoded, consumed) = Record::decode(&encoded, 0).unwrap().unwrap();

    assert_eq!(record, decoded);
    assert_eq!(consumed, encoded.len());
}

#[test]
fn test_decode_eof() {
    let empty: Vec<u8> = Vec::new();
    let result = Record::decode(&empty, 0).unwrap();
    assert!(result.is_none());
}

#[test]
fn test_decode_corrupted_crc() {
    let record = Record::put(b"key".to_vec(), b"value".to_vec()).unwrap();
    let mut encoded = record.encode().unwrap();

    let len = encoded.len();
    encoded[len - 1] ^= 0xFF;

    let result = Record::decode(&encoded, 0);

    assert!(matches!(result, Err(Error::CrcMismatch { .. })));
}

#[test]
fn test_key_too_large() {
    let large_key = vec![0u8; MAX_KEY_SIZE + 1];
    let result = Record::put(large_key, b"value".to_vec());
    assert!(matches!(result, Err(Error::KeyTooLarge { .. })));
}

#[test]
fn test_value_too_large() {
    let large_value = vec![0u8; MAX_VALUE_SIZE + 1];
    let result = Record::put(b"key".to_vec(), large_value);
    assert!(matches!(result, Err(Error::ValueTooLarge { .. })));
}

#[test]
fn test_encode_exact_layout() {
    // The frame for put("ab", "c"): header fields little-endian, then key,
    // value, and the CRC-32 of bytes [4 .. len-4] as crc32fast computes it.
    let record = Record::put(b"ab".to_vec(), b"c".to_vec()).unwrap();
    let encoded = record.encode().unwrap();

    let mut expected: Vec<u8> = Vec::new();
    expected.extend_from_slice(b"KVSL");
    expected.extend_from_slice(&25u32.to_le_bytes()); // 18 + 2 + 1 + 4
    expected.push(1); // version
    expected.push(1); // kind: put
    expected.extend_from_slice(&2u32.to_le_bytes());
    expected.extend_from_slice(&1u32.to_le_bytes());
    expected.extend_from_slice(b"ab");
    expected.extend_from_slice(b"c");
    let crc = crc32fast::hash(&expected[4..]);
    expected.extend_from_slice(&crc.to_le_bytes());

    assert_eq!(encoded, expected);
}

#[test]
fn test_encode_empty_key_and_value() {
    let record = Record::put(Vec::new(), Vec::new()).unwrap();
    let encoded = record.encode().unwrap();
    assert_eq!(encoded.len(), 22);

    let (decoded, consumed) = Record::decode(&encoded, 0).unwrap().unwrap();
    assert_eq!(decoded.kind, RecordKind::Put);
    assert!(decoded.key.is_empty());
    assert!(decoded.value.is_empty());
    assert_eq!(consumed, 22);
}

#[test]
fn test_decode_invalid_magic() {
    let record = Record::put(b"k".to_vec(), b"v".to_vec()).unwrap();
    let mut encoded = record.encode().unwrap();
    encoded[0] = b'X';

    let result = Record::decode(&encoded, 0);
    match result {
        Err(Error::InvalidMagic { expected, actual }) => {
            assert_eq!(&expected, b"KVSL");
            assert_eq!(&actual, b"XVSL");
        }
        other => panic!("expected InvalidMagic, got {:?}", other),
    }
}

#[test]
fn test_decode_unsupported_version() {
    // A frame whose version byte is 2 but whose CRC is valid must fail on
    // the version, not the CRC.
    let record = Record::put(b"k".to_vec(), b"v".to_vec()).unwrap();
    let mut encoded = record.encode().unwrap();
    encoded[8] = 2;
    let len = encoded.len();
    let crc = crc32fast::hash(&encoded[4..len - 4]);
    encoded[len - 4..].copy_from_slice(&crc.to_le_bytes());

    let result = Record::decode(&encoded, 0);
    assert!(matches!(result, Err(Error::UnsupportedVersion(2))));
}

#[test]
fn test_decode_invalid_record_kind() {
    let record = Record::put(b"k".to_vec(), b"v".to_vec()).unwrap();
    let mut encoded = record.encode().unwrap();
    encoded[9] = 7;
    let len = encoded.len();
    let crc = crc32fast::hash(&encoded[4..len - 4]);
    encoded[len - 4..].copy_from_slice(&crc.to_le_bytes());

    let result = Record::decode(&encoded, 0);
    assert!(matches!(result, Err(Error::InvalidRecordKind(7))));
}

#[test]
fn test_decode_truncated_frame() {
    let record = Record::put(b"key".to_vec(), b"value".to_vec()).unwrap();
    let encoded = record.encode().unwrap();
    let torn = &encoded[..encoded.len() - 3];

    let result = Record::decode(torn, 0);
    assert!(matches!(result, Err(Error::UnexpectedEof)));
}

#[test]
fn test_decode_short_magic() {
    // One to three trailing bytes are a torn frame, not a clean end.
    let result = Record::decode(b"KV", 0);
    assert!(matches!(result, Err(Error::UnexpectedEof)));
}

#[test]
fn test_decode_oversized_declared_key() {
    // A frame declaring key_len above the limit, with a valid CRC, must be
    // rejected for the key length.
    let key = vec![7u8; 16];
    let record = Record::put(key, b"v".to_vec()).unwrap();
    let mut encoded = record.encode().unwrap();
    encoded[10..14].copy_from_slice(&2000u32.to_le_bytes());
    let len = encoded.len();
    let crc = crc32fast::hash(&encoded[4..len - 4]);
    encoded[len - 4..].copy_from_slice(&crc.to_le_bytes());

    let result = Record::decode(&encoded, 0);
    assert!(matches!(result, Err(Error::KeyTooLarge { size: 2000, max: MAX_KEY_SIZE })));
}

#[test]
fn test_single_bit_corruption_detected() {
    // Flipping any single bit anywhere in the frame makes decoding fail;
    // corruption is never silently accepted.
    let record = Record::put(b"bits".to_vec(), b"payload".to_vec()).unwrap();
    let encoded = record.encode().unwrap();

    for i in 0..encoded.len() {
        for bit in 0..8 {
            let mut corrupted = encoded.clone();
            corrupted[i] ^= 1 << bit;
            let result = Record::decode(&corrupted, 0);
            assert!(
                result.is_err(),
                "flip of bit {} in byte {} was accepted",
                bit,
                i
            );
        }
    }
}
