use kvslite::Error;
use std::io;

#[test]
fn test_error_display() {
    let err = Error::CrcMismatch {
        expected: 0x1234,
        actual: 0x5678,
    };
    assert_eq!(err.message(), "CRC mismatch: expected 0x1234, got 0x5678");
}

#[test]
fn test_io_error_conversion() {
    let io_err = io::Error::new(io::ErrorKind::NotFound, "file not found");
    let err: Error = io_err.into();
    assert!(matches!(err, Error::Io(_)));
}

#[test]
fn test_error_messages() {
    assert_eq!(
        Error::UnexpectedEof.message(),
        "Unexpected EOF while reading record"
    );
    assert_eq!(
        Error::UnsupportedVersion(3).message(),
        "Unsupported version: 3"
    );
    assert_eq!(
        Error::InvalidRecordKind(9).message(),
        "Invalid record kind: 9"
    );
    assert_eq!(
        Error::KeyTooLarge { size: 2000, max: 1024 }.message(),
        "Key too large: 2000 bytes (max 1024)"
    );
    assert_eq!(
        Error::ValueTooLarge { size: 2000000, max: 1048576 }.message(),
        "Value too large: 2000000 bytes (max 1048576)"
    );
    assert_eq!(
        Error::InvalidMagic { expected: *b"KVSL", actual: *b"XYZW" }.message(),
        "Invalid magic: expected [75, 86, 83, 76], got [88, 89, 90, 87]"
    );
    assert_eq!(
        Error::CrcMismatch { expected: 0, actual: 0xdeadbeef }.message(),
        "CRC mismatch: expected 0x0, got 0xdeadbeef"
    );
}
