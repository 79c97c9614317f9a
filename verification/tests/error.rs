use kv_engine::error::{io_message, key_message, KvError, Result};

#[test]
fn display_io_error() {
    let io_err = std::io::Error::new(std::io::ErrorKind::NotFound, "file missing");
    let err = KvError::from(io_err);
    assert!(err.to_string().contains("IO error"));
    assert!(err.to_string().contains("file missing"));
}

#[test]
fn display_corruption() {
    let err = KvError::Corruption("bad header byte".to_string());
    assert_eq!(err.to_string(), "data corruption: bad header byte");
}

#[test]
fn display_key_not_found() {
    let err = KvError::KeyNotFound(b"mykey".to_vec());
    assert!(err.to_string().contains("mykey"));
    assert_eq!(err.to_string(), "key not found: \"mykey\"");
}

#[test]
fn display_checksum_mismatch() {
    let err = KvError::ChecksumMismatch {
        expected: 0xdeadbeef,
        actual: 0x00000000,
    };
    let s = err.to_string();
    assert!(s.contains("deadbeef"));
    assert!(s.contains("00000000"));
}

#[test]
fn display_closed() {
    let err = KvError::Closed;
    assert_eq!(err.to_string(), "database is closed");
}

#[test]
fn io_error_from_conversion() {
    let io_err = std::io::Error::new(std::io::ErrorKind::PermissionDenied, "no access");
    let err: KvError = io_err.into();
    assert!(matches!(err, KvError::Io(_)));
}

#[test]
fn io_error_source_chain() {
    let io_err = std::io::Error::new(std::io::ErrorKind::Other, "root cause");
    let err = KvError::from(io_err);
    // source() should return the inner io::Error
    assert!(err.source().is_some());
}

#[test]
fn non_io_error_has_no_source() {
    let err = KvError::Internal("oops".to_string());
    assert!(err.source().is_none());
}

#[test]
fn result_alias_works() {
    fn returns_ok() -> Result<i32> {
        Ok(42)
    }
    fn returns_err() -> Result<i32> {
        Err(KvError::Closed)
    }
    assert_eq!(returns_ok().unwrap(), 42);
    assert!(returns_err().is_err());
}

#[test]
fn messages_keep_the_text() {
    assert_eq!(io_message("disk full"), "IO error: disk full");
    assert_eq!(key_message("\"k\""), "key not found: \"k\"");
    let err = KvError::from(std::io::Error::new(std::io::ErrorKind::Other, "disk full"));
    assert_eq!(err.to_string(), "IO error: disk full");
}

#[test]
fn checksum_numbers_are_padded_hex() {
    let err = KvError::ChecksumMismatch { expected: 0xff, actual: 0xdead_beef };
    assert_eq!(err.to_string(), "checksum mismatch: expected 0x000000ff, got 0xdeadbeef");
}

#[test]
fn keys_that_are_no_text_are_shown_lossily_and_quoted() {
    let err = KvError::KeyNotFound(vec![0xff, b'a']);
    assert_eq!(err.to_string(), "key not found: \"\u{fffd}a\"");
    let err = KvError::KeyNotFound(b"say \"hi\"\n".to_vec());
    assert_eq!(err.to_string(), "key not found: \"say \\\"hi\\\"\\n\"");
}

#[test]
fn remaining_messages() {
    assert_eq!(KvError::InvalidArgument("bad".to_string()).to_string(), "invalid argument: bad");
    assert_eq!(KvError::Internal("oops".to_string()).to_string(), "internal error: oops");
}

#[test]
fn only_io_errors_have_a_source() {
    assert!(KvError::Closed.source().is_none());
    assert!(KvError::Corruption("x".to_string()).source().is_none());
    assert!(KvError::KeyNotFound(vec![1]).source().is_none());
    assert!(KvError::InvalidArgument("x".to_string()).source().is_none());
    assert!(KvError::ChecksumMismatch { expected: 1, actual: 2 }.source().is_none());
    let err = KvError::from(std::io::Error::new(std::io::ErrorKind::NotFound, "gone"));
    assert_eq!(err.source().unwrap().kind(), std::io::ErrorKind::NotFound);
}
