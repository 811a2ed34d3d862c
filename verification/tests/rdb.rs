use miniredis::parser::{RDBError, RDBParser};
use miniredis::response::Value;

fn snapshot(body: &[u8]) -> Vec<u8> {
    let mut bytes = b"REDIS0003".to_vec();
    bytes.extend_from_slice(body);
    bytes
}

#[test]
fn decodes_a_plain_entry() {
    let bytes = snapshot(&[
        0x00, 0x03, b'f', b'o', b'o', 0x03, b'b', b'a', b'r', 0xFF,
    ]);
    let mut parser = RDBParser::new(&bytes);
    let rdb = parser.parse().expect("snapshot should decode");
    let entry = rdb.get(b"foo").expect("key should be present");
    assert_eq!(entry.value, Value::String(b"bar".to_vec()));
    assert_eq!(entry.expiry, None);
    assert_eq!(rdb.get_keys(), vec![b"foo".to_vec()]);
}

#[test]
fn decodes_millisecond_expiry() {
    let mut body = vec![0xFC];
    body.extend_from_slice(&5000u64.to_le_bytes());
    body.extend_from_slice(&[0x00, 0x01, b'k', 0x01, b'v', 0xFF]);
    let bytes = snapshot(&body);
    let mut parser = RDBParser::new(&bytes);
    let rdb = parser.parse().expect("snapshot should decode");
    let entry = rdb.get(b"k").expect("key should be present");
    assert_eq!(entry.expiry, Some(5000));
}

#[test]
fn second_expiry_scales_to_milliseconds() {
    let mut body = vec![0xFD];
    body.extend_from_slice(&7u32.to_le_bytes());
    body.extend_from_slice(&[0x00, 0x01, b'k', 0x01, b'v', 0xFF]);
    let bytes = snapshot(&body);
    let mut parser = RDBParser::new(&bytes);
    let rdb = parser.parse().expect("snapshot should decode");
    let entry = rdb.get(b"k").expect("key should be present");
    assert_eq!(entry.expiry, Some(7000));
}

#[test]
fn auxiliary_fields_are_skipped() {
    let bytes = snapshot(&[
        0xFA, b'j', b'u', b'n', b'k', // skipped until the next opcode
        0xFE, 0x02, // select database 2
        0xFB, 0x09, 0x09, // size hints: two raw bytes, discarded
        0x00, 0x01, b'k', 0x01, b'v', 0xFF,
    ]);
    let mut parser = RDBParser::new(&bytes);
    let rdb = parser.parse().expect("snapshot should decode");
    assert_eq!(rdb.current_db(), 2);
    assert!(rdb.get(b"k").is_some());
}

#[test]
fn wide_length_encoding_is_accepted() {
    // A key whose length takes the 254-prefixed 32-bit form.
    let mut body = vec![0x00, 0xFE];
    body.extend_from_slice(&3u32.to_le_bytes());
    body.extend_from_slice(&[b'f', b'o', b'o', 0x03, b'b', b'a', b'r', 0xFF]);
    let bytes = snapshot(&body);
    let mut parser = RDBParser::new(&bytes);
    let rdb = parser.parse().expect("snapshot should decode");
    assert!(rdb.get(b"foo").is_some());
}

#[test]
fn trailing_bytes_after_eof_are_ignored() {
    let bytes = snapshot(&[0xFF, 0xDE, 0xAD, 0xBE, 0xEF]);
    let mut parser = RDBParser::new(&bytes);
    let rdb = parser.parse().expect("snapshot should decode");
    assert_eq!(rdb.get_keys(), Vec::<Vec<u8>>::new());
}

#[test]
fn bad_magic_is_fatal() {
    let mut parser = RDBParser::new(b"RODIS0003\xFF");
    assert_eq!(parser.parse().unwrap_err(), RDBError::InvalidMagicNumber);
}

#[test]
fn bad_version_is_fatal() {
    let mut parser = RDBParser::new(b"REDIS0009\xFF");
    assert_eq!(parser.parse().unwrap_err(), RDBError::InvalidVersion);
}

#[test]
fn length_byte_255_is_fatal() {
    let bytes = snapshot(&[0x00, 0xFF]);
    let mut parser = RDBParser::new(&bytes);
    assert_eq!(parser.parse().unwrap_err(), RDBError::InvalidLength);
}

#[test]
fn non_utf8_string_is_fatal() {
    let bytes = snapshot(&[0x00, 0x01, 0x80, 0x01, b'v', 0xFF]);
    let mut parser = RDBParser::new(&bytes);
    assert_eq!(parser.parse().unwrap_err(), RDBError::InvalidString);
}

#[test]
fn non_string_value_type_is_fatal() {
    let bytes = snapshot(&[0x05, 0x03, b'f', b'o', b'o', 0xFF]);
    let mut parser = RDBParser::new(&bytes);
    assert_eq!(parser.parse().unwrap_err(), RDBError::InvalidType);
}

#[test]
fn truncation_is_fatal() {
    for case in [
        &b"REDIS"[..],
        b"REDIS0003",
        b"REDIS0003\x00\x03fo",
        b"REDIS0003\xFC\x01\x02",
    ] {
        let mut parser = RDBParser::new(case);
        assert_eq!(parser.parse().unwrap_err(), RDBError::UnexpectedEOF);
    }
}

#[test]
fn later_entries_replace_earlier_ones() {
    let bytes = snapshot(&[
        0x00, 0x01, b'k', 0x01, b'a', 0x00, 0x01, b'k', 0x01, b'b', 0xFF,
    ]);
    let mut parser = RDBParser::new(&bytes);
    let rdb = parser.parse().expect("snapshot should decode");
    let entry = rdb.get(b"k").expect("key should be present");
    assert_eq!(entry.value, Value::String(b"b".to_vec()));
    assert_eq!(rdb.get_keys().len(), 1);
}
