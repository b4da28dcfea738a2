use lsm5::codec::{crc32, crc_feed, CRC32C_POLY};
use lsm5::error::Error;
use lsm5::wal::{encode_delete, encode_put, parse_wal, WalRecord};

#[test]
fn test_wal_write_and_replay() {
    let mut log: Vec<u8> = Vec::new();
    log.extend(encode_put(b"key1", b"value1"));
    log.extend(encode_put(b"key2", b"value2"));
    log.extend(encode_delete(b"key1"));
    let records = parse_wal(&log).unwrap();
    assert_eq!(records.len(), 3);
    match &records[0] {
        WalRecord::Put { key, value } => {
            assert_eq!(key, b"key1");
            assert_eq!(value, b"value1");
        }
        _ => panic!("Expected Put"),
    }
    match &records[2] {
        WalRecord::Delete { key } => {
            assert_eq!(key, b"key1");
        }
        _ => panic!("Expected Delete"),
    }
}

#[test]
fn test_wal_empty_file() {
    let records = parse_wal(&[]).unwrap();
    assert!(records.is_empty());
}

#[test]
fn test_wal_binary_key_value() {
    let binary_key: Vec<u8> = vec![0x00, 0x01, 0x02, 0xFF];
    let binary_val: Vec<u8> = vec![0xFE, 0xFD, 0xFC];
    let log = encode_put(&binary_key, &binary_val);
    let records = parse_wal(&log).unwrap();
    assert_eq!(records.len(), 1);
    match &records[0] {
        WalRecord::Put { key, value } => {
            assert_eq!(key, &vec![0x00, 0x01, 0x02, 0xFF]);
            assert_eq!(value, &vec![0xFE, 0xFD, 0xFC]);
        }
        _ => panic!("Expected Put"),
    }
}

#[test]
fn wal_record_layout() {
    let rec = encode_put(b"k", b"vv");
    assert_eq!(rec.len(), 1 + 4 + 4 + 1 + 2 + 4);
    assert_eq!(&rec[..12], &[0x01, 0, 0, 0, 1, 0, 0, 0, 2, b'k', b'v', b'v']);
    let del = encode_delete(b"k");
    assert_eq!(&del[..10], &[0x02, 0, 0, 0, 1, 0, 0, 0, 0, b'k']);
}

#[test]
fn wal_truncated_record_is_an_io_error() {
    let mut log = encode_put(b"key", b"value");
    log.pop();
    match parse_wal(&log) {
        Err(Error::Io(m)) => assert_eq!(m, "failed to fill whole buffer"),
        other => panic!("unexpected {:?}", other.map(|r| r.len())),
    }
    match parse_wal(&[1, 0, 0]) {
        Err(Error::Io(_)) => {}
        _ => panic!("expected an I/O error"),
    }
}

#[test]
fn wal_checksum_mismatch_names_the_key() {
    let mut log = encode_put(b"key", b"value");
    log[13] ^= 0xFF; // a byte of the value
    match parse_wal(&log) {
        Err(Error::WalReplayError(m)) => assert_eq!(m, "CRC mismatch at record (key=\"key\")"),
        _ => panic!("expected a replay error"),
    }
}

#[test]
fn wal_checksum_message_escapes_the_key() {
    let mut log = encode_put(&[b'a', b'"', 0xFF], b"");
    let n = log.len();
    log[n - 1] ^= 1;
    match parse_wal(&log) {
        Err(Error::WalReplayError(m)) => assert_eq!(m, "CRC mismatch at record (key=\"a\\\"\u{FFFD}\")"),
        _ => panic!("expected a replay error"),
    }
}

#[test]
fn wal_unknown_operation() {
    // A well-formed record whose operation byte is 7: rebuild its checksum.
    let body: Vec<u8> = vec![0x07, 0, 0, 0, 1, 0, 0, 0, 0, b'k'];
    let crc = lsm5::wal::wal_crc32(&[0x07], 1, 0, b"k", b"");
    let mut log = body.clone();
    log.extend(crc.to_be_bytes());
    match parse_wal(&log) {
        Err(Error::WalReplayError(m)) => assert_eq!(m, "Unknown op_type: 0x07"),
        _ => panic!("expected a replay error"),
    }
}

#[test]
fn error_messages() {
    assert_eq!(Error::NoActiveTransaction.message(), "No active transaction");
    assert_eq!(Error::Corruption("x".to_string()).message(), "Data corruption: x");
    assert_eq!(Error::WalReplayError("y".to_string()).message(), "WAL replay error: y");
    assert_eq!(Error::Io("z".to_string()).message(), "IO error: z");
}

#[test]
fn checksum_check_values() {
    // the log's records use CRC-32C (Castagnoli); table entries use CRC-32
    assert_eq!(!crc_feed(CRC32C_POLY, 0xFFFF_FFFF, b"123456789"), 0xE306_9283);
    assert_eq!(crc32(b"123456789"), 0xCBF4_3926);
    assert_eq!(lsm5::wal::wal_crc32(b"1", 0x3233_3435, 0x3637_3839, b"", b""), 0xE306_9283);
}
