use kv_engine::wal::record::{OpType, Record};
use kv_engine::wal::writer::{WALReader, WALWriter};
use kv_engine::error::Result;
use kv_engine::KvError;

fn put(key: &[u8], value: &[u8]) -> Record {
    Record { op: OpType::Put, key: key.to_vec(), value: value.to_vec() }
}

fn read_all(data: Vec<u8>) -> Vec<Result<Record>> {
    let mut reader = WALReader::open(data);
    let mut entries = Vec::new();
    while let Some(entry) = reader.next() {
        entries.push(entry);
    }
    entries
}

#[test]
fn record_roundtrip() {
    let rec = Record {
        op: OpType::Put,
        key: b"hello".to_vec(),
        value: b"world".to_vec(),
    };
    let encoded = rec.encode();
    let decoded = Record::decode(&encoded[4..]).unwrap();
    assert_eq!(decoded, rec);
}

#[test]
fn record_delete_roundtrip() {
    let rec = Record {
        op: OpType::Delete,
        key: b"rm".to_vec(),
        value: Vec::new(),
    };
    let encoded = rec.encode();
    let decoded = Record::decode(&encoded[4..]).unwrap();
    assert_eq!(decoded.op, OpType::Delete);
    assert_eq!(decoded.key, b"rm");
}

#[test]
fn record_crc_detects_corruption() {
    let rec = Record {
        op: OpType::Put,
        key: b"key".to_vec(),
        value: b"val".to_vec(),
    };
    let mut encoded = rec.encode();
    encoded[10] ^= 0xff;
    let result = Record::decode(&encoded[4..]);
    assert!(matches!(result, Err(KvError::ChecksumMismatch { .. })));
}

#[test]
fn record_truncated_returns_error() {
    let result = Record::decode(&[0u8, 1u8]);
    assert!(matches!(result, Err(KvError::Corruption(_))));
}

#[test]
fn wal_append_and_read_back() {
    let mut writer = WALWriter::open();
    writer.append(b"key1", b"value1").unwrap();
    writer.append(b"key2", b"value2").unwrap();
    let file = writer.flush();

    let entries: Vec<_> = read_all(file);
    assert_eq!(entries.len(), 2);
    assert_eq!(entries[0].as_ref().unwrap().key, b"key1");
    assert_eq!(entries[0].as_ref().unwrap().value, b"value1");
    assert_eq!(entries[1].as_ref().unwrap().key, b"key2");
    assert_eq!(entries[1].as_ref().unwrap().value, b"value2");
}

#[test]
fn wal_crc_detects_corruption() {
    let mut writer = WALWriter::open();
    writer.append(b"key", b"value").unwrap();
    let mut data = writer.flush();

    // Corrupt a byte in the middle of the file.
    data[8] ^= 0xff;

    let mut reader = WALReader::open(data);
    let result = reader.next().unwrap();
    assert!(
        matches!(result, Err(KvError::ChecksumMismatch { .. })),
        "expected ChecksumMismatch, got {:?}",
        result
    );
}

#[test]
fn wal_recovery_after_truncation() {
    // Simulate a crash by truncating the last few bytes of the file.
    let mut writer = WALWriter::open();
    writer.append(b"a", b"1").unwrap();
    writer.append(b"b", b"2").unwrap();
    let mut file = writer.flush();

    // Chop off the last 3 bytes (corrupts the second record).
    let len = file.len();
    file.truncate(len - 3);

    let entries: Vec<_> = WALReader::open(file)
        .collect()
        .unwrap();
    // Should recover the first record; the second is lost.
    assert_eq!(entries.len(), 1);
    assert_eq!(entries[0].key, b"a");
    assert_eq!(entries[0].value, b"1");
}

#[test]
fn wal_empty_file() {
    let entries: Vec<_> = read_all(Vec::new());
    assert!(entries.is_empty());
}

#[test]
fn wal_multiple_appends() {
    let mut writer = WALWriter::open();
    for i in 0..100 {
        let key = format!("key_{:04}", i);
        let val = format!("val_{:04}", i);
        writer.append(key.as_bytes(), val.as_bytes()).unwrap();
    }
    let file = writer.flush();

    let entries: Vec<_> = WALReader::open(file)
        .collect()
        .unwrap();
    assert_eq!(entries.len(), 100);
    for (i, rec) in entries.iter().enumerate() {
        assert_eq!(rec.key, format!("key_{:04}", i).as_bytes());
        assert_eq!(rec.value, format!("val_{:04}", i).as_bytes());
    }
}

#[test]
fn record_has_its_documented_bytes() {
    let rec = put(b"ab", b"xyz");
    let encoded = rec.encode();
    let crc = crc32fast::hash(&rec.crc_payload());
    assert_eq!(encoded, rec.encode_with_crc(crc));
    // Length of what follows, checksum, operation, key length, key, value length, value.
    let rest: Vec<u8> =
        [&crc.to_le_bytes()[..], &[0x01], &[2, 0, 0, 0], b"ab", &[3, 0, 0, 0], b"xyz"].concat();
    assert_eq!(&encoded[..4], &(rest.len() as u32).to_le_bytes());
    assert_eq!(&encoded[4..], &rest[..]);
    assert!(rec.fits_log());
}

#[test]
fn checksum_is_the_standard_one() {
    // The check value of CRC-32: "123456789" gives 0xcbf43926.
    assert_eq!(crc32fast::hash(b"123456789"), 0xcbf4_3926);
    let rec = put(b"k", b"v");
    let encoded = rec.encode();
    assert_eq!(&encoded[4..8], &crc32fast::hash(&encoded[8..]).to_le_bytes());
    assert_eq!(&encoded[8..], &rec.crc_payload()[..]);
}

#[test]
fn stored_and_actual_checksums_are_reported() {
    let rec = put(b"k", b"v");
    let encoded = rec.encode_with_crc(17);
    match Record::decode_with_crc(&encoded[4..], 18) {
        Err(KvError::ChecksumMismatch { expected, actual }) => {
            assert_eq!((expected, actual), (17, 18));
        }
        _ => panic!("no mismatch"),
    }
    assert_eq!(Record::decode_with_crc(&encoded[4..], 17).unwrap(), rec);
}

#[test]
fn operation_codes() {
    assert_eq!(OpType::Put.to_u8(), 0x01);
    assert_eq!(OpType::Delete.to_u8(), 0x02);
    assert_eq!(OpType::Batch.to_u8(), 0x03);
    for op in [OpType::Put, OpType::Delete, OpType::Batch] {
        assert_eq!(OpType::from_u8(op.to_u8()).unwrap(), op);
    }
    assert!(matches!(OpType::from_u8(0), Err(KvError::Corruption(_))));
    assert!(matches!(OpType::from_u8(4), Err(KvError::Corruption(_))));
}

#[test]
fn every_cut_of_a_record_is_refused() {
    let encoded = put(b"key", b"value").encode();
    for len in 4..encoded.len() {
        assert!(Record::decode(&encoded[4..len]).is_err());
    }
}

#[test]
fn every_cut_of_a_log_keeps_the_whole_records() {
    let mut writer = WALWriter::open();
    let records =
        vec![put(b"a", b"1"), put(b"bb", b""), Record { op: OpType::Delete, key: b"a".to_vec(), value: vec![] }];
    let mut ends = vec![0usize];
    let mut file: Vec<u8> = Vec::new();
    for rec in &records {
        writer.append_record(rec).unwrap();
        file.extend_from_slice(&writer.flush());
        ends.push(file.len());
    }
    assert!(writer.flush().is_empty());
    for len in 0..=file.len() {
        let whole = ends.iter().filter(|e| **e > 0 && **e <= len).count();
        let entries = WALReader::open(file[..len].to_vec()).collect().unwrap();
        assert_eq!(entries, records[..whole].to_vec());
        assert_eq!(WALReader::intact_len(&file[..len]), ends[whole]);
    }
}

#[test]
fn reading_stops_behind_a_damaged_record() {
    let mut writer = WALWriter::open();
    writer.append(b"a", b"1").unwrap();
    let first = writer.flush();
    writer.append(b"b", b"2").unwrap();
    writer.append(b"c", b"3").unwrap();
    let mut file = first.clone();
    file.extend_from_slice(&writer.flush());
    file[first.len() + 4] ^= 1;
    let mut reader = WALReader::open(file.clone());
    assert_eq!(reader.next().unwrap().unwrap().key, b"a");
    assert!(matches!(reader.next(), Some(Err(KvError::ChecksumMismatch { .. }))));
    assert!(reader.next().is_none());
    assert_eq!(WALReader::intact_len(&file), first.len());
    assert!(WALReader::open(file).collect().is_err());
}
