use kv_engine::engine::repair::{parse_sst_name, repair, sst_file_name, wal_name_for_dir, FoundFile};
use kv_engine::engine::scan::next_key;
use kv_engine::engine::value::{
    decode_with_seq, encode_plain, encode_timed, encode_tombstone, encode_with_expiry,
    encode_with_seq, unpack_inner, unpack_value, NEVER,
};
use kv_engine::sstable::builder::build_table;

fn entries(keys: &[&str]) -> Vec<(Vec<u8>, Vec<u8>)> {
    keys.iter().map(|k| (k.as_bytes().to_vec(), b"v".to_vec())).collect()
}

#[test]
fn table_files_are_named_by_number() {
    assert_eq!(sst_file_name(7), b"000007.sst");
    assert_eq!(sst_file_name(123456), b"123456.sst");
    assert_eq!(sst_file_name(12345678), b"12345678.sst");
    for id in [0u64, 1, 99, 1_000_000, u64::MAX] {
        assert_eq!(parse_sst_name(&sst_file_name(id)), Some(id));
    }
}

#[test]
fn other_names_are_no_tables() {
    for name in ["MANIFEST", "000001.wal", "x.sst", ".sst", "1.sst.tmp", "-1.sst", "99999999999999999999.sst"] {
        assert_eq!(parse_sst_name(name.as_bytes()), None);
    }
    assert_eq!(parse_sst_name(b"12.sst"), Some(12));
}

#[test]
fn existing_log_is_used() {
    let names = |list: &[&str]| list.iter().map(|n| n.as_bytes().to_vec()).collect::<Vec<_>>();
    assert_eq!(wal_name_for_dir(&names(&[])), b"000001.wal");
    assert_eq!(wal_name_for_dir(&names(&["MANIFEST", "000004.sst"])), b"000001.wal");
    assert_eq!(wal_name_for_dir(&names(&["MANIFEST", "000003.wal", "000002.wal"])), b"000003.wal");
}

#[test]
fn repair_sorts_and_counts() {
    let good = |id: u64, keys: &[&str]| FoundFile {
        name: sst_file_name(id),
        data: Some(build_table(&entries(keys), 4096, 10).unwrap()),
    };
    let files = vec![
        good(9, &["x", "y"]),
        FoundFile { name: b"MANIFEST".to_vec(), data: Some(vec![1, 2, 3]) },
        FoundFile { name: sst_file_name(4), data: Some(vec![1, 2, 3]) },
        good(2, &["a", "b", "c"]),
        FoundFile { name: sst_file_name(5), data: None },
    ];
    let r = repair(&files);
    assert_eq!(r.report.recovered_ssts, 2);
    assert_eq!(r.report.corrupted_files, 2);
    assert_eq!(r.unusable, vec![2, 4]);
    let tables = r.manifest.ssts_at_level(0);
    assert_eq!(tables.len(), 2);
    assert_eq!(tables[0].id, 2);
    assert_eq!(tables[1].id, 9);
    assert!(tables.iter().all(|t| t.level == 0 && t.min_key.is_empty() && t.max_key.is_empty()));
}

#[test]
fn repair_of_nothing() {
    let r = repair(&Vec::new());
    assert_eq!(r.report.recovered_ssts, 0);
    assert_eq!(r.report.corrupted_files, 0);
    assert_eq!(r.manifest.total_ssts(), 0);
}

#[test]
fn next_key_is_the_least_above_a_prefix() {
    assert_eq!(next_key(b"a"), Some(b"b".to_vec()));
    assert_eq!(next_key(b"a\xff"), Some(b"b".to_vec()));
    assert_eq!(next_key(b"ab"), Some(b"ac".to_vec()));
    assert_eq!(next_key(b"\xff\xff"), None);
    assert_eq!(next_key(b""), None);
}

#[test]
fn stored_values() {
    assert_eq!(encode_with_seq(b"v", 258), vec![2, 1, 0, 0, 0, 0, 0, 0, b'v']);
    assert_eq!(decode_with_seq(&encode_with_seq(b"val", 77)), (b"val".to_vec(), 77));
    assert_eq!(encode_tombstone(), vec![0]);
    assert_eq!(encode_with_expiry(b"v", 5), vec![1, 5, 0, 0, 0, 0, 0, 0, 0, b'v']);
    assert_eq!(encode_plain(b"v"), b"v");
    assert_eq!(encode_plain(&[0]), encode_with_expiry(&[0], NEVER));
    assert_eq!(encode_timed(b"v", 5), encode_with_expiry(b"v", 5));
    assert_eq!(encode_timed(b"v", 0), encode_tombstone());
}

#[test]
fn stored_values_are_shown_until_they_expire() {
    assert_eq!(unpack_inner(&encode_tombstone(), 0), None);
    assert_eq!(unpack_inner(&encode_plain(b"v"), u64::MAX), Some(b"v".to_vec()));
    assert_eq!(unpack_inner(&encode_plain(&[0]), u64::MAX), Some(vec![0]));
    let mark = encode_with_expiry(b"v", 0);
    assert_eq!(unpack_inner(&encode_plain(&mark), 7), Some(mark));
    let last = encode_timed(b"v", u64::MAX);
    assert_eq!(unpack_inner(&last, u64::MAX - 1), Some(b"v".to_vec()));
    assert_eq!(unpack_inner(&last, u64::MAX), None);
    let timed = encode_with_expiry(b"v", 100);
    assert_eq!(unpack_inner(&timed, 99), Some(b"v".to_vec()));
    assert_eq!(unpack_inner(&timed, 100), None);
    assert_eq!(unpack_value(&encode_with_seq(&timed, 3), 99), Some(b"v".to_vec()));
    assert_eq!(unpack_value(&encode_with_seq(&timed, 3), 101), None);
}
