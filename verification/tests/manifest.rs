use kv_engine::manifest::{Manifest, SSTMeta};
use kv_engine::version::Version;
use kv_engine::KvError;

#[test]
fn manifest_save_and_load() {
    let mut manifest = Manifest::new();
    manifest.add_sst(
        0,
        SSTMeta::new(1, 0, b"a".to_vec(), b"z".to_vec()),
    );
    manifest.add_sst(
        1,
        SSTMeta::new(2, 1, b"a".to_vec(), b"z".to_vec()),
    );
    let file = manifest.save();

    let loaded = Manifest::load(Some(&file)).unwrap();
    assert_eq!(loaded.ssts_at_level(0).len(), 1);
    assert_eq!(loaded.ssts_at_level(1).len(), 1);
    assert_eq!(loaded.ssts_at_level(0)[0].id, 1);
    assert_eq!(loaded.ssts_at_level(1)[0].id, 2);
    assert_eq!(loaded.ssts_at_level(0)[0].min_key, b"a");
    assert_eq!(loaded.ssts_at_level(1)[0].max_key, b"z");
}

#[test]
fn manifest_load_nonexistent_returns_empty() {
    let manifest = Manifest::load(None).unwrap();
    assert_eq!(manifest.total_ssts(), 0);
}

#[test]
fn manifest_encode_decode_roundtrip() {
    let mut manifest = Manifest::new();
    manifest.add_sst(0, SSTMeta::new(10, 0, b"aaa".to_vec(), b"mmm".to_vec()));
    manifest.add_sst(0, SSTMeta::new(11, 0, b"nnn".to_vec(), b"zzz".to_vec()));
    manifest.add_sst(1, SSTMeta::new(20, 1, b"a".to_vec(), b"z".to_vec()));
    manifest.add_sst(2, SSTMeta::new(30, 2, b"0".to_vec(), b"9".to_vec()));

    let encoded = manifest.encode();
    let decoded = Manifest::decode(&encoded).unwrap();

    assert_eq!(decoded.levels.len(), 3);
    assert_eq!(decoded.total_ssts(), 4);

    assert_eq!(decoded.ssts_at_level(0).len(), 2);
    assert_eq!(decoded.ssts_at_level(0)[0].id, 10);
    assert_eq!(decoded.ssts_at_level(0)[1].id, 11);
    assert_eq!(decoded.ssts_at_level(1)[0].id, 20);
    assert_eq!(decoded.ssts_at_level(2)[0].id, 30);
}

#[test]
fn manifest_remove_sst() {
    let mut manifest = Manifest::new();
    manifest.add_sst(0, SSTMeta::new(1, 0, b"a".to_vec(), b"m".to_vec()));
    manifest.add_sst(0, SSTMeta::new(2, 0, b"n".to_vec(), b"z".to_vec()));
    manifest.add_sst(1, SSTMeta::new(3, 1, b"a".to_vec(), b"z".to_vec()));

    assert!(manifest.remove_sst(2));
    assert_eq!(manifest.total_ssts(), 2);
    assert_eq!(manifest.ssts_at_level(0).len(), 1);
    // Already removed.
    assert!(!manifest.remove_sst(2));
}

#[test]
fn manifest_corrupted_magic() {
    let mut data = b"JUNK".to_vec();
    data.extend_from_slice(&1u32.to_le_bytes());
    data.extend_from_slice(&0u32.to_le_bytes());
    let result = Manifest::decode(&data);
    assert!(matches!(result, Err(KvError::Corruption(_))));
}

fn message(data: &[u8]) -> String {
    match Manifest::decode(data) {
        Ok(_) => panic!("decoded"),
        Err(e) => e.to_string(),
    }
}

#[test]
fn unknown_version_is_refused() {
    let mut data = Manifest::new().encode();
    data[4] = 2;
    assert!(message(&data).starts_with("data corruption: "));
}

#[test]
fn every_cut_of_a_manifest_is_refused() {
    let mut manifest = Manifest::new();
    manifest.add_sst(1, SSTMeta::new(7, 1, b"from".to_vec(), b"to".to_vec()));
    let data = manifest.encode();
    assert!(Manifest::decode(&data).is_ok());
    for len in 0..data.len() {
        assert!(message(&data[..len]).starts_with("data corruption: "));
    }
}

#[test]
fn levels_grow_up_to_the_one_added_to() {
    let mut manifest = Manifest::default();
    manifest.add_sst(3, SSTMeta::new(1, 3, vec![], vec![]));
    assert_eq!(manifest.levels.len(), 4);
    assert_eq!(manifest.ssts_at_level(0).len(), 0);
    assert_eq!(manifest.ssts_at_level(3).len(), 1);
    assert_eq!(manifest.ssts_at_level(9).len(), 0);
}

#[test]
fn new_version_has_no_levels() {
    assert!(Version::new().levels.is_empty());
    assert!(Version::default().levels.is_empty());
}
