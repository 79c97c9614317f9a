use kv_engine::memtable::memtable::MemTable;
use std::collections::BTreeMap;

#[test]
fn memtable_put_and_get() {
    let mut mt = MemTable::with_max_size(1024);
    mt.put(b"hello", b"world");
    assert_eq!(mt.get(b"hello"), Some(b"world".to_vec()));
}

#[test]
fn memtable_get_nonexistent() {
    let mt = MemTable::with_max_size(1024);
    assert_eq!(mt.get(b"nope"), None);
}

#[test]
fn memtable_overwrite_key() {
    let mut mt = MemTable::with_max_size(1024);
    mt.put(b"k", b"v1");
    mt.put(b"k", b"v2");
    assert_eq!(mt.get(b"k"), Some(b"v2".to_vec()));
}

#[test]
fn memtable_freeze_on_threshold() {
    // Use a very small threshold so a single insert triggers freeze.
    let mut mt = MemTable::with_max_size(20);
    mt.put(b"a", b"1");
    // After insert, if size > 20, freeze happened.
    // The key should still be readable (it moved to immutable).
    assert!(mt.has_immutable() || mt.active_size() <= 20);
}

#[test]
fn memtable_get_from_immutable() {
    let mut mt = MemTable::with_max_size(1);
    // This will exceed threshold and freeze.
    mt.put(b"key_in_immutable", b"old_value");
    assert!(mt.has_immutable());

    // New write goes to active.
    mt.put(b"key_in_active", b"new_value");

    // Both keys should be readable.
    assert_eq!(mt.get(b"key_in_immutable"), Some(b"old_value".to_vec()));
    assert_eq!(mt.get(b"key_in_active"), Some(b"new_value".to_vec()));
}

#[test]
fn memtable_scan_merges() {
    let mut mt = MemTable::with_max_size(1);

    // Force freeze: these go to immutable.
    mt.put(b"aaa", b"from_imm");
    mt.put(b"ccc", b"from_imm");

    // Now write to active (new active list).
    mt.put(b"bbb", b"from_active");
    // Overwrite a key that's in immutable — active should win.
    mt.put(b"ccc", b"from_active");

    let results = mt.scan(b"", b"\xff");
    let map: BTreeMap<_, _> = results.into_iter().collect();

    assert_eq!(map.get(b"aaa".as_slice()), Some(&b"from_imm".to_vec()));
    assert_eq!(map.get(b"bbb".as_slice()), Some(&b"from_active".to_vec()));
    assert_eq!(map.get(b"ccc".as_slice()), Some(&b"from_active".to_vec()));
    assert_eq!(map.len(), 3);
}

#[test]
fn memtable_active_size_tracking() {
    let mut mt = MemTable::with_max_size(1024 * 1024);
    let before = mt.active_size();
    mt.put(b"key", b"value");
    assert!(mt.active_size() > before);
}

#[test]
fn memtable_take_immutable() {
    let mut mt = MemTable::with_max_size(1);
    mt.put(b"k", b"v");
    assert!(mt.has_immutable());

    let taken = mt.take_immutable();
    assert!(taken.is_some());
    assert!(!mt.has_immutable());
}

#[test]
fn only_one_list_is_frozen_at_a_time() {
    let mut mt = MemTable::with_max_size(1);
    mt.put(b"a", b"1");
    mt.put(b"b", b"2");
    assert_eq!(mt.peek_immutable().unwrap().iter().collect().len(), 1);
    assert!(mt.immutable_size().is_some());
    assert!(!mt.freeze());
    let first = mt.take_immutable().unwrap();
    assert_eq!(first.get(b"a"), Some(b"1".to_vec()));
    assert_eq!(mt.get(b"a"), None);
    assert!(mt.freeze());
    assert_eq!(mt.take_immutable().unwrap().get(b"b"), Some(b"2".to_vec()));
    assert!(mt.take_immutable().is_none());
    assert_eq!(mt.immutable_size(), None);
    assert!(!mt.freeze());
}

#[test]
fn putting_without_freezing_keeps_all_active() {
    let mut mt = MemTable::with_max_size(1);
    mt.put_no_freeze(b"a", b"1");
    mt.put_no_freeze(b"b", b"2");
    assert!(!mt.has_immutable());
    assert_eq!(mt.active_entries().len(), 2);
    mt.freeze_if_full();
    assert!(mt.has_immutable());
    assert!(mt.active_entries().is_empty());
    assert_eq!(mt.entries().len(), 2);
    assert!(MemTable::new().entries().is_empty());
    assert!(MemTable::default().entries().is_empty());
}

#[test]
fn sizes_after_a_put() {
    let mut small = MemTable::with_max_size(1);
    let mut large = MemTable::with_max_size(1024);
    let empty = large.active_size();
    small.put(b"key", b"value");
    large.put(b"key", b"value");
    assert_eq!(small.immutable_size(), Some(large.active_size()));
    assert_eq!(small.active_size(), empty);
    let before = large.active_size();
    large.put(b"key", b"another value");
    assert_eq!(large.active_size(), before);
}
