use kv_engine::memtable::skiplist::SkipList;
use std::collections::BTreeMap;

#[test]
fn skiplist_insert_and_get() {
    let mut list = SkipList::new(16);
    list.insert(b"key1", b"value1");
    assert_eq!(list.get(b"key1"), Some(b"value1".to_vec()));
}

#[test]
fn skiplist_get_nonexistent_returns_none() {
    let mut list = SkipList::new(16);
    list.insert(b"key1", b"value1");
    assert_eq!(list.get(b"missing"), None);
}

#[test]
fn skiplist_update_existing_key() {
    let mut list = SkipList::new(16);
    list.insert(b"key1", b"v1");
    list.insert(b"key1", b"v2");
    assert_eq!(list.get(b"key1"), Some(b"v2".to_vec()));
}

#[test]
fn skiplist_scan_range() {
    let mut list = SkipList::new(16);
    for i in 0..100 {
        let key = format!("key_{:04}", i);
        list.insert(key.as_bytes(), format!("val_{}", i).as_bytes());
    }
    let results: Vec<_> = list.scan(b"key_0020", b"key_0030").collect();
    assert_eq!(results.len(), 10);
    assert_eq!(results[0].0, b"key_0020");
    assert_eq!(results[9].0, b"key_0029");
}

#[test]
fn skiplist_ordering_is_sorted() {
    let mut list = SkipList::new(16);
    let keys: Vec<String> = (0..1000).map(|i| format!("key_{:06}", i)).collect();
    // Insert in reverse order.
    for key in keys.iter().rev() {
        list.insert(key.as_bytes(), b"v");
    }
    let collected: Vec<_> =
        list.scan(b"", b"\xff").collect().into_iter().map(|(k, _)| k).collect();
    for w in collected.windows(2) {
        assert!(w[0] <= w[1], "keys not sorted");
    }
    assert_eq!(collected.len(), 1000);
}

#[test]
fn skiplist_size_tracking() {
    let mut list = SkipList::new(16);
    let before = list.size();
    list.insert(b"key", b"value");
    assert!(list.size() > before, "size should increase after insert");
}

#[test]
fn skiplist_empty_scan() {
    let list = SkipList::new(16);
    let results: Vec<_> = list.scan(b"a", b"z").collect();
    assert!(results.is_empty());
}

#[test]
fn skiplist_scan_open_ended() {
    let mut list = SkipList::new(16);
    list.insert(b"a", b"1");
    list.insert(b"b", b"2");
    list.insert(b"c", b"3");

    // Scan from "b" onwards with a high end bound.
    let results: Vec<_> = list.scan(b"b", b"\xff").collect();
    assert_eq!(results.len(), 2);
    assert_eq!(results[0].0, b"b");
    assert_eq!(results[1].0, b"c");
}

#[test]
fn list_holds_what_a_sorted_map_holds() {
    for max_level in [1usize, 2, 16] {
        let mut list = SkipList::new(max_level);
        let mut map: BTreeMap<Vec<u8>, Vec<u8>> = BTreeMap::new();
        let mut x: u64 = 7;
        for i in 0..600u64 {
            x = x.wrapping_mul(6364136223846793005).wrapping_add(1442695040888963407);
            let key = format!("{}", (x >> 33) % 200).into_bytes();
            let value = format!("{}", i).into_bytes();
            list.insert(&key, &value);
            map.insert(key, value);
        }
        let all: Vec<(Vec<u8>, Vec<u8>)> = map.clone().into_iter().collect();
        assert_eq!(list.iter().collect(), all);
        for (k, v) in &map {
            assert_eq!(list.get(k), Some(v.clone()));
        }
        let (lo, hi) = (b"15".to_vec(), b"7".to_vec());
        let range: Vec<(Vec<u8>, Vec<u8>)> =
            map.range(lo.clone()..hi.clone()).map(|(k, v)| (k.clone(), v.clone())).collect();
        assert_eq!(list.scan(&lo, &hi).collect(), range);
    }
}

#[test]
fn iterators_step_through_and_end() {
    let mut list = SkipList::new(4);
    list.insert(b"b", b"2");
    list.insert(b"a", b"1");
    let mut iter = list.iter();
    assert_eq!(iter.next(), Some((b"a".to_vec(), b"1".to_vec())));
    assert_eq!(iter.next(), Some((b"b".to_vec(), b"2".to_vec())));
    assert_eq!(iter.next(), None);
    let mut scan = list.scan(b"b", b"c");
    assert_eq!(scan.next(), Some((b"b".to_vec(), b"2".to_vec())));
    assert_eq!(scan.next(), None);
    assert_eq!(scan.next(), None);
}

#[test]
fn size_counts_each_key_once() {
    let mut list = SkipList::new(1);
    assert_eq!(list.size(), 24);
    list.insert(b"key", b"12345");
    // Key, value, one link, the node, and two vectors.
    assert_eq!(list.size(), 24 + 3 + 5 + 8 + 72 + 48);
    list.insert(b"key", b"1234567");
    assert_eq!(list.size(), 24 + 3 + 5 + 8 + 72 + 48);
    list.insert(b"k", b"");
    assert_eq!(list.size(), 24 + 3 + 5 + 1 + 2 * (8 + 72 + 48));
}
