use kv_engine::cache::block_cache::{BlockCache, CacheKey};
use kv_engine::sstable::builder::{build_table, SSTableBuilder};
use kv_engine::sstable::reader::SSTableReader;
use kv_engine::KvError;

#[test]
fn sstable_build_single_block() {
    let mut builder = SSTableBuilder::new(4096);
    builder.add(b"aaa", b"v1").unwrap();
    builder.add(b"bbb", b"v2").unwrap();
    builder.add(b"ccc", b"v3").unwrap();
    let data = builder.finish().unwrap();

    assert!(data.len() > 16); // at least some data + 8-byte footer
}

#[test]
fn sstable_build_multiple_blocks() {
    let mut builder = SSTableBuilder::new(64);
    for i in 0..100 {
        let key = format!("key_{:04}", i);
        let val = format!("value_{:04}", i);
        builder.add(key.as_bytes(), val.as_bytes()).unwrap();
    }
    let data = builder.finish().unwrap();

    let len = data.len();
    // Footer is now 8 bytes: index_offset + bloom_offset.
    let index_offset = u32::from_le_bytes([data[len - 8], data[len - 7], data[len - 6], data[len - 5]]);
    assert!(index_offset > 0);
    assert!((index_offset as usize) < len - 8);
}

#[test]
fn builder_finish_writes_valid_footer() {
    let mut builder = SSTableBuilder::new(4096);
    builder.add(b"a", b"1").unwrap();
    builder.add(b"b", b"2").unwrap();
    let data = builder.finish().unwrap();

    let len = data.len();
    let index_offset = u32::from_le_bytes([data[len - 8], data[len - 7], data[len - 6], data[len - 5]]);
    let bloom_offset = u32::from_le_bytes([data[len - 4], data[len - 3], data[len - 2], data[len - 1]]);

    assert!(index_offset > 0);
    assert!(bloom_offset >= index_offset);
    assert!((bloom_offset as usize) < len - 8);
}

#[test]
fn sstable_build_and_read_single_block() {
    let mut builder = SSTableBuilder::new(4096);
    builder.add(b"aaa", b"v1").unwrap();
    builder.add(b"bbb", b"v2").unwrap();
    builder.add(b"ccc", b"v3").unwrap();
    let file = builder.finish().unwrap();

    let reader = SSTableReader::open(file).unwrap();
    assert_eq!(reader.get(b"bbb").unwrap(), Some(b"v2".to_vec()));
    assert_eq!(reader.get(b"aaa").unwrap(), Some(b"v1".to_vec()));
    assert_eq!(reader.get(b"ccc").unwrap(), Some(b"v3".to_vec()));
    // Missing key.
    assert_eq!(reader.get(b"xxx").unwrap(), None);
}

#[test]
fn sstable_multiple_data_blocks() {
    // 64-byte blocks → many blocks for 100 entries.
    let mut builder = SSTableBuilder::new(64);
    for i in 0..100 {
        let key = format!("key_{:04}", i);
        let val = format!("value_{:04}", i);
        builder.add(key.as_bytes(), val.as_bytes()).unwrap();
    }
    let file = builder.finish().unwrap();

    let reader = SSTableReader::open(file).unwrap();
    assert!(reader.num_blocks() > 1, "expected multiple blocks");

    // Spot-check lookups across different blocks.
    assert_eq!(
        reader.get(b"key_0000").unwrap(),
        Some(b"value_0000".to_vec())
    );
    assert_eq!(
        reader.get(b"key_0050").unwrap(),
        Some(b"value_0050".to_vec())
    );
    assert_eq!(
        reader.get(b"key_0099").unwrap(),
        Some(b"value_0099".to_vec())
    );
    assert_eq!(reader.get(b"missing").unwrap(), None);
}

#[test]
fn sstable_iterator_returns_sorted_entries() {
    let mut builder = SSTableBuilder::new(4096);
    for i in 0..50 {
        builder.add(format!("k{:03}", i).as_bytes(), b"v").unwrap();
    }
    let file = builder.finish().unwrap();

    let reader = SSTableReader::open(file).unwrap();
    let keys: Vec<_> = reader.iter().collect().into_iter().map(|(k, _)| k).collect();
    // Entries should arrive in the order they were written (sorted
    // internally per block, and blocks written in order).
    for w in keys.windows(2) {
        assert!(w[0] <= w[1], "keys not sorted: {:?} > {:?}", w[0], w[1]);
    }
    assert_eq!(keys.len(), 50);
}

fn numbered(n: usize) -> Vec<(Vec<u8>, Vec<u8>)> {
    (0..n).map(|i| (format!("key_{:04}", i).into_bytes(), format!("{}", i * i).into_bytes())).collect()
}

#[test]
fn table_gives_back_its_entries() {
    let entries = numbered(200);
    for block_size in [1usize, 64, 4096] {
        let reader = SSTableReader::open(build_table(&entries, block_size, 10).unwrap()).unwrap();
        assert_eq!(reader.iter().collect(), entries);
        for (k, v) in &entries {
            assert_eq!(reader.get(k).unwrap(), Some(v.clone()));
        }
        assert_eq!(reader.get(b"key_0099x").unwrap(), None);
        assert_eq!(reader.get(b"").unwrap(), None);
    }
}

#[test]
fn block_size_decides_the_number_of_blocks() {
    let entries = numbered(10);
    assert_eq!(SSTableReader::open(build_table(&entries, 1, 10).unwrap()).unwrap().num_blocks(), 10);
    assert_eq!(SSTableReader::open(build_table(&entries, 4096, 10).unwrap()).unwrap().num_blocks(), 1);
}

#[test]
fn cached_reads_agree_with_plain_ones() {
    let entries = numbered(100);
    let reader = SSTableReader::open(build_table(&entries, 64, 10).unwrap()).unwrap();
    let mut cache = BlockCache::new(500);
    for round in 0..2 {
        for i in 0..110usize {
            let key = format!("key_{:04}", (i * 37 + round) % 110).into_bytes();
            let cached = reader.get_with_cache(&key, 1, &mut cache).unwrap();
            assert_eq!(cached, reader.get(&key).unwrap());
        }
    }
    assert!(!cache.is_empty());
    assert!(cache.size() <= 500);
}

#[test]
fn a_lookup_keeps_its_block_in_the_cache() {
    let entries = numbered(10);
    let reader = SSTableReader::open(build_table(&entries, 1, 10).unwrap()).unwrap();
    let mut cache = BlockCache::new(1_000_000);
    for i in 0..10 {
        for _ in 0..2 {
            reader.get_with_cache(&entries[i].0, 7, &mut cache).unwrap();
            assert_eq!(cache.len(), i + 1);
        }
    }
    for i in 0..10 {
        let block = cache.get(&CacheKey { sst_id: 7, block_idx: i }).unwrap();
        assert_eq!(block.entries, entries[i..i + 1].to_vec());
    }
    let before = cache.size();
    reader.get_with_cache(b"zzz", 7, &mut cache).unwrap();
    assert_eq!((cache.len(), cache.size()), (10, before));

    let mut small = BlockCache::new(before / 10);
    for i in 0..10 {
        reader.get_with_cache(&entries[i].0, 7, &mut small).unwrap();
        assert_eq!(small.len(), 1);
        assert!(small.get(&CacheKey { sst_id: 7, block_idx: i }).is_some());
    }
}

#[test]
fn damaged_tables_are_refused() {
    let data = build_table(&numbered(20), 64, 10).unwrap();
    for len in 0..8 {
        assert!(matches!(SSTableReader::open(data[..len].to_vec()), Err(KvError::Corruption(_))));
    }
    let mut far = data.clone();
    let len = far.len();
    far[len - 5] = 0xff;
    assert!(matches!(SSTableReader::open(far), Err(KvError::Corruption(_))));
    let mut far = data.clone();
    far[len - 1] = 0xff;
    assert!(matches!(SSTableReader::open(far), Err(KvError::Corruption(_))));
}

#[test]
fn empty_table_opens() {
    let reader = SSTableReader::open(SSTableBuilder::new(64).finish().unwrap()).unwrap();
    assert_eq!(reader.num_blocks(), 0);
    assert_eq!(reader.get(b"a").unwrap(), None);
    assert!(reader.iter().collect().is_empty());
}

#[test]
fn keys_that_are_too_long_make_no_table() {
    let mut builder = SSTableBuilder::new(64);
    builder.add(&vec![b'a'; 65536], b"v").unwrap();
    match builder.finish() {
        Ok(_) => panic!("built"),
        Err(e) => assert_eq!(e.to_string(), "invalid argument: key too long"),
    }
    let longest = vec![(vec![b'a'; 65535], b"v".to_vec())];
    let reader = SSTableReader::open(build_table(&longest, 64, 10).unwrap()).unwrap();
    assert_eq!(reader.iter().collect(), longest);
}
