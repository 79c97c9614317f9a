use kv_engine::cache::block_cache::{BlockCache, CacheKey};
use kv_engine::sstable::block::Block;

fn make_block(entries: &[(&str, &str)]) -> Block {
    let mut block = Block::new();
    for (k, v) in entries {
        block.add(k.as_bytes().to_vec(), v.as_bytes().to_vec());
    }
    block
}

fn key(sst_id: u64, block_idx: usize) -> CacheKey {
    CacheKey { sst_id, block_idx }
}

#[test]
fn cache_hit_and_eviction() {
    let mut cache = BlockCache::new(100); // 100 bytes capacity

    let b1 = make_block(&[("key1", "val1")]);
    cache.put(CacheKey { sst_id: 1, block_idx: 0 }, b1);

    assert!(cache.get(&CacheKey { sst_id: 1, block_idx: 0 }).is_some());

    // Insert enough to overflow.
    let b2 = make_block(&[("key2", "val2222222222222222222")]);
    let b3 = make_block(&[("key3", "val3333333333333333333")]);
    cache.put(CacheKey { sst_id: 1, block_idx: 1 }, b2);
    cache.put(CacheKey { sst_id: 1, block_idx: 2 }, b3);

    // Cache should have evicted oldest entries to stay within capacity.
    assert!(cache.size() <= 100);
}

#[test]
fn cache_lru_order() {
    let mut cache = BlockCache::new(1000);

    cache.put(CacheKey { sst_id: 1, block_idx: 0 }, make_block(&[("a", "1")]));
    cache.put(CacheKey { sst_id: 1, block_idx: 1 }, make_block(&[("b", "2")]));
    cache.put(CacheKey { sst_id: 1, block_idx: 2 }, make_block(&[("c", "3")]));

    // Access block 0 to make it most recently used.
    cache.get(&CacheKey { sst_id: 1, block_idx: 0 });

    // Block 1 should be evicted first now (it's the least recently used).
    assert_eq!(cache.len(), 3);
}

#[test]
fn cache_update_existing_key() {
    let mut cache = BlockCache::new(1000);

    cache.put(CacheKey { sst_id: 1, block_idx: 0 }, make_block(&[("a", "old")]));
    cache.put(CacheKey { sst_id: 1, block_idx: 0 }, make_block(&[("a", "new")]));

    let block = cache.get(&CacheKey { sst_id: 1, block_idx: 0 }).unwrap();
    assert_eq!(block.entries[0].1, b"new");
    assert_eq!(cache.len(), 1);
}

#[test]
fn least_recently_used_block_leaves_first() {
    // Each block counts 10 bytes.
    let mut cache = BlockCache::new(20);
    cache.put(key(1, 0), make_block(&[("a", "1")]));
    cache.put(key(1, 1), make_block(&[("b", "2")]));
    assert_eq!(cache.size(), 20);

    assert!(cache.get(&key(1, 0)).is_some());
    cache.put(key(1, 2), make_block(&[("c", "3")]));

    assert_eq!(cache.len(), 2);
    assert_eq!(cache.size(), 20);
    assert!(cache.get(&key(1, 1)).is_none());
    assert!(cache.get(&key(1, 0)).is_some());
    assert!(cache.get(&key(1, 2)).is_some());
}

#[test]
fn block_beyond_capacity_is_cached_alone() {
    let mut cache = BlockCache::new(5);
    assert!(cache.is_empty());
    cache.put(key(1, 0), make_block(&[("a", "1")]));
    cache.put(key(2, 0), make_block(&[("b", "2")]));
    assert_eq!(cache.len(), 1);
    assert_eq!(cache.size(), 10);
    assert!(cache.get(&key(1, 0)).is_none());
    assert!(cache.get(&key(2, 0)).is_some());
}
