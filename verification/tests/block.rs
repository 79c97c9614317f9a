use kv_engine::sstable::block::Block;
use kv_engine::KvError;

#[test]
fn block_encode_decode_roundtrip() {
    let mut block = Block::new();
    block.add(b"apple".to_vec(), b"red".to_vec());
    block.add(b"banana".to_vec(), b"yellow".to_vec());
    block.add(b"cherry".to_vec(), b"dark_red".to_vec());

    let encoded = block.encode();
    let decoded = Block::decode(&encoded).unwrap();

    assert_eq!(decoded.len(), 3);
    assert_eq!(decoded.entries[0], (b"apple".to_vec(), b"red".to_vec()));
    assert_eq!(decoded.entries[1], (b"banana".to_vec(), b"yellow".to_vec()));
    assert_eq!(decoded.entries[2], (b"cherry".to_vec(), b"dark_red".to_vec()));
}

#[test]
fn block_empty_roundtrip() {
    let block = Block::new();
    let encoded = block.encode();
    let decoded = Block::decode(&encoded).unwrap();
    assert!(decoded.is_empty());
}

#[test]
fn block_size_tracking() {
    let mut block = Block::new();
    assert_eq!(block.estimated_size(), 0);

    block.add(b"k".to_vec(), b"v".to_vec());
    // 8 (header) + 1 (key) + 1 (value) = 10
    assert_eq!(block.estimated_size(), 10);
}

#[test]
fn block_last_key() {
    let mut block = Block::new();
    block.add(b"a".to_vec(), b"1".to_vec());
    block.add(b"c".to_vec(), b"3".to_vec());
    assert_eq!(block.last_key(), b"c");
}

#[test]
fn shared_prefixes_are_left_out() {
    let mut block = Block::new();
    block.add(b"key1".to_vec(), b"a".to_vec());
    block.add(b"key2".to_vec(), b"b".to_vec());
    let encoded = block.encode();
    // The number of entries; then of each the shared and the own length of the
    // key, the own bytes, the length of the value, and the value.
    let expected: Vec<u8> = [
        &[2u8, 0, 0, 0][..],
        &[0, 0, 4, 0],
        b"key1",
        &[1, 0, 0, 0],
        b"a",
        &[3, 0, 1, 0],
        b"2",
        &[1, 0, 0, 0],
        b"b",
    ]
    .concat();
    assert_eq!(encoded, expected);
    assert_eq!(Block::decode(&encoded).unwrap().entries, block.entries);
}

fn message(data: &[u8]) -> String {
    match Block::decode(data) {
        Ok(_) => panic!("decoded"),
        Err(e) => e.to_string(),
    }
}

#[test]
fn decode_refuses_every_cut() {
    let mut block = Block::new();
    block.add(b"key1".to_vec(), b"a".to_vec());
    block.add(b"key2".to_vec(), b"b".to_vec());
    let encoded = block.encode();
    for len in 0..encoded.len() {
        assert!(matches!(Block::decode(&encoded[..len]), Err(KvError::Corruption(_))));
    }
    assert_eq!(message(&encoded[..6]), "data corruption: block truncated in prefix header");
    assert_eq!(message(&encoded[..9]), "data corruption: block truncated in key suffix");
    assert_eq!(message(&encoded[..13]), "data corruption: block truncated in value_len");
    assert_eq!(message(&encoded[..16]), "data corruption: block truncated in value");
}

#[test]
fn decode_refuses_more_sharing_than_the_previous_key() {
    let data = [1u8, 0, 0, 0, 1, 0, 1, 0, b'x', 0, 0, 0, 0];
    assert_eq!(message(&data), "data corruption: block shares more than the previous key");
}

#[test]
fn default_block_is_empty() {
    let block = Block::default();
    assert_eq!(block.len(), 0);
    assert_eq!(block.encode(), vec![0, 0, 0, 0]);
}

#[test]
fn encoding_takes_no_more_than_the_entries_count() {
    let mut block = Block::new();
    for i in 0..50 {
        block.add(format!("a_long_shared_prefix_{:02}", i).into_bytes(), vec![7; i]);
        assert!(block.encode().len() <= 4 + block.estimated_size());
    }
    assert!(block.encode().len() + 49 * 20 <= 4 + block.estimated_size());
}
