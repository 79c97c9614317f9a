use kv_engine::filter::bloom::BloomFilter;
use kv_engine::KvError;

fn numbered(count: usize) -> Vec<Vec<u8>> {
    (0..count).map(|i| format!("key_{}", i).into_bytes()).collect()
}

#[test]
fn bloom_no_false_negatives() {
    let keys: Vec<Vec<u8>> = (0..10000)
        .map(|i| format!("key_{}", i).into_bytes())
        .collect();
    let refs: Vec<&[u8]> = keys.iter().map(|k| k.as_slice()).collect();
    let filter = BloomFilter::build(&refs, 10);

    for key in &keys {
        assert!(
            filter.may_contain(key),
            "false negative for existing key"
        );
    }
}

#[test]
fn bloom_false_positive_rate() {
    let keys: Vec<Vec<u8>> = (0..10000)
        .map(|i| format!("key_{}", i).into_bytes())
        .collect();
    let refs: Vec<&[u8]> = keys.iter().map(|k| k.as_slice()).collect();
    let filter = BloomFilter::build(&refs, 10);

    let mut false_positives = 0;
    let test_count = 100_000;
    for i in 0..test_count {
        let probe = format!("probe_{}", i);
        if filter.may_contain(probe.as_bytes()) {
            false_positives += 1;
        }
    }
    let fp_rate = false_positives as f64 / test_count as f64;
    assert!(
        fp_rate < 0.02,
        "false positive rate too high: {:.4}",
        fp_rate
    );
}

#[test]
fn bloom_encode_decode_roundtrip() {
    let keys: Vec<&[u8]> = vec![b"hello", b"world", b"foo", b"bar"];
    let filter = BloomFilter::build(&keys, 10);
    let encoded = filter.encode();
    let decoded = BloomFilter::decode(&encoded).unwrap();

    for key in &keys {
        assert!(decoded.may_contain(key));
    }
}

#[test]
fn bloom_empty_set() {
    let filter = BloomFilter::build(&[], 10);
    assert!(!filter.may_contain(b"anything"));
}

#[test]
fn filter_has_no_false_negatives_for_any_bit_count() {
    let keys = numbered(50);
    let refs: Vec<&[u8]> = keys.iter().map(|k| k.as_slice()).collect();
    for bits in 0..25 {
        let filter = BloomFilter::build(&refs, bits);
        for key in &keys {
            assert!(filter.may_contain(key));
        }
    }
}

#[test]
fn number_of_hashes_follows_the_bits_per_key() {
    // bits_per_key * ln 2, rounded, between 1 and 30; the filter has at least
    // 64 bits and stores both numbers in front of its words.
    let key: &[u8] = b"k";
    for (bits, hashes) in [(0usize, 1u32), (1, 1), (2, 1), (3, 2), (7, 5), (10, 7), (20, 14), (43, 30), (44, 30), (100, 30)] {
        let encoded = BloomFilter::build(&[key], bits).encode();
        let expected = (bits as f64 * std::f64::consts::LN_2).round().clamp(1.0, 30.0) as u32;
        assert_eq!(hashes, expected);
        assert_eq!(u32::from_le_bytes([encoded[0], encoded[1], encoded[2], encoded[3]]), hashes);
    }
}

#[test]
fn decoded_filter_answers_alike() {
    let keys = numbered(30);
    let refs: Vec<&[u8]> = keys.iter().map(|k| k.as_slice()).collect();
    let filter = BloomFilter::build(&refs, 10);
    let decoded = BloomFilter::decode(&filter.encode()).unwrap();
    assert_eq!(decoded.encode(), filter.encode());
    for i in 0..1000 {
        let probe = format!("probe_{}", i);
        assert_eq!(filter.may_contain(probe.as_bytes()), decoded.may_contain(probe.as_bytes()));
    }
    assert!(decoded.is_consistent());
}

#[test]
fn decode_refuses_short_data() {
    assert!(matches!(BloomFilter::decode(&[]), Err(KvError::Corruption(_))));
    let filter = BloomFilter::build(&[b"k"], 10).encode();
    for len in 0..filter.len() {
        assert!(BloomFilter::decode(&filter[..len]).is_err());
    }
}
