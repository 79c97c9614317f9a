use kv_engine::compaction::merge_iterator::MergeIterator;

type Entries = Vec<(Vec<u8>, Vec<u8>)>;

fn source(data: Vec<(&str, &str)>) -> Entries {
    data.into_iter()
        .map(|(k, v)| (k.as_bytes().to_vec(), v.as_bytes().to_vec()))
        .collect()
}

fn texts(entries: Entries) -> Vec<(String, String)> {
    entries
        .into_iter()
        .map(|(k, v)| (String::from_utf8(k).unwrap(), String::from_utf8(v).unwrap()))
        .collect()
}

#[test]
fn merge_two_iterators() {
    let s1 = source(vec![("a", "1"), ("c", "3"), ("e", "5")]);
    let s2 = source(vec![("b", "2"), ("d", "4"), ("f", "6")]);

    let merged = texts(MergeIterator::new(vec![s1, s2]).collect());

    assert_eq!(
        merged,
        vec![
            ("a".into(), "1".into()),
            ("b".into(), "2".into()),
            ("c".into(), "3".into()),
            ("d".into(), "4".into()),
            ("e".into(), "5".into()),
            ("f".into(), "6".into()),
        ]
    );
}

#[test]
fn merge_deduplicates_first_source_wins() {
    // Same key "x" in both sources: source 0 comes first in sort order.
    let s1 = source(vec![("x", "new"), ("y", "2")]);
    let s2 = source(vec![("x", "old"), ("z", "3")]);

    let merged = texts(MergeIterator::new(vec![s1, s2]).collect());

    // All 4 entries are yielded; source 0's "x" comes first.
    assert_eq!(merged[0], ("x".into(), "new".into()));
    assert_eq!(merged[1], ("x".into(), "old".into()));
    assert_eq!(merged.len(), 4); // x(new), x(old), y, z
}

#[test]
fn merge_empty_sources() {
    let s1 = source(vec![]);
    let s2 = source(vec![]);
    let merged = MergeIterator::new(vec![s1, s2]).collect();
    assert!(merged.is_empty());
}

#[test]
fn merge_single_source() {
    let s1 = source(vec![("a", "1"), ("b", "2")]);
    let merged = MergeIterator::new(vec![s1]).collect();
    assert_eq!(merged.len(), 2);
}

#[test]
fn merge_step_by_step() {
    let mut iter = MergeIterator::new(vec![
        source(vec![("b", "0")]),
        source(vec![("a", "1"), ("b", "1")]),
        source(vec![]),
    ]);
    assert_eq!(iter.next(), Some((b"a".to_vec(), b"1".to_vec())));
    assert_eq!(iter.next(), Some((b"b".to_vec(), b"0".to_vec())));
    assert_eq!(iter.next(), Some((b"b".to_vec(), b"1".to_vec())));
    assert_eq!(iter.next(), None);
    assert_eq!(iter.next(), None);
}

#[test]
fn merge_keeps_every_entry_in_order() {
    let mut sources: Vec<Entries> = Vec::new();
    for s in 0..5u32 {
        let mut keys: Vec<u32> = (0..40u32).map(|i| (i * 7 + s * 13) % 101).collect();
        keys.sort();
        sources.push(
            keys.iter().map(|k| (format!("{:03}", k).into_bytes(), format!("{}", s).into_bytes())).collect(),
        );
    }
    let mut expected: Vec<(Vec<u8>, Vec<u8>)> = sources.iter().flatten().cloned().collect();
    let merged = MergeIterator::new(sources).collect();
    for w in merged.windows(2) {
        assert!(w[0].0 < w[1].0 || (w[0].0 == w[1].0 && w[0].1 <= w[1].1));
    }
    expected.sort();
    assert_eq!(merged, expected);
}

#[test]
fn equal_keys_stand_source_by_source() {
    let merged = texts(
        MergeIterator::new(vec![
            source(vec![("k", "0a"), ("k", "0b")]),
            source(vec![("a", "1"), ("k", "1a"), ("k", "1b")]),
            source(vec![("k", "2a"), ("z", "2")]),
        ])
        .collect(),
    );
    let values: Vec<&str> = merged.iter().map(|(_, v)| v.as_str()).collect();
    assert_eq!(values, vec!["1", "0a", "0b", "1a", "1b", "2a", "2"]);
}
