use kv_engine::{Key, SequenceNumber, Value};

#[test]
fn key_ordering() {
    let k1 = Key(b"abc".to_vec());
    let k2 = Key(b"abd".to_vec());
    assert!(k1 < k2);
}

#[test]
fn sequence_number_next() {
    let seq = SequenceNumber(42);
    assert_eq!(seq.next(), SequenceNumber(43));
}

#[test]
fn sequence_number_display() {
    let seq = SequenceNumber(7);
    assert_eq!(seq.to_string(), "seq:7");
}

#[test]
fn key_from_slices() {
    let k: Key = b"hello".as_slice().into();
    assert_eq!(k.as_ref(), b"hello");
}

#[test]
fn value_as_ref() {
    let v = Value(vec![1, 2, 3]);
    assert_eq!(v.as_ref(), &[1, 2, 3]);
}

#[test]
fn sequence_number_bounds() {
    assert_eq!(SequenceNumber::min_value(), SequenceNumber(0));
    assert_eq!(SequenceNumber::max_value(), SequenceNumber(u64::MAX));
    assert_eq!(SequenceNumber::max_value().to_string(), "seq:18446744073709551615");
    assert_eq!(SequenceNumber::from(0u64).to_string(), "seq:0");
}

#[test]
fn values_from_bytes() {
    assert_eq!(Value::from(vec![9u8, 8]).0, vec![9, 8]);
    assert_eq!(Value::from(b"xy".as_slice()).as_ref(), b"xy");
    assert_eq!(Key::from(vec![1u8]).as_ref(), &[1]);
}
