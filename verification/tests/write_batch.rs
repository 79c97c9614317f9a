use kv_engine::cli::parse_batch;
use kv_engine::{BatchOp, WriteBatch};

#[test]
fn writebatch_basic() {
    let mut batch = WriteBatch::new();
    assert!(batch.is_empty());

    batch.put(b"a".to_vec(), b"1".to_vec());
    batch.put(b"b".to_vec(), b"2".to_vec());
    batch.delete(b"c".to_vec());

    assert_eq!(batch.len(), 3);
    assert!(!batch.is_empty());
}

#[test]
fn ops_keep_their_order() {
    let mut batch = WriteBatch::default();
    batch.delete(b"x".to_vec());
    batch.put(b"x".to_vec(), b"1".to_vec());
    let ops = batch.ops();
    assert!(matches!(&ops[0], BatchOp::Delete { key } if key == b"x"));
    assert!(matches!(&ops[1], BatchOp::Put { key, value } if key == b"x" && value == b"1"));
}

fn args(words: &[&str]) -> Vec<Vec<u8>> {
    words.iter().map(|w| w.as_bytes().to_vec()).collect()
}

#[test]
fn batch_command_is_parsed() {
    let batch = match parse_batch(&args(&["put", "a", "1", "delete", "b", "put", "c", "3"])) {
        Ok(batch) => batch,
        Err(at) => panic!("stopped at {}", at),
    };
    assert_eq!(batch.len(), 3);
    assert!(matches!(&batch.ops()[1], BatchOp::Delete { key } if key == b"b"));
}

#[test]
fn batch_command_may_end_in_a_delete() {
    let batch = parse_batch(&args(&["delete", "b"])).ok().unwrap();
    assert_eq!(batch.len(), 1);
    assert!(parse_batch(&args(&[])).ok().unwrap().is_empty());
}

#[test]
fn bad_batch_commands_name_the_word() {
    assert_eq!(parse_batch(&args(&["put", "a", "1", "frob", "b", "c"])).err(), Some(3));
    assert_eq!(parse_batch(&args(&["frob", "a", "1"])).err(), Some(0));
}

#[test]
fn incomplete_batch_commands_end_the_batch() {
    assert_eq!(parse_batch(&args(&["put", "a", "1", "put", "b"])).ok().unwrap().len(), 1);
    assert_eq!(parse_batch(&args(&["put", "a", "1", "delete"])).ok().unwrap().len(), 1);
    assert_eq!(parse_batch(&args(&["put", "a", "1", "frob", "b"])).ok().unwrap().len(), 1);
}
