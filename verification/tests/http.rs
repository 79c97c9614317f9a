use kv_engine::http::dashboard::render;
use kv_engine::http::handler::{compact, delete_key, get_key, get_key_as, put_key, stats};
use kv_engine::text::hex;
use kv_engine::{Metrics, MetricsSnapshot};

fn numbers() -> MetricsSnapshot {
    MetricsSnapshot { writes: 11, reads: 22, deletes: 33, compactions: 44, flushes: 55 }
}

#[test]
fn page_shows_the_metrics() {
    let page = render(5, &numbers());
    assert!(page.starts_with("<!DOCTYPE html>"));
    assert!(page.ends_with("</html>"));
    for (id, n) in [("m-writes", 11), ("m-reads", 22), ("m-deletes", 33), ("m-compactions", 44), ("m-flushes", 55)] {
        let at = page.find(&format!("id=\"{}\"", id)).unwrap();
        let rest = &page[at..];
        let from = rest.find('>').unwrap() + 1;
        let to = rest.find('<').unwrap();
        assert_eq!(&rest[from..to], format!("{}", n));
    }
}

#[test]
fn page_shows_the_uptime_in_words() {
    for (secs, words) in [
        (0u64, "0m 0s"),
        (59, "0m 59s"),
        (61, "1m 1s"),
        (3600, "1h 0m 0s"),
        (3723, "1h 2m 3s"),
        (86400, "1d 0h 0m 0s"),
        (2 * 86400 + 3 * 3600 + 4 * 60 + 5, "2d 3h 4m 5s"),
    ] {
        assert!(render(secs, &numbers()).contains(&format!("<b id=\"uptime\">{}</b>", words)));
    }
}

#[test]
fn lookup_answers() {
    let found = get_key("k".to_string(), Some(b"hi".to_vec()));
    assert!(found.found);
    assert_eq!(found.key, "k");
    assert_eq!(found.value, Some("hi".to_string()));
    assert_eq!(found.value_hex, Some("68 69".to_string()));
    let missing = get_key("k".to_string(), None);
    assert!(!missing.found);
    assert_eq!(missing.value, None);
    assert_eq!(missing.value_hex, None);
}

#[test]
fn values_that_are_no_text_are_answered_lossily() {
    let found = get_key("k".to_string(), Some(vec![0x61, 0xff, 0x00]));
    assert_eq!(found.value, Some("a\u{fffd}\u{0}".to_string()));
    assert_eq!(found.value_hex, Some("61 ff 00".to_string()));
    let found = get_key_as("k".to_string(), Some(vec![]), "text".to_string());
    assert_eq!(found.value, Some("text".to_string()));
    assert_eq!(found.value_hex, Some(String::new()));
}

#[test]
fn action_answers() {
    let put = put_key("name", 12);
    assert!(put.success);
    assert_eq!(put.message, "OK: wrote 12 bytes to 'name'");
    let delete = delete_key("name");
    assert!(delete.success);
    assert_eq!(delete.message, "OK: deleted 'name'");
    assert!(compact().success);
    assert_eq!(compact().message, "compaction is triggered automatically on flush");
    assert_eq!((stats().sst_count, stats().memtable_size), (0, 0));
}

#[test]
fn bytes_in_hexadecimal() {
    assert_eq!(hex(&[0, 15, 16, 255]), "00 0f 10 ff");
    assert_eq!(hex(&[]), "");
}

#[test]
fn new_metrics_are_zero() {
    let m = Metrics::new().snapshot();
    assert_eq!((m.writes, m.reads, m.deletes, m.compactions, m.flushes), (0, 0, 0, 0, 0));
    let m = MetricsSnapshot::default();
    assert_eq!((m.writes, m.reads, m.deletes, m.compactions, m.flushes), (0, 0, 0, 0, 0));
}
