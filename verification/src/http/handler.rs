//! The answers of the HTTP routes.

use vstd::prelude::*;

use crate::error::{utf8_lossy, utf8_lossy_of};
use crate::text::{decimal, hex, hex_bytes, push_decimal};

verus! {

/// The answer to a lookup.
pub struct KvResponse {
    pub found: bool,
    pub key: String,
    pub value: Option<String>,
    pub value_hex: Option<String>,
}

/// The answer to a write, a deletion or a compaction.
pub struct ActionResponse {
    pub success: bool,
    pub message: String,
}

/// The answer to a request for statistics.
pub struct StatsResponse {
    pub sst_count: usize,
    pub memtable_size: usize,
}

/// The answer to a lookup of `key`, which gave `value`: the value as text, where
/// bytes that are no text are replaced, and in hexadecimal.
pub fn get_key(key: String, value: Option<Vec<u8>>) -> (r: KvResponse)
    ensures
        r.key@ == key@,
        match value {
            Some(v) => {
                &&& r.found
                &&& r.value is Some
                &&& r.value->Some_0@ == utf8_lossy_of(v@)
                &&& r.value_hex is Some
                &&& r.value_hex->Some_0@ == hex_bytes(v@)
            },
            None => !r.found && r.value is None && r.value_hex is None,
        },
{
    match value {
        Some(v) => {
            let text = utf8_lossy(v.as_slice());
            get_key_as(key, Some(v), text)
        },
        None => KvResponse { found: false, key, value: None, value_hex: None },
    }
}

/// The answer to a lookup of `key`, where `text` is the value as text.
pub fn get_key_as(key: String, value: Option<Vec<u8>>, text: String) -> (r: KvResponse)
    ensures
        r.key@ == key@,
        match value {
            Some(v) => {
                &&& r.found
                &&& r.value == Some(text)
                &&& r.value_hex is Some
                &&& r.value_hex->Some_0@ == hex_bytes(v@)
            },
            None => !r.found && r.value is None && r.value_hex is None,
        },
{
    match value {
        Some(v) => KvResponse {
            found: true,
            key,
            value: Some(text),
            value_hex: Some(hex(v.as_slice())),
        },
        None => KvResponse { found: false, key, value: None, value_hex: None },
    }
}

/// The answer to a write of `value_len` bytes to `key`.
pub fn put_key(key: &str, value_len: usize) -> (r: ActionResponse)
    ensures
        r.success,
        r.message@ == "OK: wrote "@ + decimal(value_len as nat) + " bytes to '"@ + key@ + "'"@,
{
    let mut message = "OK: wrote ".to_string();
    push_decimal(&mut message, value_len as u64);
    message.append(" bytes to '");
    message.append(key);
    message.append("'");
    ActionResponse { success: true, message }
}

/// The answer to a deletion of `key`.
pub fn delete_key(key: &str) -> (r: ActionResponse)
    ensures
        r.success,
        r.message@ == "OK: deleted '"@ + key@ + "'"@,
{
    let mut message = "OK: deleted '".to_string();
    message.append(key);
    message.append("'");
    ActionResponse { success: true, message }
}

/// The answer to a request for a compaction.
pub fn compact() -> (r: ActionResponse)
    ensures
        r.success,
        r.message@ == "compaction is triggered automatically on flush"@,
{
    ActionResponse {
        success: true,
        message: "compaction is triggered automatically on flush".to_string(),
    }
}

/// The answer to a request for statistics.
pub fn stats() -> (r: StatsResponse)
    ensures
        r == (StatsResponse { sst_count: 0, memtable_size: 0 }),
{
    StatsResponse { sst_count: 0, memtable_size: 0 }
}

} // verus!
