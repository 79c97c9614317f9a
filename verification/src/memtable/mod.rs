//! The in-memory write buffer.

pub mod memtable;
pub mod skiplist;
