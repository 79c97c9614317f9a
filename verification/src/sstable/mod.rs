//! Sorted string tables: immutable files of key-value pairs in key order.

pub mod block;
pub mod builder;
pub mod format;
pub mod reader;
