//! A key-value storage engine built as a log-structured merge tree.

pub mod bytes;
pub mod cache;
pub mod cli;
pub mod compaction;
pub mod engine;
pub mod entries;
pub mod error;
pub mod filter;
pub mod http;
pub mod manifest;
pub mod memtable;
pub mod sstable;
pub mod text;
pub mod types;
pub mod version;
pub mod wal;
pub mod write_batch;

pub use engine::{Engine, Metrics, MetricsSnapshot, Options, RepairReport, Snapshot};
pub use error::KvError;
pub use types::{Key, SequenceNumber, Value};
pub use write_batch::{BatchOp, WriteBatch};
