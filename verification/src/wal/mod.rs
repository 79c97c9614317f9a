//! The write-ahead log.

pub mod record;
pub mod writer;
