//! Caches of what was read from disk.

pub mod block_cache;
