//! Merging of sorted runs.

pub mod merge_iterator;
