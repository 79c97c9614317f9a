//! The shape of the LSM tree at one point in time.

use vstd::prelude::*;

use crate::manifest::SSTMeta;

verus! {

/// Tracks which SSTable files belong to each level of the LSM tree.
#[derive(Debug, Clone)]
pub struct Version {
    /// SSTable metadata organized by level.
    pub levels: Vec<Vec<SSTMeta>>,
}

impl Default for Version {
    fn default() -> (r: Self)
        ensures
            r.levels@.len() == 0,
    {
        Self::new()
    }
}

impl Version {
    /// A tree without tables.
    pub fn new() -> (r: Self)
        ensures
            r.levels@.len() == 0,
    {
        Version { levels: Vec::new() }
    }
}

} // verus!
