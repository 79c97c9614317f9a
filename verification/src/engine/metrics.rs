//! Engine metrics.

use vstd::prelude::*;

verus! {

/// Counters of what the engine has done. Each starts over at 0 after the highest
/// number that it can hold.
#[derive(Debug)]
pub struct Metrics {
    pub writes: u64,
    pub reads: u64,
    pub deletes: u64,
    pub compactions: u64,
    pub flushes: u64,
}

impl Default for Metrics {
    fn default() -> (r: Self)
        ensures
            r == (Metrics { writes: 0, reads: 0, deletes: 0, compactions: 0, flushes: 0 }),
    {
        Self::new()
    }
}

impl Metrics {
    /// Counters that all stand at 0.
    pub fn new() -> (r: Self)
        ensures
            r == (Metrics { writes: 0, reads: 0, deletes: 0, compactions: 0, flushes: 0 }),
    {
        Metrics { writes: 0, reads: 0, deletes: 0, compactions: 0, flushes: 0 }
    }

    /// A copy of the counters as they stand.
    pub fn snapshot(&self) -> (r: MetricsSnapshot)
        ensures
            r.writes == self.writes,
            r.reads == self.reads,
            r.deletes == self.deletes,
            r.compactions == self.compactions,
            r.flushes == self.flushes,
    {
        MetricsSnapshot {
            writes: self.writes,
            reads: self.reads,
            deletes: self.deletes,
            compactions: self.compactions,
            flushes: self.flushes,
        }
    }
}

/// A point-in-time copy of metrics.
#[derive(Debug, Clone)]
pub struct MetricsSnapshot {
    pub writes: u64,
    pub reads: u64,
    pub deletes: u64,
    pub compactions: u64,
    pub flushes: u64,
}

impl Default for MetricsSnapshot {
    fn default() -> (r: Self)
        ensures
            r == (MetricsSnapshot { writes: 0, reads: 0, deletes: 0, compactions: 0, flushes: 0 }),
    {
        MetricsSnapshot { writes: 0, reads: 0, deletes: 0, compactions: 0, flushes: 0 }
    }
}

} // verus!
