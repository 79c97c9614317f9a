//! Engine configuration.

use vstd::arithmetic::power::{lemma_pow0, pow};
use vstd::prelude::*;

verus! {

/// Engine configuration options.
#[derive(Debug, Clone)]
pub struct Options {
    /// MemTable freeze threshold in bytes. Default: 4 MiB.
    pub memtable_size: usize,
    /// SSTable data block size in bytes. Default: 4 KiB.
    pub block_size: usize,
    /// L0 SSTable count that triggers compaction. Default: 4.
    pub l0_compaction_threshold: usize,
    /// Whether to fsync after every write. Default: true.
    pub sync_wal: bool,
    /// Maximum number of LSM levels. Default: 7.
    pub max_levels: usize,
    /// Bloom filter bits per key. Default: 10.
    pub bloom_filter_bits_per_key: usize,
    /// Block cache capacity in bytes. Default: 8 MiB. 0 = disabled.
    pub block_cache_size: usize,
}

impl Default for Options {
    fn default() -> (r: Self)
        ensures
            r.memtable_size == 4 * 1024 * 1024,
            r.block_size == 4096,
            r.l0_compaction_threshold == 4,
            r.sync_wal,
            r.max_levels == 7,
            r.bloom_filter_bits_per_key == 10,
            r.block_cache_size == 8 * 1024 * 1024,
    {
        Options {
            memtable_size: 4 * 1024 * 1024,
            block_size: 4096,
            l0_compaction_threshold: 4,
            sync_wal: true,
            max_levels: 7,
            bloom_filter_bits_per_key: 10,
            block_cache_size: 8 * 1024 * 1024,
        }
    }
}

/// Ten to the power `n`.
pub open spec fn power_of_ten(n: nat) -> nat
    decreases n,
{
    if n == 0 {
        1
    } else {
        10 * power_of_ten((n - 1) as nat)
    }
}

impl Options {
    /// The capacity of the block cache; none where it is disabled.
    pub open spec fn cache_capacity(&self) -> Option<int> {
        if self.block_cache_size > 0 {
            Some(self.block_cache_size as int)
        } else {
            None
        }
    }

    /// How many tables a level may hold: level 0 the configured number, each
    /// further level ten times as many as the one before.
    pub open spec fn capacity(&self, level: nat) -> nat {
        self.l0_compaction_threshold as nat * power_of_ten(level)
    }

    /// The cache takes as many bytes as the option says, however many; with 0 there
    /// is no cache.
    pub proof fn cache_is_as_large_as_asked(&self)
        ensures
            self.block_cache_size == 0 <==> self.cache_capacity() is None,
            self.cache_capacity() matches Some(n) ==> n == self.block_cache_size,
    {
    }

    /// Level 0 may hold as many tables as the threshold says, whatever it is, and
    /// each level ten times as many as the one above it.
    pub proof fn capacity_is_tenfold(&self, level: nat)
        ensures
            self.capacity(0) == self.l0_compaction_threshold,
            self.capacity(level + 1) == 10 * self.capacity(level),
            self.capacity(level) == self.l0_compaction_threshold * pow(10, level),
        decreases level,
    {
        let t = self.l0_compaction_threshold as nat;
        assert(power_of_ten(0) == 1);
        assert(t * 1 == t) by (nonlinear_arith);
        capacity_step(t, level);
        if level == 0 {
            lemma_pow0(10);
        } else {
            let n = (level - 1) as nat;
            self.capacity_is_tenfold(n);
            reveal(pow);
            assert(t * (10 * pow(10, n)) == 10 * (t * pow(10, n))) by (nonlinear_arith);
        }
    }

    /// How many tables a level may hold, if a `usize` can tell.
    pub fn level_capacity(&self, level: usize) -> (r: Option<usize>)
        ensures
            match r {
                Some(n) => n == self.capacity(level as nat),
                None => self.capacity(level as nat) > usize::MAX,
            },
            r == if self.l0_compaction_threshold * pow(10, level as nat) <= usize::MAX {
                Some((self.l0_compaction_threshold * pow(10, level as nat)) as usize)
            } else {
                None
            },
    {
        proof {
            self.capacity_is_tenfold(level as nat);
        }
        let mut n: usize = self.l0_compaction_threshold;
        let mut l: usize = 0;
        assert(n * power_of_ten(0) == n) by {
            assert(power_of_ten(0) == 1);
        }
        while l < level
            invariant
                l <= level,
                n == self.capacity(l as nat),
                self.capacity(level as nat) == self.l0_compaction_threshold * pow(10, level as nat),
            decreases level - l,
        {
            proof {
                capacity_step(self.l0_compaction_threshold as nat, l as nat);
            }
            match n.checked_mul(10) {
                Some(m) => {
                    n = m;
                },
                None => {
                    proof {
                        capacity_grows(
                            self.l0_compaction_threshold as nat,
                            (l + 1) as nat,
                            level as nat,
                        );
                    }
                    return None;
                },
            }
            l = l + 1;
        }
        Some(n)
    }
}

/// The capacity of the next level.
proof fn capacity_step(t: nat, l: nat)
    ensures
        t * power_of_ten(l + 1) == 10 * (t * power_of_ten(l)),
{
    assert(t * (10 * power_of_ten(l)) == 10 * (t * power_of_ten(l))) by (nonlinear_arith);
}

/// Deeper levels hold no less.
proof fn capacity_grows(t: nat, l: nat, m: nat)
    requires
        l <= m,
    ensures
        t * power_of_ten(l) <= t * power_of_ten(m),
    decreases m - l,
{
    if l < m {
        capacity_grows(t, l, (m - 1) as nat);
        capacity_step(t, (m - 1) as nat);
    }
}

} // verus!
