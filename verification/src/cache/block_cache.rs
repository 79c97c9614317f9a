//! LRU block cache: keeps decoded SSTable data blocks in memory, so that they
//! need not be read again.

use vstd::prelude::*;

use crate::sstable::block::{Block, BlockShape};
use crate::sstable::format::TableView;

verus! {

/// Cache key: a data block of a table.
#[derive(Debug, Clone, Copy, PartialEq, Eq, Hash, Structural)]
pub struct CacheKey {
    pub sst_id: u64,
    pub block_idx: usize,
}

/// A cached block.
pub type Cached = (CacheKey, BlockShape);

/// The cached blocks of an executable list.
pub open spec fn cached_views(s: Seq<(CacheKey, Block)>) -> Seq<Cached> {
    Seq::new(s.len(), |i: int| (s[i].0, s[i].1.shape()))
}

/// What a list of cached blocks takes together.
pub open spec fn total_size(s: Seq<Cached>) -> int
    decreases s.len(),
{
    if s.len() == 0 {
        0
    } else {
        total_size(s.drop_last()) + s.last().1.size
    }
}

/// Where the first entry of `key` stands, or the length of the list.
pub open spec fn slot(s: Seq<Cached>, key: CacheKey) -> int
    decreases s.len(),
{
    if s.len() == 0 || s[0].0 == key {
        0
    } else {
        1 + slot(s.drop_first(), key)
    }
}

/// The list without the entry of `key`.
pub open spec fn without(s: Seq<Cached>, key: CacheKey) -> Seq<Cached> {
    if slot(s, key) < s.len() {
        s.remove(slot(s, key))
    } else {
        s
    }
}

/// The list once entries have left its end until `size` more bytes fit in
/// `capacity`, or nothing is left.
pub open spec fn evicted(
    s: Seq<Cached>,
    size: int,
    capacity: int,
) -> Seq<Cached>
    decreases s.len(),
{
    if s.len() > 0 && total_size(s) + size > capacity {
        evicted(s.drop_last(), size, capacity)
    } else {
        s
    }
}

/// The list once a block was asked for: it stands in front, and if it was not
/// there the least recently used blocks have left until it fits.
pub open spec fn touched(
    s: Seq<Cached>,
    key: CacheKey,
    block: BlockShape,
    capacity: int,
) -> Seq<Cached> {
    let i = slot(s, key);
    if i < s.len() {
        seq![s[i]] + s.remove(i)
    } else {
        seq![(key, block)] + evicted(s, block.size as int, capacity)
    }
}

/// The list once a key was looked up in the table `t`, for which `sst_id` stands:
/// the data block that may hold the key was asked for, unless the filter rules the
/// key out or the block cannot be read.
pub open spec fn consulted(
    s: Seq<Cached>,
    sst_id: u64,
    t: TableView,
    key: Seq<u8>,
    capacity: int,
) -> Seq<Cached> {
    let i = t.block_of(key);
    if t.filter.may_contain(key) && i < t.index.len() && t.load(i) is Ok {
        touched(s, CacheKey { sst_id, block_idx: i as usize }, t.shape(i), capacity)
    } else {
        s
    }
}

/// No block is listed twice.
pub open spec fn distinct(s: Seq<Cached>) -> bool {
    forall|i: int, j: int|
        0 <= i < j < s.len() ==> (#[trigger] s[i]).0 != (#[trigger] s[j]).0
}

/// What is cached for the table `sst_id` are blocks of the table `t`.
pub open spec fn coherent(s: Seq<Cached>, sst_id: u64, t: TableView) -> bool {
    forall|i: int|
        0 <= i < s.len() && (#[trigger] s[i]).0.sst_id == sst_id ==> s[i].0.block_idx
            < t.index.len() && t.load(s[i].0.block_idx as int) is Ok && s[i].1 == t.shape(
            s[i].0.block_idx as int,
        )
}

/// What `t` lists but `s` does not belongs to the table `sst_id`.
pub open spec fn adds_only(
    s: Seq<Cached>,
    t: Seq<Cached>,
    sst_id: u64,
) -> bool {
    forall|j: int|
        0 <= j < t.len() && (#[trigger] t[j]).0.sst_id != sst_id ==> exists|i: int|
            0 <= i < s.len() && #[trigger] s[i] == t[j]
}

/// Blocks of another table leave a cache coherent.
pub proof fn adds_only_coherent(
    s: Seq<Cached>,
    t: Seq<Cached>,
    sst_id: u64,
    other: u64,
    table: TableView,
)
    requires
        adds_only(s, t, sst_id),
        coherent(s, other, table),
        other != sst_id,
    ensures
        coherent(t, other, table),
{
    assert forall|j: int|
        0 <= j < t.len() && (#[trigger] t[j]).0.sst_id == other implies t[j].0.block_idx
        < table.index.len() && table.load(t[j].0.block_idx as int) is Ok && t[j].1 == table.shape(
        t[j].0.block_idx as int,
    ) by {
        let i = choose|i: int| 0 <= i < s.len() && #[trigger] s[i] == t[j];
    }
}

/// Where the entry of a key stands.
pub proof fn slot_is_first(s: Seq<Cached>, key: CacheKey)
    ensures
        0 <= slot(s, key) <= s.len(),
        slot(s, key) < s.len() ==> s[slot(s, key)].0 == key,
        forall|j: int| 0 <= j < slot(s, key) ==> (#[trigger] s[j]).0 != key,
    decreases s.len(),
{
    if s.len() > 0 && s[0].0 != key {
        slot_is_first(s.drop_first(), key);
        assert forall|j: int| 0 <= j < slot(s, key) implies (#[trigger] s[j]).0 != key by {
            if j > 0 {
                assert(s.drop_first()[j - 1].0 != key);
            }
        }
    }
}

/// Where the entry of a key must stand.
proof fn slot_unique(s: Seq<Cached>, key: CacheKey, i: int)
    requires
        0 <= i <= s.len(),
        i < s.len() ==> s[i].0 == key,
        forall|j: int| 0 <= j < i ==> (#[trigger] s[j]).0 != key,
    ensures
        slot(s, key) == i,
{
    slot_is_first(s, key);
}

/// Taking an entry out of a list takes its size out of the total.
proof fn total_size_remove(s: Seq<Cached>, i: int)
    requires
        0 <= i < s.len(),
    ensures
        total_size(s.remove(i)) == total_size(s) - s[i].1.size,
    decreases s.len(),
{
    if i == s.len() - 1 {
        assert(s.remove(i) =~= s.drop_last());
    } else {
        let front = s.drop_last();
        total_size_remove(front, i);
        assert(s.remove(i).drop_last() =~= front.remove(i));
        assert(s.remove(i).last() == s.last());
    }
}

/// Putting an entry at the front of a list adds its size to the total.
proof fn total_size_front(s: Seq<Cached>, e: Cached)
    ensures
        total_size(seq![e] + s) == total_size(s) + e.1.size,
    decreases s.len(),
{
    let t = seq![e] + s;
    if s.len() == 0 {
        assert(t =~= seq![e]);
        assert(seq![e].drop_last() =~= Seq::<Cached>::empty());
        assert(total_size(Seq::<Cached>::empty()) == 0);
    } else {
        total_size_front(s.drop_last(), e);
        assert(t.drop_last() =~= seq![e] + s.drop_last());
        assert(t.last() == s.last());
    }
}

/// A total is never negative.
proof fn total_size_nonnegative(s: Seq<Cached>)
    ensures
        total_size(s) >= 0,
    decreases s.len(),
{
    if s.len() > 0 {
        total_size_nonnegative(s.drop_last());
    }
}

/// What is left after eviction is the front of the list, and either it leaves
/// room or nothing is left.
pub proof fn evicted_is_front(s: Seq<Cached>, size: int, capacity: int)
    ensures
        evicted(s, size, capacity).len() <= s.len(),
        evicted(s, size, capacity) == s.take(evicted(s, size, capacity).len() as int),
        evicted(s, size, capacity).len() == 0 || total_size(evicted(s, size, capacity)) + size
            <= capacity,
    decreases s.len(),
{
    if s.len() > 0 && total_size(s) + size > capacity {
        evicted_is_front(s.drop_last(), size, capacity);
        let n = evicted(s, size, capacity).len() as int;
        assert(s.drop_last().take(n) =~= s.take(n));
    } else {
        assert(s.take(s.len() as int) =~= s);
    }
}

/// Eviction takes the least recently used blocks and no more of them than it has to:
/// what is left is the front of the list, with the block behind it the new one would
/// not have fit, and nothing is evicted where there is room.
pub proof fn eviction_is_least(s: Seq<Cached>, size: int, capacity: int)
    ensures
        ({
            let n = evicted(s, size, capacity).len() as int;
            &&& n <= s.len()
            &&& evicted(s, size, capacity) == s.take(n)
            &&& n > 0 ==> total_size(s.take(n)) + size <= capacity
            &&& n < s.len() ==> total_size(s.take(n + 1)) + size > capacity
            &&& total_size(s) + size <= capacity ==> n == s.len()
        }),
    decreases s.len(),
{
    evicted_is_front(s, size, capacity);
    if s.len() > 0 && total_size(s) + size > capacity {
        let front = s.drop_last();
        eviction_is_least(front, size, capacity);
        let n = evicted(s, size, capacity).len() as int;
        if n < front.len() {
            assert(front.take(n + 1) =~= s.take(n + 1));
        } else {
            assert(s.take(n + 1) =~= s);
        }
    }
}

/// What cached blocks take is the sum of what each takes.
pub proof fn total_size_adds(s: Seq<Cached>, e: Cached)
    ensures
        total_size(Seq::empty()) == 0,
        total_size(s.push(e)) == total_size(s) + e.1.size,
{
    assert(s.push(e).drop_last() =~= s);
}

/// A simple LRU block cache with a byte-size capacity.
///
/// Evicts the least recently used entries when the cache would exceed it.
pub struct BlockCache {
    /// The cached blocks; the most recently used stands in front.
    blocks: Vec<(CacheKey, Block)>,
    capacity: usize,
    current_size: usize,
}

impl View for BlockCache {
    type V = Seq<Cached>;

    /// The cached blocks, the most recently used in front.
    closed spec fn view(&self) -> Seq<Cached> {
        cached_views(self.blocks@)
    }
}

impl BlockCache {
    /// The byte capacity.
    pub closed spec fn spec_capacity(&self) -> int {
        self.capacity as int
    }

    /// The size is that of the cached blocks, and no block is cached twice.
    pub closed spec fn wf(&self) -> bool {
        &&& self.current_size == total_size(self@)
        &&& distinct(self@)
    }

    /// What a well-formed cache keeps to.
    pub proof fn wf_distinct(&self)
        requires
            self.wf(),
        ensures
            distinct(self@),
    {
    }

    /// Create a new cache with the given byte capacity.
    pub fn new(capacity: usize) -> (r: Self)
        ensures
            r.wf(),
            r@ == Seq::<Cached>::empty(),
            r.spec_capacity() == capacity,
    {
        let r = BlockCache { blocks: Vec::new(), capacity, current_size: 0 };
        assert(r@ =~= Seq::<Cached>::empty());
        r
    }

    /// Look up a block. A block that is found becomes the most recently used.
    pub fn get(&mut self, key: &CacheKey) -> (r: Option<&Block>)
        requires
            old(self).wf(),
        ensures
            final(self).wf(),
            final(self).spec_capacity() == old(self).spec_capacity(),
            ({
                let s = old(self)@;
                let i = slot(s, *key);
                if i < s.len() {
                    &&& r is Some
                    &&& r->Some_0.shape() == s[i].1
                    &&& final(self)@ == seq![s[i]] + s.remove(i)
                } else {
                    r is None && final(self)@ == s
                }
            }),
    {
        let ghost s = self@;
        let i = self.find(key);
        proof {
            slot_is_first(s, *key);
        }
        if i < self.blocks.len() {
            proof {
                total_size_remove(s, i as int);
                total_size_front(s.remove(i as int), s[i as int]);
            }
            let entry = self.blocks.remove(i);
            self.blocks.insert(0, entry);
            assert(self@ =~= seq![s[i as int]] + s.remove(i as int));
            Some(&self.blocks[0].1)
        } else {
            None
        }
    }

    /// Insert a block as the most recently used. The least recently used blocks
    /// leave until it fits, or nothing else is left.
    pub fn put(&mut self, key: CacheKey, block: Block)
        requires
            old(self).wf(),
        ensures
            final(self).wf(),
            final(self).spec_capacity() == old(self).spec_capacity(),
            final(self)@ == seq![(key, block.shape())] + evicted(
                without(old(self)@, key),
                block.spec_size() as int,
                old(self).spec_capacity(),
            ),
    {
        let ghost s = self@;
        let ghost shape = block.shape();
        let ghost capacity = self.capacity as int;
        let block_size = block.estimated_size();
        let i = self.find(&key);
        proof {
            slot_is_first(s, key);
        }
        if i < self.blocks.len() {
            proof {
                total_size_remove(s, i as int);
                total_size_nonnegative(s.remove(i as int));
            }
            let entry = self.blocks.remove(i);
            self.current_size = self.current_size - entry.1.estimated_size();
        }
        let ghost rest = without(s, key);
        assert(self@ =~= rest);
        assert forall|j: int| 0 <= j < rest.len() implies (#[trigger] rest[j]).0 != key by {
            if j < i {
                assert(s[j].0 != key);
            } else {
                assert(s[j + 1].0 != s[i as int].0);
            }
        }
        while self.blocks.len() > 0 && (block_size > self.capacity || self.current_size
            > self.capacity - block_size)
            invariant
                capacity == self.capacity,
                self.current_size == total_size(self@),
                self@.len() == self.blocks@.len(),
                evicted(self@, block_size as int, capacity) == evicted(
                    rest,
                    block_size as int,
                    capacity,
                ),
            decreases self.blocks@.len(),
        {
            let ghost now = self@;
            proof {
                total_size_nonnegative(now.drop_last());
            }
            if let Some(entry) = self.blocks.pop() {
                self.current_size = self.current_size - entry.1.estimated_size();
            }
            assert(self@ =~= now.drop_last());
        }
        proof {
            let kept = evicted(rest, block_size as int, capacity);
            evicted_is_front(rest, block_size as int, capacity);
            assert(self@ == kept);
            if kept.len() == 0 {
                assert(total_size(kept) == 0);
            }
            total_size_front(kept, (key, shape));
            assert(distinct(rest)) by {
                assert forall|a: int, b: int| 0 <= a < b < rest.len() implies (
                #[trigger] rest[a]).0 != (#[trigger] rest[b]).0 by {
                    if slot(s, key) < s.len() {
                        let a0 = if a < i {
                            a
                        } else {
                            a + 1
                        };
                        let b0 = if b < i {
                            b
                        } else {
                            b + 1
                        };
                        assert(s[a0].0 != s[b0].0);
                    } else {
                        assert(s[a].0 != s[b].0);
                    }
                }
            }
            let after = seq![(key, shape)] + kept;
            assert forall|a: int, b: int| 0 <= a < b < after.len() implies (
            #[trigger] after[a]).0 != (#[trigger] after[b]).0 by {
                assert(after[b] == rest[b - 1]);
                if a > 0 {
                    assert(after[a] == rest[a - 1]);
                    assert(rest[a - 1].0 != rest[b - 1].0);
                }
            }
        }
        self.current_size = self.current_size + block_size;
        self.blocks.insert(0, (key, block));
        assert(self@ =~= seq![(key, shape)] + evicted(rest, block_size as int, capacity));
    }

    /// Current memory usage in bytes.
    pub fn size(&self) -> (r: usize)
        requires
            self.wf(),
        ensures
            r == total_size(self@),
    {
        self.current_size
    }

    /// Number of cached entries.
    pub fn len(&self) -> (r: usize)
        ensures
            r == self@.len(),
    {
        self.blocks.len()
    }

    /// Whether the cache is empty.
    pub fn is_empty(&self) -> (r: bool)
        ensures
            r == (self@.len() == 0),
    {
        self.blocks.len() == 0
    }

    /// Where a block stands, or the number of cached blocks.
    fn find(&self, key: &CacheKey) -> (r: usize)
        ensures
            r == slot(self@, *key),
            r <= self@.len(),
    {
        let mut i: usize = 0;
        while i < self.blocks.len()
            invariant
                i <= self.blocks@.len(),
                forall|j: int| 0 <= j < i ==> (#[trigger] self@[j]).0 != *key,
            decreases self.blocks@.len() - i,
        {
            if self.blocks[i].0 == *key {
                proof {
                    slot_unique(self@, *key, i as int);
                }
                return i;
            }
            i = i + 1;
        }
        proof {
            slot_unique(self@, *key, i as int);
        }
        i
    }
}

/// A cache whose blocks each fit never takes more than its capacity.
pub proof fn put_keeps_capacity(s: Seq<Cached>, key: CacheKey, block: BlockShape, capacity: int)
    requires
        block.size <= capacity,
    ensures
        total_size(seq![(key, block)] + evicted(without(s, key), block.size as int, capacity))
            <= capacity,
{
    let kept = evicted(without(s, key), block.size as int, capacity);
    evicted_is_front(without(s, key), block.size as int, capacity);
    total_size_front(kept, (key, block));
    if kept.len() == 0 {
        assert(total_size(kept) == 0);
    }
}

/// A block that was put is what the next lookup of its key finds.
pub proof fn put_then_get(s: Seq<Cached>, key: CacheKey, block: BlockShape, capacity: int)
    ensures
        ({
            let after = seq![(key, block)] + evicted(without(s, key), block.size as int, capacity);
            slot(after, key) == 0 && after[0].1 == block
        }),
{
}

/// A block that was asked for is there the next time, and is asked for without
/// being read: nothing but the order changes.
pub proof fn touched_stays(s: Seq<Cached>, key: CacheKey, block: BlockShape, capacity: int)
    ensures
        slot(touched(s, key, block, capacity), key) == 0,
        touched(touched(s, key, block, capacity), key, block, capacity) == touched(
            s,
            key,
            block,
            capacity,
        ),
{
    slot_is_first(s, key);
    let t = touched(s, key, block, capacity);
    assert(t[0].0 == key);
    assert(seq![t[0]] + t.remove(0) =~= t);
}

/// Asking for a block moves it to the front and leaves all else in its order; if it
/// was not there, only as many of the least recently used go as it needs.
pub proof fn touched_moves_one(
    s: Seq<Cached>,
    key: CacheKey,
    block: BlockShape,
    capacity: int,
    i: int,
)
    requires
        0 <= i <= s.len(),
        forall|j: int| 0 <= j < i ==> (#[trigger] s[j]).0 != key,
    ensures
        i < s.len() && s[i].0 == key ==> touched(s, key, block, capacity) == seq![s[i]] + s.take(i)
            + s.skip(i + 1),
        i == s.len() ==> ({
            let t = touched(s, key, block, capacity);
            let n = t.len() - 1;
            &&& 0 <= n <= s.len()
            &&& t == seq![(key, block)] + s.take(n)
            &&& n > 0 ==> total_size(s.take(n)) + block.size <= capacity
            &&& n < s.len() ==> total_size(s.take(n + 1)) + block.size > capacity
        }),
        i < s.len() && s[i].0 == key ==> without(s, key) == s.take(i) + s.skip(i + 1),
        i == s.len() ==> without(s, key) == s,
{
    first_slot(s, key, i);
    eviction_is_least(s, block.size as int, capacity);
    if i < s.len() && s[i].0 == key {
        assert(s.remove(i) =~= s.take(i) + s.skip(i + 1));
        assert(seq![s[i]] + s.remove(i) =~= seq![s[i]] + s.take(i) + s.skip(i + 1));
    }
}

/// Where a key stands first.
proof fn first_slot(s: Seq<Cached>, key: CacheKey, i: int)
    requires
        0 <= i <= s.len(),
        forall|j: int| 0 <= j < i ==> (#[trigger] s[j]).0 != key,
    ensures
        i == s.len() || s[i].0 == key ==> slot(s, key) == i,
    decreases s.len(),
{
    if i > 0 {
        assert(s[0].0 != key);
        let rest = s.drop_first();
        assert forall|j: int| 0 <= j < i - 1 implies (#[trigger] rest[j]).0 != key by {
            assert(s[j + 1].0 != key);
        }
        first_slot(rest, key, i - 1);
    }
}

/// A lookup in a table asks for one block: the one that may hold the key. It asks
/// for none where the filter rules the key out, where the key is behind all blocks,
/// or where the block cannot be read.
pub proof fn lookup_asks_for_one_block(
    s: Seq<Cached>,
    sst_id: u64,
    t: TableView,
    key: Seq<u8>,
    capacity: int,
)
    ensures
        ({
            let i = t.block_of(key);
            let asked = t.filter.may_contain(key) && i < t.index.len() && t.load(i) is Ok;
            &&& !asked ==> consulted(s, sst_id, t, key, capacity) == s
            &&& asked ==> consulted(s, sst_id, t, key, capacity) == touched(
                s,
                CacheKey { sst_id, block_idx: i as usize },
                BlockShape {
                    entries: t.load(i)->Ok_0.0,
                    size: (t.load(i)->Ok_0.1 - 4) as nat,
                },
                capacity,
            )
        }),
{
}

} // verus!
