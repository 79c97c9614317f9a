//! MemTable: a pair of skip lists, one active and one waiting to be flushed.
//!
//! Writes go to the active list. When its estimated size exceeds `max_size`
//! bytes, the active list is frozen into the immutable slot and a fresh active
//! list is created. At most one immutable list exists at a time: the engine
//! flushes it to an SSTable before the next freeze.

use vstd::prelude::*;

use crate::entries::{map_of, overlay, pairs, range_map, range_of_map, sorted};
use crate::memtable::skiplist::{ListShape, SkipList, LIST_OVERHEAD};

verus! {

/// Default freeze threshold: 4 MiB.
pub const DEFAULT_MAX_SIZE: usize = 4 * 1024 * 1024;

/// The height of the lists' towers.
pub const MAX_LEVEL: usize = 16;

/// The size of a list once a key is written to it.
pub open spec fn size_after(list: SkipList, key: Seq<u8>, value: Seq<u8>) -> int {
    list.shape().insert(key, value).size
}

/// The size that decides about freezing is that of the list with the new entry.
pub proof fn size_after_counts_entry(list: SkipList, key: Seq<u8>, value: Seq<u8>)
    ensures
        size_after(list, key, value) == list.shape().insert(key, value).size,
{
}

/// Write all entries to a list, in order.
pub fn insert_all(list: &mut SkipList, entries: &Vec<(Vec<u8>, Vec<u8>)>)
    requires
        old(list).wf(),
    ensures
        final(list).wf(),
        final(list)@ == overlay(old(list)@, map_of(pairs(entries@))),
{
    let ghost s = pairs(entries@);
    let ghost before = list@;
    let mut i: usize = 0;
    assert(s.take(0) =~= Seq::empty());
    assert(overlay(before, map_of(s.take(0))) =~= before);
    while i < entries.len()
        invariant
            i <= entries@.len(),
            s == pairs(entries@),
            list.wf(),
            list@ == overlay(before, map_of(s.take(i as int))),
        decreases entries@.len() - i,
    {
        list.insert(entries[i].0.as_slice(), entries[i].1.as_slice());
        proof {
            let upto = s.take(i + 1);
            assert(upto.drop_last() =~= s.take(i as int));
            assert(upto.last() == s[i as int]);
            assert(list@ =~= overlay(before, map_of(upto)));
        }
        i = i + 1;
    }
    assert(s.take(i as int) =~= s);
}

/// An in-memory write buffer backed by skip lists.
///
/// Holds at most one immutable list that is waiting to be flushed to disk as an
/// SSTable.
pub struct MemTable {
    active: SkipList,
    immutable: Option<SkipList>,
    max_size: usize,
}

impl View for MemTable {
    type V = Map<Seq<u8>, Seq<u8>>;

    /// What the table holds: the active list over the immutable one.
    open spec fn view(&self) -> Map<Seq<u8>, Seq<u8>> {
        match self.spec_immutable() {
            Some(list) => overlay(list@, self.spec_active()@),
            None => self.spec_active()@,
        }
    }
}

impl Default for MemTable {
    fn default() -> (r: Self)
        ensures
            r.wf(),
            r@ == Map::<Seq<u8>, Seq<u8>>::empty(),
            r.spec_immutable() is None,
            r.spec_max_size() == 4 * 1024 * 1024,
    {
        Self::new()
    }
}

impl MemTable {
    /// The list that takes writes.
    pub closed spec fn spec_active(&self) -> SkipList {
        self.active
    }

    /// The list that waits to be flushed.
    pub closed spec fn spec_immutable(&self) -> Option<SkipList> {
        self.immutable
    }

    /// The freeze threshold.
    pub closed spec fn spec_max_size(&self) -> usize {
        self.max_size
    }

    /// Both lists are well-formed.
    pub open spec fn wf(&self) -> bool {
        &&& self.spec_active().wf()
        &&& self.spec_immutable() matches Some(list) ==> list.wf() && list.entries().len() > 0
    }

    /// Create a new, empty MemTable with the default 4 MiB threshold.
    pub fn new() -> (r: Self)
        ensures
            r.wf(),
            r@ == Map::<Seq<u8>, Seq<u8>>::empty(),
            r.spec_immutable() is None,
            r.spec_max_size() == 4 * 1024 * 1024,
    {
        Self::with_max_size(DEFAULT_MAX_SIZE)
    }

    /// Create a new MemTable with a custom freeze threshold.
    pub fn with_max_size(max_size: usize) -> (r: Self)
        ensures
            r.wf(),
            r@ == Map::<Seq<u8>, Seq<u8>>::empty(),
            r.spec_active().shape() == ListShape::fresh(MAX_LEVEL),
            r.spec_active().shape().levels == 16,
            r.spec_active().entries().len() == 0,
            r.spec_immutable() is None,
            r.spec_max_size() == max_size,
    {
        MemTable { active: SkipList::new(MAX_LEVEL), immutable: None, max_size }
    }

    /// Write a key-value pair into the active list.
    ///
    /// If the active list exceeds `max_size` after the insert it is frozen into
    /// the immutable slot, if that is free, and a new active list is created.
    pub fn put(&mut self, key: &[u8], value: &[u8])
        requires
            old(self).wf(),
        ensures
            final(self).wf(),
            final(self)@ == old(self)@.insert(key@, value@),
            final(self).spec_max_size() == old(self).spec_max_size(),
            if old(self).spec_immutable() is None && size_after(
                old(self).spec_active(),
                key@,
                value@,
            ) > old(self).spec_max_size() {
                &&& final(self).spec_immutable() is Some
                &&& final(self).spec_immutable()->Some_0@ == old(self).spec_active()@.insert(
                    key@,
                    value@,
                )
                &&& final(self).spec_immutable()->Some_0.spec_size() == size_after(
                    old(self).spec_active(),
                    key@,
                    value@,
                )
                &&& final(self).spec_active().shape() == ListShape::fresh(MAX_LEVEL)
            } else {
                &&& final(self).spec_immutable() == old(self).spec_immutable()
                &&& final(self).spec_active().shape() == old(self).spec_active().shape().insert(
                    key@,
                    value@,
                )
                &&& final(self).spec_active().spec_size() == size_after(
                    old(self).spec_active(),
                    key@,
                    value@,
                )
            },
    {
        self.put_no_freeze(key, value);
        if self.active.size() > self.max_size {
            proof {
                self.active.entries_sorted();
                written_is_some(self.active, key@);
            }
            self.freeze();
        }
    }

    /// Insert into the active list without triggering a freeze.
    ///
    /// Used while the WAL is replayed and while a batch is applied, so that
    /// nothing is flushed in between.
    pub fn put_no_freeze(&mut self, key: &[u8], value: &[u8])
        requires
            old(self).wf(),
        ensures
            final(self).wf(),
            final(self)@ == old(self)@.insert(key@, value@),
            final(self).spec_max_size() == old(self).spec_max_size(),
            final(self).spec_immutable() == old(self).spec_immutable(),
            final(self).spec_active().shape() == old(self).spec_active().shape().insert(
                key@,
                value@,
            ),
    {
        let ghost before = self@;
        self.active.insert(key, value);
        assert(self@ =~= before.insert(key@, value@));
    }

    /// Freeze the active list if it exceeds the threshold and the immutable slot
    /// is free.
    pub fn freeze_if_full(&mut self)
        requires
            old(self).wf(),
        ensures
            final(self).wf(),
            final(self)@ == old(self)@,
            final(self).spec_max_size() == old(self).spec_max_size(),
            if old(self).spec_immutable() is None && old(self).spec_active().spec_size() > old(
                self,
            ).spec_max_size() && old(self).spec_active().entries().len() > 0 {
                &&& final(self).spec_immutable() == Some(old(self).spec_active())
                &&& final(self).spec_active().shape() == ListShape::fresh(MAX_LEVEL)
            } else {
                *final(self) == *old(self)
            },
    {
        if self.active.size() > self.max_size {
            self.freeze();
        }
    }

    /// Look up a key. The active list is searched first, then the immutable one.
    pub fn get(&self, key: &[u8]) -> (r: Option<Vec<u8>>)
        requires
            self.wf(),
        ensures
            match r {
                Some(v) => self@.contains_key(key@) && v@ == self@[key@],
                None => !self@.contains_key(key@),
            },
    {
        if let Some(v) = self.active.get(key) {
            return Some(v);
        }
        match &self.immutable {
            Some(list) => list.get(key),
            None => None,
        }
    }

    /// The key-value pairs with `start <= key < end`, in key order.
    ///
    /// Where a key is in both lists, the active value counts.
    pub fn scan(&self, start: &[u8], end: &[u8]) -> (r: Vec<(Vec<u8>, Vec<u8>)>)
        requires
            self.wf(),
        ensures
            sorted(pairs(r@)),
            map_of(pairs(r@)) == range_map(self@, start@, end@),
    {
        let mut merged = SkipList::new(MAX_LEVEL);
        if let Some(list) = &self.immutable {
            let older = list.scan(start, end).collect();
            proof {
                range_of_map(list.entries(), start@, end@);
            }
            insert_all(&mut merged, &older);
            assert(merged@ =~= range_map(list@, start@, end@));
        }
        let newer = self.active.scan(start, end).collect();
        proof {
            range_of_map(self.active.entries(), start@, end@);
        }
        insert_all(&mut merged, &newer);
        assert(merged@ =~= range_map(self@, start@, end@));
        proof {
            merged.entries_sorted();
        }
        merged.iter().collect()
    }

    /// All key-value pairs, in key order.
    pub fn entries(&self) -> (r: Vec<(Vec<u8>, Vec<u8>)>)
        requires
            self.wf(),
        ensures
            sorted(pairs(r@)),
            map_of(pairs(r@)) == self@,
    {
        let mut merged = SkipList::new(MAX_LEVEL);
        if let Some(list) = &self.immutable {
            let older = list.iter().collect();
            insert_all(&mut merged, &older);
            assert(merged@ =~= list@);
        }
        let newer = self.active.iter().collect();
        insert_all(&mut merged, &newer);
        assert(merged@ =~= self@);
        proof {
            merged.entries_sorted();
        }
        merged.iter().collect()
    }

    /// The key-value pairs of the active list, in key order.
    pub fn active_entries(&self) -> (r: Vec<(Vec<u8>, Vec<u8>)>)
        requires
            self.wf(),
        ensures
            pairs(r@) == self.spec_active().entries(),
    {
        self.active.iter().collect()
    }

    /// Freeze the active list into the immutable slot.
    ///
    /// Returns whether a freeze happened: the active list was not empty and the
    /// slot was free.
    pub fn freeze(&mut self) -> (r: bool)
        requires
            old(self).wf(),
        ensures
            final(self).wf(),
            final(self)@ == old(self)@,
            final(self).spec_max_size() == old(self).spec_max_size(),
            r == (old(self).spec_immutable() is None && old(self).spec_active().entries().len() > 0),
            if r {
                &&& final(self).spec_immutable() == Some(old(self).spec_active())
                &&& final(self).spec_active().shape() == ListShape::fresh(MAX_LEVEL)
            } else {
                *final(self) == *old(self)
            },
    {
        if self.immutable.is_some() {
            return false;
        }
        proof {
            self.active.entries_sorted();
        }
        if self.active.size() <= LIST_OVERHEAD {
            return false;
        }
        let ghost before = self@;
        let mut list = SkipList::new(MAX_LEVEL);
        std::mem::swap(&mut list, &mut self.active);
        self.immutable = Some(list);
        assert(self@ =~= before);
        true
    }

    /// The estimated size of the active list in bytes.
    pub fn active_size(&self) -> (r: usize)
        ensures
            r == self.spec_active().spec_size(),
    {
        self.active.size()
    }

    /// The estimated size of the immutable list, if there is one.
    pub fn immutable_size(&self) -> (r: Option<usize>)
        ensures
            r == match self.spec_immutable() {
                Some(list) => Some(list.spec_size()),
                None => None,
            },
    {
        match &self.immutable {
            Some(list) => Some(list.size()),
            None => None,
        }
    }

    /// Whether an immutable list is awaiting flush.
    pub fn has_immutable(&self) -> (r: bool)
        ensures
            r == self.spec_immutable() is Some,
    {
        self.immutable.is_some()
    }

    /// The immutable list, which stays in its place.
    pub fn peek_immutable(&self) -> (r: Option<&SkipList>)
        ensures
            match (r, self.spec_immutable()) {
                (Some(a), Some(b)) => *a == b,
                (None, None) => true,
                _ => false,
            },
    {
        match &self.immutable {
            Some(list) => Some(list),
            None => None,
        }
    }

    /// Take the immutable list out, leaving its slot free.
    pub fn take_immutable(&mut self) -> (r: Option<SkipList>)
        requires
            old(self).wf(),
        ensures
            final(self).wf(),
            r == old(self).spec_immutable(),
            final(self).spec_immutable() is None,
            final(self).spec_active() == old(self).spec_active(),
            final(self).spec_max_size() == old(self).spec_max_size(),
    {
        self.immutable.take()
    }
}

/// A list that holds a key is not empty.
proof fn written_is_some(list: SkipList, key: Seq<u8>)
    requires
        list@.contains_key(key),
    ensures
        list.entries().len() > 0,
{
    crate::entries::map_of_contains(list.entries(), key);
}

} // verus!
