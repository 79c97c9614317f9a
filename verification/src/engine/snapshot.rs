//! Point-in-time snapshots.
//!
//! A snapshot holds what it sees: a copy of the memtable's entries, and the
//! tables that were open, which it shares with the engine. Tables never change,
//! so whatever the engine writes, flushes or compacts later, the snapshot reads
//! as the database was when it was taken.

use vstd::prelude::*;

use crate::engine::layout::seen;
use crate::engine::state::{read_is_seen, EngineView};
use crate::engine::tables::{all_sound, search, Table, TableEntry};
use crate::engine::value::{seq_of, shown, unpack_value};
use crate::entries::{bisect, found_in_sorted, map_of, pairs, sorted};
use crate::error::Result;
use crate::memtable::memtable::MemTable;
use crate::sstable::reader::gives;

verus! {

/// What a snapshot holds.
#[verifier::ext_equal]
pub struct SnapshotView {
    /// What the memtable held.
    pub memory: Map<Seq<u8>, Seq<u8>>,
    /// The tables that were open, the oldest data first.
    pub tables: Seq<TableEntry>,
}

impl SnapshotView {
    /// What a lookup of a key at the time `now` comes to.
    pub open spec fn read(self, key: Seq<u8>, now: u64) -> std::result::Result<
        Option<Seq<u8>>,
        Seq<char>,
    > {
        if self.memory.contains_key(key) {
            Ok(shown(self.memory[key], now))
        } else {
            match search(self.tables, key) {
                Err(msg) => Err(msg),
                Ok(Some(v)) => Ok(shown(v, now)),
                Ok(None) => Ok(None),
            }
        }
    }
}

impl EngineView {
    /// A snapshot of the engine in this state.
    pub open spec fn snapshot(self) -> SnapshotView {
        SnapshotView { memory: self.memtable@, tables: self.tables }
    }
}

/// The tables of an executable list.
pub open spec fn table_views(list: Seq<Table>) -> Seq<TableEntry> {
    Seq::new(list.len(), |i: int| list[i]@)
}

/// All tables count, each with its metadata and its contents.
pub proof fn tables_are_whole(list: Seq<Table>, i: int)
    ensures
        table_views(list).len() == list.len(),
        0 <= i < list.len() ==> table_views(list)[i] == (list[i].meta@, list[i].reader@),
{
}

/// A point-in-time snapshot of the database.
#[derive(Clone)]
pub struct Snapshot {
    memory: Vec<(Vec<u8>, Vec<u8>)>,
    tables: Vec<Table>,
}

impl View for Snapshot {
    type V = SnapshotView;

    closed spec fn view(&self) -> SnapshotView {
        SnapshotView {
            memory: map_of(pairs(self.memory@)),
            tables: table_views(self.tables@),
        }
    }
}

impl Snapshot {
    /// The entries are in key order and the tables can be asked.
    pub closed spec fn wf(&self) -> bool {
        &&& sorted(pairs(self.memory@))
        &&& forall|i: int| 0 <= i < self.tables@.len() ==> (#[trigger] self.tables@[i]).reader.wf()
    }

    /// Take a snapshot of a memtable and of open tables.
    pub fn take(memtable: &MemTable, list: &Vec<Table>) -> (r: Self)
        requires
            memtable.wf(),
            forall|i: int| 0 <= i < list@.len() ==> (#[trigger] list@[i]).reader.wf(),
        ensures
            r.wf(),
            r@ == (SnapshotView { memory: memtable@, tables: table_views(list@) }),
    {
        let memory = memtable.entries();
        let mut tables: Vec<Table> = Vec::new();
        let mut i: usize = 0;
        while i < list.len()
            invariant
                i <= list@.len(),
                forall|k: int| 0 <= k < list@.len() ==> (#[trigger] list@[k]).reader.wf(),
                tables@.len() == i,
                forall|k: int| 0 <= k < i ==> (#[trigger] tables@[k]).reader.wf(),
                forall|k: int| 0 <= k < i ==> (#[trigger] tables@[k])@ == list@[k]@,
            decreases list@.len() - i,
        {
            tables.push(list[i].shared());
            i = i + 1;
        }
        let r = Snapshot { memory, tables };
        assert(table_views(r.tables@) =~= table_views(list@));
        r
    }

    /// Look a key up at the time `now`.
    pub fn get(&self, key: &[u8], now: u64) -> (r: Result<Option<Vec<u8>>>)
        requires
            self.wf(),
        ensures
            gives(r, self@.read(key@, now)),
    {
        proof {
            found_in_sorted(pairs(self.memory@), key@);
        }
        if let Some(i) = bisect(&self.memory, key) {
            return Ok(unpack_value(self.memory[i].1.as_slice(), now));
        }
        let ghost tables = self@.tables;
        let mut i: usize = self.tables.len();
        assert(tables.take(i as int) =~= tables);
        while i > 0
            invariant
                i <= self.tables@.len(),
                tables == self@.tables,
                self.wf(),
                !self@.memory.contains_key(key@),
                search(tables, key@) == search(tables.take(i as int), key@),
            decreases i,
        {
            i = i - 1;
            let ghost upto = tables.take(i + 1);
            proof {
                assert(upto.drop_last() =~= tables.take(i as int));
                assert(upto.last() == tables[i as int]);
                assert(tables[i as int] == self.tables@[i as int]@);
            }
            match self.tables[i].reader.get(key) {
                Err(e) => {
                    return Err(e);
                },
                Ok(Some(v)) => {
                    return Ok(unpack_value(v.as_slice(), now));
                },
                Ok(None) => {},
            }
        }
        assert(tables.take(0) =~= Seq::empty());
        Ok(None)
    }
}

/// A snapshot reads every key, at any time, as a reader of the engine read it in
/// the state in which the snapshot was taken. A lookup at a snapshot depends on
/// nothing else, so this holds whatever is written, deleted, flushed or compacted
/// since.
pub proof fn snapshot_is_point_in_time(v: EngineView, key: Seq<u8>, now: u64)
    ensures
        v.snapshot().read(key, now) == v.read(key, now),
{
}

/// What a snapshot sees was written before it: its number is lower than that of
/// any write to come.
pub proof fn snapshot_sees_older(v: EngineView, key: Seq<u8>, now: u64)
    requires
        all_sound(v.tables),
        v.numbered(),
    ensures
        v.snapshot().read(key, now) matches Ok(Some(value)) ==> exists|stored_value: Seq<u8>|
            seq_of(stored_value) < v.next_seq && #[trigger] shown(stored_value, now) == Some(value),
{
    read_is_seen(v, key, now);
    if v.snapshot().read(key, now) is Ok && v.snapshot().read(key, now)->Ok_0 is Some {
        assert(seen(v.contents(), key, now) is Some);
        let w = v.contents()[key];
        assert(shown(w, now) == v.snapshot().read(key, now)->Ok_0);
    }
}

} // verus!
