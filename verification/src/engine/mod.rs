//! The storage engine.

pub mod catalog;
pub mod compact;
pub mod history;
pub mod layout;
pub mod metrics;
pub mod options;
pub mod repair;
pub mod replay;
pub mod scan;
pub mod snapshot;
pub mod state;
pub mod tables;
pub mod value;

pub use crate::engine::metrics::{Metrics, MetricsSnapshot};
pub use crate::engine::options::Options;
pub use crate::engine::repair::RepairReport;
pub use crate::engine::snapshot::Snapshot;

use std::sync::Arc;

use vstd::arithmetic::power::pow;
use vstd::prelude::*;

use crate::bytes::{copy_bytes, lex_lt};
use crate::cache::block_cache::{coherent, Cached};
use crate::engine::catalog::{
    add_table, drop_tables, file_views, flattened, next_id, open_tables, opened, remove_all,
};
use crate::engine::compact::{
    compacts_to, is_table_of, make_table, select_victims, spared, surviving, victims, NewTable,
};
use crate::engine::history::{
    flush_is_unseen, new_is_healthy, numbers_keep, step, step_keeps, Event,
};
use crate::engine::layout::{
    compaction_keeps_reads, compaction_keeps_tidy, flush_keeps_tidy, levels_after, place,
    place_keeps_short, seen, spared_keeps_short, tables_after,
};
use crate::engine::repair::{
    repaired_levels, sst_number, unusable_places, usable_numbers, FoundFile, Repair,
};
use crate::engine::replay::{
    batch_record, batch_recovered, delete_record, max_seq, op_records, op_writes, put_record,
    record_of_batch, recovered, replay_wal, writes_of,
};
use crate::engine::scan::{bounded_map, next_key, prefix_map, scan_bounds, visible};
use crate::engine::state::{
    batch_asks, batch_fits, batch_writes, due_by_count, logged_push, map_numbered, one_write,
    prefix_scan_is_exact, put_records, put_records_replayed, read_is_seen,
    scans_find_what_is_read, storable, stored_numbered, writes_are_read, written, EngineView,
};
use crate::engine::tables::{
    all_sound, searched, stored, tables_max_seq, Table, TableEntry, Tables,
};
use crate::engine::value::{
    encode_plain, encode_timed, encode_tombstone, encode_with_seq, plain, plain_shown, seq_of,
    shown, stamped, timed, tombstone, tombstone_shown, ttl_shown, unpack_value,
};
use crate::entries::{
    map_of, map_of_contains, map_of_sorted, overlay, pairs, range_map, sorted, Entry,
};
use crate::error::{
    internal, invalid_argument, is_corruption, is_internal, is_invalid_argument, Result,
};
use crate::manifest::{at_level, manifest_bytes, with_sst, Manifest, MetaView};
use crate::memtable::memtable::{MemTable, MAX_LEVEL};
use crate::memtable::skiplist::ListShape;
use crate::sstable::builder::file_opens;
use crate::sstable::format::{misfit, parse_table, table_fits};
use crate::sstable::reader::{gives, SSTableReader};
use crate::wal::record::{reports, OpType, Record, RecordView};
use crate::wal::writer::{log_bytes, WALWriter};
use crate::write_batch::WriteBatch;

verus! {

/// What a write counts as.
#[derive(Debug, Clone, Copy, PartialEq, Eq, Structural)]
pub enum WriteKind {
    Put,
    Delete,
    Batch,
}

/// A write that has its number and is to be logged before it is applied.
pub struct PendingWrite {
    log: Vec<u8>,
    sync: bool,
    writes: Vec<(Vec<u8>, Vec<u8>)>,
    kind: WriteKind,
    record: Ghost<RecordView>,
}

impl PendingWrite {
    /// The record that the bytes for the log hold.
    pub closed spec fn record(&self) -> RecordView {
        self.record@
    }

    /// What the write comes to.
    pub closed spec fn writes(&self) -> Seq<Entry> {
        pairs(self.writes@)
    }

    /// What the write counts as.
    pub closed spec fn kind(&self) -> WriteKind {
        self.kind
    }

    /// The bytes to append to the log.
    pub closed spec fn spec_log(&self) -> Seq<u8> {
        self.log@
    }

    /// Whether the log is to be made durable before the write is applied.
    pub closed spec fn spec_sync(&self) -> bool {
        self.sync
    }

    /// The write is numbered below `n`.
    pub open spec fn numbered_below(&self, n: u64) -> bool {
        forall|i: int| 0 <= i < self.writes().len() ==> seq_of((#[trigger] self.writes()[i]).1) < n
    }

    /// The bytes for the log stand for the write.
    pub open spec fn wf(&self) -> bool {
        &&& self.spec_log() == self.record().bytes()
        &&& self.record().fits()
        &&& writes_of(self.record()) == Ok::<Seq<Entry>, crate::wal::record::RecordError>(
            self.writes(),
        )
        &&& forall|i: int| 0 <= i < self.writes().len() ==> storable(#[trigger] self.writes()[i])
    }

    /// The bytes to append to the log.
    pub fn log(&self) -> (r: &[u8])
        ensures
            r@ == self.spec_log(),
    {
        self.log.as_slice()
    }

    /// Whether the log is to be made durable before the write is applied.
    pub fn sync(&self) -> (r: bool)
        ensures
            r == self.spec_sync(),
    {
        self.sync
    }
}

/// Tables that are to be merged into a new one.
pub struct Compaction {
    /// The level whose tables are merged into the next.
    pub level: usize,
    /// The table that takes their place, unless nothing is left of them.
    pub output: Option<NewTable>,
    /// The numbers of the merged tables.
    pub obsolete: Vec<u64>,
}

impl Compaction {
    /// The compaction was planned for the state `v` at the time `now`.
    pub open spec fn planned(&self, v: EngineView, now: u64) -> bool {
        &&& at_level(v.levels, self.level as int).len() > 0
        &&& self.obsolete@ == victims(v.levels, self.level as int)
        &&& exists|s: Seq<Entry>| #[trigger]
            compacts_to(v.tables, self.obsolete@, self.level + 1, now, s) && match self.output {
                Some(t) => is_table_of(
                    t,
                    s,
                    v.next_sst_id,
                    self.level + 1,
                    v.opts.block_size as int,
                    v.opts.bloom_filter_bits_per_key as nat,
                ),
                None => s.len() == 0,
            }
    }
}

/// The storage engine: memtable, tables, manifest and numbering.
///
/// The engine decides what is to be written and read; whoever drives it performs
/// the input and output. A write is begun (`put`, `delete`, `put_with_ttl`,
/// `write_batch`), logged, and applied. A flush or a compaction is begun, its
/// file is written, and it is finished.
pub struct Engine {
    wal: WALWriter,
    memtable: MemTable,
    manifest: Manifest,
    tables: Tables,
    /// All tables so far are numbered below this.
    installed_ids: u64,
    next_sst_id: u64,
    /// Monotonically increasing sequence number for MVCC.
    next_seq: u64,
    opts: Options,
    /// Metrics counters.
    pub metrics: Metrics,
    log: Ghost<Seq<RecordView>>,
}

impl View for Engine {
    type V = EngineView;

    closed spec fn view(&self) -> EngineView {
        EngineView {
            memtable: self.memtable,
            levels: self.manifest@,
            tables: self.tables@,
            installed_ids: self.installed_ids,
            next_sst_id: self.next_sst_id,
            next_seq: self.next_seq,
            log: self.log@,
            opts: self.opts,
        }
    }
}

/// The number of the first write after the numbers up to `highest`.
pub open spec fn seq_after(highest: u64) -> u64 {
    if highest == u64::MAX {
        u64::MAX
    } else {
        (highest + 1) as u64
    }
}

/// The higher of two numbers.
pub open spec fn higher(a: u64, b: u64) -> u64 {
    if a < b {
        b
    } else {
        a
    }
}

/// The metadata and contents of a table whose file was written.
pub open spec fn entry_of(t: NewTable) -> TableEntry {
    (t.meta@, parse_table(t.file@)->Ok_0)
}

impl Engine {
    /// The metrics counters.
    pub closed spec fn counters(&self) -> Metrics {
        self.metrics
    }

    /// The capacity of the block cache, if there is one.
    pub closed spec fn cache_capacity(&self) -> Option<int> {
        self.tables.cache_capacity()
    }

    /// The cached blocks, the most recently used in front, if there is a cache.
    pub closed spec fn cached(&self) -> Option<Seq<Cached>> {
        self.tables.cached()
    }

    /// The parts of the engine fit together.
    pub closed spec fn wf(&self) -> bool {
        &&& self.memtable.wf()
        &&& self.memtable.spec_max_size() == self.opts.memtable_size
        &&& self.tables.wf(self.installed_ids)
        &&& self.tables.cache_capacity() == self.opts.cache_capacity()
        &&& self.installed_ids <= self.next_sst_id
        &&& self.wal@ == Seq::<u8>::empty()
        &&& self@.logged()
    }

    /// What a well-formed engine keeps to.
    pub proof fn wf_keeps(&self)
        requires
            self.wf(),
        ensures
            self.cache_capacity() == self@.opts.cache_capacity(),
            self.cached() is Some <==> self.cache_capacity() is Some,
            self@.logged(),
            self@.memtable.wf(),
            self@.memtable.spec_max_size() == self@.opts.memtable_size,
            self@.installed_ids <= self@.next_sst_id,
            forall|i: int|
                0 <= i < self@.tables.len() ==> (#[trigger] self@.tables[i]).0.id
                    < self@.installed_ids,
    {
    }

    /// Open (or create) a database with default options.
    pub fn open(manifest: Manifest, files: Vec<(u64, Vec<u8>)>, log: Option<Vec<u8>>) -> (r: Result<
        Self,
    >)
        ensures
            opens(r, manifest@, file_views(files@), log_view(log)),
            r matches Ok(engine) ==> engine@.opts.memtable_size == 4 * 1024 * 1024
                && engine@.opts.block_size == 4096 && engine@.opts.l0_compaction_threshold == 4
                && engine@.opts.sync_wal && engine@.opts.max_levels == 7
                && engine@.opts.bloom_filter_bits_per_key == 10 && engine@.opts.block_cache_size
                == 8 * 1024 * 1024 && engine.cache_capacity() == Some(8 * 1024 * 1024int)
                && engine.cached() == Some(Seq::<Cached>::empty()),
            manifest@.len() == 0 && log_view(log).len() == 0 ==> r is Ok && r->Ok_0@.is_new()
                && r->Ok_0@.healthy(),
    {
        Self::open_with_options(manifest, files, log, Options::default())
    }

    /// Open (or create) a database with custom options, from its manifest, those
    /// of its table files that are there, and its log if there is one.
    pub fn open_with_options(
        manifest: Manifest,
        files: Vec<(u64, Vec<u8>)>,
        log: Option<Vec<u8>>,
        opts: Options,
    ) -> (r: Result<Self>)
        ensures
            opens(r, manifest@, file_views(files@), log_view(log)),
            r matches Ok(engine) ==> engine@.opts == opts,
            r matches Ok(engine) ==> engine.cache_capacity() == opts.cache_capacity(),
            r matches Ok(engine) ==> engine.cached() == if opts.block_cache_size > 0 {
                Some(Seq::<Cached>::empty())
            } else {
                None
            },
            manifest@.len() == 0 && log_view(log).len() == 0 ==> r is Ok && r->Ok_0@.is_new()
                && r->Ok_0@.healthy(),
    {
        proof {
            if manifest@.len() == 0 && log_view(log).len() == 0 {
                opens_new(manifest@, file_views(files@), log_view(log));
            }
        }
        let (tables, next_sst_id) = match open_tables(&manifest, &files, opts.block_cache_size) {
            Ok(x) => x,
            Err(e) => {
                return Err(e);
            },
        };
        let data = match log {
            Some(data) => data,
            None => Vec::new(),
        };
        let ghost bytes = data@;
        assert(bytes =~= log_view(log));
        let (memtable, logged_seq) = match replay_wal(data, opts.memtable_size) {
            Ok(x) => x,
            Err(e) => {
                return Err(e);
            },
        };
        let table_seq = tables.highest_seq();
        let highest = if logged_seq < table_seq {
            table_seq
        } else {
            logged_seq
        };
        let engine = Engine {
            wal: WALWriter::open(),
            memtable,
            manifest,
            tables,
            installed_ids: next_sst_id,
            next_sst_id,
            next_seq: highest.saturating_add(1),
            opts,
            metrics: Metrics::new(),
            log: Ghost(crate::wal::writer::read_log(bytes, 0).0),
        };
        proof {
            let v = engine@;
            if highest < u64::MAX {
                assert forall|k: Seq<u8>| #[trigger]
                    v.contents().contains_key(k) implies seq_of(v.contents()[k]) < v.next_seq by {
                    if v.memtable@.contains_key(k) {
                        map_numbered(recovered(bytes)->Ok_0, k);
                    } else {
                        stored_numbered(v.tables, k);
                    }
                }
            }
            if manifest@.len() == 0 && bytes.len() == 0 {
                new_is_healthy(v);
            }
        }
        Ok(engine)
    }

    /// Begin a write of one stored value, if its lengths fit and there is a number
    /// for it.
    fn begin_one(&mut self, record: Record, stored: Vec<u8>, kind: WriteKind) -> (r: Result<
        PendingWrite,
    >)
        requires
            old(self).wf(),
            record@.value == stored@,
            seq_of(stored@) == old(self)@.next_seq,
            writes_of(record@) == Ok::<Seq<Entry>, crate::wal::record::RecordError>(
                seq![(record@.key, stored@)],
            ),
        ensures
            final(self).wf(),
            begun(*old(self), *final(self), record@, r),
            r matches Ok(w) ==> {
                &&& w.writes() == seq![(record@.key, stored@)]
                &&& map_of(w.writes()) == Map::<Seq<u8>, Seq<u8>>::empty().insert(
                    record@.key,
                    stored@,
                )
                &&& w.kind() == kind
                &&& w.spec_sync() == old(self)@.opts.sync_wal
            },
    {
        if self.next_seq == u64::MAX {
            return Err(internal("sequence numbers exhausted"));
        }
        if !record.fits_log() {
            return Err(invalid_argument("record too large"));
        }
        self.next_seq = self.next_seq + 1;
        proof {
            numbers_keep(old(self)@, self@);
        }
        let _ = self.wal.append_record(&record);
        let log = self.wal.flush();
        let mut writes: Vec<(Vec<u8>, Vec<u8>)> = Vec::new();
        writes.push((copy_bytes(record.key.as_slice()), stored));
        assert(pairs(writes@) =~= seq![(record@.key, stored@)]);
        assert(log@ =~= record@.bytes());
        proof {
            one_write((record@.key, stored@));
            assert(map_of(seq![(record@.key, stored@)]) =~= Map::empty().insert(
                record@.key,
                stored@,
            ));
        }
        Ok(PendingWrite { log, sync: self.opts.sync_wal, writes, kind, record: Ghost(record@) })
    }

    /// Begin to write a key-value pair.
    ///
    /// A record that is too large for the log is refused.
    pub fn put(&mut self, key: &[u8], value: &[u8]) -> (r: Result<PendingWrite>)
        requires
            old(self).wf(),
        ensures
            final(self).wf(),
            ({
                let stored = stamped(plain(value@), old(self)@.next_seq);
                &&& begun(*old(self), *final(self), put_record(key@, stored), r)
                &&& r matches Ok(w) ==> {
                    &&& w.writes() == seq![(key@, stored)]
                    &&& map_of(w.writes()) == Map::<Seq<u8>, Seq<u8>>::empty().insert(key@, stored)
                    &&& w.kind() == WriteKind::Put
                    &&& w.spec_sync() == old(self)@.opts.sync_wal
                }
                &&& forall|now: u64| #[trigger] shown(stored, now) == Some(value@)
            }),
    {
        let inner = encode_plain(value);
        let stored = encode_with_seq(inner.as_slice(), self.next_seq);
        proof {
            assert forall|now: u64| #[trigger] shown(stored@, now) == Some(value@) by {
                plain_shown(value@, self.next_seq, now);
            }
            plain_shown(value@, self.next_seq, 0);
        }
        let record = Record {
            op: OpType::Put,
            key: copy_bytes(key),
            value: copy_bytes(stored.as_slice()),
        };
        self.begin_one(record, stored, WriteKind::Put)
    }

    /// Begin to delete a key by writing a tombstone.
    ///
    /// A record that is too large for the log is refused.
    pub fn delete(&mut self, key: &[u8]) -> (r: Result<PendingWrite>)
        requires
            old(self).wf(),
        ensures
            final(self).wf(),
            begun(*old(self), *final(self), delete_record(key@, old(self)@.next_seq), r),
            r matches Ok(w) ==> {
                &&& w.writes() == seq![(key@, stamped(tombstone(), old(self)@.next_seq))]
                &&& map_of(w.writes()) == Map::<Seq<u8>, Seq<u8>>::empty().insert(
                    key@,
                    stamped(tombstone(), old(self)@.next_seq),
                )
                &&& w.kind() == WriteKind::Delete
                &&& w.spec_sync() == old(self)@.opts.sync_wal
            },
            forall|now: u64| #[trigger]
                shown(stamped(tombstone(), old(self)@.next_seq), now) == None::<Seq<u8>>,
    {
        let inner = encode_tombstone();
        let stored = encode_with_seq(inner.as_slice(), self.next_seq);
        let record = Record {
            op: OpType::Delete,
            key: copy_bytes(key),
            value: copy_bytes(stored.as_slice()),
        };
        proof {
            tombstone_shown(self.next_seq, 0);
            assert forall|now: u64| #[trigger]
                shown(stamped(tombstone(), self.next_seq), now) == None::<Seq<u8>> by {
                tombstone_shown(self.next_seq, now);
            }
        }
        self.begin_one(record, stored, WriteKind::Delete)
    }

    /// Begin to write a key-value pair with a time-to-live, at the time `now`.
    ///
    /// The value is stored with the time at which it expires. From then on a
    /// lookup does not find it. A record that is too large for the log is refused.
    pub fn put_with_ttl(&mut self, key: &[u8], value: &[u8], ttl: u64, now: u64) -> (r: Result<
        PendingWrite,
    >)
        requires
            old(self).wf(),
            now + ttl <= u64::MAX,
        ensures
            final(self).wf(),
            ({
                let stored = stamped(timed(value@, (now + ttl) as u64), old(self)@.next_seq);
                &&& begun(*old(self), *final(self), put_record(key@, stored), r)
                &&& r matches Ok(w) ==> {
                    &&& w.writes() == seq![(key@, stored)]
                    &&& map_of(w.writes()) == Map::<Seq<u8>, Seq<u8>>::empty().insert(key@, stored)
                    &&& w.kind() == WriteKind::Put
                    &&& w.spec_sync() == old(self)@.opts.sync_wal
                }
                &&& forall|later: u64| #[trigger]
                    shown(stored, later) == if later < now + ttl {
                        Some(value@)
                    } else {
                        None
                    }
            }),
    {
        let expiry = now + ttl;
        let inner = encode_timed(value, expiry);
        let stored = encode_with_seq(inner.as_slice(), self.next_seq);
        proof {
            assert forall|later: u64| #[trigger]
                shown(stored@, later) == if later < expiry {
                    Some(value@)
                } else {
                    None
                } by {
                ttl_shown(value@, expiry, self.next_seq, later);
            }
            ttl_shown(value@, expiry, self.next_seq, 0);
        }
        let record = Record {
            op: OpType::Put,
            key: copy_bytes(key),
            value: copy_bytes(stored.as_slice()),
        };
        self.begin_one(record, stored, WriteKind::Put)
    }

    /// Begin to execute a batch of operations atomically.
    ///
    /// All operations of the batch are written to a single WAL record, then
    /// applied together. An empty batch is nothing to write. A batch whose record
    /// is too large for the log is refused.
    pub fn write_batch(&mut self, batch: &WriteBatch) -> (r: Result<Option<PendingWrite>>)
        requires
            old(self).wf(),
        ensures
            final(self).wf(),
            final(self).cached() == old(self).cached(),
            final(self).counters() == old(self).counters(),
            step(old(self)@, Event::Number, final(self)@),
            old(self)@.healthy() ==> final(self)@.healthy(),
            match r {
                Ok(None) => batch@.len() == 0 && final(self)@ == old(self)@,
                Ok(Some(w)) => {
                    let seq = old(self)@.next_seq;
                    &&& batch@.len() > 0
                    &&& seq + batch@.len() <= u64::MAX
                    &&& batch_record(batch@, seq as int).fits()
                    &&& final(self)@ == (EngineView {
                        next_seq: (seq + batch@.len()) as u64,
                        ..old(self)@
                    })
                    &&& w.wf()
                    &&& w.record() == batch_record(batch@, seq as int)
                    &&& w.writes() == op_writes(batch@, seq as int)
                    &&& w.numbered_below(final(self)@.next_seq)
                    &&& forall|k: Seq<u8>| #[trigger]
                        map_of(w.writes()).contains_key(k) <==> batch_asks(batch@, k) is Some
                    &&& forall|k: Seq<u8>, now: u64|
                        map_of(w.writes()).contains_key(k) ==> #[trigger] shown(
                            map_of(w.writes())[k],
                            now,
                        ) == batch_asks(batch@, k)->Some_0
                    &&& w.kind() == WriteKind::Batch
                    &&& w.spec_sync()
                },
                Err(e) => {
                    &&& final(self)@ == old(self)@
                    &&& if old(self)@.next_seq + batch@.len() > u64::MAX {
                        is_internal(e, "sequence numbers exhausted"@)
                    } else {
                        &&& !batch_record(batch@, old(self)@.next_seq as int).fits()
                        &&& is_invalid_argument(e, "record too large"@)
                    }
                },
            },
    {
        if batch.is_empty() {
            return Ok(None);
        }
        let count = batch.len() as u64;
        if count > u64::MAX - self.next_seq {
            return Err(internal("sequence numbers exhausted"));
        }
        let seq = self.next_seq;
        let (record, writes) = record_of_batch(batch.ops(), seq);
        if !record.fits_log() {
            return Err(invalid_argument("record too large"));
        }
        self.next_seq = seq + count;
        proof {
            numbers_keep(old(self)@, self@);
        }
        let _ = self.wal.append_record(&record);
        let log = self.wal.flush();
        proof {
            assert(log@ =~= record@.bytes());
            batch_fits(batch@, seq as int);
            batch_recovered(batch@, seq as int);
            let w = op_writes(batch@, seq as int);
            assert forall|i: int| 0 <= i < w.len() implies storable(#[trigger] w[i]) by {
                assert(op_records(batch@, seq as int)[i].fits());
            }
            assert forall|i: int| 0 <= i < w.len() implies seq_of((#[trigger] w[i]).1) < seq
                + batch@.len() by {
                match batch@[i].1 {
                    Some(value) => {
                        plain_shown(value, (seq + i) as u64, 0);
                    },
                    None => {
                        tombstone_shown((seq + i) as u64, 0);
                    },
                }
            }
            assert forall|k: Seq<u8>, now: u64|
                map_of(w).contains_key(k) implies #[trigger] shown(map_of(w)[k], now)
                == batch_asks(batch@, k)->Some_0 by {
                batch_writes(batch@, seq as int, k, now);
            }
            assert forall|k: Seq<u8>| #[trigger] map_of(w).contains_key(k) <==> batch_asks(
                batch@,
                k,
            ) is Some by {
                batch_writes(batch@, seq as int, k, 0);
            }
        }
        Ok(
            Some(
                PendingWrite {
                    log,
                    sync: true,
                    writes,
                    kind: WriteKind::Batch,
                    record: Ghost(record@),
                },
            ),
        )
    }

    /// Apply a write that was logged.
    ///
    /// If the active memtable then exceeds its size it is frozen, so that a flush
    /// has something to do.
    pub fn apply(&mut self, w: PendingWrite)
        requires
            old(self).wf(),
            w.wf(),
        ensures
            final(self).wf(),
            final(self).cached() == old(self).cached(),
            final(self)@ == (EngineView {
                memtable: final(self)@.memtable,
                log: old(self)@.log.push(w.record()),
                ..old(self)@
            }),
            written(old(self)@, w.writes(), final(self)@),
            final(self)@.contents() == overlay(old(self)@.contents(), map_of(w.writes())),
            ({
                let before = old(self)@.memtable;
                let after = final(self)@.memtable;
                let active = before.spec_active().shape().insert_all(w.writes());
                if before.spec_immutable() is None && active.size > old(self)@.opts.memtable_size
                    && active.entries != Map::<Seq<u8>, Seq<u8>>::empty() {
                    &&& after.spec_immutable() is Some
                    &&& after.spec_immutable()->Some_0.shape() == active
                    &&& after.spec_active().shape() == ListShape::fresh(MAX_LEVEL)
                } else {
                    &&& after.spec_immutable() == before.spec_immutable()
                    &&& after.spec_active().shape() == active
                }
            }),
            forall|k: Seq<u8>, now: u64| #[trigger]
                final(self)@.read(k, now) == if map_of(w.writes()).contains_key(k) {
                    Ok(shown(map_of(w.writes())[k], now))
                } else {
                    old(self)@.read(k, now)
                },
            w.numbered_below(old(self)@.next_seq) ==> step(
                old(self)@,
                Event::Write { record: w.record(), writes: w.writes() },
                final(self)@,
            ),
            w.numbered_below(old(self)@.next_seq) && old(self)@.healthy()
                ==> final(self)@.healthy(),
            final(self).counters() == (match w.kind() {
                WriteKind::Put => Metrics {
                    writes: old(self).counters().writes.wrapping_add(1),
                    ..old(self).counters()
                },
                WriteKind::Delete => Metrics {
                    deletes: old(self).counters().deletes.wrapping_add(1),
                    ..old(self).counters()
                },
                WriteKind::Batch => old(self).counters(),
            }),
    {
        let ghost before = self@;
        let ghost writes = w.writes();
        let ghost mem = self.memtable@;
        let ghost act = self.memtable.spec_active().shape();
        let mut i: usize = 0;
        proof {
            assert(writes.take(0) =~= Seq::empty());
            assert(overlay(mem, map_of(writes.take(0))) =~= mem);
        }
        while i < w.writes.len()
            invariant
                i <= w.writes@.len(),
                writes == pairs(w.writes@),
                before == old(self)@,
                *self == (Engine { memtable: self.memtable, ..*old(self) }),
                self.memtable.wf(),
                self.memtable.spec_max_size() == self.opts.memtable_size,
                self.memtable.spec_immutable() == before.memtable.spec_immutable(),
                self.memtable@ == overlay(mem, map_of(writes.take(i as int))),
                self.memtable.spec_active().shape() == act.insert_all(writes.take(i as int)),
            decreases w.writes@.len() - i,
        {
            self.memtable.put_no_freeze(w.writes[i].0.as_slice(), w.writes[i].1.as_slice());
            proof {
                let upto = writes.take(i + 1);
                assert(upto.drop_last() =~= writes.take(i as int));
                assert(upto.last() == writes[i as int]);
                assert(self.memtable@ =~= overlay(mem, map_of(upto)));
            }
            i = i + 1;
        }
        assert(writes.take(i as int) =~= writes);
        proof {
            let list = self.memtable.spec_active();
            list.entries_sorted();
            if list.entries().len() > 0 {
                map_of_contains(list.entries(), list.entries()[0].0);
                assert(list@.contains_key(list.entries()[0].0));
            } else {
                assert(list@ =~= Map::<Seq<u8>, Seq<u8>>::empty());
            }
        }
        self.memtable.freeze_if_full();
        match w.kind {
            WriteKind::Put => {
                self.metrics.writes = self.metrics.writes.wrapping_add(1);
            },
            WriteKind::Delete => {
                self.metrics.deletes = self.metrics.deletes.wrapping_add(1);
            },
            WriteKind::Batch => {},
        }
        self.log = Ghost(self.log@.push(w.record()));
        proof {
            let v = self@;
            logged_push(before.log, mem, w.record(), writes);
            assert(v.contents() =~= overlay(before.contents(), map_of(writes)));
            assert forall|k: Seq<u8>, now: u64| #[trigger]
                v.read(k, now) == if map_of(writes).contains_key(k) {
                    Ok(shown(map_of(writes)[k], now))
                } else {
                    before.read(k, now)
                } by {
                writes_are_read(before, writes, v, k, now);
            }
            if w.numbered_below(before.next_seq) && before.healthy() {
                step_keeps(
                    before,
                    Event::Write { record: w.record(), writes },
                    v,
                    Seq::empty(),
                    0,
                );
            }
        }
    }

    /// Create a point-in-time snapshot.
    pub fn snapshot(&self) -> (r: Snapshot)
        requires
            self.wf(),
        ensures
            r.wf(),
            r@ == self@.snapshot(),
    {
        Snapshot::take(&self.memtable, &self.tables.list)
    }

    /// Look up a key at a snapshot, at the time `now`.
    ///
    /// Only returns values that were written before the snapshot: it holds what it
    /// sees, so nothing that happened to the engine since shows.
    pub fn get_at(&self, key: &[u8], snap: &Snapshot, now: u64) -> (r: Result<Option<Vec<u8>>>)
        requires
            snap.wf(),
        ensures
            gives(r, snap@.read(key@, now)),
    {
        snap.get(key, now)
    }

    /// Look up a key at the time `now`.
    ///
    /// Search: MemTable (active, then immutable), then tables (level 0 from the
    /// newest to the oldest, then the deeper levels). A deleted or expired key is
    /// not found.
    pub fn get(&mut self, key: &[u8], now: u64) -> (r: Result<Option<Vec<u8>>>)
        requires
            old(self).wf(),
        ensures
            final(self).wf(),
            final(self)@ == old(self)@,
            final(self).counters() == (Metrics {
                reads: old(self).counters().reads.wrapping_add(1),
                ..old(self).counters()
            }),
            gives(r, old(self)@.read(key@, now)),
            final(self).cached() == match old(self).cached() {
                Some(s) if !old(self)@.memtable@.contains_key(key@) => Some(
                    searched(s, old(self)@.tables, key@, old(self).cache_capacity()->Some_0),
                ),
                other => other,
            },
    {
        self.metrics.reads = self.metrics.reads.wrapping_add(1);
        if let Some(v) = self.memtable.get(key) {
            return Ok(unpack_value(v.as_slice(), now));
        }
        let found = self.tables.get(key, Ghost(self.installed_ids));
        assert(self@.tables =~= old(self)@.tables);
        match found {
            Err(e) => Err(e),
            Ok(Some(v)) => Ok(unpack_value(v.as_slice(), now)),
            Ok(None) => Ok(None),
        }
    }

    /// The key-value pairs in the range `[start, end)` at the time `now`, in key
    /// order. Deleted and expired keys are left out.
    pub fn scan(&self, start: &[u8], end: &[u8], now: u64) -> (r: Result<Vec<(Vec<u8>, Vec<u8>)>>)
        requires
            self.wf(),
        ensures
            r is Ok,
            sorted(pairs(r->Ok_0@)),
            map_of(pairs(r->Ok_0@)) == range_map(visible(self@.contents(), now), start@, end@),
            all_sound(self@.tables) ==> forall|k: Seq<u8>| #[trigger]
                map_of(pairs(r->Ok_0@)).contains_key(k) <==> (start@ == k || lex_lt(start@, k))
                    && lex_lt(k, end@) && self@.read(k, now) is Ok && self@.read(k, now)->Ok_0 is Some,
            all_sound(self@.tables) ==> forall|i: int|
                0 <= i < r->Ok_0@.len() ==> self@.read(#[trigger] pairs(r->Ok_0@)[i].0, now)
                    == Ok::<Option<Seq<u8>>, Seq<char>>(Some(pairs(r->Ok_0@)[i].1)),
    {
        let found = scan_bounds(&self.tables, &self.memtable, start, Some(end), now);
        proof {
            let m = visible(self@.contents(), now);
            assert(bounded_map(m, start@, Some(end@)) =~= range_map(m, start@, end@));
            if all_sound(self@.tables) {
                let s = pairs(found@);
                assert forall|k: Seq<u8>| #[trigger] map_of(s).contains_key(k) <==> (start@ == k
                    || lex_lt(start@, k)) && lex_lt(k, end@) && self@.read(k, now) is Ok
                    && self@.read(k, now)->Ok_0 is Some by {
                    scans_find_what_is_read(self@, start@, end@, Seq::empty(), k, now);
                }
                assert forall|i: int| 0 <= i < s.len() implies self@.read(#[trigger] s[i].0, now)
                    == Ok::<Option<Seq<u8>>, Seq<char>>(Some(s[i].1)) by {
                    map_of_sorted(s, i);
                    scans_find_what_is_read(self@, start@, end@, Seq::empty(), s[i].0, now);
                }
            }
        }
        Ok(found)
    }

    /// The key-value pairs whose keys start with a prefix at the time `now`, in
    /// key order. Deleted and expired keys are left out.
    pub fn prefix_scan(&self, prefix: &[u8], now: u64) -> (r: Result<Vec<(Vec<u8>, Vec<u8>)>>)
        requires
            self.wf(),
        ensures
            r is Ok,
            sorted(pairs(r->Ok_0@)),
            map_of(pairs(r->Ok_0@)) == prefix_map(visible(self@.contents(), now), prefix@),
            all_sound(self@.tables) ==> forall|k: Seq<u8>| #[trigger]
                map_of(pairs(r->Ok_0@)).contains_key(k) <==> prefix@.is_prefix_of(k) && self@.read(
                    k,
                    now,
                ) is Ok && self@.read(k, now)->Ok_0 is Some,
            all_sound(self@.tables) ==> forall|i: int|
                0 <= i < r->Ok_0@.len() ==> self@.read(#[trigger] pairs(r->Ok_0@)[i].0, now)
                    == Ok::<Option<Seq<u8>>, Seq<char>>(Some(pairs(r->Ok_0@)[i].1)),
    {
        proof {
            prefix_scan_is_exact(visible(self@.contents(), now), prefix@);
        }
        let found = match next_key(prefix) {
            Some(end) => scan_bounds(
                &self.tables,
                &self.memtable,
                prefix,
                Some(end.as_slice()),
                now,
            ),
            None => scan_bounds(&self.tables, &self.memtable, prefix, None, now),
        };
        proof {
            if all_sound(self@.tables) {
                let s = pairs(found@);
                assert forall|k: Seq<u8>| #[trigger]
                    map_of(s).contains_key(k) <==> prefix@.is_prefix_of(k) && self@.read(
                        k,
                        now,
                    ) is Ok && self@.read(k, now)->Ok_0 is Some by {
                    scans_find_what_is_read(self@, Seq::empty(), Seq::empty(), prefix@, k, now);
                }
                assert forall|i: int| 0 <= i < s.len() implies self@.read(#[trigger] s[i].0, now)
                    == Ok::<Option<Seq<u8>>, Seq<char>>(Some(s[i].1)) by {
                    map_of_sorted(s, i);
                    scans_find_what_is_read(
                        self@,
                        Seq::empty(),
                        Seq::empty(),
                        prefix@,
                        s[i].0,
                        now,
                    );
                }
            }
        }
        Ok(found)
    }

    /// Freeze the active memtable, so that a flush writes it out. Returns whether
    /// there was anything to freeze and room for it.
    pub fn freeze(&mut self) -> (r: bool)
        requires
            old(self).wf(),
        ensures
            final(self).wf(),
            final(self).cached() == old(self).cached(),
            final(self)@ == (EngineView { memtable: final(self)@.memtable, ..old(self)@ }),
            final(self)@.contents() == old(self)@.contents(),
            step(old(self)@, Event::Freeze, final(self)@),
            old(self)@.healthy() ==> final(self)@.healthy(),
            final(self).counters() == old(self).counters(),
            r == (old(self)@.memtable.spec_immutable() is None && old(
                self,
            )@.memtable.spec_active().entries().len() > 0),
            if r {
                &&& final(self)@.memtable.spec_immutable() == Some(
                    old(self)@.memtable.spec_active(),
                )
                &&& final(self)@.memtable.spec_active().shape() == ListShape::fresh(MAX_LEVEL)
            } else {
                final(self)@.memtable == old(self)@.memtable
            },
    {
        let r = self.memtable.freeze();
        proof {
            if old(self)@.healthy() {
                step_keeps(old(self)@, Event::Freeze, self@, Seq::empty(), 0);
            }
        }
        r
    }

    /// Begin to flush the immutable memtable to a table of level 0, if there is
    /// one. It stays as it is if no table can hold it.
    pub fn begin_flush(&mut self) -> (r: Result<Option<NewTable>>)
        requires
            old(self).wf(),
        ensures
            final(self).wf(),
            final(self).cached() == old(self).cached(),
            final(self).counters() == old(self).counters(),
            step(old(self)@, Event::Number, final(self)@),
            old(self)@.healthy() ==> final(self)@.healthy(),
            r matches Ok(Some(t)) ==> flushes(final(self)@, t),
            match (r, old(self)@.memtable.spec_immutable()) {
                (Ok(None), None) => final(self)@ == old(self)@,
                (Ok(Some(t)), Some(list)) => {
                    &&& old(self)@.next_sst_id < u64::MAX
                    &&& final(self)@ == (EngineView {
                        next_sst_id: (old(self)@.next_sst_id + 1) as u64,
                        ..old(self)@
                    })
                    &&& is_table_of(
                        t,
                        list.entries(),
                        old(self)@.next_sst_id,
                        0,
                        old(self)@.opts.block_size as int,
                        old(self)@.opts.bloom_filter_bits_per_key as nat,
                    )
                },
                (Err(e), Some(list)) => if old(self)@.next_sst_id == u64::MAX {
                    &&& final(self)@ == old(self)@
                    &&& is_internal(e, "SSTable numbers exhausted"@)
                } else {
                    &&& final(self)@ == (EngineView {
                        next_sst_id: (old(self)@.next_sst_id + 1) as u64,
                        ..old(self)@
                    })
                    &&& !table_fits(
                        list.entries(),
                        old(self)@.opts.block_size as int,
                        old(self)@.opts.bloom_filter_bits_per_key as nat,
                    )
                    &&& is_invalid_argument(e, misfit(list.entries()))
                },
                _ => false,
            },
    {
        let entries = match self.memtable.peek_immutable() {
            None => {
                return Ok(None);
            },
            Some(list) => list.iter().collect(),
        };
        if self.next_sst_id == u64::MAX {
            return Err(internal("SSTable numbers exhausted"));
        }
        let id = self.next_sst_id;
        self.next_sst_id = id + 1;
        proof {
            numbers_keep(old(self)@, self@);
        }
        match make_table(
            &entries,
            id,
            0,
            self.opts.block_size,
            self.opts.bloom_filter_bits_per_key,
        ) {
            Err(e) => Err(e),
            Ok(t) => Ok(Some(t)),
        }
    }

    /// Finish a flush whose file was written: the table takes the place of the
    /// immutable memtable. Returns what the log is to hold from then on.
    ///
    /// The manifest is to be saved before the log is replaced.
    pub fn finish_flush(&mut self, t: NewTable) -> (r: Result<Vec<u8>>)
        requires
            old(self).wf(),
        ensures
            final(self).wf(),
            final(self).cached() == old(self).cached(),
            match r {
                Ok(log) => {
                    let after = final(self)@;
                    &&& admits(old(self)@, t)
                    &&& t.meta.level == 0
                    &&& parse_table(t.file@) is Ok
                    &&& after == (EngineView {
                        memtable: after.memtable,
                        levels: with_sst(old(self)@.levels, 0, t.meta@),
                        tables: place(old(self)@.tables, entry_of(t)),
                        installed_ids: (t.meta.id + 1) as u64,
                        log: put_records(old(self)@.memtable.spec_active().entries()),
                        ..old(self)@
                    })
                    &&& after.memtable.spec_immutable() is None
                    &&& after.memtable.spec_active() == old(self)@.memtable.spec_active()
                    &&& log@ == log_bytes(after.log)
                    &&& final(self).counters() == (Metrics {
                        flushes: old(self).counters().flushes.wrapping_add(1),
                        ..old(self).counters()
                    })
                },
                Err(e) => {
                    &&& final(self)@ == old(self)@
                    &&& final(self).counters() == old(self).counters()
                    &&& if admits(old(self)@, t) && t.meta.level == 0 {
                        parse_table(t.file@) is Err && is_corruption(
                            e,
                            parse_table(t.file@)->Err_0,
                        )
                    } else {
                        is_invalid_argument(e, "table out of order"@)
                    }
                },
            },
            flush_keeps(*old(self), *final(self), t, r is Ok),
            r is Ok && flushes(old(self)@, t) ==> step(
                old(self)@,
                Event::Flush { table: t },
                final(self)@,
            ),
    {
        let ghost before = self@;
        proof {
            flush_law(before, t);
        }
        if !self.admits_table(&t) || t.meta.level != 0 {
            return Err(invalid_argument("table out of order"));
        }
        let meta = t.meta.copy();
        let reader = match SSTableReader::open(t.file) {
            Ok(reader) => reader,
            Err(e) => {
                return Err(e);
            },
        };
        let id = t.meta.id;
        self.install(t.meta, reader);
        self.manifest.add_sst(0, meta);
        let _ = self.memtable.take_immutable();
        let entries = self.memtable.active_entries();
        let mut log = WALWriter::open();
        let mut i: usize = 0;
        let ghost s = pairs(entries@);
        let ghost records = put_records(s);
        assert(records.take(0) =~= Seq::empty());
        while i < entries.len()
            invariant
                i <= entries@.len(),
                s == pairs(entries@),
                records == put_records(s),
                log@ == log_bytes(records.take(i as int)),
            decreases entries@.len() - i,
        {
            let _ = log.append(entries[i].0.as_slice(), entries[i].1.as_slice());
            assert(records.take(i + 1).drop_last() =~= records.take(i as int));
            assert(records.take(i + 1).last() == records[i as int]);
            i = i + 1;
        }
        assert(records.take(i as int) =~= records);
        self.metrics.flushes = self.metrics.flushes.wrapping_add(1);
        self.log = Ghost(records);
        proof {
            put_records_replayed(s);
            if flushes(before, t) {
                assert(step(before, Event::Flush { table: t }, self@));
                if before.tidy() {
                    flush_is_unseen(before, t, self@);
                }
            }
        }
        Ok(log.flush())
    }

    /// Whether a new table has a number that was taken and not yet used.
    fn admits_table(&self, t: &NewTable) -> (r: bool)
        requires
            self.wf(),
        ensures
            r == admits(self@, *t),
    {
        self.installed_ids <= t.meta.id && t.meta.id < self.next_sst_id
    }

    /// Add an open table.
    fn install(&mut self, meta: crate::manifest::SSTMeta, reader: SSTableReader)
        requires
            old(self).wf(),
            reader.wf(),
            old(self).installed_ids <= meta.id < old(self).next_sst_id,
        ensures
            final(self).wf(),
            final(self).cached() == old(self).cached(),
            final(self)@ == (EngineView {
                tables: place(old(self)@.tables, (meta@, reader@)),
                installed_ids: (meta.id + 1) as u64,
                ..old(self)@
            }),
            final(self).counters() == old(self).counters(),
    {
        let ghost bound = self.installed_ids;
        let id = meta.id;
        let table = Table { meta, reader: Arc::new(reader) };
        proof {
            if self.tables.cache is Some {
                let cached = self.tables.cache->Some_0@;
                assert(coherent(cached, id, reader@)) by {
                    assert forall|i: int| 0 <= i < cached.len() && (
                    #[trigger] cached[i]).0.sst_id == id implies false by {
                        assert(cached[i].0.sst_id < bound);
                    }
                }
            }
            assert forall|i: int| 0 <= i < self.tables@.len() && (
            #[trigger] self.tables@[i]).0.id == id implies self.tables@[i].1 == reader@ by {
                assert(self.tables@[i].0.id < bound);
            }
        }
        add_table(&mut self.tables, table, Ghost(bound), Ghost((id + 1) as u64));
        self.installed_ids = id + 1;
    }

    /// The first level from `from` on that holds as many tables as it may, or
    /// more, and so is to be compacted.
    pub fn compaction_due(&self, from: usize) -> (r: Option<usize>)
        ensures
            match r {
                Some(l) => {
                    &&& from <= l
                    &&& self@.due(l as int)
                    &&& forall|k: int| from <= k < l ==> !#[trigger] self@.due(k)
                },
                None => forall|k: int| from <= k ==> !#[trigger] self@.due(k),
            },
            forall|k: int|
                from <= k < self@.levels.len() && (#[trigger] self@.levels[k]).len() > 0 && k + 1
                    < self@.opts.max_levels && self@.levels[k].len()
                    >= self@.opts.l0_compaction_threshold * pow(10, k as nat) ==> r is Some
                    && r->Some_0 <= k,
            r matches Some(l) ==> l < self@.levels.len() && self@.levels[l as int].len() > 0 && l + 1
                < self@.opts.max_levels && self@.levels[l as int].len()
                >= self@.opts.l0_compaction_threshold * pow(10, l as nat),
    {
        let mut l: usize = from;
        while l < self.opts.max_levels && self.opts.max_levels - l > 1
            invariant
                from <= l,
                forall|k: int| from <= k < l ==> !#[trigger] self@.due(k),
            decreases self.opts.max_levels - l,
        {
            let count = self.manifest.ssts_at_level(l).len();
            let full = match self.opts.level_capacity(l) {
                Some(n) => count >= n,
                None => false,
            };
            if count > 0 && full {
                proof {
                    self.due_levels(from as int);
                    due_by_count(self@, l as int);
                }
                return Some(l);
            }
            l = l + 1;
        }
        proof {
            self.due_levels(from as int);
        }
        None
    }

    /// Which levels are due, by the numbers of their tables.
    proof fn due_levels(&self, from: int)
        requires
            0 <= from,
        ensures
            forall|k: int|
                from <= k < self@.levels.len() && (#[trigger] self@.levels[k]).len() > 0 && k + 1
                    < self@.opts.max_levels && self@.levels[k].len()
                    >= self@.opts.l0_compaction_threshold * pow(10, k as nat) ==> self@.due(k),
    {
        assert forall|k: int|
            from <= k < self@.levels.len() && (#[trigger] self@.levels[k]).len() > 0 && k + 1
                < self@.opts.max_levels && self@.levels[k].len()
                >= self@.opts.l0_compaction_threshold * pow(10, k as nat) implies self@.due(k) by {
            due_by_count(self@, k);
        }
    }

    /// Begin to compact a level into the next, at the time `now`. Nothing is
    /// begun where the level holds no tables.
    pub fn begin_compaction(&mut self, level: usize, now: u64) -> (r: Result<Option<Compaction>>)
        requires
            old(self).wf(),
            level < usize::MAX,
        ensures
            final(self).wf(),
            final(self).cached() == old(self).cached(),
            final(self).counters() == old(self).counters(),
            step(old(self)@, Event::Number, final(self)@),
            old(self)@.healthy() ==> final(self)@.healthy(),
            r matches Ok(Some(c)) ==> (level + 1 < usize::MAX ==> compacts(final(self)@, c, now)),
            match r {
                Ok(None) => {
                    &&& at_level(old(self)@.levels, level as int).len() == 0
                    &&& final(self)@ == old(self)@
                },
                Ok(Some(c)) => {
                    &&& c.level == level
                    &&& c.planned(old(self)@, now)
                    &&& final(self)@ == (EngineView {
                        next_sst_id: final(self)@.next_sst_id,
                        ..old(self)@
                    })
                    &&& final(self)@.next_sst_id == old(self)@.next_sst_id + (if c.output is Some {
                        1int
                    } else {
                        0
                    })
                    &&& c.output matches Some(t) ==> t.meta.id == old(self)@.next_sst_id
                        && t.meta.level == level + 1
                },
                Err(e) => {
                    &&& at_level(old(self)@.levels, level as int).len() > 0
                    &&& exists|s: Seq<Entry>| #[trigger]
                        compacts_to(
                            old(self)@.tables,
                            victims(old(self)@.levels, level as int),
                            level + 1,
                            now,
                            s,
                        ) && s.len() > 0 && if old(self)@.next_sst_id == u64::MAX {
                            &&& final(self)@ == old(self)@
                            &&& is_internal(e, "SSTable numbers exhausted"@)
                        } else {
                            &&& !table_fits(
                                s,
                                old(self)@.opts.block_size as int,
                                old(self)@.opts.bloom_filter_bits_per_key as nat,
                            )
                            &&& final(self)@ == (EngineView {
                                next_sst_id: (old(self)@.next_sst_id + 1) as u64,
                                ..old(self)@
                            })
                            &&& is_invalid_argument(e, misfit(s))
                        }
                },
            },
    {
        if self.manifest.ssts_at_level(level).len() == 0 {
            return Ok(None);
        }
        let ghost before = self@;
        let obsolete = select_victims(&self.manifest, level);
        let entries = surviving(
            &self.tables,
            &obsolete,
            level + 1,
            now,
            Ghost(self.installed_ids),
        );
        let ghost s = pairs(entries@);
        assert(compacts_to(before.tables, obsolete@, level + 1, now, s));
        let output = if entries.len() == 0 {
            None
        } else {
            if self.next_sst_id == u64::MAX {
                return Err(internal("SSTable numbers exhausted"));
            }
            let id = self.next_sst_id;
            self.next_sst_id = id + 1;
            proof {
                numbers_keep(old(self)@, self@);
            }
            match make_table(
                &entries,
                id,
                level + 1,
                self.opts.block_size,
                self.opts.bloom_filter_bits_per_key,
            ) {
                Ok(t) => Some(t),
                Err(e) => {
                    return Err(e);
                },
            }
        };
        let c = Compaction { level, output, obsolete };
        proof {
            assert(compacts_to(before.tables, c.obsolete@, level + 1, now, s));
            assert(self@.tables == before.tables);
            assert(compacts_to(self@.tables, c.obsolete@, c.level + 1, now, s));
            if c.output is Some {
                let t = c.output->Some_0;
                assert(t.meta@.id == t.meta.id);
                assert(admits(self@, t));
                assert(is_table_of(
                    t,
                    s,
                    t.meta.id,
                    c.level + 1,
                    self@.opts.block_size as int,
                    self@.opts.bloom_filter_bits_per_key as nat,
                ));
            }
        }
        Ok(Some(c))
    }

    /// Finish a compaction whose file was written: the new table takes the place
    /// of the merged ones.
    ///
    /// The manifest is to be saved; the files of the merged tables may go.
    pub fn finish_compaction(&mut self, c: Compaction) -> (r: Result<()>)
        requires
            old(self).wf(),
        ensures
            final(self).wf(),
            final(self).cached() == old(self).cached(),
            match r {
                Ok(()) => {
                    let output = match c.output {
                        Some(t) => Some(entry_of(t)),
                        None => None,
                    };
                    let after = final(self)@;
                    &&& c.output matches Some(t) ==> admits(old(self)@, t) && t.meta.level
                        < usize::MAX && parse_table(t.file@) is Ok
                    &&& after == (EngineView {
                        levels: levels_after(old(self)@.levels, c.obsolete@, output),
                        tables: tables_after(old(self)@.tables, c.obsolete@, output),
                        installed_ids: after.installed_ids,
                        ..old(self)@
                    })
                    &&& after.installed_ids == match c.output {
                        Some(t) => (t.meta.id + 1) as u64,
                        None => old(self)@.installed_ids,
                    }
                    &&& final(self).counters() == (Metrics {
                        compactions: old(self).counters().compactions.wrapping_add(1),
                        ..old(self).counters()
                    })
                },
                Err(e) => {
                    &&& final(self)@ == old(self)@
                    &&& final(self).counters() == old(self).counters()
                    &&& c.output is Some
                    &&& if admits(old(self)@, c.output->Some_0) && c.output->Some_0.meta.level
                        < usize::MAX {
                        parse_table(c.output->Some_0.file@) is Err && is_corruption(
                            e,
                            parse_table(c.output->Some_0.file@)->Err_0,
                        )
                    } else {
                        is_invalid_argument(e, "table out of order"@)
                    }
                },
            },
            compaction_keeps(old(self)@, final(self)@, c, r is Ok),
            forall|now: u64|
                r is Ok && #[trigger] compacts(old(self)@, c, now) ==> step(
                    old(self)@,
                    Event::Compact { compaction: c, now },
                    final(self)@,
                ),
    {
        let ghost before = self@;
        proof {
            compaction_law(before, c);
        }
        match c.output {
            None => {
                remove_all(&mut self.manifest, &c.obsolete);
                drop_tables(&mut self.tables, &c.obsolete, Ghost(self.installed_ids));
            },
            Some(t) => {
                if !self.admits_table(&t) || t.meta.level == usize::MAX {
                    return Err(invalid_argument("table out of order"));
                }
                let meta = t.meta.copy();
                let level = t.meta.level;
                let reader = match SSTableReader::open(t.file) {
                    Ok(reader) => reader,
                    Err(e) => {
                        return Err(e);
                    },
                };
                self.manifest.add_sst(level, meta);
                remove_all(&mut self.manifest, &c.obsolete);
                drop_tables(&mut self.tables, &c.obsolete, Ghost(self.installed_ids));
                self.install(t.meta, reader);
            },
        }
        self.metrics.compactions = self.metrics.compactions.wrapping_add(1);
        Ok(())
    }

    /// Repair a database from the files in its directory: tell which table files
    /// can be used, and rebuild the manifest from them. The log is to be emptied.
    pub fn repair(files: &Vec<FoundFile>) -> (r: Repair)
        ensures
            r.manifest@ == repaired_levels(usable_numbers(files@)),
            r.unusable@ == unusable_places(files@),
            r.report.recovered_ssts == usable_numbers(files@).len(),
            r.report.corrupted_files == unusable_places(files@).len(),
            forall|i: int|
                0 <= i < files@.len() && sst_number((#[trigger] files@[i]).name@) is Some
                    && files@[i].data is Some && parse_table(files@[i].data->Some_0@) is Ok ==> {
                    &&& r.manifest@.len() == 1
                    &&& exists|j: int|
                        0 <= j < r.manifest@[0].len() && (#[trigger] r.manifest@[0][j]).id
                            == sst_number(files@[i].name@)->Some_0
                    &&& !r.unusable@.contains(i as usize)
                },
    {
        repair::repair(files)
    }

    /// The bytes of the manifest file.
    pub fn manifest_file(&self) -> (r: Vec<u8>)
        ensures
            r@ == manifest_bytes(self@.levels),
    {
        self.manifest.save()
    }

    /// The metrics counters as they stand.
    pub fn metrics(&self) -> (r: MetricsSnapshot)
        ensures
            r.writes == self.counters().writes,
            r.reads == self.counters().reads,
            r.deletes == self.counters().deletes,
            r.compactions == self.counters().compactions,
            r.flushes == self.counters().flushes,
    {
        self.metrics.snapshot()
    }

    /// The configuration.
    pub fn options(&self) -> (r: &Options)
        ensures
            *r == self@.opts,
    {
        &self.opts
    }
}

/// The bytes of a log that may not be there.
pub open spec fn log_view(log: Option<Vec<u8>>) -> Seq<u8> {
    match log {
        Some(data) => data@,
        None => Seq::empty(),
    }
}

/// The state of a database that was opened with the given tables, and with the
/// writes that its log stands for.
pub open spec fn opened_state(
    v: EngineView,
    levels: Seq<Seq<MetaView>>,
    tables: Seq<TableEntry>,
    writes: Seq<Entry>,
    log: Seq<u8>,
) -> bool {
    let highest = higher(max_seq(writes), tables_max_seq(tables));
    &&& v.levels == levels
    &&& v.tables == tables
    &&& v.memtable@ == map_of(writes)
    &&& v.memtable.wf()
    &&& v.memtable.spec_immutable() is None
    &&& v.memtable.spec_active().shape() == ListShape::fresh(MAX_LEVEL).insert_all(writes)
    &&& v.next_sst_id == next_id(tables)
    &&& v.installed_ids == next_id(tables)
    &&& v.next_seq == seq_after(highest)
    &&& highest < u64::MAX ==> v.numbered()
    &&& v.log == crate::wal::writer::read_log(log, 0).0
}

/// Without a manifest and a log there is nothing to open.
proof fn opens_new(levels: Seq<Seq<MetaView>>, files: Seq<(u64, Seq<u8>)>, log: Seq<u8>)
    requires
        levels.len() == 0,
        log.len() == 0,
    ensures
        opened(flattened(levels), files) == Ok::<Seq<TableEntry>, Seq<char>>(Seq::empty()),
        recovered(log) == Ok::<Seq<Entry>, crate::wal::record::RecordError>(Seq::empty()),
        crate::wal::writer::read_log(log, 0).0.len() == 0,
        map_of(Seq::<Entry>::empty()) == Map::<Seq<u8>, Seq<u8>>::empty(),
{
    assert(flattened(levels) =~= Seq::empty());
    assert(map_of(Seq::<Entry>::empty()) =~= Map::empty());
}

/// How opening a database comes out.
pub open spec fn opens(
    r: Result<Engine>,
    levels: Seq<Seq<MetaView>>,
    files: Seq<(u64, Seq<u8>)>,
    log: Seq<u8>,
) -> bool {
    match opened(flattened(levels), files) {
        Err(msg) => r matches Err(e) && is_corruption(e, msg),
        Ok(tables) => match recovered(log) {
            Err(x) => r matches Err(e) && reports(e, x),
            Ok(writes) => {
                &&& r is Ok
                &&& r->Ok_0.wf()
                &&& r->Ok_0.counters() == (Metrics {
                    writes: 0,
                    reads: 0,
                    deletes: 0,
                    compactions: 0,
                    flushes: 0,
                })
                &&& opened_state(r->Ok_0@, levels, tables, writes, log)
            },
        },
    }
}

/// A write of one operation with the given record was begun: it takes one number.
/// It fails exactly if there is no number left or the record is too large.
pub open spec fn begun(
    before: Engine,
    after: Engine,
    record: RecordView,
    r: Result<PendingWrite>,
) -> bool {
    &&& after.counters() == before.counters()
    &&& after.cached() == before.cached()
    &&& step(before@, Event::Number, after@)
    &&& before@.healthy() ==> after@.healthy()
    &&& match r {
        Ok(w) => {
            &&& before@.next_seq < u64::MAX
            &&& record.fits()
            &&& after@ == (EngineView { next_seq: (before@.next_seq + 1) as u64, ..before@ })
            &&& w.wf()
            &&& w.record() == record
            &&& w.numbered_below(after@.next_seq)
        },
        Err(e) => {
            &&& after@ == before@
            &&& if before@.next_seq == u64::MAX {
                is_internal(e, "sequence numbers exhausted"@)
            } else {
                &&& !record.fits()
                &&& is_invalid_argument(e, "record too large"@)
            }
        },
    }
}

/// A write of one operation is begun unless the numbers have run out or its record
/// is too long for a field of four bytes. It takes one number and changes nothing
/// else; what goes to the log is its record.
pub proof fn begun_takes_one_number(
    before: Engine,
    after: Engine,
    record: RecordView,
    r: Result<PendingWrite>,
)
    requires
        begun(before, after, record, r),
    ensures
        r is Ok <==> before@.next_seq < u64::MAX && record.key.len() + record.value.len() + 13
            <= 0xffff_ffff,
        r is Ok ==> after@.next_seq == before@.next_seq + 1 && r->Ok_0.spec_log()
            == record.bytes() && r->Ok_0.record() == record,
        r is Err ==> after@.next_seq == before@.next_seq,
        after@ == (EngineView { next_seq: after@.next_seq, ..before@ }),
        after.counters() == before.counters(),
        after.cached() == before.cached(),
        before@.healthy() ==> after@.healthy(),
{
}

/// Every key and value of ordinary length can be written, with a time to live or
/// without, and every key of ordinary length can be deleted.
pub proof fn ordinary_writes_fit(key: Seq<u8>, value: Seq<u8>, seq: u64, expiry: u64)
    requires
        key.len() + value.len() + 30 <= 0xffff_ffff,
    ensures
        put_record(key, stamped(plain(value), seq)).fits(),
        put_record(key, stamped(timed(value, expiry), seq)).fits(),
        delete_record(key, seq).fits(),
        put_record(key, value).key == key && put_record(key, value).value == value,
        delete_record(key, seq).key == key,
{
    crate::engine::value::stored_layout(value, plain(value), seq, expiry);
    crate::engine::value::stored_layout(value, timed(value, expiry), seq, expiry);
    crate::engine::value::stored_layout(value, tombstone(), seq, expiry);
}

/// A new table has a number that was taken and not yet used.
pub open spec fn admits(v: EngineView, t: NewTable) -> bool {
    v.installed_ids <= t.meta.id && t.meta.id < v.next_sst_id
}

/// Where a key was last written.
proof fn written_at(writes: Seq<Entry>, key: Seq<u8>) -> (j: int)
    requires
        map_of(writes).contains_key(key),
    ensures
        0 <= j < writes.len(),
        writes[j].0 == key,
        writes[j].1 == map_of(writes)[key],
    decreases writes.len(),
{
    if writes.last().0 == key {
        writes.len() - 1
    } else {
        written_at(writes.drop_last(), key)
    }
}

/// `t` is the table of the immutable memtable, with a number that was taken for
/// it.
pub open spec fn flushes(v: EngineView, t: NewTable) -> bool {
    &&& admits(v, t)
    &&& v.memtable.spec_immutable() is Some
    &&& is_table_of(
        t,
        v.memtable.spec_immutable()->Some_0.entries(),
        t.meta.id,
        0,
        v.opts.block_size as int,
        v.opts.bloom_filter_bits_per_key as nat,
    )
}

/// Finishing a flush of the immutable memtable succeeds, stores exactly what was
/// stored before, and leaves the tables tidy.
pub open spec fn flush_keeps(before: Engine, after: Engine, t: NewTable, ok: bool) -> bool {
    &&& before@.tidy() && flushes(before@, t) ==> {
        &&& ok
        &&& after@.tidy()
        &&& after@.contents() == before@.contents()
        &&& forall|key: Seq<u8>, now: u64| #[trigger]
            after@.read(key, now) == before@.read(key, now)
    }
    &&& before@.healthy() && flushes(before@, t) ==> after@.healthy()
}

/// A flush of the immutable memtable moves what it holds to the tables.
proof fn flush_law(v: EngineView, t: NewTable)
    requires
        v.memtable.wf(),
    ensures
        v.tidy() && flushes(v, t) ==> {
            let list = v.memtable.spec_immutable()->Some_0;
            let tables = place(v.tables, entry_of(t));
            &&& parse_table(t.file@) is Ok
            &&& t.meta.level == 0
            &&& crate::engine::layout::tidy(tables, with_sst(v.levels, 0, t.meta@))
            &&& forall|i: int| 0 <= i < tables.len() ==> (#[trigger] tables[i]).0.id <= t.meta.id
            &&& overlay(stored(tables), v.memtable.spec_active()@) == v.contents()
        },
{
    if v.tidy() && flushes(v, t) {
        let list = v.memtable.spec_immutable()->Some_0;
        let s = list.entries();
        list.entries_sorted();
        file_opens(
            t.file@,
            s,
            v.opts.block_size as int,
            v.opts.bloom_filter_bits_per_key as nat,
        );
        let e = entry_of(t);
        assert(e.1.stores(s));
        assert(e.1.entries() == s);
        assert(e.1.sound());
        assert forall|i: int| 0 <= i < v.tables.len() implies (#[trigger] v.tables[i]).0.id
            != e.0.id by {
            assert(v.tables[i].0.id < v.installed_ids);
        }
        flush_keeps_tidy(v.tables, v.levels, e);
        let tables = place(v.tables, e);
        let at = crate::engine::layout::level_end(v.tables, e.0.level);
        crate::engine::layout::level_end_splits(v.tables, e.0.level);
        assert forall|i: int| 0 <= i < tables.len() implies (#[trigger] tables[i]).0.id
            <= t.meta.id by {
            if i < at {
                assert(tables[i] == v.tables[i]);
                assert(v.tables[i].0.id < v.installed_ids);
            } else if i > at {
                assert(tables[i] == v.tables[i - 1]);
                assert(v.tables[i - 1].0.id < v.installed_ids);
            }
        }
        assert(overlay(stored(tables), v.memtable.spec_active()@) =~= v.contents());
    }
}

/// `c` is a compaction for the state `v` at the time `now`.
pub open spec fn compacts(v: EngineView, c: Compaction, now: u64) -> bool {
    &&& c.level + 1 < usize::MAX
    &&& c.obsolete@ == victims(v.levels, c.level as int)
    &&& exists|s: Seq<Entry>| #[trigger]
        compacts_to(v.tables, c.obsolete@, c.level + 1, now, s) && match c.output {
            Some(t) => admits(v, t) && is_table_of(
                t,
                s,
                t.meta.id,
                c.level + 1,
                v.opts.block_size as int,
                v.opts.bloom_filter_bits_per_key as nat,
            ),
            None => s.len() == 0,
        }
}

/// Finishing a compaction succeeds, changes nothing that a reader sees from then
/// on, and leaves the tables tidy, the values numbered and the entries
/// storable.
pub open spec fn compaction_keeps(
    before: EngineView,
    after: EngineView,
    c: Compaction,
    ok: bool,
) -> bool {
    &&& forall|now: u64| before.tidy() && #[trigger] compacts(before, c, now) ==> {
        &&& ok
        &&& after.tidy()
        &&& before.numbered() ==> after.numbered()
        &&& before.storable() ==> after.storable()
        &&& before.healthy() ==> after.healthy()
    }
    &&& forall|now: u64, later: u64, key: Seq<u8>|
        #![trigger compacts(before, c, now), after.read(key, later)]
        #![trigger compacts(before, c, now), seen(after.contents(), key, later)]
        before.tidy() && compacts(before, c, now) && now <= later ==> {
            &&& seen(after.contents(), key, later) == seen(before.contents(), key, later)
            &&& after.read(key, later) == before.read(key, later)
        }
}

/// Finishing a flush that was begun succeeds, and no key reads differently after it.
pub proof fn finished_flush_is_unseen(
    before: Engine,
    after: Engine,
    t: NewTable,
    ok: bool,
    key: Seq<u8>,
    now: u64,
)
    requires
        flush_keeps(before, after, t, ok),
        before@.tidy(),
        before@.installed_ids <= t.meta.id < before@.next_sst_id,
        before@.memtable.spec_immutable() is Some,
        is_table_of(
            t,
            before@.memtable.spec_immutable()->Some_0.entries(),
            t.meta.id,
            0,
            before@.opts.block_size as int,
            before@.opts.bloom_filter_bits_per_key as nat,
        ),
    ensures
        ok,
        after@.read(key, now) == before@.read(key, now),
        after@.contents() == before@.contents(),
        after@.tidy(),
        before@.healthy() ==> after@.healthy(),
{
    assert(flushes(before@, t));
}

/// Finishing a compaction that was begun succeeds, and from its time on no key
/// reads differently after it.
pub proof fn finished_compaction_is_unseen(
    before: EngineView,
    after: EngineView,
    c: Compaction,
    ok: bool,
    now: u64,
    later: u64,
    key: Seq<u8>,
)
    requires
        compaction_keeps(before, after, c, ok),
        before.tidy(),
        compacts(before, c, now),
        now <= later,
    ensures
        ok,
        after.read(key, later) == before.read(key, later),
        after.tidy(),
        before.healthy() ==> after.healthy(),
{
}

/// A log that is not there is an empty one; otherwise all its bytes count.
pub proof fn log_is_whole(data: Vec<u8>)
    ensures
        log_view(Some(data)) == data@,
        log_view(None) == Seq::<u8>::empty(),
{
}

/// The table that a compaction writes, once it is open.
pub open spec fn output_of(c: Compaction) -> Option<TableEntry> {
    match c.output {
        Some(t) => Some(entry_of(t)),
        None => None,
    }
}

/// The state after a compaction.
pub open spec fn compacted(v: EngineView, c: Compaction) -> EngineView {
    EngineView {
        levels: levels_after(v.levels, c.obsolete@, output_of(c)),
        tables: tables_after(v.tables, c.obsolete@, output_of(c)),
        installed_ids: match c.output {
            Some(t) => (t.meta.id + 1) as u64,
            None => v.installed_ids,
        },
        ..v
    }
}

/// What a compaction keeps.
proof fn compaction_law(v: EngineView, c: Compaction)
    ensures
        c.output matches Some(t) ==> forall|now: u64|
            v.tidy() && #[trigger] compacts(v, c, now) ==> {
                &&& admits(v, t)
                &&& t.meta.level < usize::MAX
                &&& parse_table(t.file@) is Ok
            },
        compaction_keeps(v, compacted(v, c), c, true),
{
    assert forall|now: u64| v.tidy() && #[trigger] compacts(v, c, now) implies (c.output matches Some(
        t,
    ) ==> admits(v, t) && t.meta.level < usize::MAX && parse_table(t.file@) is Ok) by {
        compaction_opens(v, c, now);
    }
    let after = compacted(v, c);
    assert forall|now: u64| v.tidy() && #[trigger] compacts(v, c, now) implies {
        &&& after.tidy()
        &&& v.numbered() ==> after.numbered()
        &&& v.storable() ==> after.storable()
        &&& v.healthy() ==> after.healthy()
    } by {
        compaction_is_sound(v, c, now);
    }
    assert forall|now: u64, later: u64, key: Seq<u8>|
        #![trigger compacts(v, c, now), after.read(key, later)]
        #![trigger compacts(v, c, now), seen(after.contents(), key, later)]
        v.tidy() && compacts(v, c, now) && now <= later implies {
        &&& seen(after.contents(), key, later) == seen(v.contents(), key, later)
        &&& after.read(key, later) == v.read(key, later)
    } by {
        compaction_is_unseen(v, c, now, key, later);
    }
}

/// A compaction leaves the tables tidy, the values numbered and the entries
/// storable.
proof fn compaction_is_sound(v: EngineView, c: Compaction, now: u64)
    requires
        v.tidy(),
        compacts(v, c, now),
    ensures
        compacted(v, c).tidy(),
        v.numbered() ==> compacted(v, c).numbered(),
        v.storable() ==> compacted(v, c).storable(),
        v.healthy() ==> compacted(v, c).healthy(),
{
    let after = compacted(v, c);
    let s = compaction_opens(v, c, now);
    let output = output_of(c);
    let level = c.level as int;
    compaction_keeps_tidy(v.tables, v.levels, level, now, s, output);
    compaction_ids(v, c);
    if v.healthy() {
        spared_keeps_short(v.tables, c.obsolete@);
        if let Some(t) = output {
            place_keeps_short(spared(v.tables, c.obsolete@), t);
        }
    }
    if v.numbered() {
        assert forall|k: Seq<u8>| #[trigger] after.contents().contains_key(k) implies seq_of(
            after.contents()[k],
        ) < after.next_seq by {
            compaction_keeps_reads(v.tables, v.levels, level, now, s, output, k, now);
            assert(v.contents().contains_key(k));
        }
    }
    if v.storable() {
        assert forall|k: Seq<u8>| #[trigger] after.contents().contains_key(k) implies storable(
            (k, after.contents()[k]),
        ) by {
            compaction_keeps_reads(v.tables, v.levels, level, now, s, output, k, now);
            assert(v.contents().contains_key(k));
        }
    }
}

/// No reader sees, from its time on, that a compaction was done.
proof fn compaction_is_unseen(v: EngineView, c: Compaction, now: u64, key: Seq<u8>, later: u64)
    requires
        v.tidy(),
        compacts(v, c, now),
        now <= later,
    ensures
        seen(compacted(v, c).contents(), key, later) == seen(v.contents(), key, later),
        compacted(v, c).read(key, later) == v.read(key, later),
{
    let after = compacted(v, c);
    let s = compaction_opens(v, c, now);
    let output = output_of(c);
    let level = c.level as int;
    compaction_is_sound(v, c, now);
    compaction_keeps_reads(v.tables, v.levels, level, now, s, output, key, later);
    read_is_seen(v, key, later);
    read_is_seen(after, key, later);
}

/// The entries that a compaction writes, and that its table opens as them.
proof fn compaction_opens(v: EngineView, c: Compaction, now: u64) -> (s: Seq<Entry>)
    requires
        v.tidy(),
        compacts(v, c, now),
    ensures
        compacts_to(v.tables, victims(v.levels, c.level as int), c.level + 1, now, s),
        match c.output {
            None => s.len() == 0,
            Some(t) => {
                let e = entry_of(t);
                &&& admits(v, t)
                &&& t.meta.level < usize::MAX
                &&& parse_table(t.file@) is Ok
                &&& e.0.level == c.level + 1
                &&& e.1.sound()
                &&& e.1.entries() == s
                &&& s.len() > 0
                &&& e.0.min_key == s[0].0
                &&& e.0.max_key == s.last().0
                &&& forall|i: int|
                    0 <= i < v.tables.len() ==> (#[trigger] v.tables[i]).0.id != e.0.id
            },
        },
{
    let s = choose|s: Seq<Entry>| #[trigger]
        compacts_to(v.tables, c.obsolete@, c.level + 1, now, s) && match c.output {
            Some(t) => admits(v, t) && is_table_of(
                t,
                s,
                t.meta.id,
                c.level + 1,
                v.opts.block_size as int,
                v.opts.bloom_filter_bits_per_key as nat,
            ),
            None => s.len() == 0,
        };
    if c.output is Some {
        let t = c.output->Some_0;
        file_opens(
            t.file@,
            s,
            v.opts.block_size as int,
            v.opts.bloom_filter_bits_per_key as nat,
        );
        let e = entry_of(t);
        assert(e.1.stores(s));
        assert forall|i: int| 0 <= i < v.tables.len() implies (#[trigger] v.tables[i]).0.id
            != e.0.id by {
            assert(v.tables[i].0.id < v.installed_ids);
        }
    }
    s
}

/// The tables after a compaction have their numbers in order.
proof fn compaction_ids(v: EngineView, c: Compaction)
    requires
        v.tidy(),
        c.output matches Some(t) ==> admits(v, t),
    ensures
        forall|i: int|
            0 <= i < compacted(v, c).tables.len() ==> (#[trigger] compacted(v, c).tables[i]).0.id
                < compacted(v, c).installed_ids,
{
    let after = compacted(v, c).tables;
    let rest = crate::engine::compact::spared(v.tables, c.obsolete@);
    assert forall|i: int| 0 <= i < rest.len() implies (#[trigger] rest[i]).0.id
        < v.installed_ids by {
        let j = crate::engine::layout::spared_from(v.tables, c.obsolete@, i);
        assert(v.tables[j].0.id < v.installed_ids);
    }
    if c.output is Some {
        let e = entry_of(c.output->Some_0);
        crate::engine::layout::level_end_range(rest, e.0.level);
        let at = crate::engine::layout::level_end(rest, e.0.level);
        assert forall|i: int| 0 <= i < after.len() implies (#[trigger] after[i]).0.id
            < compacted(v, c).installed_ids by {
            if i < at {
                assert(after[i] == rest[i]);
            } else if i > at {
                assert(after[i] == rest[i - 1]);
            }
        }
    }
}

} // verus!
