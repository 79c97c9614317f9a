//! The state of the engine as mathematics sees it, and what its steps keep.

use vstd::arithmetic::power::pow;
use vstd::prelude::*;

use crate::bytes::lex_lt;
use crate::engine::catalog::{flattened, from_files, opened, reopened_tables};
use crate::engine::layout::{bounds_short, seen, tidy, tidy_manifest_fits};
use crate::engine::options::Options;
use crate::engine::replay::{
    batch_record, max_seq, op_records, op_writes, put_record, recovered, replayed, replayed_push,
    writes_of,
};
use crate::engine::scan::{bounded_map, in_bounds, prefix_end, prefix_is_range, prefix_map};
use crate::engine::scan::visible;
use crate::engine::tables::{
    all_sound, search, search_finds_stored, stored, tables_max_seq, TableEntry,
};
use crate::engine::value::{
    plain, plain_shown, seq_of, shown, stamped, timed, tombstone, tombstone_shown,
    ttl_shown,
};
use crate::entries::{map_of, map_of_append, overlay, range_map, value_of, Entry};
use crate::manifest::{counts_fit, manifest_bytes, manifest_roundtrip, parse_manifest, MetaView};
use crate::memtable::memtable::MemTable;
use crate::wal::record::{RecordError, RecordView};
use crate::wal::writer::{
    all_fit, log_bytes, log_roundtrip, log_truncation, whole_records, whole_records_bounds,
};
use crate::write_batch::OpView;

verus! {

/// The state of the engine.
pub struct EngineView {
    /// The memtable.
    pub memtable: MemTable,
    /// The tables that the manifest lists.
    pub levels: Seq<Seq<MetaView>>,
    /// The open tables, the oldest data first.
    pub tables: Seq<TableEntry>,
    /// All tables so far are numbered below this.
    pub installed_ids: u64,
    /// The number of the next table.
    pub next_sst_id: u64,
    /// The number of the next write.
    pub next_seq: u64,
    /// The records in the log.
    pub log: Seq<RecordView>,
    /// The configuration.
    pub opts: Options,
}

impl EngineView {
    /// What the engine stores: the memtable over the tables.
    pub open spec fn contents(self) -> Map<Seq<u8>, Seq<u8>> {
        overlay(stored(self.tables), self.memtable@)
    }

    /// What a lookup of a key at the time `now` comes to.
    pub open spec fn read(self, key: Seq<u8>, now: u64) -> std::result::Result<
        Option<Seq<u8>>,
        Seq<char>,
    > {
        if self.memtable@.contains_key(key) {
            Ok(shown(self.memtable@[key], now))
        } else {
            match search(self.tables, key) {
                Err(msg) => Err(msg),
                Ok(Some(v)) => Ok(shown(v, now)),
                Ok(None) => Ok(None),
            }
        }
    }

    /// The tables are sound and laid out as the engine lays them out.
    pub open spec fn tidy(self) -> bool {
        &&& tidy(self.tables, self.levels)
        &&& forall|i: int|
            0 <= i < self.tables.len() ==> (#[trigger] self.tables[i]).0.id < self.installed_ids
    }

    /// Every stored value is numbered below the next write.
    pub open spec fn numbered(self) -> bool {
        forall|k: Seq<u8>| #[trigger]
            self.contents().contains_key(k) ==> seq_of(self.contents()[k]) < self.next_seq
    }

    /// Every entry can be stored.
    pub open spec fn storable(self) -> bool {
        forall|k: Seq<u8>| #[trigger]
            self.contents().contains_key(k) ==> storable((k, self.contents()[k]))
    }

    /// The log stands for what the memtable holds.
    pub open spec fn logged(self) -> bool {
        all_fit(self.log) ==> {
            &&& replayed(self.log) is Ok
            &&& map_of(replayed(self.log)->Ok_0) == self.memtable@
        }
    }

    /// What every step of the engine keeps: the tables are laid out as they should
    /// be, the values are numbered, the entries can be stored, and the log stands
    /// for the memtable.
    pub open spec fn healthy(self) -> bool {
        &&& self.tidy()
        &&& self.numbered()
        &&& self.storable()
        &&& self.logged()
        &&& all_fit(self.log)
        &&& bounds_short(self.tables)
        &&& self.memtable.wf()
        &&& self.installed_ids <= self.next_sst_id
    }

    /// Nothing was written yet.
    pub open spec fn is_new(self) -> bool {
        &&& self.levels.len() == 0
        &&& self.tables.len() == 0
        &&& self.memtable@ == Map::<Seq<u8>, Seq<u8>>::empty()
        &&& self.memtable.wf()
        &&& self.log.len() == 0
        &&& self.installed_ids <= self.next_sst_id
    }

    /// Whether a level holds as many tables as it may, or more.
    pub open spec fn due(self, level: int) -> bool {
        &&& level + 1 < self.opts.max_levels
        &&& crate::manifest::at_level(self.levels, level).len() > 0
        &&& crate::manifest::at_level(self.levels, level).len() >= self.opts.capacity(level as nat)
    }
}

/// A level is due for compaction exactly when it is not the last and holds tables,
/// and no fewer than it may: level 0 the configured threshold, each further level
/// ten times as many.
pub proof fn due_by_count(v: EngineView, level: int)
    requires
        0 <= level,
    ensures
        v.due(level) <==> level < v.levels.len() && v.levels[level].len() > 0 && level + 1
            < v.opts.max_levels && v.levels[level].len() >= v.opts.l0_compaction_threshold * pow(
            10,
            level as nat,
        ),
{
    v.opts.capacity_is_tenfold(level as nat);
}

/// Whether the lengths of an entry fit the fields of the log.
pub open spec fn storable(e: Entry) -> bool {
    put_record(e.0, e.1).fits()
}

/// The records that write the given entries.
pub open spec fn put_records(s: Seq<Entry>) -> Seq<RecordView> {
    Seq::new(s.len(), |i: int| put_record(s[i].0, s[i].1))
}

/// Records that write entries stand for these entries.
pub proof fn put_records_replayed(s: Seq<Entry>)
    ensures
        replayed(put_records(s)) == Ok::<Seq<Entry>, RecordError>(s),
    decreases s.len(),
{
    if s.len() == 0 {
        assert(s =~= Seq::empty());
    } else {
        let front = s.drop_last();
        put_records_replayed(front);
        let records = put_records(s);
        assert(records.drop_last() =~= put_records(front));
        assert(front + seq![s.last()] =~= s);
    }
}

/// One more record, and the writes that it stands for, keep the log true to the
/// memtable.
pub proof fn logged_push(
    log: Seq<RecordView>,
    m: Map<Seq<u8>, Seq<u8>>,
    r: RecordView,
    writes: Seq<Entry>,
)
    requires
        all_fit(log) ==> replayed(log) is Ok && map_of(replayed(log)->Ok_0) == m,
        r.fits() ==> writes_of(r) == Ok::<Seq<Entry>, RecordError>(writes),
    ensures
        all_fit(log.push(r)) ==> replayed(log.push(r)) is Ok && map_of(
            replayed(log.push(r))->Ok_0,
        ) == overlay(m, map_of(writes)),
{
    let more = log.push(r);
    if all_fit(more) {
        assert forall|i: int| 0 <= i < log.len() implies (#[trigger] log[i]).fits() by {
            assert(more[i].fits());
        }
        assert(more[log.len() as int].fits());
        replayed_push(log, r);
        map_of_append(replayed(log)->Ok_0, writes);
    }
}

/// The length of a record's bytes.
proof fn record_len(r: RecordView)
    ensures
        r.bytes().len() == 17 + r.key.len() + r.value.len(),
{
    let crc = crate::wal::record::crc32_of(r.payload());
    crate::bytes::le_bytes_len(r.key.len(), 4);
    crate::bytes::le_bytes_len(r.value.len(), 4);
    crate::bytes::le_bytes_len(4 + r.payload().len(), 4);
    crate::bytes::le_bytes_len(crc as nat, 4);
}

/// A log is at least as long as each of its records.
proof fn log_covers(records: Seq<RecordView>, i: int)
    requires
        0 <= i < records.len(),
    ensures
        records[i].bytes().len() <= log_bytes(records).len(),
    decreases records.len(),
{
    if i < records.len() - 1 {
        log_covers(records.drop_last(), i);
    }
}

/// Where the record of a batch fits, the records of its operations fit.
pub proof fn batch_fits(ops: Seq<OpView>, seq: int)
    requires
        batch_record(ops, seq).fits(),
    ensures
        all_fit(op_records(ops, seq)),
{
    let records = op_records(ops, seq);
    assert forall|i: int| 0 <= i < records.len() implies (#[trigger] records[i]).fits() by {
        log_covers(records, i);
        record_len(records[i]);
    }
}

/// What is in memory is read before the tables; a table that cannot be read is
/// reported and not passed over.
pub proof fn memory_is_read_first(v: EngineView, key: Seq<u8>, now: u64)
    ensures
        v.memtable@.contains_key(key) ==> v.read(key, now) == Ok::<Option<Seq<u8>>, Seq<char>>(
            shown(v.memtable@[key], now),
        ),
        !v.memtable@.contains_key(key) ==> match search(v.tables, key) {
            Ok(Some(w)) => v.read(key, now) == Ok::<Option<Seq<u8>>, Seq<char>>(shown(w, now)),
            Ok(None) => v.read(key, now) == Ok::<Option<Seq<u8>>, Seq<char>>(None),
            Err(msg) => v.read(key, now) == Err::<Option<Seq<u8>>, Seq<char>>(msg),
        },
{
}

/// A lookup in sound tables gives exactly what a reader is to see of the key.
pub proof fn read_is_seen(v: EngineView, key: Seq<u8>, now: u64)
    requires
        all_sound(v.tables),
    ensures
        v.read(key, now) == Ok::<Option<Seq<u8>>, Seq<char>>(seen(v.contents(), key, now)),
{
    search_finds_stored(v.tables, key);
}

/// The engine went from `v` to `v2` by the given writes.
pub open spec fn written(v: EngineView, writes: Seq<Entry>, v2: EngineView) -> bool {
    &&& v2.memtable@ == overlay(v.memtable@, map_of(writes))
    &&& v2.tables == v.tables
}

/// After writes a key reads as its last write if there is one, and otherwise as it
/// read before.
pub proof fn writes_are_read(
    v: EngineView,
    writes: Seq<Entry>,
    v2: EngineView,
    key: Seq<u8>,
    now: u64,
)
    requires
        written(v, writes, v2),
    ensures
        v2.read(key, now) == if map_of(writes).contains_key(key) {
            Ok(shown(map_of(writes)[key], now))
        } else {
            v.read(key, now)
        },
        v2.contents() == overlay(v.contents(), map_of(writes)),
        seen(v2.contents(), key, now) == if map_of(writes).contains_key(key) {
            shown(map_of(writes)[key], now)
        } else {
            seen(v.contents(), key, now)
        },
{
    assert(v2.contents() =~= overlay(v.contents(), map_of(writes)));
}

/// A value that was put is read back at any time, whatever bytes it has, and no
/// other key changes.
pub proof fn put_then_get(
    v: EngineView,
    key: Seq<u8>,
    value: Seq<u8>,
    seq: u64,
    v2: EngineView,
    other: Seq<u8>,
    now: u64,
)
    requires
        written(v, seq![(key, stamped(plain(value), seq))], v2),
    ensures
        v2.read(key, now) == Ok::<Option<Seq<u8>>, Seq<char>>(Some(value)),
        other != key ==> v2.read(other, now) == v.read(other, now),
        seen(v2.contents(), key, now) == Some(value),
        other != key ==> seen(v2.contents(), other, now) == seen(v.contents(), other, now),
{
    let w = (key, stamped(plain(value), seq));
    one_write(w);
    plain_shown(value, seq, now);
    writes_are_read(v, seq![w], v2, key, now);
    writes_are_read(v, seq![w], v2, other, now);
}

/// A key that was deleted is not found, and no other key changes.
pub proof fn delete_then_get(
    v: EngineView,
    key: Seq<u8>,
    seq: u64,
    v2: EngineView,
    other: Seq<u8>,
    now: u64,
)
    requires
        written(v, seq![(key, stamped(tombstone(), seq))], v2),
    ensures
        v2.read(key, now) == Ok::<Option<Seq<u8>>, Seq<char>>(None),
        other != key ==> v2.read(other, now) == v.read(other, now),
        seen(v2.contents(), key, now) is None,
        other != key ==> seen(v2.contents(), other, now) == seen(v.contents(), other, now),
{
    let w = (key, stamped(tombstone(), seq));
    one_write(w);
    tombstone_shown(seq, now);
    writes_are_read(v, seq![w], v2, key, now);
    writes_are_read(v, seq![w], v2, other, now);
}

/// A value that was put at the time `from` with the time-to-live `ttl` is read back
/// before it has lived that long and not found from then on, and no other key
/// changes.
pub proof fn put_with_ttl_then_get(
    v: EngineView,
    key: Seq<u8>,
    value: Seq<u8>,
    from: u64,
    ttl: u64,
    seq: u64,
    v2: EngineView,
    other: Seq<u8>,
    now: u64,
)
    requires
        from + ttl <= u64::MAX,
        written(v, seq![(key, stamped(timed(value, (from + ttl) as u64), seq))], v2),
    ensures
        v2.read(key, now) == Ok::<Option<Seq<u8>>, Seq<char>>(
            if now < from + ttl {
                Some(value)
            } else {
                None
            },
        ),
        other != key ==> v2.read(other, now) == v.read(other, now),
        seen(v2.contents(), key, now) == if now < from + ttl {
            Some(value)
        } else {
            None
        },
        other != key ==> seen(v2.contents(), other, now) == seen(v.contents(), other, now),
{
    let w = (key, stamped(timed(value, (from + ttl) as u64), seq));
    one_write(w);
    ttl_shown(value, (from + ttl) as u64, seq, now);
    writes_are_read(v, seq![w], v2, key, now);
    writes_are_read(v, seq![w], v2, other, now);
}

/// What one write leaves behind.
pub proof fn one_write(w: Entry)
    ensures
        map_of(seq![w]).contains_key(w.0),
        map_of(seq![w])[w.0] == w.1,
        forall|k: Seq<u8>| k != w.0 ==> !#[trigger] map_of(seq![w]).contains_key(k),
{
    assert(seq![w].drop_last() =~= Seq::<Entry>::empty());
    assert(map_of(Seq::<Entry>::empty()) =~= Map::empty());
}

/// What a batch asks of a key: its last operation on it, if there is one.
pub open spec fn batch_asks(ops: Seq<OpView>, key: Seq<u8>) -> Option<Option<Seq<u8>>>
    decreases ops.len(),
{
    if ops.len() == 0 {
        None
    } else if ops.last().0 == key {
        Some(ops.last().1)
    } else {
        batch_asks(ops.drop_last(), key)
    }
}

/// Of several operations of a batch on a key the last counts; a key of none is not
/// asked for.
pub proof fn last_operation_counts(ops: Seq<OpView>, key: Seq<u8>, i: int)
    requires
        -1 <= i < ops.len(),
        forall|j: int| i < j < ops.len() ==> (#[trigger] ops[j]).0 != key,
    ensures
        0 <= i && ops[i].0 == key ==> batch_asks(ops, key) == Some(ops[i].1),
        i == -1 ==> batch_asks(ops, key) is None,
    decreases ops.len(),
{
    if i < ops.len() - 1 {
        let front = ops.drop_last();
        assert(ops[ops.len() - 1].0 != key);
        assert forall|j: int| i < j < front.len() implies (#[trigger] front[j]).0 != key by {
            assert(ops[j] == front[j]);
        }
        last_operation_counts(front, key, i);
    }
}

/// The operations of a batch are numbered one after the other, each keeps its own
/// key, and what it stores shows its value, or nothing if it deletes.
pub proof fn operations_are_written(ops: Seq<OpView>, seq: int, i: int, now: u64)
    requires
        0 <= seq,
        seq + ops.len() <= u64::MAX,
        0 <= i < ops.len(),
    ensures
        op_writes(ops, seq).len() == ops.len(),
        op_writes(ops, seq)[i].0 == ops[i].0,
        seq_of(op_writes(ops, seq)[i].1) == seq + i,
        shown(op_writes(ops, seq)[i].1, now) == ops[i].1,
{
    match ops[i].1 {
        Some(value) => {
            plain_shown(value, (seq + i) as u64, now);
        },
        None => {
            tombstone_shown((seq + i) as u64, now);
        },
    }
}

/// What a batch writes for a key is its last operation on it.
pub proof fn batch_writes(ops: Seq<OpView>, seq: int, key: Seq<u8>, now: u64)
    requires
        0 <= seq,
        seq + ops.len() <= u64::MAX,
    ensures
        map_of(op_writes(ops, seq)).contains_key(key) <==> batch_asks(ops, key) is Some,
        map_of(op_writes(ops, seq)).contains_key(key) ==> shown(
            map_of(op_writes(ops, seq))[key],
            now,
        ) == batch_asks(ops, key)->Some_0,
    decreases ops.len(),
{
    let writes = op_writes(ops, seq);
    if ops.len() == 0 {
        assert(writes =~= Seq::empty());
    } else {
        let front = ops.drop_last();
        let n = (seq + ops.len() - 1) as u64;
        batch_writes(front, seq, key, now);
        assert(writes.drop_last() =~= op_writes(front, seq));
        if ops.last().0 == key {
            match ops.last().1 {
                Some(value) => {
                    plain_shown(value, n, now);
                },
                None => {
                    tombstone_shown(n, now);
                },
            }
        }
    }
}

/// After a batch every key that it writes or deletes reads as its last operation
/// says, and every other key as before.
pub proof fn batch_then_get(
    v: EngineView,
    ops: Seq<OpView>,
    seq: int,
    v2: EngineView,
    key: Seq<u8>,
    now: u64,
)
    requires
        0 <= seq,
        seq + ops.len() <= u64::MAX,
        written(v, op_writes(ops, seq), v2),
    ensures
        v2.read(key, now) == match batch_asks(ops, key) {
            Some(asked) => Ok(asked),
            None => v.read(key, now),
        },
        seen(v2.contents(), key, now) == match batch_asks(ops, key) {
            Some(asked) => asked,
            None => seen(v.contents(), key, now),
        },
{
    batch_writes(ops, seq, key, now);
    writes_are_read(v, op_writes(ops, seq), v2, key, now);
}

/// A scan sees of every key in its range exactly what a lookup finds, and nothing
/// of any other.
pub proof fn scan_agrees_with_get(
    v: EngineView,
    start: Seq<u8>,
    end: Option<Seq<u8>>,
    key: Seq<u8>,
    now: u64,
)
    requires
        all_sound(v.tables),
    ensures
        v.read(key, now) is Ok,
        value_of(bounded_map(visible(v.contents(), now), start, end), key) == if in_bounds(
            key,
            start,
            end,
        ) {
            v.read(key, now)->Ok_0
        } else {
            None
        },
{
    read_is_seen(v, key, now);
}

/// A range scan finds the keys from its start on and before its end, and a prefix
/// scan those that start with the prefix, in both cases exactly those that a lookup
/// finds, with the value that it finds.
pub proof fn scans_find_what_is_read(
    v: EngineView,
    start: Seq<u8>,
    end: Seq<u8>,
    prefix: Seq<u8>,
    key: Seq<u8>,
    now: u64,
)
    requires
        all_sound(v.tables),
    ensures
        ({
            let m = range_map(visible(v.contents(), now), start, end);
            let read = v.read(key, now);
            &&& m.contains_key(key) <==> (start == key || lex_lt(start, key)) && lex_lt(key, end)
                && read is Ok && read->Ok_0 is Some
            &&& m.contains_key(key) ==> read == Ok::<Option<Seq<u8>>, Seq<char>>(Some(m[key]))
        }),
        ({
            let m = prefix_map(visible(v.contents(), now), prefix);
            let read = v.read(key, now);
            &&& m.contains_key(key) <==> prefix.is_prefix_of(key) && read is Ok
                && read->Ok_0 is Some
            &&& m.contains_key(key) ==> read == Ok::<Option<Seq<u8>>, Seq<char>>(Some(m[key]))
        }),
{
    read_is_seen(v, key, now);
    if prefix.len() <= key.len() {
        assert(key.take(prefix.len() as int) =~= key.subrange(0, prefix.len() as int));
    }
}

/// The range between a prefix and its end is the keys with the prefix.
pub proof fn prefix_scan_is_exact(m: Map<Seq<u8>, Seq<u8>>, prefix: Seq<u8>)
    ensures
        bounded_map(m, prefix, prefix_end(prefix)) == prefix_map(m, prefix),
{
    assert forall|k: Seq<u8>| bounded_map(m, prefix, prefix_end(prefix)).contains_key(k)
        == prefix_map(m, prefix).contains_key(k) by {
        prefix_is_range(k, prefix);
    }
    assert(bounded_map(m, prefix, prefix_end(prefix)) =~= prefix_map(m, prefix));
}

/// Reopening what the engine left on disk gives back the same tables and a
/// memtable that holds the same: nothing that was written is lost, and nothing
/// else appears.
pub proof fn reopen_restores(v: EngineView, files: Seq<(u64, Seq<u8>)>)
    requires
        v.healthy(),
        counts_fit(v.levels),
        from_files(v.tables, files),
    ensures
        parse_manifest(manifest_bytes(v.levels)) == Ok::<(Seq<Seq<MetaView>>, int), Seq<char>>(
            (v.levels, manifest_bytes(v.levels).len() as int),
        ),
        opened(flattened(v.levels), files) == Ok::<Seq<TableEntry>, Seq<char>>(v.tables),
        recovered(log_bytes(v.log)) is Ok,
        map_of(recovered(log_bytes(v.log))->Ok_0) == v.memtable@,
{
    tidy_manifest_fits(v.tables, v.levels);
    manifest_roundtrip(v.levels);
    reopened_tables(v.tables, v.levels, files);
    log_roundtrip(v.log);
}

/// A crash while a write is appended to the log leaves either all of the write
/// or nothing of it, be it a batch, and all writes before it.
pub proof fn crash_is_atomic(log: Seq<RecordView>, r: RecordView, n: int)
    requires
        all_fit(log.push(r)),
        log_bytes(log).len() <= n <= log_bytes(log.push(r)).len(),
    ensures
        recovered(log_bytes(log.push(r)).take(n)) == if n < log_bytes(log.push(r)).len() {
            recovered(log_bytes(log))
        } else {
            recovered(log_bytes(log.push(r)))
        },
{
    let all = log.push(r);
    let k = whole_records(all, n);
    log_truncation(all, n);
    whole_records_bounds(all, n);
    log_roundtrip(all);
    assert forall|i: int| 0 <= i < log.len() implies (#[trigger] log[i]).fits() by {
        assert(all[i].fits());
    }
    log_roundtrip(log);
    assert(all.drop_last() =~= log);
    assert(all.take(log.len() as int) =~= log);
    assert(all.take(all.len() as int) =~= all);
    if n < log_bytes(all).len() {
        assert(k == log.len()) by {
            if k < log.len() {
                log_prefix_len(all, k + 1, log.len() as int);
            }
        }
    } else {
        assert(k == all.len()) by {
            if k < all.len() {
                log_prefix_len(all, k + 1, all.len() as int);
            }
        }
    }
}

/// Fewer records take no more bytes.
proof fn log_prefix_len(records: Seq<RecordView>, a: int, b: int)
    requires
        0 <= a <= b <= records.len(),
    ensures
        log_bytes(records.take(a)).len() <= log_bytes(records.take(b)).len(),
    decreases b - a,
{
    if a < b {
        log_prefix_len(records, a, b - 1);
        assert(records.take(b).drop_last() =~= records.take(b - 1));
    }
}

/// What is stored in tables is numbered at most as the highest number in them.
pub proof fn stored_numbered(tables: Seq<TableEntry>, key: Seq<u8>)
    requires
        stored(tables).contains_key(key),
    ensures
        seq_of(stored(tables)[key]) <= tables_max_seq(tables),
    decreases tables.len(),
{
    let front = tables.drop_last();
    let s = tables.last().1.entries();
    if map_of(s).contains_key(key) {
        map_numbered(s, key);
    } else {
        stored_numbered(front, key);
    }
}

/// What writes leave behind is numbered at most as the highest number in them.
pub proof fn map_numbered(s: Seq<Entry>, key: Seq<u8>)
    requires
        map_of(s).contains_key(key),
    ensures
        seq_of(map_of(s)[key]) <= max_seq(s),
    decreases s.len(),
{
    if s.last().0 != key {
        map_numbered(s.drop_last(), key);
    }
}

} // verus!
