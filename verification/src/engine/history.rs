//! What holds of a database whatever was done with it: the steps that the engine
//! takes, and what any sequence of them comes to.

use vstd::prelude::*;

use crate::engine::catalog::{
    flattened, from_files, next_id_bounds, next_id_follows_highest, opened, reopened_tables,
};
use crate::engine::compact::NewTable;
use crate::engine::layout::{listed, place, place_keeps_short, seen};
use crate::engine::replay::{max_seq_is_highest, op_writes, recovered, writes_of};
use crate::engine::scan::{bounded_map, in_bounds, visible};
use crate::engine::state::{
    batch_asks, batch_writes, logged_push, one_write, put_records,
    put_records_replayed, read_is_seen, reopen_restores, scan_agrees_with_get, storable,
    writes_are_read, written, EngineView,
};
use crate::engine::tables::{tables_max_seq_is_highest, TableEntry};
use crate::engine::value::{
    plain, plain_shown, seq_of, shown, stamped, timed, tombstone, tombstone_shown, ttl_shown,
};
use crate::engine::{
    compacted, compaction_law, compacts, entry_of, flush_law, flushes, opened_state, opens,
    written_at, Compaction, Engine,
};
use crate::entries::{map_of, map_of_append, map_of_sorted, overlay, value_of, Entry};
use crate::manifest::{at_level, counts_fit, manifest_bytes, parse_manifest, with_sst, MetaView};
use crate::wal::record::{RecordError, RecordView};
use crate::wal::writer::{log_bytes, log_roundtrip};
use crate::write_batch::OpView;

verus! {

/// What happens to an engine.
pub enum Event {
    /// Numbers are taken, for writes or for tables, or nothing changes.
    Number,
    /// A write that was logged is applied.
    Write { record: RecordView, writes: Seq<Entry> },
    /// The active memtable is frozen.
    Freeze,
    /// A flush is finished.
    Flush { table: NewTable },
    /// A compaction that was begun at the time `now` is finished.
    Compact { compaction: Compaction, now: u64 },
    /// The database is closed, or its process dies, and it is opened again from its
    /// manifest, its table files and its log.
    Reopen { files: Seq<(u64, Seq<u8>)> },
}

/// The event `e` takes the engine from `v` to `v2`.
pub open spec fn step(v: EngineView, e: Event, v2: EngineView) -> bool {
    match e {
        Event::Number => {
            &&& v2 == (EngineView { next_seq: v2.next_seq, next_sst_id: v2.next_sst_id, ..v })
            &&& v.next_seq <= v2.next_seq
            &&& v.next_sst_id <= v2.next_sst_id
        },
        Event::Write { record, writes } => {
            &&& record.fits()
            &&& writes_of(record) == Ok::<Seq<Entry>, RecordError>(writes)
            &&& forall|i: int| 0 <= i < writes.len() ==> storable(#[trigger] writes[i])
            &&& forall|i: int| 0 <= i < writes.len() ==> seq_of((#[trigger] writes[i]).1) < v.next_seq
            &&& v2 == (EngineView { memtable: v2.memtable, log: v.log.push(record), ..v })
            &&& v2.memtable.wf()
            &&& written(v, writes, v2)
        },
        Event::Freeze => {
            &&& v2 == (EngineView { memtable: v2.memtable, ..v })
            &&& v2.memtable.wf()
            &&& v2.memtable@ == v.memtable@
        },
        Event::Flush { table } => {
            &&& flushes(v, table)
            &&& v2 == (EngineView {
                memtable: v2.memtable,
                levels: with_sst(v.levels, 0, table.meta@),
                tables: place(v.tables, entry_of(table)),
                installed_ids: (table.meta.id + 1) as u64,
                log: put_records(v.memtable.spec_active().entries()),
                ..v
            })
            &&& v2.memtable.wf()
            &&& v2.memtable.spec_immutable() is None
            &&& v2.memtable.spec_active() == v.memtable.spec_active()
        },
        Event::Compact { compaction, now } => {
            &&& compacts(v, compaction, now)
            &&& v2 == compacted(v, compaction)
        },
        Event::Reopen { files } => {
            &&& from_files(v.tables, files)
            &&& match (opened(flattened(v.levels), files), recovered(log_bytes(v.log))) {
                (Ok(tables), Ok(writes)) => opened_state(
                    v2,
                    v.levels,
                    tables,
                    writes,
                    log_bytes(v.log),
                ),
                _ => false,
            }
        },
    }
}

/// A new database is healthy.
pub proof fn new_is_healthy(v: EngineView)
    requires
        v.is_new(),
    ensures
        v.healthy(),
        v.contents() == Map::<Seq<u8>, Seq<u8>>::empty(),
{
    assert(v.tables =~= Seq::<TableEntry>::empty());
    assert(v.log =~= Seq::<RecordView>::empty());
    assert(v.contents() =~= Map::<Seq<u8>, Seq<u8>>::empty());
    assert forall|l: int| #[trigger] at_level(v.levels, l) == listed(v.tables, l) by {
        assert(at_level(v.levels, l) =~= Seq::empty());
        assert(listed(v.tables, l) =~= Seq::empty());
    }
    assert(map_of(Seq::<Entry>::empty()) =~= Map::empty());
}

/// Every step leaves the engine healthy. But for writes it stores the same, and a
/// compaction leaves out nothing that is seen from then on.
pub proof fn step_keeps(v: EngineView, e: Event, v2: EngineView, key: Seq<u8>, later: u64)
    requires
        v.healthy(),
        step(v, e, v2),
        e matches Event::Compact { compaction, now } ==> now <= later,
    ensures
        v2.healthy(),
        seen(v2.contents(), key, later) == match e {
            Event::Write { record, writes } => seen(
                overlay(v.contents(), map_of(writes)),
                key,
                later,
            ),
            _ => seen(v.contents(), key, later),
        },
{
    match e {
        Event::Number => {
            assert(v2.contents() == v.contents());
        },
        Event::Write { record, writes } => {
            write_keeps(v, record, writes, v2);
        },
        Event::Freeze => {
            assert(v2.contents() == v.contents());
        },
        Event::Flush { table } => {
            flush_step_keeps(v, table, v2);
        },
        Event::Compact { compaction, now } => {
            compaction_law(v, compaction);
            assert(compacts(v, compaction, now));
            assert(seen(v2.contents(), key, later) == seen(v.contents(), key, later));
        },
        Event::Reopen { files } => {
            reopen_keeps(v, files, v2);
        },
    }
}

/// Taking numbers leaves the engine healthy.
pub proof fn numbers_keep(v: EngineView, v2: EngineView)
    requires
        step(v, Event::Number, v2),
    ensures
        v.healthy() ==> v2.healthy(),
{
    assert(v2.contents() == v.contents());
}

/// A flush changes nothing that is read.
pub proof fn flush_is_unseen(v: EngineView, table: NewTable, v2: EngineView)
    requires
        v.tidy(),
        v.memtable.wf(),
        step(v, Event::Flush { table }, v2),
    ensures
        v2.tidy(),
        v2.contents() == v.contents(),
        forall|key: Seq<u8>, now: u64| #[trigger] v2.read(key, now) == v.read(key, now),
        v.healthy() ==> v2.healthy(),
{
    flush_law(v, table);
    assert(v2.memtable@ == v.memtable.spec_active()@);
    assert(v2.contents() == v.contents());
    assert forall|key: Seq<u8>, now: u64| #[trigger] v2.read(key, now) == v.read(key, now) by {
        read_is_seen(v, key, now);
        read_is_seen(v2, key, now);
    }
    if v.healthy() {
        flush_step_keeps(v, table, v2);
    }
}

/// A write leaves the engine healthy.
proof fn write_keeps(v: EngineView, record: RecordView, writes: Seq<Entry>, v2: EngineView)
    requires
        v.healthy(),
        step(v, Event::Write { record, writes }, v2),
    ensures
        v2.healthy(),
        v2.contents() == overlay(v.contents(), map_of(writes)),
{
    writes_are_read(v, writes, v2, Seq::empty(), 0);
    logged_push(v.log, v.memtable@, record, writes);
    assert forall|k: Seq<u8>| #[trigger] v2.contents().contains_key(k) implies seq_of(
        v2.contents()[k],
    ) < v2.next_seq && storable((k, v2.contents()[k])) by {
        if map_of(writes).contains_key(k) {
            let j = written_at(writes, k);
            assert(storable(writes[j]));
            assert(seq_of(writes[j].1) < v.next_seq);
        } else {
            assert(v.contents().contains_key(k));
        }
    }
}

/// A flush leaves the engine healthy and stores the same.
proof fn flush_step_keeps(v: EngineView, table: NewTable, v2: EngineView)
    requires
        v.healthy(),
        step(v, Event::Flush { table }, v2),
    ensures
        v2.healthy(),
        v2.contents() == v.contents(),
{
    flush_law(v, table);
    place_keeps_short(v.tables, entry_of(table));
    assert(v2.memtable@ == v.memtable.spec_active()@);
    assert(v2.contents() == v.contents());
    let s = v.memtable.spec_active().entries();
    put_records_replayed(s);
    assert forall|i: int| 0 <= i < put_records(s).len() implies (#[trigger] put_records(
        s,
    )[i]).fits() by {
        let k = s[i].0;
        v.memtable.spec_active().entries_sorted();
        map_of_sorted(s, i);
        assert(v.memtable.spec_active()@.contains_key(k));
        assert(v.memtable@[k] == s[i].1);
        assert(v.contents().contains_key(k));
        assert(storable((k, v.contents()[k])));
    }
}

/// Reopening leaves the engine healthy and stores the same.
proof fn reopen_keeps(v: EngineView, files: Seq<(u64, Seq<u8>)>, v2: EngineView)
    requires
        v.healthy(),
        step(v, Event::Reopen { files }, v2),
    ensures
        v2.healthy(),
        v2.contents() == v.contents(),
        v2.tables == v.tables,
        v2.memtable@ == v.memtable@,
{
    reopened_tables(v.tables, v.levels, files);
    log_roundtrip(v.log);
    assert(v2.tables == v.tables);
    assert(v2.memtable@ == v.memtable@);
    assert(v2.contents() == v.contents());
    assert forall|i: int| 0 <= i < v2.tables.len() implies (#[trigger] v2.tables[i]).0.id
        < v2.installed_ids by {
        next_id_bounds(v2.tables, i);
    }
    assert forall|k: Seq<u8>| #[trigger] v2.contents().contains_key(k) implies seq_of(
        v2.contents()[k],
    ) < v2.next_seq by {
        if v2.next_seq == u64::MAX {
            assert(v.contents().contains_key(k));
        } else {
            assert(v2.numbered());
        }
    }
    assert forall|k: Seq<u8>| #[trigger] v2.contents().contains_key(k) implies storable(
        (k, v2.contents()[k]),
    ) by {
        assert(v.contents().contains_key(k));
    }
}

/// The engine went through `states`, from a new database on, by `events`.
pub open spec fn history(states: Seq<EngineView>, events: Seq<Event>) -> bool {
    &&& states.len() == events.len() + 1
    &&& states[0].is_new()
    &&& forall|i: int|
        #![trigger events[i]]
        0 <= i < events.len() ==> step(states[i], events[i], states[i + 1])
}

/// No compaction was begun after the time `now`.
pub open spec fn compacted_by(events: Seq<Event>, now: u64) -> bool {
    forall|i: int|
        0 <= i < events.len() ==> (#[trigger] events[i] matches Event::Compact {
            compaction,
            now: at,
        } ==> at <= now)
}

/// All writes of a history, in order.
pub open spec fn writes_in(events: Seq<Event>) -> Seq<Entry>
    decreases events.len(),
{
    if events.len() == 0 {
        Seq::empty()
    } else {
        writes_in(events.drop_last()) + match events.last() {
            Event::Write { record, writes } => writes,
            _ => Seq::empty(),
        }
    }
}

/// The front of a history is a history.
proof fn history_front(states: Seq<EngineView>, events: Seq<Event>)
    requires
        history(states, events),
        events.len() > 0,
    ensures
        history(states.drop_last(), events.drop_last()),
        step(states[events.len() - 1], events.last(), states.last()),
{
    let s = states.drop_last();
    let es = events.drop_last();
    assert forall|i: int| #![trigger es[i]] 0 <= i < es.len() implies step(s[i], es[i], s[i + 1]) by {
        assert(step(states[i], events[i], states[i + 1]));
    }
    assert(step(
        states[events.len() - 1],
        events[events.len() - 1],
        states[events.len() - 1 + 1],
    ));
}

/// Whatever was done with a database, be it writes, flushes, compactions or
/// reopenings, it is healthy, and every key reads as the last write of it says: a
/// key that was never written is not found.
pub proof fn history_is_read(
    states: Seq<EngineView>,
    events: Seq<Event>,
    key: Seq<u8>,
    now: u64,
)
    requires
        history(states, events),
        compacted_by(events, now),
    ensures
        states.last().healthy(),
        seen(states.last().contents(), key, now) == seen(map_of(writes_in(events)), key, now),
        states.last().read(key, now) == Ok::<Option<Seq<u8>>, Seq<char>>(
            seen(map_of(writes_in(events)), key, now),
        ),
    decreases events.len(),
{
    if events.len() == 0 {
        new_is_healthy(states[0]);
        assert(map_of(writes_in(events)) =~= Map::empty());
    } else {
        let s = states.drop_last();
        let es = events.drop_last();
        let e = events.last();
        let v = states[events.len() - 1];
        history_front(states, events);
        assert forall|i: int| 0 <= i < es.len() implies (#[trigger] es[i] matches Event::Compact {
            compaction,
            now: at,
        } ==> at <= now) by {
            assert(events[i] == es[i]);
        }
        assert(events[events.len() - 1] == e);
        history_is_read(s, es, key, now);
        assert(s.last() == v);
        step_keeps(v, e, states.last(), key, now);
        match e {
            Event::Write { record, writes } => {
                map_of_append(writes_in(es), writes);
            },
            _ => {
                assert(writes_in(es) + Seq::<Entry>::empty() =~= writes_in(es));
            },
        }
    }
    read_is_seen(states.last(), key, now);
}

/// What is done with a database besides writing to it, flushes, compactions and
/// reopenings among it, changes nothing that is read.
pub proof fn upkeep_is_unseen(
    states: Seq<EngineView>,
    events: Seq<Event>,
    i: int,
    key: Seq<u8>,
    now: u64,
)
    requires
        history(states, events),
        0 <= i < events.len(),
        !(events[i] is Write),
        events[i] matches Event::Compact { compaction, now: at } ==> at <= now,
    ensures
        states[i + 1].read(key, now) == states[i].read(key, now),
{
    assert(step(states[i], events[i], states[i + 1]));
    history_healthy(states, events, i);
    step_keeps(states[i], events[i], states[i + 1], key, now);
    read_is_seen(states[i], key, now);
    read_is_seen(states[i + 1], key, now);
}

/// Every state of a history is healthy.
pub proof fn history_healthy(states: Seq<EngineView>, events: Seq<Event>, i: int)
    requires
        history(states, events),
        0 <= i < states.len(),
    ensures
        states[i].healthy(),
    decreases i,
{
    if i == 0 {
        new_is_healthy(states[0]);
    } else {
        history_healthy(states, events, i - 1);
        assert(step(states[i - 1], events[i - 1], states[i - 1 + 1]));
        step_keeps(states[i - 1], events[i - 1], states[i], Seq::empty(), u64::MAX);
    }
}

/// Whether an event writes a key.
pub open spec fn touches(e: Event, key: Seq<u8>) -> bool {
    match e {
        Event::Write { record, writes } => map_of(writes).contains_key(key),
        _ => false,
    }
}

/// The last write of a key decides what the writes leave behind for it.
proof fn last_write_counts(events: Seq<Event>, i: int, key: Seq<u8>)
    requires
        0 <= i < events.len(),
        touches(events[i], key),
        forall|j: int| i < j < events.len() ==> !touches(#[trigger] events[j], key),
    ensures
        map_of(writes_in(events)).contains_key(key),
        map_of(writes_in(events))[key] == map_of(events[i]->writes)[key],
    decreases events.len(),
{
    let es = events.drop_last();
    let last = match events.last() {
        Event::Write { record, writes } => writes,
        _ => Seq::empty(),
    };
    map_of_append(writes_in(es), last);
    if i < events.len() - 1 {
        assert(!touches(events[events.len() - 1], key));
        assert forall|j: int| i < j < es.len() implies !touches(#[trigger] es[j], key) by {
            assert(events[j] == es[j]);
        }
        last_write_counts(es, i, key);
        assert(!map_of(last).contains_key(key)) by {
            assert(map_of(Seq::<Entry>::empty()) =~= Map::empty());
        }
    }
}

/// The last write of a key, which event `i` makes, is read until the key is written
/// again, whatever is done in between: other writes, flushes, compactions,
/// reopenings.
pub proof fn last_write_is_read(
    states: Seq<EngineView>,
    events: Seq<Event>,
    i: int,
    key: Seq<u8>,
    now: u64,
)
    requires
        history(states, events),
        compacted_by(events, now),
        0 <= i < events.len(),
        touches(events[i], key),
        forall|j: int| i < j < events.len() ==> !touches(#[trigger] events[j], key),
    ensures
        states.last().read(key, now) == Ok::<Option<Seq<u8>>, Seq<char>>(
            shown(map_of(events[i]->writes)[key], now),
        ),
{
    last_write_counts(events, i, key);
    history_is_read(states, events, key, now);
}

/// The event that makes the given writes.
pub open spec fn writing(e: Event, writes: Seq<Entry>) -> bool {
    e is Write && e->writes == writes
}

/// A value that was put is read back until its key is written again.
pub proof fn put_lasts(
    states: Seq<EngineView>,
    events: Seq<Event>,
    i: int,
    key: Seq<u8>,
    value: Seq<u8>,
    seq: u64,
    now: u64,
)
    requires
        history(states, events),
        compacted_by(events, now),
        0 <= i < events.len(),
        writing(events[i], seq![(key, stamped(plain(value), seq))]),
        forall|j: int| i < j < events.len() ==> !touches(#[trigger] events[j], key),
    ensures
        states.last().read(key, now) == Ok::<Option<Seq<u8>>, Seq<char>>(Some(value)),
{
    one_write((key, stamped(plain(value), seq)));
    last_write_is_read(states, events, i, key, now);
    plain_shown(value, seq, now);
}

/// A value that was put at the time `from` with the time-to-live `ttl` is read back
/// until it has lived that long or its key is written again.
pub proof fn put_with_ttl_lasts(
    states: Seq<EngineView>,
    events: Seq<Event>,
    i: int,
    key: Seq<u8>,
    value: Seq<u8>,
    from: u64,
    ttl: u64,
    seq: u64,
    now: u64,
)
    requires
        history(states, events),
        compacted_by(events, now),
        0 <= i < events.len(),
        from + ttl <= u64::MAX,
        writing(events[i], seq![(key, stamped(timed(value, (from + ttl) as u64), seq))]),
        forall|j: int| i < j < events.len() ==> !touches(#[trigger] events[j], key),
    ensures
        states.last().read(key, now) == Ok::<Option<Seq<u8>>, Seq<char>>(
            if now < from + ttl {
                Some(value)
            } else {
                None
            },
        ),
{
    one_write((key, stamped(timed(value, (from + ttl) as u64), seq)));
    last_write_is_read(states, events, i, key, now);
    ttl_shown(value, (from + ttl) as u64, seq, now);
}

/// A key that was deleted is not found until it is written again.
pub proof fn delete_lasts(
    states: Seq<EngineView>,
    events: Seq<Event>,
    i: int,
    key: Seq<u8>,
    seq: u64,
    now: u64,
)
    requires
        history(states, events),
        compacted_by(events, now),
        0 <= i < events.len(),
        writing(events[i], seq![(key, stamped(tombstone(), seq))]),
        forall|j: int| i < j < events.len() ==> !touches(#[trigger] events[j], key),
    ensures
        states.last().read(key, now) == Ok::<Option<Seq<u8>>, Seq<char>>(None),
{
    one_write((key, stamped(tombstone(), seq)));
    last_write_is_read(states, events, i, key, now);
    tombstone_shown(seq, now);
}

/// What a batch asks of a key holds until the key is written again.
pub proof fn batch_lasts(
    states: Seq<EngineView>,
    events: Seq<Event>,
    i: int,
    ops: Seq<OpView>,
    seq: int,
    key: Seq<u8>,
    now: u64,
)
    requires
        history(states, events),
        compacted_by(events, now),
        0 <= i < events.len(),
        0 <= seq,
        seq + ops.len() <= u64::MAX,
        writing(events[i], op_writes(ops, seq)),
        batch_asks(ops, key) is Some,
        forall|j: int| i < j < events.len() ==> !touches(#[trigger] events[j], key),
    ensures
        states.last().read(key, now) == Ok::<Option<Seq<u8>>, Seq<char>>(
            batch_asks(ops, key)->Some_0,
        ),
{
    batch_writes(ops, seq, key, now);
    last_write_is_read(states, events, i, key, now);
}

/// Whatever was done with a database, a scan sees of every key in its range exactly
/// what a lookup finds.
pub proof fn history_scans_agree(
    states: Seq<EngineView>,
    events: Seq<Event>,
    start: Seq<u8>,
    end: Option<Seq<u8>>,
    key: Seq<u8>,
    now: u64,
)
    requires
        history(states, events),
    ensures
        ({
            let v = states.last();
            &&& v.read(key, now) is Ok
            &&& value_of(bounded_map(visible(v.contents(), now), start, end), key)
                == if in_bounds(key, start, end) {
                v.read(key, now)->Ok_0
            } else {
                None
            }
        }),
{
    history_healthy(states, events, states.len() - 1);
    scan_agrees_with_get(states.last(), start, end, key, now);
}

/// Opening what a database left on disk, whatever was done with it, succeeds, is a
/// step of its history, and changes nothing that is read. Its manifest reads back
/// from the manifest file as long as its counts fit their fields.
pub proof fn reopening_succeeds(
    states: Seq<EngineView>,
    events: Seq<Event>,
    files: Seq<(u64, Seq<u8>)>,
    r: crate::error::Result<Engine>,
    key: Seq<u8>,
    now: u64,
)
    requires
        history(states, events),
        from_files(states.last().tables, files),
        opens(r, states.last().levels, files, log_bytes(states.last().log)),
    ensures
        r is Ok,
        step(states.last(), Event::Reopen { files }, r->Ok_0@),
        r->Ok_0@.read(key, now) == states.last().read(key, now),
        counts_fit(states.last().levels) ==> parse_manifest(
            manifest_bytes(states.last().levels),
        ) == Ok::<(Seq<Seq<MetaView>>, int), Seq<char>>(
            (states.last().levels, manifest_bytes(states.last().levels).len() as int),
        ),
{
    let v = states.last();
    history_healthy(states, events, states.len() - 1);
    reopened_tables(v.tables, v.levels, files);
    log_roundtrip(v.log);
    reopen_keeps(v, files, r->Ok_0@);
    read_is_seen(v, key, now);
    read_is_seen(r->Ok_0@, key, now);
    if counts_fit(v.levels) {
        reopen_restores(v, files);
    }
}

/// A database opens only if all that it consists of can be read: a table file that
/// cannot be, or a log that holds a damaged record, keeps it from opening.
pub proof fn damage_keeps_from_opening(
    r: crate::error::Result<Engine>,
    levels: Seq<Seq<MetaView>>,
    files: Seq<(u64, Seq<u8>)>,
    log: Seq<u8>,
)
    requires
        opens(r, levels, files, log),
    ensures
        r is Ok <==> opened(flattened(levels), files) is Ok && recovered(log) is Ok,
        r is Ok ==> r->Ok_0@.tables == opened(flattened(levels), files)->Ok_0 && r->Ok_0@.levels
            == levels && r->Ok_0@.memtable@ == map_of(recovered(log)->Ok_0),
{
}

/// After opening, writes are numbered on from the highest number in the log and in
/// the tables, and tables from the highest number of a table.
pub proof fn numbering_goes_on(
    v: EngineView,
    levels: Seq<Seq<MetaView>>,
    tables: Seq<TableEntry>,
    writes: Seq<Entry>,
    log: Seq<u8>,
)
    requires
        opened_state(v, levels, tables, writes, log),
    ensures
        forall|i: int|
            0 <= i < writes.len() ==> seq_of((#[trigger] writes[i]).1) < v.next_seq || v.next_seq
                == u64::MAX,
        forall|t: int, i: int|
            0 <= t < tables.len() && 0 <= i < tables[t].1.entries().len() ==> seq_of(
                (#[trigger] tables[t].1.entries()[i]).1,
            ) < v.next_seq || v.next_seq == u64::MAX,
        v.next_seq == 1 || v.next_seq == u64::MAX || (exists|i: int|
            0 <= i < writes.len() && seq_of((#[trigger] writes[i]).1) + 1 == v.next_seq) || (exists|
            t: int,
            i: int,
        |
            0 <= t < tables.len() && 0 <= i < tables[t].1.entries().len() && seq_of(
                (#[trigger] tables[t].1.entries()[i]).1,
            ) + 1 == v.next_seq),
        forall|t: int| 0 <= t < tables.len() ==> (#[trigger] tables[t]).0.id < v.next_sst_id,
        v.next_sst_id == 1 || exists|t: int|
            0 <= t < tables.len() && (#[trigger] tables[t]).0.id + 1 == v.next_sst_id,
{
    max_seq_is_highest(writes);
    tables_max_seq_is_highest(tables);
    next_id_follows_highest(tables);
    assert forall|t: int| 0 <= t < tables.len() implies (#[trigger] tables[t]).0.id
        < v.next_sst_id by {
        next_id_bounds(tables, t);
    }
}

} // verus!
