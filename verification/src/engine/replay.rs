//! What the engine writes to its log, and what it makes of a log again.

use vstd::prelude::*;

use crate::bytes::{copy_bytes, le_bytes, le_value};
use crate::engine::value::{
    decode_with_seq, encode_plain, encode_tombstone, encode_with_seq, plain, seq_of, stamped,
    tombstone, tombstone_shown,
};
use crate::entries::{map_of, map_of_append, overlay, pairs, Entry};
use crate::error::{corruption, Result};
use crate::memtable::memtable::{MemTable, MAX_LEVEL};
use crate::memtable::skiplist::{insert_all_append, ListShape};
use crate::wal::record::{crc32_of, reports, OpType, Record, RecordError, RecordView};
use crate::wal::writer::{
    all_fit, damaged_record_is_reported, log_bytes, log_roundtrip, read_log, WALReader, WALWriter,
};
use crate::write_batch::{op_views, BatchOp, OpView};

verus! {

/// The record that writes a stored value.
pub open spec fn put_record(key: Seq<u8>, stored: Seq<u8>) -> RecordView {
    RecordView { op: OpType::Put, key, value: stored }
}

/// The record that deletes a key.
pub open spec fn delete_record(key: Seq<u8>, seq: u64) -> RecordView {
    RecordView { op: OpType::Delete, key, value: stamped(tombstone(), seq) }
}

/// The record of an operation of a batch.
pub open spec fn op_record(op: OpView, seq: u64) -> RecordView {
    match op.1 {
        Some(value) => put_record(op.0, stamped(plain(value), seq)),
        None => delete_record(op.0, seq),
    }
}

/// The write that an operation of a batch comes to.
pub open spec fn op_write(op: OpView, seq: u64) -> Entry {
    match op.1 {
        Some(value) => (op.0, stamped(plain(value), seq)),
        None => (op.0, stamped(tombstone(), seq)),
    }
}

/// The records of the operations of a batch, numbered from `seq` on.
pub open spec fn op_records(ops: Seq<OpView>, seq: int) -> Seq<RecordView> {
    Seq::new(ops.len(), |i: int| op_record(ops[i], (seq + i) as u64))
}

/// The writes that a batch comes to, numbered from `seq` on.
pub open spec fn op_writes(ops: Seq<OpView>, seq: int) -> Seq<Entry> {
    Seq::new(ops.len(), |i: int| op_write(ops[i], (seq + i) as u64))
}

/// The record of a batch.
pub open spec fn batch_record(ops: Seq<OpView>, seq: int) -> RecordView {
    RecordView {
        op: OpType::Batch,
        key: Seq::empty(),
        value: log_bytes(op_records(ops, seq)),
    }
}

/// The write that a record of a single operation stands for.
pub open spec fn single_write(r: RecordView) -> Option<Entry> {
    match r.op {
        OpType::Put => Some((r.key, r.value)),
        OpType::Delete => Some((r.key, stamped(tombstone(), seq_of(r.value)))),
        OpType::Batch => None,
    }
}

/// The writes that the records of a batch stand for.
pub open spec fn single_writes(records: Seq<RecordView>) -> std::result::Result<
    Seq<Entry>,
    RecordError,
>
    decreases records.len(),
{
    if records.len() == 0 {
        Ok(Seq::empty())
    } else {
        match (single_writes(records.drop_last()), single_write(records.last())) {
            (Err(x), _) => Err(x),
            (Ok(writes), Some(w)) => Ok(writes.push(w)),
            (Ok(writes), None) => Err(RecordError::Corrupt("nested batch record"@)),
        }
    }
}

/// The writes that a record stands for.
pub open spec fn writes_of(r: RecordView) -> std::result::Result<Seq<Entry>, RecordError> {
    if r.op == OpType::Batch {
        match (single_writes(read_log(r.value, 0).0), read_log(r.value, 0).1) {
            (Err(x), _) => Err(x),
            (Ok(writes), Some(x)) => Err(x),
            (Ok(writes), None) => Ok(writes),
        }
    } else {
        Ok(seq![single_write(r)->Some_0])
    }
}

/// The writes that a list of records stands for.
pub open spec fn replayed(records: Seq<RecordView>) -> std::result::Result<
    Seq<Entry>,
    RecordError,
>
    decreases records.len(),
{
    if records.len() == 0 {
        Ok(Seq::empty())
    } else {
        match (replayed(records.drop_last()), writes_of(records.last())) {
            (Err(x), _) => Err(x),
            (Ok(writes), Err(x)) => Err(x),
            (Ok(writes), Ok(more)) => Ok(writes + more),
        }
    }
}

/// The writes that a log stands for, or what is wrong with it.
pub open spec fn recovered(data: Seq<u8>) -> std::result::Result<Seq<Entry>, RecordError> {
    match (replayed(read_log(data, 0).0), read_log(data, 0).1) {
        (Err(x), _) => Err(x),
        (Ok(writes), Some(x)) => Err(x),
        (Ok(writes), None) => Ok(writes),
    }
}

/// A record of a write stands for its key with its value, one of a deletion for its
/// key with a tombstone of the same number, and one of a batch for what its records
/// stand for, in order. A batch in a batch stands for nothing.
pub proof fn record_stands_for_its_writes(
    key: Seq<u8>,
    value: Seq<u8>,
    records: Seq<RecordView>,
    r: RecordView,
)
    ensures
        writes_of(RecordView { op: OpType::Put, key, value }) == Ok::<Seq<Entry>, RecordError>(
            seq![(key, value)],
        ),
        writes_of(RecordView { op: OpType::Delete, key, value }) == Ok::<Seq<Entry>, RecordError>(
            seq![(key, stamped(tombstone(), seq_of(value)))],
        ),
        single_writes(Seq::empty()) == Ok::<Seq<Entry>, RecordError>(Seq::empty()),
        single_writes(records) is Ok && r.op != OpType::Batch ==> single_writes(records.push(r))
            == Ok::<Seq<Entry>, RecordError>(
            single_writes(records)->Ok_0 + writes_of(r)->Ok_0,
        ),
        r.op == OpType::Batch || single_writes(records) is Err ==> single_writes(
            records.push(r),
        ) is Err,
        all_fit(records) ==> writes_of(
            RecordView { op: OpType::Batch, key, value: log_bytes(records) },
        ) == single_writes(records),
{
    assert(records.push(r).drop_last() =~= records);
    if single_writes(records) is Ok && r.op != OpType::Batch {
        let s = single_writes(records)->Ok_0;
        assert(s.push(single_write(r)->Some_0) =~= s + seq![single_write(r)->Some_0]);
    }
    if all_fit(records) {
        log_roundtrip(records);
    }
}

/// No log that holds a record with a wrong checksum, of whatever length and
/// wherever it stands, is replayed.
pub proof fn damaged_log_is_refused(records: Seq<RecordView>, buf: Seq<u8>, rest: Seq<u8>)
    requires
        all_fit(records),
        13 <= buf.len() <= 0xffff_ffff,
        buf.take(4) != le_bytes(crc32_of(buf.skip(4)) as nat, 4),
    ensures
        recovered(log_bytes(records) + (le_bytes(buf.len(), 4) + buf + rest)) is Err,
        replayed(records) is Ok ==> recovered(
            log_bytes(records) + (le_bytes(buf.len(), 4) + buf + rest),
        ) == Err::<Seq<Entry>, RecordError>(
            RecordError::Mismatch(le_value(buf.take(4)) as u32, crc32_of(buf.skip(4))),
        ),
{
    damaged_record_is_reported(records, buf, rest);
}

/// The highest sequence number among the writes; 0 if there is none.
pub open spec fn max_seq(s: Seq<Entry>) -> u64
    decreases s.len(),
{
    if s.len() == 0 {
        0
    } else if max_seq(s.drop_last()) < seq_of(s.last().1) {
        seq_of(s.last().1)
    } else {
        max_seq(s.drop_last())
    }
}

/// Every write is numbered at most `max_seq`.
pub proof fn max_seq_bounds(s: Seq<Entry>, i: int)
    requires
        0 <= i < s.len(),
    ensures
        seq_of(s[i].1) <= max_seq(s),
    decreases s.len(),
{
    if i < s.len() - 1 {
        max_seq_bounds(s.drop_last(), i);
    }
}

/// The highest number among writes is that of one of them, or 0, and no write has a
/// higher one.
pub proof fn max_seq_is_highest(s: Seq<Entry>)
    ensures
        forall|i: int| 0 <= i < s.len() ==> seq_of((#[trigger] s[i]).1) <= max_seq(s),
        max_seq(s) == 0 || exists|i: int|
            0 <= i < s.len() && seq_of((#[trigger] s[i]).1) == max_seq(s),
    decreases s.len(),
{
    if s.len() > 0 {
        let front = s.drop_last();
        max_seq_is_highest(front);
        assert(s[s.len() - 1] == s.last());
        assert forall|i: int| 0 <= i < s.len() implies seq_of((#[trigger] s[i]).1) <= max_seq(s) by {
            if i < front.len() {
                assert(front[i] == s[i]);
            }
        }
        if max_seq(s) != 0 && max_seq(s) == max_seq(front) {
            let i = choose|i: int|
                0 <= i < front.len() && seq_of((#[trigger] front[i]).1) == max_seq(front);
            assert(s[i] == front[i]);
        }
    }
}

/// The highest number of two lists of writes.
pub proof fn max_seq_append(a: Seq<Entry>, b: Seq<Entry>)
    ensures
        max_seq(a + b) == if max_seq(a) < max_seq(b) {
            max_seq(b)
        } else {
            max_seq(a)
        },
    decreases b.len(),
{
    if b.len() == 0 {
        assert(a + b =~= a);
    } else {
        max_seq_append(a, b.drop_last());
        assert((a + b).drop_last() =~= a + b.drop_last());
    }
}

/// The records of single operations stand for their writes.
proof fn single_writes_of_ops(ops: Seq<OpView>, seq: int)
    requires
        0 <= seq,
        seq + ops.len() <= u64::MAX,
    ensures
        single_writes(op_records(ops, seq)) == Ok::<Seq<Entry>, RecordError>(op_writes(ops, seq)),
    decreases ops.len(),
{
    let records = op_records(ops, seq);
    let writes = op_writes(ops, seq);
    if ops.len() == 0 {
        assert(writes =~= Seq::empty());
    } else {
        let front = ops.drop_last();
        single_writes_of_ops(front, seq);
        assert(records.drop_last() =~= op_records(front, seq));
        assert(writes =~= op_writes(front, seq).push(writes.last()));
        tombstone_shown((seq + ops.len() - 1) as u64, 0);
    }
}

/// A log that holds one more record stands for its writes as well.
pub proof fn replayed_push(records: Seq<RecordView>, r: RecordView)
    ensures
        replayed(records.push(r)) == match (replayed(records), writes_of(r)) {
            (Err(x), _) => Err(x),
            (Ok(writes), Err(x)) => Err(x),
            (Ok(writes), Ok(more)) => Ok(writes + more),
        },
{
    assert(records.push(r).drop_last() =~= records);
}

/// A batch is recovered as exactly its writes: all of them, in order.
pub proof fn batch_recovered(ops: Seq<OpView>, seq: int)
    requires
        0 <= seq,
        seq + ops.len() <= u64::MAX,
        all_fit(op_records(ops, seq)),
    ensures
        writes_of(batch_record(ops, seq)) == Ok::<Seq<Entry>, RecordError>(op_writes(ops, seq)),
{
    log_roundtrip(op_records(ops, seq));
    single_writes_of_ops(ops, seq);
}

/// A record that does not fit leaves the replay as it is.
proof fn replayed_error_stays(records: Seq<RecordView>, n: int)
    requires
        0 <= n <= records.len(),
        replayed(records.take(n)) is Err,
    ensures
        replayed(records) == replayed(records.take(n)),
    decreases records.len() - n,
{
    if n == records.len() {
        assert(records.take(n) =~= records);
    } else {
        let front = records.drop_last();
        assert(front.take(n) =~= records.take(n));
        replayed_error_stays(front, n);
    }
}

/// A nested batch leaves the batch unusable.
proof fn single_writes_error_stays(records: Seq<RecordView>, n: int)
    requires
        0 <= n <= records.len(),
        single_writes(records.take(n)) is Err,
    ensures
        single_writes(records) == single_writes(records.take(n)),
    decreases records.len() - n,
{
    if n == records.len() {
        assert(records.take(n) =~= records);
    } else {
        let front = records.drop_last();
        assert(front.take(n) =~= records.take(n));
        single_writes_error_stays(front, n);
    }
}

/// The record and the stored value of an operation.
pub fn record_of_op(op: &BatchOp, seq: u64) -> (r: (Record, Vec<u8>, Vec<u8>))
    ensures
        r.0@ == op_record(op@, seq),
        (r.1@, r.2@) == op_write(op@, seq),
{
    match op {
        BatchOp::Put { key, value } => {
            let stored = encode_with_seq(encode_plain(value.as_slice()).as_slice(), seq);
            let record = Record {
                op: OpType::Put,
                key: copy_bytes(key.as_slice()),
                value: copy_bytes(stored.as_slice()),
            };
            (record, copy_bytes(key.as_slice()), stored)
        },
        BatchOp::Delete { key } => {
            let stored = encode_with_seq(encode_tombstone().as_slice(), seq);
            let record = Record {
                op: OpType::Delete,
                key: copy_bytes(key.as_slice()),
                value: copy_bytes(stored.as_slice()),
            };
            (record, copy_bytes(key.as_slice()), stored)
        },
    }
}

/// The record of a batch and the writes that it comes to, numbered from `seq`
/// on.
pub fn record_of_batch(ops: &[BatchOp], seq: u64) -> (r: (Record, Vec<(Vec<u8>, Vec<u8>)>))
    requires
        seq + ops@.len() <= u64::MAX,
    ensures
        r.0@ == batch_record(op_views(ops@), seq as int),
        pairs(r.1@) == op_writes(op_views(ops@), seq as int),
{
    let ghost views = op_views(ops@);
    let ghost records = op_records(views, seq as int);
    let mut log = WALWriter::open();
    let mut writes: Vec<(Vec<u8>, Vec<u8>)> = Vec::new();
    let mut i: usize = 0;
    assert(records.take(0) =~= Seq::empty());
    while i < ops.len()
        invariant
            i <= ops@.len(),
            seq + ops@.len() <= u64::MAX,
            views == op_views(ops@),
            records == op_records(views, seq as int),
            log@ == log_bytes(records.take(i as int)),
            writes@.len() == i,
            forall|j: int|
                0 <= j < i ==> (#[trigger] pairs(writes@)[j]) == op_write(
                    views[j],
                    (seq + j) as u64,
                ),
        decreases ops@.len() - i,
    {
        let (record, key, stored) = record_of_op(&ops[i], seq + i as u64);
        let _ = log.append_record(&record);
        let ghost before = writes@;
        writes.push((key, stored));
        proof {
            let upto = records.take(i + 1);
            assert(upto.drop_last() =~= records.take(i as int));
            assert(upto.last() == records[i as int]);
            assert forall|j: int| 0 <= j < i + 1 implies (#[trigger] pairs(writes@)[j])
                == op_write(views[j], (seq + j) as u64) by {
                if j < i {
                    assert(pairs(before)[j] == op_write(views[j], (seq + j) as u64));
                }
            }
        }
        i = i + 1;
    }
    assert(records.take(i as int) =~= records);
    assert(pairs(writes@) =~= op_writes(views, seq as int));
    let value = log.flush();
    let key: Vec<u8> = Vec::new();
    assert(key@ =~= Seq::empty());
    (Record { op: OpType::Batch, key, value }, writes)
}

/// Apply a record of a single operation to a memtable, and tell its number.
fn apply_single(memtable: &mut MemTable, record: &Record) -> (r: Result<u64>)
    requires
        old(memtable).wf(),
    ensures
        final(memtable).wf(),
        final(memtable).spec_max_size() == old(memtable).spec_max_size(),
        final(memtable).spec_immutable() == old(memtable).spec_immutable(),
        match (r, single_write(record@)) {
            (Ok(seq), Some(w)) => {
                &&& seq == seq_of(w.1)
                &&& final(memtable)@ == old(memtable)@.insert(w.0, w.1)
                &&& final(memtable).spec_active().shape() == old(
                    memtable,
                ).spec_active().shape().insert(w.0, w.1)
            },
            (Err(e), None) => reports(e, RecordError::Corrupt("nested batch record"@)),
            _ => false,
        },
{
    let (_, seq) = decode_with_seq(record.value.as_slice());
    match record.op {
        OpType::Put => {
            memtable.put_no_freeze(record.key.as_slice(), record.value.as_slice());
            Ok(seq)
        },
        OpType::Delete => {
            let stored = encode_with_seq(encode_tombstone().as_slice(), seq);
            proof {
                tombstone_shown(seq, 0);
            }
            memtable.put_no_freeze(record.key.as_slice(), stored.as_slice());
            Ok(seq)
        },
        OpType::Batch => Err(corruption("nested batch record")),
    }
}

/// What a list of writes leaves behind once one more is made.
proof fn map_of_push(s: Seq<Entry>, w: Entry)
    ensures
        map_of(s.push(w)) == map_of(s).insert(w.0, w.1),
        max_seq(s.push(w)) == if max_seq(s) < seq_of(w.1) {
            seq_of(w.1)
        } else {
            max_seq(s)
        },
{
    assert(s.push(w).drop_last() =~= s);
}

/// Apply the records of a batch to a memtable, and tell the highest number.
fn apply_batch(memtable: &mut MemTable, value: &[u8]) -> (r: Result<u64>)
    requires
        old(memtable).wf(),
    ensures
        final(memtable).wf(),
        final(memtable).spec_max_size() == old(memtable).spec_max_size(),
        final(memtable).spec_immutable() == old(memtable).spec_immutable(),
        match (r, writes_of(RecordView { op: OpType::Batch, key: Seq::empty(), value: value@ })) {
            (Ok(seq), Ok(writes)) => {
                &&& seq == max_seq(writes)
                &&& final(memtable)@ == overlay(old(memtable)@, map_of(writes))
                &&& final(memtable).spec_active().shape() == old(
                    memtable,
                ).spec_active().shape().insert_all(writes)
            },
            (Err(e), Err(x)) => reports(e, x),
            _ => false,
        },
{
    let ghost log = read_log(value@, 0);
    let ghost start = memtable@;
    let ghost shape = memtable.spec_active().shape();
    let mut reader = WALReader::open(copy_bytes(value));
    let mut highest: u64 = 0;
    let ghost mut n: int = 0;
    let ghost mut writes: Seq<Entry> = Seq::empty();
    assert(log.0.take(0) =~= Seq::empty());
    assert(log.0.skip(0) =~= log.0);
    assert(overlay(start, map_of(writes)) =~= start);
    loop
        invariant
            reader.wf(),
            memtable.wf(),
            memtable.spec_max_size() == old(memtable).spec_max_size(),
            memtable.spec_immutable() == old(memtable).spec_immutable(),
            start == old(memtable)@,
            shape == old(memtable).spec_active().shape(),
            memtable.spec_active().shape() == shape.insert_all(writes),
            log == read_log(value@, 0),
            0 <= n <= log.0.len(),
            reader.remaining().0 == log.0.skip(n),
            reader.remaining().1 == log.1,
            single_writes(log.0.take(n)) == Ok::<Seq<Entry>, RecordError>(writes),
            memtable@ == overlay(start, map_of(writes)),
            highest == max_seq(writes),
        ensures
            log.1 is None,
            single_writes(log.0) == Ok::<Seq<Entry>, RecordError>(writes),
            memtable@ == overlay(start, map_of(writes)),
            highest == max_seq(writes),
            memtable.wf(),
            memtable.spec_max_size() == old(memtable).spec_max_size(),
            memtable.spec_immutable() == old(memtable).spec_immutable(),
            start == old(memtable)@,
            shape == old(memtable).spec_active().shape(),
            memtable.spec_active().shape() == shape.insert_all(writes),
            log == read_log(value@, 0),
        decreases log.0.len() - n,
    {
        match reader.next() {
            None => {
                assert(log.0.take(n) =~= log.0);
                break;
            },
            Some(Err(e)) => {
                assert(log.0.take(n) =~= log.0);
                return Err(e);
            },
            Some(Ok(record)) => {
                proof {
                    assert(record@ == log.0[n]);
                    assert(log.0.take(n + 1).drop_last() =~= log.0.take(n));
                    assert(log.0.take(n + 1).last() == log.0[n]);
                    assert(log.0.skip(n).drop_first() =~= log.0.skip(n + 1));
                }
                let ghost before = memtable@;
                match apply_single(memtable, &record) {
                    Err(e) => {
                        proof {
                            single_writes_error_stays(log.0, n + 1);
                        }
                        return Err(e);
                    },
                    Ok(seq) => {
                        if highest < seq {
                            highest = seq;
                        }
                        proof {
                            let w = single_write(record@)->Some_0;
                            map_of_push(writes, w);
                            assert(before.insert(w.0, w.1) =~= overlay(
                                start,
                                map_of(writes.push(w)),
                            ));
                            assert(writes.push(w).drop_last() =~= writes);
                            writes = writes.push(w);
                            n = n + 1;
                        }
                    },
                }
            },
        }
    }
    Ok(highest)
}

/// Replay a log into a fresh memtable, which does not freeze in between, and
/// tell the highest sequence number in it.
pub fn replay_wal(data: Vec<u8>, memtable_size: usize) -> (r: Result<(MemTable, u64)>)
    ensures
        match (r, recovered(data@)) {
            (Ok((memtable, seq)), Ok(writes)) => {
                &&& memtable.wf()
                &&& memtable@ == map_of(writes)
                &&& memtable.spec_immutable() is None
                &&& memtable.spec_active().shape() == ListShape::fresh(MAX_LEVEL).insert_all(writes)
                &&& memtable.spec_max_size() == memtable_size
                &&& seq == max_seq(writes)
            },
            (Err(e), Err(x)) => reports(e, x),
            _ => false,
        },
{
    let ghost log = read_log(data@, 0);
    let mut memtable = MemTable::with_max_size(memtable_size);
    let mut reader = WALReader::open(data);
    let mut highest: u64 = 0;
    let ghost mut n: int = 0;
    let ghost mut writes: Seq<Entry> = Seq::empty();
    assert(log.0.take(0) =~= Seq::empty());
    assert(log.0.skip(0) =~= log.0);
    loop
        invariant
            reader.wf(),
            memtable.wf(),
            memtable.spec_immutable() is None,
            memtable.spec_max_size() == memtable_size,
            log == read_log(data@, 0),
            0 <= n <= log.0.len(),
            reader.remaining().0 == log.0.skip(n),
            reader.remaining().1 == log.1,
            replayed(log.0.take(n)) == Ok::<Seq<Entry>, RecordError>(writes),
            memtable@ == map_of(writes),
            memtable.spec_active().shape() == ListShape::fresh(MAX_LEVEL).insert_all(writes),
            highest == max_seq(writes),
        ensures
            memtable.wf(),
            memtable.spec_immutable() is None,
            memtable.spec_max_size() == memtable_size,
            log == read_log(data@, 0),
            log.1 is None,
            replayed(log.0) == Ok::<Seq<Entry>, RecordError>(writes),
            memtable@ == map_of(writes),
            memtable.spec_active().shape() == ListShape::fresh(MAX_LEVEL).insert_all(writes),
            highest == max_seq(writes),
        decreases log.0.len() - n,
    {
        match reader.next() {
            None => {
                assert(log.0.take(n) =~= log.0);
                break;
            },
            Some(Err(e)) => {
                assert(log.0.take(n) =~= log.0);
                return Err(e);
            },
            Some(Ok(record)) => {
                proof {
                    assert(record@ == log.0[n]);
                    assert(log.0.take(n + 1).drop_last() =~= log.0.take(n));
                    assert(log.0.take(n + 1).last() == log.0[n]);
                    assert(log.0.skip(n).drop_first() =~= log.0.skip(n + 1));
                }
                let is_batch = match record.op {
                    OpType::Batch => true,
                    _ => false,
                };
                let outcome = if is_batch {
                    apply_batch(&mut memtable, record.value.as_slice())
                } else {
                    apply_single(&mut memtable, &record)
                };
                match outcome {
                    Err(e) => {
                        proof {
                            replayed_error_stays(log.0, n + 1);
                        }
                        return Err(e);
                    },
                    Ok(seq) => {
                        if highest < seq {
                            highest = seq;
                        }
                        proof {
                            let more = writes_of(record@)->Ok_0;
                            map_of_append(writes, more);
                            max_seq_append(writes, more);
                            insert_all_append(ListShape::fresh(MAX_LEVEL), writes, more);
                            if !is_batch {
                                let w = single_write(record@)->Some_0;
                                map_of_push(Seq::empty(), w);
                                assert(Seq::<Entry>::empty().push(w) =~= seq![w]);
                                assert((writes + more).drop_last() =~= writes);
                                assert(memtable@ =~= map_of(writes + more));
                            }
                            writes = writes + more;
                            n = n + 1;
                        }
                    },
                }
            },
        }
    }
    Ok((memtable, highest))
}

} // verus!
