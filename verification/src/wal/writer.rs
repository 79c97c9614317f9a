//! WAL writer and reader.
//!
//! `WALWriter` collects the bytes of key-value records that are to be appended
//! to a log file. `WALReader` reads all records of a log, and stops at
//! corruption or truncation, as recovery from a crash needs it.

use vstd::prelude::*;

use crate::bytes::{append_bytes, copy_bytes, le_bounds, le_bytes, le_value};
use crate::bytes::{le_value_of_le_bytes, read_u32};
use crate::error::Result;
use crate::wal::record::{
    checksum_is_compared, crc32_of, parse_record, record_roundtrip, reports, OpType, Record,
    RecordError, RecordView,
};

verus! {

/// The bytes of a list of records.
pub open spec fn log_bytes(records: Seq<RecordView>) -> Seq<u8>
    decreases records.len(),
{
    if records.len() == 0 {
        Seq::empty()
    } else {
        log_bytes(records.drop_last()) + records.last().bytes()
    }
}

/// What reading one record from a log comes to.
pub enum Step {
    /// The log ends, or ends within the record.
    End,
    /// A record, and where it ends.
    Record(RecordView, int),
    /// A record that cannot be used.
    Fail(RecordError),
}

/// Read the record at `pos`.
pub open spec fn read_step(data: Seq<u8>, pos: int) -> Step {
    let len = le_value(data.subrange(pos, pos + 4)) as int;
    let buf = data.subrange(pos + 4, pos + 4 + len);
    if data.len() < pos + 4 || data.len() < pos + 4 + len {
        Step::End
    } else {
        match parse_record(buf, crc32_of(buf.skip(4))) {
            Ok(r) => Step::Record(r, pos + 4 + len),
            Err(x) => Step::Fail(x),
        }
    }
}

/// Read a log from `pos` on: the records up to the end or to the first one that
/// cannot be used, and in the latter case what is wrong with it.
pub open spec fn read_log(data: Seq<u8>, pos: int) -> (Seq<RecordView>, Option<RecordError>)
    decreases data.len() - pos,
{
    match read_step(data, pos) {
        Step::End => (Seq::empty(), None),
        Step::Fail(x) => (Seq::empty(), Some(x)),
        Step::Record(r, next) => {
            let rest = read_log(data, next);
            (seq![r] + rest.0, rest.1)
        },
    }
}

/// Where the records of a log from `pos` on end: behind the last that is whole
/// and can be used.
pub open spec fn log_end(data: Seq<u8>, pos: int) -> int
    decreases data.len() - pos,
{
    match read_step(data, pos) {
        Step::Record(_, next) => log_end(data, next),
        _ => pos,
    }
}

/// How many records, from the front, have all their bytes among the first `n`.
pub open spec fn whole_records(records: Seq<RecordView>, n: int) -> int
    decreases records.len(),
{
    if records.len() == 0 {
        0
    } else if log_bytes(records).len() <= n {
        records.len() as int
    } else {
        whole_records(records.drop_last(), n)
    }
}

/// All records fit the log.
pub open spec fn all_fit(records: Seq<RecordView>) -> bool {
    forall|i: int| 0 <= i < records.len() ==> (#[trigger] records[i]).fits()
}

/// The first records of a log stand at its front.
proof fn log_bytes_prefix(records: Seq<RecordView>, i: int)
    requires
        0 <= i < records.len(),
    ensures
        log_bytes(records.take(i + 1)) == log_bytes(records.take(i)) + records[i].bytes(),
        log_bytes(records.take(i + 1)).len() <= log_bytes(records).len(),
        log_bytes(records).take(log_bytes(records.take(i + 1)).len() as int) == log_bytes(
            records.take(i + 1),
        ),
    decreases records.len() - i,
{
    let upto = records.take(i + 1);
    assert(upto.drop_last() =~= records.take(i));
    if i + 1 == records.len() {
        assert(upto =~= records);
        assert(log_bytes(records).take(log_bytes(records).len() as int) =~= log_bytes(records));
    } else {
        log_bytes_prefix(records, i + 1);
        let n = log_bytes(upto).len() as int;
        let next = log_bytes(records.take(i + 2));
        assert(log_bytes(records).take(n) =~= log_bytes(records).take(next.len() as int).take(n));
        assert(next.take(n) =~= log_bytes(upto));
    }
}

/// What the number of whole records means.
pub proof fn whole_records_bounds(records: Seq<RecordView>, n: int)
    requires
        0 <= n,
    ensures
        0 <= whole_records(records, n) <= records.len(),
        log_bytes(records.take(whole_records(records, n))).len() <= n,
        whole_records(records, n) < records.len() ==> n < log_bytes(
            records.take(whole_records(records, n) + 1),
        ).len(),
    decreases records.len(),
{
    if records.len() == 0 {
        assert(records.take(0) =~= records);
    } else if log_bytes(records).len() <= n {
        assert(records.take(records.len() as int) =~= records);
    } else {
        let front = records.drop_last();
        whole_records_bounds(front, n);
        let k = whole_records(front, n);
        assert(front.take(k) =~= records.take(k));
        if k < front.len() {
            assert(front.take(k + 1) =~= records.take(k + 1));
        } else {
            assert(records.take(k + 1) =~= records);
        }
    }
}

/// A record whose bytes are all there reads back.
proof fn read_whole_record(data: Seq<u8>, pos: int, r: RecordView)
    requires
        r.fits(),
        0 <= pos,
        pos + r.bytes().len() <= data.len(),
        data.subrange(pos, pos + r.bytes().len()) == r.bytes(),
    ensures
        read_step(data, pos) == Step::Record(r, (pos + r.bytes().len()) as int),
{
    let b = r.bytes();
    record_roundtrip(r, crc32_of(r.payload()));
    assert(data.subrange(pos, pos + 4) =~= b.subrange(0, 4));
    assert(data.subrange(pos + 4, pos + b.len()) =~= b.skip(4));
}

/// A record of which bytes are missing ends the log.
proof fn read_cut_record(data: Seq<u8>, pos: int, r: RecordView)
    requires
        r.fits(),
        0 <= pos <= data.len() < pos + r.bytes().len(),
        data.skip(pos) == r.bytes().take(data.len() - pos),
    ensures
        read_step(data, pos) == Step::End,
{
    let b = r.bytes();
    record_roundtrip(r, crc32_of(r.payload()));
    if pos + 4 <= data.len() {
        assert(data.subrange(pos, pos + 4) =~= data.skip(pos).take(4));
        assert(b.take(data.len() - pos).take(4) =~= b.subrange(0, 4));
    }
}

/// Where record `i` stands in a log that was cut off after `n` bytes.
proof fn record_in_cut_log(records: Seq<RecordView>, n: int, i: int)
    requires
        0 <= n <= log_bytes(records).len(),
        0 <= i < records.len(),
        log_bytes(records.take(i)).len() <= n,
    ensures
        ({
            let data = log_bytes(records).take(n);
            let pos = log_bytes(records.take(i)).len() as int;
            let end = log_bytes(records.take(i + 1)).len() as int;
            &&& end == pos + records[i].bytes().len()
            &&& end <= n ==> data.subrange(pos, end) == records[i].bytes()
            &&& n < end ==> data.skip(pos) == records[i].bytes().take(n - pos)
        }),
{
    let data = log_bytes(records).take(n);
    let pos = log_bytes(records.take(i)).len() as int;
    let next = log_bytes(records.take(i + 1));
    let end = next.len() as int;
    log_bytes_prefix(records, i);
    assert(next.subrange(pos, end) =~= records[i].bytes());
    if end <= n {
        assert(data.subrange(pos, end) =~= log_bytes(records).take(end).subrange(pos, end));
    } else {
        assert(data.skip(pos) =~= log_bytes(records).take(end).subrange(pos, n));
        assert(next.subrange(pos, n) =~= records[i].bytes().take(n - pos));
    }
}

/// The records that are whole end within the first `n` bytes, one by one.
proof fn whole_record_ends(records: Seq<RecordView>, n: int, i: int)
    requires
        0 <= n,
        0 <= i <= whole_records(records, n),
    ensures
        log_bytes(records.take(i)).len() <= n,
{
    whole_records_bounds(records, n);
    let k = whole_records(records, n);
    if 0 < i {
        log_bytes_prefix(records.take(k), i - 1);
        assert(records.take(k).take(i) =~= records.take(i));
    } else {
        assert(records.take(0) =~= Seq::empty());
    }
}

/// Reading a log that was cut off after `n` bytes, from record `i` on.
proof fn read_cut_log(records: Seq<RecordView>, n: int, i: int)
    requires
        all_fit(records),
        0 <= n <= log_bytes(records).len(),
        0 <= i <= whole_records(records, n),
    ensures
        read_log(log_bytes(records).take(n), log_bytes(records.take(i)).len() as int) == (
            records.subrange(i, whole_records(records, n)),
            None::<RecordError>,
        ),
        log_end(log_bytes(records).take(n), log_bytes(records.take(i)).len() as int) == log_bytes(
            records.take(whole_records(records, n)),
        ).len(),
    decreases whole_records(records, n) - i,
{
    let data = log_bytes(records).take(n);
    let k = whole_records(records, n);
    let pos = log_bytes(records.take(i)).len() as int;
    whole_records_bounds(records, n);
    whole_record_ends(records, n, i);
    if i < records.len() {
        let r = records[i];
        record_in_cut_log(records, n, i);
        if i < k {
            whole_record_ends(records, n, i + 1);
            read_whole_record(data, pos, r);
            read_cut_log(records, n, i + 1);
            assert(records.subrange(i, k) =~= seq![r] + records.subrange(i + 1, k));
        } else {
            read_cut_record(data, pos, r);
            assert(records.subrange(i, k) =~= Seq::empty());
        }
    } else {
        assert(records.take(i) =~= records);
        assert(records.subrange(i, k) =~= Seq::empty());
    }
}

/// A log reads back as the records that were appended to it, in order.
pub proof fn log_roundtrip(records: Seq<RecordView>)
    requires
        all_fit(records),
    ensures
        read_log(log_bytes(records), 0) == (records, None::<RecordError>),
{
    let n = log_bytes(records).len() as int;
    log_truncation(records, n);
    whole_records_bounds(records, n);
    let k = whole_records(records, n);
    if k < records.len() {
        log_bytes_prefix(records, k);
    }
    assert(records.take(k) =~= records);
    assert(log_bytes(records).take(n) =~= log_bytes(records));
}

/// A log that was cut off anywhere reads as the records that are whole, without
/// an error: what was appended before them is never lost.
pub proof fn log_truncation(records: Seq<RecordView>, n: int)
    requires
        all_fit(records),
        0 <= n <= log_bytes(records).len(),
    ensures
        read_log(log_bytes(records).take(n), 0) == (
            records.take(whole_records(records, n)),
            None::<RecordError>,
        ),
{
    whole_records_bounds(records, n);
    read_cut_log(records, n, 0);
    assert(records.take(0) =~= Seq::empty());
    assert(records.subrange(0, whole_records(records, n)) =~= records.take(
        whole_records(records, n),
    ));
}

/// A log that was cut off anywhere, and is then cut back to its whole records,
/// can be appended to: all of these records and all later ones are read back.
pub proof fn cut_log_resumes(records: Seq<RecordView>, n: int, more: Seq<RecordView>)
    requires
        all_fit(records),
        all_fit(more),
        0 <= n <= log_bytes(records).len(),
    ensures
        ({
            let data = log_bytes(records).take(n);
            let whole = records.take(whole_records(records, n));
            let kept = data.take(log_end(data, 0));
            &&& kept == log_bytes(whole)
            &&& kept + log_bytes(more) == log_bytes(whole + more)
            &&& read_log(kept + log_bytes(more), 0) == (whole + more, None::<RecordError>)
        }),
{
    let data = log_bytes(records).take(n);
    let k = whole_records(records, n);
    let whole = records.take(k);
    whole_records_bounds(records, n);
    read_cut_log(records, n, 0);
    assert(records.take(0) =~= Seq::empty());
    assert(log_end(data, 0) == log_bytes(whole).len());
    if k > 0 {
        log_bytes_prefix(records, k - 1);
    }
    assert(data.take(log_end(data, 0)) =~= log_bytes(records).take(log_bytes(whole).len() as int));
    assert(log_bytes(records).take(log_bytes(whole).len() as int) =~= log_bytes(whole));
    log_append(whole, more);
    assert forall|i: int| 0 <= i < (whole + more).len() implies (#[trigger] (whole
        + more)[i]).fits() by {
        if i < k {
            assert(records[i].fits());
        } else {
            assert(more[i - k].fits());
        }
    }
    log_roundtrip(whole + more);
}

/// Two logs joined are the log of all records.
pub proof fn log_append(a: Seq<RecordView>, b: Seq<RecordView>)
    ensures
        log_bytes(a + b) == log_bytes(a) + log_bytes(b),
    decreases b.len(),
{
    if b.len() == 0 {
        assert(a + b =~= a);
        assert(log_bytes(a) + log_bytes(b) =~= log_bytes(a));
    } else {
        log_append(a, b.drop_last());
        assert((a + b).drop_last() =~= a + b.drop_last());
        assert(log_bytes(a + b) =~= log_bytes(a) + log_bytes(b));
    }
}

/// A log grows by the bytes of each record that is appended.
pub proof fn log_grows_by_record(records: Seq<RecordView>, r: RecordView)
    ensures
        log_bytes(Seq::empty()) == Seq::<u8>::empty(),
        log_bytes(records.push(r)) == log_bytes(records) + r.bytes(),
{
    assert(records.push(r).drop_last() =~= records);
}

/// Reading a log that starts with whole records, from record `i` on.
proof fn read_log_from(records: Seq<RecordView>, tail: Seq<u8>, i: int)
    requires
        all_fit(records),
        0 <= i <= records.len(),
    ensures
        ({
            let all = log_bytes(records) + tail;
            let n = log_bytes(records).len() as int;
            &&& read_log(all, log_bytes(records.take(i)).len() as int) == (
                records.skip(i) + read_log(all, n).0,
                read_log(all, n).1,
            )
            &&& log_end(all, log_bytes(records.take(i)).len() as int) == log_end(all, n)
        }),
    decreases records.len() - i,
{
    let all = log_bytes(records) + tail;
    let n = log_bytes(records).len() as int;
    let pos = log_bytes(records.take(i)).len() as int;
    if i == records.len() {
        assert(records.take(i) =~= records);
        assert(records.skip(i) + read_log(all, n).0 =~= read_log(all, n).0);
    } else {
        let r = records[i];
        log_bytes_prefix(records, i);
        let next = log_bytes(records.take(i + 1));
        let end = next.len() as int;
        assert(all.subrange(pos, end) =~= log_bytes(records).take(end).subrange(pos, end));
        assert(next.subrange(pos, end) =~= r.bytes());
        read_whole_record(all, pos, r);
        read_log_from(records, tail, i + 1);
        assert(records.skip(i) + read_log(all, n).0 =~= seq![r] + (records.skip(i + 1) + read_log(
            all,
            n,
        ).0));
    }
}

/// Behind whole records a log is read on: bytes that are too few for the length in
/// front of them end it, a record that cannot be used is reported and ends it with
/// all before it kept, and any other is read.
pub proof fn log_reads_on(records: Seq<RecordView>, tail: Seq<u8>)
    requires
        all_fit(records),
    ensures
        tail.len() < 4 || tail.len() < 4 + le_value(tail.take(4)) ==> read_log(
            log_bytes(records) + tail,
            0,
        ) == (records, None::<RecordError>) && log_end(log_bytes(records) + tail, 0) == log_bytes(
            records,
        ).len(),
        tail.len() >= 4 && tail.len() >= 4 + le_value(tail.take(4)) ==> ({
            let len = le_value(tail.take(4)) as int;
            let buf = tail.subrange(4, 4 + len);
            let read = read_log(log_bytes(records) + tail, 0);
            match parse_record(buf, crc32_of(buf.skip(4))) {
                Err(x) => {
                    &&& read == (records, Some(x))
                    &&& log_end(log_bytes(records) + tail, 0) == log_bytes(records).len()
                },
                Ok(r) => {
                    &&& read.0.len() > records.len()
                    &&& read.0.take(records.len() as int) == records
                    &&& read.0[records.len() as int] == r
                },
            }
        }),
{
    let all = log_bytes(records) + tail;
    let n = log_bytes(records).len() as int;
    read_log_from(records, tail, 0);
    assert(records.take(0) =~= Seq::empty());
    assert(records.skip(0) =~= records);
    assert(records + Seq::<RecordView>::empty() =~= records);
    if tail.len() >= 4 {
        let len = le_value(tail.take(4)) as int;
        assert(all.subrange(n, n + 4) =~= tail.take(4));
        if tail.len() >= 4 + len {
            assert(all.subrange(n + 4, n + 4 + len) =~= tail.subrange(4, 4 + len));
            let rest = read_log(all, n).0;
            assert((records + rest).take(records.len() as int) =~= records);
        }
    }
}

/// A record of any length whose stored checksum is not that of the bytes behind it
/// is reported by whoever reads the log, and nothing behind it is used.
pub proof fn damaged_record_is_reported(records: Seq<RecordView>, buf: Seq<u8>, rest: Seq<u8>)
    requires
        all_fit(records),
        13 <= buf.len() <= 0xffff_ffff,
        buf.take(4) != le_bytes(crc32_of(buf.skip(4)) as nat, 4),
    ensures
        read_log(log_bytes(records) + (le_bytes(buf.len(), 4) + buf + rest), 0) == (
            records,
            Some(
                RecordError::Mismatch(le_value(buf.take(4)) as u32, crc32_of(buf.skip(4))),
            ),
        ),
{
    let tail = le_bytes(buf.len(), 4) + buf + rest;
    le_bounds();
    le_value_of_le_bytes(buf.len(), 4);
    assert(tail.take(4) =~= le_bytes(buf.len(), 4));
    assert(tail.subrange(4, (4 + buf.len()) as int) =~= buf);
    checksum_is_compared(buf, crc32_of(buf.skip(4)));
    log_reads_on(records, tail);
}

/// Append-only WAL writer: the bytes of the records that are not yet flushed.
pub struct WALWriter {
    pending: Vec<u8>,
}

impl View for WALWriter {
    type V = Seq<u8>;

    /// The bytes that are not yet flushed.
    closed spec fn view(&self) -> Seq<u8> {
        self.pending@
    }
}

impl WALWriter {
    /// A writer at the end of a log.
    pub fn open() -> (r: Self)
        ensures
            r@ == Seq::<u8>::empty(),
    {
        WALWriter { pending: Vec::new() }
    }

    /// Append a record that writes a key-value pair.
    pub fn append(&mut self, key: &[u8], value: &[u8]) -> (r: Result<()>)
        ensures
            r is Ok,
            final(self)@ == old(self)@ + (RecordView {
                op: OpType::Put,
                key: key@,
                value: value@,
            }).bytes(),
    {
        let record = Record { op: OpType::Put, key: copy_bytes(key), value: copy_bytes(value) };
        self.append_record(&record)
    }

    /// Append a record with an explicit operation type.
    pub fn append_record(&mut self, record: &Record) -> (r: Result<()>)
        ensures
            r is Ok,
            final(self)@ == old(self)@ + record@.bytes(),
    {
        let encoded = record.encode();
        append_bytes(&mut self.pending, encoded.as_slice());
        Ok(())
    }

    /// Hand out all bytes that were appended since the last flush, for the log
    /// file to take and make durable.
    pub fn flush(&mut self) -> (r: Vec<u8>)
        ensures
            r@ == old(self)@,
            final(self)@ == Seq::<u8>::empty(),
    {
        let mut out: Vec<u8> = Vec::new();
        std::mem::swap(&mut out, &mut self.pending);
        out
    }
}

/// Sequential WAL reader.
///
/// A truncated record ends it; a record that is corrupted is reported as an
/// error and then ends it.
pub struct WALReader {
    data: Vec<u8>,
    pos: usize,
    done: bool,
}

impl WALReader {
    /// The reader stands within the log.
    pub closed spec fn wf(&self) -> bool {
        self.pos <= self.data@.len()
    }

    /// The records still to come, and the error after them if there is one.
    pub closed spec fn remaining(&self) -> (Seq<RecordView>, Option<RecordError>) {
        if self.done {
            (Seq::empty(), None)
        } else {
            read_log(self.data@, self.pos as int)
        }
    }

    /// Open the bytes of a log for reading.
    pub fn open(data: Vec<u8>) -> (r: Self)
        ensures
            r.wf(),
            r.remaining() == read_log(data@, 0),
    {
        WALReader { data, pos: 0, done: false }
    }

    /// The next record, or `None` at the end.
    pub fn next(&mut self) -> (r: Option<Result<Record>>)
        requires
            old(self).wf(),
        ensures
            final(self).wf(),
            match r {
                None => {
                    &&& old(self).remaining() == (Seq::<RecordView>::empty(), None::<RecordError>)
                    &&& final(self).remaining() == old(self).remaining()
                },
                Some(Ok(rec)) => {
                    &&& old(self).remaining().0.len() > 0
                    &&& rec@ == old(self).remaining().0[0]
                    &&& final(self).remaining().0 == old(self).remaining().0.drop_first()
                    &&& final(self).remaining().1 == old(self).remaining().1
                },
                Some(Err(e)) => {
                    &&& old(self).remaining().0.len() == 0
                    &&& old(self).remaining().1 is Some
                    &&& reports(e, old(self).remaining().1->Some_0)
                    &&& final(self).remaining() == (Seq::<RecordView>::empty(), None::<RecordError>)
                },
            },
    {
        if self.done {
            return None;
        }
        let ghost before = self.remaining();
        if self.data.len() - self.pos < 4 {
            return None;
        }
        let record_len = read_u32(self.data.as_slice(), self.pos) as usize;
        let start = self.pos + 4;
        if self.data.len() - start < record_len {
            return None;
        }
        let end = start + record_len;
        match Record::decode(vstd::slice::slice_subrange(self.data.as_slice(), start, end)) {
            Ok(rec) => {
                self.pos = end;
                assert(before.0 == seq![rec@] + self.remaining().0);
                assert(before.0.drop_first() =~= self.remaining().0);
                Some(Ok(rec))
            },
            Err(e) => {
                self.done = true;
                Some(Err(e))
            },
        }
    }

    /// How many bytes of the log the records up to the end, or up to the first one
    /// that cannot be used, take. What is behind them is to be cut off before more
    /// is appended to the log.
    pub fn intact_len(data: &[u8]) -> (r: usize)
        ensures
            r == log_end(data@, 0),
    {
        let mut pos: usize = 0;
        while data.len() - pos >= 4
            invariant_except_break
                pos <= data@.len(),
                log_end(data@, 0) == log_end(data@, pos as int),
            ensures
                pos == log_end(data@, 0),
            decreases data@.len() - pos,
        {
            let record_len = read_u32(data, pos) as usize;
            let start = pos + 4;
            if data.len() - start < record_len {
                break;
            }
            let end = start + record_len;
            if Record::decode(vstd::slice::slice_subrange(data, start, end)).is_err() {
                break;
            }
            pos = end;
        }
        pos
    }

    /// All records still to come, or the error after them.
    pub fn collect(self) -> (r: Result<Vec<Record>>)
        requires
            self.wf(),
        ensures
            match (r, self.remaining().1) {
                (Ok(records), None) => record_views(records@) == self.remaining().0,
                (Err(e), Some(x)) => reports(e, x),
                _ => false,
            },
    {
        let mut this = self;
        let mut out: Vec<Record> = Vec::new();
        let ghost all = self.remaining();
        assert(record_views(out@) + this.remaining().0 =~= all.0);
        loop
            invariant
                this.wf(),
                all == self.remaining(),
                record_views(out@) + this.remaining().0 == all.0,
                this.remaining().1 == all.1,
            ensures
                record_views(out@) == all.0,
                all.1 is None,
            decreases this.remaining().0.len(),
        {
            let ghost left = this.remaining().0;
            let ghost got = out@;
            match this.next() {
                Some(Ok(rec)) => {
                    out.push(rec);
                    assert(record_views(out@) =~= record_views(got).push(rec@));
                    assert(record_views(got).push(left[0]) + left.drop_first() =~= record_views(got)
                        + left);
                },
                Some(Err(e)) => {
                    return Err(e);
                },
                None => {
                    assert(record_views(out@) + left =~= record_views(out@));
                    break;
                },
            }
        }
        Ok(out)
    }
}

/// The records of an executable list.
pub open spec fn record_views(records: Seq<Record>) -> Seq<RecordView> {
    Seq::new(records.len(), |i: int| records[i]@)
}

/// All records count.
pub proof fn records_are_whole(records: Seq<Record>, i: int)
    ensures
        record_views(records).len() == records.len(),
        0 <= i < records.len() ==> record_views(records)[i] == records[i]@,
{
}

} // verus!
