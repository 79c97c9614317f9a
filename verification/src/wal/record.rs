//! WAL record encoding and decoding.
//!
//! On-disk format (all integers little-endian):
//!
//! ```text
//! [len: u32] [crc32: u32] [op_type: u8] [key_len: u32] [key] [value_len: u32] [value]
//! ```
//!
//! - `len` = bytes after itself: 4 (crc) + 1 (op) + 4 (key_len) + key + 4 (value_len) + value
//! - `crc32` = CRC32 of op_type ‖ key_len ‖ key ‖ value_len ‖ value

use vstd::prelude::*;

use crate::bytes::{append_bytes, copy_range, le_bounds, le_bytes, le_bytes_len, le_value};
use crate::bytes::{le_bytes_of_le_value, le_value_bound, le_value_of_le_bytes};
use crate::bytes::{push_u32, read_u32};
use crate::error::{corruption, is_corruption, KvError, Result};
use crate::text::{decimal, push_decimal};

verus! {

/// The CRC32 of the bytes.
pub uninterp spec fn crc32_of(data: Seq<u8>) -> u32;

/// `crc32fast::hash`: the CRC32 (IEEE) checksum of the bytes, which they alone
/// determine. Nothing is said of how it is computed.
#[verifier::external_body]
pub(crate) fn crc32(data: &[u8]) -> (r: u32)
    ensures
        r == crc32_of(data@),
{
    crc32fast::hash(data)
}

/// Operation type stored in each WAL record.
#[derive(Debug, Clone, Copy, PartialEq, Eq, Structural)]
pub enum OpType {
    /// Write a key-value pair.
    Put,
    /// Delete a key (tombstone).
    Delete,
    /// Apply a batch: the value holds the records of its operations.
    Batch,
}

impl OpType {
    /// The byte that stands for the operation.
    pub open spec fn code(self) -> u8 {
        match self {
            OpType::Put => 0x01,
            OpType::Delete => 0x02,
            OpType::Batch => 0x03,
        }
    }

    /// The operation that a byte stands for, if any.
    pub open spec fn of_code(v: u8) -> Option<OpType> {
        if v == 0x01 {
            Some(OpType::Put)
        } else if v == 0x02 {
            Some(OpType::Delete)
        } else if v == 0x03 {
            Some(OpType::Batch)
        } else {
            None
        }
    }

    /// The byte that stands for the operation.
    pub fn to_u8(self) -> (r: u8)
        ensures
            r == self.code(),
    {
        match self {
            OpType::Put => 0x01,
            OpType::Delete => 0x02,
            OpType::Batch => 0x03,
        }
    }

    /// The operation that a byte stands for.
    pub fn from_u8(v: u8) -> (r: Result<Self>)
        ensures
            match (r, OpType::of_code(v)) {
                (Ok(op), Some(expected)) => op == expected,
                (Err(e), None) => is_corruption(e, "unknown op type: "@ + decimal(v as nat)),
                _ => false,
            },
    {
        match v {
            0x01 => Ok(OpType::Put),
            0x02 => Ok(OpType::Delete),
            0x03 => Ok(OpType::Batch),
            _ => {
                let mut msg = "unknown op type: ".to_string();
                push_decimal(&mut msg, v as u64);
                Err(corruption(msg.as_str()))
            },
        }
    }
}

/// A record, as mathematics sees it.
#[verifier::ext_equal]
pub struct RecordView {
    pub op: OpType,
    pub key: Seq<u8>,
    pub value: Seq<u8>,
}

/// What can be wrong with a record.
pub enum RecordError {
    /// It cannot be read.
    Corrupt(Seq<char>),
    /// Its checksum is not the stored one.
    Mismatch(u32, u32),
}

/// `e` reports what is wrong with a record.
pub open spec fn reports(e: KvError, x: RecordError) -> bool {
    match x {
        RecordError::Corrupt(msg) => is_corruption(e, msg),
        RecordError::Mismatch(stored, computed) => e is ChecksumMismatch
            && e->ChecksumMismatch_expected == stored && e->ChecksumMismatch_actual == computed,
    }
}

impl RecordView {
    /// The bytes that the checksum covers.
    pub open spec fn payload(self) -> Seq<u8> {
        seq![self.op.code()] + le_bytes(self.key.len(), 4) + self.key + le_bytes(
            self.value.len(),
            4,
        ) + self.value
    }

    /// The bytes of the record with the given checksum.
    pub open spec fn bytes_with(self, crc: u32) -> Seq<u8> {
        le_bytes(4 + self.payload().len(), 4) + le_bytes(crc as nat, 4) + self.payload()
    }

    /// The bytes of the record.
    pub open spec fn bytes(self) -> Seq<u8> {
        self.bytes_with(crc32_of(self.payload()))
    }

    /// The lengths of the record fit the fields that hold them.
    pub open spec fn fits(self) -> bool {
        self.key.len() + self.value.len() + 13 <= 0xffff_ffff
    }
}

/// Read a record from the bytes behind its length, whose checksum is `crc`, or
/// say what is wrong.
#[verifier::opaque]
pub open spec fn parse_record(buf: Seq<u8>, crc: u32) -> std::result::Result<
    RecordView,
    RecordError,
> {
    let stored = le_value(buf.subrange(0, 4)) as u32;
    let code = buf[4];
    let key_len = le_value(buf.subrange(5, 9)) as int;
    let key_end = 9 + key_len;
    let value_len = le_value(buf.subrange(key_end, key_end + 4)) as int;
    let value_end = key_end + 4 + value_len;
    if buf.len() < 13 {
        Err(
            RecordError::Corrupt(
                "WAL record too short: need at least 13 bytes, got "@ + decimal(buf.len()),
            ),
        )
    } else if stored != crc {
        Err(RecordError::Mismatch(stored, crc))
    } else if OpType::of_code(code) is None {
        Err(RecordError::Corrupt("unknown op type: "@ + decimal(code as nat)))
    } else if buf.len() < key_end + 4 {
        Err(RecordError::Corrupt("WAL record truncated in key"@))
    } else if buf.len() < value_end {
        Err(RecordError::Corrupt("WAL record truncated in value"@))
    } else {
        Ok(
            RecordView {
                op: OpType::of_code(code)->Some_0,
                key: buf.subrange(9, key_end),
                value: buf.subrange(key_end + 4, value_end),
            },
        )
    }
}

/// A record whose lengths fit their fields reads back from its own bytes.
pub proof fn record_roundtrip(r: RecordView, crc: u32)
    requires
        r.fits(),
    ensures
        r.payload().len() == 9 + r.key.len() + r.value.len(),
        r.bytes_with(crc).len() == 17 + r.key.len() + r.value.len(),
        le_value(r.bytes_with(crc).subrange(0, 4)) == 13 + r.key.len() + r.value.len(),
        r.bytes_with(crc).skip(4).skip(4) == r.payload(),
        parse_record(r.bytes_with(crc).skip(4), crc) == Ok::<RecordView, RecordError>(r),
{
    reveal(parse_record);
    let all = r.bytes_with(crc);
    let buf = all.skip(4);
    let p = r.payload();
    le_bounds();
    le_value_of_le_bytes(r.key.len(), 4);
    le_value_of_le_bytes(r.value.len(), 4);
    le_value_of_le_bytes(4 + p.len(), 4);
    le_value_of_le_bytes(crc as nat, 4);
    assert(all.subrange(0, 4) =~= le_bytes(4 + p.len(), 4));
    assert(buf.subrange(0, 4) =~= le_bytes(crc as nat, 4));
    assert(buf.skip(4) =~= p);
    assert(buf[4] == p[0]);
    assert(buf.subrange(5, 9) =~= le_bytes(r.key.len(), 4));
    let key_end = 9 + r.key.len() as int;
    assert(buf.subrange(9, key_end) =~= r.key);
    assert(buf.subrange(key_end, key_end + 4) =~= le_bytes(r.value.len(), 4));
    assert(buf.subrange(key_end + 4, key_end + 4 + r.value.len()) =~= r.value);
}

/// The bytes of a record lie as the format says: length, checksum, operation,
/// then key and value, each behind its length.
pub proof fn record_layout(r: RecordView, crc: u32)
    ensures
        r.payload() == seq![match r.op {
            OpType::Put => 1u8,
            OpType::Delete => 2,
            OpType::Batch => 3,
        }] + le_bytes(r.key.len(), 4) + r.key + le_bytes(r.value.len(), 4) + r.value,
        r.bytes_with(crc) == le_bytes((13 + r.key.len() + r.value.len()) as nat, 4) + le_bytes(
            crc as nat,
            4,
        ) + r.payload(),
        r.bytes() == r.bytes_with(crc32_of(r.payload())),
{
    le_bytes_len(r.key.len(), 4);
    le_bytes_len(r.value.len(), 4);
}

/// What is read of a record, whatever its length, carries the checksum of the bytes
/// behind it: any other is reported as a mismatch.
pub proof fn checksum_is_compared(buf: Seq<u8>, crc: u32)
    requires
        buf.len() >= 13,
    ensures
        buf.take(4) != le_bytes(crc as nat, 4) ==> parse_record(buf, crc) == Err::<
            RecordView,
            RecordError,
        >(RecordError::Mismatch(le_value(buf.take(4)) as u32, crc)),
        parse_record(buf, crc) is Ok ==> buf.take(4) == le_bytes(crc as nat, 4),
        (parse_record(buf, crc) matches Err(RecordError::Mismatch(stored, actual)) ==> stored
            != actual && actual == crc),
{
    reveal(parse_record);
    let head = buf.take(4);
    assert(buf.subrange(0, 4) =~= head);
    le_bounds();
    le_value_bound(head);
    le_bytes_of_le_value(head);
    le_value_of_le_bytes(crc as nat, 4);
}

/// A record that is read stands in the bytes as it was written: its checksum, its
/// operation, its key and its value, each behind its length.
pub proof fn read_record_was_written(buf: Seq<u8>, crc: u32)
    requires
        parse_record(buf, crc) is Ok,
    ensures
        ({
            let r = parse_record(buf, crc)->Ok_0;
            let n = (13 + r.key.len() + r.value.len()) as int;
            &&& n <= buf.len()
            &&& buf.take(n) == le_bytes(crc as nat, 4) + r.payload()
        }),
{
    reveal(parse_record);
    let r = parse_record(buf, crc)->Ok_0;
    let k = r.key.len() as int;
    let n = (13 + k + r.value.len()) as int;
    checksum_is_compared(buf, crc);
    record_layout(r, crc);
    le_bytes_of_le_value(buf.subrange(5, 9));
    le_bytes_of_le_value(buf.subrange(9 + k, 13 + k));
    assert(seq![buf[4]][0] == r.payload()[0]);
    assert(buf.take(n) =~= buf.take(4) + (seq![buf[4]] + buf.subrange(5, 9) + r.key + buf.subrange(
        9 + k,
        13 + k,
    ) + r.value));
}

/// A record is read from its checksum and payload, whatever follows them.
pub proof fn written_record_is_read(r: RecordView, crc: u32, rest: Seq<u8>)
    requires
        r.fits(),
    ensures
        parse_record(le_bytes(crc as nat, 4) + r.payload() + rest, crc) == Ok::<
            RecordView,
            RecordError,
        >(r),
{
    reveal(parse_record);
    let buf = le_bytes(crc as nat, 4) + r.payload() + rest;
    le_bounds();
    le_value_of_le_bytes(r.key.len(), 4);
    le_value_of_le_bytes(r.value.len(), 4);
    le_value_of_le_bytes(crc as nat, 4);
    record_layout(r, crc);
    assert(buf.subrange(0, 4) =~= le_bytes(crc as nat, 4));
    assert(buf.subrange(5, 9) =~= le_bytes(r.key.len(), 4));
    let key_end = 9 + r.key.len() as int;
    assert(buf.subrange(9, key_end) =~= r.key);
    assert(buf.subrange(key_end, key_end + 4) =~= le_bytes(r.value.len(), 4));
    assert(buf.subrange(key_end + 4, key_end + 4 + r.value.len()) =~= r.value);
}

/// Bytes that are too few, or whose operation or lengths are none, make no record.
pub proof fn malformed_record_is_refused(buf: Seq<u8>, crc: u32)
    ensures
        buf.len() < 13 ==> parse_record(buf, crc) is Err,
        buf.len() >= 13 && buf[4] != 1 && buf[4] != 2 && buf[4] != 3 ==> parse_record(
            buf,
            crc,
        ) is Err,
        buf.len() >= 13 && buf.len() < 13 + le_value(buf.subrange(5, 9)) ==> parse_record(
            buf,
            crc,
        ) is Err,
{
    reveal(parse_record);
}

/// A mismatch is reported with the stored checksum as the expected one and that of
/// the bytes as the actual one; anything else as corruption with its message.
pub proof fn reports_name_the_checksums(e: KvError, x: RecordError)
    requires
        reports(e, x),
    ensures
        (x matches RecordError::Mismatch(stored, computed) ==> (e matches
            KvError::ChecksumMismatch { expected, actual } && expected == stored && actual
            == computed)),
        (x matches RecordError::Corrupt(msg) ==> (e matches KvError::Corruption(text) && text@
            == msg)),
{
}

/// A record is too large for the log only if its length does not fit four bytes.
pub proof fn records_fit_to_four_gibibytes(r: RecordView)
    ensures
        r.fits() <==> r.key.len() + r.value.len() + 13 <= 0xffff_ffff,
        r.bytes().len() == 17 + r.key.len() + r.value.len(),
{
    le_bytes_len(r.key.len(), 4);
    le_bytes_len(r.value.len(), 4);
    le_bytes_len(4 + r.payload().len(), 4);
    le_bytes_len(crc32_of(r.payload()) as nat, 4);
}

/// The byte 1 stands for a write, 2 for a deletion and 3 for a batch; no other byte
/// stands for an operation.
pub proof fn operation_codes(op: OpType, v: u8)
    ensures
        OpType::of_code(1) == Some(OpType::Put),
        OpType::of_code(2) == Some(OpType::Delete),
        OpType::of_code(3) == Some(OpType::Batch),
        v == 0 || v > 3 ==> OpType::of_code(v) is None,
        OpType::of_code(op.code()) == Some(op),
{
}

/// An executable record stands for its operation, key and value.
pub proof fn record_view_is_whole(r: Record)
    ensures
        r@.op == r.op,
        r@.key == r.key@,
        r@.value == r.value@,
{
}

/// A single key-value record stored in the WAL.
#[derive(Debug, Clone, PartialEq, Eq)]
pub struct Record {
    pub op: OpType,
    pub key: Vec<u8>,
    pub value: Vec<u8>,
}

impl View for Record {
    type V = RecordView;

    open spec fn view(&self) -> RecordView {
        RecordView { op: self.op, key: self.key@, value: self.value@ }
    }
}

impl Record {
    /// Serialize this record into the on-disk format.
    pub fn encode(&self) -> (r: Vec<u8>)
        ensures
            r@ == self@.bytes(),
    {
        let crc = crc32(self.crc_payload().as_slice());
        self.encode_with_crc(crc)
    }

    /// Serialize this record with the given checksum.
    pub fn encode_with_crc(&self, crc: u32) -> (r: Vec<u8>)
        ensures
            r@ == self@.bytes_with(crc),
    {
        let payload = self.crc_payload();
        let mut buf: Vec<u8> = Vec::new();
        proof {
            truncated_length(payload.len());
        }
        push_u32(&mut buf, (payload.len() as u64).wrapping_add(4));
        push_u32(&mut buf, crc as u64);
        append_bytes(&mut buf, payload.as_slice());
        assert(buf@ =~= self@.bytes_with(crc));
        buf
    }

    /// Decode a record from the byte buffer that follows the `len` prefix.
    pub fn decode(buf: &[u8]) -> (r: Result<Self>)
        ensures
            match (r, parse_record(buf@, crc32_of(buf@.skip(4)))) {
                (Ok(rec), Ok(v)) => rec@ == v,
                (Err(e), Err(x)) => reports(e, x),
                _ => false,
            },
            buf@.len() >= 13 && buf@.take(4) != le_bytes(crc32_of(buf@.skip(4)) as nat, 4)
                ==> r is Err && r->Err_0 is ChecksumMismatch,
    {
        proof {
            reveal(parse_record);
            if buf@.len() >= 13 {
                checksum_is_compared(buf@, crc32_of(buf@.skip(4)));
            }
        }
        if buf.len() < 4 {
            return Self::decode_with_crc(buf, 0);
        }
        let rest = vstd::slice::slice_subrange(buf, 4, buf.len());
        assert(rest@ =~= buf@.skip(4));
        Self::decode_with_crc(buf, crc32(rest))
    }

    /// Decode a record from the byte buffer that follows the `len` prefix, where
    /// `actual_crc` is the checksum of what follows the stored checksum.
    pub fn decode_with_crc(buf: &[u8], actual_crc: u32) -> (r: Result<Self>)
        ensures
            match (r, parse_record(buf@, actual_crc)) {
                (Ok(rec), Ok(v)) => rec@ == v,
                (Err(e), Err(x)) => reports(e, x),
                _ => false,
            },
            buf@.len() >= 13 && buf@.take(4) != le_bytes(actual_crc as nat, 4) ==> r is Err
                && r->Err_0 is ChecksumMismatch,
    {
        proof {
            reveal(parse_record);
            if buf@.len() >= 13 {
                checksum_is_compared(buf@, actual_crc);
            }
        }
        if buf.len() < 13 {
            let mut msg = "WAL record too short: need at least 13 bytes, got ".to_string();
            push_decimal(&mut msg, buf.len() as u64);
            return Err(corruption(msg.as_str()));
        }
        let stored_crc = read_u32(buf, 0);
        if stored_crc != actual_crc {
            return Err(KvError::ChecksumMismatch { expected: stored_crc, actual: actual_crc });
        }
        let op = match OpType::from_u8(buf[4]) {
            Ok(op) => op,
            Err(e) => {
                return Err(e);
            },
        };
        let key_len = read_u32(buf, 5) as usize;
        if buf.len() - 13 < key_len {
            return Err(corruption("WAL record truncated in key"));
        }
        let key_end = 9 + key_len;
        let key = copy_range(buf, 9, key_end);
        let value_len = read_u32(buf, key_end) as usize;
        let value_start = key_end + 4;
        if buf.len() - value_start < value_len {
            return Err(corruption("WAL record truncated in value"));
        }
        let value = copy_range(buf, value_start, value_start + value_len);
        Ok(Record { op, key, value })
    }

    /// Whether the lengths of the record fit the fields that hold them.
    pub fn fits_log(&self) -> (r: bool)
        ensures
            r == self@.fits(),
    {
        match self.key.len().checked_add(self.value.len()) {
            Some(n) => n as u64 <= 0xffff_ffff - 13,
            None => false,
        }
    }

    /// The bytes that the CRC checksum covers.
    pub fn crc_payload(&self) -> (r: Vec<u8>)
        ensures
            r@ == self@.payload(),
    {
        let mut payload: Vec<u8> = Vec::new();
        payload.push(self.op.to_u8());
        push_u32(&mut payload, self.key.len() as u64);
        append_bytes(&mut payload, self.key.as_slice());
        push_u32(&mut payload, self.value.len() as u64);
        append_bytes(&mut payload, self.value.as_slice());
        assert(payload@ =~= self@.payload());
        payload
    }
}

/// The low bytes of a length are those of its sum that wraps around.
proof fn truncated_length(n: usize)
    ensures
        le_bytes(((n as u64).wrapping_add(4)) as nat, 4) == le_bytes((4 + n) as nat, 4),
{
    let m = (4 + n) as nat;
    if m > u64::MAX {
        let w = (m - 0x1_0000_0000_0000_0000) as nat;
        le_bytes_wrap(w);
    }
}

/// Bytes beyond the eighth do not show in the first four.
proof fn le_bytes_wrap(w: nat)
    requires
        w < 4,
    ensures
        le_bytes(w, 4) == le_bytes((w + 0x1_0000_0000_0000_0000) as nat, 4),
{
    reveal_with_fuel(le_bytes, 5);
}

} // verus!
