//! How the engine stores values.
//!
//! A stored value is a sequence number and what was written:
//!
//! ```text
//! [seq: u64 LE] [inner]
//! ```
//!
//! The inner part is a tombstone `[0x00]`, a value with an expiry
//! `[0x01] [expiry: u64 LE] [value]`, or the value itself. A value that would
//! read as one of the first two is stored behind the expiry 0, which stands for
//! none. A value that is to expire at the time 0 is found at no time, and is
//! stored as a tombstone.

use vstd::prelude::*;

use crate::bytes::{append_bytes, copy_bytes, copy_range, le_bounds, le_bytes, le_bytes_len};
use crate::bytes::{le_value, le_value_bound, le_value_of_le_bytes, push_u64, read_u64};

verus! {

/// The inner part that marks a deleted key.
pub const TOMBSTONE: u8 = 0x00;

/// The first byte of an inner part with an expiry.
pub const TTL_MARKER: u8 = 0x01;

/// What stands in place of an expiry in front of a value that has none.
pub const NEVER: u64 = 0;

/// The inner part of a deleted key.
pub open spec fn tombstone() -> Seq<u8> {
    seq![TOMBSTONE]
}

/// The inner part of a value with an expiry.
pub open spec fn with_expiry(value: Seq<u8>, expiry: u64) -> Seq<u8> {
    seq![TTL_MARKER] + le_bytes(expiry as nat, 8) + value
}

/// Whether an inner part carries an expiry.
pub open spec fn has_expiry(inner: Seq<u8>) -> bool {
    inner.len() >= 9 && inner[0] == TTL_MARKER
}

/// The expiry that an inner part carries.
pub open spec fn expiry_of(inner: Seq<u8>) -> u64 {
    le_value(inner.subrange(1, 9)) as u64
}

/// The inner part of a value without an expiry.
pub open spec fn plain(value: Seq<u8>) -> Seq<u8> {
    if value == tombstone() || has_expiry(value) {
        with_expiry(value, NEVER)
    } else {
        value
    }
}

/// The inner part of a value that is found before the time `expiry` and not from
/// then on.
pub open spec fn timed(value: Seq<u8>, expiry: u64) -> Seq<u8> {
    if expiry == NEVER {
        tombstone()
    } else {
        with_expiry(value, expiry)
    }
}

/// The stored value of an inner part.
pub open spec fn stamped(inner: Seq<u8>, seq: u64) -> Seq<u8> {
    le_bytes(seq as nat, 8) + inner
}

/// The inner part of a stored value.
pub open spec fn inner_of(stored: Seq<u8>) -> Seq<u8> {
    if stored.len() >= 8 {
        stored.skip(8)
    } else {
        stored
    }
}

/// The sequence number of a stored value; 0 if it carries none.
pub open spec fn seq_of(stored: Seq<u8>) -> u64 {
    if stored.len() >= 8 {
        le_value(stored.subrange(0, 8)) as u64
    } else {
        0
    }
}

/// Whether an inner part that carries `expiry` has expired at the time `now`.
pub open spec fn expired(expiry: u64, now: u64) -> bool {
    expiry != NEVER && expiry <= now
}

/// What an inner part shows to a reader at the time `now`.
pub open spec fn shown_inner(inner: Seq<u8>, now: u64) -> Option<Seq<u8>> {
    if inner == tombstone() {
        None
    } else if has_expiry(inner) {
        if expired(expiry_of(inner), now) {
            None
        } else {
            Some(inner.skip(9))
        }
    } else {
        Some(inner)
    }
}

/// What a stored value shows to a reader at the time `now`.
pub open spec fn shown(stored: Seq<u8>, now: u64) -> Option<Seq<u8>> {
    shown_inner(inner_of(stored), now)
}

/// A stored value is its number in eight bytes and then what was written: the value
/// itself, unless it reads as a mark, the single byte 0 for a deletion, and for a
/// value that expires the byte 1 and the time in eight bytes in front.
pub proof fn stored_layout(value: Seq<u8>, inner: Seq<u8>, seq: u64, expiry: u64)
    ensures
        stamped(inner, seq) == le_bytes(seq as nat, 8) + inner,
        tombstone() == seq![0u8],
        value != seq![0u8] && !(value.len() >= 9 && value[0] == 1) ==> plain(value) == value,
        expiry > 0 ==> timed(value, expiry) == seq![1u8] + le_bytes(expiry as nat, 8) + value,
        plain(value).len() <= value.len() + 9,
        timed(value, expiry).len() <= value.len() + 9,
        stamped(inner, seq).len() == 8 + inner.len(),
{
    le_bytes_len(expiry as nat, 8);
    le_bytes_len(NEVER as nat, 8);
    le_bytes_len(seq as nat, 8);
}

/// What any stored bytes show at a time: behind the eight bytes of the number a
/// single byte 0 shows nothing, the byte 1 and eight bytes more show what follows
/// them until the time that they tell, if it is not 0, and anything else shows
/// itself.
pub proof fn stored_bytes_show(number: Seq<u8>, time: Seq<u8>, inner: Seq<u8>, now: u64)
    requires
        number.len() == 8,
        time.len() == 8,
    ensures
        seq_of(number + inner) == le_value(number),
        shown(number + seq![0u8], now) is None,
        shown(number + (seq![1u8] + time + inner), now) == if le_value(time) == 0 || now < le_value(
            time,
        ) {
            Some(inner)
        } else {
            None
        },
        inner != seq![0u8] && (inner.len() < 9 || inner[0] != 1) ==> shown(number + inner, now)
            == Some(inner),
        inner.len() < 8 ==> seq_of(inner) == 0,
{
    let timed_inner = seq![1u8] + time + inner;
    le_bounds();
    le_value_bound(number);
    le_value_bound(time);
    assert((number + inner).subrange(0, 8) =~= number);
    assert((number + inner).skip(8) =~= inner);
    assert((number + seq![0u8]).skip(8) =~= seq![0u8]);
    assert((number + timed_inner).skip(8) =~= timed_inner);
    assert(timed_inner.subrange(1, 9) =~= time);
    assert(timed_inner.skip(9) =~= inner);
}

/// Every value that is written reads back, at any time.
pub proof fn plain_shown(value: Seq<u8>, seq: u64, now: u64)
    ensures
        shown(stamped(plain(value), seq), now) == Some(value),
        seq_of(stamped(plain(value), seq)) == seq,
{
    stamped_parts(plain(value), seq);
    if value == tombstone() || has_expiry(value) {
        with_expiry_parts(value, NEVER);
    }
}

/// A value with an expiry reads back before it, and not from it on.
pub proof fn ttl_shown(value: Seq<u8>, expiry: u64, seq: u64, now: u64)
    ensures
        shown(stamped(timed(value, expiry), seq), now) == if now < expiry {
            Some(value)
        } else {
            None
        },
        seq_of(stamped(timed(value, expiry), seq)) == seq,
{
    stamped_parts(timed(value, expiry), seq);
    if expiry != NEVER {
        with_expiry_parts(value, expiry);
    }
}

/// A tombstone never shows.
pub proof fn tombstone_shown(seq: u64, now: u64)
    ensures
        shown(stamped(tombstone(), seq), now) is None,
        seq_of(stamped(tombstone(), seq)) == seq,
{
    stamped_parts(tombstone(), seq);
}

/// What does not show at one time does not show later.
pub proof fn hidden_stays_hidden(stored: Seq<u8>, now: u64, later: u64)
    requires
        shown(stored, now) is None,
        now <= later,
    ensures
        shown(stored, later) is None,
{
}

/// The parts of a stored value.
proof fn stamped_parts(inner: Seq<u8>, seq: u64)
    ensures
        inner_of(stamped(inner, seq)) == inner,
        seq_of(stamped(inner, seq)) == seq,
{
    le_bounds();
    le_value_of_le_bytes(seq as nat, 8);
    let s = stamped(inner, seq);
    assert(s.skip(8) =~= inner);
    assert(s.subrange(0, 8) =~= le_bytes(seq as nat, 8));
}

/// The parts of an inner part with an expiry.
proof fn with_expiry_parts(value: Seq<u8>, expiry: u64)
    ensures
        has_expiry(with_expiry(value, expiry)),
        with_expiry(value, expiry) != tombstone(),
        expiry_of(with_expiry(value, expiry)) == expiry,
        with_expiry(value, expiry).skip(9) == value,
{
    le_bounds();
    le_value_of_le_bytes(expiry as nat, 8);
    let s = with_expiry(value, expiry);
    assert(s.subrange(1, 9) =~= le_bytes(expiry as nat, 8));
    assert(s.skip(9) =~= value);
    assert(s.len() >= 9);
}

/// Encode an inner part with a sequence number prefix.
pub fn encode_with_seq(inner: &[u8], seq: u64) -> (r: Vec<u8>)
    ensures
        r@ == stamped(inner@, seq),
{
    let mut buf: Vec<u8> = Vec::new();
    push_u64(&mut buf, seq);
    append_bytes(&mut buf, inner);
    assert(buf@ =~= stamped(inner@, seq));
    buf
}

/// The inner part and the sequence number of a stored value.
pub fn decode_with_seq(v: &[u8]) -> (r: (Vec<u8>, u64))
    ensures
        r.0@ == inner_of(v@),
        r.1 == seq_of(v@),
{
    if v.len() >= 8 {
        let inner = copy_range(v, 8, v.len());
        assert(inner@ =~= v@.skip(8));
        (inner, read_u64(v, 0))
    } else {
        (copy_bytes(v), 0)
    }
}

/// The inner part of a deleted key.
pub fn encode_tombstone() -> (r: Vec<u8>)
    ensures
        r@ == tombstone(),
{
    let mut buf: Vec<u8> = Vec::new();
    buf.push(TOMBSTONE);
    assert(buf@ =~= tombstone());
    buf
}

/// The inner part of a value with an expiry.
pub fn encode_with_expiry(value: &[u8], expiry: u64) -> (r: Vec<u8>)
    ensures
        r@ == with_expiry(value@, expiry),
{
    let mut buf: Vec<u8> = Vec::new();
    buf.push(TTL_MARKER);
    push_u64(&mut buf, expiry);
    append_bytes(&mut buf, value);
    assert(buf@ =~= with_expiry(value@, expiry));
    buf
}

/// The inner part of a value that is found before the time `expiry` and not from
/// then on.
pub fn encode_timed(value: &[u8], expiry: u64) -> (r: Vec<u8>)
    ensures
        r@ == timed(value@, expiry),
{
    if expiry == NEVER {
        encode_tombstone()
    } else {
        encode_with_expiry(value, expiry)
    }
}

/// The inner part of a value without an expiry.
pub fn encode_plain(value: &[u8]) -> (r: Vec<u8>)
    ensures
        r@ == plain(value@),
{
    if is_tombstone(value) || (value.len() >= 9 && value[0] == TTL_MARKER) {
        encode_with_expiry(value, NEVER)
    } else {
        copy_bytes(value)
    }
}

/// Whether an inner part is a tombstone.
fn is_tombstone(v: &[u8]) -> (r: bool)
    ensures
        r == (v@ == tombstone()),
{
    if v.len() == 1 && v[0] == TOMBSTONE {
        assert(v@ =~= tombstone());
        true
    } else {
        proof {
            if v@ == tombstone() {
                assert(v@.len() == 1);
                assert(v@[0] == TOMBSTONE);
            }
        }
        false
    }
}

/// What an inner part shows at the time `now`: nothing if it is a tombstone or
/// has expired.
pub fn unpack_inner(v: &[u8], now: u64) -> (r: Option<Vec<u8>>)
    ensures
        match (r, shown_inner(v@, now)) {
            (Some(a), Some(b)) => a@ == b,
            (None, None) => true,
            _ => false,
        },
{
    if is_tombstone(v) {
        return None;
    }
    unwrap_ttl(v, now)
}

/// What an inner part that is no tombstone shows at the time `now`. Values
/// without an expiry are returned as they are.
fn unwrap_ttl(v: &[u8], now: u64) -> (r: Option<Vec<u8>>)
    requires
        v@ != tombstone(),
    ensures
        match (r, shown_inner(v@, now)) {
            (Some(a), Some(b)) => a@ == b,
            (None, None) => true,
            _ => false,
        },
{
    if v.len() >= 9 && v[0] == TTL_MARKER {
        let expiry = read_u64(v, 1);
        if expiry != NEVER && now >= expiry {
            return None;
        }
        let value = copy_range(v, 9, v.len());
        assert(value@ =~= v@.skip(9));
        Some(value)
    } else {
        Some(copy_bytes(v))
    }
}

/// Map a stored value to the user-visible result at the time `now`.
pub fn unpack_value(v: &[u8], now: u64) -> (r: Option<Vec<u8>>)
    ensures
        match (r, shown(v@, now)) {
            (Some(a), Some(b)) => a@ == b,
            (None, None) => true,
            _ => false,
        },
{
    let (inner, _) = decode_with_seq(v);
    unpack_inner(inner.as_slice(), now)
}

} // verus!
