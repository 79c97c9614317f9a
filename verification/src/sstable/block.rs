//! SSTable data blocks.
//!
//! A block is a list of key-value pairs in key order. On disk each key is cut
//! down to what it does not share with the key before it:
//!
//! ```text
//! [num_entries: u32]
//! for each entry:
//!     [shared_len: u16] [suffix_len: u16] [suffix] [value_len: u32] [value]
//! ```
//!
//! All integers are little-endian.

use vstd::prelude::*;

use crate::bytes::{append_bytes, copy_range, le_bytes, le_bytes_len, le_value, push_u16, push_u32};
use crate::bytes::{le_bounds, le_bytes_are_digits, le_bytes_of_le_value};
use crate::bytes::{le_value_of_le_bytes, read_u16, read_u32};
use crate::entries::{pairs, pairs_push, Entry};
use crate::error::{corruption, is_corruption, Result};
use crate::memtable::skiplist::capped;

verus! {

/// What an entry counts besides its key and value: two `u16` and a `u32`.
pub const ENTRY_HEADER: usize = 8;

/// How many bytes `a` and `b` share at their front.
pub open spec fn shared_prefix(a: Seq<u8>, b: Seq<u8>) -> nat
    decreases a.len(),
{
    if a.len() > 0 && b.len() > 0 && a[0] == b[0] {
        1 + shared_prefix(a.drop_first(), b.drop_first())
    } else {
        0
    }
}

/// The key that the entry after `s` is cut down against.
pub open spec fn previous_key(s: Seq<Entry>) -> Seq<u8> {
    if s.len() == 0 {
        Seq::empty()
    } else {
        s.last().0
    }
}

/// The bytes of an entry that follows the key `prev`.
pub open spec fn entry_bytes(prev: Seq<u8>, e: Entry) -> Seq<u8> {
    let shared = shared_prefix(prev, e.0);
    le_bytes(shared, 2) + le_bytes((e.0.len() - shared) as nat, 2) + e.0.skip(shared as int)
        + le_bytes(e.1.len(), 4) + e.1
}

/// The bytes of a list of entries.
pub open spec fn entries_bytes(s: Seq<Entry>) -> Seq<u8>
    decreases s.len(),
{
    if s.len() == 0 {
        Seq::empty()
    } else {
        entries_bytes(s.drop_last()) + entry_bytes(previous_key(s.drop_last()), s.last())
    }
}

/// The bytes of a block.
pub open spec fn block_bytes(s: Seq<Entry>) -> Seq<u8> {
    le_bytes(s.len(), 4) + entries_bytes(s)
}

/// What the entries count together, uncompressed.
pub open spec fn entries_size(s: Seq<Entry>) -> int
    decreases s.len(),
{
    if s.len() == 0 {
        0
    } else {
        entries_size(s.drop_last()) + ENTRY_HEADER + s.last().0.len() + s.last().1.len()
    }
}

/// Read the entry at `pos`, behind the key `prev`: the entry and where it ends,
/// or what is wrong.
pub open spec fn parse_entry(buf: Seq<u8>, pos: int, prev: Seq<u8>) -> std::result::Result<
    (Entry, int),
    Seq<char>,
> {
    let shared = le_value(buf.subrange(pos, pos + 2)) as int;
    let suffix_len = le_value(buf.subrange(pos + 2, pos + 4)) as int;
    let key_end = pos + 4 + suffix_len;
    let value_len = le_value(buf.subrange(key_end, key_end + 4)) as int;
    let end = key_end + 4 + value_len;
    if buf.len() < pos + 4 {
        Err("block truncated in prefix header"@)
    } else if buf.len() < key_end {
        Err("block truncated in key suffix"@)
    } else if prev.len() < shared {
        Err("block shares more than the previous key"@)
    } else if buf.len() < key_end + 4 {
        Err("block truncated in value_len"@)
    } else if buf.len() < end {
        Err("block truncated in value"@)
    } else {
        Ok(
            (
                (prev.take(shared) + buf.subrange(pos + 4, key_end), buf.subrange(key_end + 4, end)),
                end,
            ),
        )
    }
}

/// Read the first `n` entries of a block: the entries and where they end.
pub open spec fn parse_entries(buf: Seq<u8>, n: nat) -> std::result::Result<
    (Seq<Entry>, int),
    Seq<char>,
>
    decreases n,
{
    if n == 0 {
        Ok((Seq::empty(), 4))
    } else {
        match parse_entries(buf, (n - 1) as nat) {
            Err(msg) => Err(msg),
            Ok((s, pos)) => match parse_entry(buf, pos, previous_key(s)) {
                Err(msg) => Err(msg),
                Ok((e, end)) => Ok((s.push(e), end)),
            },
        }
    }
}

/// Read a block: its entries and where they end, or what is wrong.
pub open spec fn parse_block(buf: Seq<u8>) -> std::result::Result<(Seq<Entry>, int), Seq<char>> {
    if buf.len() < 4 {
        Err("block too short"@)
    } else {
        parse_entries(buf, le_value(buf.subrange(0, 4)))
    }
}

/// The lengths of an entry fit the fields that hold them.
pub open spec fn entry_fits(prev: Seq<u8>, e: Entry) -> bool {
    &&& shared_prefix(prev, e.0) <= 0xffff
    &&& e.0.len() - shared_prefix(prev, e.0) <= 0xffff
    &&& e.1.len() <= 0xffff_ffff
}

/// All lengths of a block fit the fields that hold them.
pub open spec fn block_fits(s: Seq<Entry>) -> bool {
    &&& s.len() <= 0xffff_ffff
    &&& forall|i: int|
        0 <= i < s.len() ==> #[trigger] entry_fits(previous_key(s.take(i)), s[i])
}

/// Shared bytes are bytes of both, and equal.
pub proof fn shared_prefix_is_shared(a: Seq<u8>, b: Seq<u8>)
    ensures
        shared_prefix(a, b) <= a.len(),
        shared_prefix(a, b) <= b.len(),
        a.take(shared_prefix(a, b) as int) == b.take(shared_prefix(a, b) as int),
    decreases a.len(),
{
    let n = shared_prefix(a, b);
    if a.len() > 0 && b.len() > 0 && a[0] == b[0] {
        shared_prefix_is_shared(a.drop_first(), b.drop_first());
        assert(a.take(n as int) =~= seq![a[0]] + a.drop_first().take(n - 1));
        assert(b.take(n as int) =~= seq![b[0]] + b.drop_first().take(n - 1));
    } else {
        assert(a.take(0) =~= b.take(0));
    }
}

/// What two keys share at their front is all that they share there: behind it they
/// differ, or one of them ends.
pub proof fn shared_prefix_is_longest(a: Seq<u8>, b: Seq<u8>)
    ensures
        ({
            let n = shared_prefix(a, b) as int;
            &&& n <= a.len() && n <= b.len()
            &&& a.take(n) == b.take(n)
            &&& n < a.len() && n < b.len() ==> a[n] != b[n]
        }),
    decreases a.len(),
{
    shared_prefix_is_shared(a, b);
    if a.len() > 0 && b.len() > 0 && a[0] == b[0] {
        shared_prefix_is_longest(a.drop_first(), b.drop_first());
    }
}

/// The bytes of an entry: how many bytes its key shares with the one before, how
/// many follow, these, the length of the value, and the value. The bytes of a block
/// are the number of its entries and then the entries one after the other, each
/// against the key before it.
pub proof fn entry_layout(prev: Seq<u8>, e: Entry, n: nat, s: Seq<Entry>)
    requires
        n <= prev.len(),
        n <= e.0.len(),
        prev.take(n as int) == e.0.take(n as int),
        n < prev.len() && n < e.0.len() ==> prev[n as int] != e.0[n as int],
    ensures
        entry_bytes(prev, e) == le_bytes(n, 2) + le_bytes((e.0.len() - n) as nat, 2) + e.0.skip(
            n as int,
        ) + le_bytes(e.1.len(), 4) + e.1,
        block_bytes(Seq::empty()) == seq![0u8, 0, 0, 0],
        block_bytes(s).take(4) == le_bytes(s.len(), 4),
        block_bytes(s.push(e)).skip(4) == block_bytes(s).skip(4) + entry_bytes(
            if s.len() == 0 {
                Seq::empty()
            } else {
                s.last().0
            },
            e,
        ),
{
    shared_prefix_is_longest(prev, e.0);
    let m = shared_prefix(prev, e.0);
    if m < n {
        assert(prev[m as int] == prev.take(n as int)[m as int]);
        assert(e.0[m as int] == e.0.take(n as int)[m as int]);
    }
    if n < m {
        assert(prev[n as int] == prev.take(m as int)[n as int]);
        assert(e.0[n as int] == e.0.take(m as int)[n as int]);
    }
    assert(m == n);
    le_bytes_are_digits(0);
    le_bytes_len(s.len(), 4);
    le_bytes_len(s.push(e).len(), 4);
    assert(block_bytes(Seq::empty()) =~= seq![0u8, 0, 0, 0]);
    assert(block_bytes(s).take(4) =~= le_bytes(s.len(), 4));
    assert(block_bytes(s).skip(4) =~= entries_bytes(s));
    assert(block_bytes(s.push(e)).skip(4) =~= entries_bytes(s.push(e)));
    assert(s.push(e).drop_last() =~= s);
}

/// An entry is read from its bytes with any number of shared bytes that the key
/// before has, whatever follows, and only from such bytes.
pub proof fn entry_reads_shared(buf: Seq<u8>, pos: int, prev: Seq<u8>)
    requires
        0 <= pos,
    ensures
        parse_entry(buf, pos, prev) is Ok <==> ({
            let suffix_len = le_value(buf.subrange(pos + 2, pos + 4)) as int;
            let value_len = le_value(buf.subrange(pos + 4 + suffix_len, pos + 8 + suffix_len)) as int;
            &&& pos + 4 <= buf.len()
            &&& pos + 8 + suffix_len <= buf.len()
            &&& pos + 8 + suffix_len + value_len <= buf.len()
            &&& le_value(buf.subrange(pos, pos + 2)) <= prev.len()
        }),
        parse_entry(buf, pos, prev) matches Ok((e, end)) ==> ({
            let shared = le_value(buf.subrange(pos, pos + 2)) as int;
            &&& shared <= e.0.len()
            &&& e.0.take(shared) == prev.take(shared)
            &&& end <= buf.len()
            &&& buf.subrange(pos, end) == le_bytes(shared as nat, 2) + le_bytes(
                (e.0.len() - shared) as nat,
                2,
            ) + e.0.skip(shared) + le_bytes(e.1.len(), 4) + e.1
        }),
{
    if parse_entry(buf, pos, prev) is Ok {
        let (e, end) = parse_entry(buf, pos, prev)->Ok_0;
        let a = buf.subrange(pos, pos + 2);
        let b = buf.subrange(pos + 2, pos + 4);
        let shared = le_value(a) as int;
        let n = le_value(b) as int;
        let c = buf.subrange(pos + 4 + n, pos + 8 + n);
        le_bytes_of_le_value(a);
        le_bytes_of_le_value(b);
        le_bytes_of_le_value(c);
        assert(e.0.take(shared) =~= prev.take(shared));
        assert(e.0.skip(shared) =~= buf.subrange(pos + 4, pos + 4 + n));
        assert(buf.subrange(pos, end) =~= a + b + e.0.skip(shared) + c + e.1);
    }
}

/// A block is read entry by entry, as many as its first four bytes tell, each where
/// the one before ends and against its key. The first that cannot be read fails the
/// block.
pub proof fn block_reads_one_by_one(buf: Seq<u8>, n: nat)
    ensures
        buf.len() < 4 ==> parse_block(buf) is Err,
        buf.len() >= 4 ==> parse_block(buf) == parse_entries(buf, le_value(buf.take(4))),
        parse_entries(buf, 0) == Ok::<(Seq<Entry>, int), Seq<char>>((Seq::empty(), 4)),
        parse_entries(buf, n) is Err ==> parse_entries(buf, n + 1) is Err,
        parse_entries(buf, n) matches Ok((s, pos)) ==> {
            let prev = if s.len() == 0 {
                Seq::empty()
            } else {
                s.last().0
            };
            match parse_entry(buf, pos, prev) {
                Ok((e, end)) => parse_entries(buf, n + 1) == Ok::<(Seq<Entry>, int), Seq<char>>(
                    (s.push(e), end),
                ),
                Err(msg) => parse_entries(buf, n + 1) is Err,
            }
        },
{
    if buf.len() >= 4 {
        assert(buf.subrange(0, 4) =~= buf.take(4));
    }
}

/// What entries count, one by one: eight bytes, the key and the value of each.
pub proof fn entries_size_adds(s: Seq<Entry>, e: Entry)
    ensures
        entries_size(Seq::empty()) == 0,
        entries_size(s.push(e)) == entries_size(s) + 8 + e.0.len() + e.1.len(),
{
    assert(s.push(e).drop_last() =~= s);
}

/// A written entry reads back as itself.
pub proof fn entry_roundtrip(buf: Seq<u8>, pos: int, prev: Seq<u8>, e: Entry)
    requires
        0 <= pos,
        pos + entry_bytes(prev, e).len() <= buf.len(),
        buf.subrange(pos, pos + entry_bytes(prev, e).len()) == entry_bytes(prev, e),
        entry_fits(prev, e),
    ensures
        parse_entry(buf, pos, prev) == Ok::<(Entry, int), Seq<char>>(
            (e, pos + entry_bytes(prev, e).len()),
        ),
{
    let shared = shared_prefix(prev, e.0);
    let suffix = e.0.skip(shared as int);
    let w = entry_bytes(prev, e);
    shared_prefix_is_shared(prev, e.0);
    le_bounds();
    le_value_of_le_bytes(shared, 2);
    le_value_of_le_bytes(suffix.len(), 2);
    le_value_of_le_bytes(e.1.len(), 4);
    let n = suffix.len() as int;
    let key_end = pos + 4 + n;
    assert(buf.subrange(pos, pos + 2) =~= w.subrange(0, 2));
    assert(w.subrange(0, 2) =~= le_bytes(shared, 2));
    assert(buf.subrange(pos + 2, pos + 4) =~= w.subrange(2, 4));
    assert(w.subrange(2, 4) =~= le_bytes(suffix.len(), 2));
    assert(buf.subrange(pos + 4, key_end) =~= w.subrange(4, 4 + n));
    assert(w.subrange(4, 4 + n) =~= suffix);
    assert(buf.subrange(key_end, key_end + 4) =~= w.subrange(4 + n, 8 + n));
    assert(w.subrange(4 + n, 8 + n) =~= le_bytes(e.1.len(), 4));
    assert(buf.subrange(key_end + 4, key_end + 4 + e.1.len()) =~= w.subrange(
        8 + n,
        w.len() as int,
    ));
    assert(w.subrange(8 + n, w.len() as int) =~= e.1);
    assert(prev.take(shared as int) + suffix =~= e.0);
}

/// The bytes of the first entries stand at the front of the bytes of all.
pub proof fn entries_bytes_prefix(s: Seq<Entry>, n: int)
    requires
        0 <= n <= s.len(),
    ensures
        entries_bytes(s.take(n)).len() <= entries_bytes(s).len(),
        entries_bytes(s).take(entries_bytes(s.take(n)).len() as int) == entries_bytes(s.take(n)),
    decreases s.len(),
{
    if n == s.len() {
        assert(s.take(n) =~= s);
        assert(entries_bytes(s).take(entries_bytes(s).len() as int) =~= entries_bytes(s));
    } else {
        let front = s.drop_last();
        entries_bytes_prefix(front, n);
        assert(front.take(n) =~= s.take(n));
        let k = entries_bytes(s.take(n)).len() as int;
        assert(entries_bytes(s).take(k) =~= entries_bytes(front).take(k));
    }
}

/// A block whose lengths fit their fields reads back as its entries.
pub proof fn block_roundtrip(s: Seq<Entry>)
    requires
        block_fits(s),
    ensures
        parse_block(block_bytes(s)) == Ok::<(Seq<Entry>, int), Seq<char>>(
            (s, block_bytes(s).len() as int),
        ),
{
    let buf = block_bytes(s);
    le_bounds();
    le_value_of_le_bytes(s.len(), 4);
    assert(buf.subrange(0, 4) =~= le_bytes(s.len(), 4));
    block_roundtrip_prefix(s, s.len() as int);
    assert(s.take(s.len() as int) =~= s);
}

proof fn block_roundtrip_prefix(s: Seq<Entry>, n: int)
    requires
        block_fits(s),
        0 <= n <= s.len(),
    ensures
        parse_entries(block_bytes(s), n as nat) == Ok::<(Seq<Entry>, int), Seq<char>>(
            (s.take(n), 4 + entries_bytes(s.take(n)).len() as int),
        ),
    decreases n,
{
    let buf = block_bytes(s);
    le_bytes_len(s.len(), 4);
    if n == 0 {
        assert(s.take(0) =~= Seq::<Entry>::empty());
    } else {
        block_roundtrip_prefix(s, n - 1);
        let before = s.take(n - 1);
        let upto = s.take(n);
        let prev = previous_key(before);
        let e = s[n - 1];
        assert(upto.drop_last() =~= before);
        assert(upto.last() == e);
        let pos = 4 + entries_bytes(before).len() as int;
        let w = entry_bytes(prev, e);
        entries_bytes_prefix(s, n);
        assert(entries_bytes(upto) == entries_bytes(before) + w);
        assert(buf.subrange(pos, pos + w.len()) =~= w) by {
            assert(buf.subrange(pos, pos + w.len()) =~= entries_bytes(s).take(
                entries_bytes(upto).len() as int,
            ).subrange(pos - 4, pos - 4 + w.len()));
        }
        assert(entry_fits(previous_key(s.take(n - 1)), s[n - 1]));
        entry_roundtrip(buf, pos, prev, e);
        assert(before.push(e) =~= upto);
    }
}

/// The bytes of a list of entries are no more than what the entries count.
pub proof fn entries_bytes_bound(s: Seq<Entry>)
    ensures
        entries_bytes(s).len() <= entries_size(s),
    decreases s.len(),
{
    if s.len() > 0 {
        let front = s.drop_last();
        entries_bytes_bound(front);
        let prev = previous_key(front);
        shared_prefix_is_shared(prev, s.last().0);
        le_bytes_len(shared_prefix(prev, s.last().0), 2);
        le_bytes_len((s.last().0.len() - shared_prefix(prev, s.last().0)) as nat, 2);
        le_bytes_len(s.last().1.len(), 4);
    }
}

/// An entry that cannot be read leaves the block unreadable.
proof fn parse_error_stays(buf: Seq<u8>, i: nat, n: nat)
    requires
        i <= n,
        parse_entries(buf, i) is Err,
    ensures
        parse_entries(buf, n) == parse_entries(buf, i),
    decreases n - i,
{
    if i < n {
        parse_error_stays(buf, i, (n - 1) as nat);
    }
}

/// An in-memory data block.
#[derive(Debug, Clone)]
pub struct Block {
    /// The entries, in key order.
    pub entries: Vec<(Vec<u8>, Vec<u8>)>,
    /// Running total of the entries' sizes.
    pub encoded_size: usize,
}

/// What a block holds, and what it counts as.
pub struct BlockShape {
    /// The entries.
    pub entries: Seq<Entry>,
    /// The running total of the entries' sizes.
    pub size: nat,
}

impl View for Block {
    type V = Seq<Entry>;

    open spec fn view(&self) -> Seq<Entry> {
        pairs(self.entries@)
    }
}

impl Default for Block {
    fn default() -> (r: Self)
        ensures
            r@ == Seq::<Entry>::empty(),
            r.spec_size() == 0,
    {
        Self::new()
    }
}

impl Block {
    /// The running total of the entries' sizes.
    pub open spec fn spec_size(&self) -> usize {
        self.encoded_size
    }

    /// What the block holds, and what it counts as.
    pub open spec fn shape(&self) -> BlockShape {
        BlockShape { entries: self@, size: self.spec_size() as nat }
    }

    /// An empty block.
    pub fn new() -> (r: Self)
        ensures
            r@ == Seq::<Entry>::empty(),
            r.spec_size() == 0,
    {
        let r = Block { entries: Vec::new(), encoded_size: 0 };
        assert(r@ =~= Seq::<Entry>::empty());
        r
    }

    /// Append an entry. Callers ensure that keys arrive in order.
    pub fn add(&mut self, key: Vec<u8>, value: Vec<u8>)
        ensures
            final(self)@ == old(self)@.push((key@, value@)),
            final(self).spec_size() == capped(
                old(self).spec_size() + ENTRY_HEADER + key@.len() + value@.len(),
            ),
    {
        proof {
            pairs_push(self.entries@, (key, value));
        }
        self.encoded_size = self.encoded_size.saturating_add(ENTRY_HEADER).saturating_add(
            key.len(),
        ).saturating_add(value.len());
        self.entries.push((key, value));
    }

    /// Whether the block is empty.
    pub fn is_empty(&self) -> (r: bool)
        ensures
            r == (self@.len() == 0),
    {
        self.entries.len() == 0
    }

    /// Number of entries in the block.
    pub fn len(&self) -> (r: usize)
        ensures
            r == self@.len(),
    {
        self.entries.len()
    }

    /// The running total of the entries' sizes: what the added entries count,
    /// or, of a block that was read, the bytes behind its entry count.
    pub fn estimated_size(&self) -> (r: usize)
        ensures
            r == self.spec_size(),
    {
        self.encoded_size
    }

    /// The last key in the block, which is not empty.
    pub fn last_key(&self) -> (r: &[u8])
        requires
            self@.len() > 0,
        ensures
            r@ == self@.last().0,
    {
        self.entries[self.entries.len() - 1].0.as_slice()
    }

    /// Serialize the block.
    pub fn encode(&self) -> (r: Vec<u8>)
        ensures
            r@ == block_bytes(self@),
    {
        let ghost s = self@;
        let mut buf: Vec<u8> = Vec::new();
        push_u32(&mut buf, self.entries.len() as u64);
        let ghost head = buf@;
        let mut i: usize = 0;
        assert(s.take(0) =~= Seq::<Entry>::empty());
        assert(buf@ =~= head + entries_bytes(s.take(0)));
        assert(head =~= le_bytes(s.len(), 4));
        while i < self.entries.len()
            invariant
                s == self@,
                i <= self.entries@.len(),
                buf@ == head + entries_bytes(s.take(i as int)),
            decreases self.entries@.len() - i,
        {
            let ghost before = s.take(i as int);
            let ghost prev = previous_key(before);
            let key = self.entries[i].0.as_slice();
            let value = self.entries[i].1.as_slice();
            let shared = if i == 0 {
                proof {
                    assert(shared_prefix(prev, key@) == 0);
                }
                0
            } else {
                Self::prefix_shared_len(self.entries[i - 1].0.as_slice(), key)
            };
            assert(shared == shared_prefix(prev, key@));
            proof {
                shared_prefix_is_shared(prev, key@);
            }
            push_u16(&mut buf, shared as u64);
            push_u16(&mut buf, (key.len() - shared) as u64);
            append_bytes(&mut buf, vstd::slice::slice_subrange(key, shared, key.len()));
            push_u32(&mut buf, value.len() as u64);
            append_bytes(&mut buf, value);
            proof {
                let upto = s.take(i + 1);
                assert(upto.drop_last() =~= before);
                assert(upto.last() == s[i as int]);
                assert(key@.subrange(shared as int, key@.len() as int) =~= key@.skip(
                    shared as int,
                ));
                assert(buf@ =~= head + (entries_bytes(before) + entry_bytes(prev, s[i as int])));
            }
            i = i + 1;
        }
        assert(s.take(i as int) =~= s);
        buf
    }

    /// Read a block back from its bytes.
    pub fn decode(buf: &[u8]) -> (r: Result<Self>)
        ensures
            match (r, parse_block(buf@)) {
                (Ok(block), Ok((s, end))) => block@ == s && block.spec_size() == end - 4,
                (Err(e), Err(msg)) => is_corruption(e, msg),
                _ => false,
            },
    {
        if buf.len() < 4 {
            return Err(corruption("block too short"));
        }
        let num_entries = read_u32(buf, 0);
        let mut entries: Vec<(Vec<u8>, Vec<u8>)> = Vec::new();
        let mut offset: usize = 4;
        let mut i: u32 = 0;
        assert(pairs(entries@) =~= Seq::<Entry>::empty());
        while i < num_entries
            invariant
                i <= num_entries,
                4 <= offset <= buf.len(),
                num_entries == le_value(buf@.subrange(0, 4)),
                buf.len() >= 4,
                parse_entries(buf@, i as nat) == Ok::<(Seq<Entry>, int), Seq<char>>(
                    (pairs(entries@), offset as int),
                ),
            decreases num_entries - i,
        {
            let ghost prev = previous_key(pairs(entries@));
            let ghost step = parse_entry(buf@, offset as int, prev);
            proof {
                if step is Err {
                    assert(parse_entries(buf@, (i + 1) as nat) is Err);
                    parse_error_stays(buf@, (i + 1) as nat, num_entries as nat);
                }
            }
            if buf.len() - offset < 4 {
                return Err(corruption("block truncated in prefix header"));
            }
            let shared = read_u16(buf, offset) as usize;
            let suffix_len = read_u16(buf, offset + 2) as usize;
            let suffix_start = offset + 4;
            if buf.len() - suffix_start < suffix_len {
                return Err(corruption("block truncated in key suffix"));
            }
            let key_end = suffix_start + suffix_len;
            let prev_len = if entries.len() == 0 {
                0
            } else {
                entries[entries.len() - 1].0.len()
            };
            if prev_len < shared {
                return Err(corruption("block shares more than the previous key"));
            }
            let mut key: Vec<u8> = Vec::new();
            if entries.len() > 0 {
                key = copy_range(entries[entries.len() - 1].0.as_slice(), 0, shared);
            }
            assert(key@ =~= prev.take(shared as int));
            append_bytes(&mut key, vstd::slice::slice_subrange(buf, suffix_start, key_end));
            if buf.len() - key_end < 4 {
                return Err(corruption("block truncated in value_len"));
            }
            let value_len = read_u32(buf, key_end) as usize;
            let value_start = key_end + 4;
            if buf.len() - value_start < value_len {
                return Err(corruption("block truncated in value"));
            }
            let value = copy_range(buf, value_start, value_start + value_len);
            proof {
                pairs_push(entries@, (key, value));
            }
            entries.push((key, value));
            offset = value_start + value_len;
            i = i + 1;
        }
        Ok(Block { entries, encoded_size: offset - 4 })
    }

    /// How many bytes two keys share at their front.
    fn prefix_shared_len(a: &[u8], b: &[u8]) -> (r: usize)
        ensures
            r == shared_prefix(a@, b@),
    {
        let mut i: usize = 0;
        assert(a@.skip(0) =~= a@);
        assert(b@.skip(0) =~= b@);
        while i < a.len() && i < b.len() && a[i] == b[i]
            invariant
                i <= a@.len(),
                i <= b@.len(),
                shared_prefix(a@, b@) == i + shared_prefix(a@.skip(i as int), b@.skip(i as int)),
            decreases a@.len() - i,
        {
            assert(a@.skip(i as int).drop_first() =~= a@.skip(i + 1));
            assert(b@.skip(i as int).drop_first() =~= b@.skip(i + 1));
            i = i + 1;
        }
        i
    }
}

} // verus!
