//! The SSTable file format.
//!
//! ```text
//! [Data Block 0] [Data Block 1] ... [Index Block] [Bloom Filter] [Footer(8B)]
//! ```
//!
//! The index block holds, for each data block, its offset and its last key:
//!
//! ```text
//! [num_blocks: u32]
//! for each block:
//!     [offset: u32] [key_len: u32] [last_key]
//! ```
//!
//! Footer = `index_offset: u32` + `bloom_offset: u32`. All integers are
//! little-endian.

use vstd::prelude::*;

use crate::bytes::{le_bounds, le_bytes, le_bytes_len, le_bytes_of_le_value, le_value};
use crate::bytes::le_value_of_le_bytes;
use crate::bytes::{bisect_increasing, bisect_point};
use crate::bytes::{lex_le, lex_lt, lex_lt_asymmetric, lex_lt_irreflexive};
use crate::entries::{
    found_in, found_in_sorted, keys_of, map_of, map_of_contains, map_of_sorted, sorted, value_of,
    Entry,
};
use crate::filter::bloom::{
    filter_bytes, filter_roundtrip, no_false_negatives, parse_filter, BloomView,
};
use crate::memtable::skiplist::capped;
use crate::sstable::block::{
    block_bytes, block_fits, block_roundtrip, entries_bytes, entries_bytes_bound, entries_size,
    entries_size_adds, entry_fits, parse_block, previous_key, shared_prefix_is_shared, BlockShape,
    ENTRY_HEADER,
};
use crate::text::decimal;

verus! {

/// What a table looks like once its footer, index and filter are read.
#[verifier::ext_equal]
pub struct TableView {
    /// The bytes of the file.
    pub data: Seq<u8>,
    /// Where each data block starts, and its last key.
    pub index: Seq<(int, Seq<u8>)>,
    /// Where the index block starts, which is where the data blocks end.
    pub index_offset: int,
    /// The filter over the keys.
    pub filter: BloomView,
}

/// Whether an entry starts a block of its own rather than join `block`.
pub open spec fn starts_block(block: Seq<Entry>, e: Entry, block_size: int) -> bool {
    capped(entries_size(block) + e.0.len() + e.1.len() + ENTRY_HEADER) > block_size
}

/// The data blocks once one more entry is placed.
pub open spec fn place(
    blocks: Seq<Seq<Entry>>,
    e: Entry,
    block_size: int,
) -> Seq<Seq<Entry>> {
    if blocks.len() == 0 || starts_block(blocks.last(), e, block_size) {
        blocks.push(seq![e])
    } else {
        blocks.drop_last().push(blocks.last().push(e))
    }
}

/// The data blocks that a list of entries is cut into.
pub open spec fn cut(s: Seq<Entry>, block_size: int) -> Seq<Seq<Entry>>
    decreases s.len(),
{
    if s.len() == 0 {
        Seq::empty()
    } else {
        place(cut(s.drop_last(), block_size), s.last(), block_size)
    }
}

/// The entries of a list of blocks.
pub open spec fn joined(blocks: Seq<Seq<Entry>>) -> Seq<Entry>
    decreases blocks.len(),
{
    if blocks.len() == 0 {
        Seq::empty()
    } else {
        joined(blocks.drop_last()) + blocks.last()
    }
}

/// The bytes of a list of blocks.
pub open spec fn blocks_bytes(blocks: Seq<Seq<Entry>>) -> Seq<u8>
    decreases blocks.len(),
{
    if blocks.len() == 0 {
        Seq::empty()
    } else {
        blocks_bytes(blocks.drop_last()) + block_bytes(blocks.last())
    }
}

/// The index of a list of blocks.
pub open spec fn index_of(blocks: Seq<Seq<Entry>>) -> Seq<(int, Seq<u8>)> {
    Seq::new(
        blocks.len(),
        |i: int| (blocks_bytes(blocks.take(i)).len() as int, blocks[i].last().0),
    )
}

/// The bytes of one index entry.
pub open spec fn index_entry_bytes(e: (int, Seq<u8>)) -> Seq<u8> {
    le_bytes(e.0 as nat, 4) + le_bytes(e.1.len(), 4) + e.1
}

/// The bytes of a list of index entries.
pub open spec fn index_entries_bytes(index: Seq<(int, Seq<u8>)>) -> Seq<u8>
    decreases index.len(),
{
    if index.len() == 0 {
        Seq::empty()
    } else {
        index_entries_bytes(index.drop_last()) + index_entry_bytes(index.last())
    }
}

/// The bytes of an index block.
pub open spec fn index_bytes(index: Seq<(int, Seq<u8>)>) -> Seq<u8> {
    le_bytes(index.len(), 4) + index_entries_bytes(index)
}

/// The bytes of a table file.
pub open spec fn table_bytes(blocks: Seq<Seq<Entry>>, filter: BloomView) -> Seq<u8> {
    let index = index_bytes(index_of(blocks));
    let index_offset = blocks_bytes(blocks).len();
    blocks_bytes(blocks) + index + filter_bytes(filter) + le_bytes(index_offset, 4) + le_bytes(
        index_offset + index.len(),
        4,
    )
}

/// The longest key that a table holds: its length has two bytes.
pub const MAX_KEY_LEN: usize = 0xffff;

/// The length of every key fits the field that holds it.
pub open spec fn keys_fit(s: Seq<Entry>) -> bool {
    forall|i: int| 0 <= i < s.len() ==> (#[trigger] s[i]).0.len() <= MAX_KEY_LEN
}

/// The keys, the offsets and the filter of a table of these entries fit the
/// fields that hold them.
pub open spec fn table_fits(s: Seq<Entry>, block_size: int, bits_per_key: nat) -> bool {
    let blocks = cut(s, block_size);
    &&& keys_fit(s)
    &&& blocks_bytes(blocks).len() + index_bytes(index_of(blocks)).len() <= 0xffff_ffff
    &&& s.len() * bits_per_key <= 0xffff_ffff
}

/// What keeps entries from making a table.
pub open spec fn misfit(s: Seq<Entry>) -> Seq<char> {
    if keys_fit(s) {
        "SSTable too large"@
    } else {
        "key too long"@
    }
}

/// Entries are refused for a key of more than 65535 bytes if they have one, and
/// otherwise for the size of the table.
pub proof fn misfit_tells_why(s: Seq<Entry>)
    ensures
        (exists|i: int| 0 <= i < s.len() && (#[trigger] s[i]).0.len() > 65535) ==> misfit(s)
            == "key too long"@,
        (forall|i: int| 0 <= i < s.len() ==> (#[trigger] s[i]).0.len() <= 65535) ==> misfit(s)
            == "SSTable too large"@,
{
}

/// Read the index entry at `pos`: the entry and where it ends, or what is wrong.
pub open spec fn parse_index_entry(data: Seq<u8>, pos: int) -> std::result::Result<
    ((int, Seq<u8>), int),
    Seq<char>,
> {
    let offset = le_value(data.subrange(pos, pos + 4)) as int;
    let key_len = le_value(data.subrange(pos + 4, pos + 8)) as int;
    if data.len() < pos + 8 {
        Err("index entry truncated"@)
    } else if data.len() < pos + 8 + key_len {
        Err("index entry key truncated"@)
    } else {
        Ok(((offset, data.subrange(pos + 8, pos + 8 + key_len)), pos + 8 + key_len))
    }
}

/// Read the first `n` index entries of an index block at `offset`.
pub open spec fn parse_index_entries(data: Seq<u8>, offset: int, n: nat) -> std::result::Result<
    (Seq<(int, Seq<u8>)>, int),
    Seq<char>,
>
    decreases n,
{
    if n == 0 {
        Ok((Seq::empty(), offset + 4))
    } else {
        match parse_index_entries(data, offset, (n - 1) as nat) {
            Err(msg) => Err(msg),
            Ok((s, pos)) => match parse_index_entry(data, pos) {
                Err(msg) => Err(msg),
                Ok((e, end)) => Ok((s.push(e), end)),
            },
        }
    }
}

/// Read the index block at `offset`: its entries and where they end.
pub open spec fn parse_index(data: Seq<u8>, offset: int) -> std::result::Result<
    (Seq<(int, Seq<u8>)>, int),
    Seq<char>,
> {
    if data.len() < offset + 4 {
        Err("index block too short"@)
    } else {
        parse_index_entries(data, offset, le_value(data.subrange(offset, offset + 4)))
    }
}

/// Read a table file, or say what is wrong.
pub open spec fn parse_table(data: Seq<u8>) -> std::result::Result<TableView, Seq<char>> {
    let end = data.len() - 8;
    let index_offset = le_value(data.subrange(end, end + 4)) as int;
    let bloom_offset = le_value(data.subrange(end + 4, end + 8)) as int;
    if data.len() < 8 {
        Err("SSTable file too short"@)
    } else {
        match parse_index(data, index_offset) {
            Err(msg) => Err(msg),
            Ok((index, _)) => if end < bloom_offset {
                Err("bloom filter offset out of range"@)
            } else {
                match parse_filter(data.subrange(bloom_offset, end)) {
                    Err(msg) => Err(msg),
                    Ok(filter) => if !filter.wf() {
                        Err("bloom filter inconsistent"@)
                    } else {
                        Ok(TableView { data, index, index_offset, filter })
                    },
                }
            },
        }
    }
}

impl TableView {
    /// Where the data block `i` ends.
    pub open spec fn block_end(self, i: int) -> int {
        if i + 1 < self.index.len() {
            self.index[i + 1].0
        } else {
            self.index_offset
        }
    }

    /// Read the data block `i`, or say what is wrong.
    pub open spec fn load(self, i: int) -> std::result::Result<(Seq<Entry>, int), Seq<char>> {
        let start = self.index[i].0;
        let end = self.block_end(i);
        if self.data.len() < end || end < start {
            Err(
                "block "@ + decimal(i as nat) + " offset out of range: "@ + decimal(start as nat)
                    + ".."@ + decimal(end as nat),
            )
        } else {
            parse_block(self.data.subrange(start, end))
        }
    }

    /// The entries of the data block `i`.
    pub open spec fn block(self, i: int) -> Seq<Entry> {
        self.load(i)->Ok_0.0
    }

    /// What the data block `i` holds once it is read, and what it counts as.
    pub open spec fn shape(self, i: int) -> BlockShape {
        BlockShape { entries: self.block(i), size: (self.load(i)->Ok_0.1 - 4) as nat }
    }

    /// The entries from the data block `i` on, up to the first block that cannot
    /// be read.
    pub open spec fn entries_from(self, i: int) -> Seq<Entry>
        decreases self.index.len() - i,
    {
        if i < 0 || self.index.len() <= i || self.load(i) is Err {
            Seq::empty()
        } else {
            self.block(i) + self.entries_from(i + 1)
        }
    }

    /// The entries of the table.
    pub open spec fn entries(self) -> Seq<Entry> {
        self.entries_from(0)
    }

    /// The last keys increase strictly, and so do the keys in each block.
    pub open spec fn ordered(self) -> bool {
        &&& forall|i: int, j: int|
            0 <= i < j < self.index.len() ==> lex_lt(
                #[trigger] self.index[i].1,
                #[trigger] self.index[j].1,
            )
        &&& forall|i: int|
            0 <= i < self.index.len() && #[trigger] self.load(i) is Ok ==> sorted(self.block(i))
    }

    /// The last keys of the data blocks.
    pub open spec fn last_keys(self) -> Seq<Seq<u8>> {
        Seq::new(self.index.len(), |i: int| self.index[i].1)
    }

    /// The data block that is to hold `key`: the one that bisection of the last
    /// keys finds. Where these increase it is the first that does not end before
    /// `key`.
    pub open spec fn block_of(self, key: Seq<u8>) -> int {
        bisect_point(self.last_keys(), key, 0, self.index.len() as int)
    }

    /// What a lookup of `key` gives: what bisection finds for it in its data
    /// block, unless the filter rules the key out.
    pub open spec fn lookup(self, key: Seq<u8>) -> std::result::Result<
        Option<Seq<u8>>,
        Seq<char>,
    > {
        let i = self.block_of(key);
        if !self.filter.may_contain(key) || self.index.len() <= i {
            Ok(None)
        } else {
            match self.load(i) {
                Err(msg) => Err(msg),
                Ok((s, _)) => Ok(found_in(s, key)),
            }
        }
    }

    /// The table is sound and stores exactly the entries `s`.
    pub open spec fn stores(self, s: Seq<Entry>) -> bool {
        &&& sorted(s)
        &&& self.filter.wf()
        &&& self.entries() == s
        &&& forall|i: int|
            0 <= i < self.index.len() ==> #[trigger] self.load(i) is Ok && self.block(i).len() > 0
                && self.block(i).last().0 == self.index[i].1
        &&& forall|j: int| 0 <= j < s.len() ==> self.filter.may_contain(#[trigger] s[j].0)
    }

    /// The table is sound.
    pub open spec fn sound(self) -> bool {
        self.stores(self.entries())
    }
}

/// In a table in order, exactly the blocks in front of the one that is to hold
/// `key` end before it.
pub proof fn block_of_ordered(t: TableView, key: Seq<u8>)
    requires
        t.ordered(),
    ensures
        0 <= t.block_of(key) <= t.index.len(),
        forall|i: int| 0 <= i < t.block_of(key) ==> lex_lt(#[trigger] t.index[i].1, key),
        forall|i: int|
            t.block_of(key) <= i < t.index.len() ==> !lex_lt(#[trigger] t.index[i].1, key),
{
    let keys = t.last_keys();
    assert forall|i: int, j: int| 0 <= i < j < keys.len() implies lex_lt(
        #[trigger] keys[i],
        #[trigger] keys[j],
    ) by {
        assert(lex_lt(t.index[i].1, t.index[j].1));
    }
    bisect_increasing(keys, key, 0, t.index.len() as int);
    assert forall|i: int| 0 <= i < t.block_of(key) implies lex_lt(#[trigger] t.index[i].1, key) by {
        assert(lex_lt(keys[i], key));
    }
    assert forall|i: int| t.block_of(key) <= i < t.index.len() implies !lex_lt(
        #[trigger] t.index[i].1,
        key,
    ) by {
        assert(!lex_lt(keys[i], key));
    }
}

/// Placing an entry appends it to the entries of the blocks.
proof fn place_appends(blocks: Seq<Seq<Entry>>, e: Entry, block_size: int)
    ensures
        joined(place(blocks, e, block_size)) == joined(blocks).push(e),
{
    let after = place(blocks, e, block_size);
    if blocks.len() == 0 || starts_block(blocks.last(), e, block_size) {
        assert(after.drop_last() =~= blocks);
        assert(joined(after) =~= joined(blocks).push(e));
    } else {
        assert(after.drop_last() =~= blocks.drop_last());
        assert(joined(after) =~= joined(blocks).push(e));
    }
}

/// Cutting a list into blocks loses nothing, and makes no empty block.
pub proof fn cut_joined(s: Seq<Entry>, block_size: int)
    ensures
        joined(cut(s, block_size)) == s,
        forall|i: int| 0 <= i < cut(s, block_size).len() ==> (#[trigger] cut(s, block_size)[i]).len() > 0,
    decreases s.len(),
{
    if s.len() == 0 {
        assert(joined(cut(s, block_size)) =~= s);
    } else {
        let before = cut(s.drop_last(), block_size);
        cut_joined(s.drop_last(), block_size);
        place_appends(before, s.last(), block_size);
        assert(s.drop_last().push(s.last()) =~= s);
        let after = cut(s, block_size);
        assert forall|i: int| 0 <= i < after.len() implies (#[trigger] after[i]).len() > 0 by {
            if i < before.len() {
                assert(before[i].len() > 0);
            }
        }
    }
}

/// Blocks are as large as they may be and no larger: a block of several entries
/// counts at most the block size, and the entry behind it would have made it count
/// more.
pub proof fn cut_is_tight(s: Seq<Entry>, block_size: int)
    requires
        0 <= block_size < usize::MAX,
    ensures
        forall|i: int|
            0 <= i < cut(s, block_size).len() ==> (#[trigger] cut(s, block_size)[i]).len() == 1
                || entries_size(cut(s, block_size)[i]) <= block_size,
        forall|i: int|
            0 <= i < cut(s, block_size).len() - 1 ==> entries_size(
                #[trigger] cut(s, block_size)[i],
            ) + 8 + cut(s, block_size)[i + 1][0].0.len() + cut(s, block_size)[i + 1][0].1.len()
                > block_size,
    decreases s.len(),
{
    if s.len() > 0 {
        let front = s.drop_last();
        let e = s.last();
        let before = cut(front, block_size);
        let after = cut(s, block_size);
        cut_is_tight(front, block_size);
        cut_joined(front, block_size);
        if before.len() > 0 {
            let last = before.last();
            assert(last == before[before.len() - 1]);
            entries_size_adds(last, e);
            entries_size_nonnegative(last);
            if !starts_block(last, e, block_size) {
                assert(last.len() > 0);
                assert(after[after.len() - 1] == last.push(e));
                assert(last.push(e)[0] == last[0]);
            }
        }
        assert forall|i: int| 0 <= i < after.len() implies (#[trigger] after[i]).len() == 1
            || entries_size(after[i]) <= block_size by {
            if i < before.len() {
                assert(before[i].len() == 1 || entries_size(before[i]) <= block_size);
            }
        }
        assert forall|i: int| 0 <= i < after.len() - 1 implies entries_size(#[trigger] after[i]) + 8
            + after[i + 1][0].0.len() + after[i + 1][0].1.len() > block_size by {
            assert(after[i] == before[i]);
            if i < before.len() - 1 {
                assert(entries_size(before[i]) + 8 + before[i + 1][0].0.len()
                    + before[i + 1][0].1.len() > block_size);
            }
        }
    }
}

/// What entries count is not negative, and covers the last key.
proof fn entries_size_nonnegative(s: Seq<Entry>)
    ensures
        0 <= entries_size(s),
        s.len() > 0 ==> s.last().0.len() <= entries_size(s),
    decreases s.len(),
{
    if s.len() > 0 {
        entries_size_nonnegative(s.drop_last());
    }
}

/// What two lists of entries count together.
proof fn entries_size_joined(a: Seq<Entry>, b: Seq<Entry>)
    ensures
        entries_size(a + b) == entries_size(a) + entries_size(b),
    decreases b.len(),
{
    if b.len() == 0 {
        assert(a + b =~= a);
    } else {
        entries_size_joined(a, b.drop_last());
        assert((a + b).drop_last() =~= a + b.drop_last());
    }
}

/// The bytes of blocks and of their index against what the entries count.
proof fn blocks_bytes_bound(blocks: Seq<Seq<Entry>>)
    requires
        forall|i: int| 0 <= i < blocks.len() ==> (#[trigger] blocks[i]).len() > 0,
    ensures
        blocks_bytes(blocks).len() <= entries_size(joined(blocks)) + 4 * blocks.len(),
        index_entries_bytes(index_of(blocks)).len() <= entries_size(joined(blocks)) + 8
            * blocks.len(),
        blocks.len() <= joined(blocks).len(),
    decreases blocks.len(),
{
    if blocks.len() > 0 {
        let front = blocks.drop_last();
        let b = blocks.last();
        assert(b == blocks[blocks.len() - 1]);
        assert forall|i: int| 0 <= i < front.len() implies (#[trigger] front[i]).len() > 0 by {
            assert(blocks[i].len() > 0);
        }
        blocks_bytes_bound(front);
        entries_size_joined(joined(front), b);
        entries_size_nonnegative(b);
        entries_bytes_bound(b);
        le_bytes_len(b.len(), 4);
        let index = index_of(blocks);
        assert forall|i: int| 0 <= i < front.len() implies front.take(i) == blocks.take(i) by {
            assert(front.take(i) =~= blocks.take(i));
        }
        assert(index.drop_last() =~= index_of(front));
        le_bytes_len(index.last().0 as nat, 4);
        le_bytes_len(index.last().1.len(), 4);
    }
}

/// Entries make a table if no key is longer than 65535 bytes and they are few and
/// small enough for offsets of four bytes; a longer key, or more bits for the filter
/// than four bytes count, keep them from it.
pub proof fn ordinary_entries_fit(s: Seq<Entry>, block_size: int, bits_per_key: nat)
    ensures
        (forall|i: int| 0 <= i < s.len() ==> (#[trigger] s[i]).0.len() <= 65535) && s.len()
            * bits_per_key <= 0xffff_ffff && 2 * entries_size(s) + 12 * s.len() + 4 <= 0xffff_ffff
            ==> table_fits(s, block_size, bits_per_key),
        (exists|i: int| 0 <= i < s.len() && (#[trigger] s[i]).0.len() > 65535) ==> !table_fits(
            s,
            block_size,
            bits_per_key,
        ),
        s.len() * bits_per_key > 0xffff_ffff ==> !table_fits(s, block_size, bits_per_key),
{
    let blocks = cut(s, block_size);
    cut_joined(s, block_size);
    blocks_bytes_bound(blocks);
    le_bytes_len(blocks.len(), 4);
    assert(index_of(blocks).len() == blocks.len());
}

/// A table is read by its footer: the last eight bytes tell where the index and the
/// filter start. It is read exactly if both can be.
pub proof fn table_reads_by_footer(data: Seq<u8>)
    ensures
        data.len() < 8 ==> parse_table(data) is Err,
        data.len() >= 8 ==> ({
            let n = data.len() as int;
            let index_at = le_value(data.subrange(n - 8, n - 4)) as int;
            let filter_at = le_value(data.subrange(n - 4, n)) as int;
            let read = parse_table(data);
            &&& read is Ok <==> parse_index(data, index_at) is Ok && filter_at <= n - 8
                && parse_filter(data.subrange(filter_at, n - 8)) is Ok && parse_filter(
                data.subrange(filter_at, n - 8),
            )->Ok_0.num_bits <= 64 * parse_filter(data.subrange(filter_at, n - 8))->Ok_0.bits.len()
            &&& read matches Ok(t) ==> {
                &&& t.data == data
                &&& t.index == parse_index(data, index_at)->Ok_0.0
                &&& t.index_offset == index_at
                &&& t.filter == parse_filter(data.subrange(filter_at, n - 8))->Ok_0
            }
        }),
{
    if data.len() >= 8 {
        let end = data.len() - 8;
        assert(data.subrange(end, end + 4) =~= data.subrange(data.len() - 8, data.len() - 4));
        assert(data.subrange(end + 4, end + 8) =~= data.subrange(
            data.len() - 4,
            data.len() as int,
        ));
    }
}

/// An index that is read stands in the bytes as it was written.
pub proof fn read_index_was_written(data: Seq<u8>, offset: int)
    requires
        0 <= offset,
        parse_index(data, offset) is Ok,
    ensures
        ({
            let (index, end) = parse_index(data, offset)->Ok_0;
            end <= data.len() && data.subrange(offset, end) == index_bytes(index)
        }),
{
    let head = data.subrange(offset, offset + 4);
    let n = le_value(head);
    read_index_entries(data, offset, n);
    let (index, end) = parse_index(data, offset)->Ok_0;
    le_bytes_of_le_value(head);
    assert(data.subrange(offset, end) =~= head + data.subrange(offset + 4, end));
}

proof fn read_index_entries(data: Seq<u8>, offset: int, n: nat)
    requires
        0 <= offset,
        offset + 4 <= data.len(),
        parse_index_entries(data, offset, n) is Ok,
    ensures
        ({
            let (s, end) = parse_index_entries(data, offset, n)->Ok_0;
            &&& s.len() == n
            &&& offset + 4 <= end <= data.len()
            &&& data.subrange(offset + 4, end) == index_entries_bytes(s)
        }),
    decreases n,
{
    let (s, end) = parse_index_entries(data, offset, n)->Ok_0;
    if n == 0 {
        assert(data.subrange(offset + 4, end) =~= Seq::empty());
    } else {
        read_index_entries(data, offset, (n - 1) as nat);
        let (front, pos) = parse_index_entries(data, offset, (n - 1) as nat)->Ok_0;
        assert(s.drop_last() =~= front);
        let a = data.subrange(pos, pos + 4);
        let b = data.subrange(pos + 4, pos + 8);
        le_bytes_of_le_value(a);
        le_bytes_of_le_value(b);
        assert(data.subrange(offset + 4, end) =~= data.subrange(offset + 4, pos) + (a + b
            + s.last().1));
    }
}

/// The bytes of an index: the number of its entries, and for each the offset of its
/// block and its last key behind the key's length. A table file holds its blocks,
/// their index, the filter, and where the two latter start.
pub proof fn table_file_layout(
    blocks: Seq<Seq<Entry>>,
    filter: BloomView,
    index: Seq<(int, Seq<u8>)>,
    e: (int, Seq<u8>),
    b: Seq<Entry>,
)
    ensures
        index_bytes(index).take(4) == le_bytes(index.len(), 4),
        index_bytes(index.push(e)).skip(4) == index_bytes(index).skip(4) + (le_bytes(e.0 as nat, 4)
            + le_bytes(e.1.len(), 4) + e.1),
        blocks_bytes(Seq::empty()) == Seq::<u8>::empty(),
        blocks_bytes(blocks.push(b)) == blocks_bytes(blocks) + block_bytes(b),
        index_of(blocks).len() == blocks.len(),
        forall|i: int|
            0 <= i < blocks.len() ==> #[trigger] index_of(blocks)[i] == (
                blocks_bytes(blocks.take(i)).len() as int,
                blocks[i].last().0,
            ),
        table_bytes(blocks, filter) == blocks_bytes(blocks) + index_bytes(index_of(blocks))
            + filter_bytes(filter) + le_bytes(blocks_bytes(blocks).len(), 4) + le_bytes(
            blocks_bytes(blocks).len() + index_bytes(index_of(blocks)).len(),
            4,
        ),
{
    le_bytes_len(index.len(), 4);
    le_bytes_len(index.push(e).len(), 4);
    assert(index.push(e).drop_last() =~= index);
    assert(blocks.push(b).drop_last() =~= blocks);
    assert(index_bytes(index).take(4) =~= le_bytes(index.len(), 4));
    assert(index_bytes(index).skip(4) =~= index_entries_bytes(index));
    assert(index_bytes(index.push(e)).skip(4) =~= index_entries_bytes(index.push(e)));
}

/// The entries of a table are those of its blocks one after the other, up to the
/// first that cannot be read.
pub proof fn entries_end_at_damage(t: TableView, n: int)
    requires
        0 <= n <= t.index.len(),
        forall|i: int| 0 <= i < n ==> #[trigger] t.load(i) is Ok,
        n < t.index.len() ==> t.load(n) is Err,
    ensures
        t.entries() == joined(Seq::new(n as nat, |i: int| t.load(i)->Ok_0.0)),
{
    entries_from_joined(t, n, n);
    let blocks = Seq::new(n as nat, |i: int| t.load(i)->Ok_0.0);
    assert(blocks.take(n) =~= blocks);
    assert(t.entries_from(n) =~= Seq::empty());
}

/// The entries of the first `k` blocks, and those from there on.
proof fn entries_from_joined(t: TableView, n: int, k: int)
    requires
        0 <= k <= n <= t.index.len(),
        forall|i: int| 0 <= i < n ==> #[trigger] t.load(i) is Ok,
    ensures
        t.entries() == joined(Seq::new(n as nat, |i: int| t.load(i)->Ok_0.0).take(k))
            + t.entries_from(k),
    decreases k,
{
    let blocks = Seq::new(n as nat, |i: int| t.load(i)->Ok_0.0);
    if k == 0 {
        assert(blocks.take(0) =~= Seq::empty());
        assert(Seq::<Entry>::empty() + t.entries_from(0) =~= t.entries_from(0));
    } else {
        entries_from_joined(t, n, k - 1);
        assert(blocks.take(k).drop_last() =~= blocks.take(k - 1));
        assert(blocks.take(k).last() == t.block(k - 1));
        let a = joined(blocks.take(k - 1));
        assert(a + (t.block(k - 1) + t.entries_from(k)) =~= (a + t.block(k - 1))
            + t.entries_from(k));
    }
}

/// Blocks are joined one after the other, whole.
pub proof fn blocks_join_in_order(blocks: Seq<Seq<Entry>>)
    ensures
        joined(blocks) == blocks.flatten(),
    decreases blocks.len(),
{
    if blocks.len() == 0 {
        assert(blocks.flatten() =~= Seq::empty());
    } else {
        blocks_join_in_order(blocks.drop_last());
        blocks.lemma_flatten_and_flatten_alt_are_equivalent();
        blocks.drop_last().lemma_flatten_and_flatten_alt_are_equivalent();
    }
}

/// Damage is reported: a lookup whose block lies outside the file or cannot be read
/// fails with what is wrong, and is not taken for a key that is absent.
pub proof fn lookup_reports_damage(t: TableView, key: Seq<u8>)
    requires
        t.filter.may_contain(key),
        0 <= t.block_of(key) < t.index.len(),
    ensures
        ({
            let i = t.block_of(key);
            let start = t.index[i].0;
            let end = if i + 1 < t.index.len() {
                t.index[i + 1].0
            } else {
                t.index_offset
            };
            &&& t.data.len() < end || end < start ==> t.lookup(key) is Err
            &&& start <= end <= t.data.len() ==> match parse_block(t.data.subrange(start, end)) {
                Err(msg) => t.lookup(key) == Err::<Option<Seq<u8>>, Seq<char>>(msg),
                Ok((s, _)) => t.lookup(key) is Ok && (sorted(s) ==> t.lookup(key)->Ok_0 == value_of(
                    map_of(s),
                    key,
                )),
            }
        }),
{
    let i = t.block_of(key);
    if t.load(i) is Ok {
        let s = t.load(i)->Ok_0.0;
        if sorted(s) {
            found_in_sorted(s, key);
        }
    }
}

/// The blocks before block `i`, and block `i` itself, stand at the front of the
/// bytes of all blocks.
pub proof fn blocks_bytes_prefix(blocks: Seq<Seq<Entry>>, i: int)
    requires
        0 <= i < blocks.len(),
    ensures
        blocks_bytes(blocks.take(i + 1)) == blocks_bytes(blocks.take(i)) + block_bytes(blocks[i]),
        blocks_bytes(blocks.take(i + 1)).len() <= blocks_bytes(blocks).len(),
        blocks_bytes(blocks).take(blocks_bytes(blocks.take(i + 1)).len() as int) == blocks_bytes(
            blocks.take(i + 1),
        ),
    decreases blocks.len() - i,
{
    let upto = blocks.take(i + 1);
    assert(upto.drop_last() =~= blocks.take(i));
    if i + 1 == blocks.len() {
        assert(upto =~= blocks);
        assert(blocks_bytes(blocks).take(blocks_bytes(blocks).len() as int) =~= blocks_bytes(
            blocks,
        ));
    } else {
        blocks_bytes_prefix(blocks, i + 1);
        let n = blocks_bytes(upto).len() as int;
        let next = blocks_bytes(blocks.take(i + 2));
        assert(blocks_bytes(blocks).take(n) =~= blocks_bytes(blocks).take(next.len() as int).take(
            n,
        ));
        assert(next.take(n) =~= blocks_bytes(upto));
    }
}

/// The entries of the blocks from `i` on are what the first `i` leave.
proof fn joined_split(blocks: Seq<Seq<Entry>>, i: int)
    requires
        0 <= i < blocks.len(),
    ensures
        joined(blocks.take(i + 1)) == joined(blocks.take(i)) + blocks[i],
{
    assert(blocks.take(i + 1).drop_last() =~= blocks.take(i));
}

/// An index entry reads back where its bytes stand.
proof fn index_entry_roundtrip(data: Seq<u8>, pos: int, e: (int, Seq<u8>))
    requires
        0 <= pos,
        pos + index_entry_bytes(e).len() <= data.len(),
        data.subrange(pos, pos + index_entry_bytes(e).len()) == index_entry_bytes(e),
        0 <= e.0 <= 0xffff_ffff,
        e.1.len() <= 0xffff_ffff,
    ensures
        index_entry_bytes(e).len() == 8 + e.1.len(),
        parse_index_entry(data, pos) == Ok::<((int, Seq<u8>), int), Seq<char>>(
            (e, (pos + index_entry_bytes(e).len()) as int),
        ),
{
    let b = index_entry_bytes(e);
    le_bounds();
    le_value_of_le_bytes(e.0 as nat, 4);
    le_value_of_le_bytes(e.1.len(), 4);
    assert(data.subrange(pos, pos + 4) =~= b.subrange(0, 4));
    assert(b.subrange(0, 4) =~= le_bytes(e.0 as nat, 4));
    assert(data.subrange(pos + 4, pos + 8) =~= b.subrange(4, 8));
    assert(b.subrange(4, 8) =~= le_bytes(e.1.len(), 4));
    assert(data.subrange(pos + 8, pos + 8 + e.1.len()) =~= b.subrange(8, 8 + e.1.len() as int));
    assert(b.subrange(8, 8 + e.1.len() as int) =~= e.1);
}

/// The first `n` index entries stand at the front of the bytes of all.
proof fn index_entries_bytes_prefix(index: Seq<(int, Seq<u8>)>, n: int)
    requires
        0 <= n <= index.len(),
    ensures
        index_entries_bytes(index.take(n)).len() <= index_entries_bytes(index).len(),
        index_entries_bytes(index).take(index_entries_bytes(index.take(n)).len() as int)
            == index_entries_bytes(index.take(n)),
    decreases index.len() - n,
{
    if n == index.len() {
        assert(index.take(n) =~= index);
        assert(index_entries_bytes(index).take(index_entries_bytes(index).len() as int)
            =~= index_entries_bytes(index));
    } else {
        index_entries_bytes_prefix(index, n + 1);
        let next = index.take(n + 1);
        assert(next.drop_last() =~= index.take(n));
        let k = index_entries_bytes(index.take(n)).len() as int;
        let m = index_entries_bytes(next).len() as int;
        assert(index_entries_bytes(index).take(k) =~= index_entries_bytes(index).take(m).take(k));
        assert(index_entries_bytes(next).take(k) =~= index_entries_bytes(index.take(n)));
    }
}

/// The first `n` index entries read back.
proof fn index_entries_roundtrip(
    data: Seq<u8>,
    offset: int,
    index: Seq<(int, Seq<u8>)>,
    n: int,
)
    requires
        0 <= offset,
        0 <= n <= index.len(),
        offset + index_bytes(index).len() <= data.len(),
        data.subrange(offset, offset + index_bytes(index).len()) == index_bytes(index),
        forall|i: int|
            0 <= i < index.len() ==> 0 <= (#[trigger] index[i]).0 <= 0xffff_ffff
                && index[i].1.len() <= 0xffff_ffff,
    ensures
        parse_index_entries(data, offset, n as nat) == Ok::<(Seq<(int, Seq<u8>)>, int), Seq<char>>(
            (index.take(n), (offset + 4 + index_entries_bytes(index.take(n)).len()) as int),
        ),
    decreases n,
{
    le_bytes_len(index.len(), 4);
    if n == 0 {
        assert(index.take(0) =~= Seq::empty());
    } else {
        index_entries_roundtrip(data, offset, index, n - 1);
        index_entries_bytes_prefix(index, n);
        let before = index.take(n - 1);
        let upto = index.take(n);
        let e = index[n - 1];
        assert(upto.drop_last() =~= before);
        assert(upto.last() == e);
        let k = index_entries_bytes(before).len() as int;
        let m = index_entries_bytes(upto).len() as int;
        let pos = offset + 4 + k;
        let all = index_bytes(index);
        assert(data.subrange(pos, offset + 4 + m) =~= all.subrange(4 + k, 4 + m));
        assert(all.subrange(4 + k, 4 + m) =~= index_entries_bytes(index).take(m).subrange(k, m));
        assert(index_entries_bytes(upto).subrange(k, m) =~= index_entry_bytes(e));
        index_entry_roundtrip(data, pos, e);
        assert(before.push(e) =~= upto);
    }
}

/// An index block whose numbers fit their fields reads back.
pub proof fn index_roundtrip(data: Seq<u8>, offset: int, index: Seq<(int, Seq<u8>)>)
    requires
        0 <= offset,
        offset + index_bytes(index).len() <= data.len(),
        data.subrange(offset, offset + index_bytes(index).len()) == index_bytes(index),
        index.len() <= 0xffff_ffff,
        forall|i: int|
            0 <= i < index.len() ==> 0 <= (#[trigger] index[i]).0 <= 0xffff_ffff
                && index[i].1.len() <= 0xffff_ffff,
    ensures
        parse_index(data, offset) == Ok::<(Seq<(int, Seq<u8>)>, int), Seq<char>>(
            (index, (offset + index_bytes(index).len()) as int),
        ),
{
    le_bounds();
    le_value_of_le_bytes(index.len(), 4);
    let all = index_bytes(index);
    assert(data.subrange(offset, offset + 4) =~= all.subrange(0, 4));
    assert(all.subrange(0, 4) =~= le_bytes(index.len(), 4));
    index_entries_roundtrip(data, offset, index, index.len() as int);
    assert(index.take(index.len() as int) =~= index);
}

/// The bytes of a list of entries cover its count and each of its values.
proof fn entries_bytes_cover(s: Seq<Entry>, i: int)
    ensures
        s.len() <= entries_bytes(s).len(),
        0 <= i < s.len() ==> s[i].1.len() <= entries_bytes(s).len(),
    decreases s.len(),
{
    if s.len() > 0 {
        entries_bytes_cover(s.drop_last(), i);
        le_bytes_len(s.last().1.len(), 4);
    }
}

/// A block of short keys that stands in a small file fits its fields.
proof fn small_block_fits(s: Seq<Entry>)
    requires
        keys_fit(s),
        block_bytes(s).len() <= 0xffff_ffff,
    ensures
        block_fits(s),
{
    entries_bytes_cover(s, 0);
    le_bytes_len(s.len(), 4);
    assert forall|i: int| 0 <= i < s.len() implies #[trigger] entry_fits(
        previous_key(s.take(i)),
        s[i],
    ) by {
        shared_prefix_is_shared(previous_key(s.take(i)), s[i].0);
        entries_bytes_cover(s, i);
    }
}

/// Where a block's entries stand in the list of all entries.
proof fn joined_at(blocks: Seq<Seq<Entry>>, i: int, j: int)
    requires
        0 <= i < blocks.len(),
        0 <= j < blocks[i].len(),
    ensures
        0 <= joined(blocks.take(i)).len() + j < joined(blocks).len(),
        joined(blocks)[joined(blocks.take(i)).len() + j] == blocks[i][j],
    decreases blocks.len(),
{
    let front = blocks.drop_last();
    if i == blocks.len() - 1 {
        assert(blocks.take(i) =~= front);
    } else {
        joined_at(front, i, j);
        assert(front.take(i) =~= blocks.take(i));
    }
}

/// A table file of sorted entries reads back as a sound table that stores exactly
/// these entries.
pub proof fn table_roundtrip(
    s: Seq<Entry>,
    block_size: int,
    bits_per_key: nat,
    filter: BloomView,
)
    requires
        sorted(s),
        table_fits(s, block_size, bits_per_key),
        filter.built_from(keys_of(s), bits_per_key),
    ensures
        parse_table(table_bytes(cut(s, block_size), filter)) is Ok,
        parse_table(table_bytes(cut(s, block_size), filter))->Ok_0.stores(s),
{
    let blocks = cut(s, block_size);
    let index = index_of(blocks);
    let data = table_bytes(blocks, filter);
    cut_joined(s, block_size);
    assert(keys_of(s).len() == s.len());
    table_layout(blocks, filter);
    index_fits(blocks);
    let index_offset = blocks_bytes(blocks).len() as int;
    index_roundtrip(data, index_offset, index);
    filter_roundtrip(filter, Seq::empty());
    let t = TableView { data, index, index_offset, filter };
    assert(parse_table(data) == Ok::<TableView, Seq<char>>(t));
    assert forall|i: int| 0 <= i < index.len() implies #[trigger] t.load(i) is Ok && t.block(i)
        == blocks[i] && t.block(i).len() > 0 && t.block(i).last().0 == t.index[i].1 by {
        block_loads(s, blocks, t, i);
        assert(blocks[i].len() > 0);
    }
    entries_are_joined(blocks, t, 0);
    assert(blocks.take(0) =~= Seq::empty());
    assert(t.entries() =~= joined(blocks.take(0)) + t.entries_from(0));
    assert forall|j: int| 0 <= j < s.len() implies t.filter.may_contain(#[trigger] s[j].0) by {
        assert(keys_of(s)[j] == s[j].0);
        no_false_negatives(filter, keys_of(s), bits_per_key, s[j].0);
    }
}

/// Where the parts of a table file stand.
proof fn table_layout(blocks: Seq<Seq<Entry>>, filter: BloomView)
    requires
        blocks_bytes(blocks).len() + index_bytes(index_of(blocks)).len() <= 0xffff_ffff,
    ensures
        ({
            let data = table_bytes(blocks, filter);
            let ib = index_bytes(index_of(blocks));
            let fb = filter_bytes(filter);
            let index_offset = blocks_bytes(blocks).len() as int;
            let bloom_offset = index_offset + ib.len();
            let end = data.len() - 8;
            &&& end == bloom_offset + fb.len()
            &&& data.subrange(0, index_offset) == blocks_bytes(blocks)
            &&& data.subrange(index_offset, bloom_offset) == ib
            &&& data.subrange(bloom_offset, end) == fb + Seq::<u8>::empty()
            &&& le_value(data.subrange(end, end + 4)) == index_offset
            &&& le_value(data.subrange(end + 4, end + 8)) == bloom_offset
        }),
{
    let data = table_bytes(blocks, filter);
    let body = blocks_bytes(blocks);
    let ib = index_bytes(index_of(blocks));
    let fb = filter_bytes(filter);
    let index_offset = body.len() as int;
    let bloom_offset = index_offset + ib.len();
    let end = bloom_offset + fb.len();
    le_bounds();
    le_value_of_le_bytes(body.len(), 4);
    le_value_of_le_bytes(body.len() + ib.len(), 4);
    assert(data.len() == end + 8);
    assert(data.subrange(0, index_offset) =~= body);
    assert(data.subrange(index_offset, bloom_offset) =~= ib);
    assert(data.subrange(bloom_offset, end) =~= fb + Seq::<u8>::empty());
    assert(data.subrange(end, end + 4) =~= le_bytes(body.len(), 4));
    assert(data.subrange(end + 4, end + 8) =~= le_bytes(body.len() + ib.len(), 4));
}

/// The numbers of the index of a small table fit their fields.
proof fn index_fits(blocks: Seq<Seq<Entry>>)
    requires
        blocks_bytes(blocks).len() + index_bytes(index_of(blocks)).len() <= 0xffff_ffff,
    ensures
        index_of(blocks).len() <= 0xffff_ffff,
        forall|i: int|
            0 <= i < blocks.len() ==> 0 <= (#[trigger] index_of(blocks)[i]).0 <= 0xffff_ffff
                && index_of(blocks)[i].1.len() <= 0xffff_ffff,
{
    let index = index_of(blocks);
    index_len_bound(index);
    assert forall|i: int| 0 <= i < index.len() implies 0 <= (#[trigger] index[i]).0 <= 0xffff_ffff
        && index[i].1.len() <= 0xffff_ffff by {
        blocks_bytes_prefix(blocks, i);
        index_entries_bytes_prefix(index, i + 1);
        assert(index.take(i + 1).last() == index[i]);
        le_bytes_len(index[i].1.len(), 4);
    }
}

/// An index block has at least a byte for each of its entries.
proof fn index_len_bound(index: Seq<(int, Seq<u8>)>)
    ensures
        index.len() <= index_entries_bytes(index).len() <= index_bytes(index).len(),
    decreases index.len(),
{
    if index.len() > 0 {
        index_len_bound(index.drop_last());
        le_bytes_len(index.last().0 as nat, 4);
    }
}

/// A data block of a written table loads as it was written.
proof fn block_loads(s: Seq<Entry>, blocks: Seq<Seq<Entry>>, t: TableView, i: int)
    requires
        keys_fit(s),
        joined(blocks) == s,
        0 <= i < blocks.len(),
        t.index == index_of(blocks),
        t.index_offset == blocks_bytes(blocks).len(),
        t.index_offset <= 0xffff_ffff,
        t.index_offset <= t.data.len(),
        t.data.subrange(0, t.index_offset) == blocks_bytes(blocks),
    ensures
        t.load(i) is Ok,
        t.block(i) == blocks[i],
{
    blocks_bytes_prefix(blocks, i);
    let start = t.index[i].0;
    let end = blocks_bytes(blocks.take(i + 1)).len() as int;
    if i + 1 == blocks.len() {
        assert(blocks.take(i + 1) =~= blocks);
    }
    assert(t.block_end(i) == end);
    assert(t.data.subrange(start, end) =~= t.data.subrange(0, t.index_offset).take(end).subrange(
        start,
        end,
    ));
    assert(blocks_bytes(blocks.take(i + 1)).subrange(start, end) =~= block_bytes(blocks[i]));
    assert forall|j: int| 0 <= j < blocks[i].len() implies (#[trigger] blocks[i][j]).0.len()
        <= 0xffff by {
        joined_at(blocks, i, j);
    }
    small_block_fits(blocks[i]);
    block_roundtrip(blocks[i]);
}

/// Where every block loads as written, the entries from block `i` on are those
/// that the first `i` blocks leave.
proof fn entries_are_joined(blocks: Seq<Seq<Entry>>, t: TableView, i: int)
    requires
        0 <= i <= blocks.len(),
        t.index.len() == blocks.len(),
        forall|k: int| 0 <= k < blocks.len() ==> #[trigger] t.load(k) is Ok && t.block(k) == blocks[k],
    ensures
        joined(blocks.take(i)) + t.entries_from(i) == joined(blocks),
    decreases blocks.len() - i,
{
    if i == blocks.len() {
        assert(blocks.take(i) =~= blocks);
        assert(joined(blocks.take(i)) + t.entries_from(i) =~= joined(blocks));
    } else {
        entries_are_joined(blocks, t, i + 1);
        joined_split(blocks, i);
        assert(t.load(i) is Ok);
        assert(joined(blocks.take(i)) + t.entries_from(i) =~= joined(blocks.take(i + 1))
            + t.entries_from(i + 1));
    }
}

/// Where block `i` stands among the entries of a sound table.
proof fn entries_from_parts(t: TableView, i: int)
    requires
        t.sound(),
        0 <= i <= t.index.len(),
    ensures
        t.entries_from(i).len() <= t.entries().len(),
        t.entries_from(i) == t.entries().skip(t.entries().len() - t.entries_from(i).len()),
    decreases i,
{
    if i == 0 {
        assert(t.entries().skip(0) =~= t.entries());
    } else {
        entries_from_parts(t, i - 1);
        assert(t.load(i - 1) is Ok);
        let all = t.entries();
        let rest = t.entries_from(i - 1);
        assert(rest == t.block(i - 1) + t.entries_from(i));
        let k = all.len() - rest.len();
        let b = t.block(i - 1).len();
        assert forall|x: int| 0 <= x < t.entries_from(i).len() implies t.entries_from(i)[x]
            == all.skip(all.len() - t.entries_from(i).len())[x] by {
            assert(rest[b + x] == t.entries_from(i)[x]);
            assert(all.skip(k)[b + x] == all[k + b + x]);
        }
        assert(t.entries_from(i) =~= all.skip(all.len() - t.entries_from(i).len()));
    }
}

/// A sound table is in order.
pub proof fn sound_is_ordered(t: TableView)
    requires
        t.sound(),
    ensures
        t.ordered(),
{
    let all = t.entries();
    assert forall|i: int, j: int| 0 <= i < j < t.index.len() implies lex_lt(
        #[trigger] t.index[i].1,
        #[trigger] t.index[j].1,
    ) by {
        let a = block_place(t, i, t.block(i).len() - 1);
        let b = block_place(t, j, t.block(j).len() - 1);
        block_places_increase(t, i, j);
        assert(t.load(i) is Ok);
        assert(t.load(j) is Ok);
        assert(lex_lt(all[a].0, all[b].0));
    }
    assert forall|i: int| 0 <= i < t.index.len() && #[trigger] t.load(i) is Ok implies sorted(
        t.block(i),
    ) by {
        let s = t.block(i);
        assert forall|x: int, y: int| 0 <= x < y < s.len() implies lex_lt(
            #[trigger] s[x].0,
            #[trigger] s[y].0,
        ) by {
            let a = block_place(t, i, x);
            let b = block_place(t, i, y);
            assert(lex_lt(all[a].0, all[b].0));
        }
    }
}

/// The place of an entry of a block among all entries of a sound table.
proof fn block_place(t: TableView, i: int, j: int) -> (p: int)
    requires
        t.sound(),
        0 <= i < t.index.len(),
        0 <= j < t.block(i).len(),
    ensures
        p == t.entries().len() - t.entries_from(i).len() + j,
        0 <= p < t.entries().len(),
        t.entries()[p] == t.block(i)[j],
{
    entries_from_parts(t, i);
    assert(t.load(i) is Ok);
    assert(t.entries_from(i) == t.block(i) + t.entries_from(i + 1));
    let p = t.entries().len() - t.entries_from(i).len() + j;
    assert(t.entries_from(i)[j] == t.entries()[p]);
    p
}

/// The entries of a later block come later.
proof fn block_places_increase(t: TableView, i: int, j: int)
    requires
        t.sound(),
        0 <= i < j <= t.index.len(),
    ensures
        t.entries_from(j).len() + t.block(i).len() <= t.entries_from(i).len(),
    decreases j - i,
{
    assert(t.load(i) is Ok);
    assert(t.entries_from(i) == t.block(i) + t.entries_from(i + 1));
    if i + 1 < j {
        block_places_increase(t, i + 1, j);
    }
}

/// Each entry of a sound table stands in a block.
proof fn entry_in_block(t: TableView, i: int, p: int) -> (r: (int, int))
    requires
        t.sound(),
        0 <= i <= t.index.len(),
        0 <= p < t.entries_from(i).len(),
    ensures
        i <= r.0 < t.index.len(),
        0 <= r.1 < t.block(r.0).len(),
        t.block(r.0)[r.1] == t.entries_from(i)[p],
    decreases t.index.len() - i,
{
    assert(t.load(i) is Ok);
    assert(t.entries_from(i) == t.block(i) + t.entries_from(i + 1));
    if p < t.block(i).len() {
        (i, p)
    } else {
        entry_in_block(t, i + 1, p - t.block(i).len())
    }
}

/// A lookup in a sound table gives exactly what the entries hold for the key.
pub proof fn sound_lookup(t: TableView, key: Seq<u8>)
    requires
        t.sound(),
    ensures
        t.lookup(key) == Ok::<Option<Seq<u8>>, Seq<char>>(value_of(map_of(t.entries()), key)),
{
    let all = t.entries();
    let i = t.block_of(key);
    sound_is_ordered(t);
    block_of_ordered(t, key);
    map_of_contains(all, key);
    if i < t.index.len() {
        assert(t.load(i) is Ok);
        found_in_sorted(t.block(i), key);
    }
    if map_of(all).contains_key(key) {
        let p = choose|p: int| 0 <= p < all.len() && #[trigger] all[p].0 == key;
        map_of_sorted(all, p);
        assert(t.filter.may_contain(all[p].0));
        let (b, j) = entry_in_block(t, 0, p);
        assert(t.load(b) is Ok);
        last_key_bounds(t, b, j);
        if b < i {
            assert(lex_lt(t.index[b].1, key));
            if key == t.index[b].1 {
                lex_lt_irreflexive(key);
            } else {
                lex_lt_asymmetric(key, t.index[b].1);
            }
        }
        if i < b {
            assert(!lex_lt(t.index[i].1, key));
            assert(t.load(i) is Ok);
            let x = block_place(t, i, t.block(i).len() - 1);
            let y = block_place(t, b, j);
            block_places_increase(t, i, b);
            assert(lex_lt(all[x].0, all[y].0));
        }
        assert(b == i);
        map_of_sorted(t.block(i), j);
    } else if t.filter.may_contain(key) && i < t.index.len() {
        assert(t.load(i) is Ok);
        map_of_contains(t.block(i), key);
        if map_of(t.block(i)).contains_key(key) {
            let j = choose|j: int|
                0 <= j < t.block(i).len() && #[trigger] t.block(i)[j].0 == key;
            let p = block_place(t, i, j);
            assert(all[p].0 == key);
        }
    }
}

/// A block's keys do not go beyond its last key.
proof fn last_key_bounds(t: TableView, i: int, j: int)
    requires
        t.sound(),
        0 <= i < t.index.len(),
        0 <= j < t.block(i).len(),
    ensures
        lex_le(t.block(i)[j].0, t.index[i].1),
{
    sound_is_ordered(t);
    assert(t.load(i) is Ok);
    let n = t.block(i).len() - 1;
    if j < n {
        assert(lex_lt(t.block(i)[j].0, t.block(i)[n].0));
    }
}

} // verus!
