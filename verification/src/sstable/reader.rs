//! SSTable reader: random lookup (`get`) and sequential iteration (`iter`) over
//! the bytes of an SSTable file.
//!
//! The footer, the index block and the bloom filter are parsed once on `open`.

use vstd::prelude::*;

use crate::bytes::{bisect_point, bytes_lt, copy_bytes, copy_range, le_value, read_u32};
use crate::cache::block_cache::{
    adds_only, coherent, consulted, evicted_is_front, slot, slot_is_first, BlockCache, CacheKey,
    Cached,
};
use crate::entries::{bisect, copy_entry, found_in, pairs, pairs_push, Entry};
use crate::error::{corruption, is_corruption, Result};
use crate::filter::bloom::BloomFilter;
use crate::sstable::block::Block;
use crate::sstable::builder::index_view;
use crate::sstable::format::{
    parse_index, parse_index_entries, parse_index_entry, parse_table, TableView,
};
use crate::text::push_decimal;

verus! {

/// A lookup came out as `expected` says.
pub open spec fn gives(
    r: Result<Option<Vec<u8>>>,
    expected: std::result::Result<Option<Seq<u8>>, Seq<char>>,
) -> bool {
    match (r, expected) {
        (Ok(Some(v)), Ok(Some(w))) => v@ == w,
        (Ok(None), Ok(None)) => true,
        (Err(e), Err(msg)) => is_corruption(e, msg),
        _ => false,
    }
}

/// What a lookup is to give it gives in full: the whole value, nothing where there is
/// none, and the damage where there is any.
pub proof fn gives_exactly(
    r: Result<Option<Vec<u8>>>,
    expected: std::result::Result<Option<Seq<u8>>, Seq<char>>,
)
    requires
        gives(r, expected),
    ensures
        (expected matches Ok(Some(w)) ==> r is Ok && r->Ok_0 is Some && r->Ok_0->Some_0@ == w),
        (expected matches Ok(None) ==> r is Ok && r->Ok_0 is None),
        (expected matches Err(msg) ==> r is Err && r->Err_0 is Corruption
            && r->Err_0->Corruption_0@ == msg),
{
}

/// An opened SSTable ready for reads.
pub struct SSTableReader {
    /// The bytes of the file.
    data: Vec<u8>,
    /// For each data block, where it starts and its last key.
    index: Vec<(usize, Vec<u8>)>,
    /// Where the index block starts, which is where the data blocks end.
    index_offset: usize,
    /// The filter over the keys.
    filter: BloomFilter,
}

impl View for SSTableReader {
    type V = TableView;

    closed spec fn view(&self) -> TableView {
        TableView {
            data: self.data@,
            index: index_view(self.index@),
            index_offset: self.index_offset as int,
            filter: self.filter@,
        }
    }
}

/// An index entry that cannot be read leaves the index unreadable.
proof fn parse_error_stays(data: Seq<u8>, offset: int, i: nat, n: nat)
    requires
        i <= n,
        parse_index_entries(data, offset, i) is Err,
    ensures
        parse_index_entries(data, offset, n) == parse_index_entries(data, offset, i),
    decreases n - i,
{
    if i < n {
        parse_error_stays(data, offset, i, (n - 1) as nat);
    }
}

impl SSTableReader {
    /// The filter can be asked.
    pub open spec fn wf(&self) -> bool {
        self@.filter.wf()
    }

    /// Open the bytes of an SSTable file: parse the footer, the index block and
    /// the bloom filter.
    pub fn open(data: Vec<u8>) -> (r: Result<Self>)
        ensures
            match (r, parse_table(data@)) {
                (Ok(reader), Ok(t)) => reader@ == t && reader.wf(),
                (Err(e), Err(msg)) => is_corruption(e, msg),
                _ => false,
            },
    {
        if data.len() < 8 {
            return Err(corruption("SSTable file too short"));
        }
        let footer = data.len() - 8;
        let index_offset = read_u32(data.as_slice(), footer) as usize;
        let bloom_offset = read_u32(data.as_slice(), footer + 4) as usize;
        let index = match Self::parse_index(data.as_slice(), index_offset) {
            Ok(index) => index,
            Err(e) => {
                return Err(e);
            },
        };
        if footer < bloom_offset {
            return Err(corruption("bloom filter offset out of range"));
        }
        let filter = match BloomFilter::decode(
            vstd::slice::slice_subrange(data.as_slice(), bloom_offset, footer),
        ) {
            Ok(filter) => filter,
            Err(e) => {
                return Err(e);
            },
        };
        if !filter.is_consistent() {
            return Err(corruption("bloom filter inconsistent"));
        }
        Ok(SSTableReader { data, index, index_offset, filter })
    }

    /// Look up a key: its value if it is found, `None` if not.
    ///
    /// A key that the bloom filter rules out is not looked for. Otherwise the
    /// index tells the one data block that may hold it.
    pub fn get(&self, key: &[u8]) -> (r: Result<Option<Vec<u8>>>)
        requires
            self.wf(),
        ensures
            gives(r, self@.lookup(key@)),
    {
        if !self.filter.may_contain(key) {
            return Ok(None);
        }
        let block_idx = self.block_for(key);
        if block_idx >= self.index.len() {
            return Ok(None);
        }
        match self.load_block(block_idx) {
            Err(e) => Err(e),
            Ok(block) => Ok(Self::find_in(&block, key)),
        }
    }

    /// Look up a key as `get` does, through a block cache in which `sst_id`
    /// stands for this table.
    pub fn get_with_cache(&self, key: &[u8], sst_id: u64, cache: &mut BlockCache) -> (r: Result<
        Option<Vec<u8>>,
    >)
        requires
            self.wf(),
            old(cache).wf(),
            coherent(old(cache)@, sst_id, self@),
        ensures
            final(cache).wf(),
            final(cache).spec_capacity() == old(cache).spec_capacity(),
            coherent(final(cache)@, sst_id, self@),
            adds_only(old(cache)@, final(cache)@, sst_id),
            gives(r, self@.lookup(key@)),
            final(cache)@ == consulted(
                old(cache)@,
                sst_id,
                self@,
                key@,
                old(cache).spec_capacity(),
            ),
    {
        if !self.filter.may_contain(key) {
            return Ok(None);
        }
        let block_idx = self.block_for(key);
        if block_idx >= self.index.len() {
            return Ok(None);
        }
        let cache_key = CacheKey { sst_id, block_idx };
        let ghost s = cache@;
        let ghost t = self@;
        proof {
            slot_is_first(s, cache_key);
            consulted_coherent(s, sst_id, t, key@, cache.spec_capacity());
        }
        if let Some(block) = cache.get(&cache_key) {
            assert(block.shape() == t.shape(block_idx as int));
            return Ok(Self::find_in(block, key));
        }
        match self.load_block(block_idx) {
            Err(e) => Err(e),
            Ok(block) => {
                let r = Self::find_in(&block, key);
                assert(block.shape() == t.shape(block_idx as int));
                cache.put(cache_key, block);
                Ok(r)
            },
        }
    }

    /// Iterate over all entries in key order.
    pub fn iter(&self) -> (r: SSTableIterator<'_>)
        ensures
            r.wf(),
            r.remaining() == self@.entries(),
    {
        SSTableIterator { reader: self, block_idx: 0, entry_idx: 0, current_block: None }
    }

    /// Number of data blocks in this SSTable.
    pub fn num_blocks(&self) -> (r: usize)
        ensures
            r == self@.index.len(),
    {
        self.index.len()
    }

    /// Parse the index block at `offset`.
    fn parse_index(data: &[u8], offset: usize) -> (r: Result<Vec<(usize, Vec<u8>)>>)
        ensures
            match (r, parse_index(data@, offset as int)) {
                (Ok(index), Ok((s, _))) => index_view(index@) == s,
                (Err(e), Err(msg)) => is_corruption(e, msg),
                _ => false,
            },
    {
        if data.len() < offset || data.len() - offset < 4 {
            return Err(corruption("index block too short"));
        }
        let num = read_u32(data, offset);
        let mut entries: Vec<(usize, Vec<u8>)> = Vec::new();
        let mut pos: usize = offset + 4;
        let mut i: u32 = 0;
        assert(index_view(entries@) =~= Seq::empty());
        while i < num
            invariant
                i <= num,
                pos <= data.len(),
                num == le_value(data@.subrange(offset as int, offset + 4)),
                data@.len() >= offset + 4,
                parse_index_entries(data@, offset as int, i as nat) == Ok::<
                    (Seq<(int, Seq<u8>)>, int),
                    Seq<char>,
                >((index_view(entries@), pos as int)),
            decreases num - i,
        {
            let ghost step = parse_index_entry(data@, pos as int);
            proof {
                if step is Err {
                    assert(parse_index_entries(data@, offset as int, (i + 1) as nat) is Err);
                    parse_error_stays(data@, offset as int, (i + 1) as nat, num as nat);
                }
            }
            if data.len() - pos < 8 {
                return Err(corruption("index entry truncated"));
            }
            let block_offset = read_u32(data, pos) as usize;
            let key_len = read_u32(data, pos + 4) as usize;
            let key_start = pos + 8;
            if data.len() - key_start < key_len {
                return Err(corruption("index entry key truncated"));
            }
            let last_key = copy_range(data, key_start, key_start + key_len);
            let ghost before = entries@;
            entries.push((block_offset, last_key));
            assert(index_view(entries@) =~= index_view(before).push(
                (block_offset as int, last_key@),
            ));
            pos = key_start + key_len;
            i = i + 1;
        }
        Ok(entries)
    }

    /// The block that is to hold `key`, found by bisection.
    fn block_for(&self, key: &[u8]) -> (r: usize)
        ensures
            r <= self@.index.len(),
            r == self@.block_of(key@),
    {
        let ghost keys = self@.last_keys();
        let mut lo: usize = 0;
        let mut hi: usize = self.index.len();
        while lo < hi
            invariant
                keys == self@.last_keys(),
                lo <= hi <= self.index@.len(),
                self.index@.len() == self@.index.len(),
                self@.block_of(key@) == bisect_point(keys, key@, lo as int, hi as int),
            decreases hi - lo,
        {
            let mid = lo + (hi - lo) / 2;
            assert(keys[mid as int] == self.index@[mid as int].1@);
            if bytes_lt(self.index[mid].1.as_slice(), key) {
                lo = mid + 1;
            } else {
                hi = mid;
            }
        }
        lo
    }

    /// Load and decode a data block.
    ///
    /// The block spans from its own offset to that of the next one, or to the
    /// index block if it is the last.
    fn load_block(&self, block_idx: usize) -> (r: Result<Block>)
        requires
            block_idx < self@.index.len(),
        ensures
            match (r, self@.load(block_idx as int)) {
                (Ok(block), Ok((s, end))) => block@ == s && block.spec_size() == end - 4,
                (Err(e), Err(msg)) => is_corruption(e, msg),
                _ => false,
            },
    {
        let start = self.index[block_idx].0;
        let end = if self.index.len() - block_idx > 1 {
            self.index[block_idx + 1].0
        } else {
            self.index_offset
        };
        assert(start == self@.index[block_idx as int].0);
        assert(end == self@.block_end(block_idx as int));
        if end > self.data.len() || start > end {
            let mut msg = "block ".to_string();
            push_decimal(&mut msg, block_idx as u64);
            msg.append(" offset out of range: ");
            push_decimal(&mut msg, start as u64);
            msg.append("..");
            push_decimal(&mut msg, end as u64);
            return Err(corruption(msg.as_str()));
        }
        Block::decode(vstd::slice::slice_subrange(self.data.as_slice(), start, end))
    }

    /// Look up a key in a block by bisection.
    fn find_in(block: &Block, key: &[u8]) -> (r: Option<Vec<u8>>)
        ensures
            match (r, found_in(block@, key@)) {
                (Some(v), Some(w)) => v@ == w,
                (None, None) => true,
                _ => false,
            },
    {
        match bisect(&block.entries, key) {
            Some(i) => Some(copy_bytes(block.entries[i].1.as_slice())),
            None => None,
        }
    }
}

/// A lookup leaves the cache coherent, and adds blocks of its table alone.
proof fn consulted_coherent(
    s: Seq<Cached>,
    sst_id: u64,
    t: TableView,
    key: Seq<u8>,
    capacity: int,
)
    requires
        coherent(s, sst_id, t),
        t.block_of(key) <= usize::MAX,
        0 <= t.block_of(key),
    ensures
        coherent(consulted(s, sst_id, t, key, capacity), sst_id, t),
        adds_only(s, consulted(s, sst_id, t, key, capacity), sst_id),
{
    let after = consulted(s, sst_id, t, key, capacity);
    let k = CacheKey { sst_id, block_idx: t.block_of(key) as usize };
    let size = t.shape(t.block_of(key)).size as int;
    let i = slot(s, k);
    slot_is_first(s, k);
    evicted_is_front(s, size, capacity);
    assert forall|j: int| 0 <= j < after.len() implies after[j] == (k, t.shape(t.block_of(key)))
        && t.load(t.block_of(key)) is Ok && t.block_of(key) < t.index.len() || exists|m: int|
        0 <= m < s.len() && #[trigger] s[m] == #[trigger] after[j] by {
        if after == s {
            assert(s[j] == after[j]);
        } else if i < s.len() {
            if j == 0 {
                assert(s[i] == after[j]);
            } else if j - 1 < i {
                assert(s[j - 1] == after[j]);
            } else {
                assert(s[j] == after[j]);
            }
        } else if j > 0 {
            assert(s[j - 1] == after[j]);
        }
    }
}

/// Sequential iterator over all entries in an SSTable.
///
/// Yields the entries in key order across all data blocks, and ends at the first
/// block that cannot be read.
pub struct SSTableIterator<'a> {
    reader: &'a SSTableReader,
    block_idx: usize,
    entry_idx: usize,
    current_block: Option<Block>,
}

impl<'a> SSTableIterator<'a> {
    /// The current block is the one that the iterator stands in.
    pub closed spec fn wf(&self) -> bool {
        let t = self.reader@;
        &&& self.block_idx <= t.index.len()
        &&& self.current_block matches Some(b) ==> {
            &&& self.block_idx < t.index.len()
            &&& t.load(self.block_idx as int) is Ok
            &&& b@ == t.block(self.block_idx as int)
            &&& self.entry_idx <= b@.len()
        }
    }

    /// The entries still to come.
    pub closed spec fn remaining(&self) -> Seq<Entry> {
        let t = self.reader@;
        match self.current_block {
            Some(b) => b@.skip(self.entry_idx as int) + t.entries_from(self.block_idx + 1),
            None => t.entries_from(self.block_idx as int),
        }
    }

    /// The next entry, or `None` at the end.
    pub fn next(&mut self) -> (r: Option<(Vec<u8>, Vec<u8>)>)
        requires
            old(self).wf(),
        ensures
            final(self).wf(),
            match r {
                Some(e) => {
                    &&& old(self).remaining().len() > 0
                    &&& (e.0@, e.1@) == old(self).remaining()[0]
                    &&& final(self).remaining() == old(self).remaining().drop_first()
                },
                None => {
                    &&& old(self).remaining().len() == 0
                    &&& final(self).remaining().len() == 0
                },
            },
    {
        let ghost before = self.remaining();
        let ghost t = self.reader@;
        loop
            invariant
                self.wf(),
                t == self.reader@,
                before == old(self).remaining(),
                self.remaining() == before,
            decreases
                    t.index.len() - self.block_idx,
                    if self.current_block is None {
                        1int
                    } else {
                        0int
                    },
        {
            if self.current_block.is_none() {
                if self.block_idx >= self.reader.index.len() {
                    assert(self.remaining() =~= Seq::empty());
                    return None;
                }
                match self.reader.load_block(self.block_idx) {
                    Ok(block) => {
                        proof {
                            assert(block@.skip(0) =~= block@);
                        }
                        self.entry_idx = 0;
                        self.current_block = Some(block);
                    },
                    Err(_) => {
                        assert(self.remaining() =~= Seq::empty());
                        return None;
                    },
                }
            }
            let mut found: Option<(Vec<u8>, Vec<u8>)> = None;
            if let Some(block) = &self.current_block {
                if self.entry_idx < block.entries.len() {
                    found = Some(copy_entry(&block.entries[self.entry_idx]));
                }
            }
            if found.is_some() {
                let ghost b = self.current_block->Some_0;
                let ghost k = self.entry_idx as int;
                self.entry_idx = self.entry_idx + 1;
                proof {
                    assert(b@.skip(k).drop_first() =~= b@.skip(k + 1));
                    assert(before.drop_first() =~= self.remaining());
                }
                return found;
            }
            proof {
                let b = self.current_block->Some_0;
                assert(b@.skip(self.entry_idx as int) =~= Seq::empty());
                assert(before =~= t.entries_from(self.block_idx + 1));
                assert(self.block_idx < self.reader.index.len());
            }
            self.block_idx = self.block_idx + 1;
            self.current_block = None;
        }
    }

    /// All entries still to come.
    pub fn collect(self) -> (r: Vec<(Vec<u8>, Vec<u8>)>)
        requires
            self.wf(),
        ensures
            pairs(r@) == self.remaining(),
    {
        let mut this = self;
        let mut out: Vec<(Vec<u8>, Vec<u8>)> = Vec::new();
        let ghost all = self.remaining();
        assert(pairs(out@) + this.remaining() =~= all);
        loop
            invariant
                this.wf(),
                pairs(out@) + this.remaining() == all,
            ensures
                pairs(out@) == all,
            decreases this.remaining().len(),
        {
            let ghost left = this.remaining();
            let ghost got = out@;
            match this.next() {
                Some(e) => {
                    proof {
                        pairs_push(got, e);
                        assert(pairs(got).push(left[0]) + left.drop_first() =~= pairs(got) + left);
                    }
                    out.push(e);
                },
                None => {
                    assert(pairs(out@) + left =~= pairs(out@));
                    break;
                },
            }
        }
        out
    }
}

} // verus!
