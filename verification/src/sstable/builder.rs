//! SSTable builder: turns sorted key-value pairs into the bytes of an SSTable
//! file.

use vstd::prelude::*;

use crate::bytes::{append_bytes, copy_bytes, le_bytes, push_u32};
use crate::entries::{keys_of, pairs, sorted, Entry};
use crate::error::{invalid_argument, is_invalid_argument, Result};
use crate::filter::bloom::{key_views, BloomFilter, BloomView};
use crate::memtable::skiplist::capped;
use crate::sstable::block::{block_bytes, entries_size, Block, ENTRY_HEADER};
use crate::sstable::format::{
    blocks_bytes, cut, index_bytes, index_entries_bytes, index_entry_bytes, index_of, keys_fit,
    misfit, parse_table, place, table_bytes, table_fits, table_roundtrip, MAX_KEY_LEN,
};

verus! {

/// Default target data block size: 4 KiB.
pub const DEFAULT_BLOCK_SIZE: usize = 4096;

/// Default bloom filter bits per key.
pub const DEFAULT_BITS_PER_KEY: usize = 10;

/// An executable index: where each block starts, and its last key.
pub open spec fn index_view(index: Seq<(usize, Vec<u8>)>) -> Seq<(int, Seq<u8>)> {
    Seq::new(index.len(), |i: int| (index[i].0 as int, index[i].1@))
}

/// The keys of an executable list.
pub open spec fn vec_keys(keys: Seq<Vec<u8>>) -> Seq<Seq<u8>> {
    Seq::new(keys.len(), |i: int| keys[i]@)
}

/// All index entries and all keys count, each with all its bytes.
pub proof fn index_is_whole(index: Seq<(usize, Vec<u8>)>, keys: Seq<Vec<u8>>, i: int)
    ensures
        index_view(index).len() == index.len(),
        0 <= i < index.len() ==> index_view(index)[i] == (index[i].0 as int, index[i].1@),
        vec_keys(keys).len() == keys.len(),
        0 <= i < keys.len() ==> vec_keys(keys)[i] == keys[i]@,
{
}

/// The index with one more block.
proof fn index_of_push(blocks: Seq<Seq<Entry>>, b: Seq<Entry>)
    ensures
        blocks_bytes(blocks.push(b)) == blocks_bytes(blocks) + block_bytes(b),
        index_of(blocks.push(b)) == index_of(blocks).push(
            (blocks_bytes(blocks).len() as int, b.last().0),
        ),
{
    let more = blocks.push(b);
    assert(more.drop_last() =~= blocks);
    assert forall|i: int| 0 <= i < blocks.len() implies #[trigger] index_of(more)[i] == index_of(
        blocks,
    )[i] by {
        assert(more.take(i) =~= blocks.take(i));
    }
    assert(more.take(blocks.len() as int) =~= blocks);
    assert(index_of(more) =~= index_of(blocks).push(
        (blocks_bytes(blocks).len() as int, b.last().0),
    ));
}

/// `data` is the file of a table of these entries.
pub open spec fn is_file_of(
    data: Seq<u8>,
    s: Seq<Entry>,
    block_size: int,
    bits_per_key: nat,
) -> bool {
    exists|f: BloomView|
        #[trigger] f.built_from(keys_of(s), bits_per_key) && data == table_bytes(
            cut(s, block_size),
            f,
        )
}

/// The file of a table of sorted entries opens as a sound table that stores
/// exactly these entries.
pub proof fn file_opens(data: Seq<u8>, s: Seq<Entry>, block_size: int, bits_per_key: nat)
    requires
        is_file_of(data, s, block_size, bits_per_key),
        table_fits(s, block_size, bits_per_key),
        sorted(s),
    ensures
        parse_table(data) is Ok,
        parse_table(data)->Ok_0.stores(s),
{
    let f = choose|f: BloomView|
        #[trigger] f.built_from(keys_of(s), bits_per_key) && data == table_bytes(
            cut(s, block_size),
            f,
        );
    table_roundtrip(s, block_size, bits_per_key, f);
}

/// Build the file of a table of the given entries.
pub fn build_table(
    entries: &Vec<(Vec<u8>, Vec<u8>)>,
    block_size: usize,
    bits_per_key: usize,
) -> (r: Result<Vec<u8>>)
    ensures
        match r {
            Ok(data) => {
                &&& table_fits(pairs(entries@), block_size as int, bits_per_key as nat)
                &&& is_file_of(data@, pairs(entries@), block_size as int, bits_per_key as nat)
            },
            Err(e) => {
                &&& !table_fits(pairs(entries@), block_size as int, bits_per_key as nat)
                &&& is_invalid_argument(e, misfit(pairs(entries@)))
            },
        },
{
    let ghost s = pairs(entries@);
    let mut builder = SSTableBuilder::with_bits_per_key(block_size, bits_per_key);
    let mut i: usize = 0;
    assert(s.take(0) =~= Seq::empty());
    while i < entries.len()
        invariant
            i <= entries@.len(),
            s == pairs(entries@),
            builder.wf(),
            builder@ == s.take(i as int),
            builder.spec_block_size() == block_size,
            builder.spec_bits_per_key() == bits_per_key,
        decreases entries@.len() - i,
    {
        let _ = builder.add(entries[i].0.as_slice(), entries[i].1.as_slice());
        assert(s.take(i as int).push(s[i as int]) =~= s.take(i + 1));
        i = i + 1;
    }
    assert(s.take(i as int) =~= s);
    builder.finish()
}

/// Builds the bytes of an SSTable file from sorted key-value pairs.
pub struct SSTableBuilder {
    file: Vec<u8>,
    current_block: Block,
    index_entries: Vec<(usize, Vec<u8>)>,
    /// All keys seen so far, for the bloom filter.
    all_keys: Vec<Vec<u8>>,
    block_size: usize,
    bits_per_key: usize,
    added: Ghost<Seq<Entry>>,
}

impl View for SSTableBuilder {
    type V = Seq<Entry>;

    /// The entries added so far.
    closed spec fn view(&self) -> Seq<Entry> {
        self.added@
    }
}

impl SSTableBuilder {
    /// The target data block size.
    pub closed spec fn spec_block_size(&self) -> int {
        self.block_size as int
    }

    /// The bloom filter bits per key.
    pub closed spec fn spec_bits_per_key(&self) -> nat {
        self.bits_per_key as nat
    }

    /// The file holds the finished blocks, and the last block is being filled.
    pub closed spec fn wf(&self) -> bool {
        let blocks = cut(self.added@, self.block_size as int);
        let done = if blocks.len() == 0 {
            blocks
        } else {
            blocks.drop_last()
        };
        &&& self.file@ == blocks_bytes(done)
        &&& index_view(self.index_entries@) == index_of(done)
        &&& vec_keys(self.all_keys@) == keys_of(self.added@)
        &&& self.current_block@ == if blocks.len() == 0 {
            Seq::empty()
        } else {
            blocks.last()
        }
        &&& blocks.len() > 0 ==> self.current_block@.len() > 0
        &&& self.current_block.spec_size() == capped(entries_size(self.current_block@))
    }

    /// A builder of data blocks of the given size, with the default filter.
    pub fn new(block_size: usize) -> (r: Self)
        ensures
            r.wf(),
            r@ == Seq::<Entry>::empty(),
            r.spec_block_size() == block_size,
            r.spec_bits_per_key() == DEFAULT_BITS_PER_KEY,
    {
        Self::with_bits_per_key(block_size, DEFAULT_BITS_PER_KEY)
    }

    /// A builder with a filter of the given bits per key.
    pub fn with_bits_per_key(block_size: usize, bits_per_key: usize) -> (r: Self)
        ensures
            r.wf(),
            r@ == Seq::<Entry>::empty(),
            r.spec_block_size() == block_size,
            r.spec_bits_per_key() == bits_per_key,
    {
        let r = SSTableBuilder {
            file: Vec::new(),
            current_block: Block::new(),
            index_entries: Vec::new(),
            all_keys: Vec::new(),
            block_size,
            bits_per_key,
            added: Ghost(Seq::empty()),
        };
        assert(index_view(r.index_entries@) =~= index_of(Seq::empty()));
        assert(vec_keys(r.all_keys@) =~= keys_of(Seq::empty()));
        r
    }

    /// Append a key-value pair. Keys must arrive in sorted order for the table
    /// to be readable.
    pub fn add(&mut self, key: &[u8], value: &[u8]) -> (r: Result<()>)
        requires
            old(self).wf(),
        ensures
            final(self).wf(),
            r is Ok,
            final(self)@ == old(self)@.push((key@, value@)),
            final(self).spec_block_size() == old(self).spec_block_size(),
            final(self).spec_bits_per_key() == old(self).spec_bits_per_key(),
    {
        let ghost e = (key@, value@);
        let ghost blocks = cut(self.added@, self.block_size as int);
        let ghost cur = self.current_block@;
        let ghost more = self.added@.push(e);
        proof {
            assert(more.drop_last() =~= self.added@);
            assert(cut(more, self.block_size as int) == place(blocks, e, self.block_size as int));
            entries_size_bound(cur);
            assert(seq![e].drop_last() =~= Seq::<Entry>::empty());
            assert(cur.push(e).drop_last() =~= cur);
        }
        let size = self.current_block.estimated_size();
        let wanted = size.saturating_add(key.len()).saturating_add(value.len()).saturating_add(
            ENTRY_HEADER,
        );
        if size > 0 && wanted > self.block_size {
            self.flush_block();
            proof {
                assert(blocks.push(seq![e]).drop_last() =~= blocks);
                assert(self.current_block@.push(e) =~= seq![e]);
            }
        } else {
            proof {
                if blocks.len() == 0 {
                    assert(blocks.push(seq![e]).drop_last() =~= blocks);
                    assert(cur.push(e) =~= seq![e]);
                } else {
                    assert(blocks.drop_last().push(cur.push(e)).drop_last() =~= blocks.drop_last());
                }
            }
        }
        let ghost old_keys = self.all_keys@;
        self.all_keys.push(copy_bytes(key));
        self.current_block.add(copy_bytes(key), copy_bytes(value));
        proof {
            assert(vec_keys(self.all_keys@) =~= vec_keys(old_keys).push(key@));
            assert(keys_of(more) =~= keys_of(self.added@).push(key@));
            self.added@ = more;
            let after = cut(more, self.block_size as int);
            assert(entries_size(Seq::<Entry>::empty()) == 0);
            assert(self.current_block@ =~= after.last());
            assert(self.file@ == blocks_bytes(after.drop_last()));
            assert(index_view(self.index_entries@) == index_of(after.drop_last()));
            assert(self.current_block.spec_size() == capped(entries_size(self.current_block@)));
        }
        Ok(())
    }

    /// Finalize the table: the bytes of the file, or an error if a key is too long
    /// or the table too large for the fields that hold their lengths and offsets.
    pub fn finish(self) -> (r: Result<Vec<u8>>)
        requires
            self.wf(),
        ensures
            match r {
                Ok(data) => {
                    &&& table_fits(self@, self.spec_block_size(), self.spec_bits_per_key())
                    &&& is_file_of(
                        data@,
                        self@,
                        self.spec_block_size(),
                        self.spec_bits_per_key(),
                    )
                },
                Err(e) => {
                    &&& !table_fits(self@, self.spec_block_size(), self.spec_bits_per_key())
                    &&& is_invalid_argument(e, misfit(self@))
                },
            },
    {
        let mut this = self;
        let ghost s = this.added@;
        let ghost blocks = cut(s, this.block_size as int);
        if !this.keys_are_short() {
            return Err(invalid_argument("key too long"));
        }
        if !this.current_block.is_empty() {
            this.flush_block();
        } else {
            assert(blocks.len() == 0);
        }
        let index_offset = this.file.len();
        this.write_index_block();
        let bloom_offset = this.file.len();
        let num_keys = this.all_keys.len();
        proof {
            assert(num_keys == s.len()) by {
                assert(vec_keys(this.all_keys@).len() == keys_of(s).len());
            }
            let n = num_keys as u128;
            let b = this.bits_per_key as u128;
            assert(n * b <= 0xffff_ffff_ffff_ffff * 0xffff_ffff_ffff_ffff) by (nonlinear_arith)
                requires
                    n <= 0xffff_ffff_ffff_ffff,
                    b <= 0xffff_ffff_ffff_ffff,
            ;
        }
        if bloom_offset as u64 > 0xffff_ffff || (num_keys as u128) * (this.bits_per_key as u128)
            > 0xffff_ffff {
            return Err(invalid_argument("SSTable too large"));
        }
        let mut key_refs: Vec<&[u8]> = Vec::new();
        let mut i: usize = 0;
        while i < this.all_keys.len()
            invariant
                i <= this.all_keys@.len(),
                key_refs@.len() == i,
                forall|j: int| 0 <= j < i ==> (#[trigger] key_refs@[j])@ == this.all_keys@[j]@,
            decreases this.all_keys@.len() - i,
        {
            key_refs.push(this.all_keys[i].as_slice());
            i = i + 1;
        }
        assert(key_views(key_refs@) =~= vec_keys(this.all_keys@));
        let bloom = BloomFilter::build(key_refs.as_slice(), this.bits_per_key);
        let bloom_data = bloom.encode();
        let mut file = this.file;
        append_bytes(&mut file, bloom_data.as_slice());
        push_u32(&mut file, index_offset as u64);
        push_u32(&mut file, bloom_offset as u64);
        proof {
            assert(bloom@.built_from(keys_of(self@), self.spec_bits_per_key()));
            assert(file@ =~= table_bytes(blocks, bloom@));
            assert(table_fits(self@, self.spec_block_size(), self.spec_bits_per_key()));
        }
        Ok(file)
    }

    /// Whether the length of every key fits the field that holds it.
    fn keys_are_short(&self) -> (r: bool)
        requires
            self.wf(),
        ensures
            r == keys_fit(self@),
    {
        let ghost s = self.added@;
        assert(vec_keys(self.all_keys@) == keys_of(s));
        assert(self.all_keys@.len() == s.len()) by {
            assert(vec_keys(self.all_keys@).len() == keys_of(s).len());
        }
        let mut i: usize = 0;
        while i < self.all_keys.len()
            invariant
                i <= self.all_keys@.len(),
                self.all_keys@.len() == s.len(),
                s == self@,
                vec_keys(self.all_keys@) == keys_of(s),
                forall|j: int| 0 <= j < i ==> (#[trigger] s[j]).0.len() <= MAX_KEY_LEN,
            decreases self.all_keys@.len() - i,
        {
            assert(vec_keys(self.all_keys@)[i as int] == keys_of(s)[i as int]);
            if self.all_keys[i].len() > MAX_KEY_LEN {
                assert(s[i as int].0.len() > MAX_KEY_LEN);
                return false;
            }
            i = i + 1;
        }
        true
    }

    /// Write out the current block and start a new one.
    fn flush_block(&mut self)
        requires
            old(self).wf(),
            old(self).current_block@.len() > 0,
        ensures
            final(self).added == old(self).added,
            final(self).all_keys == old(self).all_keys,
            final(self).block_size == old(self).block_size,
            final(self).bits_per_key == old(self).bits_per_key,
            final(self).current_block@ == Seq::<Entry>::empty(),
            final(self).current_block.spec_size() == 0,
            final(self).file@ == blocks_bytes(cut(old(self).added@, old(self).block_size as int)),
            index_view(final(self).index_entries@) == index_of(
                cut(old(self).added@, old(self).block_size as int),
            ),
    {
        let ghost blocks = cut(self.added@, self.block_size as int);
        let ghost cur = self.current_block@;
        let ghost old_index = self.index_entries@;
        proof {
            assert(blocks.len() > 0);
            assert(blocks.drop_last().push(cur) =~= blocks);
            index_of_push(blocks.drop_last(), cur);
        }
        let last_key = copy_bytes(self.current_block.last_key());
        let encoded = self.current_block.encode();
        let offset = self.file.len();
        append_bytes(&mut self.file, encoded.as_slice());
        self.index_entries.push((offset, last_key));
        assert(index_view(self.index_entries@) =~= index_view(old_index).push(
            (offset as int, last_key@),
        ));
        self.current_block = Block::new();
    }

    /// Write out the index block.
    fn write_index_block(&mut self)
        ensures
            final(self).file@ == old(self).file@ + index_bytes(index_view(old(self).index_entries@)),
            final(self).added == old(self).added,
            final(self).all_keys == old(self).all_keys,
            final(self).block_size == old(self).block_size,
            final(self).bits_per_key == old(self).bits_per_key,
    {
        let ghost before = *self;
        let ghost index = index_view(self.index_entries@);
        let ghost start = self.file@ + le_bytes(index.len(), 4);
        push_u32(&mut self.file, self.index_entries.len() as u64);
        let mut i: usize = 0;
        assert(index.take(0) =~= Seq::empty());
        assert(self.file@ =~= start + index_entries_bytes(index.take(0)));
        while i < self.index_entries.len()
            invariant
                *self == (SSTableBuilder { file: self.file, ..before }),
                index == index_view(self.index_entries@),
                i <= self.index_entries@.len(),
                self.file@ == start + index_entries_bytes(index.take(i as int)),
            decreases self.index_entries@.len() - i,
        {
            let ghost upto = index.take(i + 1);
            push_u32(&mut self.file, self.index_entries[i].0 as u64);
            push_u32(&mut self.file, self.index_entries[i].1.len() as u64);
            append_bytes(&mut self.file, self.index_entries[i].1.as_slice());
            proof {
                assert(upto.drop_last() =~= index.take(i as int));
                assert(upto.last() == index[i as int]);
                assert(self.file@ =~= start + (index_entries_bytes(index.take(i as int))
                    + index_entry_bytes(index[i as int])));
            }
            i = i + 1;
        }
        assert(index.take(i as int) =~= index);
        assert(self.file@ =~= before.file@ + index_bytes(index));
    }
}

/// A block that holds an entry has a size.
proof fn entries_size_bound(s: Seq<Entry>)
    ensures
        entries_size(s) >= 0,
        s.len() > 0 ==> entries_size(s) >= ENTRY_HEADER,
    decreases s.len(),
{
    if s.len() > 0 {
        entries_size_bound(s.drop_last());
    }
}

} // verus!
