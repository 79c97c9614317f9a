//! The open tables of the engine.
//!
//! Tables are listed from the oldest data to the newest: the deepest level comes
//! first, level 0 last, and within a level the table that was added last stands
//! last. A lookup goes through the list from its end, a scan from its start.

use std::sync::Arc;

use vstd::prelude::*;

use crate::cache::block_cache::{
    adds_only, adds_only_coherent, coherent, consulted, BlockCache, Cached,
};
use crate::engine::replay::{max_seq, max_seq_is_highest};
use crate::engine::value::{decode_with_seq, seq_of};
use crate::entries::{map_of, overlay, pairs, value_of};
use crate::error::Result;
use crate::manifest::{MetaView, SSTMeta};
use crate::sstable::format::{sound_lookup, TableView};
use crate::sstable::reader::{gives, SSTableReader};

verus! {

/// A table, as mathematics sees it: its metadata and its contents.
pub type TableEntry = (MetaView, TableView);

/// What the tables hold together: of two tables with one key the later counts.
pub open spec fn stored(tables: Seq<TableEntry>) -> Map<Seq<u8>, Seq<u8>>
    decreases tables.len(),
{
    if tables.len() == 0 {
        Map::empty()
    } else {
        overlay(stored(tables.drop_last()), map_of(tables.last().1.entries()))
    }
}

/// What a search through the tables, from the end of the list, comes to: the
/// value of the first table that has the key, unless a table before cannot be
/// read.
pub open spec fn search(tables: Seq<TableEntry>, key: Seq<u8>) -> std::result::Result<
    Option<Seq<u8>>,
    Seq<char>,
>
    decreases tables.len(),
{
    if tables.len() == 0 {
        Ok(None)
    } else {
        match tables.last().1.lookup(key) {
            Err(msg) => Err(msg),
            Ok(Some(v)) => Ok(Some(v)),
            Ok(None) => search(tables.drop_last(), key),
        }
    }
}

/// The cached blocks once a key was searched for in the tables: every table down
/// to the one that decides was looked up in, from the end of the list.
pub open spec fn searched(
    s: Seq<Cached>,
    tables: Seq<TableEntry>,
    key: Seq<u8>,
    capacity: int,
) -> Seq<Cached>
    decreases tables.len(),
{
    if tables.len() == 0 {
        s
    } else {
        let t = tables.last();
        let after = consulted(s, t.0.id, t.1, key, capacity);
        match t.1.lookup(key) {
            Ok(None) => searched(after, tables.drop_last(), key, capacity),
            _ => after,
        }
    }
}

/// All tables are sound.
pub open spec fn all_sound(tables: Seq<TableEntry>) -> bool {
    forall|i: int| 0 <= i < tables.len() ==> (#[trigger] tables[i]).1.sound()
}

/// The highest sequence number in the tables.
pub open spec fn tables_max_seq(tables: Seq<TableEntry>) -> u64
    decreases tables.len(),
{
    if tables.len() == 0 {
        0
    } else {
        let a = tables_max_seq(tables.drop_last());
        let b = max_seq(tables.last().1.entries());
        if a < b {
            b
        } else {
            a
        }
    }
}

/// A search through sound tables finds exactly what they hold together.
pub proof fn search_finds_stored(tables: Seq<TableEntry>, key: Seq<u8>)
    requires
        all_sound(tables),
    ensures
        search(tables, key) == Ok::<Option<Seq<u8>>, Seq<char>>(value_of(stored(tables), key)),
    decreases tables.len(),
{
    if tables.len() > 0 {
        let front = tables.drop_last();
        assert(tables[tables.len() - 1].1.sound());
        sound_lookup(tables.last().1, key);
        assert forall|i: int| 0 <= i < front.len() implies (#[trigger] front[i]).1.sound() by {
            assert(tables[i].1.sound());
        }
        search_finds_stored(front, key);
    }
}

/// A search ends at the last table of the list, which is the newest, that holds the
/// key or cannot be read, and comes to what that table gives. Where no table does,
/// the key is not found.
pub proof fn newest_table_decides(tables: Seq<TableEntry>, key: Seq<u8>, i: int)
    requires
        -1 <= i < tables.len(),
        forall|j: int|
            i < j < tables.len() ==> (#[trigger] tables[j]).1.lookup(key) == Ok::<
                Option<Seq<u8>>,
                Seq<char>,
            >(None),
    ensures
        0 <= i && tables[i].1.lookup(key) != Ok::<Option<Seq<u8>>, Seq<char>>(None) ==> search(
            tables,
            key,
        ) == tables[i].1.lookup(key),
        i == -1 ==> search(tables, key) == Ok::<Option<Seq<u8>>, Seq<char>>(None),
    decreases tables.len(),
{
    if i < tables.len() - 1 {
        let front = tables.drop_last();
        assert(tables[tables.len() - 1].1.lookup(key) == Ok::<Option<Seq<u8>>, Seq<char>>(None));
        assert forall|j: int| i < j < front.len() implies (#[trigger] front[j]).1.lookup(key)
            == Ok::<Option<Seq<u8>>, Seq<char>>(None) by {
            assert(tables[j] == front[j]);
        }
        newest_table_decides(front, key, i);
    }
}

/// Of several tables that hold a key, the last in the list counts.
pub proof fn newest_value_is_stored(tables: Seq<TableEntry>, key: Seq<u8>, i: int)
    requires
        0 <= i < tables.len(),
        map_of(tables[i].1.entries()).contains_key(key),
        forall|j: int|
            i < j < tables.len() ==> !map_of((#[trigger] tables[j]).1.entries()).contains_key(key),
    ensures
        stored(tables).contains_key(key),
        stored(tables)[key] == map_of(tables[i].1.entries())[key],
    decreases tables.len(),
{
    if i < tables.len() - 1 {
        let front = tables.drop_last();
        assert(!map_of(tables[tables.len() - 1].1.entries()).contains_key(key));
        assert forall|j: int| i < j < front.len() implies !map_of(
            (#[trigger] front[j]).1.entries(),
        ).contains_key(key) by {
            assert(tables[j] == front[j]);
        }
        newest_value_is_stored(front, key, i);
    }
}

/// The highest number in the tables is that of one of their entries, or 0, and no
/// entry has a higher one.
pub proof fn tables_max_seq_is_highest(tables: Seq<TableEntry>)
    ensures
        forall|t: int, i: int|
            0 <= t < tables.len() && 0 <= i < tables[t].1.entries().len() ==> seq_of(
                (#[trigger] tables[t].1.entries()[i]).1,
            ) <= tables_max_seq(tables),
        tables_max_seq(tables) == 0 || exists|t: int, i: int|
            0 <= t < tables.len() && 0 <= i < tables[t].1.entries().len() && seq_of(
                (#[trigger] tables[t].1.entries()[i]).1,
            ) == tables_max_seq(tables),
    decreases tables.len(),
{
    if tables.len() > 0 {
        let front = tables.drop_last();
        let n = tables.len() - 1;
        let last = tables.last().1.entries();
        tables_max_seq_is_highest(front);
        max_seq_is_highest(last);
        assert(tables[n] == tables.last());
        assert forall|t: int, i: int|
            0 <= t < tables.len() && 0 <= i < tables[t].1.entries().len() implies seq_of(
            (#[trigger] tables[t].1.entries()[i]).1,
        ) <= tables_max_seq(tables) by {
            if t < n {
                assert(front[t] == tables[t]);
                assert(seq_of(front[t].1.entries()[i].1) <= tables_max_seq(front));
            } else {
                assert(seq_of(last[i].1) <= max_seq(last));
            }
        }
        if tables_max_seq(tables) != 0 {
            if tables_max_seq(tables) == max_seq(last) {
                let i = choose|i: int|
                    0 <= i < last.len() && seq_of((#[trigger] last[i]).1) == max_seq(last);
                assert(seq_of(tables[n].1.entries()[i].1) == tables_max_seq(tables));
            } else {
                let (t, i) = choose|t: int, i: int|
                    0 <= t < front.len() && 0 <= i < front[t].1.entries().len() && seq_of(
                        (#[trigger] front[t].1.entries()[i]).1,
                    ) == tables_max_seq(front);
                assert(front[t] == tables[t]);
                assert(seq_of(tables[t].1.entries()[i].1) == tables_max_seq(tables));
            }
        }
    }
}

/// A search asks the cache for the newest table's block, and if that table decides,
/// for no other.
pub proof fn search_touches_newest(
    s: Seq<Cached>,
    tables: Seq<TableEntry>,
    key: Seq<u8>,
    capacity: int,
)
    requires
        tables.len() > 0,
        tables.last().1.filter.may_contain(key),
        0 <= tables.last().1.block_of(key) < tables.last().1.index.len(),
        tables.last().1.block_of(key) <= usize::MAX,
        tables.last().1.load(tables.last().1.block_of(key)) is Ok,
        tables.last().1.lookup(key) != Ok::<Option<Seq<u8>>, Seq<char>>(None),
    ensures
        searched(s, tables, key, capacity).len() > 0,
        searched(s, tables, key, capacity)[0].0.sst_id == tables.last().0.id,
        searched(s, tables, key, capacity)[0].0.block_idx == tables.last().1.block_of(key),
{
    let t = tables.last();
    let k = crate::cache::block_cache::CacheKey {
        sst_id: t.0.id,
        block_idx: t.1.block_of(key) as usize,
    };
    crate::cache::block_cache::slot_is_first(s, k);
}

/// What two lists of tables hold together.
pub proof fn stored_append(a: Seq<TableEntry>, b: Seq<TableEntry>)
    ensures
        stored(a + b) == overlay(stored(a), stored(b)),
    decreases b.len(),
{
    if b.len() == 0 {
        assert(a + b =~= a);
        assert(overlay(stored(a), stored(b)) =~= stored(a));
    } else {
        stored_append(a, b.drop_last());
        assert((a + b).drop_last() =~= a + b.drop_last());
        assert(stored(a + b) =~= overlay(stored(a), stored(b)));
    }
}

/// A key is stored exactly if some table has it.
pub proof fn stored_contains(tables: Seq<TableEntry>, key: Seq<u8>)
    ensures
        stored(tables).contains_key(key) <==> exists|i: int|
            0 <= i < tables.len() && map_of((#[trigger] tables[i]).1.entries()).contains_key(key),
    decreases tables.len(),
{
    if tables.len() > 0 {
        let front = tables.drop_last();
        stored_contains(front, key);
        if stored(front).contains_key(key) {
            let i = choose|i: int|
                0 <= i < front.len() && map_of((#[trigger] front[i]).1.entries()).contains_key(key);
            assert(map_of(tables[i].1.entries()).contains_key(key));
        }
        if map_of(tables.last().1.entries()).contains_key(key) {
            assert(map_of(tables[tables.len() - 1].1.entries()).contains_key(key));
        }
        if exists|i: int|
            0 <= i < tables.len() && map_of((#[trigger] tables[i]).1.entries()).contains_key(key) {
            let i = choose|i: int|
                0 <= i < tables.len() && map_of((#[trigger] tables[i]).1.entries()).contains_key(
                    key,
                );
            if i < front.len() {
                assert(map_of(front[i].1.entries()).contains_key(key));
            }
        }
    }
}

/// An open table.
#[derive(Clone)]
pub struct Table {
    pub meta: SSTMeta,
    pub reader: Arc<SSTableReader>,
}

impl View for Table {
    type V = TableEntry;

    open spec fn view(&self) -> TableEntry {
        (self.meta@, self.reader@)
    }
}

/// `Arc::clone`: another handle on the same table, which is not copied.
#[verifier::external_body]
fn share(reader: &Arc<SSTableReader>) -> (r: Arc<SSTableReader>)
    ensures
        r == *reader,
{
    Arc::clone(reader)
}

impl Table {
    /// The same table once more.
    pub fn shared(&self) -> (r: Self)
        ensures
            r@ == self@,
            self.reader.wf() ==> r.reader.wf(),
    {
        Table { meta: self.meta.copy(), reader: share(&self.reader) }
    }
}

/// The open tables and the cache of their blocks.
pub struct Tables {
    pub list: Vec<Table>,
    pub cache: Option<BlockCache>,
}

impl View for Tables {
    type V = Seq<TableEntry>;

    open spec fn view(&self) -> Seq<TableEntry> {
        Seq::new(self.list@.len(), |i: int| self.list@[i]@)
    }
}

/// What a cache holds for a list of tables are blocks of these tables, and all
/// tables are numbered below `bound`.
pub open spec fn cache_fits(
    cached: Seq<Cached>,
    tables: Seq<TableEntry>,
    bound: u64,
) -> bool {
    &&& forall|i: int| 0 <= i < cached.len() ==> (#[trigger] cached[i]).0.sst_id < bound
    &&& forall|i: int|
        0 <= i < tables.len() ==> coherent(cached, (#[trigger] tables[i]).0.id, tables[i].1)
}

/// Two tables with one number are the same table, and all are numbered below
/// `bound`.
pub open spec fn ids_fit(tables: Seq<TableEntry>, bound: u64) -> bool {
    &&& forall|i: int| 0 <= i < tables.len() ==> (#[trigger] tables[i]).0.id < bound
    &&& forall|i: int, j: int|
        0 <= i < tables.len() && 0 <= j < tables.len() && (#[trigger] tables[i]).0.id == (
        #[trigger] tables[j]).0.id ==> tables[i].1 == tables[j].1
}

/// A lookup that used the cache leaves it fit.
proof fn cache_stays_fit(
    before: Seq<Cached>,
    after: Seq<Cached>,
    tables: Seq<TableEntry>,
    bound: u64,
    i: int,
)
    requires
        cache_fits(before, tables, bound),
        ids_fit(tables, bound),
        0 <= i < tables.len(),
        adds_only(before, after, tables[i].0.id),
        coherent(after, tables[i].0.id, tables[i].1),
    ensures
        cache_fits(after, tables, bound),
{
    assert forall|k: int| 0 <= k < after.len() implies (#[trigger] after[k]).0.sst_id < bound by {
        if after[k].0.sst_id != tables[i].0.id {
            let m = choose|m: int| 0 <= m < before.len() && #[trigger] before[m] == after[k];
        }
    }
    assert forall|k: int| 0 <= k < tables.len() implies coherent(
        after,
        (#[trigger] tables[k]).0.id,
        tables[k].1,
    ) by {
        if tables[k].0.id != tables[i].0.id {
            adds_only_coherent(before, after, tables[i].0.id, tables[k].0.id, tables[k].1);
        }
    }
}

impl Tables {
    /// The capacity of the block cache, if there is one.
    pub open spec fn cache_capacity(&self) -> Option<int> {
        match self.cache {
            Some(cache) => Some(cache.spec_capacity()),
            None => None,
        }
    }

    /// The cached blocks, the most recently used in front, if there is a cache.
    pub open spec fn cached(&self) -> Option<Seq<Cached>> {
        match self.cache {
            Some(cache) => Some(cache@),
            None => None,
        }
    }

    /// The readers can be asked, and the cache holds blocks of these tables.
    pub open spec fn wf(&self, bound: u64) -> bool {
        &&& forall|i: int| 0 <= i < self.list@.len() ==> (#[trigger] self.list@[i]).reader.wf()
        &&& ids_fit(self@, bound)
        &&& self.cache matches Some(cache) ==> cache.wf() && cache_fits(cache@, self@, bound)
    }

    /// No tables, and a cache of the given capacity unless it is 0.
    pub fn new(cache_size: usize) -> (r: Self)
        ensures
            r.wf(0),
            r@ == Seq::<TableEntry>::empty(),
            r.cache is Some <==> cache_size > 0,
            r.cache matches Some(cache) ==> cache.spec_capacity() == cache_size && cache@.len()
                == 0,
    {
        let cache = if cache_size > 0 {
            Some(BlockCache::new(cache_size))
        } else {
            None
        };
        let r = Tables { list: Vec::new(), cache };
        assert(r@ =~= Seq::<TableEntry>::empty());
        r
    }

    /// Look a key up in the tables, from the newest data to the oldest.
    pub(crate) fn get(&mut self, key: &[u8], Ghost(bound): Ghost<u64>) -> (r: Result<Option<Vec<u8>>>)
        requires
            old(self).wf(bound),
        ensures
            final(self).wf(bound),
            final(self).list == old(self).list,
            final(self).cache_capacity() == old(self).cache_capacity(),
            gives(r, search(old(self)@, key@)),
            final(self).cached() == match old(self).cached() {
                Some(s) => Some(
                    searched(s, old(self)@, key@, old(self).cache_capacity()->Some_0),
                ),
                None => None,
            },
    {
        let ghost tables = self@;
        let mut i: usize = self.list.len();
        assert(tables.take(i as int) =~= tables);
        while i > 0
            invariant
                i <= self.list@.len(),
                self.list == old(self).list,
                tables == old(self)@,
                tables == self@,
                self.wf(bound),
                self.cache_capacity() == old(self).cache_capacity(),
                search(tables, key@) == search(tables.take(i as int), key@),
                self.cached() is Some <==> old(self).cached() is Some,
                self.cached() matches Some(s) ==> searched(
                    s,
                    tables.take(i as int),
                    key@,
                    self.cache_capacity()->Some_0,
                ) == searched(
                    old(self).cached()->Some_0,
                    tables,
                    key@,
                    self.cache_capacity()->Some_0,
                ),
            decreases i,
        {
            i = i - 1;
            let ghost upto = tables.take(i + 1);
            proof {
                assert(upto.drop_last() =~= tables.take(i as int));
                assert(upto.last() == tables[i as int]);
                assert(tables[i as int] == self.list@[i as int]@);
            }
            let table = &self.list[i];
            let found = match &mut self.cache {
                Some(cache) => {
                    let ghost before = cache@;
                    let r = table.reader.get_with_cache(key, table.meta.id, cache);
                    proof {
                        cache_stays_fit(before, cache@, tables, bound, i as int);
                    }
                    r
                },
                None => table.reader.get(key),
            };
            assert(self@ =~= tables);
            match found {
                Err(e) => {
                    return Err(e);
                },
                Ok(Some(v)) => {
                    return Ok(Some(v));
                },
                Ok(None) => {},
            }
        }
        assert(tables.take(0) =~= Seq::empty());
        Ok(None)
    }

    /// The highest sequence number in the tables.
    pub fn highest_seq(&self) -> (r: u64)
        ensures
            r == tables_max_seq(self@),
    {
        let ghost tables = self@;
        let mut highest: u64 = 0;
        let mut i: usize = 0;
        assert(tables.take(0) =~= Seq::empty());
        while i < self.list.len()
            invariant
                i <= self.list@.len(),
                tables == self@,
                highest == tables_max_seq(tables.take(i as int)),
            decreases self.list@.len() - i,
        {
            let ghost upto = tables.take(i + 1);
            assert(upto.drop_last() =~= tables.take(i as int));
            assert(upto.last() == tables[i as int]);
            let entries = self.list[i].reader.iter().collect();
            let seq = highest_of(&entries);
            if highest < seq {
                highest = seq;
            }
            i = i + 1;
        }
        assert(tables.take(i as int) =~= tables);
        highest
    }
}

/// The highest sequence number among entries.
fn highest_of(entries: &Vec<(Vec<u8>, Vec<u8>)>) -> (r: u64)
    ensures
        r == max_seq(pairs(entries@)),
{
    let ghost s = pairs(entries@);
    let mut highest: u64 = 0;
    let mut i: usize = 0;
    assert(s.take(0) =~= Seq::empty());
    while i < entries.len()
        invariant
            i <= entries@.len(),
            s == pairs(entries@),
            highest == max_seq(s.take(i as int)),
        decreases entries@.len() - i,
    {
        let ghost upto = s.take(i + 1);
        assert(upto.drop_last() =~= s.take(i as int));
        assert(upto.last() == s[i as int]);
        let (_, seq) = decode_with_seq(entries[i].1.as_slice());
        if highest < seq {
            highest = seq;
        }
        i = i + 1;
    }
    assert(s.take(i as int) =~= s);
    highest
}

} // verus!
