//! Leveled compaction: which tables are merged, and what becomes of them.
//!
//! A compaction takes all tables of a level and those of the next level whose
//! key ranges overlap theirs, and writes what they hold together as one table of
//! the next level. Deleted and expired entries are left out where nothing older
//! is left that they hide.

use vstd::prelude::*;

use crate::bytes::{
    bytes_le, bytes_lt, copy_bytes, lex_le, lex_lt, lex_lt_total, lex_lt_transitive,
};
use crate::engine::tables::{stored, TableEntry, Tables};
use crate::engine::value::{shown, unpack_value};
use crate::entries::{copy_entry, map_of, map_of_sorted, pairs, pairs_push, sorted, Entry};
use crate::error::Result;
use crate::manifest::{at_level, metas, Manifest, MetaView, SSTMeta};
use crate::memtable::memtable::{insert_all, MAX_LEVEL};
use crate::memtable::skiplist::SkipList;
use crate::sstable::builder::{build_table, file_opens, is_file_of};
use crate::sstable::format::{misfit, parse_table, table_fits};
use crate::sstable::reader::gives;

verus! {

/// The least of the tables' first keys.
pub open spec fn least_key(s: Seq<MetaView>) -> Seq<u8>
    decreases s.len(),
{
    if s.len() <= 1 {
        s[0].min_key
    } else if lex_lt(s.last().min_key, least_key(s.drop_last())) {
        s.last().min_key
    } else {
        least_key(s.drop_last())
    }
}

/// The greatest of the tables' last keys.
pub open spec fn greatest_key(s: Seq<MetaView>) -> Seq<u8>
    decreases s.len(),
{
    if s.len() <= 1 {
        s[0].max_key
    } else if lex_lt(greatest_key(s.drop_last()), s.last().max_key) {
        s.last().max_key
    } else {
        greatest_key(s.drop_last())
    }
}

/// Whether a table's key range meets `[lo, hi]`.
pub open spec fn overlaps(m: MetaView, lo: Seq<u8>, hi: Seq<u8>) -> bool {
    lex_le(lo, m.max_key) && lex_le(m.min_key, hi)
}

/// The tables of the next level that a compaction of `src_level` takes in.
pub open spec fn overlapping(levels: Seq<Seq<MetaView>>, src_level: int) -> Seq<MetaView> {
    let src = at_level(levels, src_level);
    at_level(levels, src_level + 1).filter(
        |m: MetaView| overlaps(m, least_key(src), greatest_key(src)),
    )
}

/// The numbers of a list of tables.
pub open spec fn ids_of(s: Seq<MetaView>) -> Seq<u64> {
    Seq::new(s.len(), |i: int| s[i].id)
}

/// The numbers of the tables that a compaction of `src_level` merges.
pub open spec fn victims(levels: Seq<Seq<MetaView>>, src_level: int) -> Seq<u64> {
    ids_of(at_level(levels, src_level)) + ids_of(overlapping(levels, src_level))
}

/// The tables that are merged.
pub open spec fn picked(tables: Seq<TableEntry>, ids: Seq<u64>) -> Seq<TableEntry>
    decreases tables.len(),
{
    if tables.len() == 0 {
        Seq::empty()
    } else if ids.contains(tables.last().0.id) {
        picked(tables.drop_last(), ids).push(tables.last())
    } else {
        picked(tables.drop_last(), ids)
    }
}

/// The tables that stay.
pub open spec fn spared(tables: Seq<TableEntry>, ids: Seq<u64>) -> Seq<TableEntry>
    decreases tables.len(),
{
    if tables.len() == 0 {
        Seq::empty()
    } else if ids.contains(tables.last().0.id) {
        spared(tables.drop_last(), ids)
    } else {
        spared(tables.drop_last(), ids).push(tables.last())
    }
}

/// Whether a table that stays, at `level` or deeper, may hold a key.
pub open spec fn held(tables: Seq<TableEntry>, ids: Seq<u64>, level: int, key: Seq<u8>) -> bool {
    exists|i: int|
        0 <= i < tables.len() && !ids.contains((#[trigger] tables[i]).0.id) && tables[i].0.level
            >= level && tables[i].1.lookup(key) != Ok::<Option<Seq<u8>>, Seq<char>>(None)
}

/// Whether an entry survives a compaction into `level` at the time `now`.
pub open spec fn survives(
    tables: Seq<TableEntry>,
    ids: Seq<u64>,
    level: int,
    now: u64,
    e: Entry,
) -> bool {
    shown(e.1, now) is Some || held(tables, ids, level, e.0)
}

/// `s` is what a compaction of the tables `ids` into `level` writes: in key
/// order, of what they hold together, the entries that survive.
pub open spec fn compacts_to(
    tables: Seq<TableEntry>,
    ids: Seq<u64>,
    level: int,
    now: u64,
    s: Seq<Entry>,
) -> bool {
    &&& sorted(s)
    &&& forall|k: Seq<u8>| #[trigger]
        map_of(s).contains_key(k) <==> {
            let m = stored(picked(tables, ids));
            m.contains_key(k) && survives(tables, ids, level, now, (k, m[k]))
        }
    &&& forall|k: Seq<u8>| #[trigger]
        map_of(s).contains_key(k) ==> map_of(s)[k] == stored(picked(tables, ids))[k]
}

/// What a compaction into a level, whichever it is, keeps and drops. Every entry
/// that it writes shows a value, or hides one that a table further down still
/// holds. A deleted or expired entry that hides nothing is dropped. What shows is
/// kept, with the newest value that the merged tables have for it, and nothing else
/// is written.
pub proof fn compaction_cleans_up(
    tables: Seq<TableEntry>,
    ids: Seq<u64>,
    level: int,
    now: u64,
    s: Seq<Entry>,
)
    requires
        compacts_to(tables, ids, level, now, s),
    ensures
        forall|i: int|
            0 <= i < s.len() ==> shown((#[trigger] s[i]).1, now) is Some || exists|t: int|
                0 <= t < tables.len() && !ids.contains((#[trigger] tables[t]).0.id)
                    && tables[t].0.level >= level && tables[t].1.lookup(s[i].0) != Ok::<
                    Option<Seq<u8>>,
                    Seq<char>,
                >(None),
        forall|k: Seq<u8>|
            {
                let m = stored(picked(tables, ids));
                m.contains_key(k) && shown(m[k], now) is None && (forall|t: int|
                    0 <= t < tables.len() && !ids.contains((#[trigger] tables[t]).0.id)
                        && tables[t].0.level >= level ==> tables[t].1.lookup(k) == Ok::<
                        Option<Seq<u8>>,
                        Seq<char>,
                    >(None))
            } ==> !#[trigger] map_of(s).contains_key(k),
        forall|k: Seq<u8>|
            stored(picked(tables, ids)).contains_key(k) && shown(
                stored(picked(tables, ids))[k],
                now,
            ) is Some ==> #[trigger] map_of(s).contains_key(k),
        forall|k: Seq<u8>| #[trigger]
            map_of(s).contains_key(k) ==> stored(picked(tables, ids)).contains_key(k)
                && map_of(s)[k] == stored(picked(tables, ids))[k],
        forall|i: int, j: int| 0 <= i < j < s.len() ==> lex_lt(#[trigger] s[i].0, #[trigger] s[j].0),
{
    let m = stored(picked(tables, ids));
    assert forall|i: int| 0 <= i < s.len() implies shown((#[trigger] s[i]).1, now) is Some
        || exists|t: int|
        0 <= t < tables.len() && !ids.contains((#[trigger] tables[t]).0.id) && tables[t].0.level
            >= level && tables[t].1.lookup(s[i].0) != Ok::<Option<Seq<u8>>, Seq<char>>(None) by {
        map_of_sorted(s, i);
        assert(map_of(s).contains_key(s[i].0));
        assert(survives(tables, ids, level, now, (s[i].0, m[s[i].0])));
    }
    assert forall|k: Seq<u8>| m.contains_key(k) && shown(m[k], now) is Some implies #[trigger] map_of(
        s,
    ).contains_key(k) by {
        assert(survives(tables, ids, level, now, (k, m[k])));
    }
    assert forall|k: Seq<u8>|
        m.contains_key(k) && shown(m[k], now) is None && (forall|t: int|
            0 <= t < tables.len() && !ids.contains((#[trigger] tables[t]).0.id) && tables[t].0.level
                >= level ==> tables[t].1.lookup(k) == Ok::<Option<Seq<u8>>, Seq<char>>(
                None,
            )) implies !#[trigger] map_of(s).contains_key(k) by {
        assert(!survives(tables, ids, level, now, (k, m[k])));
    }
}

/// Of the merged tables that hold a key, the newest decides: the last in the list.
pub proof fn newest_merged_counts(tables: Seq<TableEntry>, ids: Seq<u64>, key: Seq<u8>, i: int)
    requires
        0 <= i < tables.len(),
        ids.contains(tables[i].0.id),
        map_of(tables[i].1.entries()).contains_key(key),
        forall|j: int|
            i < j < tables.len() && ids.contains((#[trigger] tables[j]).0.id) ==> !map_of(
                tables[j].1.entries(),
            ).contains_key(key),
    ensures
        stored(picked(tables, ids)).contains_key(key),
        stored(picked(tables, ids))[key] == map_of(tables[i].1.entries())[key],
    decreases tables.len(),
{
    let front = tables.drop_last();
    let t = tables.last();
    if ids.contains(t.0.id) {
        assert(picked(front, ids).push(t).drop_last() =~= picked(front, ids));
    }
    if i < tables.len() - 1 {
        assert forall|j: int|
            i < j < front.len() && ids.contains((#[trigger] front[j]).0.id) implies !map_of(
            front[j].1.entries(),
        ).contains_key(key) by {
            assert(tables[j] == front[j]);
        }
        newest_merged_counts(front, ids, key, i);
        assert(tables[tables.len() - 1] == t);
    }
}

/// A key that no merged table holds is not among what they hold together.
pub proof fn merged_holds_nothing_else(tables: Seq<TableEntry>, ids: Seq<u64>, key: Seq<u8>)
    requires
        forall|j: int|
            0 <= j < tables.len() && ids.contains((#[trigger] tables[j]).0.id) ==> !map_of(
                tables[j].1.entries(),
            ).contains_key(key),
    ensures
        !stored(picked(tables, ids)).contains_key(key),
    decreases tables.len(),
{
    if tables.len() > 0 {
        let front = tables.drop_last();
        let t = tables.last();
        if ids.contains(t.0.id) {
            assert(picked(front, ids).push(t).drop_last() =~= picked(front, ids));
        }
        assert forall|j: int|
            0 <= j < front.len() && ids.contains((#[trigger] front[j]).0.id) implies !map_of(
            front[j].1.entries(),
        ).contains_key(key) by {
            assert(tables[j] == front[j]);
        }
        merged_holds_nothing_else(front, ids, key);
        assert(tables[tables.len() - 1] == t);
    }
}

/// The tables that are merged and those that stay are all of them, each in one of
/// the two lists and in its order.
pub proof fn picked_or_spared(tables: Seq<TableEntry>, ids: Seq<u64>)
    ensures
        picked(tables, ids) == tables.filter(|t: TableEntry| ids.contains(t.0.id)),
        spared(tables, ids) == tables.filter(|t: TableEntry| !ids.contains(t.0.id)),
    decreases tables.len(),
{
    reveal_with_fuel(Seq::filter, 1);
    if tables.len() > 0 {
        picked_or_spared(tables.drop_last(), ids);
    }
}

/// The least and the greatest key of a level are keys of its tables, and bound all.
proof fn key_bounds(s: Seq<MetaView>)
    requires
        s.len() > 0,
    ensures
        exists|i: int| 0 <= i < s.len() && (#[trigger] s[i]).min_key == least_key(s),
        exists|i: int| 0 <= i < s.len() && (#[trigger] s[i]).max_key == greatest_key(s),
        forall|i: int| 0 <= i < s.len() ==> lex_le(least_key(s), (#[trigger] s[i]).min_key),
        forall|i: int| 0 <= i < s.len() ==> lex_le((#[trigger] s[i]).max_key, greatest_key(s)),
    decreases s.len(),
{
    if s.len() == 1 {
        assert(s[0].min_key == least_key(s));
        assert(s[0].max_key == greatest_key(s));
    } else {
        let front = s.drop_last();
        key_bounds(front);
        let n = s.len() - 1;
        let a = choose|i: int| 0 <= i < front.len() && (#[trigger] front[i]).min_key == least_key(front);
        let b = choose|i: int|
            0 <= i < front.len() && (#[trigger] front[i]).max_key == greatest_key(front);
        assert(s[a].min_key == least_key(front));
        assert(s[b].max_key == greatest_key(front));
        assert(s[n] == s.last());
        lex_lt_total(s.last().min_key, least_key(front));
        lex_lt_total(s.last().max_key, greatest_key(front));
        assert forall|i: int| 0 <= i < s.len() implies lex_le(
            least_key(s),
            (#[trigger] s[i]).min_key,
        ) && lex_le(s[i].max_key, greatest_key(s)) by {
            if i < n {
                assert(front[i] == s[i]);
                if lex_lt(s.last().min_key, least_key(front)) && least_key(front) != s[i].min_key {
                    lex_lt_transitive(s.last().min_key, least_key(front), s[i].min_key);
                }
                if lex_lt(greatest_key(front), s.last().max_key) && greatest_key(front)
                    != s[i].max_key {
                    lex_lt_transitive(s[i].max_key, greatest_key(front), s.last().max_key);
                }
            }
        }
    }
}

/// Which tables a compaction of a level merges: all of the level, and of the next
/// those, and only those, whose keys do not lie all before or all behind the keys
/// of the level.
pub proof fn victims_by_range(levels: Seq<Seq<MetaView>>, level: int)
    requires
        0 <= level < levels.len(),
        levels[level].len() > 0,
    ensures
        forall|i: int|
            0 <= i < levels[level].len() ==> victims(levels, level).contains(
                (#[trigger] levels[level][i]).id,
            ),
        level + 1 < levels.len() ==> forall|m: int, a: int, b: int|
            0 <= m < levels[level + 1].len() && 0 <= a < levels[level].len() && 0 <= b
                < levels[level].len() && lex_le(
                (#[trigger] levels[level][a]).min_key,
                levels[level + 1][m].max_key,
            ) && lex_le(
                (#[trigger] levels[level + 1][m]).min_key,
                (#[trigger] levels[level][b]).max_key,
            ) ==> victims(levels, level).contains(levels[level + 1][m].id),
        forall|n: u64| #[trigger]
            victims(levels, level).contains(n) ==> (exists|i: int|
                0 <= i < levels[level].len() && (#[trigger] levels[level][i]).id == n) || (level + 1
                < levels.len() && exists|m: int, a: int, b: int|
                0 <= m < levels[level + 1].len() && 0 <= a < levels[level].len() && 0 <= b
                    < levels[level].len() && levels[level + 1][m].id == n && lex_le(
                    (#[trigger] levels[level][a]).min_key,
                    levels[level + 1][m].max_key,
                ) && lex_le(
                    (#[trigger] levels[level + 1][m]).min_key,
                    (#[trigger] levels[level][b]).max_key,
                )),
{
    let src = levels[level];
    let ids = victims(levels, level);
    let dst = at_level(levels, level + 1);
    let lo = least_key(src);
    let hi = greatest_key(src);
    let meets = |m: MetaView| overlaps(m, lo, hi);
    let chosen = overlapping(levels, level);
    assert(src == at_level(levels, level));
    key_bounds(src);
    assert forall|i: int| 0 <= i < src.len() implies ids.contains((#[trigger] src[i]).id) by {
        assert(ids[i] == src[i].id);
    }
    assert forall|j: int| 0 <= j < chosen.len() implies ids.contains((#[trigger] chosen[j]).id) by {
        assert(ids[src.len() + j] == chosen[j].id);
    }
    if level + 1 < levels.len() {
        assert(dst == levels[level + 1]);
        assert forall|m: int, a: int, b: int|
            0 <= m < dst.len() && 0 <= a < src.len() && 0 <= b < src.len() && lex_le(
                (#[trigger] src[a]).min_key,
                dst[m].max_key,
            ) && lex_le((#[trigger] dst[m]).min_key, (#[trigger] src[b]).max_key) implies ids.contains(
            dst[m].id,
        ) by {
            lex_le_through(lo, src[a].min_key, dst[m].max_key);
            lex_le_through(dst[m].min_key, src[b].max_key, hi);
            dst.lemma_filter_contains(meets, m);
            let j = choose|j: int| 0 <= j < chosen.len() && chosen[j] == dst[m];
            assert(ids.contains(chosen[j].id));
        }
    }
    assert forall|n: u64| #[trigger] ids.contains(n) implies (exists|i: int|
        0 <= i < src.len() && (#[trigger] src[i]).id == n) || (level + 1 < levels.len()
        && exists|m: int, a: int, b: int|
        0 <= m < dst.len() && 0 <= a < src.len() && 0 <= b < src.len() && dst[m].id == n && lex_le(
            (#[trigger] src[a]).min_key,
            dst[m].max_key,
        ) && lex_le((#[trigger] dst[m]).min_key, (#[trigger] src[b]).max_key)) by {
        let k = choose|k: int| 0 <= k < ids.len() && ids[k] == n;
        if k < src.len() {
            assert(src[k].id == n);
        } else {
            let j = k - src.len();
            assert(chosen[j].id == n);
            let m = filter_from(dst, meets, j);
            let a = choose|i: int| 0 <= i < src.len() && (#[trigger] src[i]).min_key == lo;
            let b = choose|i: int| 0 <= i < src.len() && (#[trigger] src[i]).max_key == hi;
            assert(lex_le(src[a].min_key, dst[m].max_key) && lex_le(
                dst[m].min_key,
                src[b].max_key,
            ));
        }
    }
}

/// What is no later than something no later than a third is no later than it.
proof fn lex_le_through(a: Seq<u8>, b: Seq<u8>, c: Seq<u8>)
    requires
        lex_le(a, b),
        lex_le(b, c),
    ensures
        lex_le(a, c),
{
    if a != b && b != c {
        lex_lt_transitive(a, b, c);
    }
}

/// What a filter lets through is of the list and passes.
proof fn filter_from(s: Seq<MetaView>, keep: spec_fn(MetaView) -> bool, j: int) -> (i: int)
    requires
        0 <= j < s.filter(keep).len(),
    ensures
        0 <= i < s.len(),
        s[i] == s.filter(keep)[j],
        keep(s[i]),
    decreases s.len(),
{
    reveal_with_fuel(Seq::filter, 1);
    let front = s.drop_last();
    if j < front.filter(keep).len() {
        filter_from(front, keep, j)
    } else {
        s.len() - 1
    }
}

/// A table to be written.
pub struct NewTable {
    pub meta: SSTMeta,
    pub file: Vec<u8>,
}

/// `t` is a new table of the entries `s`.
pub open spec fn is_table_of(
    t: NewTable,
    s: Seq<Entry>,
    id: u64,
    level: int,
    block_size: int,
    bits_per_key: nat,
) -> bool {
    &&& s.len() > 0
    &&& t.meta@ == MetaView { id, level, min_key: s[0].0, max_key: s.last().0 }
    &&& is_file_of(t.file@, s, block_size, bits_per_key)
    &&& table_fits(s, block_size, bits_per_key)
}

/// A new table tells its number, its level and the keys of its first and last
/// entry, and its file opens as a sound table of exactly these entries.
pub proof fn new_table_holds_its_entries(
    t: NewTable,
    s: Seq<Entry>,
    id: u64,
    level: int,
    block_size: int,
    bits_per_key: nat,
)
    requires
        is_table_of(t, s, id, level, block_size, bits_per_key),
        sorted(s),
    ensures
        s.len() > 0,
        t.meta.id == id,
        t.meta.level == level,
        t.meta.min_key@ == s[0].0,
        t.meta.max_key@ == s.last().0,
        parse_table(t.file@) is Ok,
        parse_table(t.file@)->Ok_0.sound(),
        parse_table(t.file@)->Ok_0.entries() == s,
{
    file_opens(t.file@, s, block_size, bits_per_key);
}

/// Make a new table of sorted entries.
pub fn make_table(
    entries: &Vec<(Vec<u8>, Vec<u8>)>,
    id: u64,
    level: usize,
    block_size: usize,
    bits_per_key: usize,
) -> (r: Result<NewTable>)
    requires
        entries@.len() > 0,
    ensures
        match r {
            Ok(t) => is_table_of(
                t,
                pairs(entries@),
                id,
                level as int,
                block_size as int,
                bits_per_key as nat,
            ),
            Err(e) => {
                &&& !table_fits(pairs(entries@), block_size as int, bits_per_key as nat)
                &&& crate::error::is_invalid_argument(e, misfit(pairs(entries@)))
            },
        },
{
    match build_table(entries, block_size, bits_per_key) {
        Err(e) => Err(e),
        Ok(file) => {
            let min_key = copy_bytes(entries[0].0.as_slice());
            let max_key = copy_bytes(entries[entries.len() - 1].0.as_slice());
            Ok(NewTable { meta: SSTMeta::new(id, level, min_key, max_key), file })
        },
    }
}

/// Whether a number is in a list.
pub fn contains_id(ids: &Vec<u64>, id: u64) -> (r: bool)
    ensures
        r == ids@.contains(id),
{
    let mut i: usize = 0;
    while i < ids.len()
        invariant
            i <= ids@.len(),
            forall|j: int| 0 <= j < i ==> ids@[j] != id,
        decreases ids@.len() - i,
    {
        if ids[i] == id {
            assert(ids@[i as int] == id);
            return true;
        }
        i = i + 1;
    }
    false
}

/// The range of the keys of a level's tables.
fn key_range(s: &[SSTMeta]) -> (r: (Vec<u8>, Vec<u8>))
    requires
        s@.len() > 0,
    ensures
        r.0@ == least_key(metas(s@)),
        r.1@ == greatest_key(metas(s@)),
{
    let ghost all = metas(s@);
    let mut lo = copy_bytes(s[0].min_key.as_slice());
    let mut hi = copy_bytes(s[0].max_key.as_slice());
    let mut i: usize = 1;
    while i < s.len()
        invariant
            1 <= i <= s@.len(),
            all == metas(s@),
            lo@ == least_key(all.take(i as int)),
            hi@ == greatest_key(all.take(i as int)),
        decreases s@.len() - i,
    {
        let ghost upto = all.take(i + 1);
        assert(upto.drop_last() =~= all.take(i as int));
        assert(upto.last() == all[i as int]);
        if bytes_lt(s[i].min_key.as_slice(), lo.as_slice()) {
            lo = copy_bytes(s[i].min_key.as_slice());
        }
        if bytes_lt(hi.as_slice(), s[i].max_key.as_slice()) {
            hi = copy_bytes(s[i].max_key.as_slice());
        }
        i = i + 1;
    }
    assert(all.take(i as int) =~= all);
    (lo, hi)
}

/// The numbers of the tables that a compaction of `src_level` merges: those of
/// the level itself, then those of the next level that overlap them.
pub fn select_victims(manifest: &Manifest, src_level: usize) -> (r: Vec<u64>)
    requires
        src_level < usize::MAX,
        at_level(manifest@, src_level as int).len() > 0,
    ensures
        r@ == victims(manifest@, src_level as int),
{
    let src = manifest.ssts_at_level(src_level);
    let dst = manifest.ssts_at_level(src_level + 1);
    let ghost s = at_level(manifest@, src_level as int);
    let ghost d = at_level(manifest@, src_level + 1);
    let (lo, hi) = key_range(src);
    let mut ids: Vec<u64> = Vec::new();
    let mut i: usize = 0;
    while i < src.len()
        invariant
            i <= src@.len(),
            s == metas(src@),
            ids@.len() == i,
            forall|j: int| 0 <= j < i ==> #[trigger] ids@[j] == s[j].id,
        decreases src@.len() - i,
    {
        ids.push(src[i].id);
        i = i + 1;
    }
    assert(ids@ =~= ids_of(s));
    let ghost meets = |m: MetaView| overlaps(m, least_key(s), greatest_key(s));
    let mut j: usize = 0;
    proof {
        reveal_with_fuel(Seq::filter, 1);
        assert(d.take(0) =~= Seq::empty());
        assert(ids@ =~= ids_of(s) + ids_of(d.take(0).filter(meets)));
    }
    while j < dst.len()
        invariant
            j <= dst@.len(),
            d == metas(dst@),
            lo@ == least_key(s),
            hi@ == greatest_key(s),
            meets == (|m: MetaView| overlaps(m, least_key(s), greatest_key(s))),
            ids@ == ids_of(s) + ids_of(d.take(j as int).filter(meets)),
        decreases dst@.len() - j,
    {
        proof {
            reveal_with_fuel(Seq::filter, 1);
            assert(d.take(j + 1).drop_last() =~= d.take(j as int));
            assert(d.take(j + 1).last() == d[j as int]);
        }
        if bytes_le(lo.as_slice(), dst[j].max_key.as_slice()) && bytes_le(
            dst[j].min_key.as_slice(),
            hi.as_slice(),
        ) {
            let ghost before = ids@;
            ids.push(dst[j].id);
            proof {
                let chosen = d.take(j as int).filter(meets);
                assert(ids_of(chosen.push(d[j as int])) =~= ids_of(chosen).push(d[j as int].id));
                assert(ids@ =~= ids_of(s) + ids_of(d.take(j + 1).filter(meets)));
            }
        }
        j = j + 1;
    }
    assert(d.take(j as int) =~= d);
    ids
}

/// What the picked tables hold together.
fn merge_picked(tables: &Tables, ids: &Vec<u64>) -> (r: SkipList)
    ensures
        r.wf(),
        r@ == stored(picked(tables@, ids@)),
{
    let ghost all = tables@;
    let mut merged = SkipList::new(MAX_LEVEL);
    let mut i: usize = 0;
    assert(all.take(0) =~= Seq::empty());
    while i < tables.list.len()
        invariant
            i <= tables.list@.len(),
            all == tables@,
            merged.wf(),
            merged@ == stored(picked(all.take(i as int), ids@)),
        decreases tables.list@.len() - i,
    {
        let ghost upto = all.take(i + 1);
        proof {
            assert(upto.drop_last() =~= all.take(i as int));
            assert(upto.last() == all[i as int]);
        }
        if contains_id(ids, tables.list[i].meta.id) {
            let entries = tables.list[i].reader.iter().collect();
            insert_all(&mut merged, &entries);
            proof {
                let before = picked(all.take(i as int), ids@);
                assert(picked(upto, ids@) == before.push(all[i as int]));
                assert(before.push(all[i as int]).drop_last() =~= before);
            }
        }
        i = i + 1;
    }
    assert(all.take(i as int) =~= all);
    merged
}

/// Whether a table that stays, at `level` or deeper, may hold a key.
fn older_holds(
    tables: &Tables,
    ids: &Vec<u64>,
    level: usize,
    key: &[u8],
    Ghost(bound): Ghost<u64>,
) -> (r: bool)
    requires
        tables.wf(bound),
    ensures
        r == held(tables@, ids@, level as int, key@),
{
    let ghost all = tables@;
    let mut i: usize = 0;
    while i < tables.list.len()
        invariant
            i <= tables.list@.len(),
            all == tables@,
            tables.wf(bound),
            forall|j: int|
                0 <= j < i && !ids@.contains((#[trigger] all[j]).0.id) && all[j].0.level >= level
                    ==> all[j].1.lookup(key@) == Ok::<Option<Seq<u8>>, Seq<char>>(None),
        decreases tables.list@.len() - i,
    {
        let table = &tables.list[i];
        assert(all[i as int] == table@);
        if table.meta.level >= level && !contains_id(ids, table.meta.id) {
            match table.reader.get(key) {
                Ok(None) => {},
                other => {
                    assert(gives(other, all[i as int].1.lookup(key@)));
                    return true;
                },
            }
        }
        i = i + 1;
    }
    false
}

/// The entries that a compaction writes.
pub(crate) fn surviving(
    tables: &Tables,
    ids: &Vec<u64>,
    level: usize,
    now: u64,
    Ghost(bound): Ghost<u64>,
) -> (r: Vec<(Vec<u8>, Vec<u8>)>)
    requires
        tables.wf(bound),
    ensures
        compacts_to(tables@, ids@, level as int, now, pairs(r@)),
{
    let merged = merge_picked(tables, ids);
    proof {
        merged.entries_sorted();
    }
    let entries = merged.iter().collect();
    let ghost s = pairs(entries@);
    let ghost keep = |e: Entry| survives(tables@, ids@, level as int, now, e);
    let mut out: Vec<(Vec<u8>, Vec<u8>)> = Vec::new();
    let mut i: usize = 0;
    proof {
        assert(s.take(0) =~= Seq::empty());
        assert(pairs(out@) =~= Seq::empty());
        reveal_with_fuel(Seq::filter, 1);
    }
    while i < entries.len()
        invariant
            tables.wf(bound),
            i <= entries@.len(),
            s == pairs(entries@),
            keep == (|e: Entry| survives(tables@, ids@, level as int, now, e)),
            pairs(out@) == s.take(i as int).filter(keep),
        decreases entries@.len() - i,
    {
        proof {
            reveal_with_fuel(Seq::filter, 1);
            assert(s.take(i + 1).drop_last() =~= s.take(i as int));
            assert(s.take(i + 1).last() == s[i as int]);
        }
        let keeps = if unpack_value(entries[i].1.as_slice(), now).is_some() {
            true
        } else {
            older_holds(tables, ids, level, entries[i].0.as_slice(), Ghost(bound))
        };
        assert(keeps == keep(s[i as int]));
        if keeps {
            let e = copy_entry(&entries[i]);
            proof {
                pairs_push(out@, e);
            }
            out.push(e);
        }
        i = i + 1;
    }
    proof {
        assert(s.take(i as int) =~= s);
        filter_sorted(s, keep);
        assert forall|k: Seq<u8>| #[trigger]
            map_of(pairs(out@)).contains_key(k) implies map_of(pairs(out@))[k] == stored(
            picked(tables@, ids@),
        )[k] by {
            filter_map(s, keep, k);
        }
        assert forall|k: Seq<u8>| #[trigger] map_of(pairs(out@)).contains_key(k) <==> {
            let m = stored(picked(tables@, ids@));
            m.contains_key(k) && survives(tables@, ids@, level as int, now, (k, m[k]))
        } by {
            filter_map(s, keep, k);
        }
    }
    out
}

/// A part of a sorted list is sorted.
proof fn filter_sorted(s: Seq<Entry>, keep: spec_fn(Entry) -> bool)
    requires
        sorted(s),
    ensures
        sorted(s.filter(keep)),
        forall|i: int|
            0 <= i < s.filter(keep).len() ==> exists|j: int|
                0 <= j < s.len() && #[trigger] s[j] == #[trigger] s.filter(keep)[i],
    decreases s.len(),
{
    reveal_with_fuel(Seq::filter, 1);
    if s.len() > 0 {
        let front = s.drop_last();
        assert forall|i: int, j: int| 0 <= i < j < front.len() implies lex_lt(
            #[trigger] front[i].0,
            #[trigger] front[j].0,
        ) by {
            assert(lex_lt(s[i].0, s[j].0));
        }
        filter_sorted(front, keep);
        let f = front.filter(keep);
        let all = s.filter(keep);
        assert forall|i: int| 0 <= i < all.len() implies exists|j: int|
            0 <= j < s.len() && #[trigger] s[j] == #[trigger] all[i] by {
            if i < f.len() {
                assert(all[i] == f[i]);
                let j = choose|j: int| 0 <= j < front.len() && #[trigger] front[j] == f[i];
                assert(s[j] == all[i]);
            } else {
                assert(s[s.len() - 1] == all[i]);
            }
        }
        assert forall|a: int, b: int| 0 <= a < b < all.len() implies lex_lt(
            #[trigger] all[a].0,
            #[trigger] all[b].0,
        ) by {
            assert(all[a] == f[a]);
            if b < f.len() {
                assert(lex_lt(f[a].0, f[b].0));
            } else {
                let j = choose|j: int| 0 <= j < front.len() && #[trigger] front[j] == f[a];
                assert(lex_lt(s[j].0, s[s.len() - 1].0));
            }
        }
    }
}

/// What a part of a sorted list holds.
proof fn filter_map(s: Seq<Entry>, keep: spec_fn(Entry) -> bool, k: Seq<u8>)
    requires
        sorted(s),
    ensures
        map_of(s.filter(keep)).contains_key(k) <==> map_of(s).contains_key(k) && keep(
            (k, map_of(s)[k]),
        ),
        map_of(s.filter(keep)).contains_key(k) ==> map_of(s.filter(keep))[k] == map_of(s)[k],
    decreases s.len(),
{
    reveal_with_fuel(Seq::filter, 1);
    if s.len() > 0 {
        let front = s.drop_last();
        assert forall|i: int, j: int| 0 <= i < j < front.len() implies lex_lt(
            #[trigger] front[i].0,
            #[trigger] front[j].0,
        ) by {
            assert(lex_lt(s[i].0, s[j].0));
        }
        filter_map(front, keep, k);
        let e = s.last();
        if e.0 == k {
            crate::entries::map_of_contains(front, k);
            if map_of(front).contains_key(k) {
                let i = choose|i: int| 0 <= i < front.len() && #[trigger] front[i].0 == k;
                assert(lex_lt(s[i].0, s[s.len() - 1].0));
                crate::bytes::lex_lt_irreflexive(k);
            }
        }
        if keep(e) {
            assert(s.filter(keep).drop_last() =~= front.filter(keep));
        }
    }
}

} // verus!
