//! Adding tables to the open ones, removing them, and opening those that a
//! manifest lists.

use std::sync::Arc;

use vstd::prelude::*;

use crate::bytes::copy_bytes;
use crate::cache::block_cache::{coherent, Cached};
use crate::engine::compact::{contains_id, spared};
use crate::engine::layout::{
    level_end, level_end_range, level_end_splits, listed, place, removed_all, tidy,
};
use crate::engine::tables::{cache_fits, ids_fit, Table, TableEntry, Tables};
use crate::error::{corruption, is_corruption, Result};
use crate::manifest::{at_level, metas, Manifest, MetaView, SSTMeta};
use crate::sstable::format::{parse_table, TableView};
use crate::sstable::reader::SSTableReader;

verus! {

/// The first file of a number, if there is one.
pub open spec fn file_of(files: Seq<(u64, Seq<u8>)>, id: u64) -> Option<Seq<u8>>
    decreases files.len(),
{
    if files.len() == 0 {
        None
    } else if files[0].0 == id {
        Some(files[0].1)
    } else {
        file_of(files.drop_first(), id)
    }
}

/// The files of an executable list.
pub open spec fn file_views(files: Seq<(u64, Vec<u8>)>) -> Seq<(u64, Seq<u8>)> {
    Seq::new(files.len(), |i: int| (files[i].0, files[i].1@))
}

/// All files count, each with its number and all its bytes.
pub proof fn files_are_whole(files: Seq<(u64, Vec<u8>)>, i: int)
    ensures
        file_views(files).len() == files.len(),
        0 <= i < files.len() ==> file_views(files)[i] == (files[i].0, files[i].1@),
{
}

/// The open tables once a table that a manifest lists is opened. A table without
/// a file is passed over.
pub open spec fn opened_one(
    tables: Seq<TableEntry>,
    m: MetaView,
    files: Seq<(u64, Seq<u8>)>,
) -> std::result::Result<Seq<TableEntry>, Seq<char>> {
    match file_of(files, m.id) {
        None => Ok(tables),
        Some(data) => match parse_table(data) {
            Err(msg) => Err(msg),
            Ok(t) => if m.id == u64::MAX {
                Err("SSTable id out of range"@)
            } else {
                Ok(place(tables, (m, t)))
            },
        },
    }
}

/// The open tables once the tables of a list are opened, one by one.
pub open spec fn opened(s: Seq<MetaView>, files: Seq<(u64, Seq<u8>)>) -> std::result::Result<
    Seq<TableEntry>,
    Seq<char>,
>
    decreases s.len(),
{
    if s.len() == 0 {
        Ok(Seq::empty())
    } else {
        match opened(s.drop_last(), files) {
            Err(msg) => Err(msg),
            Ok(tables) => opened_one(tables, s.last(), files),
        }
    }
}

/// All tables of the levels, level 0 first.
pub open spec fn flattened(levels: Seq<Seq<MetaView>>) -> Seq<MetaView>
    decreases levels.len(),
{
    if levels.len() == 0 {
        Seq::empty()
    } else {
        flattened(levels.drop_last()) + levels.last()
    }
}

/// All tables of all levels are listed, level by level and each level in its order.
pub proof fn levels_are_listed_in_order(levels: Seq<Seq<MetaView>>)
    ensures
        flattened(levels) == levels.flatten(),
    decreases levels.len(),
{
    if levels.len() == 0 {
        assert(levels.flatten() =~= Seq::empty());
    } else {
        levels_are_listed_in_order(levels.drop_last());
        levels.lemma_flatten_and_flatten_alt_are_equivalent();
        levels.drop_last().lemma_flatten_and_flatten_alt_are_equivalent();
    }
}

/// The first number behind those of the tables; at least 1.
pub open spec fn next_id(tables: Seq<TableEntry>) -> int
    decreases tables.len(),
{
    if tables.len() == 0 {
        1
    } else {
        let n = next_id(tables.drop_last());
        if tables.last().0.id >= n {
            tables.last().0.id + 1
        } else {
            n
        }
    }
}

/// The file of a number is the first that carries it; without one there is none.
pub proof fn file_is_first_of_number(files: Seq<(u64, Seq<u8>)>, id: u64, i: int)
    requires
        0 <= i <= files.len(),
        forall|j: int| 0 <= j < i ==> (#[trigger] files[j]).0 != id,
    ensures
        i < files.len() && files[i].0 == id ==> file_of(files, id) == Some(files[i].1),
        i == files.len() ==> file_of(files, id) is None,
    decreases files.len(),
{
    if i > 0 {
        assert(files[0].0 != id);
        let rest = files.drop_first();
        assert forall|j: int| 0 <= j < i - 1 implies (#[trigger] rest[j]).0 != id by {
            assert(files[j + 1].0 != id);
        }
        file_is_first_of_number(rest, id, i - 1);
    }
}

/// A database one of whose listed tables has a file that cannot be read does not
/// open. A listed table that has no file is passed over.
pub proof fn unreadable_table_is_reported(
    s: Seq<MetaView>,
    files: Seq<(u64, Seq<u8>)>,
    i: int,
)
    requires
        0 <= i < s.len(),
    ensures
        file_of(files, s[i].id) is Some && parse_table(file_of(files, s[i].id)->Some_0) is Err
            ==> opened(s, files) is Err,
        file_of(files, s[i].id) is None && i == s.len() - 1 ==> opened(s, files) == opened(
            s.drop_last(),
            files,
        ),
    decreases s.len(),
{
    if i < s.len() - 1 {
        unreadable_table_is_reported(s.drop_last(), files, i);
    }
}

/// Every listed table whose file can be read is among those that are open, with its
/// metadata and its contents, and there are no others.
pub proof fn readable_tables_are_open(s: Seq<MetaView>, files: Seq<(u64, Seq<u8>)>)
    requires
        opened(s, files) is Ok,
    ensures
        forall|i: int|
            0 <= i < s.len() && file_of(files, (#[trigger] s[i]).id) is Some ==> opened(
                s,
                files,
            )->Ok_0.contains((s[i], parse_table(file_of(files, s[i].id)->Some_0)->Ok_0)),
        forall|t: TableEntry| #[trigger]
            opened(s, files)->Ok_0.contains(t) ==> exists|i: int|
                0 <= i < s.len() && #[trigger] s[i] == t.0 && file_of(files, t.0.id) is Some
                    && parse_table(file_of(files, t.0.id)->Some_0) == Ok::<TableView, Seq<char>>(
                    t.1,
                ),
    decreases s.len(),
{
    if s.len() > 0 {
        let front = s.drop_last();
        let m = s.last();
        readable_tables_are_open(front, files);
        let before = opened(front, files)->Ok_0;
        let after = opened(s, files)->Ok_0;
        if file_of(files, m.id) is Some {
            let t = (m, parse_table(file_of(files, m.id)->Some_0)->Ok_0);
            let at = level_end(before, m.level);
            level_end_range(before, m.level);
            assert(after == before.insert(at, t));
            assert(after[at] == t);
            assert forall|x: TableEntry| before.contains(x) implies #[trigger] after.contains(x) by {
                let k = choose|k: int| 0 <= k < before.len() && before[k] == x;
                if k < at {
                    assert(after[k] == x);
                } else {
                    assert(after[k + 1] == x);
                }
            }
            assert forall|x: TableEntry| #[trigger] after.contains(x) implies x == t
                || before.contains(x) by {
                let k = choose|k: int| 0 <= k < after.len() && after[k] == x;
                if k < at {
                    assert(before[k] == x);
                } else if k > at {
                    assert(before[k - 1] == x);
                }
            }
        }
        assert forall|i: int|
            0 <= i < s.len() && file_of(files, (#[trigger] s[i]).id) is Some implies after.contains(
            (s[i], parse_table(file_of(files, s[i].id)->Some_0)->Ok_0),
        ) by {
            if i < front.len() {
                assert(front[i] == s[i]);
                assert(before.contains(
                    (s[i], parse_table(file_of(files, s[i].id)->Some_0)->Ok_0),
                ));
            }
        }
        assert forall|t: TableEntry| #[trigger] after.contains(t) implies exists|i: int|
            0 <= i < s.len() && #[trigger] s[i] == t.0 && file_of(files, t.0.id) is Some
                && parse_table(file_of(files, t.0.id)->Some_0) == Ok::<TableView, Seq<char>>(
                t.1,
            ) by {
            if before.contains(t) {
                let i = choose|i: int|
                    0 <= i < front.len() && #[trigger] front[i] == t.0 && file_of(
                        files,
                        t.0.id,
                    ) is Some && parse_table(file_of(files, t.0.id)->Some_0) == Ok::<
                        TableView,
                        Seq<char>,
                    >(t.1);
                assert(s[i] == t.0);
            } else {
                assert(s[s.len() - 1] == t.0);
            }
        }
    }
}

/// The next number is one more than that of some table, or 1 if there is none: no
/// number is left out.
pub proof fn next_id_follows_highest(tables: Seq<TableEntry>)
    ensures
        next_id(tables) >= 1,
        tables.len() == 0 ==> next_id(tables) == 1,
        next_id(tables) == 1 || exists|i: int|
            0 <= i < tables.len() && (#[trigger] tables[i]).0.id + 1 == next_id(tables),
    decreases tables.len(),
{
    if tables.len() > 0 {
        let front = tables.drop_last();
        next_id_follows_highest(front);
        assert(tables[tables.len() - 1] == tables.last());
        if next_id(tables) != 1 && next_id(tables) == next_id(front) {
            let i = choose|i: int|
                0 <= i < front.len() && (#[trigger] front[i]).0.id + 1 == next_id(front);
            assert(tables[i] == front[i]);
        }
    }
}

/// All tables are numbered below the next number.
pub proof fn next_id_bounds(tables: Seq<TableEntry>, i: int)
    requires
        0 <= i < tables.len(),
    ensures
        tables[i].0.id < next_id(tables),
    decreases tables.len(),
{
    if i < tables.len() - 1 {
        next_id_bounds(tables.drop_last(), i);
    }
}

/// Where the tables of a level and of deeper levels end.
fn find_level_end(tables: &Tables, level: usize) -> (r: usize)
    ensures
        r == level_end(tables@, level as int),
        r <= tables.list@.len(),
{
    let ghost all = tables@;
    let mut n: usize = tables.list.len();
    assert(all.take(n as int) =~= all);
    while n > 0 && tables.list[n - 1].meta.level < level
        invariant
            n <= tables.list@.len(),
            all == tables@,
            level_end(all, level as int) == level_end(all.take(n as int), level as int),
        decreases n,
    {
        let ghost upto = all.take(n as int);
        assert(upto.drop_last() =~= all.take(n - 1));
        assert(upto.last() == all[n - 1]);
        n = n - 1;
    }
    proof {
        if n > 0 {
            assert(all.take(n as int).last() == all[n - 1]);
        }
    }
    n
}

/// Add a table behind the other tables of its level.
pub(crate) fn add_table(
    tables: &mut Tables,
    table: Table,
    Ghost(bound): Ghost<u64>,
    Ghost(bound2): Ghost<u64>,
)
    requires
        old(tables).wf(bound),
        table.reader.wf(),
        bound <= bound2,
        table.meta.id < bound2,
        forall|i: int|
            0 <= i < old(tables)@.len() && (#[trigger] old(tables)@[i]).0.id == table.meta.id
                ==> old(tables)@[i].1 == table.reader@,
        old(tables).cache matches Some(cache) ==> coherent(
            cache@,
            table.meta.id,
            table.reader@,
        ),
    ensures
        final(tables).wf(bound2),
        final(tables)@ == place(old(tables)@, table@),
        final(tables).cache == old(tables).cache,
{
    let ghost before = tables@;
    let ghost list = tables.list@;
    let at = find_level_end(tables, table.meta.level);
    tables.list.insert(at, table);
    proof {
        let after = tables@;
        assert(after =~= place(before, table@));
        assert forall|i: int| 0 <= i < after.len() implies after[i] == (if i < at {
            before[i]
        } else if i == at {
            table@
        } else {
            before[i - 1]
        }) by {}
        assert forall|i: int| 0 <= i < tables.list@.len() implies (
        #[trigger] tables.list@[i]).reader.wf() by {
            if i < at {
                assert(list[i].reader.wf());
            } else if i > at {
                assert(list[i - 1].reader.wf());
            }
        }
        assert forall|i: int| 0 <= i < after.len() implies (#[trigger] after[i]).0.id < bound2 by {
            if i < at {
                assert(before[i].0.id < bound);
            } else if i > at {
                assert(before[i - 1].0.id < bound);
            }
        }
        assert forall|i: int, j: int|
            0 <= i < after.len() && 0 <= j < after.len() && (#[trigger] after[i]).0.id == (
            #[trigger] after[j]).0.id implies after[i].1 == after[j].1 by {
            let a = if i < at {
                i
            } else {
                i - 1
            };
            let b = if j < at {
                j
            } else {
                j - 1
            };
            if i != at && j != at {
                assert(before[a].0.id == before[b].0.id);
            } else if i == at && j != at {
                assert(before[b].0.id == table.meta.id);
            } else if j == at && i != at {
                assert(before[a].0.id == table.meta.id);
            }
        }
        if tables.cache is Some {
            let cached = tables.cache->Some_0@;
            assert forall|i: int| 0 <= i < after.len() implies coherent(
                cached,
                (#[trigger] after[i]).0.id,
                after[i].1,
            ) by {
                if i < at {
                    assert(coherent(cached, before[i].0.id, before[i].1));
                } else if i > at {
                    assert(coherent(cached, before[i - 1].0.id, before[i - 1].1));
                }
            }
        }
    }
}

/// Remove the tables of the given numbers.
pub(crate) fn drop_tables(tables: &mut Tables, ids: &Vec<u64>, Ghost(bound): Ghost<u64>)
    requires
        old(tables).wf(bound),
    ensures
        final(tables).wf(bound),
        final(tables)@ == spared(old(tables)@, ids@),
        final(tables).cache == old(tables).cache,
{
    let ghost all = tables@;
    let mut i: usize = 0;
    let ghost mut n: int = 0;
    assert(all.take(0) =~= Seq::empty());
    assert(tables@ =~= spared(all.take(0), ids@) + all.skip(0));
    while i < tables.list.len()
        invariant
            all == old(tables)@,
            tables.wf(bound),
            tables.cache == old(tables).cache,
            0 <= n <= all.len(),
            i == spared(all.take(n), ids@).len(),
            tables@ == spared(all.take(n), ids@) + all.skip(n),
        decreases tables.list@.len() - i,
    {
        let ghost before = tables@;
        let ghost list = tables.list@;
        proof {
            assert(before.len() == list.len());
            assert(all.skip(n).len() == list.len() - i);
            assert(before[i as int] == all.skip(n)[0]);
            assert(before[i as int] == all[n]);
            assert(all.take(n + 1).drop_last() =~= all.take(n));
            assert(all.take(n + 1).last() == all[n]);
            assert(list[i as int]@ == all[n]);
        }
        if contains_id(ids, tables.list[i].meta.id) {
            let _ = tables.list.remove(i);
            proof {
                let after = tables@;
                assert(after =~= before.remove(i as int));
                assert(after =~= spared(all.take(n + 1), ids@) + all.skip(n + 1));
                assert forall|k: int| 0 <= k < tables.list@.len() implies (
                #[trigger] tables.list@[k]).reader.wf() by {
                    if k < i {
                        assert(list[k].reader.wf());
                    } else {
                        assert(list[k + 1].reader.wf());
                    }
                }
                removed_fits(before, i as int, bound);
                if tables.cache is Some {
                    removed_cache_fits(tables.cache->Some_0@, before, i as int, bound);
                }
            }
        } else {
            proof {
                let kept = spared(all.take(n), ids@);
                assert(spared(all.take(n + 1), ids@) == kept.push(all[n]));
                assert(tables@ =~= kept.push(all[n]) + all.skip(n + 1));
            }
            i = i + 1;
        }
        proof {
            n = n + 1;
        }
    }
    proof {
        assert(all.skip(n).len() == 0);
        assert(all.take(n) =~= all);
        assert(tables@ =~= spared(all, ids@));
    }
}

/// A list without one of its tables still fits.
proof fn removed_fits(tables: Seq<TableEntry>, at: int, bound: u64)
    requires
        ids_fit(tables, bound),
        0 <= at < tables.len(),
    ensures
        ids_fit(tables.remove(at), bound),
{
    let after = tables.remove(at);
    assert forall|i: int| 0 <= i < after.len() implies after[i] == (if i < at {
        tables[i]
    } else {
        tables[i + 1]
    }) by {}
    assert forall|i: int, j: int|
        0 <= i < after.len() && 0 <= j < after.len() && (#[trigger] after[i]).0.id == (
        #[trigger] after[j]).0.id implies after[i].1 == after[j].1 by {
        let a = if i < at {
            i
        } else {
            i + 1
        };
        let b = if j < at {
            j
        } else {
            j + 1
        };
        assert(tables[a].0.id == tables[b].0.id);
    }
}

/// A cache that fits a list fits it without one of its tables.
proof fn removed_cache_fits(
    cached: Seq<Cached>,
    tables: Seq<TableEntry>,
    at: int,
    bound: u64,
)
    requires
        cache_fits(cached, tables, bound),
        0 <= at < tables.len(),
    ensures
        cache_fits(cached, tables.remove(at), bound),
{
    let after = tables.remove(at);
    assert forall|i: int| 0 <= i < after.len() implies coherent(
        cached,
        (#[trigger] after[i]).0.id,
        after[i].1,
    ) by {
        if i < at {
            assert(coherent(cached, tables[i].0.id, tables[i].1));
        } else {
            assert(coherent(cached, tables[i + 1].0.id, tables[i + 1].1));
        }
    }
}

/// The first file of a number.
fn find_file(files: &Vec<(u64, Vec<u8>)>, id: u64) -> (r: Option<usize>)
    ensures
        match r {
            Some(i) => i < files@.len() && file_of(file_views(files@), id) == Some(
                files@[i as int].1@,
            ),
            None => file_of(file_views(files@), id) is None,
        },
{
    let ghost s = file_views(files@);
    let mut i: usize = 0;
    assert(s.skip(0) =~= s);
    while i < files.len()
        invariant
            i <= files@.len(),
            s == file_views(files@),
            file_of(s, id) == file_of(s.skip(i as int), id),
        decreases files@.len() - i,
    {
        let ghost rest = s.skip(i as int);
        assert(rest[0] == s[i as int]);
        assert(rest.drop_first() =~= s.skip(i + 1));
        if files[i].0 == id {
            return Some(i);
        }
        i = i + 1;
    }
    None
}

/// The tables that were opened from one file are one table.
pub open spec fn from_files(tables: Seq<TableEntry>, files: Seq<(u64, Seq<u8>)>) -> bool {
    forall|i: int|
        0 <= i < tables.len() ==> {
            &&& file_of(files, (#[trigger] tables[i]).0.id) is Some
            &&& parse_table(file_of(files, tables[i].0.id)->Some_0) == Ok::<
                TableView,
                Seq<char>,
            >(tables[i].1)
        }
}

/// Opening one more table keeps to the files.
proof fn place_from_files(
    tables: Seq<TableEntry>,
    t: TableEntry,
    files: Seq<(u64, Seq<u8>)>,
    at: int,
)
    requires
        from_files(tables, files),
        from_files(seq![t], files),
        0 <= at <= tables.len(),
    ensures
        from_files(tables.insert(at, t), files),
        next_id(tables.insert(at, t)) == if t.0.id >= next_id(tables) {
            t.0.id + 1
        } else {
            next_id(tables)
        },
    decreases tables.len(),
{
    let after = tables.insert(at, t);
    assert(seq![t][0] == t);
    assert forall|i: int| 0 <= i < after.len() implies {
        &&& file_of(files, (#[trigger] after[i]).0.id) is Some
        &&& parse_table(file_of(files, after[i].0.id)->Some_0) == Ok::<TableView, Seq<char>>(
            after[i].1,
        )
    } by {
        if i < at {
            assert(after[i] == tables[i]);
        } else if i > at {
            assert(after[i] == tables[i - 1]);
        }
    }
    if at == tables.len() {
        assert(after.drop_last() =~= tables);
    } else {
        let front = tables.drop_last();
        assert forall|i: int| 0 <= i < front.len() implies {
            &&& file_of(files, (#[trigger] front[i]).0.id) is Some
            &&& parse_table(file_of(files, front[i].0.id)->Some_0) == Ok::<TableView, Seq<char>>(
                front[i].1,
            )
        } by {
            assert(front[i] == tables[i]);
        }
        place_from_files(front, t, files, at);
        assert(after.drop_last() =~= front.insert(at, t));
        assert(after.last() == tables.last());
    }
}

/// A table that cannot be opened leaves the list unopened.
proof fn opened_error_stays(s: Seq<MetaView>, n: int, files: Seq<(u64, Seq<u8>)>)
    requires
        0 <= n <= s.len(),
        opened(s.take(n), files) is Err,
    ensures
        opened(s, files) == opened(s.take(n), files),
    decreases s.len() - n,
{
    if n == s.len() {
        assert(s.take(n) =~= s);
    } else {
        let front = s.drop_last();
        assert(front.take(n) =~= s.take(n));
        opened_error_stays(front, n, files);
    }
}

/// The first levels stand at the front of all.
proof fn flattened_prefix(levels: Seq<Seq<MetaView>>, n: int)
    requires
        0 <= n <= levels.len(),
    ensures
        flattened(levels.take(n)).len() <= flattened(levels).len(),
        flattened(levels).take(flattened(levels.take(n)).len() as int) == flattened(levels.take(n)),
    decreases levels.len() - n,
{
    if n == levels.len() {
        assert(levels.take(n) =~= levels);
        assert(flattened(levels).take(flattened(levels).len() as int) =~= flattened(levels));
    } else {
        flattened_prefix(levels, n + 1);
        let next = levels.take(n + 1);
        assert(next.drop_last() =~= levels.take(n));
        let k = flattened(levels.take(n)).len() as int;
        let m = flattened(next).len() as int;
        assert(flattened(levels).take(k) =~= flattened(levels).take(m).take(k));
        assert(flattened(next).take(k) =~= flattened(levels.take(n)));
    }
}

/// Open a table that a manifest lists, if it has a file.
fn open_one(
    tables: &mut Tables,
    meta: &SSTMeta,
    files: &Vec<(u64, Vec<u8>)>,
    next: u64,
) -> (r: Result<u64>)
    requires
        old(tables).wf(next),
        old(tables).cache matches Some(cache) ==> cache@.len() == 0,
        from_files(old(tables)@, file_views(files@)),
        next == next_id(old(tables)@),
    ensures
        match (r, opened_one(old(tables)@, meta@, file_views(files@))) {
            (Ok(n), Ok(s)) => {
                &&& final(tables)@ == s
                &&& n == next_id(s)
                &&& final(tables).wf(n)
                &&& final(tables).cache == old(tables).cache
                &&& from_files(s, file_views(files@))
            },
            (Err(e), Err(msg)) => is_corruption(e, msg),
            _ => false,
        },
{
    let ghost all = file_views(files@);
    let ghost before = tables@;
    match find_file(files, meta.id) {
        None => Ok(next),
        Some(i) => match SSTableReader::open(copy_bytes(files[i].1.as_slice())) {
            Err(e) => Err(e),
            Ok(reader) => {
                if meta.id == u64::MAX {
                    return Err(corruption("SSTable id out of range"));
                }
                let after = if meta.id >= next {
                    meta.id + 1
                } else {
                    next
                };
                let table = Table { meta: meta.copy(), reader: Arc::new(reader) };
                proof {
                    assert(from_files(seq![table@], all));
                    level_end_range(before, table@.0.level);
                    place_from_files(before, table@, all, level_end(before, table@.0.level));
                }
                add_table(tables, table, Ghost(next), Ghost(after));
                Ok(after)
            },
        },
    }
}

/// Open the tables that a manifest lists and that have a file, and tell the next
/// free number.
pub fn open_tables(
    manifest: &Manifest,
    files: &Vec<(u64, Vec<u8>)>,
    cache_size: usize,
) -> (r: Result<(Tables, u64)>)
    ensures
        match (r, opened(flattened(manifest@), file_views(files@))) {
            (Ok((tables, next)), Ok(s)) => {
                &&& tables@ == s
                &&& next == next_id(s)
                &&& tables.wf(next)
                &&& from_files(s, file_views(files@))
                &&& tables.cache is Some <==> cache_size > 0
                &&& tables.cache matches Some(cache) ==> cache@.len() == 0 && cache.spec_capacity()
                    == cache_size
            },
            (Err(e), Err(msg)) => is_corruption(e, msg),
            _ => false,
        },
{
    let ghost levels = manifest@;
    let ghost flat = flattened(levels);
    let ghost all = file_views(files@);
    let mut tables = Tables::new(cache_size);
    let mut next: u64 = 1;
    let mut l: usize = 0;
    assert(levels.take(0) =~= Seq::empty());
    while l < manifest.levels.len()
        invariant
            l <= manifest.levels@.len(),
            levels == manifest@,
            flat == flattened(levels),
            all == file_views(files@),
            opened(flattened(levels.take(l as int)), all) == Ok::<Seq<TableEntry>, Seq<char>>(
                tables@,
            ),
            next == next_id(tables@),
            tables.wf(next),
            from_files(tables@, all),
            tables.cache is Some <==> cache_size > 0,
            tables.cache matches Some(cache) ==> cache@.len() == 0 && cache.spec_capacity()
                == cache_size,
        decreases manifest.levels@.len() - l,
    {
        let level = &manifest.levels[l];
        let ghost done = flattened(levels.take(l as int));
        let ghost upto = flattened(levels.take(l + 1));
        let ghost s = metas(level@);
        proof {
            assert(levels.take(l + 1).drop_last() =~= levels.take(l as int));
            assert(levels.take(l + 1).last() == s);
            assert(upto == done + s);
            assert(upto.take(done.len() as int) =~= done);
            flattened_prefix(levels, l + 1);
        }
        let mut i: usize = 0;
        while i < level.len()
            invariant
                i <= level@.len(),
                s == metas(level@),
                flat == flattened(manifest@),
                all == file_views(files@),
                upto == done + s,
                upto.len() <= flat.len(),
                flat.take(upto.len() as int) == upto,
                opened(upto.take(done.len() + i), all) == Ok::<Seq<TableEntry>, Seq<char>>(
                    tables@,
                ),
                next == next_id(tables@),
                tables.wf(next),
                from_files(tables@, all),
                tables.cache is Some <==> cache_size > 0,
                tables.cache matches Some(cache) ==> cache@.len() == 0 && cache.spec_capacity()
                    == cache_size,
            decreases level@.len() - i,
        {
            let ghost k = done.len() + i;
            let ghost before = tables@;
            proof {
                assert(upto.take(k + 1).drop_last() =~= upto.take(k));
                assert(upto.take(k + 1).last() == s[i as int]);
            }
            match open_one(&mut tables, &level[i], files, next) {
                Err(e) => {
                    proof {
                        assert(flat.take(k + 1) =~= upto.take(k + 1));
                        opened_error_stays(flat, k + 1, all);
                    }
                    return Err(e);
                },
                Ok(n) => {
                    next = n;
                },
            }
            i = i + 1;
        }
        assert(upto.take(done.len() + i) =~= upto);
        l = l + 1;
    }
    assert(levels.take(l as int) =~= levels);
    Ok((tables, next))
}

/// Remove the tables of the given numbers from a manifest, one by one.
pub fn remove_all(manifest: &mut Manifest, ids: &Vec<u64>)
    ensures
        final(manifest)@ == removed_all(old(manifest)@, ids@),
{
    let ghost levels = manifest@;
    let mut i: usize = 0;
    assert(ids@.take(0) =~= Seq::empty());
    while i < ids.len()
        invariant
            i <= ids@.len(),
            levels == old(manifest)@,
            manifest@ == removed_all(levels, ids@.take(i as int)),
        decreases ids@.len() - i,
    {
        let _ = manifest.remove_sst(ids[i]);
        proof {
            assert(ids@.take(i + 1).drop_last() =~= ids@.take(i as int));
            assert(ids@.take(i + 1).last() == ids@[i as int]);
        }
        i = i + 1;
    }
    assert(ids@.take(i as int) =~= ids@);
}

/// The tables of the first levels of a list, which stand at its end.
proof fn open_levels(
    tables: Seq<TableEntry>,
    levels: Seq<Seq<MetaView>>,
    files: Seq<(u64, Seq<u8>)>,
    n: int,
)
    requires
        tidy(tables, levels),
        from_files(tables, files),
        forall|i: int| 0 <= i < tables.len() ==> (#[trigger] tables[i]).0.id < u64::MAX,
        0 <= n <= levels.len(),
    ensures
        opened(flattened(levels.take(n)), files) == Ok::<Seq<TableEntry>, Seq<char>>(
            tables.skip(level_end(tables, n)),
        ),
    decreases n,
{
    level_end_splits(tables, n);
    if n == 0 {
        assert(levels.take(0) =~= Seq::empty());
        let e = level_end(tables, 0);
        if e < tables.len() {
            assert(tables[e].0.level >= 0);
        }
        assert(tables.skip(e) =~= Seq::empty());
    } else {
        open_levels(tables, levels, files, n - 1);
        level_end_splits(tables, n - 1);
        let a = level_end(tables, n);
        let b = level_end(tables, n - 1);
        if b < a {
            assert(tables[b].0.level >= n);
        }
        let s = levels[n - 1];
        let part = tables.subrange(a, b);
        assert(levels.take(n).drop_last() =~= levels.take(n - 1));
        assert(at_level(levels, n - 1) == listed(tables, n - 1));
        listed_is_part(tables, n - 1, a, b);
        let done = flattened(levels.take(n - 1));
        open_part(tables, files, n - 1, a, b, done, (b - a) as int);
        assert(s.take(b - a) =~= s);
        assert(part + tables.skip(b) =~= tables.skip(a));
        assert(part.take(b - a) =~= part);
    }
}

/// Opening the first `k` tables of a level.
proof fn open_part(
    tables: Seq<TableEntry>,
    files: Seq<(u64, Seq<u8>)>,
    level: int,
    a: int,
    b: int,
    done: Seq<MetaView>,
    k: int,
)
    requires
        from_files(tables, files),
        forall|i: int| 0 <= i < tables.len() ==> (#[trigger] tables[i]).0.id < u64::MAX,
        0 <= a <= b <= tables.len(),
        forall|i: int| a <= i < b ==> (#[trigger] tables[i]).0.level == level,
        forall|i: int| b <= i < tables.len() ==> (#[trigger] tables[i]).0.level < level,
        opened(done, files) == Ok::<Seq<TableEntry>, Seq<char>>(tables.skip(b)),
        0 <= k <= b - a,
    ensures
        opened(done + part_metas(tables.subrange(a, b)).take(k), files) == Ok::<
            Seq<TableEntry>,
            Seq<char>,
        >(tables.subrange(a, b).take(k) + tables.skip(b)),
    decreases k,
{
    let part = tables.subrange(a, b);
    let s = part_metas(part);
    if k == 0 {
        assert(done + s.take(0) =~= done);
        assert(part.take(0) + tables.skip(b) =~= tables.skip(b));
    } else {
        open_part(tables, files, level, a, b, done, k - 1);
        let all = done + s.take(k);
        assert(all.drop_last() =~= done + s.take(k - 1));
        let t = tables[a + k - 1];
        assert(all.last() == t.0);
        let before = part.take(k - 1) + tables.skip(b);
        level_end_between(part.take(k - 1), tables.skip(b), level);
        assert(place(before, t) =~= part.take(k) + tables.skip(b));
        assert(t.0.id < u64::MAX);
    }
}

/// The metadata of a list of tables.
pub open spec fn part_metas(tables: Seq<TableEntry>) -> Seq<MetaView> {
    Seq::new(tables.len(), |i: int| tables[i].0)
}

/// Where a level ends between its tables and those above it.
proof fn level_end_between(a: Seq<TableEntry>, b: Seq<TableEntry>, level: int)
    requires
        forall|i: int| 0 <= i < a.len() ==> (#[trigger] a[i]).0.level >= level,
        forall|i: int| 0 <= i < b.len() ==> (#[trigger] b[i]).0.level < level,
    ensures
        level_end(a + b, level) == a.len(),
    decreases b.len(),
{
    if b.len() == 0 {
        assert(a + b =~= a);
        if a.len() > 0 {
            assert(a[a.len() - 1].0.level >= level);
        }
    } else {
        let front = b.drop_last();
        assert forall|i: int| 0 <= i < front.len() implies (#[trigger] front[i]).0.level
            < level by {
            assert(b[i].0.level < level);
        }
        level_end_between(a, front, level);
        assert((a + b).drop_last() =~= a + front);
        assert((a + b).last() == b[b.len() - 1]);
    }
}

/// In level order the tables of a level stand side by side.
proof fn listed_is_part(tables: Seq<TableEntry>, level: int, a: int, b: int)
    requires
        0 <= a <= b <= tables.len(),
        forall|i: int| 0 <= i < a ==> (#[trigger] tables[i]).0.level > level,
        forall|i: int| a <= i < b ==> (#[trigger] tables[i]).0.level == level,
        forall|i: int| b <= i < tables.len() ==> (#[trigger] tables[i]).0.level < level,
    ensures
        listed(tables, level) == part_metas(tables.subrange(a, b)),
    decreases tables.len(),
{
    if tables.len() == 0 {
        assert(listed(tables, level) =~= part_metas(tables.subrange(a, b)));
    } else {
        let front = tables.drop_last();
        let n = tables.len() - 1;
        let a2 = if a > n {
            n
        } else {
            a
        };
        let b2 = if b > n {
            n
        } else {
            b
        };
        assert forall|i: int| 0 <= i < a2 implies (#[trigger] front[i]).0.level > level by {
            assert(tables[i].0.level > level);
        }
        assert forall|i: int| a2 <= i < b2 implies (#[trigger] front[i]).0.level == level by {
            assert(tables[i].0.level == level);
        }
        assert forall|i: int| b2 <= i < front.len() implies (#[trigger] front[i]).0.level
            < level by {
            assert(tables[i].0.level < level);
        }
        listed_is_part(front, level, a2, b2);
        let last = tables[n];
        if a <= n < b {
            assert(part_metas(tables.subrange(a, b)) =~= part_metas(front.subrange(a2, b2)).push(
                last.0,
            ));
        } else {
            if n < a {
                assert(last.0.level > level);
            } else {
                assert(last.0.level < level);
            }
            assert(tables.subrange(a, b) =~= front.subrange(a2, b2));
        }
    }
}

/// Opening the tables that the manifest of a tidy list lists, from files that
/// hold them, gives back the same list.
pub proof fn reopened_tables(
    tables: Seq<TableEntry>,
    levels: Seq<Seq<MetaView>>,
    files: Seq<(u64, Seq<u8>)>,
)
    requires
        tidy(tables, levels),
        from_files(tables, files),
        forall|i: int| 0 <= i < tables.len() ==> (#[trigger] tables[i]).0.id < u64::MAX,
    ensures
        opened(flattened(levels), files) == Ok::<Seq<TableEntry>, Seq<char>>(tables),
{
    let n = levels.len() as int;
    open_levels(tables, levels, files, n);
    level_end_splits(tables, n);
    assert(levels.take(n) =~= levels);
    let e = level_end(tables, n);
    if 0 < e {
        let t = tables[0];
        assert(t.0.level >= n);
        crate::engine::layout::listed_at_level(tables, levels, 0);
    }
    assert(tables.skip(e) =~= tables);
}

} // verus!
