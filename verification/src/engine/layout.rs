//! How the tables are laid out over the levels, and what keeps reads right when
//! tables are added and merged.

use vstd::prelude::*;

use crate::bytes::{lex_le, lex_lt, lex_lt_irreflexive, lex_lt_total, lex_lt_transitive};
use crate::engine::compact::{
    compacts_to, greatest_key, held, least_key, overlapping, overlaps, picked, spared, survives,
    victims,
};
use crate::engine::tables::{
    all_sound, stored, stored_append, stored_contains, TableEntry,
};
use crate::engine::value::{hidden_stays_hidden, shown};
use crate::entries::{map_of, map_of_contains, overlay, value_of, Entry};
use crate::manifest::{
    at_level, counts_fit, level_fits, level_with, level_with_is_first, lists, manifest_fits,
    meta_fits, removed, with_sst, without_id, MetaView,
};
use crate::sstable::format::{sound_lookup, MAX_KEY_LEN};

verus! {

/// Where the tables of `level` and of deeper levels end in a list that starts
/// with the deepest.
pub open spec fn level_end(tables: Seq<TableEntry>, level: int) -> int
    decreases tables.len(),
{
    if tables.len() == 0 || tables.last().0.level >= level {
        tables.len() as int
    } else {
        level_end(tables.drop_last(), level)
    }
}

/// The list with a table put behind the other tables of its level.
pub open spec fn place(tables: Seq<TableEntry>, t: TableEntry) -> Seq<TableEntry> {
    tables.insert(level_end(tables, t.0.level), t)
}

/// The deepest level comes first.
pub open spec fn level_order(tables: Seq<TableEntry>) -> bool {
    forall|i: int, j: int|
        0 <= i < j < tables.len() ==> (#[trigger] tables[i]).0.level >= (
        #[trigger] tables[j]).0.level
}

/// No two tables have one number.
pub open spec fn unique_ids(tables: Seq<TableEntry>) -> bool {
    forall|i: int, j: int|
        0 <= i < j < tables.len() ==> (#[trigger] tables[i]).0.id != (#[trigger] tables[j]).0.id
}

/// The metadata of the tables of a level, in order.
pub open spec fn listed(tables: Seq<TableEntry>, level: int) -> Seq<MetaView>
    decreases tables.len(),
{
    if tables.len() == 0 {
        Seq::empty()
    } else if tables.last().0.level == level {
        listed(tables.drop_last(), level).push(tables.last().0)
    } else {
        listed(tables.drop_last(), level)
    }
}

/// The manifest lists exactly the open tables.
pub open spec fn agrees(tables: Seq<TableEntry>, levels: Seq<Seq<MetaView>>) -> bool {
    forall|l: int| #[trigger] at_level(levels, l) == listed(tables, l)
}

/// The bounds in the tables' metadata are no longer than a key may be.
pub open spec fn bounds_short(tables: Seq<TableEntry>) -> bool {
    forall|i: int|
        0 <= i < tables.len() ==> (#[trigger] tables[i]).0.min_key.len() <= MAX_KEY_LEN
            && tables[i].0.max_key.len() <= MAX_KEY_LEN
}

/// A table's metadata tell the range of its keys.
pub open spec fn accurate(t: TableEntry) -> bool {
    &&& lex_le(t.0.min_key, t.0.max_key)
    &&& forall|i: int|
        0 <= i < t.1.entries().len() ==> lex_le(t.0.min_key, #[trigger] t.1.entries()[i].0)
            && lex_le(t.1.entries()[i].0, t.0.max_key)
}

/// Two key ranges do not meet.
pub open spec fn apart(a: MetaView, b: MetaView) -> bool {
    lex_lt(a.max_key, b.min_key) || lex_lt(b.max_key, a.min_key)
}

/// The tables of a level below level 0 tell their key ranges, which do not meet.
pub open spec fn deep_levels_ok(tables: Seq<TableEntry>) -> bool {
    &&& forall|i: int|
        0 <= i < tables.len() && (#[trigger] tables[i]).0.level >= 1 ==> accurate(tables[i])
    &&& forall|i: int, j: int|
        0 <= i < j < tables.len() && (#[trigger] tables[i]).0.level == (
        #[trigger] tables[j]).0.level && tables[i].0.level >= 1 ==> apart(tables[i].0, tables[j].0)
}

/// All tables are of level 0, or all tell their key ranges.
pub open spec fn top_level_ok(tables: Seq<TableEntry>) -> bool {
    ||| forall|i: int| 0 <= i < tables.len() ==> (#[trigger] tables[i]).0.level == 0
    ||| forall|i: int| 0 <= i < tables.len() ==> accurate(#[trigger] tables[i])
}

/// The tables are sound and laid out as the engine lays them out.
pub open spec fn tidy(tables: Seq<TableEntry>, levels: Seq<Seq<MetaView>>) -> bool {
    &&& all_sound(tables)
    &&& level_order(tables)
    &&& unique_ids(tables)
    &&& deep_levels_ok(tables)
    &&& top_level_ok(tables)
    &&& agrees(tables, levels)
    &&& forall|i: int| 0 <= i < tables.len() ==> (#[trigger] tables[i]).0.level >= 0
}

/// The manifest once the tables `ids` are removed, one by one.
pub open spec fn removed_all(levels: Seq<Seq<MetaView>>, ids: Seq<u64>) -> Seq<Seq<MetaView>>
    decreases ids.len(),
{
    if ids.len() == 0 {
        levels
    } else {
        removed(removed_all(levels, ids.drop_last()), ids.last())
    }
}

/// The tables after a compaction.
pub open spec fn tables_after(
    tables: Seq<TableEntry>,
    ids: Seq<u64>,
    output: Option<TableEntry>,
) -> Seq<TableEntry> {
    match output {
        Some(t) => place(spared(tables, ids), t),
        None => spared(tables, ids),
    }
}

/// The manifest after a compaction.
pub open spec fn levels_after(
    levels: Seq<Seq<MetaView>>,
    ids: Seq<u64>,
    output: Option<TableEntry>,
) -> Seq<Seq<MetaView>> {
    match output {
        Some(t) => removed_all(with_sst(levels, t.0.level, t.0), ids),
        None => removed_all(levels, ids),
    }
}

/// What a reader sees of a key at the time `now`.
pub open spec fn seen(m: Map<Seq<u8>, Seq<u8>>, key: Seq<u8>, now: u64) -> Option<Seq<u8>> {
    match value_of(m, key) {
        Some(v) => shown(v, now),
        None => None,
    }
}

/// A reader sees of a key what is stored for it, as it shows at the time, and nothing
/// where nothing is stored.
pub proof fn seen_is_what_is_stored(m: Map<Seq<u8>, Seq<u8>>, key: Seq<u8>, now: u64)
    ensures
        m.contains_key(key) ==> seen(m, key, now) == shown(m[key], now),
        !m.contains_key(key) ==> seen(m, key, now) is None,
{
}

/// Where a table goes lies in the list.
pub proof fn level_end_range(tables: Seq<TableEntry>, level: int)
    ensures
        0 <= level_end(tables, level) <= tables.len(),
    decreases tables.len(),
{
    if tables.len() > 0 {
        level_end_range(tables.drop_last(), level);
    }
}

/// What `level_end` finds in a list in level order.
pub proof fn level_end_splits(tables: Seq<TableEntry>, level: int)
    requires
        level_order(tables),
    ensures
        0 <= level_end(tables, level) <= tables.len(),
        forall|i: int|
            0 <= i < level_end(tables, level) ==> (#[trigger] tables[i]).0.level >= level,
        forall|i: int|
            level_end(tables, level) <= i < tables.len() ==> (#[trigger] tables[i]).0.level < level,
    decreases tables.len(),
{
    if tables.len() > 0 {
        let n = tables.len() - 1;
        if tables.last().0.level >= level {
            assert forall|i: int| 0 <= i < tables.len() implies (#[trigger] tables[i]).0.level
                >= level by {
                if i < n {
                    assert(tables[i].0.level >= tables[n].0.level);
                }
            }
        } else {
            let front = tables.drop_last();
            assert forall|i: int, j: int| 0 <= i < j < front.len() implies (
            #[trigger] front[i]).0.level >= (#[trigger] front[j]).0.level by {
                assert(tables[i].0.level >= tables[j].0.level);
            }
            level_end_splits(front, level);
            assert forall|i: int| 0 <= i < level_end(front, level) implies (
            #[trigger] tables[i]).0.level >= level by {
                assert(front[i].0.level >= level);
            }
            assert forall|i: int| level_end(front, level) <= i < tables.len() implies (
            #[trigger] tables[i]).0.level < level by {
                if i < n {
                    assert(front[i].0.level < level);
                }
            }
        }
    }
}

/// A table that stays is a table of the list that is not merged.
pub proof fn spared_from(tables: Seq<TableEntry>, ids: Seq<u64>, i: int) -> (j: int)
    requires
        0 <= i < spared(tables, ids).len(),
    ensures
        0 <= j < tables.len(),
        tables[j] == spared(tables, ids)[i],
        !ids.contains(tables[j].0.id),
    decreases tables.len(),
{
    let front = tables.drop_last();
    if i < spared(front, ids).len() {
        spared_from(front, ids, i)
    } else {
        tables.len() - 1
    }
}

/// A table that is not merged stays.
proof fn spared_to(tables: Seq<TableEntry>, ids: Seq<u64>, j: int) -> (i: int)
    requires
        0 <= j < tables.len(),
        !ids.contains(tables[j].0.id),
    ensures
        0 <= i < spared(tables, ids).len(),
        spared(tables, ids)[i] == tables[j],
    decreases tables.len(),
{
    let front = tables.drop_last();
    if j < tables.len() - 1 {
        spared_to(front, ids, j)
    } else {
        spared(front, ids).len() as int
    }
}

/// A merged table is a table of the list.
proof fn picked_from(tables: Seq<TableEntry>, ids: Seq<u64>, i: int) -> (j: int)
    requires
        0 <= i < picked(tables, ids).len(),
    ensures
        0 <= j < tables.len(),
        tables[j] == picked(tables, ids)[i],
        ids.contains(tables[j].0.id),
    decreases tables.len(),
{
    let front = tables.drop_last();
    if i < picked(front, ids).len() {
        picked_from(front, ids, i)
    } else {
        tables.len() - 1
    }
}

/// Picking and sparing go through a list part by part.
proof fn split_append(a: Seq<TableEntry>, b: Seq<TableEntry>, ids: Seq<u64>)
    ensures
        spared(a + b, ids) == spared(a, ids) + spared(b, ids),
        picked(a + b, ids) == picked(a, ids) + picked(b, ids),
    decreases b.len(),
{
    if b.len() == 0 {
        assert(a + b =~= a);
        assert(spared(a, ids) + spared(b, ids) =~= spared(a, ids));
        assert(picked(a, ids) + picked(b, ids) =~= picked(a, ids));
    } else {
        split_append(a, b.drop_last(), ids);
        assert((a + b).drop_last() =~= a + b.drop_last());
        assert(spared(a + b, ids) =~= spared(a, ids) + spared(b, ids));
        assert(picked(a + b, ids) =~= picked(a, ids) + picked(b, ids));
    }
}

/// Where nothing is merged all tables stay.
proof fn split_none(tables: Seq<TableEntry>, ids: Seq<u64>)
    requires
        forall|i: int| 0 <= i < tables.len() ==> !ids.contains((#[trigger] tables[i]).0.id),
    ensures
        spared(tables, ids) == tables,
        picked(tables, ids) == Seq::<TableEntry>::empty(),
    decreases tables.len(),
{
    if tables.len() > 0 {
        let front = tables.drop_last();
        assert forall|i: int| 0 <= i < front.len() implies !ids.contains(
            (#[trigger] front[i]).0.id,
        ) by {
            assert(!ids.contains(tables[i].0.id));
        }
        split_none(front, ids);
        assert(!ids.contains(tables[tables.len() - 1].0.id));
        assert(front.push(tables.last()) =~= tables);
    } else {
        assert(spared(tables, ids) =~= tables);
    }
}

/// Two tables share no key.
pub open spec fn no_common_key(a: TableEntry, b: TableEntry) -> bool {
    forall|k: Seq<u8>|
        !(#[trigger] map_of(a.1.entries()).contains_key(k) && map_of(b.1.entries()).contains_key(k))
}

/// Where a table that stays shares no key with merged tables before it, the
/// merged tables may as well all come last.
proof fn stored_partition(tables: Seq<TableEntry>, ids: Seq<u64>)
    requires
        forall|i: int, j: int|
            0 <= j < i < tables.len() && ids.contains((#[trigger] tables[j]).0.id)
                && !ids.contains((#[trigger] tables[i]).0.id) ==> no_common_key(
                tables[i],
                tables[j],
            ),
    ensures
        stored(tables) == overlay(stored(spared(tables, ids)), stored(picked(tables, ids))),
    decreases tables.len(),
{
    if tables.len() == 0 {
        assert(stored(tables) =~= overlay(
            stored(spared(tables, ids)),
            stored(picked(tables, ids)),
        ));
    } else {
        let front = tables.drop_last();
        let last = tables.last();
        let n = tables.len() - 1;
        assert forall|i: int, j: int|
            0 <= j < i < front.len() && ids.contains((#[trigger] front[j]).0.id) && !ids.contains(
                (#[trigger] front[i]).0.id,
            ) implies no_common_key(front[i], front[j]) by {
            assert(no_common_key(tables[i], tables[j]));
        }
        stored_partition(front, ids);
        let r = stored(spared(front, ids));
        let m = stored(picked(front, ids));
        let e = map_of(last.1.entries());
        if ids.contains(last.0.id) {
            assert(picked(tables, ids).drop_last() =~= picked(front, ids));
            assert(overlay(overlay(r, m), e) =~= overlay(r, overlay(m, e)));
        } else {
            assert(spared(tables, ids).drop_last() =~= spared(front, ids));
            assert forall|k: Seq<u8>| !(#[trigger] m.contains_key(k) && e.contains_key(k)) by {
                if m.contains_key(k) {
                    stored_contains(picked(front, ids), k);
                    let p = picked(front, ids);
                    let i = choose|i: int|
                        0 <= i < p.len() && map_of((#[trigger] p[i]).1.entries()).contains_key(k);
                    let j = picked_from(front, ids, i);
                    assert(tables[j] == p[i]);
                    assert(no_common_key(tables[n], tables[j]));
                    assert(map_of(last.1.entries()).contains_key(k) == e.contains_key(k));
                }
            }
            assert(overlay(overlay(r, m), e) =~= overlay(overlay(r, e), m));
        }
    }
}

/// The metadata of a level are those of its tables.
proof fn listed_from(tables: Seq<TableEntry>, level: int, i: int) -> (j: int)
    requires
        0 <= i < listed(tables, level).len(),
    ensures
        0 <= j < tables.len(),
        tables[j].0 == listed(tables, level)[i],
        tables[j].0.level == level,
    decreases tables.len(),
{
    let front = tables.drop_last();
    if i < listed(front, level).len() {
        listed_from(front, level, i)
    } else {
        tables.len() - 1
    }
}

/// Every table of a level is listed there.
proof fn listed_to(tables: Seq<TableEntry>, level: int, j: int) -> (i: int)
    requires
        0 <= j < tables.len(),
        tables[j].0.level == level,
    ensures
        0 <= i < listed(tables, level).len(),
        listed(tables, level)[i] == tables[j].0,
    decreases tables.len(),
{
    let front = tables.drop_last();
    if j < tables.len() - 1 {
        listed_to(front, level, j)
    } else {
        listed(front, level).len() as int
    }
}

/// Every table is listed in the manifest, so its level is one of the manifest's.
pub proof fn listed_at_level(tables: Seq<TableEntry>, levels: Seq<Seq<MetaView>>, j: int)
    requires
        agrees(tables, levels),
        0 <= j < tables.len(),
    ensures
        0 <= tables[j].0.level < levels.len(),
{
    let l = tables[j].0.level;
    let i = listed_to(tables, l, j);
    assert(at_level(levels, l) == listed(tables, l));
}

/// A member of a part of a level is a member of the level.
proof fn filter_from(s: Seq<MetaView>, f: spec_fn(MetaView) -> bool, i: int) -> (j: int)
    requires
        0 <= i < s.filter(f).len(),
    ensures
        0 <= j < s.len(),
        s[j] == s.filter(f)[i],
        f(s[j]),
    decreases s.len(),
{
    reveal_with_fuel(Seq::filter, 1);
    let front = s.drop_last();
    if i < front.filter(f).len() {
        filter_from(front, f, i)
    } else {
        s.len() - 1
    }
}

/// A member of a level that belongs to a part of it is a member of the part.
proof fn filter_to(s: Seq<MetaView>, f: spec_fn(MetaView) -> bool, j: int) -> (i: int)
    requires
        0 <= j < s.len(),
        f(s[j]),
    ensures
        0 <= i < s.filter(f).len(),
        s.filter(f)[i] == s[j],
    decreases s.len(),
{
    reveal_with_fuel(Seq::filter, 1);
    let front = s.drop_last();
    if j < s.len() - 1 {
        filter_to(front, f, j)
    } else {
        front.filter(f).len() as int
    }
}

/// A table whose number is that of a table of a level is of that level.
proof fn listed_id(tables: Seq<TableEntry>, level: int, i: int, k: int)
    requires
        unique_ids(tables),
        0 <= i < tables.len(),
        0 <= k < listed(tables, level).len(),
        listed(tables, level)[k].id == tables[i].0.id,
    ensures
        tables[i].0 == listed(tables, level)[k],
        tables[i].0.level == level,
{
    let j = listed_from(tables, level, k);
    same_id_same_place(tables, i, j);
}

/// Whether a table lies in the key range of a level.
pub open spec fn in_reach(m: MetaView, src: Seq<MetaView>) -> bool {
    overlaps(m, least_key(src), greatest_key(src))
}

/// What a compaction merges is of its level, or overlaps it on the next level.
proof fn victims_are(tables: Seq<TableEntry>, levels: Seq<Seq<MetaView>>, src_level: int, i: int)
    requires
        unique_ids(tables),
        agrees(tables, levels),
        0 <= i < tables.len(),
        victims(levels, src_level).contains(tables[i].0.id),
    ensures
        tables[i].0.level == src_level || (tables[i].0.level == src_level + 1 && in_reach(
            tables[i].0,
            at_level(levels, src_level),
        )),
{
    let src = at_level(levels, src_level);
    let dst = at_level(levels, src_level + 1);
    let chosen = overlapping(levels, src_level);
    let ids = victims(levels, src_level);
    assert(src == listed(tables, src_level));
    assert(dst == listed(tables, src_level + 1));
    let k = choose|k: int| 0 <= k < ids.len() && ids[k] == tables[i].0.id;
    if k < src.len() {
        listed_id(tables, src_level, i, k);
    } else {
        let c = k - src.len();
        assert(chosen[c].id == tables[i].0.id);
        let d = filter_from(
            dst,
            |m: MetaView| overlaps(m, least_key(src), greatest_key(src)),
            c,
        );
        listed_id(tables, src_level + 1, i, d);
    }
}

/// A compaction merges all tables of its level, and those of the next level that
/// overlap it.
proof fn victims_all(tables: Seq<TableEntry>, levels: Seq<Seq<MetaView>>, src_level: int, i: int)
    requires
        agrees(tables, levels),
        0 <= i < tables.len(),
        tables[i].0.level == src_level || (tables[i].0.level == src_level + 1 && in_reach(
            tables[i].0,
            at_level(levels, src_level),
        )),
    ensures
        victims(levels, src_level).contains(tables[i].0.id),
{
    let src = at_level(levels, src_level);
    let dst = at_level(levels, src_level + 1);
    let chosen = overlapping(levels, src_level);
    let ids = victims(levels, src_level);
    assert(src == listed(tables, src_level));
    assert(dst == listed(tables, src_level + 1));
    let t = tables[i];
    if t.0.level == src_level {
        let k = listed_to(tables, src_level, i);
        assert(ids[k] == t.0.id);
    } else {
        let meets = |m: MetaView| overlaps(m, least_key(src), greatest_key(src));
        let d = listed_to(tables, src_level + 1, i);
        assert(meets(dst[d]));
        let c = filter_to(dst, meets, d);
        assert(ids[src.len() + c] == t.0.id);
    }
}

/// Which tables a compaction merges: those of its level, and of the next level
/// those that overlap them.
proof fn victim_tables(
    tables: Seq<TableEntry>,
    levels: Seq<Seq<MetaView>>,
    src_level: int,
    i: int,
)
    requires
        unique_ids(tables),
        agrees(tables, levels),
        0 <= i < tables.len(),
    ensures
        victims(levels, src_level).contains(tables[i].0.id) <==> tables[i].0.level == src_level || (
        tables[i].0.level == src_level + 1 && in_reach(tables[i].0, at_level(levels, src_level))),
{
    if victims(levels, src_level).contains(tables[i].0.id) {
        victims_are(tables, levels, src_level, i);
    }
    if tables[i].0.level == src_level || (tables[i].0.level == src_level + 1 && in_reach(
        tables[i].0,
        at_level(levels, src_level),
    )) {
        victims_all(tables, levels, src_level, i);
    }
}

/// Tables with one number stand in one place.
proof fn same_id_same_place(tables: Seq<TableEntry>, i: int, j: int)
    requires
        unique_ids(tables),
        0 <= i < tables.len(),
        0 <= j < tables.len(),
        tables[i].0.id == tables[j].0.id,
    ensures
        i == j,
{
    if i < j {
        assert(tables[i].0.id != tables[j].0.id);
    } else if j < i {
        assert(tables[j].0.id != tables[i].0.id);
    }
}

/// Tables whose key ranges are apart share no key.
proof fn apart_no_common_key(a: TableEntry, b: TableEntry)
    requires
        accurate(a),
        accurate(b),
        apart(a.0, b.0),
    ensures
        no_common_key(a, b),
{
    assert forall|k: Seq<u8>|
        !(#[trigger] map_of(a.1.entries()).contains_key(k) && map_of(b.1.entries()).contains_key(
            k,
        )) by {
        map_of_contains(a.1.entries(), k);
        map_of_contains(b.1.entries(), k);
        if map_of(a.1.entries()).contains_key(k) && map_of(b.1.entries()).contains_key(k) {
            let i = choose|i: int|
                0 <= i < a.1.entries().len() && #[trigger] a.1.entries()[i].0 == k;
            let j = choose|j: int|
                0 <= j < b.1.entries().len() && #[trigger] b.1.entries()[j].0 == k;
            if lex_lt(a.0.max_key, b.0.min_key) {
                below_all(k, a.0.max_key, b.0.min_key, k);
            } else {
                below_all(k, b.0.max_key, a.0.min_key, k);
            }
            lex_lt_irreflexive(k);
        }
    }
}

/// The order of four keys.
proof fn below_all(a: Seq<u8>, b: Seq<u8>, c: Seq<u8>, d: Seq<u8>)
    requires
        lex_le(a, b),
        lex_lt(b, c),
        lex_le(c, d),
    ensures
        lex_lt(a, d),
{
    if a != b {
        lex_lt_transitive(a, b, c);
    }
    if c != d {
        lex_lt_transitive(a, c, d);
    }
}

/// How a tidy list falls apart for a compaction: the tables that stay at the
/// next level or deeper, the merged tables, and the newer tables behind them.
proof fn compaction_split(tables: Seq<TableEntry>, levels: Seq<Seq<MetaView>>, src_level: int)
    requires
        tidy(tables, levels),
        0 <= src_level,
    ensures
        ({
            let ids = victims(levels, src_level);
            let p = level_end(tables, src_level);
            let older = tables.take(p);
            let newer = tables.skip(p);
            &&& 0 <= p <= tables.len()
            &&& tables == older + newer
            &&& spared(tables, ids) == spared(older, ids) + newer
            &&& picked(tables, ids) == picked(older, ids)
            &&& stored(older) == overlay(stored(spared(older, ids)), stored(picked(older, ids)))
            &&& forall|i: int| 0 <= i < newer.len() ==> (#[trigger] newer[i]).0.level < src_level
            &&& forall|i: int|
                0 <= i < spared(older, ids).len() ==> (#[trigger] spared(older, ids)[i]).0.level
                    > src_level
        }),
{
    let ids = victims(levels, src_level);
    let p = level_end(tables, src_level);
    let older = tables.take(p);
    let newer = tables.skip(p);
    level_end_splits(tables, src_level);
    assert(tables =~= older + newer);
    assert forall|i: int| 0 <= i < newer.len() implies (#[trigger] newer[i]).0.level < src_level
        && !ids.contains(newer[i].0.id) by {
        assert(tables[p + i] == newer[i]);
        victim_tables(tables, levels, src_level, p + i);
    }
    split_append(older, newer, ids);
    split_none(newer, ids);
    assert(picked(older, ids) + Seq::<TableEntry>::empty() =~= picked(older, ids));
    assert forall|i: int, j: int|
        0 <= j < i < older.len() && ids.contains((#[trigger] older[j]).0.id) && !ids.contains(
            (#[trigger] older[i]).0.id,
        ) implies no_common_key(older[i], older[j]) by {
        assert(older[i] == tables[i]);
        assert(older[j] == tables[j]);
        victim_tables(tables, levels, src_level, i);
        victim_tables(tables, levels, src_level, j);
        assert(tables[i].0.level >= src_level);
        assert(tables[j].0.level >= tables[i].0.level);
        assert(apart(tables[j].0, tables[i].0));
        apart_no_common_key(tables[i], tables[j]);
    }
    stored_partition(older, ids);
    assert forall|i: int| 0 <= i < spared(older, ids).len() implies (
    #[trigger] spared(older, ids)[i]).0.level > src_level by {
        let j = spared_from(older, ids, i);
        assert(tables[j] == older[j]);
        victim_tables(tables, levels, src_level, j);
        assert(tables[j].0.level >= src_level);
    }
}

/// A list in level order splits where its levels do.
proof fn level_end_at(a: Seq<TableEntry>, b: Seq<TableEntry>, level: int)
    requires
        forall|i: int| 0 <= i < a.len() ==> (#[trigger] a[i]).0.level >= level,
        forall|i: int| 0 <= i < b.len() ==> (#[trigger] b[i]).0.level < level,
    ensures
        level_end(a + b, level) == a.len(),
    decreases b.len(),
{
    if b.len() == 0 {
        assert(a + b =~= a);
        if a.len() > 0 {
            assert(a[a.len() - 1].0.level >= level);
        }
    } else {
        let front = b.drop_last();
        assert forall|i: int| 0 <= i < front.len() implies (#[trigger] front[i]).0.level
            < level by {
            assert(b[i].0.level < level);
        }
        level_end_at(a, front, level);
        assert((a + b).drop_last() =~= a + front);
        assert((a + b).last() == b[b.len() - 1]);
    }
}

/// A key is held by the tables that stay, at the next level or deeper, exactly if
/// it is stored there.
proof fn held_is_stored(
    tables: Seq<TableEntry>,
    levels: Seq<Seq<MetaView>>,
    src_level: int,
    key: Seq<u8>,
)
    requires
        tidy(tables, levels),
        0 <= src_level,
    ensures
        ({
            let ids = victims(levels, src_level);
            let older = tables.take(level_end(tables, src_level));
            held(tables, ids, src_level + 1, key) <==> stored(spared(older, ids)).contains_key(key)
        }),
{
    let ids = victims(levels, src_level);
    let p = level_end(tables, src_level);
    let older = tables.take(p);
    let rest = spared(older, ids);
    level_end_splits(tables, src_level);
    compaction_split(tables, levels, src_level);
    stored_contains(rest, key);
    if held(tables, ids, src_level + 1, key) {
        let i = choose|i: int|
            0 <= i < tables.len() && !ids.contains((#[trigger] tables[i]).0.id)
                && tables[i].0.level >= src_level + 1 && tables[i].1.lookup(key) != Ok::<
                Option<Seq<u8>>,
                Seq<char>,
            >(None);
        assert(tables[i].1.sound());
        sound_lookup(tables[i].1, key);
        assert(i < p);
        assert(older[i] == tables[i]);
        let j = spared_to(older, ids, i);
        assert(map_of(rest[j].1.entries()).contains_key(key));
    }
    if stored(rest).contains_key(key) {
        let j = choose|j: int|
            0 <= j < rest.len() && map_of((#[trigger] rest[j]).1.entries()).contains_key(key);
        let i = spared_from(older, ids, j);
        assert(tables[i] == rest[j]);
        assert(tables[i].1.sound());
        sound_lookup(tables[i].1, key);
        assert(rest[j].0.level > src_level);
        assert(!ids.contains(tables[i].0.id));
    }
}

/// A compaction changes nothing that a reader sees, then or later: every key
/// reads as it did before.
pub proof fn compaction_keeps_reads(
    tables: Seq<TableEntry>,
    levels: Seq<Seq<MetaView>>,
    src_level: int,
    now: u64,
    s: Seq<Entry>,
    output: Option<TableEntry>,
    key: Seq<u8>,
    later: u64,
)
    requires
        tidy(tables, levels),
        0 <= src_level,
        compacts_to(tables, victims(levels, src_level), src_level + 1, now, s),
        match output {
            Some(t) => t.0.level == src_level + 1 && t.1.entries() == s,
            None => s.len() == 0,
        },
        now <= later,
    ensures
        seen(
            stored(tables_after(tables, victims(levels, src_level), output)),
            key,
            later,
        ) == seen(stored(tables), key, later),
        stored(tables_after(tables, victims(levels, src_level), output)).contains_key(key)
            ==> value_of(
            stored(tables_after(tables, victims(levels, src_level), output)),
            key,
        ) == value_of(stored(tables), key),
{
    let ids = victims(levels, src_level);
    let p = level_end(tables, src_level);
    let older = tables.take(p);
    let newer = tables.skip(p);
    let rest = spared(older, ids);
    let m = stored(picked(older, ids));
    compaction_split(tables, levels, src_level);
    held_is_stored(tables, levels, src_level, key);
    stored_append(older, newer);
    let after = tables_after(tables, ids, output);
    match output {
        Some(t) => {
            level_end_at(rest, newer, src_level + 1);
            assert(after =~= rest.push(t) + newer);
            stored_append(rest.push(t), newer);
            assert(rest.push(t).drop_last() =~= rest);
            assert(stored(rest.push(t)) == overlay(stored(rest), map_of(s)));
        },
        None => {
            assert(after =~= rest + newer);
            stored_append(rest, newer);
            assert(map_of(s).dom() =~= Set::empty());
            assert(overlay(stored(rest), map_of(s)) =~= stored(rest));
        },
    }
    assert(stored(after) == overlay(overlay(stored(rest), map_of(s)), stored(newer)));
    assert(stored(tables) == overlay(overlay(stored(rest), m), stored(newer)));
    if m.contains_key(key) && !map_of(s).contains_key(key) {
        assert(!survives(tables, ids, src_level + 1, now, (key, m[key])));
        hidden_stays_hidden(m[key], now, later);
    }
}

/// Where the tables that stay stood, in order.
proof fn spared_places(tables: Seq<TableEntry>, ids: Seq<u64>) -> (places: Seq<int>)
    ensures
        places.len() == spared(tables, ids).len(),
        forall|i: int|
            0 <= i < places.len() ==> 0 <= #[trigger] places[i] < tables.len()
                && tables[places[i]] == spared(tables, ids)[i],
        forall|i: int, j: int| 0 <= i < j < places.len() ==> #[trigger] places[i] < #[trigger] places[j],
    decreases tables.len(),
{
    if tables.len() == 0 {
        Seq::empty()
    } else {
        let front = tables.drop_last();
        let n = tables.len() - 1;
        let before = spared_places(front, ids);
        assert forall|i: int| 0 <= i < before.len() implies tables[#[trigger] before[i]]
            == spared(front, ids)[i] by {
            assert(front[before[i]] == tables[before[i]]);
        }
        if ids.contains(tables.last().0.id) {
            before
        } else {
            before.push(n)
        }
    }
}

/// A part of a tidy list is tidy in all but the manifest.
proof fn spared_keeps(tables: Seq<TableEntry>, ids: Seq<u64>)
    requires
        all_sound(tables),
        level_order(tables),
        unique_ids(tables),
        deep_levels_ok(tables),
        top_level_ok(tables),
    ensures
        all_sound(spared(tables, ids)),
        level_order(spared(tables, ids)),
        unique_ids(spared(tables, ids)),
        deep_levels_ok(spared(tables, ids)),
        top_level_ok(spared(tables, ids)),
{
    let s = spared(tables, ids);
    let places = spared_places(tables, ids);
    assert forall|i: int| 0 <= i < s.len() implies (#[trigger] s[i]).1.sound() by {
        assert(tables[places[i]].1.sound());
    }
    assert forall|i: int, j: int| 0 <= i < j < s.len() implies (#[trigger] s[i]).0.level >= (
    #[trigger] s[j]).0.level by {
        assert(places[i] < places[j]);
        assert(tables[places[i]].0.level >= tables[places[j]].0.level);
    }
    assert forall|i: int, j: int| 0 <= i < j < s.len() implies (#[trigger] s[i]).0.id != (
    #[trigger] s[j]).0.id by {
        assert(places[i] < places[j]);
        assert(tables[places[i]].0.id != tables[places[j]].0.id);
    }
    assert forall|i: int| 0 <= i < s.len() && (#[trigger] s[i]).0.level >= 1 implies accurate(
        s[i],
    ) by {
        assert(accurate(tables[places[i]]));
    }
    assert forall|i: int, j: int|
        0 <= i < j < s.len() && (#[trigger] s[i]).0.level == (#[trigger] s[j]).0.level
            && s[i].0.level >= 1 implies apart(s[i].0, s[j].0) by {
        assert(places[i] < places[j]);
        assert(apart(tables[places[i]].0, tables[places[j]].0));
    }
    if forall|i: int| 0 <= i < tables.len() ==> (#[trigger] tables[i]).0.level == 0 {
        assert forall|i: int| 0 <= i < s.len() implies (#[trigger] s[i]).0.level == 0 by {
            assert(tables[places[i]].0.level == 0);
        }
    } else {
        assert forall|i: int| 0 <= i < s.len() implies accurate(#[trigger] s[i]) by {
            assert(accurate(tables[places[i]]));
        }
    }
}

/// The listing of a list goes through it part by part.
proof fn listed_append(a: Seq<TableEntry>, b: Seq<TableEntry>, level: int)
    ensures
        listed(a + b, level) == listed(a, level) + listed(b, level),
    decreases b.len(),
{
    if b.len() == 0 {
        assert(a + b =~= a);
        assert(listed(a, level) + listed(b, level) =~= listed(a, level));
    } else {
        listed_append(a, b.drop_last(), level);
        assert((a + b).drop_last() =~= a + b.drop_last());
        assert(listed(a + b, level) =~= listed(a, level) + listed(b, level));
    }
}

/// Without tables of a level nothing is listed there.
proof fn listed_none(tables: Seq<TableEntry>, level: int)
    requires
        forall|i: int| 0 <= i < tables.len() ==> (#[trigger] tables[i]).0.level != level,
    ensures
        listed(tables, level) == Seq::<MetaView>::empty(),
    decreases tables.len(),
{
    if tables.len() > 0 {
        let front = tables.drop_last();
        assert forall|i: int| 0 <= i < front.len() implies (#[trigger] front[i]).0.level
            != level by {
            assert(tables[i].0.level != level);
        }
        listed_none(front, level);
        assert(tables[tables.len() - 1].0.level != level);
    }
}

/// A placed table stands between the deeper tables and those above its level.
proof fn place_splits(tables: Seq<TableEntry>, t: TableEntry)
    requires
        level_order(tables),
    ensures
        ({
            let e = level_end(tables, t.0.level);
            &&& 0 <= e <= tables.len()
            &&& place(tables, t) == tables.take(e).push(t) + tables.skip(e)
        }),
{
    level_end_splits(tables, t.0.level);
    let e = level_end(tables, t.0.level);
    assert(place(tables, t) =~= tables.take(e).push(t) + tables.skip(e));
}

/// A placed table is listed last on its level.
proof fn listed_place(tables: Seq<TableEntry>, t: TableEntry, level: int)
    requires
        level_order(tables),
    ensures
        listed(place(tables, t), level) == if level == t.0.level {
            listed(tables, level).push(t.0)
        } else {
            listed(tables, level)
        },
{
    let e = level_end(tables, t.0.level);
    let a = tables.take(e);
    let b = tables.skip(e);
    place_splits(tables, t);
    level_end_splits(tables, t.0.level);
    listed_append(a.push(t), b, level);
    listed_append(a, b, level);
    assert(a + b =~= tables);
    assert(a.push(t).drop_last() =~= a);
    if level == t.0.level {
        assert forall|i: int| 0 <= i < b.len() implies (#[trigger] b[i]).0.level != level by {
            assert(tables[e + i] == b[i]);
        }
        listed_none(b, level);
        assert(listed(a, level).push(t.0) + listed(b, level) =~= (listed(a, level) + listed(
            b,
            level,
        )).push(t.0));
    }
}

/// A level's metadata without those of merged tables.
pub open spec fn spared_metas(s: Seq<MetaView>, ids: Seq<u64>) -> Seq<MetaView>
    decreases s.len(),
{
    if s.len() == 0 {
        Seq::empty()
    } else if ids.contains(s.last().id) {
        spared_metas(s.drop_last(), ids)
    } else {
        spared_metas(s.drop_last(), ids).push(s.last())
    }
}

/// What is listed of the tables that stay.
proof fn listed_spared(tables: Seq<TableEntry>, ids: Seq<u64>, level: int)
    ensures
        listed(spared(tables, ids), level) == spared_metas(listed(tables, level), ids),
    decreases tables.len(),
{
    if tables.len() > 0 {
        let front = tables.drop_last();
        let last = tables.last();
        listed_spared(front, ids, level);
        if last.0.level == level {
            assert(listed(tables, level).drop_last() =~= listed(front, level));
        }
        if !ids.contains(last.0.id) {
            assert(spared(tables, ids).drop_last() =~= spared(front, ids));
        }
    }
}

/// Sparing all of some numbers and one more is sparing them one after another.
proof fn spared_metas_push(s: Seq<MetaView>, ids: Seq<u64>, id: u64)
    ensures
        spared_metas(s, ids.push(id)) == without_id(spared_metas(s, ids), id),
    decreases s.len(),
{
    reveal_with_fuel(Seq::filter, 1);
    let more = ids.push(id);
    if s.len() > 0 {
        let front = s.drop_last();
        let last = s.last();
        spared_metas_push(front, ids, id);
        assert(more.contains(last.id) <==> ids.contains(last.id) || last.id == id) by {
            if ids.contains(last.id) {
                let k = choose|k: int| 0 <= k < ids.len() && ids[k] == last.id;
                assert(more[k] == last.id);
            }
            if last.id == id {
                assert(more[ids.len() as int] == last.id);
            }
            if more.contains(last.id) {
                let k = choose|k: int| 0 <= k < more.len() && more[k] == last.id;
                if k < ids.len() {
                    assert(ids[k] == last.id);
                }
            }
        }
        if !ids.contains(last.id) {
            assert(spared_metas(s, ids).drop_last() =~= spared_metas(front, ids));
        }
    }
}

/// Sparing nothing leaves all.
proof fn spared_metas_none(s: Seq<MetaView>)
    ensures
        spared_metas(s, Seq::empty()) == s,
    decreases s.len(),
{
    if s.len() > 0 {
        spared_metas_none(s.drop_last());
        assert(!Seq::<u64>::empty().contains(s.last().id));
        assert(s.drop_last().push(s.last()) =~= s);
    } else {
        assert(spared_metas(s, Seq::empty()) =~= s);
    }
}

/// No number is listed on two levels.
pub open spec fn unique_levels(levels: Seq<Seq<MetaView>>) -> bool {
    forall|l: int, m: int, id: u64|
        0 <= l < m < levels.len() ==> !(#[trigger] lists(levels[l], id) && #[trigger] lists(
            levels[m],
            id,
        ))
}

/// A level that does not list a number stays as it is without it.
proof fn without_id_same(s: Seq<MetaView>, id: u64)
    requires
        !lists(s, id),
    ensures
        without_id(s, id) == s,
    decreases s.len(),
{
    reveal_with_fuel(Seq::filter, 1);
    if s.len() > 0 {
        let front = s.drop_last();
        assert(s[s.len() - 1].id != id);
        assert(!lists(front, id)) by {
            if lists(front, id) {
                let i = choose|i: int| 0 <= i < front.len() && (#[trigger] front[i]).id == id;
                assert(s[i].id == id);
            }
        }
        without_id_same(front, id);
        assert(front.push(s.last()) =~= s);
    } else {
        assert(without_id(s, id) =~= s);
    }
}

/// What is listed without a number was listed before.
proof fn without_id_lists(s: Seq<MetaView>, id: u64, other: u64)
    requires
        lists(without_id(s, id), other),
    ensures
        lists(s, other),
{
    let w = without_id(s, id);
    let i = choose|i: int| 0 <= i < w.len() && (#[trigger] w[i]).id == other;
    let j = filter_from(s, |m: MetaView| m.id != id, i);
    assert(s[j].id == other);
}

/// Removing a number that one level at most lists takes it out of every level.
proof fn removed_levels(levels: Seq<Seq<MetaView>>, id: u64)
    requires
        unique_levels(levels),
    ensures
        removed(levels, id).len() == levels.len(),
        forall|l: int| #[trigger]
            at_level(removed(levels, id), l) == without_id(at_level(levels, l), id),
        unique_levels(removed(levels, id)),
{
    level_with_is_first(levels, id);
    let at = level_with(levels, id);
    let after = removed(levels, id);
    assert forall|l: int| #[trigger] at_level(after, l) == without_id(at_level(levels, l), id) by {
        if 0 <= l < levels.len() {
            if l != at {
                if lists(levels[l], id) && at < levels.len() {
                    if l < at {
                        assert(!(lists(levels[l], id) && lists(levels[at], id)));
                    } else {
                        assert(!(lists(levels[at], id) && lists(levels[l], id)));
                    }
                }
                assert(!lists(levels[l], id));
                without_id_same(levels[l], id);
            }
        } else {
            assert(!lists(Seq::empty(), id));
            without_id_same(Seq::empty(), id);
        }
    }
    assert forall|l: int, m: int, other: u64| 0 <= l < m < after.len() implies !(#[trigger] lists(
        after[l],
        other,
    ) && #[trigger] lists(after[m], other)) by {
        assert(at_level(after, l) == without_id(at_level(levels, l), id));
        assert(at_level(after, m) == without_id(at_level(levels, m), id));
        if lists(after[l], other) && lists(after[m], other) {
            without_id_lists(levels[l], id, other);
            without_id_lists(levels[m], id, other);
            assert(!(lists(levels[l], other) && lists(levels[m], other)));
        }
    }
}

/// Removing several numbers takes them out of every level.
proof fn removed_all_levels(levels: Seq<Seq<MetaView>>, ids: Seq<u64>)
    requires
        unique_levels(levels),
    ensures
        unique_levels(removed_all(levels, ids)),
        forall|l: int| #[trigger]
            at_level(removed_all(levels, ids), l) == spared_metas(at_level(levels, l), ids),
    decreases ids.len(),
{
    if ids.len() == 0 {
        assert(ids =~= Seq::empty());
        assert forall|l: int| #[trigger]
            at_level(removed_all(levels, ids), l) == spared_metas(at_level(levels, l), ids) by {
            spared_metas_none(at_level(levels, l));
        }
    } else {
        let front = ids.drop_last();
        let before = removed_all(levels, front);
        removed_all_levels(levels, front);
        removed_levels(before, ids.last());
        assert forall|l: int| #[trigger]
            at_level(removed_all(levels, ids), l) == spared_metas(at_level(levels, l), ids) by {
            assert(at_level(before, l) == spared_metas(at_level(levels, l), front));
            spared_metas_push(at_level(levels, l), front, ids.last());
            assert(front.push(ids.last()) =~= ids);
        }
    }
}

/// A number that is listed on a level is that of a table of the level.
proof fn lists_table(
    tables: Seq<TableEntry>,
    levels: Seq<Seq<MetaView>>,
    level: int,
    id: u64,
) -> (j: int)
    requires
        agrees(tables, levels),
        0 <= level < levels.len(),
        lists(levels[level], id),
    ensures
        0 <= j < tables.len(),
        tables[j].0.id == id,
        tables[j].0.level == level,
{
    let s = levels[level];
    assert(at_level(levels, level) == listed(tables, level));
    let i = choose|i: int| 0 <= i < s.len() && (#[trigger] s[i]).id == id;
    listed_from(tables, level, i)
}

/// A manifest of tables with their own numbers lists no number on two levels.
proof fn agreeing_levels_alone(tables: Seq<TableEntry>, levels: Seq<Seq<MetaView>>)
    requires
        agrees(tables, levels),
        unique_ids(tables),
    ensures
        unique_levels(levels),
{
    assert forall|l: int, k: int, id: u64| 0 <= l < k < levels.len() implies !(#[trigger] lists(
        levels[l],
        id,
    ) && #[trigger] lists(levels[k], id)) by {
        if lists(levels[l], id) && lists(levels[k], id) {
            let a = lists_table(tables, levels, l, id);
            let b = lists_table(tables, levels, k, id);
            same_id_same_place(tables, a, b);
        }
    }
}

/// Neither does it with one more table.
proof fn agreeing_levels_unique(
    tables: Seq<TableEntry>,
    levels: Seq<Seq<MetaView>>,
    m: MetaView,
)
    requires
        agrees(tables, levels),
        unique_ids(tables),
        m.level >= 0,
        forall|i: int| 0 <= i < tables.len() ==> (#[trigger] tables[i]).0.id != m.id,
    ensures
        unique_levels(with_sst(levels, m.level, m)),
{
    agreeing_levels_alone(tables, levels);
    let more = with_sst(levels, m.level, m);
    assert forall|l: int, k: int, id: u64| 0 <= l < k < more.len() implies !(#[trigger] lists(
        more[l],
        id,
    ) && #[trigger] lists(more[k], id)) by {
        if lists(more[l], id) && lists(more[k], id) {
            with_sst_lists(levels, m, l, id);
            with_sst_lists(levels, m, k, id);
            if id == m.id {
                if l < levels.len() && lists(levels[l], id) {
                    let a = lists_table(tables, levels, l, id);
                }
                if k < levels.len() && lists(levels[k], id) {
                    let a = lists_table(tables, levels, k, id);
                }
            } else {
                assert(!(lists(levels[l], id) && lists(levels[k], id)));
            }
        }
    }
}

/// What a manifest lists with one more table.
proof fn with_sst_lists(levels: Seq<Seq<MetaView>>, m: MetaView, l: int, id: u64)
    requires
        0 <= l < with_sst(levels, m.level, m).len(),
        lists(with_sst(levels, m.level, m)[l], id),
    ensures
        (l < levels.len() && lists(levels[l], id)) || (l == m.level && id == m.id),
{
    let s = with_sst(levels, m.level, m)[l];
    let i = choose|i: int| 0 <= i < s.len() && (#[trigger] s[i]).id == id;
    let before = at_level(levels, l);
    if i < before.len() {
        assert(before[i] == s[i]);
        assert(levels[l][i].id == id);
    }
}

/// What the levels hold with one more table.
proof fn at_level_with_sst(levels: Seq<Seq<MetaView>>, m: MetaView, l: int)
    requires
        m.level >= 0,
    ensures
        at_level(with_sst(levels, m.level, m), l) == if l == m.level {
            at_level(levels, l).push(m)
        } else {
            at_level(levels, l)
        },
{
}

/// Adding a sound table keeps the list tidy in all but the manifest.
proof fn place_keeps(tables: Seq<TableEntry>, t: TableEntry)
    requires
        all_sound(tables),
        level_order(tables),
        unique_ids(tables),
        deep_levels_ok(tables),
        t.1.sound(),
        forall|i: int| 0 <= i < tables.len() ==> (#[trigger] tables[i]).0.id != t.0.id,
        t.0.level >= 1 ==> accurate(t),
        forall|i: int|
            0 <= i < tables.len() && (#[trigger] tables[i]).0.level == t.0.level && t.0.level >= 1
                ==> apart(tables[i].0, t.0),
    ensures
        all_sound(place(tables, t)),
        level_order(place(tables, t)),
        unique_ids(place(tables, t)),
        deep_levels_ok(place(tables, t)),
{
    let e = level_end(tables, t.0.level);
    let s = place(tables, t);
    level_end_splits(tables, t.0.level);
    assert forall|i: int| 0 <= i < s.len() implies s[i] == (if i < e {
        tables[i]
    } else if i == e {
        t
    } else {
        tables[i - 1]
    }) by {}
    assert forall|i: int| 0 <= i < s.len() implies (#[trigger] s[i]).1.sound() by {
        if i < e {
            assert(tables[i].1.sound());
        } else if i > e {
            assert(tables[i - 1].1.sound());
        }
    }
    assert forall|i: int| 0 <= i < s.len() && (#[trigger] s[i]).0.level >= 1 implies accurate(
        s[i],
    ) by {
        if i < e {
            assert(accurate(tables[i]));
        } else if i > e {
            assert(accurate(tables[i - 1]));
        }
    }
    assert forall|i: int, j: int| 0 <= i < j < s.len() implies (#[trigger] s[i]).0.level >= (
    #[trigger] s[j]).0.level && s[i].0.id != s[j].0.id && (s[i].0.level == s[j].0.level
        && s[i].0.level >= 1 ==> apart(s[i].0, s[j].0)) by {
        let a = if i < e {
            i
        } else {
            i - 1
        };
        let b = if j < e {
            j
        } else {
            j - 1
        };
        if i != e && j != e {
            assert(tables[a].0.level >= tables[b].0.level);
        } else if i == e {
            assert(tables[b].0.level < t.0.level);
        } else {
            assert(tables[a].0.level >= t.0.level);
        }
    }
}

/// A table of sorted entries tells its key range by its first and last key.
proof fn ends_are_accurate(t: TableEntry)
    requires
        t.1.sound(),
        t.1.entries().len() > 0,
        t.0.min_key == t.1.entries()[0].0,
        t.0.max_key == t.1.entries().last().0,
    ensures
        accurate(t),
{
    let s = t.1.entries();
    let n = s.len() - 1;
    if n > 0 {
        assert(lex_lt(s[0].0, s[n].0));
    }
    assert forall|i: int| 0 <= i < s.len() implies lex_le(t.0.min_key, #[trigger] s[i].0) && lex_le(
        s[i].0,
        t.0.max_key,
    ) by {
        if 0 < i {
            assert(lex_lt(s[0].0, s[i].0));
        }
        if i < n {
            assert(lex_lt(s[i].0, s[n].0));
        }
    }
}

/// Adding a table of a flush keeps the tables tidy.
pub proof fn flush_keeps_tidy(
    tables: Seq<TableEntry>,
    levels: Seq<Seq<MetaView>>,
    t: TableEntry,
)
    requires
        tidy(tables, levels),
        t.1.sound(),
        t.1.entries().len() > 0,
        t.0.level == 0,
        t.0.min_key == t.1.entries()[0].0,
        t.0.max_key == t.1.entries().last().0,
        forall|i: int| 0 <= i < tables.len() ==> (#[trigger] tables[i]).0.id != t.0.id,
    ensures
        tidy(place(tables, t), with_sst(levels, 0, t.0)),
        stored(place(tables, t)) == overlay(stored(tables), map_of(t.1.entries())),
{
    let s = place(tables, t);
    place_keeps(tables, t);
    ends_are_accurate(t);
    place_splits(tables, t);
    level_end_splits(tables, 0);
    let e = level_end(tables, 0);
    if e < tables.len() {
        assert(tables[e].0.level >= 0);
    }
    assert(s =~= tables.push(t));
    assert(s.drop_last() =~= tables);
    assert forall|i: int| 0 <= i < s.len() implies (#[trigger] s[i]).0.level >= 0 by {
        if i < tables.len() {
            assert(tables[i].0.level >= 0);
        }
    }
    assert forall|l: int| #[trigger] at_level(with_sst(levels, 0, t.0), l) == listed(s, l) by {
        listed_place(tables, t, l);
        at_level_with_sst(levels, t.0, l);
        assert(at_level(levels, l) == listed(tables, l));
    }
    if forall|i: int| 0 <= i < tables.len() ==> (#[trigger] tables[i]).0.level == 0 {
        assert forall|i: int| 0 <= i < s.len() implies (#[trigger] s[i]).0.level == 0 by {
            if i < tables.len() {
                assert(tables[i].0.level == 0);
            }
        }
    } else {
        assert forall|i: int| 0 <= i < s.len() implies accurate(#[trigger] s[i]) by {
            if i < tables.len() {
                assert(accurate(tables[i]));
            }
        }
    }
}

/// The range of a level's keys takes in the range of each of its tables.
proof fn range_bounds(s: Seq<MetaView>, i: int)
    requires
        0 <= i < s.len(),
    ensures
        lex_le(least_key(s), s[i].min_key),
        lex_le(s[i].max_key, greatest_key(s)),
    decreases s.len(),
{
    if s.len() > 1 {
        let front = s.drop_last();
        let last = s.last();
        lex_lt_total(last.min_key, least_key(front));
        lex_lt_total(greatest_key(front), last.max_key);
        if i < s.len() - 1 {
            range_bounds(front, i);
            if lex_lt(last.min_key, least_key(front)) && least_key(front) != s[i].min_key {
                lex_lt_transitive(last.min_key, least_key(front), s[i].min_key);
            }
            if lex_lt(greatest_key(front), last.max_key) && s[i].max_key != greatest_key(front) {
                lex_lt_transitive(s[i].max_key, greatest_key(front), last.max_key);
            }
        }
    }
}

/// A key that a compaction writes lies on the far side of every table of the
/// next level that it leaves alone.
proof fn written_key_apart(
    tables: Seq<TableEntry>,
    levels: Seq<Seq<MetaView>>,
    src_level: int,
    r: int,
    key: Seq<u8>,
)
    requires
        tidy(tables, levels),
        0 <= src_level,
        0 <= r < tables.len(),
        tables[r].0.level == src_level + 1,
        !victims(levels, src_level).contains(tables[r].0.id),
        stored(picked(tables, victims(levels, src_level))).contains_key(key),
    ensures
        ({
            let src = at_level(levels, src_level);
            let m = tables[r].0;
            if lex_lt(m.max_key, least_key(src)) {
                lex_lt(m.max_key, key)
            } else {
                lex_lt(key, m.min_key)
            }
        }),
{
    let ids = victims(levels, src_level);
    let src = at_level(levels, src_level);
    let lo = least_key(src);
    let hi = greatest_key(src);
    let m = tables[r].0;
    let chosen = picked(tables, ids);
    stored_contains(chosen, key);
    let c = choose|c: int|
        0 <= c < chosen.len() && map_of((#[trigger] chosen[c]).1.entries()).contains_key(key);
    let v = picked_from(tables, ids, c);
    let t = tables[v];
    victim_tables(tables, levels, src_level, v);
    victim_tables(tables, levels, src_level, r);
    assert(tables[r].0.level != 0);
    assert(accurate(tables[r]));
    assert(accurate(t));
    map_of_contains(t.1.entries(), key);
    let k = choose|k: int| 0 <= k < t.1.entries().len() && #[trigger] t.1.entries()[k].0 == key;
    assert(lex_le(t.0.min_key, key) && lex_le(key, t.0.max_key));
    assert(src == listed(tables, src_level));
    lex_lt_total(m.max_key, lo);
    lex_lt_total(hi, m.min_key);
    if t.0.level == src_level {
        let i = listed_to(tables, src_level, v);
        range_bounds(src, i);
        if lex_lt(m.max_key, lo) {
            chain3(m.max_key, lo, t.0.min_key, key);
        } else {
            chain3_rev(key, t.0.max_key, hi, m.min_key);
        }
    } else {
        if r < v {
            assert(apart(tables[r].0, tables[v].0));
        } else {
            assert(r != v);
            assert(apart(tables[v].0, tables[r].0));
        }
        lex_lt_irreflexive(lo);
        lex_lt_irreflexive(hi);
        if lex_lt(m.max_key, lo) {
            if lex_lt(t.0.max_key, m.min_key) {
                below_all(lo, t.0.max_key, m.min_key, m.max_key);
                lex_lt_transitive(lo, m.max_key, lo);
            }
            below_all(m.max_key, m.max_key, t.0.min_key, key);
        } else {
            if lex_lt(m.max_key, t.0.min_key) {
                below_all(m.min_key, m.max_key, t.0.min_key, hi);
                lex_lt_transitive(hi, m.min_key, hi);
            }
            below_all(key, t.0.max_key, m.min_key, m.min_key);
        }
    }
}

/// The order of four keys.
proof fn chain3(a: Seq<u8>, b: Seq<u8>, c: Seq<u8>, d: Seq<u8>)
    requires
        lex_lt(a, b),
        lex_le(b, c),
        lex_le(c, d),
    ensures
        lex_lt(a, d),
{
    if b != c {
        lex_lt_transitive(a, b, c);
    }
    if c != d {
        lex_lt_transitive(a, c, d);
    }
}

/// The order of four keys.
proof fn chain3_rev(a: Seq<u8>, b: Seq<u8>, c: Seq<u8>, d: Seq<u8>)
    requires
        lex_le(a, b),
        lex_le(b, c),
        lex_lt(c, d),
    ensures
        lex_lt(a, d),
{
    if b != c {
        lex_lt_transitive(b, c, d);
    }
    if a != b {
        lex_lt_transitive(a, b, d);
    }
}

/// The table that a compaction writes is apart from the tables of its level that
/// the compaction leaves alone.
proof fn output_apart(
    tables: Seq<TableEntry>,
    levels: Seq<Seq<MetaView>>,
    src_level: int,
    now: u64,
    t: TableEntry,
    r: int,
)
    requires
        tidy(tables, levels),
        0 <= src_level,
        compacts_to(tables, victims(levels, src_level), src_level + 1, now, t.1.entries()),
        t.1.entries().len() > 0,
        t.0.min_key == t.1.entries()[0].0,
        t.0.max_key == t.1.entries().last().0,
        0 <= r < tables.len(),
        tables[r].0.level == src_level + 1,
        !victims(levels, src_level).contains(tables[r].0.id),
    ensures
        apart(tables[r].0, t.0),
{
    let s = t.1.entries();
    let n = s.len() - 1;
    map_of_contains(s, s[0].0);
    map_of_contains(s, s[n].0);
    assert(map_of(s).contains_key(s[0].0));
    assert(map_of(s).contains_key(s[n].0));
    written_key_apart(tables, levels, src_level, r, s[0].0);
    written_key_apart(tables, levels, src_level, r, s[n].0);
}

/// A compaction keeps the tables tidy.
pub proof fn compaction_keeps_tidy(
    tables: Seq<TableEntry>,
    levels: Seq<Seq<MetaView>>,
    src_level: int,
    now: u64,
    s: Seq<Entry>,
    output: Option<TableEntry>,
)
    requires
        tidy(tables, levels),
        0 <= src_level,
        compacts_to(tables, victims(levels, src_level), src_level + 1, now, s),
        match output {
            Some(t) => {
                &&& t.0.level == src_level + 1
                &&& t.1.sound()
                &&& t.1.entries() == s
                &&& s.len() > 0
                &&& t.0.min_key == s[0].0
                &&& t.0.max_key == s.last().0
                &&& forall|i: int| 0 <= i < tables.len() ==> (#[trigger] tables[i]).0.id != t.0.id
            },
            None => s.len() == 0,
        },
    ensures
        tidy(
            tables_after(tables, victims(levels, src_level), output),
            levels_after(levels, victims(levels, src_level), output),
        ),
{
    let ids = victims(levels, src_level);
    let rest = spared(tables, ids);
    let after = tables_after(tables, ids, output);
    let levels2 = levels_after(levels, ids, output);
    spared_keeps(tables, ids);
    assert forall|i: int| 0 <= i < rest.len() implies (#[trigger] rest[i]).0.level >= 0 by {
        let j = spared_from(tables, ids, i);
        assert(tables[j].0.level >= 0);
    }
    match output {
        None => {
            agreeing_levels_alone(tables, levels);
            removed_all_levels(levels, ids);
            assert forall|l: int| #[trigger] at_level(levels2, l) == listed(after, l) by {
                assert(at_level(levels, l) == listed(tables, l));
                listed_spared(tables, ids, l);
            }
        },
        Some(t) => {
            assert forall|i: int| 0 <= i < rest.len() implies (#[trigger] rest[i]).0.id
                != t.0.id by {
                let j = spared_from(tables, ids, i);
                assert(tables[j].0.id != t.0.id);
            }
            ends_are_accurate(t);
            assert forall|i: int|
                0 <= i < rest.len() && (#[trigger] rest[i]).0.level == t.0.level && t.0.level
                    >= 1 implies apart(rest[i].0, t.0) by {
                let j = spared_from(tables, ids, i);
                output_apart(tables, levels, src_level, now, t, j);
            }
            place_keeps(rest, t);
            place_splits(rest, t);
            let e = level_end(rest, t.0.level);
            assert forall|i: int| 0 <= i < after.len() implies (#[trigger] after[i]).0.level
                >= 0 by {
                if i < e {
                    assert(after[i] == rest[i]);
                } else if i > e {
                    assert(after[i] == rest[i - 1]);
                }
            }
            if forall|i: int| 0 <= i < tables.len() ==> (#[trigger] tables[i]).0.level == 0 {
                assert(rest.len() == 0 || src_level > 0) by {
                    if rest.len() > 0 && src_level == 0 {
                        let j = spared_from(tables, ids, 0);
                        victim_tables(tables, levels, src_level, j);
                    }
                }
                all_level_zero(tables, levels, src_level, now, s);
            } else {
                assert forall|i: int| 0 <= i < rest.len() implies accurate(#[trigger] rest[i]) by {
                    let j = spared_from(tables, ids, i);
                    assert(accurate(tables[j]));
                }
            }
            assert forall|i: int| 0 <= i < after.len() implies accurate(#[trigger] after[i]) by {
                if i < e {
                    assert(after[i] == rest[i]);
                } else if i > e {
                    assert(after[i] == rest[i - 1]);
                }
            }
            agreeing_levels_unique(tables, levels, t.0);
            let more = with_sst(levels, t.0.level, t.0);
            removed_all_levels(more, ids);
            assert(!ids.contains(t.0.id)) by {
                fresh_not_victim(tables, levels, src_level, t.0.id);
            }
            assert forall|l: int| #[trigger] at_level(levels2, l) == listed(after, l) by {
                assert(at_level(levels, l) == listed(tables, l));
                at_level_with_sst(levels, t.0, l);
                listed_spared(tables, ids, l);
                listed_place(rest, t, l);
                assert(at_level(more, l).drop_last() =~= at_level(levels, l) || l != t.0.level);
            }
        },
    }
}

/// A number that no table has is not merged.
proof fn fresh_not_victim(
    tables: Seq<TableEntry>,
    levels: Seq<Seq<MetaView>>,
    src_level: int,
    id: u64,
)
    requires
        agrees(tables, levels),
        forall|i: int| 0 <= i < tables.len() ==> (#[trigger] tables[i]).0.id != id,
    ensures
        !victims(levels, src_level).contains(id),
{
    let src = at_level(levels, src_level);
    let dst = at_level(levels, src_level + 1);
    let chosen = overlapping(levels, src_level);
    let ids = victims(levels, src_level);
    assert(src == listed(tables, src_level));
    assert(dst == listed(tables, src_level + 1));
    if ids.contains(id) {
        let k = choose|k: int| 0 <= k < ids.len() && ids[k] == id;
        if k < src.len() {
            let j = listed_from(tables, src_level, k);
        } else {
            let c = k - src.len();
            let d = filter_from(
                dst,
                |m: MetaView| overlaps(m, least_key(src), greatest_key(src)),
                c,
            );
            let j = listed_from(tables, src_level + 1, d);
        }
    }
}

/// Where all tables are of level 0, a compaction that writes something is one of
/// level 0, and leaves no other table.
proof fn all_level_zero(
    tables: Seq<TableEntry>,
    levels: Seq<Seq<MetaView>>,
    src_level: int,
    now: u64,
    s: Seq<Entry>,
)
    requires
        tidy(tables, levels),
        0 <= src_level,
        compacts_to(tables, victims(levels, src_level), src_level + 1, now, s),
        s.len() > 0,
        forall|i: int| 0 <= i < tables.len() ==> (#[trigger] tables[i]).0.level == 0,
    ensures
        spared(tables, victims(levels, src_level)).len() == 0,
{
    let ids = victims(levels, src_level);
    map_of_contains(s, s[0].0);
    assert(map_of(s).contains_key(s[0].0));
    let chosen = picked(tables, ids);
    stored_contains(chosen, s[0].0);
    let c = choose|c: int|
        0 <= c < chosen.len() && map_of((#[trigger] chosen[c]).1.entries()).contains_key(s[0].0);
    let v = picked_from(tables, ids, c);
    victim_tables(tables, levels, src_level, v);
    if spared(tables, ids).len() > 0 {
        let j = spared_from(tables, ids, 0);
        victim_tables(tables, levels, src_level, j);
    }
}

/// Placing a table with short bounds keeps the bounds short.
pub proof fn place_keeps_short(tables: Seq<TableEntry>, t: TableEntry)
    requires
        bounds_short(tables),
        t.0.min_key.len() <= MAX_KEY_LEN,
        t.0.max_key.len() <= MAX_KEY_LEN,
    ensures
        bounds_short(place(tables, t)),
{
    level_end_range(tables, t.0.level);
    let at = level_end(tables, t.0.level);
    assert forall|i: int| 0 <= i < place(tables, t).len() implies (#[trigger] place(
        tables,
        t,
    )[i]).0.min_key.len() <= MAX_KEY_LEN && place(tables, t)[i].0.max_key.len() <= MAX_KEY_LEN by {
        if i < at {
            assert(place(tables, t)[i] == tables[i]);
        } else if i > at {
            assert(place(tables, t)[i] == tables[i - 1]);
        }
    }
}

/// Removing tables keeps the bounds short.
pub proof fn spared_keeps_short(tables: Seq<TableEntry>, ids: Seq<u64>)
    requires
        bounds_short(tables),
    ensures
        bounds_short(spared(tables, ids)),
{
    assert forall|i: int| 0 <= i < spared(tables, ids).len() implies (#[trigger] spared(
        tables,
        ids,
    )[i]).0.min_key.len() <= MAX_KEY_LEN && spared(tables, ids)[i].0.max_key.len()
        <= MAX_KEY_LEN by {
        let j = spared_from(tables, ids, i);
        assert(tables[j].0.min_key.len() <= MAX_KEY_LEN);
    }
}

/// The manifest of a tidy list with short bounds fits its fields if only the
/// numbers of its levels and tables do.
pub proof fn tidy_manifest_fits(tables: Seq<TableEntry>, levels: Seq<Seq<MetaView>>)
    requires
        tidy(tables, levels),
        bounds_short(tables),
        counts_fit(levels),
    ensures
        manifest_fits(levels),
{
    assert forall|l: int| 0 <= l < levels.len() implies #[trigger] level_fits(levels[l], l) by {
        assert(at_level(levels, l) == listed(tables, l));
        assert forall|i: int| 0 <= i < levels[l].len() implies meta_fits(#[trigger] levels[l][i])
            && levels[l][i].level == l by {
            let j = listed_from(tables, l, i);
            assert(tables[j].0.min_key.len() <= MAX_KEY_LEN);
        }
    }
}

/// After a compaction none of the merged tables is left, all others are, and the new
/// table is there if one was written.
pub proof fn merged_tables_leave(
    tables: Seq<TableEntry>,
    ids: Seq<u64>,
    output: Option<TableEntry>,
    t: TableEntry,
)
    ensures
        tables_after(tables, ids, output).contains(t) <==> output == Some(t) || (tables.contains(t)
            && !ids.contains(t.0.id)),
{
    let left = spared(tables, ids);
    let after = tables_after(tables, ids, output);
    assert(left.contains(t) <==> tables.contains(t) && !ids.contains(t.0.id)) by {
        if left.contains(t) {
            let i = choose|i: int| 0 <= i < left.len() && left[i] == t;
            let j = spared_from(tables, ids, i);
        }
        if tables.contains(t) && !ids.contains(t.0.id) {
            let j = choose|j: int| 0 <= j < tables.len() && tables[j] == t;
            let i = spared_to(tables, ids, j);
        }
    }
    if let Some(x) = output {
        let at = level_end(left, x.0.level);
        level_end_range(left, x.0.level);
        assert(after == left.insert(at, x));
        if after.contains(t) {
            let k = choose|k: int| 0 <= k < after.len() && after[k] == t;
            if k < at {
                assert(left[k] == t);
            } else if k > at {
                assert(left[k - 1] == t);
            }
        }
        if left.contains(t) {
            let k = choose|k: int| 0 <= k < left.len() && left[k] == t;
            if k < at {
                assert(after[k] == t);
            } else {
                assert(after[k + 1] == t);
            }
        }
        assert(after[at] == x);
    }
}

} // verus!
