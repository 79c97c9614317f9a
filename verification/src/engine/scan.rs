//! Range and prefix scans over the memtable and the tables.

use vstd::prelude::*;

use crate::bytes::{bytes_le, bytes_lt, copy_bytes, copy_range, lex_le, lex_lt, lex_lt_irreflexive};
use crate::engine::tables::{stored, Tables};
use crate::engine::value::{shown, unpack_value};
use crate::entries::{map_of, overlay, pairs, pairs_push, range_map, sorted};
use crate::memtable::memtable::{MemTable, MAX_LEVEL};
use crate::memtable::skiplist::SkipList;

verus! {

/// Whether `start <= key`, and `key < end` where there is an end.
pub open spec fn in_bounds(key: Seq<u8>, start: Seq<u8>, end: Option<Seq<u8>>) -> bool {
    lex_le(start, key) && match end {
        Some(end) => lex_lt(key, end),
        None => true,
    }
}

/// The part of a map whose keys lie in the bounds.
pub open spec fn bounded_map(
    m: Map<Seq<u8>, Seq<u8>>,
    start: Seq<u8>,
    end: Option<Seq<u8>>,
) -> Map<Seq<u8>, Seq<u8>> {
    Map::new(|k: Seq<u8>| m.contains_key(k) && in_bounds(k, start, end), |k: Seq<u8>| m[k])
}

/// What a reader sees of stored values at the time `now`: the keys that show
/// something, with what they show.
pub open spec fn visible(m: Map<Seq<u8>, Seq<u8>>, now: u64) -> Map<Seq<u8>, Seq<u8>> {
    Map::new(
        |k: Seq<u8>| m.contains_key(k) && shown(m[k], now) is Some,
        |k: Seq<u8>| shown(m[k], now)->Some_0,
    )
}

/// Whether a key starts with a prefix.
pub open spec fn has_prefix(key: Seq<u8>, prefix: Seq<u8>) -> bool {
    prefix.len() <= key.len() && key.take(prefix.len() as int) == prefix
}

/// The part of a map whose keys start with a prefix.
pub open spec fn prefix_map(m: Map<Seq<u8>, Seq<u8>>, prefix: Seq<u8>) -> Map<Seq<u8>, Seq<u8>> {
    Map::new(|k: Seq<u8>| m.contains_key(k) && has_prefix(k, prefix), |k: Seq<u8>| m[k])
}

/// The first key behind all keys that start with a prefix, if there is one: the
/// prefix up to its last byte that is not 0xFF, with that byte one higher.
pub open spec fn prefix_end(prefix: Seq<u8>) -> Option<Seq<u8>>
    decreases prefix.len(),
{
    if prefix.len() == 0 {
        None
    } else if prefix.last() < 0xff {
        Some(prefix.drop_last().push((prefix.last() + 1) as u8))
    } else {
        prefix_end(prefix.drop_last())
    }
}

/// The keys that start with a prefix are exactly those between the prefix and
/// its end.
pub proof fn prefix_is_range(key: Seq<u8>, prefix: Seq<u8>)
    ensures
        has_prefix(key, prefix) <==> in_bounds(key, prefix, prefix_end(prefix)),
    decreases prefix.len(),
{
    if prefix.len() == 0 {
        assert(key.take(0) =~= prefix);
        if key.len() == 0 {
            assert(key =~= prefix);
        }
    } else if key.len() == 0 {
        assert(key != prefix);
    } else {
        let p = prefix.drop_first();
        let k = key.drop_first();
        prefix_is_range(k, p);
        assert(has_prefix(key, prefix) <==> key[0] == prefix[0] && has_prefix(k, p)) by {
            if has_prefix(key, prefix) {
                assert(key.take(prefix.len() as int)[0] == prefix[0]);
                assert(k.take(p.len() as int) =~= key.take(prefix.len() as int).drop_first());
            }
            if key[0] == prefix[0] && has_prefix(k, p) {
                assert(key.take(prefix.len() as int) =~= seq![key[0]] + k.take(p.len() as int));
                assert(prefix =~= seq![prefix[0]] + p);
            }
        }
        first_byte_le(prefix, key);
        prefix_end_first(prefix);
        match prefix_end(p) {
            Some(e) => {
                let end = seq![prefix[0]] + e;
                assert(prefix_end(prefix) == Some(end));
                assert(end.drop_first() =~= e);
                assert(lex_lt(key, end) <==> key[0] < prefix[0] || (key[0] == prefix[0] && lex_lt(
                    k,
                    e,
                )));
            },
            None => {
                if prefix[0] < 0xff {
                    let end = seq![(prefix[0] + 1) as u8];
                    assert(prefix_end(prefix) == Some(end));
                    assert(end.drop_first() =~= Seq::empty());
                    assert(!lex_lt(k, end.drop_first()));
                    assert(end[0] == prefix[0] + 1);
                    assert(lex_lt(key, end) <==> key[0] < prefix[0] + 1);
                }
            },
        }
    }
}

/// How the order of two keys follows from their first bytes.
proof fn first_byte_le(a: Seq<u8>, b: Seq<u8>)
    requires
        a.len() > 0,
        b.len() > 0,
    ensures
        lex_le(a, b) <==> a[0] < b[0] || (a[0] == b[0] && lex_le(a.drop_first(), b.drop_first())),
{
    if a == b {
        assert(a.drop_first() == b.drop_first());
    } else if a[0] == b[0] && a.drop_first() == b.drop_first() {
        assert(a =~= seq![a[0]] + a.drop_first());
        assert(b =~= seq![b[0]] + b.drop_first());
    }
}

/// The end of a prefix by its first byte and the rest.
proof fn prefix_end_first(prefix: Seq<u8>)
    requires
        prefix.len() > 0,
    ensures
        prefix_end(prefix) == match prefix_end(prefix.drop_first()) {
            Some(e) => Some(seq![prefix[0]] + e),
            None => if prefix[0] < 0xff {
                Some(seq![(prefix[0] + 1) as u8])
            } else {
                None
            },
        },
    decreases prefix.len(),
{
    let rest = prefix.drop_first();
    if prefix.len() == 1 {
        assert(prefix.drop_last() =~= Seq::empty());
        assert(rest =~= Seq::empty());
        if prefix[0] < 0xff {
            assert(prefix.drop_last().push((prefix[0] + 1) as u8) =~= seq![(prefix[0] + 1) as u8]);
        }
    } else {
        assert(rest.last() == prefix.last());
        assert(rest.drop_last() =~= prefix.drop_last().drop_first());
        if prefix.last() < 0xff {
            let b = (prefix.last() + 1) as u8;
            assert(prefix.drop_last().push(b) =~= seq![prefix[0]] + rest.drop_last().push(b));
        } else {
            prefix_end_first(prefix.drop_last());
        }
    }
}

/// The first key behind all keys that start with `prefix`, if there is one.
pub fn next_key(prefix: &[u8]) -> (r: Option<Vec<u8>>)
    ensures
        match (r, prefix_end(prefix@)) {
            (Some(a), Some(b)) => a@ == b,
            (None, None) => true,
            _ => false,
        },
{
    let mut n: usize = prefix.len();
    assert(prefix@.take(n as int) =~= prefix@);
    while n > 0
        invariant
            n <= prefix@.len(),
            prefix_end(prefix@) == prefix_end(prefix@.take(n as int)),
        decreases n,
    {
        let ghost upto = prefix@.take(n as int);
        assert(upto.drop_last() =~= prefix@.take(n - 1));
        let last = prefix[n - 1];
        if last < 0xff {
            let mut next = copy_range(prefix, 0, n - 1);
            next.push(last + 1);
            assert(next@ =~= upto.drop_last().push((last + 1) as u8));
            return Some(next);
        }
        n = n - 1;
    }
    assert(prefix@.take(0) =~= Seq::empty());
    None
}

/// The view of an optional end.
pub open spec fn end_view(end: Option<&[u8]>) -> Option<Seq<u8>> {
    match end {
        Some(e) => Some(e@),
        None => None,
    }
}

/// A scan goes from its start on and ends before its end, if it has one.
pub proof fn bounds_are_kept(
    m: Map<Seq<u8>, Seq<u8>>,
    start: Seq<u8>,
    end: Seq<u8>,
    key: Seq<u8>,
)
    ensures
        in_bounds(key, start, Some(end)) <==> (start == key || crate::bytes::lex_lt(start, key))
            && crate::bytes::lex_lt(key, end),
        in_bounds(key, start, None) <==> start == key || crate::bytes::lex_lt(start, key),
        bounded_map(m, start, Some(end)).contains_key(key) <==> m.contains_key(key) && in_bounds(
            key,
            start,
            Some(end),
        ),
        bounded_map(m, start, None).contains_key(key) <==> m.contains_key(key) && in_bounds(
            key,
            start,
            None,
        ),
        bounded_map(m, start, Some(end)).contains_key(key) ==> bounded_map(m, start, Some(end))[key]
            == m[key],
        bounded_map(m, start, None).contains_key(key) ==> bounded_map(m, start, None)[key]
            == m[key],
{
}

/// Whether a key lies in the bounds.
fn within(key: &[u8], start: &[u8], end: Option<&[u8]>) -> (r: bool)
    ensures
        r == in_bounds(key@, start@, end_view(end)),
{
    if !bytes_le(start, key) {
        return false;
    }
    match end {
        Some(e) => bytes_lt(key, e),
        None => true,
    }
}

/// Write the entries that lie in the bounds to a list, in order.
fn insert_within(
    list: &mut SkipList,
    entries: &Vec<(Vec<u8>, Vec<u8>)>,
    start: &[u8],
    end: Option<&[u8]>,
)
    requires
        old(list).wf(),
    ensures
        final(list).wf(),
        final(list)@ == overlay(
            old(list)@,
            bounded_map(map_of(pairs(entries@)), start@, end_view(end)),
        ),
{
    let ghost s = pairs(entries@);
    let ghost before = list@;
    let ghost last = end_view(end);
    let mut i: usize = 0;
    assert(s.take(0) =~= Seq::empty());
    assert(overlay(before, bounded_map(map_of(s.take(0)), start@, last)) =~= before);
    while i < entries.len()
        invariant
            i <= entries@.len(),
            s == pairs(entries@),
            last == end_view(end),
            list.wf(),
            list@ == overlay(before, bounded_map(map_of(s.take(i as int)), start@, last)),
        decreases entries@.len() - i,
    {
        let ghost upto = s.take(i + 1);
        proof {
            assert(upto.drop_last() =~= s.take(i as int));
            assert(upto.last() == s[i as int]);
        }
        if within(entries[i].0.as_slice(), start, end) {
            list.insert(entries[i].0.as_slice(), entries[i].1.as_slice());
        }
        assert(list@ =~= overlay(before, bounded_map(map_of(upto), start@, last)));
        i = i + 1;
    }
    assert(s.take(i as int) =~= s);
}

/// All stored values whose keys lie in the bounds.
fn gather(tables: &Tables, memtable: &MemTable, start: &[u8], end: Option<&[u8]>) -> (r: SkipList)
    requires
        memtable.wf(),
    ensures
        r.wf(),
        r@ == bounded_map(overlay(stored(tables@), memtable@), start@, end_view(end)),
{
    let ghost all = tables@;
    let ghost last = end_view(end);
    let mut merged = SkipList::new(MAX_LEVEL);
    let mut i: usize = 0;
    assert(all.take(0) =~= Seq::empty());
    assert(merged@ =~= bounded_map(stored(all.take(0)), start@, last));
    while i < tables.list.len()
        invariant
            i <= tables.list@.len(),
            all == tables@,
            last == end_view(end),
            merged.wf(),
            merged@ == bounded_map(stored(all.take(i as int)), start@, last),
        decreases tables.list@.len() - i,
    {
        let ghost upto = all.take(i + 1);
        proof {
            assert(upto.drop_last() =~= all.take(i as int));
            assert(upto.last() == all[i as int]);
        }
        let entries = tables.list[i].reader.iter().collect();
        insert_within(&mut merged, &entries, start, end);
        assert(merged@ =~= bounded_map(stored(upto), start@, last));
        i = i + 1;
    }
    assert(all.take(i as int) =~= all);
    let recent = match end {
        Some(e) => memtable.scan(start, e),
        None => memtable.entries(),
    };
    insert_within(&mut merged, &recent, start, end);
    proof {
        let m = map_of(pairs(recent@));
        assert(bounded_map(m, start@, last) =~= bounded_map(memtable@, start@, last)) by {
            if end is Some {
                assert(m == range_map(memtable@, start@, end->Some_0@));
            }
        }
        assert(merged@ =~= bounded_map(overlay(stored(all), memtable@), start@, last));
    }
    merged
}

/// The key-value pairs in the bounds that a reader sees at the time `now`, in
/// key order.
pub fn scan_bounds(
    tables: &Tables,
    memtable: &MemTable,
    start: &[u8],
    end: Option<&[u8]>,
    now: u64,
) -> (r: Vec<(Vec<u8>, Vec<u8>)>)
    requires
        memtable.wf(),
    ensures
        sorted(pairs(r@)),
        map_of(pairs(r@)) == bounded_map(
            visible(overlay(stored(tables@), memtable@), now),
            start@,
            end_view(end),
        ),
{
    let merged = gather(tables, memtable, start, end);
    proof {
        merged.entries_sorted();
    }
    let entries = merged.iter().collect();
    let ghost s = pairs(entries@);
    let mut out: Vec<(Vec<u8>, Vec<u8>)> = Vec::new();
    let mut i: usize = 0;
    assert(s.take(0) =~= Seq::empty());
    assert(pairs(out@) =~= Seq::empty());
    assert(map_of(pairs(out@)) =~= visible(map_of(s.take(0)), now));
    while i < entries.len()
        invariant
            i <= entries@.len(),
            s == pairs(entries@),
            sorted(s),
            sorted(pairs(out@)),
            i < s.len() ==> forall|j: int|
                0 <= j < out@.len() ==> lex_lt(#[trigger] pairs(out@)[j].0, s[i as int].0),
            map_of(pairs(out@)) == visible(map_of(s.take(i as int)), now),
        decreases entries@.len() - i,
    {
        let ghost upto = s.take(i + 1);
        let ghost front = s.take(i as int);
        let ghost e = s[i as int];
        let ghost got = pairs(out@);
        proof {
            assert(upto.drop_last() =~= front);
            assert(upto.last() == e);
        }
        if let Some(v) = unpack_value(entries[i].1.as_slice(), now) {
            let key = copy_bytes(entries[i].0.as_slice());
            proof {
                pairs_push(out@, (key, v));
                assert(got.push((e.0, v@)).drop_last() =~= got);
            }
            out.push((key, v));
            assert(map_of(pairs(out@)) =~= visible(map_of(upto), now));
        } else {
            proof {
                crate::entries::map_of_contains(front, e.0);
                if map_of(front).contains_key(e.0) {
                    let j = choose|j: int| 0 <= j < front.len() && #[trigger] front[j].0 == e.0;
                    assert(lex_lt(s[j].0, s[i as int].0));
                    lex_lt_irreflexive(e.0);
                }
                assert(visible(map_of(upto), now) =~= visible(map_of(front), now));
            }
        }
        proof {
            if i + 1 < s.len() {
                assert(lex_lt(s[i as int].0, s[i + 1].0));
                assert forall|j: int| 0 <= j < out@.len() implies lex_lt(
                    #[trigger] pairs(out@)[j].0,
                    s[i + 1].0,
                ) by {
                    if j < got.len() {
                        assert(pairs(out@)[j] == got[j]);
                        crate::bytes::lex_lt_transitive(got[j].0, s[i as int].0, s[i + 1].0);
                    }
                }
            }
            assert forall|a: int, b: int| 0 <= a < b < pairs(out@).len() implies lex_lt(
                #[trigger] pairs(out@)[a].0,
                #[trigger] pairs(out@)[b].0,
            ) by {
                if b < got.len() {
                    assert(lex_lt(got[a].0, got[b].0));
                }
            }
        }
        i = i + 1;
    }
    proof {
        assert(s.take(i as int) =~= s);
        assert(map_of(pairs(out@)) =~= bounded_map(
            visible(overlay(stored(tables@), memtable@), now),
            start@,
            end_view(end),
        ));
    }
    out
}

} // verus!
