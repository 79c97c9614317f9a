//! Lists of key-value entries: their order, and the maps that they spell.

use vstd::prelude::*;

use crate::bytes::{bisect_increasing, bisect_point, bytes_eq, bytes_lt, copy_bytes};

verus! {

/// A key-value entry, as mathematics sees it.
pub type Entry = (Seq<u8>, Seq<u8>);

/// The entries of an executable list.
pub open spec fn pairs(v: Seq<(Vec<u8>, Vec<u8>)>) -> Seq<Entry> {
    Seq::new(v.len(), |i: int| (v[i].0@, v[i].1@))
}

/// The keys increase strictly along the list.
pub open spec fn sorted(s: Seq<Entry>) -> bool {
    forall|i: int, j: int|
        0 <= i < j < s.len() ==> crate::bytes::lex_lt(#[trigger] s[i].0, #[trigger] s[j].0)
}

/// What a list of writes leaves behind: of two entries with one key the later
/// one counts.
pub open spec fn map_of(s: Seq<Entry>) -> Map<Seq<u8>, Seq<u8>>
    decreases s.len(),
{
    if s.len() == 0 {
        Map::empty()
    } else {
        map_of(s.drop_last()).insert(s.last().0, s.last().1)
    }
}

/// `m` with what `n` holds written over it.
pub open spec fn overlay(
    m: Map<Seq<u8>, Seq<u8>>,
    n: Map<Seq<u8>, Seq<u8>>,
) -> Map<Seq<u8>, Seq<u8>> {
    m.union_prefer_right(n)
}

/// What `m` holds for `key`.
pub open spec fn value_of(m: Map<Seq<u8>, Seq<u8>>, key: Seq<u8>) -> Option<Seq<u8>> {
    if m.contains_key(key) {
        Some(m[key])
    } else {
        None
    }
}

/// `key` lies in `[start, end)`.
pub open spec fn in_range(key: Seq<u8>, start: Seq<u8>, end: Seq<u8>) -> bool {
    crate::bytes::lex_le(start, key) && crate::bytes::lex_lt(key, end)
}

/// The entries of `s` whose keys lie in `[start, end)`, in the order of `s`.
pub open spec fn range_of(s: Seq<Entry>, start: Seq<u8>, end: Seq<u8>) -> Seq<Entry> {
    s.filter(|e: Entry| in_range(e.0, start, end))
}

/// The part of a map whose keys lie in `[start, end)`.
pub open spec fn range_map(
    m: Map<Seq<u8>, Seq<u8>>,
    start: Seq<u8>,
    end: Seq<u8>,
) -> Map<Seq<u8>, Seq<u8>> {
    Map::new(|k: Seq<u8>| m.contains_key(k) && in_range(k, start, end), |k: Seq<u8>| m[k])
}

/// An executable list stands for all its entries, each with its key and its value.
pub proof fn pairs_are_whole(v: Seq<(Vec<u8>, Vec<u8>)>, i: int)
    ensures
        pairs(v).len() == v.len(),
        0 <= i < v.len() ==> pairs(v)[i] == (v[i].0@, v[i].1@),
{
}

/// In a sorted list every key comes before every later one, all through the list.
pub proof fn sorted_all_through(s: Seq<Entry>, i: int, j: int)
    requires
        sorted(s),
        0 <= i < j < s.len(),
    ensures
        crate::bytes::lex_lt(s[i].0, s[j].0),
{
}

/// A range of a map or of a list holds the keys from its start on and before its end,
/// and all of them.
pub proof fn range_holds_keys_between(
    m: Map<Seq<u8>, Seq<u8>>,
    s: Seq<Entry>,
    start: Seq<u8>,
    end: Seq<u8>,
    key: Seq<u8>,
)
    ensures
        range_map(m, start, end).contains_key(key) <==> m.contains_key(key) && (start == key
            || crate::bytes::lex_lt(start, key)) && crate::bytes::lex_lt(key, end),
        range_map(m, start, end).contains_key(key) ==> range_map(m, start, end)[key] == m[key],
        range_of(s, start, end) == s.filter(
            |e: Entry|
                (start == e.0 || crate::bytes::lex_lt(start, e.0)) && crate::bytes::lex_lt(e.0, end),
        ),
{
    let a = |e: Entry| in_range(e.0, start, end);
    let b = |e: Entry|
        (start == e.0 || crate::bytes::lex_lt(start, e.0)) && crate::bytes::lex_lt(e.0, end);
    assert(a =~= b);
}

/// Of what is laid over one another the upper counts, and the lower where the upper
/// has nothing.
pub proof fn upper_map_counts(
    m: Map<Seq<u8>, Seq<u8>>,
    n: Map<Seq<u8>, Seq<u8>>,
    key: Seq<u8>,
)
    ensures
        overlay(m, n).contains_key(key) <==> m.contains_key(key) || n.contains_key(key),
        n.contains_key(key) ==> overlay(m, n)[key] == n[key],
        m.contains_key(key) && !n.contains_key(key) ==> overlay(m, n)[key] == m[key],
        value_of(m, key) is Some <==> m.contains_key(key),
        m.contains_key(key) ==> value_of(m, key) == Some(m[key]),
{
}

/// One more write changes its own key and no other.
pub proof fn later_entry_counts(s: Seq<Entry>, e: Entry)
    ensures
        map_of(Seq::empty()) == Map::<Seq<u8>, Seq<u8>>::empty(),
        map_of(s.push(e)) == map_of(s).insert(e.0, e.1),
{
    assert(s.push(e).drop_last() =~= s);
}

/// A key is in the map of a list exactly if some entry has it.
pub proof fn map_of_contains(s: Seq<Entry>, key: Seq<u8>)
    ensures
        map_of(s).contains_key(key) <==> exists|i: int| 0 <= i < s.len() && #[trigger] s[i].0 == key,
    decreases s.len(),
{
    if s.len() > 0 {
        let front = s.drop_last();
        map_of_contains(front, key);
        if map_of(s).contains_key(key) {
            if key == s.last().0 {
                assert(s[s.len() - 1].0 == key);
            } else {
                let i = choose|i: int| 0 <= i < front.len() && #[trigger] front[i].0 == key;
                assert(s[i].0 == key);
            }
        }
        if exists|i: int| 0 <= i < s.len() && #[trigger] s[i].0 == key {
            let i = choose|i: int| 0 <= i < s.len() && #[trigger] s[i].0 == key;
            if i < s.len() - 1 {
                assert(front[i].0 == key);
            }
        }
    }
}

/// Where no later entry has the same key, an entry's value is the map's.
pub proof fn map_of_last(s: Seq<Entry>, i: int)
    requires
        0 <= i < s.len(),
        forall|j: int| i < j < s.len() ==> #[trigger] s[j].0 != s[i].0,
    ensures
        map_of(s).contains_key(s[i].0),
        map_of(s)[s[i].0] == s[i].1,
    decreases s.len(),
{
    if i < s.len() - 1 {
        let front = s.drop_last();
        assert forall|j: int| i < j < front.len() implies #[trigger] front[j].0 != front[i].0 by {
            assert(s[j].0 != s[i].0);
        }
        map_of_last(front, i);
        assert(s[s.len() - 1].0 != s[i].0);
    }
}

/// In a sorted list every entry's value is the map's.
pub proof fn map_of_sorted(s: Seq<Entry>, i: int)
    requires
        sorted(s),
        0 <= i < s.len(),
    ensures
        map_of(s).contains_key(s[i].0),
        map_of(s)[s[i].0] == s[i].1,
{
    assert forall|j: int| i < j < s.len() implies #[trigger] s[j].0 != s[i].0 by {
        crate::bytes::lex_lt_asymmetric(s[i].0, s[j].0);
    }
    map_of_last(s, i);
}

/// Writing one list after another lays the second map over the first.
pub proof fn map_of_append(a: Seq<Entry>, b: Seq<Entry>)
    ensures
        map_of(a + b) == overlay(map_of(a), map_of(b)),
    decreases b.len(),
{
    if b.len() == 0 {
        assert(a + b =~= a);
        assert(overlay(map_of(a), map_of(b)) =~= map_of(a));
    } else {
        map_of_append(a, b.drop_last());
        assert((a + b).drop_last() =~= a + b.drop_last());
        assert(overlay(map_of(a), map_of(b)) =~= overlay(map_of(a), map_of(b.drop_last())).insert(
            b.last().0,
            b.last().1,
        ));
    }
}

/// Giving an entry of a sorted list another value.
pub proof fn sorted_update(s: Seq<Entry>, i: int, value: Seq<u8>)
    requires
        sorted(s),
        0 <= i < s.len(),
    ensures
        sorted(s.update(i, (s[i].0, value))),
        map_of(s.update(i, (s[i].0, value))) == map_of(s).insert(s[i].0, value),
{
    let t = s.update(i, (s[i].0, value));
    let m = map_of(s).insert(s[i].0, value);
    assert forall|a: int, b: int| 0 <= a < b < t.len() implies crate::bytes::lex_lt(
        #[trigger] t[a].0,
        #[trigger] t[b].0,
    ) by {
        assert(crate::bytes::lex_lt(s[a].0, s[b].0));
    }
    assert forall|k: Seq<u8>| map_of(t).contains_key(k) <==> m.contains_key(k) by {
        map_of_contains(s, k);
        map_of_contains(t, k);
        if map_of(t).contains_key(k) {
            let j = choose|j: int| 0 <= j < t.len() && #[trigger] t[j].0 == k;
            assert(s[j].0 == k);
        }
        if m.contains_key(k) {
            if k == s[i].0 {
                assert(t[i].0 == k);
            } else {
                let j = choose|j: int| 0 <= j < s.len() && #[trigger] s[j].0 == k;
                assert(t[j].0 == k);
            }
        }
    }
    assert forall|k: Seq<u8>| #[trigger] map_of(t).contains_key(k) implies map_of(t)[k] == m[k] by {
        map_of_contains(t, k);
        let j = choose|j: int| 0 <= j < t.len() && #[trigger] t[j].0 == k;
        map_of_sorted(t, j);
        map_of_sorted(s, j);
        if j < i {
            crate::bytes::lex_lt_asymmetric(s[j].0, s[i].0);
        } else if j > i {
            crate::bytes::lex_lt_asymmetric(s[i].0, s[j].0);
        }
    }
    assert(map_of(t) =~= m);
}

/// Putting a new entry at its place in a sorted list.
pub proof fn sorted_insert(s: Seq<Entry>, at: int, e: Entry)
    requires
        sorted(s),
        0 <= at <= s.len(),
        forall|i: int| 0 <= i < at ==> crate::bytes::lex_lt(#[trigger] s[i].0, e.0),
        forall|i: int| at <= i < s.len() ==> crate::bytes::lex_lt(e.0, #[trigger] s[i].0),
    ensures
        sorted(s.insert(at, e)),
        map_of(s.insert(at, e)) == map_of(s).insert(e.0, e.1),
{
    let t = s.insert(at, e);
    let m = map_of(s).insert(e.0, e.1);
    assert forall|j: int| 0 <= j < at implies t[j] == s[j] by {}
    assert forall|j: int| at < j < t.len() implies t[j] == s[j - 1] by {}
    assert(t[at] == e);
    assert forall|a: int, b: int| 0 <= a < b < t.len() implies crate::bytes::lex_lt(
        #[trigger] t[a].0,
        #[trigger] t[b].0,
    ) by {
        let a0 = if a < at {
            a
        } else {
            a - 1
        };
        let b0 = if b < at {
            b
        } else {
            b - 1
        };
        if a != at && b != at {
            assert(crate::bytes::lex_lt(s[a0].0, s[b0].0));
        } else if a == at {
            assert(crate::bytes::lex_lt(e.0, s[b0].0));
        } else {
            assert(crate::bytes::lex_lt(s[a0].0, e.0));
        }
    }
    assert forall|k: Seq<u8>| map_of(t).contains_key(k) <==> m.contains_key(k) by {
        map_of_contains(s, k);
        map_of_contains(t, k);
        if map_of(t).contains_key(k) {
            let j = choose|j: int| 0 <= j < t.len() && #[trigger] t[j].0 == k;
            if j < at {
                assert(s[j].0 == k);
            } else if j > at {
                assert(s[j - 1].0 == k);
            }
        }
        if m.contains_key(k) {
            if k == e.0 {
                assert(t[at].0 == k);
            } else {
                let j = choose|j: int| 0 <= j < s.len() && #[trigger] s[j].0 == k;
                if j < at {
                    assert(t[j].0 == k);
                } else {
                    assert(t[j + 1].0 == k);
                }
            }
        }
    }
    assert forall|k: Seq<u8>| #[trigger] map_of(t).contains_key(k) implies map_of(t)[k] == m[k] by {
        map_of_contains(t, k);
        let j = choose|j: int| 0 <= j < t.len() && #[trigger] t[j].0 == k;
        map_of_sorted(t, j);
        if j < at {
            map_of_sorted(s, j);
            assert(crate::bytes::lex_lt(s[j].0, e.0));
            crate::bytes::lex_lt_asymmetric(s[j].0, e.0);
        } else if j > at {
            map_of_sorted(s, j - 1);
            assert(crate::bytes::lex_lt(e.0, s[j - 1].0));
            crate::bytes::lex_lt_asymmetric(e.0, s[j - 1].0);
        }
    }
    assert(map_of(t) =~= m);
}

/// A sorted list is the only sorted list of its map.
pub proof fn sorted_unique(a: Seq<Entry>, b: Seq<Entry>)
    requires
        sorted(a),
        sorted(b),
        map_of(a) == map_of(b),
    ensures
        a == b,
    decreases a.len(),
{
    if a.len() == 0 {
        if b.len() > 0 {
            map_of_sorted(b, 0);
        }
        assert(a =~= b);
    } else {
        map_of_sorted(a, a.len() - 1);
        map_of_contains(b, a.last().0);
        let j = choose|j: int| 0 <= j < b.len() && #[trigger] b[j].0 == a.last().0;
        map_of_sorted(b, b.len() - 1);
        map_of_contains(a, b.last().0);
        let i = choose|i: int| 0 <= i < a.len() && #[trigger] a[i].0 == b.last().0;
        if j < b.len() - 1 {
            assert(crate::bytes::lex_lt(b[j].0, b[b.len() - 1].0));
            if i < a.len() - 1 {
                assert(crate::bytes::lex_lt(a[i].0, a[a.len() - 1].0));
            }
            crate::bytes::lex_lt_asymmetric(b[j].0, b[b.len() - 1].0);
        }
        assert(a.last() == b.last());
        let a2 = a.drop_last();
        let b2 = b.drop_last();
        assert(map_of(a2) =~= map_of(b2)) by {
            assert forall|k: Seq<u8>| map_of(a2).contains_key(k) <==> map_of(b2).contains_key(
                k,
            ) by {
                last_key_not_before(a, k);
                last_key_not_before(b, k);
            }
            assert forall|k: Seq<u8>| #[trigger]
                map_of(a2).contains_key(k) implies map_of(a2)[k] == map_of(b2)[k] by {
                last_key_not_before(a, k);
                assert(map_of(a)[k] == map_of(a2)[k]);
                assert(map_of(b)[k] == map_of(b2)[k]);
            }
        }
        sorted_unique(a2, b2);
        assert(a =~= a2.push(a.last()));
        assert(b =~= b2.push(b.last()));
    }
}

/// The last key of a sorted list does not occur before.
proof fn last_key_not_before(s: Seq<Entry>, k: Seq<u8>)
    requires
        sorted(s),
        s.len() > 0,
    ensures
        map_of(s.drop_last()).contains_key(k) ==> k != s.last().0,
        map_of(s).contains_key(k) <==> map_of(s.drop_last()).contains_key(k) || k == s.last().0,
{
    let front = s.drop_last();
    map_of_contains(front, k);
    if map_of(front).contains_key(k) {
        let i = choose|i: int| 0 <= i < front.len() && #[trigger] front[i].0 == k;
        assert(crate::bytes::lex_lt(s[i].0, s[s.len() - 1].0));
        crate::bytes::lex_lt_asymmetric(s[i].0, s[s.len() - 1].0);
    }
}

/// In a sorted list the entries of a key range stand side by side.
pub proof fn range_of_sorted(s: Seq<Entry>, start: Seq<u8>, end: Seq<u8>, lo: int, hi: int)
    requires
        sorted(s),
        0 <= lo <= hi <= s.len(),
        forall|i: int| 0 <= i < lo ==> crate::bytes::lex_lt(#[trigger] s[i].0, start),
        forall|i: int| lo <= i < s.len() ==> crate::bytes::lex_le(start, #[trigger] s[i].0),
        forall|i: int| 0 <= i < hi && i >= lo ==> crate::bytes::lex_lt(#[trigger] s[i].0, end),
        forall|i: int| hi <= i < s.len() ==> !crate::bytes::lex_lt(#[trigger] s[i].0, end),
    ensures
        range_of(s, start, end) == s.subrange(lo, hi),
    decreases s.len(),
{
    reveal_with_fuel(Seq::filter, 1);
    let pred = |e: Entry| in_range(e.0, start, end);
    if s.len() == 0 {
        assert(s.subrange(lo, hi) =~= s.filter(pred));
    } else {
        let front = s.drop_last();
        let n = s.len() - 1;
        let lo2 = if lo > n {
            n
        } else {
            lo
        };
        let hi2 = if hi > n {
            n
        } else {
            hi
        };
        assert forall|i: int, j: int| 0 <= i < j < front.len() implies crate::bytes::lex_lt(
            #[trigger] front[i].0,
            #[trigger] front[j].0,
        ) by {
            assert(crate::bytes::lex_lt(s[i].0, s[j].0));
        }
        assert forall|i: int| 0 <= i < lo2 implies crate::bytes::lex_lt(
            #[trigger] front[i].0,
            start,
        ) by {
            assert(crate::bytes::lex_lt(s[i].0, start));
        }
        assert forall|i: int| lo2 <= i < front.len() implies crate::bytes::lex_le(
            start,
            #[trigger] front[i].0,
        ) by {
            assert(crate::bytes::lex_le(start, s[i].0));
        }
        assert forall|i: int| 0 <= i < hi2 && i >= lo2 implies crate::bytes::lex_lt(
            #[trigger] front[i].0,
            end,
        ) by {
            assert(crate::bytes::lex_lt(s[i].0, end));
        }
        assert forall|i: int| hi2 <= i < front.len() implies !crate::bytes::lex_lt(
            #[trigger] front[i].0,
            end,
        ) by {
            assert(!crate::bytes::lex_lt(s[i].0, end));
        }
        range_of_sorted(front, start, end, lo2, hi2);
        assert(range_of(front, start, end) == front.filter(pred));
        if lo <= n && n < hi {
            assert(crate::bytes::lex_le(start, s[n].0));
            assert(crate::bytes::lex_lt(s[n].0, end));
            assert(pred(s.last()));
            assert(s.subrange(lo, hi) =~= front.subrange(lo2, hi2).push(s.last()));
        } else {
            if n < lo {
                assert(crate::bytes::lex_lt(s[n].0, start));
                crate::bytes::lex_lt_asymmetric(s[n].0, start);
            } else {
                assert(!crate::bytes::lex_lt(s[n].0, end));
            }
            assert(!pred(s.last()));
            assert(s.subrange(lo, hi) =~= front.subrange(lo2, hi2));
        }
    }
}

/// How many entries stand before the first one whose key is not before `bound`.
pub open spec fn count_below(s: Seq<Entry>, bound: Seq<u8>) -> int
    decreases s.len(),
{
    if s.len() == 0 {
        0
    } else if crate::bytes::lex_lt(s.last().0, bound) {
        s.len() as int
    } else {
        count_below(s.drop_last(), bound)
    }
}

/// In a sorted list exactly the counted entries are before the bound.
pub proof fn count_below_sorted(s: Seq<Entry>, bound: Seq<u8>)
    requires
        sorted(s),
    ensures
        0 <= count_below(s, bound) <= s.len(),
        forall|i: int|
            0 <= i < count_below(s, bound) ==> crate::bytes::lex_lt(#[trigger] s[i].0, bound),
        forall|i: int|
            count_below(s, bound) <= i < s.len() ==> !crate::bytes::lex_lt(
                #[trigger] s[i].0,
                bound,
            ),
    decreases s.len(),
{
    if s.len() > 0 {
        if crate::bytes::lex_lt(s.last().0, bound) {
            assert forall|i: int| 0 <= i < s.len() implies crate::bytes::lex_lt(
                #[trigger] s[i].0,
                bound,
            ) by {
                if i < s.len() - 1 {
                    crate::bytes::lex_lt_transitive(s[i].0, s[s.len() - 1].0, bound);
                }
            }
        } else {
            let front = s.drop_last();
            assert forall|i: int, j: int| 0 <= i < j < front.len() implies crate::bytes::lex_lt(
                #[trigger] front[i].0,
                #[trigger] front[j].0,
            ) by {
                assert(crate::bytes::lex_lt(s[i].0, s[j].0));
            }
            count_below_sorted(front, bound);
            let n = count_below(front, bound);
            assert forall|i: int| 0 <= i < n implies crate::bytes::lex_lt(
                #[trigger] s[i].0,
                bound,
            ) by {
                assert(crate::bytes::lex_lt(front[i].0, bound));
            }
            assert forall|i: int| n <= i < s.len() implies !crate::bytes::lex_lt(
                #[trigger] s[i].0,
                bound,
            ) by {
                if i < front.len() {
                    assert(!crate::bytes::lex_lt(front[i].0, bound));
                }
            }
        }
    }
}

/// The entries of a key range spell the map's part in that range.
pub proof fn range_of_map(s: Seq<Entry>, start: Seq<u8>, end: Seq<u8>)
    ensures
        map_of(range_of(s, start, end)) == range_map(map_of(s), start, end),
    decreases s.len(),
{
    reveal_with_fuel(Seq::filter, 1);
    let pred = |e: Entry| in_range(e.0, start, end);
    if s.len() == 0 {
        assert(range_of(s, start, end) =~= s);
        assert(map_of(s) =~= range_map(map_of(s), start, end));
    } else {
        let front = s.drop_last();
        range_of_map(front, start, end);
        assert(range_of(front, start, end) == front.filter(pred));
        if pred(s.last()) {
            let r = range_of(s, start, end);
            assert(r == front.filter(pred).push(s.last()));
            assert(r.drop_last() =~= front.filter(pred));
            assert(map_of(r) =~= range_map(map_of(s), start, end));
        } else {
            assert(range_map(map_of(front), start, end) =~= range_map(map_of(s), start, end));
        }
    }
}

/// Copy an entry.
pub fn copy_entry(e: &(Vec<u8>, Vec<u8>)) -> (r: (Vec<u8>, Vec<u8>))
    ensures
        r.0@ == e.0@,
        r.1@ == e.1@,
{
    (copy_bytes(e.0.as_slice()), copy_bytes(e.1.as_slice()))
}

/// Appending one entry to an executable list.
pub proof fn pairs_push(v: Seq<(Vec<u8>, Vec<u8>)>, e: (Vec<u8>, Vec<u8>))
    ensures
        pairs(v.push(e)) == pairs(v).push((e.0@, e.1@)),
{
    assert(pairs(v.push(e)) =~= pairs(v).push((e.0@, e.1@)));
}

/// The keys of a list of entries.
pub open spec fn keys_of(s: Seq<Entry>) -> Seq<Seq<u8>> {
    Seq::new(s.len(), |i: int| s[i].0)
}

/// Where bisection finds a key in a list of entries, if it does.
pub open spec fn place_of(s: Seq<Entry>, key: Seq<u8>) -> Option<int> {
    let i = bisect_point(keys_of(s), key, 0, s.len() as int);
    if i < s.len() && s[i].0 == key {
        Some(i)
    } else {
        None
    }
}

/// The value that bisection finds for a key in a list of entries.
pub open spec fn found_in(s: Seq<Entry>, key: Seq<u8>) -> Option<Seq<u8>> {
    match place_of(s, key) {
        Some(i) => Some(s[i].1),
        None => None,
    }
}

/// In a sorted list bisection finds exactly what the list holds for a key.
pub proof fn found_in_sorted(s: Seq<Entry>, key: Seq<u8>)
    requires
        sorted(s),
    ensures
        found_in(s, key) == value_of(map_of(s), key),
{
    let keys = keys_of(s);
    assert forall|i: int, j: int| 0 <= i < j < keys.len() implies crate::bytes::lex_lt(
        #[trigger] keys[i],
        #[trigger] keys[j],
    ) by {
        assert(crate::bytes::lex_lt(s[i].0, s[j].0));
    }
    bisect_increasing(keys, key, 0, s.len() as int);
    let p = bisect_point(keys, key, 0, s.len() as int);
    map_of_contains(s, key);
    if p < s.len() && s[p].0 == key {
        map_of_sorted(s, p);
    } else if map_of(s).contains_key(key) {
        let i = choose|i: int| 0 <= i < s.len() && #[trigger] s[i].0 == key;
        crate::bytes::lex_lt_irreflexive(key);
        assert(keys[i] == key);
        assert(p <= i);
        if p < i {
            assert(crate::bytes::lex_lt(keys[p], keys[i]));
        }
    }
}

/// Look up `key` in a list by bisection: its place, or nothing.
pub fn bisect(list: &Vec<(Vec<u8>, Vec<u8>)>, key: &[u8]) -> (r: Option<usize>)
    ensures
        match (r, place_of(pairs(list@), key@)) {
            (Some(i), Some(p)) => i == p && i < list@.len(),
            (None, None) => true,
            _ => false,
        },
{
    let ghost keys = keys_of(pairs(list@));
    let mut lo: usize = 0;
    let mut hi: usize = list.len();
    while lo < hi
        invariant
            lo <= hi <= list@.len(),
            keys == keys_of(pairs(list@)),
            bisect_point(keys, key@, 0, list@.len() as int) == bisect_point(
                keys,
                key@,
                lo as int,
                hi as int,
            ),
        decreases hi - lo,
    {
        let mid = lo + (hi - lo) / 2;
        assert(keys[mid as int] == list@[mid as int].0@);
        if bytes_lt(list[mid].0.as_slice(), key) {
            lo = mid + 1;
        } else {
            hi = mid;
        }
    }
    if lo < list.len() && bytes_eq(list[lo].0.as_slice(), key) {
        Some(lo)
    } else {
        None
    }
}

} // verus!
