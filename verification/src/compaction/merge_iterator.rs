//! Multi-way merge iterator: merges several sorted lists into a single sorted
//! stream.

use vstd::prelude::*;

use crate::bytes::{bytes_lt, lex_le, lex_lt, lex_lt_asymmetric, lex_lt_irreflexive, lex_lt_total};
use crate::bytes::lex_lt_transitive;
use crate::entries::{copy_entry, pairs, pairs_push, Entry};

verus! {

/// The keys do not decrease along the list.
pub open spec fn ascending(s: Seq<Entry>) -> bool {
    forall|i: int, j: int| 0 <= i < j < s.len() ==> lex_le(#[trigger] s[i].0, #[trigger] s[j].0)
}

/// The source whose next entry comes first: it has the least key, and of several
/// sources with that key it stands first.
pub open spec fn is_least(rests: Seq<Seq<Entry>>, i: int) -> bool {
    &&& 0 <= i < rests.len()
    &&& rests[i].len() > 0
    &&& forall|j: int|
        0 <= j < rests.len() && (#[trigger] rests[j]).len() > 0 ==> lex_lt(
            rests[i][0].0,
            rests[j][0].0,
        ) || (rests[i][0].0 == rests[j][0].0 && i <= j)
}

/// The lists once the first entry of source `i` is taken.
pub open spec fn advance(rests: Seq<Seq<Entry>>, i: int) -> Seq<Seq<Entry>> {
    rests.update(i, rests[i].drop_first())
}

/// How many entries the lists hold.
pub open spec fn total_len(rests: Seq<Seq<Entry>>) -> nat
    decreases rests.len(),
{
    if rests.len() == 0 {
        0
    } else {
        total_len(rests.drop_last()) + rests.last().len()
    }
}

/// All entries of the lists, in the order in which they are merged.
pub open spec fn merged(rests: Seq<Seq<Entry>>) -> Seq<Entry>
    decreases total_len(rests),
    via merged_decreases
{
    if exists|i: int| is_least(rests, i) {
        let i = choose|i: int| is_least(rests, i);
        seq![rests[i][0]] + merged(advance(rests, i))
    } else {
        Seq::empty()
    }
}

#[via_fn]
proof fn merged_decreases(rests: Seq<Seq<Entry>>) {
    if exists|i: int| is_least(rests, i) {
        let i = choose|i: int| is_least(rests, i);
        total_len_update(rests, i, rests[i].drop_first());
    }
}

/// Replacing one list changes the total by the difference of the lengths.
proof fn total_len_update(rests: Seq<Seq<Entry>>, i: int, s: Seq<Entry>)
    requires
        0 <= i < rests.len(),
    ensures
        total_len(rests.update(i, s)) == total_len(rests) - rests[i].len() + s.len(),
    decreases rests.len(),
{
    let front = rests.drop_last();
    if i == rests.len() - 1 {
        assert(rests.update(i, s).drop_last() =~= front);
    } else {
        total_len_update(front, i, s);
        assert(rests.update(i, s).drop_last() =~= front.update(i, s));
    }
}

/// The first entry of a key in a list.
pub open spec fn first_value(s: Seq<Entry>, key: Seq<u8>) -> Option<Seq<u8>>
    decreases s.len(),
{
    if s.len() == 0 {
        None
    } else if s[0].0 == key {
        Some(s[0].1)
    } else {
        first_value(s.drop_first(), key)
    }
}

/// What the first source that has a key holds for it.
pub open spec fn winning(rests: Seq<Seq<Entry>>, key: Seq<u8>) -> Option<Seq<u8>>
    decreases rests.len(),
{
    if rests.len() == 0 {
        None
    } else {
        match first_value(rests[0], key) {
            Some(v) => Some(v),
            None => winning(rests.drop_first(), key),
        }
    }
}

/// All lists are sorted.
pub open spec fn all_ascending(rests: Seq<Seq<Entry>>) -> bool {
    forall|i: int| 0 <= i < rests.len() ==> ascending(#[trigger] rests[i])
}

/// At most one source is the least.
proof fn least_unique(rests: Seq<Seq<Entry>>, i: int, j: int)
    requires
        is_least(rests, i),
        is_least(rests, j),
    ensures
        i == j,
{
    if i != j {
        assert(rests[i].len() > 0);
        assert(rests[j].len() > 0);
        if lex_lt(rests[i][0].0, rests[j][0].0) {
            lex_lt_asymmetric(rests[i][0].0, rests[j][0].0);
        }
    }
}

/// Taking an entry keeps the lists sorted.
proof fn advance_ascending(rests: Seq<Seq<Entry>>, i: int)
    requires
        all_ascending(rests),
        is_least(rests, i),
    ensures
        all_ascending(advance(rests, i)),
{
    let after = advance(rests, i);
    assert forall|k: int| 0 <= k < after.len() implies ascending(#[trigger] after[k]) by {
        assert(ascending(rests[k]));
        if k == i {
            let s = rests[i].drop_first();
            assert forall|a: int, b: int| 0 <= a < b < s.len() implies lex_le(
                #[trigger] s[a].0,
                #[trigger] s[b].0,
            ) by {
                assert(lex_le(rests[i][a + 1].0, rests[i][b + 1].0));
            }
        }
    }
}

/// No merged key is before a bound that no list's key is before.
proof fn merged_bounded(rests: Seq<Seq<Entry>>, bound: Seq<u8>)
    requires
        all_ascending(rests),
        forall|i: int|
            0 <= i < rests.len() && (#[trigger] rests[i]).len() > 0 ==> lex_le(bound, rests[i][0].0),
    ensures
        forall|p: int|
            0 <= p < merged(rests).len() ==> lex_le(bound, #[trigger] merged(rests)[p].0),
    decreases total_len(rests),
{
    if exists|i: int| is_least(rests, i) {
        let i = choose|i: int| is_least(rests, i);
        let after = advance(rests, i);
        advance_ascending(rests, i);
        total_len_update(rests, i, rests[i].drop_first());
        assert(lex_le(bound, rests[i][0].0));
        assert forall|k: int| 0 <= k < after.len() && (#[trigger] after[k]).len() > 0 implies lex_le(
            bound,
            after[k][0].0,
        ) by {
            if k == i {
                assert(ascending(rests[i]));
                assert(lex_le(rests[i][0].0, rests[i][1].0));
                le_transitive(bound, rests[i][0].0, rests[i][1].0);
            } else {
                assert(rests[k].len() > 0);
            }
        }
        merged_bounded(after, bound);
        let rest = merged(after);
        assert(merged(rests) == seq![rests[i][0]] + rest);
        assert forall|p: int| 0 <= p < merged(rests).len() implies lex_le(
            bound,
            #[trigger] merged(rests)[p].0,
        ) by {
            if p > 0 {
                assert(merged(rests)[p] == rest[p - 1]);
            }
        }
    }
}

/// The order on keys is transitive.
proof fn le_transitive(a: Seq<u8>, b: Seq<u8>, c: Seq<u8>)
    requires
        lex_le(a, b),
        lex_le(b, c),
    ensures
        lex_le(a, c),
{
    if a != b && b != c {
        lex_lt_transitive(a, b, c);
    }
}

/// Merging sorted lists gives a sorted list.
pub proof fn merge_is_sorted(rests: Seq<Seq<Entry>>)
    requires
        all_ascending(rests),
    ensures
        ascending(merged(rests)),
    decreases total_len(rests),
{
    if exists|i: int| is_least(rests, i) {
        let i = choose|i: int| is_least(rests, i);
        let after = advance(rests, i);
        let head = rests[i][0].0;
        advance_ascending(rests, i);
        total_len_update(rests, i, rests[i].drop_first());
        merge_is_sorted(after);
        assert forall|k: int| 0 <= k < after.len() && (#[trigger] after[k]).len() > 0 implies lex_le(
            head,
            after[k][0].0,
        ) by {
            if k == i {
                assert(ascending(rests[i]));
                assert(lex_le(rests[i][0].0, rests[i][1].0));
            } else {
                assert(rests[k].len() > 0);
            }
        }
        merged_bounded(after, head);
        let m = merged(rests);
        let rest = merged(after);
        assert forall|a: int, b: int| 0 <= a < b < m.len() implies lex_le(
            #[trigger] m[a].0,
            #[trigger] m[b].0,
        ) by {
            assert(m[b] == rest[b - 1]);
            if a > 0 {
                assert(m[a] == rest[a - 1]);
                assert(lex_le(rest[a - 1].0, rest[b - 1].0));
            }
        }
    }
}

/// How often an entry occurs in the lists.
pub open spec fn occurrences(rests: Seq<Seq<Entry>>, e: Entry) -> nat
    decreases rests.len(),
{
    if rests.len() == 0 {
        0
    } else {
        occurrences(rests.drop_last(), e) + rests.last().to_multiset().count(e)
    }
}

/// Replacing one list changes how often an entry occurs by what that list
/// gains.
proof fn occurrences_update(rests: Seq<Seq<Entry>>, i: int, s: Seq<Entry>, e: Entry)
    requires
        0 <= i < rests.len(),
    ensures
        occurrences(rests.update(i, s), e) == occurrences(rests, e)
            - rests[i].to_multiset().count(e) + s.to_multiset().count(e),
    decreases rests.len(),
{
    let front = rests.drop_last();
    if i == rests.len() - 1 {
        assert(rests.update(i, s).drop_last() =~= front);
    } else {
        occurrences_update(front, i, s, e);
        assert(rests.update(i, s).drop_last() =~= front.update(i, s));
    }
}

/// Without entries left nothing occurs.
proof fn occurrences_none(rests: Seq<Seq<Entry>>, e: Entry)
    requires
        forall|i: int| 0 <= i < rests.len() ==> (#[trigger] rests[i]).len() == 0,
    ensures
        occurrences(rests, e) == 0,
    decreases rests.len(),
{
    if rests.len() > 0 {
        let front = rests.drop_last();
        assert forall|i: int| 0 <= i < front.len() implies (#[trigger] front[i]).len() == 0 by {
            assert(rests[i].len() == 0);
        }
        occurrences_none(front, e);
        assert(rests[rests.len() - 1].len() == 0);
        broadcast use vstd::seq_lib::group_to_multiset_ensures;
        assert(rests.last() =~= Seq::empty());
        assert(rests.last().to_multiset() =~= vstd::multiset::Multiset::empty());
    }
}

/// Where a source has entries left, some source is the least.
proof fn least_exists(rests: Seq<Seq<Entry>>, n: int) -> (r: int)
    requires
        0 <= n <= rests.len(),
        exists|i: int| 0 <= i < n && (#[trigger] rests[i]).len() > 0,
    ensures
        0 <= r < n,
        rests[r].len() > 0,
        forall|j: int|
            0 <= j < n && (#[trigger] rests[j]).len() > 0 ==> lex_lt(rests[r][0].0, rests[j][0].0)
                || (rests[r][0].0 == rests[j][0].0 && r <= j),
    decreases n,
{
    let last = n - 1;
    if exists|i: int| 0 <= i < last && (#[trigger] rests[i]).len() > 0 {
        let r = least_exists(rests, last);
        if rests[last].len() > 0 && lex_lt(rests[last][0].0, rests[r][0].0) {
            assert forall|j: int| 0 <= j < n && (#[trigger] rests[j]).len() > 0 implies lex_lt(
                rests[last][0].0,
                rests[j][0].0,
            ) || (rests[last][0].0 == rests[j][0].0 && last <= j) by {
                if j < last && lex_lt(rests[r][0].0, rests[j][0].0) {
                    lex_lt_transitive(rests[last][0].0, rests[r][0].0, rests[j][0].0);
                }
            }
            last
        } else {
            if rests[last].len() > 0 {
                lex_lt_total(rests[last][0].0, rests[r][0].0);
            }
            r
        }
    } else {
        last
    }
}

/// Merging loses nothing and adds nothing: every entry comes out as often as it
/// occurs in the lists.
pub proof fn merge_keeps_entries(rests: Seq<Seq<Entry>>, e: Entry)
    ensures
        merged(rests).to_multiset().count(e) == occurrences(rests, e),
    decreases total_len(rests),
{
    broadcast use vstd::seq_lib::group_to_multiset_ensures;
    if exists|i: int| is_least(rests, i) {
        let i = choose|i: int| is_least(rests, i);
        let after = advance(rests, i);
        let head = rests[i][0];
        let tail = rests[i].drop_first();
        total_len_update(rests, i, tail);
        merge_keeps_entries(after, e);
        occurrences_update(rests, i, tail, e);
        assert(rests[i] =~= seq![head] + tail);
        vstd::seq_lib::lemma_multiset_commutative(seq![head], tail);
        vstd::seq_lib::lemma_multiset_commutative(seq![head], merged(after));
    } else {
        if exists|i: int| 0 <= i < rests.len() && (#[trigger] rests[i]).len() > 0 {
            let i = least_exists(rests, rests.len() as int);
            assert(is_least(rests, i));
        }
        occurrences_none(rests, e);
        assert(merged(rests) =~= Seq::empty());
        assert(merged(rests).to_multiset() =~= vstd::multiset::Multiset::empty());
    }
}

/// A key that is before all keys of a sorted list is not in it.
proof fn first_value_before(s: Seq<Entry>, key: Seq<u8>)
    requires
        ascending(s),
        s.len() > 0 ==> lex_lt(key, s[0].0),
    ensures
        first_value(s, key) is None,
    decreases s.len(),
{
    if s.len() > 0 {
        let rest = s.drop_first();
        lex_lt_irreflexive(key);
        assert forall|a: int, b: int| 0 <= a < b < rest.len() implies lex_le(
            #[trigger] rest[a].0,
            #[trigger] rest[b].0,
        ) by {
            assert(lex_le(s[a + 1].0, s[b + 1].0));
        }
        if rest.len() > 0 {
            assert(lex_le(s[0].0, s[1].0));
            if s[0].0 != s[1].0 {
                lex_lt_transitive(key, s[0].0, s[1].0);
            }
        }
        first_value_before(rest, key);
    }
}

/// Where the sources before `i` do not have a key and source `i` has it, source
/// `i` decides.
proof fn winning_at(rests: Seq<Seq<Entry>>, key: Seq<u8>, i: int)
    requires
        0 <= i < rests.len(),
        forall|j: int| 0 <= j < i ==> first_value(#[trigger] rests[j], key) is None,
        first_value(rests[i], key) is Some,
    ensures
        winning(rests, key) == first_value(rests[i], key),
    decreases rests.len(),
{
    if i > 0 {
        assert(first_value(rests[0], key) is None);
        let rest = rests.drop_first();
        assert forall|j: int| 0 <= j < i - 1 implies first_value(
            #[trigger] rest[j],
            key,
        ) is None by {
            assert(first_value(rests[j + 1], key) is None);
        }
        winning_at(rest, key, i - 1);
    }
}

/// Replacing a source by one that has the same for a key changes nothing.
proof fn winning_same(rests: Seq<Seq<Entry>>, i: int, s: Seq<Entry>, key: Seq<u8>)
    requires
        0 <= i < rests.len(),
        first_value(s, key) == first_value(rests[i], key),
    ensures
        winning(rests.update(i, s), key) == winning(rests, key),
    decreases rests.len(),
{
    let rest = rests.drop_first();
    if i == 0 {
        assert(rests.update(i, s).drop_first() =~= rest);
    } else {
        winning_same(rest, i - 1, s, key);
        assert(rests.update(i, s).drop_first() =~= rest.update(i - 1, s));
    }
}

/// Without entries left no source has a key.
proof fn winning_none(rests: Seq<Seq<Entry>>, key: Seq<u8>)
    requires
        forall|i: int| 0 <= i < rests.len() ==> (#[trigger] rests[i]).len() == 0,
    ensures
        winning(rests, key) is None,
    decreases rests.len(),
{
    if rests.len() > 0 {
        let rest = rests.drop_first();
        assert forall|i: int| 0 <= i < rest.len() implies (#[trigger] rest[i]).len() == 0 by {
            assert(rests[i + 1].len() == 0);
        }
        winning_none(rest, key);
    }
}

/// The entries of a key in a list, in order.
pub open spec fn of_key(s: Seq<Entry>, key: Seq<u8>) -> Seq<Entry>
    decreases s.len(),
{
    if s.len() == 0 {
        Seq::empty()
    } else if s[0].0 == key {
        seq![s[0]] + of_key(s.drop_first(), key)
    } else {
        of_key(s.drop_first(), key)
    }
}

/// The entries of a key in all lists, list by list.
pub open spec fn of_key_in_all(rests: Seq<Seq<Entry>>, key: Seq<u8>) -> Seq<Entry>
    decreases rests.len(),
{
    if rests.len() == 0 {
        Seq::empty()
    } else {
        of_key_in_all(rests.drop_last(), key) + of_key(rests.last(), key)
    }
}

/// A sorted list that starts behind a key does not hold it.
proof fn of_key_absent(s: Seq<Entry>, key: Seq<u8>)
    requires
        ascending(s),
        s.len() > 0 ==> lex_lt(key, s[0].0),
    ensures
        of_key(s, key) == Seq::<Entry>::empty(),
    decreases s.len(),
{
    if s.len() > 0 {
        lex_lt_irreflexive(key);
        let rest = s.drop_first();
        assert forall|i: int, j: int| 0 <= i < j < rest.len() implies lex_le(
            #[trigger] rest[i].0,
            #[trigger] rest[j].0,
        ) by {
            assert(lex_le(s[i + 1].0, s[j + 1].0));
        }
        if rest.len() > 0 {
            assert(lex_le(s[0].0, s[1].0));
            if s[0].0 != s[1].0 {
                lex_lt_transitive(key, s[0].0, s[1].0);
            }
        }
        of_key_absent(rest, key);
    }
}

/// Taking the first entry of a source takes it out of the entries of its key. It
/// comes first among them, where no source before holds the key.
proof fn of_key_advance(rests: Seq<Seq<Entry>>, i: int, key: Seq<u8>)
    requires
        0 <= i < rests.len(),
        rests[i].len() > 0,
        rests[i][0].0 == key ==> forall|j: int|
            0 <= j < i ==> of_key(#[trigger] rests[j], key) == Seq::<Entry>::empty(),
    ensures
        of_key_in_all(rests, key) == if rests[i][0].0 == key {
            seq![rests[i][0]] + of_key_in_all(advance(rests, i), key)
        } else {
            of_key_in_all(advance(rests, i), key)
        },
    decreases rests.len(),
{
    let front = rests.drop_last();
    let after = advance(rests, i);
    if i == rests.len() - 1 {
        assert(after.drop_last() =~= front);
        if rests[i][0].0 == key {
            of_key_none(front, key);
            assert(of_key_in_all(rests, key) =~= seq![rests[i][0]] + of_key_in_all(after, key));
        }
    } else {
        assert(after.drop_last() =~= advance(front, i));
        assert forall|j: int| rests[i][0].0 == key && 0 <= j < i implies of_key(
            #[trigger] front[j],
            key,
        ) == Seq::<Entry>::empty() by {
            assert(front[j] == rests[j]);
        }
        of_key_advance(front, i, key);
        if rests[i][0].0 == key {
            assert(of_key_in_all(rests, key) =~= seq![rests[i][0]] + of_key_in_all(after, key));
        }
    }
}

/// Where no list holds a key, there are no entries of it.
proof fn of_key_none(rests: Seq<Seq<Entry>>, key: Seq<u8>)
    requires
        forall|j: int|
            0 <= j < rests.len() ==> of_key(#[trigger] rests[j], key) == Seq::<Entry>::empty(),
    ensures
        of_key_in_all(rests, key) == Seq::<Entry>::empty(),
    decreases rests.len(),
{
    if rests.len() > 0 {
        let front = rests.drop_last();
        assert forall|j: int| 0 <= j < front.len() implies of_key(#[trigger] front[j], key)
            == Seq::<Entry>::empty() by {
            assert(front[j] == rests[j]);
        }
        of_key_none(front, key);
        assert(rests[rests.len() - 1] == rests.last());
        assert(of_key_in_all(rests, key) =~= Seq::<Entry>::empty());
    }
}

/// Of each key, all entries stand source by source in the merged list, those of
/// the lowest source first, and those of one source in its own order.
pub proof fn merge_keeps_source_order(rests: Seq<Seq<Entry>>, key: Seq<u8>)
    requires
        all_ascending(rests),
    ensures
        of_key(merged(rests), key) == of_key_in_all(rests, key),
    decreases total_len(rests),
{
    if exists|i: int| is_least(rests, i) {
        let i = choose|i: int| is_least(rests, i);
        let after = advance(rests, i);
        let head = rests[i][0];
        advance_ascending(rests, i);
        total_len_update(rests, i, rests[i].drop_first());
        merge_keeps_source_order(after, key);
        assert((seq![head] + merged(after)).drop_first() =~= merged(after));
        assert forall|j: int| head.0 == key && 0 <= j < i implies of_key(#[trigger] rests[j], key)
            == Seq::<Entry>::empty() by {
            assert(ascending(rests[j]));
            of_key_absent(rests[j], key);
        }
        of_key_advance(rests, i, key);
    } else {
        assert forall|j: int| 0 <= j < rests.len() implies of_key(#[trigger] rests[j], key)
            == Seq::<Entry>::empty() by {
            if rests[j].len() > 0 {
                let i = least_exists(rests, rests.len() as int);
                assert(is_least(rests, i));
            }
        }
        of_key_none(rests, key);
    }
}

/// The entries of a key are those that a filter by the key lets through.
proof fn of_key_is_filter(s: Seq<Entry>, key: Seq<u8>)
    ensures
        of_key(s, key) == s.filter(|e: Entry| e.0 == key),
    decreases s.len(),
{
    let keep = |e: Entry| e.0 == key;
    reveal_with_fuel(Seq::filter, 2);
    if s.len() > 0 {
        let head = seq![s[0]];
        let rest = s.drop_first();
        of_key_is_filter(rest, key);
        assert(head + rest =~= s);
        Seq::filter_distributes_over_add(head, rest, keep);
        assert(head.drop_last() =~= Seq::<Entry>::empty());
        assert(Seq::<Entry>::empty().filter(keep) =~= Seq::<Entry>::empty());
        if keep(s[0]) {
            assert(head.filter(keep) =~= head);
        } else {
            assert(head.filter(keep) =~= Seq::<Entry>::empty());
            assert(Seq::<Entry>::empty() + rest.filter(keep) =~= rest.filter(keep));
        }
    }
}

/// The entries of a key in all lists are those of the lists joined.
proof fn of_key_in_joined(rests: Seq<Seq<Entry>>, key: Seq<u8>)
    ensures
        of_key_in_all(rests, key) == rests.flatten_alt().filter(|e: Entry| e.0 == key),
    decreases rests.len(),
{
    let keep = |e: Entry| e.0 == key;
    if rests.len() == 0 {
        reveal_with_fuel(Seq::filter, 1);
        assert(rests.flatten_alt().filter(keep) =~= Seq::<Entry>::empty());
    } else {
        let front = rests.drop_last();
        of_key_in_joined(front, key);
        of_key_is_filter(rests.last(), key);
        Seq::filter_distributes_over_add(front.flatten_alt(), rests.last(), keep);
    }
}

/// Merging sorted lists gives their entries in key order, and of each key the
/// entries of all lists, none left out and none added, in the order of the lists
/// and, within a list, in its own.
pub proof fn merge_is_stable(rests: Seq<Seq<Entry>>, key: Seq<u8>)
    requires
        forall|i: int, a: int, b: int|
            0 <= i < rests.len() && 0 <= a < b < rests[i].len() ==> lex_le(
                (#[trigger] rests[i][a]).0,
                (#[trigger] rests[i][b]).0,
            ),
    ensures
        forall|a: int, b: int|
            0 <= a < b < merged(rests).len() ==> lex_le(
                (#[trigger] merged(rests)[a]).0,
                (#[trigger] merged(rests)[b]).0,
            ),
        merged(rests).filter(|e: Entry| e.0 == key) == rests.flatten_alt().filter(
            |e: Entry| e.0 == key,
        ),
{
    assert forall|i: int| 0 <= i < rests.len() implies ascending(#[trigger] rests[i]) by {
        let s = rests[i];
        assert forall|a: int, b: int| 0 <= a < b < s.len() implies lex_le(
            #[trigger] s[a].0,
            #[trigger] s[b].0,
        ) by {
            assert(lex_le(rests[i][a].0, rests[i][b].0));
        }
    }
    merge_is_sorted(rests);
    merge_keeps_source_order(rests, key);
    of_key_is_filter(merged(rests), key);
    of_key_in_joined(rests, key);
    let m = merged(rests);
    assert forall|a: int, b: int| 0 <= a < b < m.len() implies lex_le(
        (#[trigger] m[a]).0,
        (#[trigger] m[b]).0,
    ) by {
        assert(lex_le(m[a].0, m[b].0));
    }
}

/// Merging any lists, sorted or not, loses nothing and adds nothing.
pub proof fn merge_keeps_all(rests: Seq<Seq<Entry>>)
    ensures
        merged(rests).to_multiset() == rests.flatten_alt().to_multiset(),
{
    assert forall|e: Entry| merged(rests).to_multiset().count(e)
        == rests.flatten_alt().to_multiset().count(e) by {
        merge_keeps_entries(rests, e);
        occurrences_in_joined(rests, e);
    }
    assert(merged(rests).to_multiset() =~= rests.flatten_alt().to_multiset());
}

proof fn occurrences_in_joined(rests: Seq<Seq<Entry>>, e: Entry)
    ensures
        occurrences(rests, e) == rests.flatten_alt().to_multiset().count(e),
    decreases rests.len(),
{
    broadcast use vstd::seq_lib::group_to_multiset_ensures;

    if rests.len() == 0 {
        assert(rests.flatten_alt() =~= Seq::<Entry>::empty());
        assert(Seq::<Entry>::empty().to_multiset() =~= vstd::multiset::Multiset::empty());
    } else {
        let front = rests.drop_last();
        occurrences_in_joined(front, e);
        vstd::seq_lib::lemma_multiset_commutative(front.flatten_alt(), rests.last());
    }
}

/// Of several entries with one key the one of the lowest-indexed source comes
/// out first, so the most recent source belongs in front.
pub proof fn merge_lowest_source_wins(rests: Seq<Seq<Entry>>, key: Seq<u8>)
    requires
        all_ascending(rests),
    ensures
        first_value(merged(rests), key) == winning(rests, key),
    decreases total_len(rests),
{
    if exists|i: int| is_least(rests, i) {
        let i = choose|i: int| is_least(rests, i);
        let after = advance(rests, i);
        let head = rests[i][0];
        advance_ascending(rests, i);
        total_len_update(rests, i, rests[i].drop_first());
        merge_lowest_source_wins(after, key);
        let m = merged(rests);
        assert(m[0] == head);
        assert(m.drop_first() =~= merged(after));
        if head.0 == key {
            assert forall|j: int| 0 <= j < i implies first_value(
                #[trigger] rests[j],
                key,
            ) is None by {
                assert(ascending(rests[j]));
                if rests[j].len() > 0 {
                    assert(lex_lt(head.0, rests[j][0].0));
                }
                first_value_before(rests[j], key);
            }
            winning_at(rests, key, i);
        } else {
            winning_same(rests, i, rests[i].drop_first(), key);
        }
    } else {
        if exists|i: int| 0 <= i < rests.len() && (#[trigger] rests[i]).len() > 0 {
            let i = least_exists(rests, rests.len() as int);
            assert(is_least(rests, i));
        }
        winning_none(rests, key);
    }
}

/// A merged iterator that yields entries from several sorted sources in key
/// order. When keys are equal, the source with the lowest index comes first, so
/// the most recent source should be placed first.
pub struct MergeIterator {
    sources: Vec<Vec<(Vec<u8>, Vec<u8>)>>,
    /// How many entries of each source have been yielded.
    taken: Vec<usize>,
}

impl View for MergeIterator {
    type V = Seq<Seq<Entry>>;

    /// The entries of each source that are still to come.
    closed spec fn view(&self) -> Seq<Seq<Entry>> {
        Seq::new(
            self.sources@.len(),
            |i: int| pairs(self.sources@[i]@).skip(self.taken@[i] as int),
        )
    }
}

/// The entries of executable lists.
pub open spec fn source_views(sources: Seq<Vec<(Vec<u8>, Vec<u8>)>>) -> Seq<Seq<Entry>> {
    Seq::new(sources.len(), |i: int| pairs(sources[i]@))
}

/// All sources count, each with all its entries.
pub proof fn sources_are_whole(sources: Seq<Vec<(Vec<u8>, Vec<u8>)>>, i: int)
    ensures
        source_views(sources).len() == sources.len(),
        0 <= i < sources.len() ==> source_views(sources)[i] == pairs(sources[i]@),
{
}

impl MergeIterator {
    /// No source has yielded more than it has.
    pub closed spec fn wf(&self) -> bool {
        &&& self.taken@.len() == self.sources@.len()
        &&& forall|i: int|
            0 <= i < self.sources@.len() ==> #[trigger] self.taken@[i] <= self.sources@[i]@.len()
    }

    /// Create a new merge iterator from a list of sorted sources.
    ///
    /// On key ties the lower-indexed source wins. Place the most recent source
    /// (the MemTable) at index 0.
    pub fn new(sources: Vec<Vec<(Vec<u8>, Vec<u8>)>>) -> (r: Self)
        ensures
            r.wf(),
            r@ == source_views(sources@),
    {
        let mut taken: Vec<usize> = Vec::new();
        let mut i: usize = 0;
        while i < sources.len()
            invariant
                i <= sources@.len(),
                taken@.len() == i,
                forall|j: int| 0 <= j < i ==> taken@[j] == 0,
            decreases sources@.len() - i,
        {
            taken.push(0);
            i = i + 1;
        }
        let r = MergeIterator { sources, taken };
        assert forall|j: int| 0 <= j < sources@.len() implies r@[j] == source_views(sources@)[j] by {
            assert(pairs(sources@[j]@).skip(0) =~= pairs(sources@[j]@));
        }
        assert(r@ =~= source_views(sources@));
        r
    }

    /// The source whose next entry comes first.
    fn least(&self) -> (r: Option<usize>)
        requires
            self.wf(),
        ensures
            match r {
                Some(i) => is_least(self@, i as int),
                None => forall|j: int| 0 <= j < self@.len() ==> (#[trigger] self@[j]).len() == 0,
            },
    {
        let ghost rests = self@;
        let mut best: Option<usize> = None;
        let mut i: usize = 0;
        while i < self.sources.len()
            invariant
                self.wf(),
                rests == self@,
                i <= self.sources@.len(),
                match best {
                    Some(b) => {
                        &&& b < i
                        &&& rests[b as int].len() > 0
                        &&& forall|j: int|
                            0 <= j < i && (#[trigger] rests[j]).len() > 0 ==> lex_lt(
                                rests[b as int][0].0,
                                rests[j][0].0,
                            ) || (rests[b as int][0].0 == rests[j][0].0 && b <= j)
                    },
                    None => forall|j: int| 0 <= j < i ==> (#[trigger] rests[j]).len() == 0,
                },
            decreases self.sources@.len() - i,
        {
            let at = self.taken[i];
            assert(rests[i as int].len() == self.sources@[i as int]@.len() - at);
            if at < self.sources[i].len() {
                let better = match best {
                    None => true,
                    Some(b) => bytes_lt(
                        self.sources[i][at].0.as_slice(),
                        self.sources[b][self.taken[b]].0.as_slice(),
                    ),
                };
                proof {
                    if best is Some {
                        let b = best->Some_0 as int;
                        let x = rests[i as int][0].0;
                        let y = rests[b][0].0;
                        assert(better == lex_lt(x, y));
                        lex_lt_total(x, y);
                        if better {
                            assert forall|j: int|
                                0 <= j < i + 1 && (#[trigger] rests[j]).len() > 0 implies lex_lt(
                                x,
                                rests[j][0].0,
                            ) || (x == rests[j][0].0 && i <= j) by {
                                if j < i && lex_lt(y, rests[j][0].0) {
                                    lex_lt_transitive(x, y, rests[j][0].0);
                                }
                            }
                        }
                    }
                }
                if better {
                    best = Some(i);
                }
            }
            i = i + 1;
        }
        best
    }

    /// The next entry in key order.
    pub fn next(&mut self) -> (r: Option<(Vec<u8>, Vec<u8>)>)
        requires
            old(self).wf(),
        ensures
            final(self).wf(),
            match r {
                Some(e) => exists|i: int|
                    #![trigger is_least(old(self)@, i)]
                    is_least(old(self)@, i) && (e.0@, e.1@) == old(self)@[i][0] && final(self)@
                        == advance(old(self)@, i),
                None => {
                    &&& final(self)@ == old(self)@
                    &&& forall|j: int|
                        0 <= j < old(self)@.len() ==> (#[trigger] old(self)@[j]).len() == 0
                },
            },
    {
        let ghost before = self@;
        match self.least() {
            None => None,
            Some(i) => {
                let at = self.taken[i];
                assert(before[i as int].len() == self.sources@[i as int]@.len() - at);
                let e = copy_entry(&self.sources[i][at]);
                assert(at < self.sources[i as int].len());
                self.taken.set(i, at + 1);
                proof {
                    let s = pairs(self.sources@[i as int]@);
                    assert(s.skip(at as int).drop_first() =~= s.skip(at + 1));
                    assert(self@ =~= advance(before, i as int));
                    assert(is_least(before, i as int));
                }
                Some(e)
            },
        }
    }

    /// All entries still to come, in key order.
    pub fn collect(self) -> (r: Vec<(Vec<u8>, Vec<u8>)>)
        requires
            self.wf(),
        ensures
            pairs(r@) == merged(self@),
    {
        let mut this = self;
        let mut out: Vec<(Vec<u8>, Vec<u8>)> = Vec::new();
        let ghost all = merged(self@);
        assert(pairs(out@) + merged(this@) =~= all);
        loop
            invariant
                this.wf(),
                all == merged(self@),
                pairs(out@) + merged(this@) == all,
            ensures
                pairs(out@) == all,
            decreases total_len(this@),
        {
            let ghost rests = this@;
            let ghost got = out@;
            match this.next() {
                Some(e) => {
                    proof {
                        let i = choose|i: int|
                            #![trigger is_least(rests, i)]
                            is_least(rests, i) && (e.0@, e.1@) == rests[i][0] && this@ == advance(
                                rests,
                                i,
                            );
                        let k = choose|k: int| is_least(rests, k);
                        least_unique(rests, i, k);
                        total_len_update(rests, i, rests[i].drop_first());
                        pairs_push(got, e);
                        assert(merged(rests) == seq![rests[i][0]] + merged(this@));
                        assert(pairs(got).push(rests[i][0]) + merged(this@) =~= pairs(got) + merged(
                            rests,
                        ));
                    }
                    out.push(e);
                },
                None => {
                    proof {
                        if exists|k: int| is_least(rests, k) {
                            let k = choose|k: int| is_least(rests, k);
                            assert(rests[k].len() == 0);
                        }
                        assert(pairs(out@) + merged(rests) =~= pairs(out@));
                    }
                    break;
                },
            }
        }
        out
    }
}

} // verus!
