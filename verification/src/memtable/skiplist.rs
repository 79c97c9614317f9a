//! Skip list: a probabilistic sorted map from byte strings to byte strings.
//!
//! The nodes live in one vector and name each other by their position in it.
//! Node 0 is the head, which holds no entry; as nothing comes before it, the
//! link 0 means "no successor".

use vstd::prelude::*;

use crate::bytes::{bytes_eq, bytes_lt, copy_bytes};
use crate::entries::{
    map_of, map_of_contains, map_of_sorted, pairs_push, range_of_sorted, sorted_insert,
    sorted_update,
};

verus! {

/// What an empty list counts for itself, in bytes.
pub const LIST_OVERHEAD: usize = 24;

/// What a node counts for its header, in bytes.
pub const NODE_OVERHEAD: usize = 72;

/// What one link of a node's tower counts, in bytes.
pub const LINK_SIZE: usize = 8;

/// What the two vectors of a node's key and value count, in bytes.
pub const ENTRY_OVERHEAD: usize = 48;

/// Where the level generator of every list starts.
pub const LEVEL_SEED: u64 = 0xdead_beef_cafe_babe;

/// A single node: `next[i]` is the next node at level `i`, or 0.
struct Node {
    key: Vec<u8>,
    value: Vec<u8>,
    next: Vec<usize>,
}

/// A probabilistic sorted map backed by a skip list.
///
/// Keys are byte strings in lexicographic order. Inserting a key that is there
/// replaces its value.
pub struct SkipList {
    nodes: Vec<Node>,
    max_level: usize,
    size: usize,
    rng: u64,
    order: Ghost<Seq<usize>>,
}

/// One step of the xorshift generator that picks the levels.
pub open spec fn xorshift(v: u64) -> u64 {
    let a = v ^ (v << 13u64);
    let b = a ^ (a >> 7u64);
    b ^ (b << 17u64)
}

/// The level that a generator state picks: its trailing zero bits, so that
/// each level is half as likely as the one below, cut off at the top level.
pub open spec fn level_of(v: u64, max_level: usize) -> int {
    if v.trailing_zeros() < max_level {
        v.trailing_zeros() as int
    } else {
        max_level - 1
    }
}

/// What a new entry adds to the size of a list.
pub open spec fn entry_cost(key_len: nat, value_len: nat, level: int) -> int {
    key_len + value_len + (level + 1) * LINK_SIZE + NODE_OVERHEAD + ENTRY_OVERHEAD
}

/// `n`, but never more than a `usize` holds.
pub open spec fn capped(n: int) -> int {
    if n < usize::MAX {
        n
    } else {
        usize::MAX as int
    }
}

/// What decides how a list goes on: its entries, its size, and the state from
/// which the levels of new entries are picked.
#[verifier::ext_equal]
pub struct ListShape {
    pub entries: Map<Seq<u8>, Seq<u8>>,
    pub size: int,
    pub rng: u64,
    pub levels: usize,
}

impl ListShape {
    /// A new, empty list.
    pub open spec fn fresh(levels: usize) -> ListShape {
        ListShape { entries: Map::empty(), size: LIST_OVERHEAD as int, rng: LEVEL_SEED, levels }
    }

    /// The list once a key is written to it. A key that is there already adds
    /// nothing to the size.
    pub open spec fn insert(self, key: Seq<u8>, value: Seq<u8>) -> ListShape {
        let rng = xorshift(self.rng);
        ListShape {
            entries: self.entries.insert(key, value),
            size: if self.entries.contains_key(key) {
                self.size
            } else {
                capped(self.size + entry_cost(key.len(), value.len(), level_of(rng, self.levels)))
            },
            rng,
            levels: self.levels,
        }
    }

    /// The list once all entries of `s` are written to it, in order.
    pub open spec fn insert_all(self, s: Seq<(Seq<u8>, Seq<u8>)>) -> ListShape
        decreases s.len(),
    {
        if s.len() == 0 {
            self
        } else {
            self.insert_all(s.drop_last()).insert(s.last().0, s.last().1)
        }
    }
}

/// What a written entry counts: one whose key is there counts nothing more, and a
/// new one its key and its value in full, with what a node takes besides. How much
/// that is depends on the lengths alone.
pub proof fn size_counts_new_entries(
    list: ListShape,
    key: Seq<u8>,
    value: Seq<u8>,
    key2: Seq<u8>,
    value2: Seq<u8>,
)
    requires
        list.levels > 0,
    ensures
        ListShape::fresh(list.levels).size == 24,
        ListShape::fresh(list.levels).entries == Map::<Seq<u8>, Seq<u8>>::empty(),
        list.insert(key, value).entries == list.entries.insert(key, value),
        list.insert(key, value).levels == list.levels,
        list.entries.contains_key(key) ==> list.insert(key, value).size == list.size,
        !list.entries.contains_key(key) && list.size + key.len() + value.len() + 120 + 8
            * list.levels < usize::MAX ==> list.size + key.len() + value.len() + 128
            <= list.insert(key, value).size <= list.size + key.len() + value.len() + 120 + 8
            * list.levels,
        !list.entries.contains_key(key) && list.size + key.len() + value.len() + 128 >= usize::MAX
            ==> list.insert(key, value).size == usize::MAX,
        !list.entries.contains_key(key) && !list.entries.contains_key(key2) && key.len()
            + value.len() == key2.len() + value2.len() ==> list.insert(key, value).size
            == list.insert(key2, value2).size,
{
    let level = level_of(xorshift(list.rng), list.levels);
    assert(0 <= level < list.levels);
}

/// The generator steps through its states one by one: no two states lead to the
/// same one, and none but 0 leads to 0. It is the 64-bit xorshift with the shifts
/// 13, 7 and 17, and every write takes one step.
pub proof fn levels_come_from_xorshift(
    list: ListShape,
    key: Seq<u8>,
    value: Seq<u8>,
    v: u64,
    w: u64,
    a: u64,
    b: u64,
)
    requires
        a == v ^ (v << 13u64),
        b == a ^ (a >> 7u64),
    ensures
        xorshift(v) == b ^ (b << 17u64),
        xorshift(v) == xorshift(w) ==> v == w,
        xorshift(v) == 0 ==> v == 0,
        list.insert(key, value).rng == xorshift(list.rng),
{
    let c = w ^ (w << 13u64);
    let d = c ^ (c >> 7u64);
    assert(v ^ (v << 13u64) == w ^ (w << 13u64) ==> v == w) by (bit_vector);
    assert(a ^ (a >> 7u64) == c ^ (c >> 7u64) ==> a == c) by (bit_vector);
    assert(b ^ (b << 17u64) == d ^ (d << 17u64) ==> b == d) by (bit_vector);
    assert(v ^ (v << 13u64) == 0 ==> v == 0) by (bit_vector);
    assert(a ^ (a >> 7u64) == 0 ==> a == 0) by (bit_vector);
    assert(b ^ (b << 17u64) == 0 ==> b == 0) by (bit_vector);
}

/// The level that a generator state picks is the place of its lowest bit that is
/// set, so that each level is half as likely as the one below it; the top level
/// takes all that would be higher.
pub proof fn level_is_lowest_set_bit(v: u64, max_level: usize)
    requires
        0 < max_level,
    ensures
        0 <= level_of(v, max_level) < max_level,
        level_of(v, max_level) < max_level - 1 && max_level <= 64 ==> (v >> (level_of(
            v,
            max_level,
        ) as u64)) & 1 == 1,
        forall|j: u64|
            j < level_of(v, max_level) && j < 64 ==> #[trigger] (v >> j) & 1 == 0,
{
    vstd::std_specs::bits::axiom_u64_trailing_zeros(v);
}

/// Writing two lists of entries one after the other is writing both joined.
pub proof fn insert_all_append(
    list: ListShape,
    a: Seq<(Seq<u8>, Seq<u8>)>,
    b: Seq<(Seq<u8>, Seq<u8>)>,
)
    ensures
        list.insert_all(a + b) == list.insert_all(a).insert_all(b),
    decreases b.len(),
{
    if b.len() == 0 {
        assert(a + b =~= a);
    } else {
        insert_all_append(list, a, b.drop_last());
        assert((a + b).drop_last() =~= a + b.drop_last());
    }
}

/// The next position after `p` whose tower reaches above `level`, or the end.
spec fn is_succ(heights: Seq<int>, p: int, level: int, s: int) -> bool {
    &&& p < s <= heights.len()
    &&& s < heights.len() ==> heights[s] > level
    &&& forall|r: int| p < r < s ==> #[trigger] heights[r] <= level
}

spec fn succ(heights: Seq<int>, p: int, level: int) -> int
    decreases heights.len() - p,
{
    if p + 1 >= heights.len() {
        heights.len() as int
    } else if heights[p + 1] > level {
        p + 1
    } else {
        succ(heights, p + 1, level)
    }
}

proof fn succ_is(heights: Seq<int>, p: int, level: int)
    requires
        -1 <= p < heights.len(),
    ensures
        is_succ(heights, p, level, succ(heights, p, level)),
    decreases heights.len() - p,
{
    if p + 1 < heights.len() && heights[p + 1] <= level {
        succ_is(heights, p + 1, level);
    }
}

proof fn succ_unique(heights: Seq<int>, p: int, level: int, s: int)
    requires
        -1 <= p < heights.len(),
        is_succ(heights, p, level, s),
    ensures
        s == succ(heights, p, level),
{
    succ_is(heights, p, level);
    let t = succ(heights, p, level);
    if s < t {
        assert(heights[s] <= level);
    }
    if t < s {
        assert(heights[t] <= level);
    }
}

/// How the successors move when a tower of height `h` comes in at `at`.
proof fn succ_insert(heights: Seq<int>, at: int, h: int, p: int, level: int)
    requires
        0 <= at <= heights.len(),
        -1 <= p < heights.len(),
    ensures
        p < at ==> succ(heights.insert(at, h), p, level) == (if succ(heights, p, level) < at {
            succ(heights, p, level)
        } else if h > level {
            at
        } else {
            succ(heights, p, level) + 1
        }),
        p >= at ==> succ(heights.insert(at, h), p + 1, level) == succ(heights, p, level) + 1,
        p == at - 1 ==> succ(heights.insert(at, h), at, level) == succ(heights, p, level) + 1,
{
    let wide = heights.insert(at, h);
    let s = succ(heights, p, level);
    succ_is(heights, p, level);
    assert forall|r: int| 0 <= r < at implies wide[r] == heights[r] by {}
    assert forall|r: int| at < r < wide.len() implies wide[r] == heights[r - 1] by {}
    if p < at {
        let t = if s < at {
            s
        } else if h > level {
            at
        } else {
            s + 1
        };
        assert forall|r: int| p < r < t implies #[trigger] wide[r] <= level by {
            if r < at {
                assert(heights[r] <= level);
            } else if r > at {
                assert(heights[r - 1] <= level);
            }
        }
        succ_unique(wide, p, level, t);
    }
    if p >= at {
        assert forall|r: int| p + 1 < r < s + 1 implies #[trigger] wide[r] <= level by {
            assert(heights[r - 1] <= level);
        }
        succ_unique(wide, p + 1, level, s + 1);
    }
    if p == at - 1 {
        assert forall|r: int| at < r < s + 1 implies #[trigger] wide[r] <= level by {
            assert(heights[r - 1] <= level);
        }
        succ_unique(wide, at, level, s + 1);
    }
}

/// The node at position `p` of the order; position -1 is the head.
spec fn node_at(order: Seq<usize>, p: int) -> int {
    if p < 0 {
        0
    } else {
        order[p] as int
    }
}

/// The link to position `s` of the order; past the end it is 0.
spec fn link_to(order: Seq<usize>, s: int) -> int {
    if s < order.len() {
        order[s] as int
    } else {
        0
    }
}

/// The tower heights along the order.
spec fn heights_of(nodes: Seq<Node>, order: Seq<usize>) -> Seq<int> {
    Seq::new(order.len(), |p: int| nodes[order[p] as int].next@.len() as int)
}

/// The entries along the order.
spec fn entries_of(nodes: Seq<Node>, order: Seq<usize>) -> Seq<(Seq<u8>, Seq<u8>)> {
    Seq::new(
        order.len(),
        |p: int| (nodes[order[p] as int].key@, nodes[order[p] as int].value@),
    )
}

/// The order names every node but the head once.
spec fn order_ok(nodes: Seq<Node>, order: Seq<usize>) -> bool {
    &&& nodes.len() == order.len() + 1
    &&& forall|p: int| 0 <= p < order.len() ==> 0 < #[trigger] order[p] < nodes.len()
    &&& forall|p: int, q: int|
        0 <= p < q < order.len() ==> #[trigger] order[p] != #[trigger] order[q]
}

/// Every tower is at least one and at most `max_level` high; the head's is
/// `max_level` high.
spec fn towers_ok(nodes: Seq<Node>, max_level: int) -> bool {
    &&& 0 < max_level
    &&& nodes[0].next@.len() == max_level
    &&& forall|i: int| 0 <= i < nodes.len() ==> 1 <= (#[trigger] nodes[i]).next@.len() <= max_level
}

/// The link of position `p` at `level` leads to its successor there.
spec fn link_ok(nodes: Seq<Node>, order: Seq<usize>, p: int, level: int) -> bool {
    nodes[node_at(order, p)].next@[level] == link_to(
        order,
        succ(heights_of(nodes, order), p, level),
    )
}

spec fn links_ok(nodes: Seq<Node>, order: Seq<usize>) -> bool {
    forall|p: int, level: int|
        -1 <= p < order.len() && 0 <= level < nodes[node_at(order, p)].next@.len()
            ==> #[trigger] link_ok(nodes, order, p, level)
}

spec fn shape_ok(nodes: Seq<Node>, order: Seq<usize>, max_level: int) -> bool {
    &&& order_ok(nodes, order)
    &&& towers_ok(nodes, max_level)
    &&& links_ok(nodes, order)
    &&& crate::entries::sorted(entries_of(nodes, order))
}

/// Splicing a node in at position `at`, behind `ups[l]` at each level `l` up to
/// `level`, keeps the links.
proof fn splice_keeps_links(
    nodes0: Seq<Node>,
    order0: Seq<usize>,
    nodes: Seq<Node>,
    fresh: usize,
    at: int,
    ups: Seq<int>,
    level: int,
)
    requires
        order_ok(nodes0, order0),
        links_ok(nodes0, order0),
        0 <= at <= order0.len(),
        fresh == nodes0.len(),
        nodes.len() == nodes0.len() + 1,
        level >= 0,
        nodes[fresh as int].next@.len() == level + 1,
        ups.len() > level,
        forall|l: int|
            0 <= l < level + 1 ==> {
                &&& -1 <= #[trigger] ups[l] < at
                &&& l < nodes0[node_at(order0, ups[l])].next@.len()
                &&& succ(heights_of(nodes0, order0), ups[l], l) >= at
                &&& nodes[fresh as int].next@[l] == nodes0[node_at(order0, ups[l])].next@[l]
            },
        forall|n: int|
            0 <= n < nodes0.len() ==> (#[trigger] nodes[n]).next@.len() == nodes0[n].next@.len(),
        forall|n: int, l: int|
            0 <= n < nodes0.len() && 0 <= l < nodes0[n].next@.len()
                ==> #[trigger] nodes[n].next@[l] == (if l < level + 1 && node_at(order0, ups[l])
                == n {
                fresh
            } else {
                nodes0[n].next@[l]
            }),
    ensures
        order_ok(nodes, order0.insert(at, fresh)),
        links_ok(nodes, order0.insert(at, fresh)),
        heights_of(nodes, order0.insert(at, fresh)) == heights_of(nodes0, order0).insert(
            at,
            level + 1,
        ),
{
    let order = order0.insert(at, fresh);
    let heights0 = heights_of(nodes0, order0);
    let heights = heights_of(nodes, order);
    assert forall|q: int| 0 <= q < at implies order[q] == order0[q] by {}
    assert forall|q: int| at < q < order.len() implies order[q] == order0[q - 1] by {}
    assert(heights =~= heights0.insert(at, level + 1));
    assert forall|q: int, l: int|
        -1 <= q < order.len() && 0 <= l < nodes[node_at(
            order,
            q,
        )].next@.len() implies #[trigger] link_ok(nodes, order, q, l) by {
        if q == at {
            succ_insert(heights0, at, level + 1, at - 1, l);
            let u = ups[l];
            assert(link_ok(nodes0, order0, u, l));
            same_succ(heights0, u, at - 1, l);
        } else {
            let q0 = if q < at {
                q
            } else {
                q - 1
            };
            succ_insert(heights0, at, level + 1, q0, l);
            assert(link_ok(nodes0, order0, q0, l));
            let n = node_at(order0, q0);
            assert(node_at(order, q) == n);
            let s = succ(heights0, q0, l);
            succ_is(heights0, q0, l);
            assert(nodes[n].next@[l] == (if l < level + 1 && node_at(order0, ups[l]) == n {
                fresh
            } else {
                nodes0[n].next@[l]
            }));
            if l < level + 1 {
                let u = ups[l];
                succ_is(heights0, u, l);
                if u == q0 {
                } else {
                    assert(node_at(order0, u) != n);
                    if q0 < at && s >= at {
                        if q0 < u {
                            assert(heights0[u] <= l);
                        } else {
                            assert(heights0[q0] <= l);
                        }
                    }
                }
            }
        }
    }
}

/// Two positions with no higher tower between them share their successor.
proof fn same_succ(heights: Seq<int>, p: int, q: int, level: int)
    requires
        -1 <= p <= q < heights.len(),
        succ(heights, p, level) > q,
    ensures
        succ(heights, q, level) == succ(heights, p, level),
{
    succ_is(heights, p, level);
    succ_unique(heights, q, level, succ(heights, p, level));
}

impl SkipList {
    /// The entries in key order.
    pub closed spec fn entries(&self) -> Seq<(Seq<u8>, Seq<u8>)> {
        entries_of(self.nodes@, self.order@)
    }

    /// The generator state.
    pub closed spec fn rng(&self) -> u64 {
        self.rng
    }

    /// How many levels the list has.
    pub closed spec fn levels(&self) -> usize {
        self.max_level
    }

    /// The estimated memory use in bytes.
    pub closed spec fn spec_size(&self) -> usize {
        self.size
    }

    /// The links, towers and keys fit together.
    pub closed spec fn wf(&self) -> bool {
        &&& shape_ok(self.nodes@, self.order@, self.max_level as int)
        &&& self.size >= LIST_OVERHEAD
        &&& self.size == LIST_OVERHEAD <==> self.order@.len() == 0
    }

    /// The keys of a list increase strictly, and the size tells an empty list.
    pub proof fn entries_sorted(&self)
        requires
            self.wf(),
        ensures
            crate::entries::sorted(self.entries()),
            self.spec_size() >= LIST_OVERHEAD,
            self.spec_size() == LIST_OVERHEAD <==> self.entries().len() == 0,
            self.levels() > 0,
    {
    }

    /// A new, empty list with towers of at most `max_level` links.
    pub fn new(max_level: usize) -> (r: Self)
        requires
            max_level > 0,
        ensures
            r.wf(),
            r.entries() == Seq::<(Seq<u8>, Seq<u8>)>::empty(),
            r@ == Map::<Seq<u8>, Seq<u8>>::empty(),
            r.levels() == max_level,
            r.shape() == ListShape::fresh(max_level),
    {
        let mut next: Vec<usize> = Vec::new();
        let mut i: usize = 0;
        while i < max_level
            invariant
                i <= max_level,
                next@.len() == i,
                forall|j: int| 0 <= j < i ==> next@[j] == 0,
            decreases max_level - i,
        {
            next.push(0);
            i = i + 1;
        }
        let mut nodes: Vec<Node> = Vec::new();
        nodes.push(Node { key: Vec::new(), value: Vec::new(), next });
        let r = SkipList {
            nodes,
            max_level,
            size: LIST_OVERHEAD,
            rng: LEVEL_SEED,
            order: Ghost(Seq::empty()),
        };
        assert(r.entries() =~= Seq::<(Seq<u8>, Seq<u8>)>::empty());
        assert forall|p: int, level: int|
            -1 <= p < r.order@.len() && 0 <= level < r.nodes@[node_at(
                r.order@,
                p,
            )].next@.len() implies #[trigger] link_ok(r.nodes@, r.order@, p, level) by {}
        r
    }

    /// Walk along `level` from position `at` to the last node before `key`.
    fn walk(&self, from: usize, level: usize, key: &[u8], Ghost(at): Ghost<int>) -> (r: (
        usize,
        Ghost<int>,
    ))
        requires
            self.wf(),
            level < self.max_level,
            -1 <= at < self.order@.len(),
            from == node_at(self.order@, at),
            level < self.nodes@[from as int].next@.len(),
            forall|i: int|
                0 <= i <= at ==> crate::bytes::lex_lt(#[trigger] self.entries()[i].0, key@),
        ensures
            at <= r.1@ < self.order@.len(),
            r.0 == node_at(self.order@, r.1@),
            level < self.nodes@[r.0 as int].next@.len(),
            forall|i: int|
                0 <= i <= r.1@ ==> crate::bytes::lex_lt(#[trigger] self.entries()[i].0, key@),
            ({
                let s = succ(heights_of(self.nodes@, self.order@), r.1@, level as int);
                s < self.order@.len() ==> !crate::bytes::lex_lt(self.entries()[s].0, key@)
            }),
    {
        let mut current: usize = from;
        let ghost mut p: int = at;
        let ghost heights = heights_of(self.nodes@, self.order@);
        loop
            invariant
                self.wf(),
                level < self.max_level,
                heights == heights_of(self.nodes@, self.order@),
                at <= p < self.order@.len(),
                -1 <= p,
                current == node_at(self.order@, p),
                level < self.nodes@[current as int].next@.len(),
                current < self.nodes@.len(),
                forall|i: int|
                    0 <= i <= p ==> crate::bytes::lex_lt(#[trigger] self.entries()[i].0, key@),
            decreases self.order@.len() - p,
        {
            let following = self.nodes[current].next[level];
            let ghost s = succ(heights, p, level as int);
            proof {
                assert(link_ok(self.nodes@, self.order@, p, level as int));
                succ_is(heights, p, level as int);
            }
            if following == 0 {
                return (current, Ghost(p));
            }
            assert(s < self.order@.len());
            if !bytes_lt(self.nodes[following].key.as_slice(), key) {
                return (current, Ghost(p));
            }
            proof {
                assert forall|i: int| 0 <= i <= s implies crate::bytes::lex_lt(
                    #[trigger] self.entries()[i].0,
                    key@,
                ) by {
                    if i < s {
                        crate::bytes::lex_lt_transitive(
                            self.entries()[i].0,
                            self.entries()[s].0,
                            key@,
                        );
                    }
                }
                assert(heights[s] > level);
                p = s;
            }
            current = following;
        }
    }

    /// Find the last node before `key`, from the top level down.
    fn seek(&self, key: &[u8]) -> (r: (usize, Ghost<int>))
        requires
            self.wf(),
        ensures
            -1 <= r.1@ < self.order@.len(),
            r.0 == node_at(self.order@, r.1@),
            r.0 < self.nodes@.len(),
            forall|i: int|
                0 <= i <= r.1@ ==> crate::bytes::lex_lt(#[trigger] self.entries()[i].0, key@),
            forall|i: int|
                r.1@ < i < self.order@.len() ==> !crate::bytes::lex_lt(
                    #[trigger] self.entries()[i].0,
                    key@,
                ),
    {
        let mut current: usize = 0;
        let ghost mut p: int = -1;
        let mut level: usize = self.max_level;
        while level > 0
            invariant
                self.wf(),
                level <= self.max_level,
                -1 <= p < self.order@.len(),
                current == node_at(self.order@, p),
                current < self.nodes@.len(),
                level <= self.nodes@[current as int].next@.len(),
                forall|i: int|
                    0 <= i <= p ==> crate::bytes::lex_lt(#[trigger] self.entries()[i].0, key@),
                level == 0 ==> forall|i: int|
                    p < i < self.order@.len() ==> !crate::bytes::lex_lt(
                        #[trigger] self.entries()[i].0,
                        key@,
                    ),
            decreases level,
        {
            level = level - 1;
            let (found, Ghost(at)) = self.walk(current, level, key, Ghost(p));
            current = found;
            proof {
                p = at;
                if level == 0 {
                    self.bottom_is_tight(p, key@);
                }
            }
        }
        (current, Ghost(p))
    }

    /// At the bottom level the successor is the next position, so a walk there
    /// ends right before the first key that is not before `key`.
    proof fn bottom_is_tight(&self, p: int, key: Seq<u8>)
        requires
            self.wf(),
            -1 <= p < self.order@.len(),
            ({
                let s = succ(heights_of(self.nodes@, self.order@), p, 0);
                s < self.order@.len() ==> !crate::bytes::lex_lt(self.entries()[s].0, key)
            }),
        ensures
            forall|i: int|
                p < i < self.order@.len() ==> !crate::bytes::lex_lt(
                    #[trigger] self.entries()[i].0,
                    key,
                ),
    {
        let heights = heights_of(self.nodes@, self.order@);
        let s = succ(heights, p, 0);
        succ_is(heights, p, 0);
        if s > p + 1 {
            assert(heights[p + 1] <= 0);
            assert(self.nodes@[self.order@[p + 1] as int].next@.len() >= 1);
        }
        assert forall|i: int| p < i < self.order@.len() implies !crate::bytes::lex_lt(
            #[trigger] self.entries()[i].0,
            key,
        ) by {
            if i > s && crate::bytes::lex_lt(self.entries()[i].0, key) {
                crate::bytes::lex_lt_transitive(self.entries()[s].0, self.entries()[i].0, key);
            }
        }
    }

    /// Pick a random level for a new node: each level half as likely as the one
    /// below, and none above the top level.
    fn random_level(&mut self) -> (r: usize)
        requires
            old(self).max_level > 0,
        ensures
            r == level_of(xorshift(old(self).rng), old(self).max_level),
            r < old(self).max_level,
            r <= 64,
            *final(self) == (SkipList { rng: xorshift(old(self).rng), ..*old(self) }),
    {
        let mut v: u64 = self.rng;
        v = v ^ (v << 13u64);
        v = v ^ (v >> 7u64);
        v = v ^ (v << 17u64);
        self.rng = v;
        let trailing = v.trailing_zeros() as usize;
        proof {
            vstd::std_specs::bits::axiom_u64_trailing_zeros(v);
        }
        if trailing < self.max_level {
            trailing
        } else {
            self.max_level - 1
        }
    }

    /// Insert or update a key-value pair.
    ///
    /// If the key is there already its value is overwritten.
    pub fn insert(&mut self, key: &[u8], value: &[u8])
        requires
            old(self).wf(),
        ensures
            final(self).wf(),
            final(self)@ == old(self)@.insert(key@, value@),
            final(self).shape() == old(self).shape().insert(key@, value@),
    {
        let level = self.random_level();
        let ghost nodes0 = self.nodes@;
        let ghost order0 = self.order@;
        let ghost heights0 = heights_of(nodes0, order0);
        let ghost entries0 = self.entries();
        assert(self.wf());

        // The last node before the key, level by level.
        let mut update: Vec<usize> = Vec::new();
        let mut i: usize = 0;
        while i < self.max_level
            invariant
                i <= self.max_level,
                update@.len() == i,
            decreases self.max_level - i,
        {
            update.push(0);
            i = i + 1;
        }
        let mut current: usize = 0;
        let ghost mut p: int = -1;
        let ghost mut ups: Seq<int> = Seq::new(self.max_level as nat, |l: int| -1);
        let mut depth: usize = self.max_level;
        while depth > 0
            invariant
                self.wf(),
                self.nodes@ == nodes0,
                self.order@ == order0,
                heights0 == heights_of(nodes0, order0),
                depth <= self.max_level,
                update@.len() == self.max_level,
                ups.len() == self.max_level,
                -1 <= p < order0.len(),
                current == node_at(order0, p),
                current < nodes0.len(),
                depth <= nodes0[current as int].next@.len(),
                forall|j: int|
                    0 <= j <= p ==> crate::bytes::lex_lt(#[trigger] self.entries()[j].0, key@),
                depth == 0 ==> forall|j: int|
                    p < j < order0.len() ==> !crate::bytes::lex_lt(
                        #[trigger] self.entries()[j].0,
                        key@,
                    ),
                forall|l: int|
                    depth <= l < self.max_level ==> {
                        &&& -1 <= #[trigger] ups[l] <= p
                        &&& update@[l] == node_at(order0, ups[l])
                        &&& l < nodes0[node_at(order0, ups[l])].next@.len()
                        &&& ({
                            let s = succ(heights0, ups[l], l);
                            s < order0.len() ==> !crate::bytes::lex_lt(self.entries()[s].0, key@)
                        })
                    },
            decreases depth,
        {
            depth = depth - 1;
            let (found, Ghost(at)) = self.walk(current, depth, key, Ghost(p));
            current = found;
            update.set(depth, found);
            proof {
                p = at;
                ups = ups.update(depth as int, at);
                if depth == 0 {
                    self.bottom_is_tight(p, key@);
                }
            }
        }
        let ghost at = p + 1;
        proof {
            assert(link_ok(nodes0, order0, p, 0));
            assert(succ(heights0, p, 0) == at) by {
                if at < order0.len() {
                    assert(nodes0[order0[at] as int].next@.len() >= 1);
                    assert(heights0[at] > 0);
                }
            }
        }

        // The bottom successor may hold the same key.
        let existing = self.nodes[current].next[0];
        if existing != 0 && bytes_eq(self.nodes[existing].key.as_slice(), key) {
            self.nodes[existing].value = copy_bytes(value);
            proof {
                assert(heights_of(self.nodes@, order0) =~= heights0);
                assert(self.entries() =~= entries0.update(at, (key@, value@)));
                assert forall|q: int, l: int|
                    -1 <= q < order0.len() && 0 <= l < self.nodes@[node_at(
                        order0,
                        q,
                    )].next@.len() implies #[trigger] link_ok(self.nodes@, order0, q, l) by {
                    assert(link_ok(nodes0, order0, q, l));
                }
                sorted_update(entries0, at, value@);
                map_of_sorted(entries0, at);
            }
            return;
        }
        proof {
            map_of_contains(entries0, key@);
            if map_of(entries0).contains_key(key@) {
                let j = choose|j: int| 0 <= j < entries0.len() && #[trigger] entries0[j].0 == key@;
                crate::bytes::lex_lt_irreflexive(key@);
                assert(j >= at);
                if j > at {
                    assert(crate::bytes::lex_lt(entries0[at].0, entries0[j].0));
                }
            }
        }

        assert forall|l: int| 0 <= l < self.max_level implies {
            &&& 0 <= #[trigger] update@[l] < nodes0.len()
            &&& l < nodes0[update@[l] as int].next@.len()
        } by {
            assert(-1 <= ups[l] <= p);
        }

        // Splice the new node into each lane up to `level`.
        let fresh = self.nodes.len();
        let mut next: Vec<usize> = Vec::new();
        let mut i: usize = 0;
        while i < level + 1
            invariant
                self.nodes@ == nodes0,
                level < self.max_level,
                update@.len() == self.max_level,
                i <= level + 1,
                next@.len() == i,
                forall|l: int|
                    0 <= l < self.max_level ==> {
                        &&& 0 <= #[trigger] update@[l] < nodes0.len()
                        &&& l < nodes0[update@[l] as int].next@.len()
                    },
                forall|l: int|
                    0 <= l < i ==> #[trigger] next@[l] == nodes0[update@[l] as int].next@[l],
            decreases level + 1 - i,
        {
            let link = self.nodes[update[i]].next[i];
            next.push(link);
            i = i + 1;
        }
        self.nodes.push(Node { key: copy_bytes(key), value: copy_bytes(value), next });
        let ghost nodes1 = self.nodes@;
        let ghost before = *self;
        let mut i: usize = 0;
        while i < level + 1
            invariant
                *self == (SkipList { nodes: self.nodes, ..before }),
                level < self.max_level,
                update@.len() == self.max_level,
                i <= level + 1,
                fresh == nodes0.len(),
                nodes1.len() == nodes0.len() + 1,
                self.nodes@.len() == nodes1.len(),
                forall|n: int| 0 <= n < nodes0.len() ==> #[trigger] nodes1[n] == nodes0[n],
                forall|l: int|
                    0 <= l < self.max_level ==> {
                        &&& 0 <= #[trigger] update@[l] < nodes0.len()
                        &&& l < nodes0[update@[l] as int].next@.len()
                    },
                forall|n: int|
                    0 <= n < nodes1.len() ==> {
                        &&& (#[trigger] self.nodes@[n]).key == nodes1[n].key
                        &&& self.nodes@[n].value == nodes1[n].value
                        &&& self.nodes@[n].next@.len() == nodes1[n].next@.len()
                    },
                forall|n: int, l: int|
                    0 <= n < nodes1.len() && 0 <= l < nodes1[n].next@.len()
                        ==> #[trigger] self.nodes@[n].next@[l] == (if l < i && update@[l] == n {
                        fresh
                    } else {
                        nodes1[n].next@[l]
                    }),
            decreases level + 1 - i,
        {
            let pred = update[i];
            self.nodes[pred].next[i] = fresh;
            i = i + 1;
        }
        let cost = key.len().saturating_add(value.len()).saturating_add(
            (level + 1) * LINK_SIZE + NODE_OVERHEAD + ENTRY_OVERHEAD,
        );
        self.size = self.size.saturating_add(cost);
        self.order = Ghost(order0.insert(at, fresh));
        proof {
            assert forall|l: int| 0 <= l < level + 1 implies {
                &&& -1 <= #[trigger] ups[l] < at
                &&& update@[l] == node_at(order0, ups[l])
                &&& l < nodes0[node_at(order0, ups[l])].next@.len()
                &&& succ(heights0, ups[l], l) >= at
            } by {
                succ_is(heights0, ups[l], l);
                let s = succ(heights0, ups[l], l);
                if s < at {
                    assert(crate::bytes::lex_lt(entries0[s].0, key@));
                }
            }
            splice_keeps_links(nodes0, order0, self.nodes@, fresh, at, ups, level as int);
            assert(self.entries() =~= entries0.insert(at, (key@, value@)));
            assert forall|j: int| at <= j < entries0.len() implies crate::bytes::lex_lt(
                key@,
                #[trigger] entries0[j].0,
            ) by {
                crate::bytes::lex_lt_total(entries0[j].0, key@);
            }
            sorted_insert(entries0, at, (key@, value@));
        }
    }

    /// The node after position `p`, or 0.
    fn after(&self, node: usize, Ghost(p): Ghost<int>) -> (r: usize)
        requires
            self.wf(),
            -1 <= p < self.order@.len(),
            node == node_at(self.order@, p),
        ensures
            r == link_to(self.order@, p + 1),
    {
        proof {
            let heights = heights_of(self.nodes@, self.order@);
            assert(self.nodes@[node as int].next@.len() >= 1);
            assert(link_ok(self.nodes@, self.order@, p, 0));
            if p + 1 < self.order@.len() {
                assert(self.nodes@[self.order@[p + 1] as int].next@.len() >= 1);
                assert(heights[p + 1] > 0);
            }
        }
        self.nodes[node].next[0]
    }

    /// Look up a key and return a copy of its value.
    pub fn get(&self, key: &[u8]) -> (r: Option<Vec<u8>>)
        requires
            self.wf(),
        ensures
            match r {
                Some(v) => self@.contains_key(key@) && v@ == self@[key@],
                None => !self@.contains_key(key@),
            },
    {
        let (last, Ghost(p)) = self.seek(key);
        let candidate = self.after(last, Ghost(p));
        let ghost s = self.entries();
        proof {
            map_of_contains(s, key@);
            if map_of(s).contains_key(key@) {
                let i = choose|i: int| 0 <= i < s.len() && #[trigger] s[i].0 == key@;
                crate::bytes::lex_lt_irreflexive(key@);
                assert(i > p);
                if i > p + 1 {
                    assert(crate::bytes::lex_lt(s[p + 1].0, s[i].0));
                }
                assert(i == p + 1);
            }
        }
        if candidate != 0 && bytes_eq(self.nodes[candidate].key.as_slice(), key) {
            proof {
                assert(s[p + 1].0 == key@);
                map_of_sorted(s, p + 1);
            }
            Some(copy_bytes(self.nodes[candidate].value.as_slice()))
        } else {
            None
        }
    }

    /// An iterator over the entries with `start <= key < end`.
    pub fn scan<'a>(&'a self, start: &[u8], end: &'a [u8]) -> (r: ScanIterator<'a>)
        requires
            self.wf(),
        ensures
            r.wf(),
            r.remaining() == crate::entries::range_of(self.entries(), start@, end@),
    {
        let (last, Ghost(p)) = self.seek(start);
        let current = self.after(last, Ghost(p));
        let ghost s = self.entries();
        let ghost lo = p + 1;
        let ghost below = crate::entries::count_below(s, end@);
        let ghost hi = if lo < below {
            below
        } else {
            lo
        };
        proof {
            crate::entries::count_below_sorted(s, end@);
            assert forall|i: int| lo <= i < s.len() implies crate::bytes::lex_le(
                start@,
                #[trigger] s[i].0,
            ) by {
                crate::bytes::lex_lt_total(start@, s[i].0);
            }
            range_of_sorted(s, start@, end@, lo, hi);
        }
        ScanIterator { list: self, current, end, pos: Ghost(lo), stop: Ghost(hi) }
    }

    /// An iterator over all entries in key order.
    pub fn iter(&self) -> (r: FullIterator<'_>)
        requires
            self.wf(),
        ensures
            r.wf(),
            r.remaining() == self.entries(),
    {
        let current = self.after(0, Ghost(-1));
        assert(self.entries().subrange(0, self.entries().len() as int) =~= self.entries());
        FullIterator { list: self, current, pos: Ghost(0) }
    }

    /// What decides how the list goes on.
    pub open spec fn shape(&self) -> ListShape {
        ListShape {
            entries: self@,
            size: self.spec_size() as int,
            rng: self.rng(),
            levels: self.levels(),
        }
    }

    /// Estimated memory use of this skip list in bytes.
    pub fn size(&self) -> (r: usize)
        ensures
            r == self.spec_size(),
    {
        self.size
    }
}

impl View for SkipList {
    type V = Map<Seq<u8>, Seq<u8>>;

    open spec fn view(&self) -> Map<Seq<u8>, Seq<u8>> {
        crate::entries::map_of(self.entries())
    }
}

/// An iterator over a key range of a skip list.
pub struct ScanIterator<'a> {
    list: &'a SkipList,
    current: usize,
    end: &'a [u8],
    pos: Ghost<int>,
    stop: Ghost<int>,
}

impl<'a> ScanIterator<'a> {
    /// The entries still to come.
    pub closed spec fn remaining(&self) -> Seq<(Seq<u8>, Seq<u8>)> {
        self.list.entries().subrange(self.pos@, self.stop@)
    }

    /// The iterator stands in a list, at or before the end of its range.
    pub closed spec fn wf(&self) -> bool {
        &&& self.list.wf()
        &&& 0 <= self.pos@ <= self.stop@ <= self.list.entries().len()
        &&& self.current == link_to(self.list.order@, self.pos@)
        &&& forall|i: int|
            self.pos@ <= i < self.stop@ ==> crate::bytes::lex_lt(
                #[trigger] self.list.entries()[i].0,
                self.end@,
            )
        &&& forall|i: int|
            self.stop@ <= i < self.list.entries().len() ==> !crate::bytes::lex_lt(
                #[trigger] self.list.entries()[i].0,
                self.end@,
            )
    }

    /// The next entry of the range.
    pub fn next(&mut self) -> (r: Option<(Vec<u8>, Vec<u8>)>)
        requires
            old(self).wf(),
        ensures
            final(self).wf(),
            match r {
                Some(e) => {
                    &&& old(self).remaining().len() > 0
                    &&& (e.0@, e.1@) == old(self).remaining()[0]
                    &&& final(self).remaining() == old(self).remaining().drop_first()
                },
                None => {
                    &&& old(self).remaining().len() == 0
                    &&& *final(self) == *old(self)
                },
            },
    {
        if self.current == 0 {
            return None;
        }
        let ghost p = self.pos@;
        assert(p < self.list.order@.len());
        if !bytes_lt(self.list.nodes[self.current].key.as_slice(), self.end) {
            assert(!crate::bytes::lex_lt(self.list.entries()[p].0, self.end@));
            return None;
        }
        assert(crate::bytes::lex_lt(self.list.entries()[p].0, self.end@));
        let r = (
            copy_bytes(self.list.nodes[self.current].key.as_slice()),
            copy_bytes(self.list.nodes[self.current].value.as_slice()),
        );
        let following = self.list.after(self.current, Ghost(p));
        self.current = following;
        self.pos = Ghost(p + 1);
        assert(self.remaining() =~= old(self).remaining().drop_first());
        Some(r)
    }

    /// The entries still to come, as a vector.
    pub fn collect(self) -> (r: Vec<(Vec<u8>, Vec<u8>)>)
        requires
            self.wf(),
        ensures
            crate::entries::pairs(r@) == self.remaining(),
    {
        let mut iter = self;
        let mut r: Vec<(Vec<u8>, Vec<u8>)> = Vec::new();
        assert(crate::entries::pairs(r@) + iter.remaining() =~= self.remaining());
        loop
            invariant
                iter.wf(),
                crate::entries::pairs(r@) + iter.remaining() == self.remaining(),
            decreases iter.remaining().len(),
        {
            let ghost rest = iter.remaining();
            match iter.next() {
                Some(e) => {
                    proof {
                        pairs_push(r@, e);
                        assert(crate::entries::pairs(r@) + rest =~= crate::entries::pairs(
                            r@,
                        ).push((e.0@, e.1@)) + iter.remaining());
                    }
                    r.push(e);
                },
                None => {
                    assert(crate::entries::pairs(r@) =~= self.remaining());
                    return r;
                },
            }
        }
    }
}

/// An iterator over all entries of a skip list.
pub struct FullIterator<'a> {
    list: &'a SkipList,
    current: usize,
    pos: Ghost<int>,
}

impl<'a> FullIterator<'a> {
    /// The entries still to come.
    pub closed spec fn remaining(&self) -> Seq<(Seq<u8>, Seq<u8>)> {
        self.list.entries().subrange(self.pos@, self.list.entries().len() as int)
    }

    /// The iterator stands in a list.
    pub closed spec fn wf(&self) -> bool {
        &&& self.list.wf()
        &&& 0 <= self.pos@ <= self.list.entries().len()
        &&& self.current == link_to(self.list.order@, self.pos@)
    }

    /// The next entry.
    pub fn next(&mut self) -> (r: Option<(Vec<u8>, Vec<u8>)>)
        requires
            old(self).wf(),
        ensures
            final(self).wf(),
            match r {
                Some(e) => {
                    &&& old(self).remaining().len() > 0
                    &&& (e.0@, e.1@) == old(self).remaining()[0]
                    &&& final(self).remaining() == old(self).remaining().drop_first()
                },
                None => {
                    &&& old(self).remaining().len() == 0
                    &&& *final(self) == *old(self)
                },
            },
    {
        if self.current == 0 {
            return None;
        }
        let ghost p = self.pos@;
        assert(p < self.list.order@.len());
        let r = (
            copy_bytes(self.list.nodes[self.current].key.as_slice()),
            copy_bytes(self.list.nodes[self.current].value.as_slice()),
        );
        let following = self.list.after(self.current, Ghost(p));
        self.current = following;
        self.pos = Ghost(p + 1);
        assert(self.remaining() =~= old(self).remaining().drop_first());
        Some(r)
    }

    /// The entries still to come, as a vector.
    pub fn collect(self) -> (r: Vec<(Vec<u8>, Vec<u8>)>)
        requires
            self.wf(),
        ensures
            crate::entries::pairs(r@) == self.remaining(),
    {
        let mut iter = self;
        let mut r: Vec<(Vec<u8>, Vec<u8>)> = Vec::new();
        assert(crate::entries::pairs(r@) + iter.remaining() =~= self.remaining());
        loop
            invariant
                iter.wf(),
                crate::entries::pairs(r@) + iter.remaining() == self.remaining(),
            decreases iter.remaining().len(),
        {
            let ghost rest = iter.remaining();
            match iter.next() {
                Some(e) => {
                    proof {
                        pairs_push(r@, e);
                        assert(crate::entries::pairs(r@) + rest =~= crate::entries::pairs(
                            r@,
                        ).push((e.0@, e.1@)) + iter.remaining());
                    }
                    r.push(e);
                },
                None => {
                    assert(crate::entries::pairs(r@) =~= self.remaining());
                    return r;
                },
            }
        }
    }
}

} // verus!
