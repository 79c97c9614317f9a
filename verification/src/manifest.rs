//! Manifest: records which SSTable files belong to each level.
//!
//! Format (all integers little-endian):
//!
//! ```text
//! [magic: 4 bytes "KVDB"]
//! [version: u32]
//! [num_levels: u32]
//! for each level:
//!     [num_ssts: u32]
//!     for each SST:
//!         [id: u64]
//!         [min_key_len: u32] [min_key: [u8]]
//!         [max_key_len: u32] [max_key: [u8]]
//! ```

use vstd::prelude::*;

use crate::bytes::{append_bytes, copy_bytes, copy_range, le_bounds, le_bytes, le_bytes_len};
use crate::bytes::{le_bytes_are_digits, le_bytes_of_le_value, le_value, le_value_bound};
use crate::bytes::{le_value_of_le_bytes, push_u32, push_u64, read_u32, read_u64};
use crate::error::{corruption, is_corruption, Result};
use crate::memtable::skiplist::capped;
use crate::text::{decimal, decimal_bytes, push_decimal, push_decimal_bytes};

verus! {

/// Current manifest format version.
pub const VERSION: u32 = 1;

/// The bytes that identify a manifest: "KVDB".
pub open spec fn magic() -> Seq<u8> {
    seq![0x4bu8, 0x56, 0x44, 0x42]
}

/// Metadata of an SSTable file, as mathematics sees it.
#[verifier::ext_equal]
pub struct MetaView {
    pub id: u64,
    pub level: int,
    pub min_key: Seq<u8>,
    pub max_key: Seq<u8>,
}

/// The bytes of an SSTable's metadata.
pub open spec fn meta_bytes(m: MetaView) -> Seq<u8> {
    le_bytes(m.id as nat, 8) + le_bytes(m.min_key.len(), 4) + m.min_key + le_bytes(
        m.max_key.len(),
        4,
    ) + m.max_key
}

/// The bytes of a list of metadata.
pub open spec fn metas_bytes(s: Seq<MetaView>) -> Seq<u8>
    decreases s.len(),
{
    if s.len() == 0 {
        Seq::empty()
    } else {
        metas_bytes(s.drop_last()) + meta_bytes(s.last())
    }
}

/// The bytes of a level.
pub open spec fn level_bytes(s: Seq<MetaView>) -> Seq<u8> {
    le_bytes(s.len(), 4) + metas_bytes(s)
}

/// The bytes of a list of levels.
pub open spec fn levels_bytes(levels: Seq<Seq<MetaView>>) -> Seq<u8>
    decreases levels.len(),
{
    if levels.len() == 0 {
        Seq::empty()
    } else {
        levels_bytes(levels.drop_last()) + level_bytes(levels.last())
    }
}

/// The bytes of a manifest.
pub open spec fn manifest_bytes(levels: Seq<Seq<MetaView>>) -> Seq<u8> {
    magic() + le_bytes(VERSION as nat, 4) + le_bytes(levels.len(), 4) + levels_bytes(levels)
}

/// Read a byte string that stands behind its length.
pub open spec fn parse_bytes(data: Seq<u8>, pos: int, field: Seq<char>) -> std::result::Result<
    (Seq<u8>, int),
    Seq<char>,
> {
    let len = le_value(data.subrange(pos, pos + 4)) as int;
    if data.len() < pos + 4 {
        Err("manifest truncated at "@ + field + " len"@)
    } else if data.len() < pos + 4 + len {
        Err("manifest truncated at "@ + field + " data"@)
    } else {
        Ok((data.subrange(pos + 4, pos + 4 + len), pos + 4 + len))
    }
}

/// Read the metadata of an SSTable of the given level.
pub open spec fn parse_meta(data: Seq<u8>, pos: int, level: int) -> std::result::Result<
    (MetaView, int),
    Seq<char>,
> {
    let id = le_value(data.subrange(pos, pos + 8)) as u64;
    if data.len() < pos + 8 {
        Err("manifest truncated at sst id"@)
    } else {
        match parse_bytes(data, pos + 8, "min_key"@) {
            Err(msg) => Err(msg),
            Ok((min_key, p)) => match parse_bytes(data, p, "max_key"@) {
                Err(msg) => Err(msg),
                Ok((max_key, end)) => Ok((MetaView { id, level, min_key, max_key }, end)),
            },
        }
    }
}

/// Read `n` SSTables' metadata from `pos` on.
pub open spec fn parse_metas(data: Seq<u8>, pos: int, level: int, n: nat) -> std::result::Result<
    (Seq<MetaView>, int),
    Seq<char>,
>
    decreases n,
{
    if n == 0 {
        Ok((Seq::empty(), pos))
    } else {
        match parse_metas(data, pos, level, (n - 1) as nat) {
            Err(msg) => Err(msg),
            Ok((s, p)) => match parse_meta(data, p, level) {
                Err(msg) => Err(msg),
                Ok((m, end)) => Ok((s.push(m), end)),
            },
        }
    }
}

/// Read a level at `pos`.
pub open spec fn parse_level(data: Seq<u8>, pos: int, level: int) -> std::result::Result<
    (Seq<MetaView>, int),
    Seq<char>,
> {
    if data.len() < pos + 4 {
        Err("manifest truncated at level count"@)
    } else {
        parse_metas(data, pos + 4, level, le_value(data.subrange(pos, pos + 4)))
    }
}

/// Read the first `n` levels of a manifest.
pub open spec fn parse_levels(data: Seq<u8>, n: nat) -> std::result::Result<
    (Seq<Seq<MetaView>>, int),
    Seq<char>,
>
    decreases n,
{
    if n == 0 {
        Ok((Seq::empty(), 12))
    } else {
        match parse_levels(data, (n - 1) as nat) {
            Err(msg) => Err(msg),
            Ok((s, p)) => match parse_level(data, p, n - 1) {
                Err(msg) => Err(msg),
                Ok((level, end)) => Ok((s.push(level), end)),
            },
        }
    }
}

/// Read a manifest: its levels and where they end, or what is wrong.
pub open spec fn parse_manifest(data: Seq<u8>) -> std::result::Result<
    (Seq<Seq<MetaView>>, int),
    Seq<char>,
> {
    let version = le_value(data.subrange(4, 8));
    if data.len() < 12 {
        Err("manifest too short (need at least 12 bytes)"@)
    } else if data.subrange(0, 4) != magic() {
        Err("invalid manifest magic: ["@ + decimal_bytes(data.subrange(0, 4)) + "]"@)
    } else if version != VERSION {
        Err("unsupported manifest version: "@ + decimal(version))
    } else {
        parse_levels(data, le_value(data.subrange(8, 12)))
    }
}

/// Bytes that start otherwise than a manifest does are refused, and it is told why.
pub proof fn strange_manifest_is_refused(data: Seq<u8>)
    ensures
        data.len() < 12 ==> parse_manifest(data) == Err::<(Seq<Seq<MetaView>>, int), Seq<char>>(
            "manifest too short (need at least 12 bytes)"@,
        ),
        data.len() >= 12 && data.take(4) != seq![0x4bu8, 0x56, 0x44, 0x42] ==> parse_manifest(data) == Err::<
            (Seq<Seq<MetaView>>, int),
            Seq<char>,
        >("invalid manifest magic: ["@ + decimal_bytes(data.take(4)) + "]"@),
        data.len() >= 12 && data.take(4) == seq![0x4bu8, 0x56, 0x44, 0x42] && le_value(
            data.subrange(4, 8),
        ) != 1 ==> parse_manifest(data) == Err::<(Seq<Seq<MetaView>>, int), Seq<char>>(
            "unsupported manifest version: "@ + decimal(le_value(data.subrange(4, 8))),
        ),
{
    if data.len() >= 12 {
        assert(data.subrange(0, 4) =~= data.take(4));
    }
}

/// The lengths of a table's metadata fit the fields that hold them.
pub open spec fn meta_fits(m: MetaView) -> bool {
    m.min_key.len() <= 0xffff_ffff && m.max_key.len() <= 0xffff_ffff
}

/// The lengths of a manifest fit the fields that hold them, and every table
/// knows its level.
pub open spec fn manifest_fits(levels: Seq<Seq<MetaView>>) -> bool {
    &&& levels.len() <= 0xffff_ffff
    &&& forall|l: int| 0 <= l < levels.len() ==> #[trigger] level_fits(levels[l], l)
}

/// The lengths of a level fit the fields that hold them, and every table knows
/// its level.
pub open spec fn level_fits(s: Seq<MetaView>, level: int) -> bool {
    &&& s.len() <= 0xffff_ffff
    &&& forall|i: int| 0 <= i < s.len() ==> meta_fits(#[trigger] s[i]) && s[i].level == level
}

/// The number of levels and the numbers of their tables fit the fields that hold
/// them.
pub open spec fn counts_fit(levels: Seq<Seq<MetaView>>) -> bool {
    &&& levels.len() <= 0xffff_ffff
    &&& forall|l: int| 0 <= l < levels.len() ==> (#[trigger] levels[l]).len() <= 0xffff_ffff
}

/// The first level that lists the table `id`, or the number of levels.
pub open spec fn level_with(levels: Seq<Seq<MetaView>>, id: u64) -> int
    decreases levels.len(),
{
    if levels.len() == 0 || lists(levels[0], id) {
        0
    } else {
        1 + level_with(levels.drop_first(), id)
    }
}

/// Whether a level lists the table `id`.
pub open spec fn lists(s: Seq<MetaView>, id: u64) -> bool {
    exists|i: int| 0 <= i < s.len() && (#[trigger] s[i]).id == id
}

/// A level without the table `id`.
pub open spec fn without_id(s: Seq<MetaView>, id: u64) -> Seq<MetaView> {
    s.filter(|m: MetaView| m.id != id)
}

/// The levels once the table `id` is removed from the first level that lists it.
pub open spec fn removed(levels: Seq<Seq<MetaView>>, id: u64) -> Seq<Seq<MetaView>> {
    let l = level_with(levels, id);
    if l < levels.len() {
        levels.update(l, without_id(levels[l], id))
    } else {
        levels
    }
}

/// The tables of a level.
pub open spec fn at_level(levels: Seq<Seq<MetaView>>, level: int) -> Seq<MetaView> {
    if 0 <= level < levels.len() {
        levels[level]
    } else {
        Seq::empty()
    }
}

/// The levels once a table is added to one of them.
pub open spec fn with_sst(levels: Seq<Seq<MetaView>>, level: int, m: MetaView) -> Seq<
    Seq<MetaView>,
> {
    Seq::new(
        if levels.len() <= level {
            (level + 1) as nat
        } else {
            levels.len()
        },
        |l: int|
            if l == level {
                at_level(levels, l).push(m)
            } else {
                at_level(levels, l)
            },
    )
}

/// How many tables the levels list.
pub open spec fn count_metas(levels: Seq<Seq<MetaView>>) -> int
    decreases levels.len(),
{
    if levels.len() == 0 {
        0
    } else {
        count_metas(levels.drop_last()) + levels.last().len()
    }
}

/// A table that is added stands last on its level; the other levels stay.
pub proof fn added_table_stands_last(levels: Seq<Seq<MetaView>>, level: int, m: MetaView, l: int)
    requires
        0 <= level,
    ensures
        with_sst(levels, level, m).len() == if level < levels.len() {
            levels.len() as int
        } else {
            level + 1
        },
        level < levels.len() ==> with_sst(levels, level, m)[level] == levels[level].push(m),
        levels.len() <= level ==> with_sst(levels, level, m)[level] == seq![m],
        0 <= l < levels.len() && l != level ==> with_sst(levels, level, m)[l] == levels[l],
        levels.len() <= l < level ==> with_sst(levels, level, m)[l] == Seq::<MetaView>::empty(),
        0 <= l < levels.len() ==> at_level(levels, l) == levels[l],
        levels.len() <= l ==> at_level(levels, l) == Seq::<MetaView>::empty(),
{
    if levels.len() <= level {
        assert(with_sst(levels, level, m)[level] =~= seq![m]);
    }
}

/// A table that is removed leaves the first level that lists it, whichever that is,
/// and nothing else changes.
pub proof fn removed_table_leaves(levels: Seq<Seq<MetaView>>, id: u64, l: int)
    requires
        0 <= l < levels.len(),
    ensures
        removed(levels, id).len() == levels.len(),
        (forall|k: int| 0 <= k < l ==> !lists(#[trigger] levels[k], id)) ==> removed(levels, id)[l]
            == levels[l].filter(|m: MetaView| m.id != id),
        (exists|k: int| 0 <= k < l && lists(#[trigger] levels[k], id)) || !lists(levels[l], id)
            ==> removed(levels, id)[l] == levels[l],
{
    level_with_is_first(levels, id);
    let at = level_with(levels, id);
    if forall|k: int| 0 <= k < l ==> !lists(#[trigger] levels[k], id) {
        if !lists(levels[l], id) {
            unlisted_stays(levels[l], id);
        }
    }
    if at == l && exists|k: int| 0 <= k < l && lists(#[trigger] levels[k], id) {
        let k = choose|k: int| 0 <= k < l && lists(#[trigger] levels[k], id);
        assert(!lists(levels[k], id));
    }
}

/// A level that does not list a table stays as it is without it.
proof fn unlisted_stays(s: Seq<MetaView>, id: u64)
    requires
        !lists(s, id),
    ensures
        s.filter(|m: MetaView| m.id != id) == s,
    decreases s.len(),
{
    reveal_with_fuel(Seq::filter, 1);
    if s.len() > 0 {
        let front = s.drop_last();
        assert forall|i: int| 0 <= i < front.len() implies (#[trigger] front[i]).id != id by {
            assert(s[i].id != id);
        }
        unlisted_stays(front, id);
        assert(s[s.len() - 1].id != id);
        assert(front.push(s.last()) =~= s);
    }
}

/// The number of tables is that of all levels together: it grows by one with each
/// table that is added.
pub proof fn count_adds_up(levels: Seq<Seq<MetaView>>, level: Seq<MetaView>)
    ensures
        count_metas(Seq::empty()) == 0,
        count_metas(levels.push(level)) == count_metas(levels) + level.len(),
{
    assert(levels.push(level).drop_last() =~= levels);
}

/// The bytes of a manifest: "KVDB", version 1, the number of levels, and for each
/// level the number of its tables and of each table its number and its first and
/// last key behind their lengths.
pub proof fn manifest_layout(
    levels: Seq<Seq<MetaView>>,
    level: Seq<MetaView>,
    m: MetaView,
)
    ensures
        manifest_bytes(levels).take(12) == seq![0x4bu8, 0x56, 0x44, 0x42, 1, 0, 0, 0] + le_bytes(
            levels.len(),
            4,
        ),
        manifest_bytes(levels.push(level)).skip(12) == manifest_bytes(levels).skip(12)
            + level_bytes(level),
        level_bytes(level).take(4) == le_bytes(level.len(), 4),
        level_bytes(level.push(m)).skip(4) == level_bytes(level).skip(4) + (le_bytes(
            m.id as nat,
            8,
        ) + le_bytes(m.min_key.len(), 4) + m.min_key + le_bytes(m.max_key.len(), 4) + m.max_key),
{
    le_bytes_are_digits(VERSION as nat);
    le_bytes_len(levels.len(), 4);
    le_bytes_len(levels.push(level).len(), 4);
    le_bytes_len(level.len(), 4);
    le_bytes_len(level.push(m).len(), 4);
    assert(levels.push(level).drop_last() =~= levels);
    assert(level.push(m).drop_last() =~= level);
    assert(manifest_bytes(levels).take(12) =~= seq![0x4bu8, 0x56, 0x44, 0x42, 1, 0, 0, 0]
        + le_bytes(levels.len(), 4));
    assert(manifest_bytes(levels).skip(12) =~= levels_bytes(levels));
    assert(manifest_bytes(levels.push(level)).skip(12) =~= levels_bytes(levels.push(level)));
    assert(level_bytes(level).take(4) =~= le_bytes(level.len(), 4));
    assert(level_bytes(level).skip(4) =~= metas_bytes(level));
    assert(level_bytes(level.push(m)).skip(4) =~= metas_bytes(level.push(m)));
}

/// A manifest that is read stands in the bytes as it was written, and every table
/// knows its level. Bytes that do not start as a manifest's do are not read.
pub proof fn read_manifest_was_written(data: Seq<u8>)
    requires
        parse_manifest(data) is Ok,
    ensures
        ({
            let (levels, end) = parse_manifest(data)->Ok_0;
            &&& end <= data.len()
            &&& data.take(end) == manifest_bytes(levels)
            &&& forall|l: int, i: int|
                0 <= l < levels.len() && 0 <= i < levels[l].len() ==> (
                #[trigger] levels[l][i]).level == l
        }),
{
    let n = le_value(data.subrange(8, 12));
    read_levels(data, n);
    let (levels, end) = parse_manifest(data)->Ok_0;
    le_bytes_of_le_value(data.subrange(4, 8));
    le_bytes_of_le_value(data.subrange(8, 12));
    assert(data.take(end) =~= data.subrange(0, 4) + data.subrange(4, 8) + data.subrange(8, 12)
        + data.subrange(12, end));
}

proof fn read_levels(data: Seq<u8>, n: nat)
    requires
        12 <= data.len(),
        parse_levels(data, n) is Ok,
    ensures
        ({
            let (s, end) = parse_levels(data, n)->Ok_0;
            &&& s.len() == n
            &&& 12 <= end <= data.len()
            &&& data.subrange(12, end) == levels_bytes(s)
            &&& forall|l: int, i: int|
                0 <= l < s.len() && 0 <= i < s[l].len() ==> (#[trigger] s[l][i]).level == l
        }),
    decreases n,
{
    let (s, end) = parse_levels(data, n)->Ok_0;
    if n == 0 {
        assert(data.subrange(12, end) =~= Seq::empty());
    } else {
        read_levels(data, (n - 1) as nat);
        let (front, pos) = parse_levels(data, (n - 1) as nat)->Ok_0;
        let head = data.subrange(pos, pos + 4);
        read_metas(data, pos + 4, n - 1, le_value(head));
        le_bytes_of_le_value(head);
        assert(s.drop_last() =~= front);
        assert(data.subrange(12, end) =~= data.subrange(12, pos) + (head + data.subrange(
            pos + 4,
            end,
        )));
        assert forall|l: int, i: int| 0 <= l < s.len() && 0 <= i < s[l].len() implies (
        #[trigger] s[l][i]).level == l by {
            if l < n - 1 {
                assert(front[l][i].level == l);
            }
        }
    }
}

proof fn read_metas(data: Seq<u8>, start: int, level: int, n: nat)
    requires
        0 <= start <= data.len(),
        parse_metas(data, start, level, n) is Ok,
    ensures
        ({
            let (s, end) = parse_metas(data, start, level, n)->Ok_0;
            &&& s.len() == n
            &&& start <= end <= data.len()
            &&& data.subrange(start, end) == metas_bytes(s)
            &&& forall|i: int| 0 <= i < s.len() ==> (#[trigger] s[i]).level == level
        }),
    decreases n,
{
    let (s, end) = parse_metas(data, start, level, n)->Ok_0;
    if n == 0 {
        assert(data.subrange(start, end) =~= Seq::empty());
    } else {
        read_metas(data, start, level, (n - 1) as nat);
        let (front, pos) = parse_metas(data, start, level, (n - 1) as nat)->Ok_0;
        let m = s.last();
        assert(s.drop_last() =~= front);
        let id = data.subrange(pos, pos + 8);
        let a = data.subrange(pos + 8, pos + 12);
        let x = m.min_key.len() as int;
        let b = data.subrange(pos + 12 + x, pos + 16 + x);
        le_bounds();
        le_value_bound(id);
        le_bytes_of_le_value(id);
        le_bytes_of_le_value(a);
        le_bytes_of_le_value(b);
        assert(data.subrange(start, end) =~= data.subrange(start, pos) + (id + a + m.min_key + b
            + m.max_key));
        assert forall|i: int| 0 <= i < s.len() implies (#[trigger] s[i]).level == level by {
            if i < n - 1 {
                assert(front[i].level == level);
            }
        }
    }
}

/// What `level_with` finds.
pub proof fn level_with_is_first(levels: Seq<Seq<MetaView>>, id: u64)
    ensures
        0 <= level_with(levels, id) <= levels.len(),
        level_with(levels, id) < levels.len() ==> lists(levels[level_with(levels, id)], id),
        forall|l: int| 0 <= l < level_with(levels, id) ==> !lists(#[trigger] levels[l], id),
    decreases levels.len(),
{
    if levels.len() > 0 && !lists(levels[0], id) {
        let rest = levels.drop_first();
        level_with_is_first(rest, id);
        assert forall|l: int| 0 <= l < level_with(levels, id) implies !lists(
            #[trigger] levels[l],
            id,
        ) by {
            if l > 0 {
                assert(!lists(rest[l - 1], id));
            }
        }
    }
}

/// A byte string reads back where it stands.
proof fn bytes_roundtrip(data: Seq<u8>, pos: int, b: Seq<u8>, field: Seq<char>)
    requires
        0 <= pos,
        pos + 4 + b.len() <= data.len(),
        b.len() <= 0xffff_ffff,
        data.subrange(pos, pos + 4) == le_bytes(b.len(), 4),
        data.subrange(pos + 4, pos + 4 + b.len()) == b,
    ensures
        parse_bytes(data, pos, field) == Ok::<(Seq<u8>, int), Seq<char>>(
            (b, (pos + 4 + b.len()) as int),
        ),
{
    le_bounds();
    le_value_of_le_bytes(b.len(), 4);
}

/// A table's metadata reads back where it stands.
proof fn meta_roundtrip(data: Seq<u8>, pos: int, m: MetaView)
    requires
        0 <= pos,
        pos + meta_bytes(m).len() <= data.len(),
        data.subrange(pos, pos + meta_bytes(m).len()) == meta_bytes(m),
        meta_fits(m),
    ensures
        parse_meta(data, pos, m.level) == Ok::<(MetaView, int), Seq<char>>(
            (m, (pos + meta_bytes(m).len()) as int),
        ),
{
    let b = meta_bytes(m);
    let x = m.min_key.len() as int;
    let y = m.max_key.len() as int;
    le_bounds();
    le_value_of_le_bytes(m.id as nat, 8);
    le_bytes_len(m.min_key.len(), 4);
    le_bytes_len(m.max_key.len(), 4);
    assert(b.len() == 16 + x + y);
    assert(data.subrange(pos, pos + 8) =~= b.subrange(0, 8));
    assert(b.subrange(0, 8) =~= le_bytes(m.id as nat, 8));
    assert(data.subrange(pos + 8, pos + 12) =~= b.subrange(8, 12));
    assert(b.subrange(8, 12) =~= le_bytes(m.min_key.len(), 4));
    assert(data.subrange(pos + 12, pos + 12 + x) =~= b.subrange(12, 12 + x));
    assert(b.subrange(12, 12 + x) =~= m.min_key);
    bytes_roundtrip(data, pos + 8, m.min_key, "min_key"@);
    assert(data.subrange(pos + 12 + x, pos + 16 + x) =~= b.subrange(12 + x, 16 + x));
    assert(b.subrange(12 + x, 16 + x) =~= le_bytes(m.max_key.len(), 4));
    assert(data.subrange(pos + 16 + x, pos + 16 + x + y) =~= b.subrange(16 + x, 16 + x + y));
    assert(b.subrange(16 + x, 16 + x + y) =~= m.max_key);
    bytes_roundtrip(data, pos + 12 + x, m.max_key, "max_key"@);
}

/// The first `n` tables of a level stand at the front of its bytes.
proof fn metas_bytes_prefix(s: Seq<MetaView>, n: int)
    requires
        0 <= n <= s.len(),
    ensures
        metas_bytes(s.take(n)).len() <= metas_bytes(s).len(),
        metas_bytes(s).take(metas_bytes(s.take(n)).len() as int) == metas_bytes(s.take(n)),
    decreases s.len() - n,
{
    if n == s.len() {
        assert(s.take(n) =~= s);
        assert(metas_bytes(s).take(metas_bytes(s).len() as int) =~= metas_bytes(s));
    } else {
        metas_bytes_prefix(s, n + 1);
        let next = s.take(n + 1);
        assert(next.drop_last() =~= s.take(n));
        let k = metas_bytes(s.take(n)).len() as int;
        let m = metas_bytes(next).len() as int;
        assert(metas_bytes(s).take(k) =~= metas_bytes(s).take(m).take(k));
        assert(metas_bytes(next).take(k) =~= metas_bytes(s.take(n)));
    }
}

/// The first `n` tables of a level read back where they stand.
proof fn metas_roundtrip(data: Seq<u8>, pos: int, level: int, s: Seq<MetaView>, n: int)
    requires
        0 <= pos,
        0 <= n <= s.len(),
        pos + metas_bytes(s).len() <= data.len(),
        data.subrange(pos, pos + metas_bytes(s).len()) == metas_bytes(s),
        level_fits(s, level),
    ensures
        parse_metas(data, pos, level, n as nat) == Ok::<(Seq<MetaView>, int), Seq<char>>(
            (s.take(n), (pos + metas_bytes(s.take(n)).len()) as int),
        ),
    decreases n,
{
    if n == 0 {
        assert(s.take(0) =~= Seq::empty());
    } else {
        metas_roundtrip(data, pos, level, s, n - 1);
        metas_bytes_prefix(s, n);
        let before = s.take(n - 1);
        let upto = s.take(n);
        let m = s[n - 1];
        assert(upto.drop_last() =~= before);
        let k = metas_bytes(before).len() as int;
        let e = metas_bytes(upto).len() as int;
        assert(data.subrange(pos + k, pos + e) =~= metas_bytes(s).take(e).subrange(k, e));
        assert(metas_bytes(upto).subrange(k, e) =~= meta_bytes(m));
        meta_roundtrip(data, pos + k, m);
        assert(before.push(m) =~= upto);
    }
}

/// A level reads back where it stands.
proof fn level_roundtrip(data: Seq<u8>, pos: int, level: int, s: Seq<MetaView>)
    requires
        0 <= pos,
        pos + level_bytes(s).len() <= data.len(),
        data.subrange(pos, pos + level_bytes(s).len()) == level_bytes(s),
        level_fits(s, level),
    ensures
        parse_level(data, pos, level) == Ok::<(Seq<MetaView>, int), Seq<char>>(
            (s, (pos + level_bytes(s).len()) as int),
        ),
{
    let b = level_bytes(s);
    le_bounds();
    le_value_of_le_bytes(s.len(), 4);
    assert(data.subrange(pos, pos + 4) =~= b.subrange(0, 4));
    assert(b.subrange(0, 4) =~= le_bytes(s.len(), 4));
    assert(data.subrange(pos + 4, pos + b.len()) =~= b.subrange(4, b.len() as int));
    assert(b.subrange(4, b.len() as int) =~= metas_bytes(s));
    metas_roundtrip(data, pos + 4, level, s, s.len() as int);
    assert(s.take(s.len() as int) =~= s);
}

/// The first `n` levels stand at the front of the bytes of all levels.
proof fn levels_bytes_prefix(levels: Seq<Seq<MetaView>>, n: int)
    requires
        0 <= n <= levels.len(),
    ensures
        levels_bytes(levels.take(n)).len() <= levels_bytes(levels).len(),
        levels_bytes(levels).take(levels_bytes(levels.take(n)).len() as int) == levels_bytes(
            levels.take(n),
        ),
    decreases levels.len() - n,
{
    if n == levels.len() {
        assert(levels.take(n) =~= levels);
        assert(levels_bytes(levels).take(levels_bytes(levels).len() as int) =~= levels_bytes(
            levels,
        ));
    } else {
        levels_bytes_prefix(levels, n + 1);
        let next = levels.take(n + 1);
        assert(next.drop_last() =~= levels.take(n));
        let k = levels_bytes(levels.take(n)).len() as int;
        let m = levels_bytes(next).len() as int;
        assert(levels_bytes(levels).take(k) =~= levels_bytes(levels).take(m).take(k));
        assert(levels_bytes(next).take(k) =~= levels_bytes(levels.take(n)));
    }
}

/// The first `n` levels of a manifest read back.
proof fn levels_roundtrip(data: Seq<u8>, levels: Seq<Seq<MetaView>>, n: int)
    requires
        0 <= n <= levels.len(),
        12 + levels_bytes(levels).len() <= data.len(),
        data.subrange(12, 12 + levels_bytes(levels).len() as int) == levels_bytes(levels),
        manifest_fits(levels),
    ensures
        parse_levels(data, n as nat) == Ok::<(Seq<Seq<MetaView>>, int), Seq<char>>(
            (levels.take(n), 12 + levels_bytes(levels.take(n)).len() as int),
        ),
    decreases n,
{
    if n == 0 {
        assert(levels.take(0) =~= Seq::empty());
    } else {
        levels_roundtrip(data, levels, n - 1);
        levels_bytes_prefix(levels, n);
        let before = levels.take(n - 1);
        let upto = levels.take(n);
        let s = levels[n - 1];
        assert(upto.drop_last() =~= before);
        let k = levels_bytes(before).len() as int;
        let e = levels_bytes(upto).len() as int;
        assert(data.subrange(12 + k, 12 + e) =~= levels_bytes(levels).take(e).subrange(k, e));
        assert(levels_bytes(upto).subrange(k, e) =~= level_bytes(s));
        assert(level_fits(levels[n - 1], n - 1));
        level_roundtrip(data, 12 + k, n - 1, s);
        assert(before.push(s) =~= upto);
    }
}

/// A manifest whose lengths fit their fields reads back as itself.
pub proof fn manifest_roundtrip(levels: Seq<Seq<MetaView>>)
    requires
        manifest_fits(levels),
    ensures
        parse_manifest(manifest_bytes(levels)) == Ok::<(Seq<Seq<MetaView>>, int), Seq<char>>(
            (levels, manifest_bytes(levels).len() as int),
        ),
{
    let data = manifest_bytes(levels);
    le_bounds();
    le_value_of_le_bytes(VERSION as nat, 4);
    le_value_of_le_bytes(levels.len(), 4);
    assert(data.subrange(0, 4) =~= magic());
    assert(data.subrange(4, 8) =~= le_bytes(VERSION as nat, 4));
    assert(data.subrange(8, 12) =~= le_bytes(levels.len(), 4));
    assert(data.subrange(12, data.len() as int) =~= levels_bytes(levels));
    levels_roundtrip(data, levels, levels.len() as int);
    assert(levels.take(levels.len() as int) =~= levels);
}

/// Metadata for a single SSTable file.
#[derive(Debug, Clone, PartialEq, Eq)]
pub struct SSTMeta {
    pub id: u64,
    pub level: usize,
    pub min_key: Vec<u8>,
    pub max_key: Vec<u8>,
}

impl View for SSTMeta {
    type V = MetaView;

    open spec fn view(&self) -> MetaView {
        MetaView {
            id: self.id,
            level: self.level as int,
            min_key: self.min_key@,
            max_key: self.max_key@,
        }
    }
}

impl SSTMeta {
    /// Convenience constructor.
    pub fn new(id: u64, level: usize, min_key: Vec<u8>, max_key: Vec<u8>) -> (r: Self)
        ensures
            r == (SSTMeta { id, level, min_key, max_key }),
    {
        SSTMeta { id, level, min_key, max_key }
    }

    /// A copy of the metadata.
    pub fn copy(&self) -> (r: Self)
        ensures
            r@ == self@,
    {
        SSTMeta {
            id: self.id,
            level: self.level,
            min_key: copy_bytes(self.min_key.as_slice()),
            max_key: copy_bytes(self.max_key.as_slice()),
        }
    }
}

/// The metadata of an executable list.
pub open spec fn metas(s: Seq<SSTMeta>) -> Seq<MetaView> {
    Seq::new(s.len(), |i: int| s[i]@)
}

/// All tables count, each with its number, its level and its keys.
pub proof fn metas_are_whole(s: Seq<SSTMeta>, i: int)
    requires
        0 <= i < s.len(),
    ensures
        metas(s).len() == s.len(),
        metas(s)[i].id == s[i].id,
        metas(s)[i].level == s[i].level,
        metas(s)[i].min_key == s[i].min_key@,
        metas(s)[i].max_key == s[i].max_key@,
{
}

/// Manages the list of active SSTable files across all levels.
#[derive(Debug)]
pub struct Manifest {
    /// SSTable metadata organized by level.
    pub levels: Vec<Vec<SSTMeta>>,
}

impl View for Manifest {
    type V = Seq<Seq<MetaView>>;

    open spec fn view(&self) -> Seq<Seq<MetaView>> {
        Seq::new(self.levels@.len(), |l: int| metas(self.levels@[l]@))
    }
}

impl Default for Manifest {
    fn default() -> (r: Self)
        ensures
            r@ == Seq::<Seq<MetaView>>::empty(),
    {
        Self::new()
    }
}

/// Metadata that cannot be read leaves the level unreadable.
proof fn parse_metas_error_stays(data: Seq<u8>, pos: int, level: int, i: nat, n: nat)
    requires
        i <= n,
        parse_metas(data, pos, level, i) is Err,
    ensures
        parse_metas(data, pos, level, n) == parse_metas(data, pos, level, i),
    decreases n - i,
{
    if i < n {
        parse_metas_error_stays(data, pos, level, i, (n - 1) as nat);
    }
}

/// A level that cannot be read leaves the manifest unreadable.
proof fn parse_levels_error_stays(data: Seq<u8>, i: nat, n: nat)
    requires
        i <= n,
        parse_levels(data, i) is Err,
    ensures
        parse_levels(data, n) == parse_levels(data, i),
    decreases n - i,
{
    if i < n {
        parse_levels_error_stays(data, i, (n - 1) as nat);
    }
}

impl Manifest {
    /// A manifest without tables.
    pub fn new() -> (r: Self)
        ensures
            r@ == Seq::<Seq<MetaView>>::empty(),
    {
        let r = Manifest { levels: Vec::new() };
        assert(r@ =~= Seq::<Seq<MetaView>>::empty());
        r
    }

    /// The manifest that a file holds; an empty one if there is no file yet.
    pub fn load(data: Option<&[u8]>) -> (r: Result<Self>)
        ensures
            match data {
                None => r matches Ok(m) && m@ == Seq::<Seq<MetaView>>::empty(),
                Some(d) => match (r, parse_manifest(d@)) {
                    (Ok(m), Ok((levels, _))) => m@ == levels,
                    (Err(e), Err(msg)) => is_corruption(e, msg),
                    _ => false,
                },
            },
    {
        match data {
            None => Ok(Self::new()),
            Some(d) => Self::decode(d),
        }
    }

    /// The bytes of the file that holds the manifest.
    pub fn save(&self) -> (r: Vec<u8>)
        ensures
            r@ == manifest_bytes(self@),
    {
        self.encode()
    }

    /// Add an SSTable entry to the given level.
    pub fn add_sst(&mut self, level: usize, meta: SSTMeta)
        requires
            level < usize::MAX,
        ensures
            final(self)@ == with_sst(old(self)@, level as int, meta@),
    {
        let ghost before = self@;
        while self.levels.len() <= level
            invariant
                level < usize::MAX,
                before == old(self)@,
                before.len() <= self@.len(),
                self@.len() <= before.len() || self@.len() <= level + 1,
                forall|l: int| 0 <= l < self@.len() ==> #[trigger] self@[l] == at_level(before, l),
            decreases level + 1 - self.levels@.len(),
        {
            let ghost now = self@;
            self.levels.push(Vec::new());
            assert forall|l: int| 0 <= l < self@.len() implies #[trigger] self@[l] == at_level(
                before,
                l,
            ) by {
                if l < now.len() {
                    assert(self@[l] == now[l]);
                } else {
                    assert(self@[l] =~= Seq::empty());
                }
            }
        }
        let ghost now = self@;
        let ghost old_metas = self.levels@[level as int]@;
        self.levels[level].push(meta);
        assert(metas(self.levels@[level as int]@) =~= metas(old_metas).push(meta@));
        assert(self@ =~= with_sst(before, level as int, meta@)) by {
            assert forall|l: int| 0 <= l < self@.len() implies self@[l] == with_sst(
                before,
                level as int,
                meta@,
            )[l] by {
                assert(now[l] == at_level(before, l));
            }
        }
    }

    /// Remove an SSTable by id from the first level that lists it. Returns
    /// `true` if there is one.
    pub fn remove_sst(&mut self, id: u64) -> (r: bool)
        ensures
            r == (level_with(old(self)@, id) < old(self)@.len()),
            final(self)@ == removed(old(self)@, id),
    {
        let ghost before = self@;
        let mut l: usize = 0;
        proof {
            level_with_is_first(before, id);
        }
        while l < self.levels.len()
            invariant
                l <= self.levels@.len(),
                self@ == before,
                before == old(self)@,
                forall|k: int| 0 <= k < l ==> !lists(#[trigger] before[k], id),
                0 <= level_with(before, id) <= before.len(),
                level_with(before, id) < before.len() ==> lists(
                    before[level_with(before, id)],
                    id,
                ),
                forall|k: int|
                    0 <= k < level_with(before, id) ==> !lists(#[trigger] before[k], id),
            decreases self.levels@.len() - l,
        {
            let kept = Self::without(&self.levels[l], id);
            let ghost s = metas(self.levels@[l as int]@);
            assert(before[l as int] == s);
            if kept.len() < self.levels[l].len() {
                proof {
                    assert(lists(before[l as int], id));
                    assert(level_with(before, id) == l);
                }
                self.levels.set(l, kept);
                assert(self@ =~= removed(before, id));
                return true;
            }
            l = l + 1;
        }
        assert(level_with(before, id) == before.len());
        false
    }

    /// Get all SSTable metadata at a given level.
    pub fn ssts_at_level(&self, level: usize) -> (r: &[SSTMeta])
        ensures
            metas(r@) == at_level(self@, level as int),
    {
        if level < self.levels.len() {
            self.levels[level].as_slice()
        } else {
            let r: &[SSTMeta] = &[];
            assert(metas(r@) =~= Seq::empty());
            r
        }
    }

    /// Total number of SSTable files across all levels.
    pub fn total_ssts(&self) -> (r: usize)
        ensures
            r == capped(count_metas(self@)),
    {
        let mut total: usize = 0;
        let mut l: usize = 0;
        assert(self@.take(0) =~= Seq::empty());
        while l < self.levels.len()
            invariant
                l <= self.levels@.len(),
                total == capped(count_metas(self@.take(l as int))),
            decreases self.levels@.len() - l,
        {
            assert(self@.take(l + 1).drop_last() =~= self@.take(l as int));
            assert(self@.take(l + 1).last() == metas(self.levels@[l as int]@));
            total = total.saturating_add(self.levels[l].len());
            l = l + 1;
        }
        assert(self@.take(l as int) =~= self@);
        total
    }

    /// Serialize the manifest to bytes.
    pub fn encode(&self) -> (r: Vec<u8>)
        ensures
            r@ == manifest_bytes(self@),
    {
        let mut buf: Vec<u8> = Vec::new();
        buf.push(0x4b);
        buf.push(0x56);
        buf.push(0x44);
        buf.push(0x42);
        assert(buf@ =~= magic());
        push_u32(&mut buf, VERSION as u64);
        push_u32(&mut buf, self.levels.len() as u64);
        let ghost head = buf@;
        let mut l: usize = 0;
        assert(self@.take(0) =~= Seq::empty());
        assert(buf@ =~= head + levels_bytes(self@.take(0)));
        while l < self.levels.len()
            invariant
                l <= self.levels@.len(),
                buf@ == head + levels_bytes(self@.take(l as int)),
            decreases self.levels@.len() - l,
        {
            let ghost upto = self@.take(l + 1);
            let ghost start = buf@;
            Self::encode_level(&mut buf, &self.levels[l]);
            assert(upto.drop_last() =~= self@.take(l as int));
            assert(upto.last() == metas(self.levels@[l as int]@));
            assert(buf@ =~= head + levels_bytes(upto));
            l = l + 1;
        }
        assert(self@.take(l as int) =~= self@);
        assert(buf@ =~= manifest_bytes(self@));
        buf
    }

    /// Deserialize a manifest from bytes.
    pub fn decode(data: &[u8]) -> (r: Result<Self>)
        ensures
            match (r, parse_manifest(data@)) {
                (Ok(m), Ok((levels, _))) => m@ == levels,
                (Err(e), Err(msg)) => is_corruption(e, msg),
                _ => false,
            },
    {
        if data.len() < 12 {
            return Err(corruption("manifest too short (need at least 12 bytes)"));
        }
        let found = copy_range(data, 0, 4);
        if found[0] != 0x4b || found[1] != 0x56 || found[2] != 0x44 || found[3] != 0x42 {
            let mut msg = "invalid manifest magic: [".to_string();
            push_decimal_bytes(&mut msg, found.as_slice());
            msg.append("]");
            assert(found@ != magic()) by {
                assert(magic()[0] == 0x4b && magic()[1] == 0x56 && magic()[2] == 0x44 && magic()[3]
                    == 0x42);
            }
            return Err(corruption(msg.as_str()));
        }
        assert(found@ =~= magic());
        let version = read_u32(data, 4);
        if version != VERSION {
            let mut msg = "unsupported manifest version: ".to_string();
            push_decimal(&mut msg, version as u64);
            return Err(corruption(msg.as_str()));
        }
        let num_levels = read_u32(data, 8);
        let mut levels: Vec<Vec<SSTMeta>> = Vec::new();
        let mut pos: usize = 12;
        let mut l: u32 = 0;
        let ghost mut views: Seq<Seq<MetaView>> = Seq::empty();
        while l < num_levels
            invariant
                l <= num_levels,
                12 <= pos <= data.len(),
                num_levels == le_value(data@.subrange(8, 12)),
                views.len() == levels@.len(),
                levels@.len() == l,
                forall|k: int| 0 <= k < levels@.len() ==> metas(#[trigger] levels@[k]@) == views[k],
                parse_levels(data@, l as nat) == Ok::<(Seq<Seq<MetaView>>, int), Seq<char>>(
                    (views, pos as int),
                ),
                parse_manifest(data@) == parse_levels(data@, num_levels as nat),
            decreases num_levels - l,
        {
            let ghost step = parse_level(data@, pos as int, l as int);
            proof {
                if step is Err {
                    assert(parse_levels(data@, (l + 1) as nat) is Err);
                    parse_levels_error_stays(data@, (l + 1) as nat, num_levels as nat);
                }
            }
            match Self::decode_level(data, pos, l as usize) {
                Err(e) => {
                    return Err(e);
                },
                Ok((ssts, end)) => {
                    proof {
                        views = views.push(metas(ssts@));
                    }
                    levels.push(ssts);
                    pos = end;
                    l = l + 1;
                },
            }
        }
        let m = Manifest { levels };
        assert(m@ =~= views);
        Ok(m)
    }

    /// A level without the table `id`.
    fn without(level: &Vec<SSTMeta>, id: u64) -> (r: Vec<SSTMeta>)
        ensures
            metas(r@) == without_id(metas(level@), id),
            r@.len() < level@.len() <==> lists(metas(level@), id),
            r@.len() <= level@.len(),
    {
        let ghost s = metas(level@);
        let ghost keep = |m: MetaView| m.id != id;
        let mut kept: Vec<SSTMeta> = Vec::new();
        let mut i: usize = 0;
        proof {
            reveal_with_fuel(Seq::filter, 1);
            assert(s.take(0) =~= Seq::empty());
            assert(metas(kept@) =~= s.take(0).filter(keep));
        }
        while i < level.len()
            invariant
                i <= level@.len(),
                s == metas(level@),
                keep == (|m: MetaView| m.id != id),
                metas(kept@) == s.take(i as int).filter(keep),
                kept@.len() <= i,
                kept@.len() < i <==> exists|k: int| 0 <= k < i && (#[trigger] s[k]).id == id,
            decreases level@.len() - i,
        {
            proof {
                reveal_with_fuel(Seq::filter, 1);
                assert(s.take(i + 1).drop_last() =~= s.take(i as int));
                assert(s.take(i + 1).last() == s[i as int]);
                assert(s[i as int].id == level@[i as int].id);
            }
            if level[i].id != id {
                let ghost got = kept@;
                kept.push(level[i].copy());
                assert(metas(kept@) =~= metas(got).push(s[i as int]));
            }
            i = i + 1;
        }
        assert(s.take(i as int) =~= s);
        kept
    }

    /// Write a level.
    fn encode_level(buf: &mut Vec<u8>, level: &Vec<SSTMeta>)
        ensures
            final(buf)@ == old(buf)@ + level_bytes(metas(level@)),
    {
        let ghost s = metas(level@);
        let ghost start = buf@;
        push_u32(buf, level.len() as u64);
        let ghost head = buf@;
        let mut i: usize = 0;
        assert(s.take(0) =~= Seq::empty());
        assert(buf@ =~= head + metas_bytes(s.take(0)));
        while i < level.len()
            invariant
                i <= level@.len(),
                s == metas(level@),
                buf@ == head + metas_bytes(s.take(i as int)),
            decreases level@.len() - i,
        {
            let ghost upto = s.take(i + 1);
            let sst = &level[i];
            push_u64(buf, sst.id);
            push_u32(buf, sst.min_key.len() as u64);
            append_bytes(buf, sst.min_key.as_slice());
            push_u32(buf, sst.max_key.len() as u64);
            append_bytes(buf, sst.max_key.as_slice());
            assert(upto.drop_last() =~= s.take(i as int));
            assert(upto.last() == s[i as int]);
            assert(buf@ =~= head + (metas_bytes(s.take(i as int)) + meta_bytes(s[i as int])));
            i = i + 1;
        }
        assert(s.take(i as int) =~= s);
        assert(buf@ =~= start + level_bytes(s));
    }

    /// Read the level at `pos`, and where it ends.
    fn decode_level(data: &[u8], pos: usize, level: usize) -> (r: Result<(Vec<SSTMeta>, usize)>)
        requires
            pos <= data@.len(),
        ensures
            match (r, parse_level(data@, pos as int, level as int)) {
                (Ok((ssts, end)), Ok((s, e))) => metas(ssts@) == s && end == e && pos <= end
                    <= data@.len(),
                (Err(e), Err(msg)) => is_corruption(e, msg),
                _ => false,
            },
    {
        if data.len() - pos < 4 {
            return Err(corruption("manifest truncated at level count"));
        }
        let num_ssts = read_u32(data, pos);
        let start = pos + 4;
        let mut ssts: Vec<SSTMeta> = Vec::new();
        let mut p: usize = start;
        let mut i: u32 = 0;
        assert(metas(ssts@) =~= Seq::empty());
        while i < num_ssts
            invariant
                i <= num_ssts,
                pos <= start <= p <= data.len(),
                parse_metas(data@, start as int, level as int, i as nat) == Ok::<
                    (Seq<MetaView>, int),
                    Seq<char>,
                >((metas(ssts@), p as int)),
                parse_level(data@, pos as int, level as int) == parse_metas(
                    data@,
                    start as int,
                    level as int,
                    num_ssts as nat,
                ),
            decreases num_ssts - i,
        {
            let ghost step = parse_meta(data@, p as int, level as int);
            proof {
                if step is Err {
                    assert(parse_metas(data@, start as int, level as int, (i + 1) as nat) is Err);
                    parse_metas_error_stays(
                        data@,
                        start as int,
                        level as int,
                        (i + 1) as nat,
                        num_ssts as nat,
                    );
                }
            }
            match Self::decode_sst_meta(data, p, level) {
                Err(e) => {
                    return Err(e);
                },
                Ok((sst, end)) => {
                    let ghost got = ssts@;
                    ssts.push(sst);
                    assert(metas(ssts@) =~= metas(got).push(sst@));
                    p = end;
                    i = i + 1;
                },
            }
        }
        Ok((ssts, p))
    }

    /// Read the metadata at `pos`, and where it ends.
    fn decode_sst_meta(data: &[u8], pos: usize, level: usize) -> (r: Result<(SSTMeta, usize)>)
        requires
            pos <= data@.len(),
        ensures
            match (r, parse_meta(data@, pos as int, level as int)) {
                (Ok((sst, end)), Ok((m, e))) => sst@ == m && end == e && pos <= end <= data@.len(),
                (Err(e), Err(msg)) => is_corruption(e, msg),
                _ => false,
            },
    {
        if data.len() - pos < 8 {
            return Err(corruption("manifest truncated at sst id"));
        }
        let id = read_u64(data, pos);
        let (min_key, p) = match Self::decode_bytes(data, pos + 8, "min_key") {
            Ok(x) => x,
            Err(e) => {
                return Err(e);
            },
        };
        let (max_key, end) = match Self::decode_bytes(data, p, "max_key") {
            Ok(x) => x,
            Err(e) => {
                return Err(e);
            },
        };
        Ok((SSTMeta { id, level, min_key, max_key }, end))
    }

    /// Read the byte string at `pos`, and where it ends.
    fn decode_bytes(data: &[u8], pos: usize, field: &str) -> (r: Result<(Vec<u8>, usize)>)
        requires
            pos <= data@.len(),
        ensures
            match (r, parse_bytes(data@, pos as int, field@)) {
                (Ok((bytes, end)), Ok((b, e))) => bytes@ == b && end == e && pos <= end
                    <= data@.len(),
                (Err(e), Err(msg)) => is_corruption(e, msg),
                _ => false,
            },
    {
        if data.len() - pos < 4 {
            let mut msg = "manifest truncated at ".to_string();
            msg.append(field);
            msg.append(" len");
            return Err(corruption(msg.as_str()));
        }
        let len = read_u32(data, pos) as usize;
        let start = pos + 4;
        if data.len() - start < len {
            let mut msg = "manifest truncated at ".to_string();
            msg.append(field);
            msg.append(" data");
            return Err(corruption(msg.as_str()));
        }
        Ok((copy_range(data, start, start + len), start + len))
    }
}

} // verus!
