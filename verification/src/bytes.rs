//! Byte strings: their lexicographic order, and little-endian integers.

use vstd::prelude::*;

verus! {

/// `a` comes strictly before `b` in the lexicographic order of byte strings.
pub open spec fn lex_lt(a: Seq<u8>, b: Seq<u8>) -> bool
    decreases a.len(),
{
    if b.len() == 0 {
        false
    } else if a.len() == 0 {
        true
    } else if a[0] != b[0] {
        a[0] < b[0]
    } else {
        lex_lt(a.drop_first(), b.drop_first())
    }
}

/// `a` is `b` or comes before it.
pub open spec fn lex_le(a: Seq<u8>, b: Seq<u8>) -> bool {
    a == b || lex_lt(a, b)
}

/// No byte string comes before itself.
pub proof fn lex_lt_irreflexive(a: Seq<u8>)
    ensures
        !lex_lt(a, a),
    decreases a.len(),
{
    if a.len() > 0 {
        lex_lt_irreflexive(a.drop_first());
    }
}

/// The order is transitive.
pub proof fn lex_lt_transitive(a: Seq<u8>, b: Seq<u8>, c: Seq<u8>)
    requires
        lex_lt(a, b),
        lex_lt(b, c),
    ensures
        lex_lt(a, c),
    decreases a.len(),
{
    if a.len() > 0 && a[0] == b[0] && b[0] == c[0] {
        lex_lt_transitive(a.drop_first(), b.drop_first(), c.drop_first());
    }
}

/// Two different byte strings are ordered one way or the other.
pub proof fn lex_lt_total(a: Seq<u8>, b: Seq<u8>)
    ensures
        a == b || lex_lt(a, b) || lex_lt(b, a),
    decreases a.len(),
{
    if a.len() > 0 && b.len() > 0 && a[0] == b[0] {
        lex_lt_total(a.drop_first(), b.drop_first());
        if a.drop_first() == b.drop_first() {
            assert(a =~= seq![a[0]] + a.drop_first());
            assert(b =~= seq![b[0]] + b.drop_first());
        }
    } else if a.len() == 0 && b.len() == 0 {
        assert(a =~= b);
    }
}

/// The order never holds both ways.
pub proof fn lex_lt_asymmetric(a: Seq<u8>, b: Seq<u8>)
    requires
        lex_lt(a, b),
    ensures
        !lex_lt(b, a),
        a != b,
{
    lex_lt_irreflexive(a);
    if lex_lt(b, a) {
        lex_lt_transitive(a, b, a);
    }
}

/// Of two byte strings that begin alike, the rest decides.
pub proof fn lex_lt_same_front(p: Seq<u8>, a: Seq<u8>, b: Seq<u8>)
    ensures
        lex_lt(p + a, p + b) == lex_lt(a, b),
    decreases p.len(),
{
    if p.len() == 0 {
        assert(p + a =~= a);
        assert(p + b =~= b);
    } else {
        lex_lt_same_front(p.drop_first(), a, b);
        assert((p + a).drop_first() =~= p.drop_first() + a);
        assert((p + b).drop_first() =~= p.drop_first() + b);
    }
}

/// Of two byte strings, the one with the lower byte where they first differ comes
/// first; one that is the front of the other comes before it.
pub proof fn first_difference_decides(p: Seq<u8>, x: u8, a: Seq<u8>, y: u8, b: Seq<u8>)
    ensures
        x < y ==> lex_lt(p + seq![x] + a, p + seq![y] + b),
        x > y ==> !lex_lt(p + seq![x] + a, p + seq![y] + b),
        lex_lt(p, p + seq![x] + a),
        !lex_lt(p + seq![x] + a, p),
        !lex_lt(p, p),
{
    let s = seq![x] + a;
    let t = seq![y] + b;
    assert(p + seq![x] + a =~= p + s);
    assert(p + seq![y] + b =~= p + t);
    lex_lt_same_front(p, s, t);
    lex_lt_same_front(p, Seq::empty(), s);
    lex_lt_same_front(p, s, Seq::empty());
    lex_lt_same_front(p, Seq::empty(), Seq::empty());
    assert(p + Seq::<u8>::empty() =~= p);
}

/// Where bisection between `lo` and `hi` puts `key` in a list of keys.
pub open spec fn bisect_point(keys: Seq<Seq<u8>>, key: Seq<u8>, lo: int, hi: int) -> int
    decreases hi - lo,
{
    if lo >= hi {
        lo
    } else {
        let mid = lo + (hi - lo) / 2;
        if lex_lt(keys[mid], key) {
            bisect_point(keys, key, mid + 1, hi)
        } else {
            bisect_point(keys, key, lo, mid)
        }
    }
}

/// The keys increase strictly along the list.
pub open spec fn increasing(keys: Seq<Seq<u8>>) -> bool {
    forall|i: int, j: int|
        0 <= i < j < keys.len() ==> lex_lt(#[trigger] keys[i], #[trigger] keys[j])
}

/// Where the keys increase, exactly those in front of the point that bisection
/// finds come before `key`.
pub proof fn bisect_increasing(keys: Seq<Seq<u8>>, key: Seq<u8>, lo: int, hi: int)
    requires
        increasing(keys),
        0 <= lo <= hi <= keys.len(),
        forall|i: int| 0 <= i < lo ==> lex_lt(#[trigger] keys[i], key),
        forall|i: int| hi <= i < keys.len() ==> !lex_lt(#[trigger] keys[i], key),
    ensures
        lo <= bisect_point(keys, key, lo, hi) <= hi,
        forall|i: int|
            0 <= i < bisect_point(keys, key, lo, hi) ==> lex_lt(#[trigger] keys[i], key),
        forall|i: int|
            bisect_point(keys, key, lo, hi) <= i < keys.len() ==> !lex_lt(#[trigger] keys[i], key),
    decreases hi - lo,
{
    if lo < hi {
        let mid = lo + (hi - lo) / 2;
        if lex_lt(keys[mid], key) {
            assert forall|i: int| 0 <= i < mid + 1 implies lex_lt(#[trigger] keys[i], key) by {
                if i < mid {
                    lex_lt_transitive(keys[i], keys[mid], key);
                }
            }
            bisect_increasing(keys, key, mid + 1, hi);
        } else {
            assert forall|i: int| mid <= i < keys.len() implies !lex_lt(#[trigger] keys[i], key) by {
                if i > mid && lex_lt(keys[i], key) {
                    lex_lt_transitive(keys[mid], keys[i], key);
                }
            }
            bisect_increasing(keys, key, lo, mid);
        }
    }
}

/// Whether `a` comes before `b`.
pub fn bytes_lt(a: &[u8], b: &[u8]) -> (r: bool)
    ensures
        r == lex_lt(a@, b@),
{
    let mut i: usize = 0;
    assert(a@.skip(0) =~= a@);
    assert(b@.skip(0) =~= b@);
    while i < a.len() && i < b.len()
        invariant
            i <= a@.len(),
            i <= b@.len(),
            lex_lt(a@, b@) == lex_lt(a@.skip(i as int), b@.skip(i as int)),
        decreases a@.len() - i,
    {
        if a[i] != b[i] {
            return a[i] < b[i];
        }
        assert(a@.skip(i as int).drop_first() =~= a@.skip(i + 1));
        assert(b@.skip(i as int).drop_first() =~= b@.skip(i + 1));
        i += 1;
    }
    i < b.len()
}

/// Whether `a` is `b` or comes before it.
pub fn bytes_le(a: &[u8], b: &[u8]) -> (r: bool)
    ensures
        r == lex_le(a@, b@),
{
    let after = bytes_lt(b, a);
    proof {
        lex_lt_total(a@, b@);
        if lex_lt(b@, a@) {
            lex_lt_asymmetric(b@, a@);
        }
    }
    !after
}

/// Whether two byte strings are equal.
pub fn bytes_eq(a: &[u8], b: &[u8]) -> (r: bool)
    ensures
        r == (a@ == b@),
{
    if a.len() != b.len() {
        return false;
    }
    let mut i: usize = 0;
    while i < a.len()
        invariant
            a@.len() == b@.len(),
            i <= a@.len(),
            forall|j: int| 0 <= j < i ==> a@[j] == b@[j],
        decreases a@.len() - i,
    {
        if a[i] != b[i] {
            return false;
        }
        i += 1;
    }
    assert(a@ =~= b@);
    true
}

/// A copy of a byte string.
pub fn copy_bytes(a: &[u8]) -> (r: Vec<u8>)
    ensures
        r@ == a@,
{
    let mut r: Vec<u8> = Vec::new();
    append_bytes(&mut r, a);
    assert(r@ =~= a@);
    r
}

/// Append a byte string to a buffer.
pub fn append_bytes(buf: &mut Vec<u8>, a: &[u8])
    ensures
        final(buf)@ == old(buf)@ + a@,
{
    buf.extend_from_slice(a);
    assert(buf@ =~= old(buf)@ + a@);
}

/// A copy of `a[from..to]`.
pub fn copy_range(a: &[u8], from: usize, to: usize) -> (r: Vec<u8>)
    requires
        from <= to <= a@.len(),
    ensures
        r@ == a@.subrange(from as int, to as int),
{
    copy_bytes(vstd::slice::slice_subrange(a, from, to))
}

/// The `width` low bytes of `n`, least significant first.
pub open spec fn le_bytes(n: nat, width: nat) -> Seq<u8>
    decreases width,
{
    if width == 0 {
        Seq::empty()
    } else {
        seq![(n % 256) as u8] + le_bytes(n / 256, (width - 1) as nat)
    }
}

/// The number that a byte string spells, least significant byte first.
pub open spec fn le_value(s: Seq<u8>) -> nat
    decreases s.len(),
{
    if s.len() == 0 {
        0
    } else {
        s[0] as nat + 256 * le_value(s.drop_first())
    }
}

/// `256` to the power `width`: how many numbers `width` bytes can spell.
pub open spec fn le_bound(width: nat) -> nat
    decreases width,
{
    if width == 0 {
        1
    } else {
        256 * le_bound((width - 1) as nat)
    }
}

/// `le_bytes` has the width asked for.
pub proof fn le_bytes_len(n: nat, width: nat)
    ensures
        le_bytes(n, width).len() == width,
    decreases width,
{
    if width > 0 {
        le_bytes_len(n / 256, (width - 1) as nat);
    }
}

/// Reading back a number that fits gives the number.
pub proof fn le_value_of_le_bytes(n: nat, width: nat)
    requires
        n < le_bound(width),
    ensures
        le_bytes(n, width).len() == width,
        le_value(le_bytes(n, width)) == n,
    decreases width,
{
    if width > 0 {
        le_value_of_le_bytes(n / 256, (width - 1) as nat);
        let s = le_bytes(n, width);
        assert(s.drop_first() =~= le_bytes(n / 256, (width - 1) as nat));
    }
}

/// The number spelled by a byte string is below the bound of its width.
pub proof fn le_value_bound(s: Seq<u8>)
    ensures
        le_value(s) < le_bound(s.len()),
    decreases s.len(),
{
    if s.len() > 0 {
        le_value_bound(s.drop_first());
    }
}

/// The bytes of a number that bytes spell are these bytes.
pub proof fn le_bytes_of_le_value(s: Seq<u8>)
    ensures
        le_bytes(le_value(s), s.len()) == s,
    decreases s.len(),
{
    if s.len() > 0 {
        let rest = s.drop_first();
        le_bytes_of_le_value(rest);
        assert((s[0] as nat + 256 * le_value(rest)) / 256 == le_value(rest));
        assert((s[0] as nat + 256 * le_value(rest)) % 256 == s[0] as nat);
        assert(seq![s[0]] + rest =~= s);
    }
}

/// Two, four and eight bytes of a number are its digits to the base 256, the least
/// significant first.
pub proof fn le_bytes_are_digits(n: nat)
    ensures
        le_bytes(n, 2) == seq![(n % 256) as u8, (n / 256 % 256) as u8],
        le_bytes(n, 4) == seq![
            (n % 256) as u8,
            (n / 256 % 256) as u8,
            (n / 0x1_0000 % 256) as u8,
            (n / 0x100_0000 % 256) as u8,
        ],
        le_bytes(n, 8) == le_bytes(n % 0x1_0000_0000, 4) + le_bytes(n / 0x1_0000_0000, 4),
{
    reveal_with_fuel(le_bytes, 9);
    assert(n / 256 / 256 == n / 0x1_0000);
    assert(n / 256 / 256 / 256 == n / 0x100_0000);
    assert(n / 256 / 256 / 256 / 256 == n / 0x1_0000_0000);
    let m = n % 0x1_0000_0000;
    assert(m % 256 == n % 256);
    assert(m / 256 % 256 == n / 256 % 256);
    assert(m / 256 / 256 % 256 == n / 256 / 256 % 256);
    assert(m / 256 / 256 / 256 % 256 == n / 256 / 256 / 256 % 256);
    assert(le_bytes(n, 2) =~= seq![(n % 256) as u8, (n / 256 % 256) as u8]);
    assert(le_bytes(n, 4) =~= seq![
        (n % 256) as u8,
        (n / 256 % 256) as u8,
        (n / 0x1_0000 % 256) as u8,
        (n / 0x100_0000 % 256) as u8,
    ]);
    assert(le_bytes(n, 8) =~= le_bytes(m, 4) + le_bytes(n / 0x1_0000_0000, 4));
}

/// What two and four bytes spell.
pub proof fn le_value_weighs_bytes(a: u8, b: u8, c: u8, d: u8)
    ensures
        le_value(seq![a, b]) == a + 256 * b,
        le_value(seq![a, b, c, d]) == a + 256 * b + 0x1_0000 * c + 0x100_0000 * d,
{
    reveal_with_fuel(le_value, 5);
    assert(seq![a, b].drop_first() =~= seq![b]);
    assert(seq![b].drop_first() =~= Seq::<u8>::empty());
    assert(seq![a, b, c, d].drop_first() =~= seq![b, c, d]);
    assert(seq![b, c, d].drop_first() =~= seq![c, d]);
    assert(seq![c, d].drop_first() =~= seq![d]);
    assert(seq![d].drop_first() =~= Seq::<u8>::empty());
}

/// Numbers stand byte by byte, the lowest first, in any width.
pub proof fn lowest_byte_stands_first(n: nat, width: nat, b: u8, rest: Seq<u8>)
    ensures
        le_bytes(n, 0) == Seq::<u8>::empty(),
        le_bytes(n, width + 1) == seq![(n % 256) as u8] + le_bytes(n / 256, width),
        le_value(Seq::empty()) == 0,
        le_value(seq![b] + rest) == b + 256 * le_value(rest),
{
    assert((seq![b] + rest).drop_first() =~= rest);
}

/// What the bounds of the widths in use are.
pub proof fn le_bounds()
    ensures
        le_bound(2) == 0x1_0000,
        le_bound(4) == 0x1_0000_0000,
        le_bound(8) == 0x1_0000_0000_0000_0000,
{
    reveal_with_fuel(le_bound, 9);
}

/// Append the `width` low bytes of `n`, least significant first.
fn push_le(buf: &mut Vec<u8>, n: u64, width: usize)
    ensures
        final(buf)@ == old(buf)@ + le_bytes(n as nat, width as nat),
{
    let mut rest: u64 = n;
    let mut left: usize = width;
    assert(old(buf)@ + le_bytes(n as nat, width as nat) =~= buf@ + le_bytes(rest as nat, left as nat));
    while left > 0
        invariant
            old(buf)@ + le_bytes(n as nat, width as nat) == buf@ + le_bytes(rest as nat, left as nat),
        decreases left,
    {
        let ghost before = buf@;
        buf.push((rest % 256) as u8);
        assert(before + le_bytes(rest as nat, left as nat) =~= buf@ + le_bytes(
            (rest / 256) as nat,
            (left - 1) as nat,
        ));
        rest = rest / 256;
        left = left - 1;
    }
    assert(buf@ + le_bytes(rest as nat, 0) =~= buf@);
}

/// Append the two low bytes of `n`.
pub fn push_u16(buf: &mut Vec<u8>, n: u64)
    ensures
        final(buf)@ == old(buf)@ + le_bytes(n as nat, 2),
{
    push_le(buf, n, 2)
}

/// Append the four low bytes of `n`.
pub fn push_u32(buf: &mut Vec<u8>, n: u64)
    ensures
        final(buf)@ == old(buf)@ + le_bytes(n as nat, 4),
{
    push_le(buf, n, 4)
}

/// Append the eight bytes of `n`.
pub fn push_u64(buf: &mut Vec<u8>, n: u64)
    ensures
        final(buf)@ == old(buf)@ + le_bytes(n as nat, 8),
{
    push_le(buf, n, 8)
}

/// Read the number spelled by `data[pos..pos + width]`.
fn read_le(data: &[u8], pos: usize, width: usize) -> (r: u64)
    requires
        pos + width <= data@.len(),
        width <= 8,
    ensures
        r == le_value(data@.subrange(pos as int, pos + width)),
        r < le_bound(width as nat),
{
    let mut r: u64 = 0;
    let mut i: usize = width;
    proof {
        le_bounds();
        assert(data@.subrange(pos + width, pos + width) =~= Seq::<u8>::empty());
    }
    while i > 0
        invariant
            i <= width <= 8,
            pos + width <= data.len(),
            r == le_value(data@.subrange(pos + i, pos + width)),
        decreases i,
    {
        let ghost tail = data@.subrange(pos + i, pos + width);
        i = i - 1;
        let ghost whole = data@.subrange(pos + i, pos + width);
        proof {
            assert(whole.drop_first() =~= tail);
            le_value_bound(whole);
            le_bounds();
            le_bound_grows(whole.len(), 8);
        }
        r = data[pos + i] as u64 + 256 * r;
    }
    proof {
        le_value_bound(data@.subrange(pos as int, pos + width));
    }
    r
}

/// A wider number has a larger bound.
proof fn le_bound_grows(a: nat, b: nat)
    requires
        a <= b,
    ensures
        le_bound(a) <= le_bound(b),
    decreases b - a,
{
    if a < b {
        le_bound_grows(a + 1, b);
    }
}

/// Read the number spelled by the two bytes at `pos`.
pub fn read_u16(data: &[u8], pos: usize) -> (r: u16)
    requires
        pos + 2 <= data@.len(),
    ensures
        r == le_value(data@.subrange(pos as int, pos + 2)),
{
    let v = read_le(data, pos, 2);
    proof {
        le_bounds();
    }
    v as u16
}

/// Read the number spelled by the four bytes at `pos`.
pub fn read_u32(data: &[u8], pos: usize) -> (r: u32)
    requires
        pos + 4 <= data@.len(),
    ensures
        r == le_value(data@.subrange(pos as int, pos + 4)),
{
    let v = read_le(data, pos, 4);
    proof {
        le_bounds();
    }
    v as u32
}

/// Read the number spelled by the eight bytes at `pos`.
pub fn read_u64(data: &[u8], pos: usize) -> (r: u64)
    requires
        pos + 8 <= data@.len(),
    ensures
        r == le_value(data@.subrange(pos as int, pos + 8)),
{
    read_le(data, pos, 8)
}

} // verus!
