//! Bloom filter: a space-efficient test of set membership.
//!
//! Double hashing gives the bit positions of a key: `h(i) = h1 + i * h2`, so
//! only two hash computations are needed however many positions there are.

use vstd::prelude::*;

use crate::bytes::{le_bounds, le_bytes, le_bytes_len, le_bytes_of_le_value, le_value};
use crate::bytes::{le_value_bound, le_value_of_le_bytes};
use crate::bytes::{push_u32, push_u64, read_u32, read_u64};
use crate::error::{corruption, is_corruption, Result};

verus! {

/// The prime of the 32-bit FNV hash.
pub const FNV_PRIME: u32 = 0x0100_0193;

/// The offset basis of the 32-bit FNV hash.
pub const FNV_BASIS: u32 = 0x811c_9dc5;

/// The FNV-1a hash of a byte string that starts from `seed`.
pub open spec fn fnv(key: Seq<u8>, seed: u32) -> u32
    decreases key.len(),
{
    if key.len() == 0 {
        seed
    } else {
        (fnv(key.drop_last(), seed) ^ (key.last() as u32)).wrapping_mul(FNV_PRIME)
    }
}

/// The two hashes of a key. The second is odd.
pub open spec fn two_hashes(key: Seq<u8>) -> (u32, u32) {
    (
        fnv(key, FNV_BASIS),
        fnv(key, FNV_BASIS ^ FNV_PRIME).wrapping_mul(2).wrapping_add(1),
    )
}

/// The `i`-th bit position of a key in a filter of `num_bits` bits.
pub open spec fn probe(key: Seq<u8>, i: int, num_bits: int) -> int {
    let (h1, h2) = two_hashes(key);
    (h1.wrapping_add(((i % 0x1_0000_0000) as u32).wrapping_mul(h2)) as int) % num_bits
}

/// Whether the bit at `pos` is set.
pub open spec fn bit_set(bits: Seq<u64>, pos: int) -> bool {
    bits[pos / 64] & (1u64 << ((pos % 64) as u64)) != 0
}

/// The bits are numbered word by word, in each word from the lowest on.
pub proof fn bits_are_numbered_from_lowest(bits: Seq<u64>, word: int, k: u64)
    requires
        0 <= word < bits.len(),
        k < 64,
    ensures
        bit_set(bits, 64 * word + k) <==> (bits[word] >> k) & 1 == 1,
{
    let w = bits[word];
    assert((64 * word + k) / 64 == word);
    assert((64 * word + k) % 64 == k);
    assert(w & (1u64 << k) != 0 <==> (w >> k) & 1 == 1) by (bit_vector)
        requires
            k < 64,
    ;
}

/// Whether `pos` is one of the bit positions of a key in the list.
pub open spec fn marked(
    keys: Seq<Seq<u8>>,
    num_hashes: int,
    num_bits: int,
    pos: int,
) -> bool {
    exists|k: int, i: int|
        0 <= k < keys.len() && 0 <= i < num_hashes && #[trigger] probe(keys[k], i, num_bits) == pos
}

/// The keys of an executable list.
pub open spec fn key_views(keys: Seq<&[u8]>) -> Seq<Seq<u8>> {
    Seq::new(keys.len(), |i: int| keys[i]@)
}

/// All keys count, each with all its bytes.
pub proof fn keys_are_whole(keys: Seq<&[u8]>, i: int)
    ensures
        key_views(keys).len() == keys.len(),
        0 <= i < keys.len() ==> key_views(keys)[i] == keys[i]@,
{
}

/// How many hashes suit a number of bits per key: that number times the natural
/// logarithm of two, rounded, but at least 1 and at most 30.
pub open spec fn hashes_for(bits_per_key: nat) -> int {
    let k = (bits_per_key * 693147 + 500000) / 1000000;
    if k < 1 {
        1
    } else if k > 30 {
        30
    } else {
        k as int
    }
}

/// How many bits a filter of `n` keys has.
pub open spec fn bits_for(n: nat, bits_per_key: nat) -> int {
    if n * bits_per_key < 64 {
        64
    } else {
        (n * bits_per_key) as int
    }
}

/// The bytes of a list of words.
pub open spec fn words_bytes(bits: Seq<u64>) -> Seq<u8>
    decreases bits.len(),
{
    if bits.len() == 0 {
        Seq::empty()
    } else {
        words_bytes(bits.drop_last()) + le_bytes(bits.last() as nat, 8)
    }
}

/// The bytes of a filter.
pub open spec fn filter_bytes(f: BloomView) -> Seq<u8> {
    le_bytes(f.num_hashes, 4) + le_bytes(f.num_bits, 4) + le_bytes(f.bits.len(), 4) + words_bytes(
        f.bits,
    )
}

/// Read a filter, or say what is wrong.
pub open spec fn parse_filter(data: Seq<u8>) -> std::result::Result<BloomView, Seq<char>> {
    let num_words = le_value(data.subrange(8, 12)) as int;
    if data.len() < 12 {
        Err("bloom filter too short"@)
    } else if data.len() < 12 + num_words * 8 {
        Err("bloom filter data truncated"@)
    } else {
        Ok(
            BloomView {
                num_hashes: le_value(data.subrange(0, 4)),
                num_bits: le_value(data.subrange(4, 8)),
                bits: Seq::new(
                    num_words as nat,
                    |i: int| le_value(data.subrange(12 + i * 8, 20 + i * 8)) as u64,
                ),
            },
        )
    }
}

/// A filter, as mathematics sees it.
#[verifier::ext_equal]
pub struct BloomView {
    pub bits: Seq<u64>,
    pub num_hashes: nat,
    pub num_bits: nat,
}

impl BloomView {
    /// All bit positions lie in the bit array.
    pub open spec fn wf(self) -> bool {
        self.num_bits <= self.bits.len() * 64
    }

    /// Whether the filter answers that the key may be in the set.
    pub open spec fn may_contain(self, key: Seq<u8>) -> bool {
        &&& self.num_bits > 0
        &&& forall|i: int|
            0 <= i < self.num_hashes ==> bit_set(
                self.bits,
                #[trigger] probe(key, i, self.num_bits as int),
            )
    }

    /// The filter of a list of keys: exactly the bits at the positions of the
    /// keys are set.
    pub open spec fn built_from(self, keys: Seq<Seq<u8>>, bits_per_key: nat) -> bool {
        &&& self.num_bits == bits_for(keys.len(), bits_per_key)
        &&& self.num_hashes == hashes_for(bits_per_key)
        &&& self.bits.len() == (self.num_bits + 63) / 64
        &&& forall|pos: int|
            0 <= pos < self.bits.len() * 64 ==> #[trigger] bit_set(self.bits, pos) == marked(
                keys,
                self.num_hashes as int,
                self.num_bits as int,
                pos,
            )
    }

    /// The numbers of a filter fit the fields that hold them.
    pub open spec fn fits(self) -> bool {
        &&& self.num_hashes <= 0xffff_ffff
        &&& self.num_bits <= 0xffff_ffff
        &&& self.bits.len() <= 0xffff_ffff
    }
}

/// A filter never denies a key that it was built from.
pub proof fn no_false_negatives(
    f: BloomView,
    keys: Seq<Seq<u8>>,
    bits_per_key: nat,
    key: Seq<u8>,
)
    requires
        f.built_from(keys, bits_per_key),
        keys.contains(key),
    ensures
        f.may_contain(key),
{
    let k = choose|k: int| 0 <= k < keys.len() && keys[k] == key;
    assert forall|i: int| 0 <= i < f.num_hashes implies bit_set(
        f.bits,
        #[trigger] probe(key, i, f.num_bits as int),
    ) by {
        let pos = probe(keys[k], i, f.num_bits as int);
        assert(marked(keys, f.num_hashes as int, f.num_bits as int, pos));
        assert(0 <= pos < f.bits.len() * 64);
        assert(bit_set(f.bits, pos));
    }
}

/// A filter denies every key of which one bit position, the `i`-th, is no position
/// of any of its keys. A filter of no keys denies all.
pub proof fn filter_denies_unmarked(
    f: BloomView,
    keys: Seq<Seq<u8>>,
    bits_per_key: nat,
    key: Seq<u8>,
    i: int,
)
    requires
        f.built_from(keys, bits_per_key),
        0 <= i < f.num_hashes,
        forall|k: int, j: int|
            0 <= k < keys.len() && 0 <= j < f.num_hashes ==> #[trigger] probe(
                keys[k],
                j,
                f.num_bits as int,
            ) != probe(key, i, f.num_bits as int),
    ensures
        !f.may_contain(key),
{
    let pos = probe(key, i, f.num_bits as int);
    assert(0 <= pos < f.bits.len() * 64);
    assert(!marked(keys, f.num_hashes as int, f.num_bits as int, pos));
    assert(!bit_set(f.bits, pos));
}

/// A filter of no keys denies all.
pub proof fn empty_filter_denies_all(f: BloomView, bits_per_key: nat, key: Seq<u8>)
    requires
        f.built_from(Seq::empty(), bits_per_key),
    ensures
        !f.may_contain(key),
{
    filter_denies_unmarked(f, Seq::empty(), bits_per_key, key, 0);
}

/// A filter denies no key of which every bit position is one of its keys'.
pub proof fn filter_allows_marked(
    f: BloomView,
    keys: Seq<Seq<u8>>,
    bits_per_key: nat,
    key: Seq<u8>,
)
    requires
        f.built_from(keys, bits_per_key),
        forall|i: int|
            0 <= i < f.num_hashes ==> marked(
                keys,
                f.num_hashes as int,
                f.num_bits as int,
                #[trigger] probe(key, i, f.num_bits as int),
            ),
    ensures
        f.may_contain(key),
{
    assert forall|i: int| 0 <= i < f.num_hashes implies bit_set(
        f.bits,
        #[trigger] probe(key, i, f.num_bits as int),
    ) by {
        let pos = probe(key, i, f.num_bits as int);
        assert(0 <= pos < f.bits.len() * 64);
        assert(marked(keys, f.num_hashes as int, f.num_bits as int, pos));
    }
}

/// A filter has as many bits as its keys are to have together, but no fewer than
/// 64, and as many hashes as suit the bits per key: their number times the natural
/// logarithm of two, to the nearest whole, between 1 and 30.
pub proof fn filter_is_sized(f: BloomView, keys: Seq<Seq<u8>>, bits_per_key: nat)
    requires
        f.built_from(keys, bits_per_key),
    ensures
        keys.len() * bits_per_key >= 64 ==> f.num_bits == keys.len() * bits_per_key,
        keys.len() * bits_per_key < 64 ==> f.num_bits == 64,
        f.num_bits <= 64 * f.bits.len() < f.num_bits + 64,
        1 <= f.num_hashes <= 30,
        1 < f.num_hashes < 30 ==> 1000000 * f.num_hashes - 500000 <= bits_per_key * 693147
            < 1000000 * f.num_hashes + 500000 + 1,
        f.num_hashes == 1 ==> bits_per_key * 693147 < 1500000,
        f.num_hashes == 30 ==> bits_per_key * 693147 >= 29500000,
{
    let x = bits_per_key * 693147 + 500000;
    assert(x == 1000000 * (x / 1000000) + x % 1000000);
}

/// Every bit position lies in the filter, and they are spread by two hashes: the
/// position `i` is `h1 + i * h2`, where `h1` is the FNV-1a hash of the key.
#[verifier::rlimit(40)]
pub proof fn probes_are_spread(key: Seq<u8>, b: u8, seed: u32, i: int, num_bits: int)
    requires
        0 <= i < 0x1_0000_0000,
        0 < num_bits,
    ensures
        0 <= probe(key, i, num_bits) < num_bits,
        probe(key, i, num_bits) == ((two_hashes(key).0 + i * two_hashes(key).1) % 0x1_0000_0000)
            % num_bits,
        two_hashes(key).0 == fnv(key, 0x811c_9dc5),
        two_hashes(key).1 % 2 == 1,
        fnv(Seq::empty(), seed) == seed,
        fnv(key.push(b), seed) as int == (fnv(key, seed) ^ (b as u32)) * 0x0100_0193
            % 0x1_0000_0000,
{
    let (h1, h2) = two_hashes(key);
    let k = (i as u32).wrapping_mul(h2);
    assert(i % 0x1_0000_0000 == i);
    assert(k as int == (i * h2) % 0x1_0000_0000);
    assert(h1.wrapping_add(k) as int == (h1 + k) % 0x1_0000_0000);
    assert((h1 + (i * h2) % 0x1_0000_0000) % 0x1_0000_0000 == (h1 + i * h2) % 0x1_0000_0000)
        by (nonlinear_arith);
    assert(key.push(b).drop_last() =~= key);
}

/// A filter that is read stands in the bytes as it was written.
pub proof fn read_filter_was_written(data: Seq<u8>)
    requires
        parse_filter(data) is Ok,
    ensures
        ({
            let f = parse_filter(data)->Ok_0;
            let n = (12 + 8 * f.bits.len()) as int;
            &&& n <= data.len()
            &&& data.take(n) == le_bytes(f.num_hashes, 4) + le_bytes(f.num_bits, 4) + le_bytes(
                f.bits.len(),
                4,
            ) + words_bytes(f.bits)
            &&& filter_bytes(f) == data.take(n)
        }),
{
    let f = parse_filter(data)->Ok_0;
    let n = (12 + 8 * f.bits.len()) as int;
    le_bytes_of_le_value(data.subrange(0, 4));
    le_bytes_of_le_value(data.subrange(4, 8));
    le_bytes_of_le_value(data.subrange(8, 12));
    read_words(data, f.bits, f.bits.len() as int);
    assert(f.bits.take(f.bits.len() as int) =~= f.bits);
    assert(data.take(n) =~= data.subrange(0, 4) + data.subrange(4, 8) + data.subrange(8, 12)
        + data.subrange(12, n));
}

proof fn read_words(data: Seq<u8>, bits: Seq<u64>, n: int)
    requires
        0 <= n <= bits.len(),
        12 + 8 * bits.len() <= data.len(),
        forall|i: int|
            0 <= i < bits.len() ==> #[trigger] bits[i] == le_value(
                data.subrange(12 + i * 8, 20 + i * 8),
            ) as u64,
    ensures
        data.subrange(12, 12 + 8 * n) == words_bytes(bits.take(n)),
    decreases n,
{
    if n == 0 {
        assert(bits.take(0) =~= Seq::empty());
        assert(data.subrange(12, 12) =~= Seq::empty());
    } else {
        read_words(data, bits, n - 1);
        let i = n - 1;
        let word = data.subrange(12 + i * 8, 20 + i * 8);
        le_bounds();
        le_value_bound(word);
        le_bytes_of_le_value(word);
        assert(bits[i] == le_value(word) as u64);
        assert(bits.take(n).drop_last() =~= bits.take(n - 1));
        assert(data.subrange(12, 12 + 8 * n) =~= data.subrange(12, 12 + 8 * i) + word);
    }
}

/// Bytes that are too few for the words that they announce make no filter.
pub proof fn short_filter_is_refused(data: Seq<u8>)
    ensures
        parse_filter(data) is Ok <==> data.len() >= 12 && data.len() >= 12 + 8 * le_value(
            data.subrange(8, 12),
        ),
{
}

/// A filter whose numbers fit their fields reads back as itself, whatever
/// follows it.
pub proof fn filter_roundtrip(f: BloomView, rest: Seq<u8>)
    requires
        f.fits(),
    ensures
        parse_filter(filter_bytes(f) + rest) == Ok::<BloomView, Seq<char>>(f),
{
    let data = filter_bytes(f) + rest;
    le_bounds();
    le_value_of_le_bytes(f.num_hashes, 4);
    le_value_of_le_bytes(f.num_bits, 4);
    le_value_of_le_bytes(f.bits.len(), 4);
    assert(data.subrange(0, 4) =~= le_bytes(f.num_hashes, 4));
    assert(data.subrange(4, 8) =~= le_bytes(f.num_bits, 4));
    assert(data.subrange(8, 12) =~= le_bytes(f.bits.len(), 4));
    words_bytes_len(f.bits);
    let parsed = parse_filter(data)->Ok_0;
    assert forall|i: int| 0 <= i < f.bits.len() implies parsed.bits[i] == f.bits[i] by {
        words_bytes_at(f.bits, i);
        le_value_of_le_bytes(f.bits[i] as nat, 8);
        assert(data.subrange(12 + i * 8, 20 + i * 8) =~= words_bytes(f.bits).subrange(
            i * 8,
            i * 8 + 8,
        ));
    }
    assert(parsed.bits =~= f.bits);
}

/// Every word takes eight bytes.
pub proof fn words_bytes_len(bits: Seq<u64>)
    ensures
        words_bytes(bits).len() == bits.len() * 8,
    decreases bits.len(),
{
    if bits.len() > 0 {
        words_bytes_len(bits.drop_last());
        le_bytes_len(bits.last() as nat, 8);
    }
}

/// Where the bytes of a word stand.
proof fn words_bytes_at(bits: Seq<u64>, i: int)
    requires
        0 <= i < bits.len(),
    ensures
        words_bytes(bits).len() == bits.len() * 8,
        words_bytes(bits).subrange(i * 8, i * 8 + 8) == le_bytes(bits[i] as nat, 8),
    decreases bits.len(),
{
    let front = bits.drop_last();
    words_bytes_len(bits);
    words_bytes_len(front);
    le_bytes_len(bits.last() as nat, 8);
    if i == bits.len() - 1 {
        assert(words_bytes(bits).subrange(i * 8, i * 8 + 8) =~= le_bytes(bits[i] as nat, 8));
    } else {
        words_bytes_at(front, i);
        assert(words_bytes(bits).subrange(i * 8, i * 8 + 8) =~= words_bytes(front).subrange(
            i * 8,
            i * 8 + 8,
        ));
    }
}

/// Setting a bit sets that bit and no other.
proof fn set_bit(bits: Seq<u64>, pos: int, other: int)
    requires
        0 <= pos < bits.len() * 64,
        0 <= other < bits.len() * 64,
    ensures
        bit_set(
            bits.update(pos / 64, bits[pos / 64] | (1u64 << ((pos % 64) as u64))),
            other,
        ) == (bit_set(bits, other) || other == pos),
{
    let w = bits[pos / 64];
    let a = (pos % 64) as u64;
    let b = (other % 64) as u64;
    assert(((w | (1u64 << a)) & (1u64 << b) != 0) == (w & (1u64 << b) != 0 || a == b))
        by (bit_vector)
        requires
            a < 64,
            b < 64,
    ;
}

/// A Bloom filter for testing whether a key may be in a set.
///
/// False positives are possible; false negatives are not.
#[derive(Debug, Clone)]
pub struct BloomFilter {
    bits: Vec<u64>,
    num_hashes: usize,
    num_bits: usize,
}

impl View for BloomFilter {
    type V = BloomView;

    closed spec fn view(&self) -> BloomView {
        BloomView {
            bits: self.bits@,
            num_hashes: self.num_hashes as nat,
            num_bits: self.num_bits as nat,
        }
    }
}

impl BloomFilter {
    /// Build a Bloom filter from the given keys.
    ///
    /// `bits_per_key` controls the rate of false positives: 10 bits per key give
    /// about 1%, 14 about 0.1%.
    pub fn build(keys: &[&[u8]], bits_per_key: usize) -> (r: Self)
        requires
            keys@.len() * bits_per_key <= usize::MAX,
        ensures
            r@.wf(),
            r@.built_from(key_views(keys@), bits_per_key as nat),
    {
        let n = keys.len();
        let wanted = n * bits_per_key;
        let num_bits = if wanted < 64 {
            64
        } else {
            wanted
        };
        let num_words = num_bits / 64 + (if num_bits % 64 == 0 {
            0usize
        } else {
            1usize
        });
        let num_hashes = Self::optimal_hashes(bits_per_key);
        let mut bits: Vec<u64> = Vec::new();
        let mut w: usize = 0;
        while w < num_words
            invariant
                w <= num_words,
                bits@.len() == w,
                forall|j: int| 0 <= j < w ==> bits@[j] == 0,
            decreases num_words - w,
        {
            bits.push(0);
            w = w + 1;
        }
        let ghost all = key_views(keys@);
        proof {
            assert(all.take(0) =~= Seq::<Seq<u8>>::empty());
            assert forall|pos: int| 0 <= pos < bits@.len() * 64 implies !#[trigger] bit_set(
                bits@,
                pos,
            ) by {
                let b = (pos % 64) as u64;
                assert(0u64 & (1u64 << b) == 0) by (bit_vector);
            }
        }
        let mut k: usize = 0;
        while k < keys.len()
            invariant
                k <= keys@.len(),
                all == key_views(keys@),
                num_hashes <= 30,
                0 < num_bits <= bits@.len() * 64,
                bits@.len() == num_words,
                forall|pos: int|
                    0 <= pos < num_words * 64 ==> #[trigger] bit_set(bits@, pos) == marked(
                        all.take(k as int),
                        num_hashes as int,
                        num_bits as int,
                        pos,
                    ),
            decreases keys@.len() - k,
        {
            let (h1, h2) = Self::double_hash(keys[k]);
            let ghost key = all[k as int];
            let ghost before = all.take(k as int);
            let mut i: usize = 0;
            while i < num_hashes
                invariant
                    i <= num_hashes <= 30,
                    (h1, h2) == two_hashes(key),
                    0 < num_bits <= bits@.len() * 64,
                    bits@.len() == num_words,
                    forall|pos: int|
                        0 <= pos < num_words * 64 ==> #[trigger] bit_set(bits@, pos) == (marked(
                            before,
                            num_hashes as int,
                            num_bits as int,
                            pos,
                        ) || exists|j: int|
                            0 <= j < i && #[trigger] probe(key, j, num_bits as int) == pos),
                decreases num_hashes - i,
            {
                let idx = h1.wrapping_add((i as u32).wrapping_mul(h2));
                let pos = (idx as usize) % num_bits;
                let ghost old_bits = bits@;
                assert(pos == probe(key, i as int, num_bits as int));
                let word = bits[pos / 64] | (1u64 << ((pos % 64) as u64));
                bits.set(pos / 64, word);
                proof {
                    assert forall|q: int| 0 <= q < num_words * 64 implies #[trigger] bit_set(
                        bits@,
                        q,
                    ) == (marked(before, num_hashes as int, num_bits as int, q) || exists|j: int|
                        0 <= j < i + 1 && #[trigger] probe(key, j, num_bits as int) == q) by {
                        set_bit(old_bits, pos as int, q);
                        assert(bit_set(old_bits, q) == bit_set(old_bits, q));
                        if exists|j: int|
                            0 <= j < i + 1 && #[trigger] probe(key, j, num_bits as int) == q {
                            let j = choose|j: int|
                                0 <= j < i + 1 && #[trigger] probe(key, j, num_bits as int) == q;
                            if j < i {
                                assert(probe(key, j, num_bits as int) == q);
                            }
                        }
                        if q == pos {
                            assert(probe(key, i as int, num_bits as int) == q);
                        }
                    }
                }
                i = i + 1;
            }
            proof {
                let upto = all.take(k + 1);
                assert forall|pos: int| 0 <= pos < num_words * 64 implies #[trigger] bit_set(
                    bits@,
                    pos,
                ) == marked(upto, num_hashes as int, num_bits as int, pos) by {
                    marked_push(before, key, num_hashes as int, num_bits as int, pos);
                    assert(before.push(key) =~= upto);
                }
            }
            k = k + 1;
        }
        assert(all.take(k as int) =~= all);
        BloomFilter { bits, num_hashes, num_bits }
    }

    /// Test whether the key may be in the set.
    ///
    /// `true` means that the key might be present, `false` that it is not.
    pub fn may_contain(&self, key: &[u8]) -> (r: bool)
        requires
            self@.wf(),
        ensures
            r == self@.may_contain(key@),
    {
        if self.num_bits == 0 {
            return false;
        }
        let (h1, h2) = Self::double_hash(key);
        let mut i: usize = 0;
        while i < self.num_hashes
            invariant
                i <= self.num_hashes,
                (h1, h2) == two_hashes(key@),
                0 < self.num_bits <= self.bits@.len() * 64,
                forall|j: int|
                    0 <= j < i ==> bit_set(
                        self.bits@,
                        #[trigger] probe(key@, j, self.num_bits as int),
                    ),
            decreases self.num_hashes - i,
        {
            let step = ((i as u64) % 0x1_0000_0000) as u32;
            let idx = h1.wrapping_add(step.wrapping_mul(h2));
            let pos = (idx as usize) % self.num_bits;
            assert(pos == probe(key@, i as int, self.num_bits as int));
            if self.bits[pos / 64] & (1u64 << ((pos % 64) as u64)) == 0 {
                assert(!bit_set(self.bits@, probe(key@, i as int, self.num_bits as int)));
                return false;
            }
            i = i + 1;
        }
        true
    }

    /// Whether all bit positions lie in the bit array, as in every filter that
    /// was built here.
    pub fn is_consistent(&self) -> (r: bool)
        ensures
            r == self@.wf(),
    {
        self.num_bits / 64 + (if self.num_bits % 64 == 0 {
            0usize
        } else {
            1usize
        }) <= self.bits.len()
    }

    /// Serialize the filter to bytes.
    pub fn encode(&self) -> (r: Vec<u8>)
        ensures
            r@ == filter_bytes(self@),
    {
        let mut buf: Vec<u8> = Vec::new();
        push_u32(&mut buf, self.num_hashes as u64);
        push_u32(&mut buf, self.num_bits as u64);
        push_u32(&mut buf, self.bits.len() as u64);
        let ghost head = buf@;
        let mut i: usize = 0;
        assert(self.bits@.take(0) =~= Seq::<u64>::empty());
        assert(buf@ =~= head + words_bytes(self.bits@.take(0)));
        while i < self.bits.len()
            invariant
                i <= self.bits@.len(),
                buf@ == head + words_bytes(self.bits@.take(i as int)),
            decreases self.bits@.len() - i,
        {
            push_u64(&mut buf, self.bits[i]);
            let ghost upto = self.bits@.take(i + 1);
            assert(upto.drop_last() =~= self.bits@.take(i as int));
            assert(buf@ =~= head + words_bytes(upto));
            i = i + 1;
        }
        assert(self.bits@.take(i as int) =~= self.bits@);
        assert(buf@ =~= filter_bytes(self@));
        buf
    }

    /// Read a filter back from bytes.
    pub fn decode(data: &[u8]) -> (r: Result<Self>)
        ensures
            match (r, parse_filter(data@)) {
                (Ok(f), Ok(v)) => f@ == v,
                (Err(e), Err(msg)) => is_corruption(e, msg),
                _ => false,
            },
    {
        if data.len() < 12 {
            return Err(corruption("bloom filter too short"));
        }
        let num_hashes = read_u32(data, 0) as usize;
        let num_bits = read_u32(data, 4) as usize;
        let num_words = read_u32(data, 8) as usize;
        if (data.len() - 12) / 8 < num_words {
            return Err(corruption("bloom filter data truncated"));
        }
        let mut bits: Vec<u64> = Vec::new();
        let mut i: usize = 0;
        while i < num_words
            invariant
                i <= num_words,
                12 + num_words * 8 <= data.len(),
                bits@.len() == i,
                forall|j: int|
                    0 <= j < i ==> #[trigger] bits@[j] == le_value(
                        data@.subrange(12 + j * 8, 20 + j * 8),
                    ) as u64,
            decreases num_words - i,
        {
            let word = read_u64(data, 12 + i * 8);
            bits.push(word);
            i = i + 1;
        }
        let r = BloomFilter { bits, num_hashes, num_bits };
        assert(r@.bits =~= parse_filter(data@)->Ok_0.bits);
        Ok(r)
    }

    /// The two hashes of a key.
    fn double_hash(key: &[u8]) -> (r: (u32, u32))
        ensures
            r == two_hashes(key@),
    {
        let h1 = Self::fnv1a(key);
        let h2 = Self::fnv1a_with_seed(key, FNV_BASIS ^ FNV_PRIME);
        (h1, h2.wrapping_mul(2).wrapping_add(1))
    }

    /// FNV-1a hash.
    fn fnv1a(key: &[u8]) -> (r: u32)
        ensures
            r == fnv(key@, FNV_BASIS),
    {
        Self::fnv1a_with_seed(key, FNV_BASIS)
    }

    fn fnv1a_with_seed(key: &[u8], seed: u32) -> (r: u32)
        ensures
            r == fnv(key@, seed),
    {
        let mut h: u32 = seed;
        let mut i: usize = 0;
        assert(key@.take(0) =~= Seq::<u8>::empty());
        while i < key.len()
            invariant
                i <= key@.len(),
                h == fnv(key@.take(i as int), seed),
            decreases key@.len() - i,
        {
            h = (h ^ (key[i] as u32)).wrapping_mul(FNV_PRIME);
            let ghost upto = key@.take(i + 1);
            assert(upto.drop_last() =~= key@.take(i as int));
            assert(upto.last() == key@[i as int]);
            i = i + 1;
        }
        assert(key@.take(i as int) =~= key@);
        h
    }

    /// The number of hashes that suits a number of bits per key.
    fn optimal_hashes(bits_per_key: usize) -> (r: usize)
        ensures
            r == hashes_for(bits_per_key as nat),
            1 <= r <= 30,
    {
        if bits_per_key >= 44 {
            return 30;
        }
        let k = (bits_per_key as u64 * 693147 + 500000) / 1000000;
        if k < 1 {
            1
        } else {
            k as usize
        }
    }
}

/// What one more key marks.
proof fn marked_push(
    keys: Seq<Seq<u8>>,
    key: Seq<u8>,
    num_hashes: int,
    num_bits: int,
    pos: int,
)
    ensures
        marked(keys.push(key), num_hashes, num_bits, pos) == (marked(
            keys,
            num_hashes,
            num_bits,
            pos,
        ) || exists|j: int| 0 <= j < num_hashes && #[trigger] probe(key, j, num_bits) == pos),
{
    let more = keys.push(key);
    if marked(more, num_hashes, num_bits, pos) {
        let (k, i) = choose|k: int, i: int|
            0 <= k < more.len() && 0 <= i < num_hashes && #[trigger] probe(more[k], i, num_bits)
                == pos;
        if k < keys.len() {
            assert(probe(keys[k], i, num_bits) == pos);
        } else {
            assert(probe(key, i, num_bits) == pos);
        }
    }
    if marked(keys, num_hashes, num_bits, pos) {
        let (k, i) = choose|k: int, i: int|
            0 <= k < keys.len() && 0 <= i < num_hashes && #[trigger] probe(keys[k], i, num_bits)
                == pos;
        assert(probe(more[k], i, num_bits) == pos);
    }
    if exists|j: int| 0 <= j < num_hashes && #[trigger] probe(key, j, num_bits) == pos {
        let j = choose|j: int| 0 <= j < num_hashes && #[trigger] probe(key, j, num_bits) == pos;
        assert(probe(more[keys.len() as int], j, num_bits) == pos);
    }
}

} // verus!
