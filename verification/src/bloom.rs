//! A Bloom filter with seven hash functions, used to summarise a state.

use vstd::prelude::*;

use crate::bytes::{be_u64, push_bytes, read_be_u64};
use crate::hashing::{sha256, sha256_digest};

verus! {

/// The number of hash functions of every filter.
pub const HASH_COUNT: u8 = 7;

/// A fixed-width Bloom filter. Bit `p` lives in byte `p / 8`, at place `p % 8`.
#[derive(Clone, Debug, PartialEq, Eq)]
pub struct BloomFilter {
    bits: Vec<u8>,
    num_bits: usize,
}

/// Whether place `k` of byte `b` is set.
pub open spec fn byte_has(b: u8, k: u8) -> bool {
    b & (1u8 << k) != 0
}

/// Whether bit `p` is set in the byte string `bits`.
pub open spec fn bit_is_set(bits: Seq<u8>, p: nat) -> bool {
    p / 8 < bits.len() && byte_has(bits[(p / 8) as int], (p % 8) as u8)
}

/// The bit that a digest assigns in a filter of `num_bits` bits: its first
/// eight bytes, read big-endian, modulo the width.
pub open spec fn position_of_digest(digest: Seq<u8>, num_bits: usize) -> nat
    recommends
        num_bits > 0,
        digest.len() >= 8,
{
    (be_u64(digest) % (num_bits as u64)) as nat
}

/// The bit that hash function `prefix` assigns to `item` in a filter of
/// `num_bits` bits: that of the digest of the prefix byte followed by the item.
pub open spec fn bloom_position(item: Seq<u8>, prefix: u8, num_bits: usize) -> nat
    recommends
        num_bits > 0,
{
    position_of_digest(sha256(seq![prefix] + item), num_bits)
}

/// Determines the bit that a digest assigns in a filter of `num_bits` bits.
pub fn position_from_digest(digest: &[u8; 32], num_bits: usize) -> (pos: usize)
    requires
        num_bits > 0,
    ensures
        pos == position_of_digest(digest@, num_bits),
        pos < num_bits,
{
    let val: u64 = read_be_u64(digest.as_slice(), 0);
    proof {
        let d = digest@;
        assert(d.subrange(0, 8).subrange(4, 8) =~= d.subrange(4, 8));
        assert(be_u64(d.subrange(0, 8)) == be_u64(d));
    }
    (val % (num_bits as u64)) as usize
}

/// The bits that an item occupies in a filter of `num_bits` bits.
pub open spec fn bloom_positions(item: Seq<u8>, num_bits: usize) -> Set<nat> {
    Set::new(|p: nat| exists|i: u8| i < HASH_COUNT && p == bloom_position(item, i, num_bits))
}

/// The bits that are set after `item` is added to a filter that had the bits
/// `before` set and stores `capacity` bits: a position beyond the stored bits
/// is dropped.
pub open spec fn bloom_insert(before: Set<nat>, item: Seq<u8>, num_bits: usize, capacity: nat) -> Set<
    nat,
> {
    Set::new(|p: nat| before.contains(p) || (p < capacity && bloom_positions(item, num_bits).contains(p)))
}

/// Whether a filter with the bits `set` reports `item` as present.
pub open spec fn bloom_contains(set: Set<nat>, item: Seq<u8>, num_bits: usize) -> bool {
    bloom_positions(item, num_bits).subset_of(set)
}

/// Whether one of the first `count` hash functions assigns bit `p` to `item`.
spec fn hit_by(item: Seq<u8>, num_bits: usize, count: u8, p: nat) -> bool {
    exists|j: u8| j < count && p == bloom_position(item, j, num_bits)
}

proof fn lemma_or_mask(b: u8, j: u8, k: u8)
    requires
        j < 8,
        k < 8,
    ensures
        byte_has(b | (1u8 << j), k) == (byte_has(b, k) || j == k),
{
    assert((b | (1u8 << j)) & (1u8 << k) != 0 <==> (b & (1u8 << k) != 0 || j == k)) by (bit_vector)
        requires
            j < 8,
            k < 8,
    ;
}

proof fn lemma_zero_byte(k: u8)
    requires
        k < 8,
    ensures
        !byte_has(0u8, k),
{
    assert(0u8 & (1u8 << k) == 0) by (bit_vector)
        requires
            k < 8,
    ;
}

impl View for BloomFilter {
    type V = Set<nat>;

    /// The set of bits that are set.
    closed spec fn view(&self) -> Set<nat> {
        Set::new(|p: nat| bit_is_set(self.bits@, p))
    }
}

impl BloomFilter {
    /// The width that positions are reduced by.
    pub closed spec fn width(&self) -> usize {
        self.num_bits
    }

    /// The number of bits that are stored.
    pub closed spec fn capacity(&self) -> nat {
        self.bits@.len() * 8
    }

    /// The bytes that hold the bits.
    pub closed spec fn bytes(&self) -> Seq<u8> {
        self.bits@
    }

    /// The view is the set of bits that are set in the stored bytes.
    pub proof fn lemma_view(&self)
        ensures
            self.capacity() == self.bytes().len() * 8,
            forall|p: nat| self@.contains(p) <==> bit_is_set(self.bytes(), p),
            forall|p: nat| self@.contains(p) ==> p < self.capacity(),
    {
    }

    /// Creates an empty filter of `num_bits` bits, stored in whole bytes.
    pub fn new(num_bits: usize) -> (filter: Self)
        ensures
            filter@ == Set::<nat>::empty(),
            filter.width() == num_bits,
            filter.capacity() == 8 * ((num_bits + 7) / 8),
            filter.capacity() >= num_bits,
    {
        let num_bytes: usize = if num_bits % 8 == 0 {
            num_bits / 8
        } else {
            num_bits / 8 + 1
        };
        let bits: Vec<u8> = vec![0u8; num_bytes];
        let filter = BloomFilter { bits, num_bits };
        proof {
            assert forall|p: nat| !filter@.contains(p) by {
                if p / 8 < filter.bits@.len() {
                    lemma_zero_byte((p % 8) as u8);
                }
            }
            assert(filter@ =~= Set::<nat>::empty());
        }
        filter
    }

    /// Builds a filter from stored bytes and a width, as they arrive from a peer.
    pub fn from_parts(bits: Vec<u8>, num_bits: usize) -> (filter: Self)
        ensures
            filter.bytes() == bits@,
            filter.width() == num_bits,
    {
        BloomFilter { bits, num_bits }
    }

    /// The stored bytes.
    pub fn bits(&self) -> (bits: &Vec<u8>)
        ensures
            bits@ == self.bytes(),
    {
        &self.bits
    }

    /// The width that positions are reduced by.
    pub fn num_bits(&self) -> (n: usize)
        ensures
            n == self.width(),
    {
        self.num_bits
    }

    fn hash_position(&self, item: &[u8], prefix: u8) -> (pos: usize)
        requires
            self.width() > 0,
        ensures
            pos == bloom_position(item@, prefix, self.width()),
            pos < self.width(),
    {
        let mut buf: Vec<u8> = Vec::new();
        buf.push(prefix);
        push_bytes(&mut buf, item);
        assert(buf@ =~= seq![prefix] + item@);
        let digest = sha256_digest(buf.as_slice());
        position_from_digest(&digest, self.num_bits)
    }

    /// Adds an item: sets each of its seven bits that lies within the stored bytes.
    pub fn insert(&mut self, item: &[u8])
        requires
            old(self).width() > 0,
        ensures
            final(self).width() == old(self).width(),
            final(self).capacity() == old(self).capacity(),
            final(self)@ == bloom_insert(
                old(self)@,
                item@,
                old(self).width(),
                old(self).capacity(),
            ),
    {
        let mut i: u8 = 0;
        while i < HASH_COUNT
            invariant
                i <= HASH_COUNT,
                self.num_bits > 0,
                self.num_bits == old(self).num_bits,
                self.bits@.len() == old(self).bits@.len(),
                forall|p: nat|
                    #[trigger] bit_is_set(self.bits@, p) <==> (bit_is_set(old(self).bits@, p)
                        || (p < self.bits@.len() * 8 && hit_by(item@, self.num_bits, i, p))),
            decreases HASH_COUNT - i,
        {
            let pos: usize = self.hash_position(item, i);
            let byte_idx: usize = pos / 8;
            let bit_idx: u8 = (pos % 8) as u8;
            let ghost before = self.bits@;
            let ghost n = self.num_bits;
            if byte_idx < self.bits.len() {
                let b: u8 = self.bits[byte_idx];
                self.bits[byte_idx] = b | (1u8 << bit_idx);
                proof {
                    assert forall|p: nat|
                        bit_is_set(self.bits@, p) <==> (bit_is_set(before, p) || p
                            == pos) by {
                        if p / 8 == byte_idx {
                            lemma_or_mask(b, bit_idx, (p % 8) as u8);
                        }
                    }
                }
            }
            proof {
                let len = self.bits@.len();
                assert(forall|p: nat|
                    #[trigger] bit_is_set(self.bits@, p) <==> (bit_is_set(before, p) || (p
                        == pos && byte_idx < len)));
                assert forall|p: nat|
                    hit_by(item@, n, (i + 1) as u8, p) <==> (hit_by(item@, n, i, p) || p
                        == pos) by {
                    if hit_by(item@, n, (i + 1) as u8, p) {
                        let j = choose|j: u8| j < i + 1 && p == bloom_position(item@, j, n);
                        if j < i {
                            assert(hit_by(item@, n, i, p));
                        }
                    }
                    if hit_by(item@, n, i, p) {
                        let j = choose|j: u8| j < i && p == bloom_position(item@, j, n);
                        assert(j < i + 1 && p == bloom_position(item@, j, n));
                    }
                    if p == pos {
                        assert(i < i + 1 && p == bloom_position(item@, i, n));
                    }
                }
                assert forall|p: nat|
                    bit_is_set(self.bits@, p) <==> (bit_is_set(old(self).bits@, p) || (p < len
                        * 8 && hit_by(item@, n, (i + 1) as u8, p))) by {
                    assert(bit_is_set(before, p) <==> (bit_is_set(old(self).bits@, p) || (p
                        < len * 8 && hit_by(item@, n, i, p))));
                    assert(bit_is_set(self.bits@, p) <==> (bit_is_set(before, p) || (p == pos
                        && byte_idx < len)));
                    if p == pos {
                        assert(p < len * 8 <==> byte_idx < len);
                    }
                }
            }
            i += 1;
        }
        proof {
            assert forall|p: nat|
                hit_by(item@, self.num_bits, HASH_COUNT, p) <==> bloom_positions(
                    item@,
                    self.num_bits,
                ).contains(p) by {}
            assert(self@ =~= bloom_insert(
                old(self)@,
                item@,
                old(self).width(),
                old(self).capacity(),
            ));
        }
    }

    /// Whether the filter reports the item: all seven of its bits are set.
    pub fn contains(&self, item: &[u8]) -> (present: bool)
        requires
            self.width() > 0,
        ensures
            present == bloom_contains(self@, item@, self.width()),
    {
        let mut i: u8 = 0;
        while i < HASH_COUNT
            invariant
                i <= HASH_COUNT,
                self.width() > 0,
                forall|j: u8|
                    j < i ==> bit_is_set(
                        self.bits@,
                        #[trigger] bloom_position(item@, j, self.num_bits),
                    ),
            decreases HASH_COUNT - i,
        {
            let pos: usize = self.hash_position(item, i);
            let byte_idx: usize = pos / 8;
            let bit_idx: u8 = (pos % 8) as u8;
            if byte_idx >= self.bits.len() || (self.bits[byte_idx] & (1u8 << bit_idx)) == 0 {
                proof {
                    assert(!bit_is_set(self.bits@, pos as nat));
                    assert(bloom_positions(item@, self.num_bits).contains(pos as nat));
                    assert(!self@.contains(pos as nat));
                }
                return false;
            }
            i += 1;
        }
        true
    }
}

/// An item that was added is reported, whatever was added before or after,
/// as long as the filter stores every bit of its width.
pub proof fn lemma_no_false_negative(
    before: Set<nat>,
    item: Seq<u8>,
    num_bits: usize,
    capacity: nat,
)
    requires
        num_bits > 0,
        capacity >= num_bits,
    ensures
        bloom_contains(bloom_insert(before, item, num_bits, capacity), item, num_bits),
        before.subset_of(bloom_insert(before, item, num_bits, capacity)),
{
    let after = bloom_insert(before, item, num_bits, capacity);
    assert forall|p: nat| bloom_positions(item, num_bits).contains(p) implies after.contains(
        p,
    ) by {
        let i = choose|i: u8| i < HASH_COUNT && p == bloom_position(item, i, num_bits);
        assert(p < num_bits) by (nonlinear_arith)
            requires
                p == (be_u64(sha256(seq![i] + item)) % (num_bits as u64)) as nat,
                num_bits > 0,
        ;
    }
}

/// A filter that reports an item keeps reporting it when its bits grow.
pub proof fn lemma_contains_monotone(small: Set<nat>, large: Set<nat>, item: Seq<u8>, num_bits: usize)
    requires
        small.subset_of(large),
        bloom_contains(small, item, num_bits),
    ensures
        bloom_contains(large, item, num_bits),
{
}

} // verus!
