//! A Bloom filter: a set that may take an element for a member that is none, but never misses a
//! member.
use crate::error::{ErrorView, Result, StorageError};
use crate::le::{get_le, law_le_bytes_of_value, law_le_round_trip, le_bytes, le_value, lemma_byte_ranges, put_le};
use std::collections::hash_map::DefaultHasher;
use std::hash::Hasher;
use vstd::prelude::*;
use vstd::std_specs::hash::DefaultHasherAdditionalSpecFns;

verus! {

/// A set of byte strings in a fixed number of bits.
#[derive(Debug)]
pub struct BloomFilter {
    bits: Vec<u8>,
    bit_count: usize,
    hash_count: usize,
    element_count: usize,
}

/// A [`BloomFilter`], with its bits as a sequence of bytes.
#[verifier::ext_equal]
pub struct BloomView {
    pub bits: Seq<u8>,
    pub bit_count: nat,
    pub hash_count: nat,
    pub element_count: nat,
}

/// Figures about a filter.
///
/// The rate of false positives is that of `hash_count`, `element_count` and `bit_count`; the ratio
/// of set bits is that of `set_bits` to `bit_count`.
#[derive(Debug, Clone, Copy, PartialEq, Eq, Structural)]
pub struct BloomFilterStats {
    pub bit_count: usize,
    pub byte_count: usize,
    pub hash_count: usize,
    pub element_count: usize,
    pub set_bits: usize,
}

/// The sizes that a filter is made with, before they are brought into bounds.
#[derive(Debug, Clone, Copy, PartialEq, Eq, Structural)]
pub struct BloomSizing {
    /// The number of bits that the number of elements and the rate of false positives ask for.
    pub bits: usize,
    /// The number of hashes that the number of bits, brought into bounds, asks for.
    pub hashes: usize,
}

/// The 32 bytes of the BLAKE3 hash of `element`.
pub uninterp spec fn blake3_hash(element: Seq<u8>) -> Seq<u8>;

/// `blake3::hash`: the 32 bytes of the hash, a function of the element.
#[verifier::external_body]
fn blake3_digest(element: &[u8]) -> (r: Vec<u8>)
    ensures
        r@ == blake3_hash(element@),
        r@.len() == 32,
{
    blake3::hash(element).as_bytes().to_vec()
}

/// The number in the first eight bytes of the BLAKE3 hash.
pub open spec fn first_hash(element: Seq<u8>) -> u64 {
    le_value(blake3_hash(element).take(8)) as u64
}

/// The hash of the standard library: it is fed the length in eight bytes, the lowest first, and
/// then the bytes of the element, so that a filter means the same on every machine.
pub open spec fn second_hash(element: Seq<u8>) -> u64 {
    DefaultHasher::spec_finish(seq![le_bytes(element.len(), 8), element])
}

/// The hash with number `i`, made of two hashes.
pub open spec fn combined_hash(first: u64, second: u64, i: nat) -> nat {
    (first as nat + i * second as nat) % 0x1_0000_0000_0000_0000
}

/// Whether bit `k` of `byte` is set.
pub open spec fn byte_bit(byte: u8, k: u8) -> bool {
    (byte >> k) & 1u8 == 1u8
}

/// Whether the bit at `index` is set; bits beyond the end are not.
pub open spec fn bit_is_set(bits: Seq<u8>, index: nat) -> bool {
    index / 8 < bits.len() && byte_bit(bits[(index / 8) as int], (index % 8) as u8)
}

/// `bits` with the bit at `index` set; a bit beyond the end stays away.
pub open spec fn with_bit(bits: Seq<u8>, index: nat) -> Seq<u8> {
    if index / 8 < bits.len() {
        bits.update(
            (index / 8) as int,
            bits[(index / 8) as int] | (1u8 << ((index % 8) as u8)),
        )
    } else {
        bits
    }
}

/// `bits` with the bits of the first `n` hashes set.
pub open spec fn with_hashes(
    bits: Seq<u8>,
    bit_count: nat,
    first: u64,
    second: u64,
    n: nat,
) -> Seq<u8>
    decreases n,
{
    if n == 0 || bit_count == 0 {
        bits
    } else {
        with_bit(
            with_hashes(bits, bit_count, first, second, (n - 1) as nat),
            combined_hash(first, second, (n - 1) as nat) % bit_count,
        )
    }
}

/// The bytes of `a` with the bits of `b` set too; what `b` has beyond the end of `a` stays away.
pub open spec fn union_bits(a: Seq<u8>, b: Seq<u8>) -> Seq<u8> {
    Seq::new(
        a.len(),
        |i: int|
            if i < b.len() {
                a[i] | b[i]
            } else {
                a[i]
            },
    )
}

/// The number of bits that are set in `byte`, among the lowest `n`.
pub open spec fn ones_in(byte: u8, n: nat) -> nat
    decreases n,
{
    if n == 0 {
        0
    } else {
        ones_in(byte, (n - 1) as nat) + if byte_bit(byte, (n - 1) as u8) {
            1nat
        } else {
            0
        }
    }
}

/// The number of bits that are set.
pub open spec fn ones(bits: Seq<u8>) -> nat
    decreases bits.len(),
{
    if bits.len() == 0 {
        0
    } else {
        ones(bits.drop_last()) + ones_in(bits.last(), 8)
    }
}

impl BloomView {
    /// Every bit of the filter has a place.
    pub open spec fn wf(self) -> bool {
        self.bit_count <= 8 * self.bits.len() && self.bits.len() <= usize::MAX
    }

    /// Whether the bits are as many bytes as their number needs, no more, and the figures fit in
    /// four bytes.
    pub open spec fn is_compact(self) -> bool {
        &&& self.bits.len() == (self.bit_count + 7) / 8
        &&& self.bit_count <= u32::MAX
        &&& self.hash_count <= u32::MAX
        &&& self.element_count <= u32::MAX
    }

    /// Whether an element with these two hashes is taken for a member.
    pub open spec fn has_hashes(self, first: u64, second: u64) -> bool {
        self.bit_count > 0 ==> forall|i: nat|
            i < self.hash_count ==> bit_is_set(
                self.bits,
                #[trigger] combined_hash(first, second, i) % self.bit_count,
            )
    }

    /// Whether `element` is taken for a member.
    pub open spec fn may_contain(self, element: Seq<u8>) -> bool {
        self.has_hashes(first_hash(element), second_hash(element))
    }

    /// The filter with one more element, which has these two hashes.
    pub open spec fn with_element(self, first: u64, second: u64) -> BloomView {
        BloomView {
            bits: with_hashes(self.bits, self.bit_count, first, second, self.hash_count),
            element_count: self.element_count + 1,
            ..self
        }
    }

    /// The filter after `element` was added.
    pub open spec fn added(self, element: Seq<u8>) -> BloomView {
        self.with_element(first_hash(element), second_hash(element))
    }

    /// The bytes of the filter: three numbers, then the bits.
    pub open spec fn encoded(self) -> Seq<u8> {
        le_bytes(self.bit_count, 4) + le_bytes(self.hash_count, 4) + le_bytes(
            self.element_count,
            4,
        ) + self.bits
    }
}

/// The filter after all of `elements` were added, one by one.
pub open spec fn added_all(filter: BloomView, elements: Seq<Seq<u8>>) -> BloomView
    decreases elements.len(),
{
    if elements.len() == 0 {
        filter
    } else {
        added_all(filter, elements.drop_last()).added(elements.last())
    }
}

/// The filter that its bytes stand for, or the error.
pub open spec fn bloom_of(data: Seq<u8>) -> std::result::Result<BloomView, ErrorView> {
    let bit_count = le_value(data.take(4));
    if data.len() < 12 {
        Err(ErrorView::Corruption { message: "bloom filter data too short"@ })
    } else if data.len() != 12 + (bit_count + 7) / 8 {
        Err(ErrorView::Corruption { message: "invalid bloom filter data length"@ })
    } else {
        Ok(
            BloomView {
                bits: data.skip(12),
                bit_count,
                hash_count: le_value(data.subrange(4, 8)),
                element_count: le_value(data.subrange(8, 12)),
            },
        )
    }
}

/// The filter that is made for `expected_elements`.
pub open spec fn new_bloom(expected_elements: nat, sizing: BloomSizing) -> BloomView {
    if expected_elements == 0 {
        BloomView { bits: seq![0u8], bit_count: 8, hash_count: 1, element_count: 0 }
    } else {
        let bit_count = bounded_bits(sizing.bits as nat);
        BloomView {
            bits: Seq::new((bit_count + 7) / 8, |i: int| 0u8),
            bit_count,
            hash_count: bounded_hashes(sizing.hashes as nat),
            element_count: 0,
        }
    }
}

/// At least 64 bits.
pub open spec fn bounded_bits(bits: nat) -> nat {
    if bits < 64 {
        64
    } else {
        bits
    }
}

/// At least one hash and at most ten.
pub open spec fn bounded_hashes(hashes: nat) -> nat {
    if hashes < 1 {
        1
    } else if hashes > 10 {
        10
    } else {
        hashes
    }
}

impl View for BloomFilter {
    type V = BloomView;

    closed spec fn view(&self) -> BloomView {
        BloomView {
            bits: self.bits@,
            bit_count: self.bit_count as nat,
            hash_count: self.hash_count as nat,
            element_count: self.element_count as nat,
        }
    }
}

/// The number in the first eight bytes of a hash.
pub fn first_word(digest: &[u8]) -> (r: u64)
    requires
        digest@.len() >= 8,
    ensures
        r == le_value(digest@.take(8)),
{
    let r: u64 = get_le(digest, 0, 8);
    assert(digest@.subrange(0, 8) =~= digest@.take(8));
    r
}

/// The hash with number `i`, made of two hashes.
pub fn combine_hashes(first: u64, second: u64, i: u64) -> (r: u64)
    ensures
        r == combined_hash(first, second, i as nat),
{
    let product: u64 = i.wrapping_mul(second);
    proof {
        let m = 0x1_0000_0000_0000_0000int;
        assert(product == (i as nat * second as nat) % m as nat);
        vstd::arithmetic::div_mod::lemma_add_mod_noop_right(
            first as int,
            i as int * second as int,
            m,
        );
    }
    first.wrapping_add(product)
}

/// At least 64 bits.
pub fn bound_bits(bits: usize) -> (r: usize)
    ensures
        r == bounded_bits(bits as nat),
{
    if bits < 64 {
        64
    } else {
        bits
    }
}

/// At least one hash and at most ten.
pub fn bound_hashes(hashes: usize) -> (r: usize)
    ensures
        r == bounded_hashes(hashes as nat),
{
    if hashes < 1 {
        1
    } else if hashes > 10 {
        10
    } else {
        hashes
    }
}

impl BloomFilter {
    /// An empty filter for `expected_elements`, with the sizes that their number and a rate of
    /// false positives ask for.
    pub fn new(expected_elements: usize, sizing: BloomSizing) -> (r: Self)
        ensures
            r@ == new_bloom(expected_elements as nat, sizing),
            r@.wf(),
    {
        if expected_elements == 0 {
            let mut bits: Vec<u8> = Vec::new();
            bits.push(0);
            let r = Self { bits, bit_count: 8, hash_count: 1, element_count: 0 };
            assert(r@ =~= new_bloom(0, sizing));
            return r;
        }
        let bit_count: usize = bound_bits(sizing.bits);
        let hash_count: usize = bound_hashes(sizing.hashes);
        let byte_count: usize = bit_count / 8 + if bit_count % 8 > 0 {
            1
        } else {
            0
        };
        let mut bits: Vec<u8> = Vec::new();
        bits.resize(byte_count, 0);
        let r = Self { bits, bit_count, hash_count, element_count: 0 };
        assert(r@ =~= new_bloom(expected_elements as nat, sizing));
        r
    }

    /// The filter that its bytes stand for.
    pub fn from_bytes(data: &[u8]) -> (r: Result<Self>)
        ensures
            match r {
                Ok(filter) => bloom_of(data@) == Ok::<BloomView, ErrorView>(filter@)
                    && filter@.wf(),
                Err(e) => bloom_of(data@) == Err::<BloomView, ErrorView>(e@),
            },
    {
        if data.len() < 12 {
            return Err(StorageError::corruption("bloom filter data too short"));
        }
        proof {
            lemma_byte_ranges();
            assert(data@.subrange(0, 4) =~= data@.take(4));
        }
        let bit_count: u64 = get_le(data, 0, 4);
        let hash_count: u64 = get_le(data, 4, 4);
        let element_count: u64 = get_le(data, 8, 4);
        if data.len() as u64 != 12 + (bit_count + 7) / 8 {
            return Err(StorageError::corruption("invalid bloom filter data length"));
        }
        let bits = crate::copy_bytes(vstd::slice::slice_subrange(data, 12, data.len()));
        assert(bits@ =~= data@.skip(12));
        Ok(
            Self {
                bits,
                bit_count: bit_count as usize,
                hash_count: hash_count as usize,
                element_count: element_count as usize,
            },
        )
    }

    /// The bytes of the filter.
    pub fn to_bytes(&self) -> (r: Vec<u8>)
        ensures
            r@ == self@.encoded(),
    {
        let mut result: Vec<u8> = Vec::new();
        put_le(&mut result, self.bit_count as u64, 4);
        put_le(&mut result, self.hash_count as u64, 4);
        put_le(&mut result, self.element_count as u64, 4);
        result.extend_from_slice(self.bits.as_slice());
        assert(result@ =~= self@.encoded());
        result
    }

    /// Adds an element.
    pub fn add(&mut self, element: &[u8])
        requires
            old(self)@.wf(),
            old(self)@.element_count < usize::MAX,
        ensures
            final(self)@ == old(self)@.added(element@),
            final(self)@.wf(),
            final(self)@.may_contain(element@),
            forall|x: Seq<u8>| old(self)@.may_contain(x) ==> #[trigger] final(self)@.may_contain(x),
    {
        let first: u64 = self.hash_blake3(element);
        let second: u64 = self.hash_default(element);
        self.add_hashes(first, second);
        proof {
            law_added_is_contained(old(self)@, element@);
            assert forall|x: Seq<u8>| old(self)@.may_contain(x) implies #[trigger] self@.may_contain(
                x,
            ) by {
                law_added_keeps_members(old(self)@, element@, x);
            }
        }
    }

    /// Adds an element that has these two hashes.
    pub fn add_hashes(&mut self, first: u64, second: u64)
        requires
            old(self)@.wf(),
            old(self)@.element_count < usize::MAX,
        ensures
            final(self)@ == old(self)@.with_element(first, second),
            final(self)@.wf(),
    {
        let ghost before = self.bits@;
        if self.bit_count > 0 {
            let mut i: usize = 0;
            while i < self.hash_count
                invariant
                    i <= self.hash_count,
                    self.bit_count == old(self).bit_count,
                    self.bit_count > 0,
                    self.hash_count == old(self).hash_count,
                    self.element_count == old(self).element_count,
                    self.bits@.len() == before.len(),
                    self.bits@ == with_hashes(
                        before,
                        self.bit_count as nat,
                        first,
                        second,
                        i as nat,
                    ),
                decreases self.hash_count - i,
            {
                let hash: u64 = combine_hashes(first, second, i as u64);
                let index: u64 = hash % self.bit_count as u64;
                self.set_bit(index as usize);
                i = i + 1;
            }
        } else {
            assert(with_hashes(before, 0, first, second, self.hash_count as nat) == before);
        }
        self.element_count = self.element_count + 1;
    }

    /// Whether `element` is a member, or is taken for one. A filter without bits takes everything
    /// for a member.
    pub fn might_contain(&self, element: &[u8]) -> (r: bool)
        ensures
            r == self@.may_contain(element@),
    {
        let first: u64 = self.hash_blake3(element);
        let second: u64 = self.hash_default(element);
        self.might_contain_hashes(first, second)
    }

    /// Whether an element with these two hashes is a member, or is taken for one.
    pub fn might_contain_hashes(&self, first: u64, second: u64) -> (r: bool)
        ensures
            r == self@.has_hashes(first, second),
    {
        if self.bit_count == 0 {
            return true;
        }
        let mut i: usize = 0;
        while i < self.hash_count
            invariant
                i <= self.hash_count,
                self.bit_count > 0,
                forall|j: nat|
                    j < i ==> bit_is_set(
                        self.bits@,
                        #[trigger] combined_hash(first, second, j) % self.bit_count as nat,
                    ),
            decreases self.hash_count - i,
        {
            let hash: u64 = combine_hashes(first, second, i as u64);
            let index: u64 = hash % self.bit_count as u64;
            if !self.get_bit(index as usize) {
                assert(!bit_is_set(
                    self@.bits,
                    combined_hash(first, second, i as nat) % self@.bit_count,
                ));
                return false;
            }
            i = i + 1;
        }
        true
    }

    fn get_bit(&self, index: usize) -> (r: bool)
        ensures
            r == bit_is_set(self.bits@, index as nat),
    {
        let byte_index: usize = index / 8;
        let bit_index: u8 = (index % 8) as u8;
        if byte_index < self.bits.len() {
            (self.bits[byte_index] >> bit_index) & 1 == 1
        } else {
            false
        }
    }

    fn set_bit(&mut self, index: usize)
        ensures
            final(self).bits@ == with_bit(old(self).bits@, index as nat),
            final(self).bit_count == old(self).bit_count,
            final(self).hash_count == old(self).hash_count,
            final(self).element_count == old(self).element_count,
    {
        let byte_index: usize = index / 8;
        let bit_index: u8 = (index % 8) as u8;
        if byte_index < self.bits.len() {
            let byte: u8 = self.bits[byte_index] | (1u8 << bit_index);
            self.bits.set(byte_index, byte);
        }
    }

    fn hash_default(&self, element: &[u8]) -> (r: u64)
        ensures
            r == second_hash(element@),
    {
        let mut length: Vec<u8> = Vec::new();
        put_le(&mut length, element.len() as u64, 8);
        assert(length@ =~= le_bytes(element@.len(), 8));
        let mut hasher = DefaultHasher::new();
        hasher.write(length.as_slice());
        hasher.write(element);
        assert(hasher@ =~= seq![le_bytes(element@.len(), 8), element@]);
        hasher.finish()
    }

    fn hash_blake3(&self, element: &[u8]) -> (r: u64)
        ensures
            r == first_hash(element@),
    {
        first_word(blake3_digest(element).as_slice())
    }

    /// The number of elements that were added.
    pub fn element_count(&self) -> (r: usize)
        ensures
            r == self@.element_count,
    {
        self.element_count
    }

    /// The number of bits.
    pub fn bit_count(&self) -> (r: usize)
        ensures
            r == self@.bit_count,
    {
        self.bit_count
    }

    /// The number of hashes of an element.
    pub fn hash_count(&self) -> (r: usize)
        ensures
            r == self@.hash_count,
    {
        self.hash_count
    }

    /// Figures about the filter.
    pub fn memory_usage(&self) -> (r: BloomFilterStats)
        requires
            8 * self@.bits.len() <= usize::MAX,
        ensures
            r.bit_count == self@.bit_count,
            r.byte_count == self@.bits.len(),
            r.hash_count == self@.hash_count,
            r.element_count == self@.element_count,
            r.set_bits == ones(self@.bits),
    {
        BloomFilterStats {
            bit_count: self.bit_count,
            byte_count: self.bits.len(),
            hash_count: self.hash_count,
            element_count: self.element_count,
            set_bits: self.set_bits(),
        }
    }

    fn set_bits(&self) -> (r: usize)
        requires
            8 * self.bits@.len() <= usize::MAX,
        ensures
            r == ones(self.bits@),
    {
        let mut count: usize = 0;
        let mut i: usize = 0;
        assert(self.bits@.take(0) =~= Seq::empty());
        while i < self.bits.len()
            invariant
                i <= self.bits.len(),
                8 * self.bits@.len() <= usize::MAX,
                count == ones(self.bits@.take(i as int)),
                count <= 8 * i,
            decreases self.bits.len() - i,
        {
            let mut k: u8 = 0;
            let byte: u8 = self.bits[i];
            let ghost before = count;
            while k < 8
                invariant
                    k <= 8,
                    i < self.bits.len(),
                    8 * self.bits@.len() <= usize::MAX,
                    before <= 8 * i,
                    count == before + ones_in(byte, k as nat),
                    count <= before + k,
                decreases 8 - k,
            {
                if (byte >> k) & 1 == 1 {
                    count = count + 1;
                }
                k = k + 1;
            }
            assert(self.bits@.take(i + 1).drop_last() =~= self.bits@.take(i as int));
            i = i + 1;
        }
        assert(self.bits@.take(self.bits@.len() as int) =~= self.bits@);
        count
    }

    /// Takes all elements out.
    pub fn clear(&mut self)
        ensures
            final(self)@ == (BloomView {
                bits: Seq::new(old(self)@.bits.len(), |i: int| 0u8),
                element_count: 0,
                ..old(self)@
            }),
    {
        let len: usize = self.bits.len();
        self.bits.clear();
        self.bits.resize(len, 0);
        self.element_count = 0;
        assert(self@.bits =~= Seq::new(old(self)@.bits.len(), |i: int| 0u8));
    }

    /// Whether no element was added.
    pub fn is_empty(&self) -> (r: bool)
        ensures
            r == (self@.element_count == 0),
    {
        self.element_count == 0
    }

    /// Adds the elements of another filter of the same sizes.
    pub fn merge(&mut self, other: &BloomFilter) -> (r: Result<()>)
        requires
            old(self)@.element_count + other@.element_count <= usize::MAX,
        ensures
            ({
                let same_sizes = old(self)@.bit_count == other@.bit_count && old(self)@.hash_count
                    == other@.hash_count;
                match r {
                    Ok(_) => {
                        &&& same_sizes
                        &&& final(self)@ == (BloomView {
                            bits: union_bits(old(self)@.bits, other@.bits),
                            element_count: old(self)@.element_count + other@.element_count,
                            ..old(self)@
                        })
                    },
                    Err(e) => {
                        &&& !same_sizes
                        &&& e@ == (ErrorView::InvalidOperation {
                            message: "cannot merge bloom filters with different config"@,
                        })
                        &&& final(self)@ == old(self)@
                    },
                }
            }),
    {
        if self.bit_count != other.bit_count || self.hash_count != other.hash_count {
            return Err(
                StorageError::invalid_operation("cannot merge bloom filters with different config"),
            );
        }
        let ghost before = self.bits@;
        let mut i: usize = 0;
        while i < other.bits.len() && i < self.bits.len()
            invariant
                i <= other.bits.len(),
                i <= self.bits.len(),
                self.bit_count == old(self).bit_count,
                self.hash_count == old(self).hash_count,
                self.element_count == old(self).element_count,
                before == old(self).bits@,
                self.bits@.len() == before.len(),
                forall|j: int| 0 <= j < i ==> self.bits@[j] == before[j] | other.bits@[j],
                forall|j: int| i <= j < before.len() ==> self.bits@[j] == before[j],
            decreases other.bits.len() - i,
        {
            let byte: u8 = self.bits[i] | other.bits[i];
            self.bits.set(i, byte);
            i = i + 1;
        }
        self.element_count = self.element_count + other.element_count;
        assert(self@.bits =~= union_bits(old(self)@.bits, other@.bits));
        Ok(())
    }
}

impl Clone for BloomFilter {
    fn clone(&self) -> (r: Self)
        ensures
            r@ == self@,
    {
        Self {
            bits: crate::copy_bytes(self.bits.as_slice()),
            bit_count: self.bit_count,
            hash_count: self.hash_count,
            element_count: self.element_count,
        }
    }
}

proof fn lemma_byte_bit_or(byte: u8, k: u8, j: u8)
    requires
        k < 8,
        j < 8,
    ensures
        byte_bit(byte | (1u8 << k), j) == (j == k || byte_bit(byte, j)),
{
    assert(((byte | (1u8 << k)) >> j) & 1u8 == 1u8 <==> (j == k || (byte >> j) & 1u8 == 1u8))
        by (bit_vector)
        requires
            k < 8,
            j < 8,
    ;
}

proof fn lemma_byte_bit_union(a: u8, b: u8, j: u8)
    requires
        j < 8,
    ensures
        byte_bit(a | b, j) == (byte_bit(a, j) || byte_bit(b, j)),
{
    assert(((a | b) >> j) & 1u8 == 1u8 <==> ((a >> j) & 1u8 == 1u8 || (b >> j) & 1u8 == 1u8))
        by (bit_vector)
        requires
            j < 8,
    ;
}

proof fn lemma_with_bit(bits: Seq<u8>, index: nat, other: nat)
    ensures
        bit_is_set(with_bit(bits, index), other) == (bit_is_set(bits, other) || (other == index
            && index / 8 < bits.len())),
        with_bit(bits, index).len() == bits.len(),
{
    if index / 8 < bits.len() && index / 8 == other / 8 {
        lemma_byte_bit_or(bits[(index / 8) as int], (index % 8) as u8, (other % 8) as u8);
    }
}

proof fn lemma_with_hashes(
    bits: Seq<u8>,
    bit_count: nat,
    first: u64,
    second: u64,
    n: nat,
    other: nat,
)
    ensures
        with_hashes(bits, bit_count, first, second, n).len() == bits.len(),
        bit_is_set(bits, other) ==> bit_is_set(
            with_hashes(bits, bit_count, first, second, n),
            other,
        ),
        0 < bit_count <= 8 * bits.len() ==> forall|i: nat|
            i < n ==> bit_is_set(
                with_hashes(bits, bit_count, first, second, n),
                #[trigger] combined_hash(first, second, i) % bit_count,
            ),
    decreases n,
{
    if n > 0 && bit_count > 0 {
        let m = (n - 1) as nat;
        let before = with_hashes(bits, bit_count, first, second, m);
        let index = combined_hash(first, second, m) % bit_count;
        lemma_with_hashes(bits, bit_count, first, second, m, other);
        lemma_with_bit(before, index, other);
        if bit_count <= 8 * bits.len() {
            assert forall|i: nat| i < n implies bit_is_set(
                with_hashes(bits, bit_count, first, second, n),
                #[trigger] combined_hash(first, second, i) % bit_count,
            ) by {
                lemma_with_bit(before, index, combined_hash(first, second, i) % bit_count);
                assert(index < bit_count);
            }
        }
    }
}

/// Law: an element that was added is taken for a member.
pub proof fn law_added_is_contained(filter: BloomView, element: Seq<u8>)
    requires
        filter.wf(),
    ensures
        filter.added(element).may_contain(element),
        filter.added(element).wf(),
{
    lemma_with_hashes(
        filter.bits,
        filter.bit_count,
        first_hash(element),
        second_hash(element),
        filter.hash_count,
        0,
    );
}

/// Law: what was taken for a member stays one when another element is added.
pub proof fn law_added_keeps_members(filter: BloomView, element: Seq<u8>, member: Seq<u8>)
    requires
        filter.may_contain(member),
    ensures
        filter.added(element).may_contain(member),
{
    let f = first_hash(member);
    let s = second_hash(member);
    assert forall|i: nat| i < filter.hash_count && filter.bit_count > 0 implies bit_is_set(
        filter.added(element).bits,
        #[trigger] combined_hash(f, s, i) % filter.bit_count,
    ) by {
        lemma_with_hashes(
            filter.bits,
            filter.bit_count,
            first_hash(element),
            second_hash(element),
            filter.hash_count,
            combined_hash(f, s, i) % filter.bit_count,
        );
    }
}

/// Law: there are no false negatives: of the elements that were added, each is taken for a member.
pub proof fn law_no_false_negatives(filter: BloomView, elements: Seq<Seq<u8>>, i: int)
    requires
        filter.wf(),
        0 <= i < elements.len(),
    ensures
        added_all(filter, elements).may_contain(elements[i]),
    decreases elements.len(),
{
    let before = added_all(filter, elements.drop_last());
    lemma_added_all_wf(filter, elements.drop_last());
    if i == elements.len() - 1 {
        law_added_is_contained(before, elements[i]);
    } else {
        law_no_false_negatives(filter, elements.drop_last(), i);
        law_added_keeps_members(before, elements.last(), elements[i]);
    }
}

/// Adding elements changes only bits and the number of elements.
pub proof fn lemma_added_all_wf(filter: BloomView, elements: Seq<Seq<u8>>)
    requires
        filter.wf(),
    ensures
        added_all(filter, elements).wf(),
        added_all(filter, elements).bits.len() == filter.bits.len(),
        added_all(filter, elements).bit_count == filter.bit_count,
        added_all(filter, elements).hash_count == filter.hash_count,
        added_all(filter, elements).element_count == filter.element_count + elements.len(),
    decreases elements.len(),
{
    if elements.len() > 0 {
        lemma_added_all_wf(filter, elements.drop_last());
        law_added_is_contained(added_all(filter, elements.drop_last()), elements.last());
        let before = added_all(filter, elements.drop_last());
        lemma_with_hashes(
            before.bits,
            before.bit_count,
            first_hash(elements.last()),
            second_hash(elements.last()),
            before.hash_count,
            0,
        );
    }
}

/// Law: a merged filter has the members of both.
pub proof fn law_merged_keeps_members(a: BloomView, b: BloomView, member: Seq<u8>)
    requires
        a.wf(),
        b.wf(),
        a.bit_count == b.bit_count,
        a.hash_count == b.hash_count,
        a.may_contain(member) || b.may_contain(member),
    ensures
        (BloomView {
            bits: union_bits(a.bits, b.bits),
            element_count: a.element_count + b.element_count,
            ..a
        }).may_contain(member),
{
    let f = first_hash(member);
    let s = second_hash(member);
    let bits = union_bits(a.bits, b.bits);
    assert forall|i: nat| i < a.hash_count && a.bit_count > 0 implies bit_is_set(
        bits,
        #[trigger] combined_hash(f, s, i) % a.bit_count,
    ) by {
        let index = combined_hash(f, s, i) % a.bit_count;
        assert(index / 8 < a.bits.len());
        if index / 8 < b.bits.len() {
            lemma_byte_bit_union(
                a.bits[(index / 8) as int],
                b.bits[(index / 8) as int],
                (index % 8) as u8,
            );
        }
    }
}

/// Law: a filter whose bits fill no more bytes than they need is read back from its bytes.
pub proof fn law_bloom_round_trip(filter: BloomView)
    requires
        filter.is_compact(),
    ensures
        bloom_of(filter.encoded()) == Ok::<BloomView, ErrorView>(filter),
{
    lemma_byte_ranges();
    law_le_round_trip(filter.bit_count, 4);
    law_le_round_trip(filter.hash_count, 4);
    law_le_round_trip(filter.element_count, 4);
    let data = filter.encoded();
    assert(data.take(4) =~= le_bytes(filter.bit_count, 4));
    assert(data.subrange(4, 8) =~= le_bytes(filter.hash_count, 4));
    assert(data.subrange(8, 12) =~= le_bytes(filter.element_count, 4));
    assert(data.skip(12) =~= filter.bits);
}

/// Law: bytes that are read as a filter are written back unchanged.
pub proof fn law_read_bloom_is_written_back(data: Seq<u8>)
    ensures
        bloom_of(data) matches Ok(filter) ==> filter.encoded() == data,
{
    if data.len() >= 12 {
        law_le_bytes_of_value(data.take(4));
        law_le_bytes_of_value(data.subrange(4, 8));
        law_le_bytes_of_value(data.subrange(8, 12));
        if let Ok(filter) = bloom_of(data) {
            assert(filter.encoded() =~= data);
        }
    }
}

/// Law: a filter that is made for any number of elements, and to which any elements were added, is
/// read back from its bytes, where the number of its bits and that of its elements fit in four
/// bytes.
pub proof fn law_filled_bloom_is_read_back(
    expected_elements: nat,
    sizing: BloomSizing,
    elements: Seq<Seq<u8>>,
)
    requires
        bounded_bits(sizing.bits as nat) <= u32::MAX,
        elements.len() <= u32::MAX,
    ensures
        ({
            let filter = added_all(new_bloom(expected_elements, sizing), elements);
            &&& filter.is_compact()
            &&& bloom_of(filter.encoded()) == Ok::<BloomView, ErrorView>(filter)
        }),
{
    lemma_added_all_wf(new_bloom(expected_elements, sizing), elements);
    law_bloom_round_trip(added_all(new_bloom(expected_elements, sizing), elements));
}

/// The bits of a byte that are set are no more than those that may be.
proof fn lemma_ones_in(byte: u8, n: nat, m: nat)
    requires
        n <= 8,
        forall|k: u8| m <= k < n ==> !(#[trigger] byte_bit(byte, k)),
    ensures
        ones_in(byte, n) <= m,
        ones_in(byte, n) <= n,
    decreases n,
{
    if n > 0 {
        lemma_ones_in(byte, (n - 1) as nat, m);
        if n <= m {
            assert forall|k: u8| (n - 1) as nat <= k < n - 1 implies !(#[trigger] byte_bit(
                byte,
                k,
            )) by {}
            lemma_ones_in(byte, (n - 1) as nat, (n - 1) as nat);
        } else {
            assert(!byte_bit(byte, (n - 1) as u8));
        }
    }
}

/// Where no bit from `m` on is set, no more than `m` bits are.
proof fn lemma_ones(bits: Seq<u8>, m: nat)
    requires
        forall|i: nat| m <= i ==> !(#[trigger] bit_is_set(bits, i)),
    ensures
        ones(bits) <= m,
        ones(bits) <= 8 * bits.len(),
    decreases bits.len(),
{
    if bits.len() > 0 {
        let rest = bits.drop_last();
        let at = 8 * rest.len();
        let in_last: nat = if m <= at {
            0
        } else {
            (m - at) as nat
        };
        let in_rest = if m <= at {
            m
        } else {
            at
        };
        assert forall|k: u8| in_last <= k < 8 implies !(#[trigger] byte_bit(bits.last(), k)) by {
            assert(!bit_is_set(bits, at + k as nat));
            assert((at + k) / 8 == rest.len() && (at + k) % 8 == k);
        }
        lemma_ones_in(bits.last(), 8, in_last);
        assert forall|i: nat| in_rest <= i implies !(#[trigger] bit_is_set(rest, i)) by {
            if i / 8 < rest.len() {
                assert(!bit_is_set(bits, i));
            }
        }
        lemma_ones(rest, in_rest);
    }
}

/// Setting the bits of some hashes sets none beyond the number of bits.
proof fn lemma_hashes_stay(
    bits: Seq<u8>,
    bit_count: nat,
    first: u64,
    second: u64,
    n: nat,
    other: nat,
)
    requires
        bit_count <= other,
    ensures
        bit_is_set(with_hashes(bits, bit_count, first, second, n), other) == bit_is_set(
            bits,
            other,
        ),
    decreases n,
{
    if n > 0 && bit_count > 0 {
        let m = (n - 1) as nat;
        lemma_hashes_stay(bits, bit_count, first, second, m, other);
        lemma_with_bit(
            with_hashes(bits, bit_count, first, second, m),
            combined_hash(first, second, m) % bit_count,
            other,
        );
    }
}

/// No bit of a filter to which elements were added is set beyond the number of its bits.
proof fn lemma_added_all_stay(filter: BloomView, elements: Seq<Seq<u8>>, other: nat)
    requires
        filter.wf(),
        filter.bit_count <= other,
        !bit_is_set(filter.bits, other),
    ensures
        !bit_is_set(added_all(filter, elements).bits, other),
    decreases elements.len(),
{
    if elements.len() > 0 {
        lemma_added_all_stay(filter, elements.drop_last(), other);
        lemma_added_all_wf(filter, elements.drop_last());
        let before = added_all(filter, elements.drop_last());
        lemma_hashes_stay(
            before.bits,
            before.bit_count,
            first_hash(elements.last()),
            second_hash(elements.last()),
            before.hash_count,
            other,
        );
    }
}

/// Law: of the bits of a filter no more are set than it has, whatever was added, and none as long
/// as nothing was; so the ratio of set bits lies between zero and one. Every element was counted.
pub proof fn law_set_bits_are_bits(
    expected_elements: nat,
    sizing: BloomSizing,
    elements: Seq<Seq<u8>>,
)
    ensures
        ({
            let fresh = new_bloom(expected_elements, sizing);
            let filter = added_all(fresh, elements);
            &&& ones(filter.bits) <= filter.bit_count
            &&& filter.bit_count == fresh.bit_count && filter.bit_count > 0
            &&& filter.hash_count == fresh.hash_count && 1 <= filter.hash_count <= 10
            &&& filter.element_count == elements.len()
            &&& elements.len() == 0 ==> ones(filter.bits) == 0
        }),
{
    let fresh = new_bloom(expected_elements, sizing);
    lemma_added_all_wf(fresh, elements);
    assert forall|i: nat| true implies !(#[trigger] bit_is_set(fresh.bits, i)) by {
        if i / 8 < fresh.bits.len() {
            let k = (i % 8) as u8;
            assert((0u8 >> k) & 1u8 == 0u8) by (bit_vector);
        }
    }
    assert forall|i: nat| fresh.bit_count <= i implies !(#[trigger] bit_is_set(
        added_all(fresh, elements).bits,
        i,
    )) by {
        lemma_added_all_stay(fresh, elements, i);
    }
    lemma_ones(added_all(fresh, elements).bits, fresh.bit_count);
    lemma_ones(fresh.bits, 0);
}

/// Law: an element is taken for a member exactly where all bits are set that its hashes name, within
/// the number of bits; a filter without bits takes every element for one.
pub proof fn law_member_has_all_its_bits(filter: BloomView, element: Seq<u8>)
    ensures
        filter.bit_count > 0 ==> (filter.may_contain(element) <==> forall|i: nat|
            i < filter.hash_count ==> {
                let index = #[trigger] combined_hash(
                    first_hash(element),
                    second_hash(element),
                    i,
                ) % filter.bit_count;
                &&& index < 8 * filter.bits.len()
                &&& (filter.bits[(index / 8) as int] >> ((index % 8) as u8)) & 1u8 == 1u8
            }),
        filter.bit_count == 0 ==> filter.may_contain(element),
{
    if filter.bit_count > 0 && filter.may_contain(element) {
        assert forall|i: nat| i < filter.hash_count implies {
            let index = #[trigger] combined_hash(first_hash(element), second_hash(element), i)
                % filter.bit_count;
            &&& index < 8 * filter.bits.len()
            &&& (filter.bits[(index / 8) as int] >> ((index % 8) as u8)) & 1u8 == 1u8
        } by {
            let index = combined_hash(first_hash(element), second_hash(element), i)
                % filter.bit_count;
            assert(bit_is_set(filter.bits, index));
        }
    }
}

/// Law: the hash with number `i` is the first one and `i` times the second one, within 64 bits; the
/// first is the number in the first eight bytes of the digest; the second is that of the length in
/// eight bytes and the element.
pub proof fn law_hashes_are_made_of_two(element: Seq<u8>, first: u64, second: u64, i: nat)
    ensures
        combined_hash(first, second, i) == (first + i * second) % 0x1_0000_0000_0000_0000,
        first_hash(element) == le_value(blake3_hash(element).take(8)) as u64,
        second_hash(element) == DefaultHasher::spec_finish(
            seq![le_bytes(element.len(), 8), element],
        ),
{
}

/// Law: a bit is the one of its byte that its number names, the lowest first; none is set behind the
/// end.
pub proof fn law_bits_are_counted_from_the_lowest(bits: Seq<u8>, index: nat)
    ensures
        index >= 8 * bits.len() ==> !bit_is_set(bits, index),
        index < 8 * bits.len() ==> (bit_is_set(bits, index) <==> (bits[(index / 8) as int] >> ((
        index % 8) as u8)) & 1u8 == 1u8),
{
}

/// Law: adding an element sets exactly the bits that its hashes name, and keeps all others; the
/// filter counts one more element, and keeps its sizes.
pub proof fn law_adding_sets_the_named_bits(filter: BloomView, element: Seq<u8>, index: nat)
    requires
        filter.wf(),
        filter.bit_count > 0,
    ensures
        bit_is_set(filter.added(element).bits, index) <==> bit_is_set(filter.bits, index) || exists|
            i: nat,
        |
            i < filter.hash_count && index == #[trigger] combined_hash(
                first_hash(element),
                second_hash(element),
                i,
            ) % filter.bit_count,
        filter.added(element).bits.len() == filter.bits.len(),
        filter.added(element).element_count == filter.element_count + 1,
        filter.added(element).bit_count == filter.bit_count,
        filter.added(element).hash_count == filter.hash_count,
{
    lemma_named_bits(
        filter.bits,
        filter.bit_count,
        first_hash(element),
        second_hash(element),
        filter.hash_count,
        index,
    );
}

proof fn lemma_named_bits(
    bits: Seq<u8>,
    bit_count: nat,
    first: u64,
    second: u64,
    n: nat,
    index: nat,
)
    requires
        0 < bit_count <= 8 * bits.len(),
    ensures
        with_hashes(bits, bit_count, first, second, n).len() == bits.len(),
        bit_is_set(with_hashes(bits, bit_count, first, second, n), index) <==> bit_is_set(
            bits,
            index,
        ) || exists|i: nat|
            i < n && index == #[trigger] combined_hash(first, second, i) % bit_count,
    decreases n,
{
    if n > 0 {
        let m = (n - 1) as nat;
        lemma_named_bits(bits, bit_count, first, second, m, index);
        let before = with_hashes(bits, bit_count, first, second, m);
        let named = combined_hash(first, second, m) % bit_count;
        assert(named < bit_count);
        lemma_with_bit(before, named, index);
        if exists|i: nat|
            i < n && index == #[trigger] combined_hash(first, second, i) % bit_count {
            let i = choose|i: nat|
                i < n && index == #[trigger] combined_hash(first, second, i) % bit_count;
            if i == m {
                assert(index == named);
            }
        }
    }
}

/// Law: a bit of a merged filter is set exactly where it is in one of the two, as far as the first
/// one has bits.
pub proof fn law_merging_sets_the_bits_of_both(a: Seq<u8>, b: Seq<u8>, index: nat)
    ensures
        union_bits(a, b).len() == a.len(),
        index < 8 * a.len() ==> (bit_is_set(union_bits(a, b), index) <==> bit_is_set(a, index)
            || bit_is_set(b, index)),
{
    if index / 8 < a.len() && index / 8 < b.len() {
        lemma_byte_bit_union(
            a[(index / 8) as int],
            b[(index / 8) as int],
            (index % 8) as u8,
        );
    }
}

/// Law: the number of set bits is zero where none is set, and one more where one more is set.
pub proof fn law_each_set_bit_counts_once(bits: Seq<u8>, i: int, k: u8)
    requires
        0 <= i < bits.len(),
        k < 8,
        (bits[i] >> k) & 1u8 == 0u8,
    ensures
        ones(bits.update(i, bits[i] | (1u8 << k))) == ones(bits) + 1,
        ones(Seq::new(bits.len(), |j: int| 0u8)) == 0,
{
    lemma_ones_of_byte(bits[i], k, 8);
    lemma_ones_update(bits, i, bits[i] | (1u8 << k));
    lemma_no_ones(bits.len());
}

proof fn lemma_ones_of_byte(byte: u8, k: u8, n: nat)
    requires
        k < 8,
        n <= 8,
        (byte >> k) & 1u8 == 0u8,
    ensures
        ones_in(byte | (1u8 << k), n) == ones_in(byte, n) + (if k < n {
            1nat
        } else {
            0nat
        }),
    decreases n,
{
    if n > 0 {
        lemma_ones_of_byte(byte, k, (n - 1) as nat);
        lemma_byte_bit_or(byte, k, (n - 1) as u8);
    }
}

proof fn lemma_ones_update(bits: Seq<u8>, i: int, byte: u8)
    requires
        0 <= i < bits.len(),
    ensures
        ones(bits.update(i, byte)) == ones(bits) - ones_in(bits[i], 8) + ones_in(byte, 8),
    decreases bits.len(),
{
    let t = bits.drop_last();
    if i == bits.len() - 1 {
        assert(bits.update(i, byte).drop_last() =~= t);
    } else {
        lemma_ones_update(t, i, byte);
        assert(bits.update(i, byte).drop_last() =~= t.update(i, byte));
        assert(bits.update(i, byte).last() == bits.last());
    }
}

proof fn lemma_no_ones(n: nat)
    ensures
        ones(Seq::new(n, |j: int| 0u8)) == 0,
    decreases n,
{
    if n > 0 {
        let bits = Seq::new(n, |j: int| 0u8);
        lemma_no_ones((n - 1) as nat);
        assert(bits.drop_last() =~= Seq::new((n - 1) as nat, |j: int| 0u8));
        lemma_zero_has_no_ones(8);
    }
}

proof fn lemma_zero_has_no_ones(n: nat)
    requires
        n <= 8,
    ensures
        ones_in(0u8, n) == 0,
    decreases n,
{
    if n > 0 {
        lemma_zero_has_no_ones((n - 1) as nat);
        let k = (n - 1) as u8;
        assert((0u8 >> k) & 1u8 == 0u8) by (bit_vector);
    }
}

/// Law: a new filter has the number of bits that it was given, 64 at least, in as many bytes as they
/// need, and the number of hashes that it was given, one at least and ten at most; none of its bits
/// is set. One for no elements has eight bits and one hash.
pub proof fn law_new_filter_has_its_sizes(expected_elements: nat, sizing: BloomSizing, index: nat)
    ensures
        ({
            let filter = new_bloom(expected_elements, sizing);
            &&& !bit_is_set(filter.bits, index)
            &&& filter.element_count == 0
            &&& filter.bits.len() * 8 >= filter.bit_count
            &&& filter.bits.len() * 8 < filter.bit_count + 8
            &&& expected_elements == 0 ==> filter.bit_count == 8 && filter.hash_count == 1
            &&& expected_elements > 0 ==> {
                &&& sizing.bits >= 64 ==> filter.bit_count == sizing.bits
                &&& sizing.bits < 64 ==> filter.bit_count == 64
                &&& 1 <= sizing.hashes <= 10 ==> filter.hash_count == sizing.hashes
                &&& sizing.hashes < 1 ==> filter.hash_count == 1
                &&& sizing.hashes > 10 ==> filter.hash_count == 10
            }
        }),
{
    let k = (index % 8) as u8;
    assert((0u8 >> k) & 1u8 == 0u8) by (bit_vector);
}

/// Law: adding elements one by one is adding each: the last one is added to the filter that has all
/// others.
pub proof fn law_elements_are_added_one_by_one(
    filter: BloomView,
    elements: Seq<Seq<u8>>,
    element: Seq<u8>,
)
    ensures
        added_all(filter, elements.push(element)) == added_all(filter, elements).added(element),
        added_all(filter, Seq::empty()) == filter,
{
    assert(elements.push(element).drop_last() =~= elements);
}

/// Law: bytes are read as a filter exactly where they are twelve and as many as the bits need whose
/// number stands in the first four, the lowest byte first; anything else is damaged.
pub proof fn law_filter_needs_the_bytes_of_its_bits(data: Seq<u8>)
    ensures
        bloom_of(data) is Ok <==> data.len() >= 12 && 8 * (data.len() - 12) >= le_value(
            data.take(4),
        ) && 8 * (data.len() - 12) < le_value(data.take(4)) + 8,
        bloom_of(data) matches Ok(filter) ==> {
            &&& filter.bit_count == le_value(data.take(4))
            &&& filter.hash_count == le_value(data.subrange(4, 8))
            &&& filter.element_count == le_value(data.subrange(8, 12))
            &&& filter.bits == data.skip(12)
        },
        bloom_of(data) is Err ==> bloom_of(data)->Err_0 is Corruption,
{
}

/// Law: a filter can be read back from its bytes where they are as many as its bits need, and its
/// figures fit in four bytes.
pub proof fn law_compact_filters_have_no_spare_bytes(filter: BloomView)
    ensures
        filter.is_compact() <==> {
            &&& 8 * filter.bits.len() >= filter.bit_count
            &&& 8 * filter.bits.len() < filter.bit_count + 8
            &&& filter.bit_count <= 0xFFFF_FFFF
            &&& filter.hash_count <= 0xFFFF_FFFF
            &&& filter.element_count <= 0xFFFF_FFFF
        },
{
}

} // verus!
