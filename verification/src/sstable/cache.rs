//! Blocks that were read already.
use std::collections::HashMap;
use vstd::prelude::*;

verus! {

/// `bytes::Bytes`, a slice of shared memory.
#[verifier::external_type_specification]
#[verifier::external_body]
pub struct ExBytes(bytes::Bytes);

/// The bytes that a slice of shared memory holds.
pub uninterp spec fn bytes_content(b: bytes::Bytes) -> Seq<u8>;

/// `Bytes::copy_from_slice`: holds a copy of the data.
pub assume_specification[ bytes::Bytes::copy_from_slice ](data: &[u8]) -> (r: bytes::Bytes)
    ensures
        bytes_content(r) == data@,
;

/// `Bytes::from` of a vector: holds what the vector held.
pub assume_specification[ <bytes::Bytes as From<Vec<u8>>>::from ](vec: Vec<u8>) -> (r: bytes::Bytes)
    ensures
        bytes_content(r) == vec@,
;

/// `Bytes::clone`: holds the same bytes.
pub assume_specification[ <bytes::Bytes as Clone>::clone ](b: &bytes::Bytes) -> (r: bytes::Bytes)
    ensures
        bytes_content(r) == bytes_content(*b),
;

/// `Bytes::deref`: the bytes as a slice.
#[verifier::external_body]
pub(crate) fn bytes_slice(b: &bytes::Bytes) -> (r: &[u8])
    ensures
        r@ == bytes_content(*b),
{
    std::ops::Deref::deref(b)
}

/// The number of blocks beyond which all are dropped.
pub const CACHE_LIMIT: usize = 100;

/// Blocks by their offsets.
pub struct BlockCache {
    blocks: HashMap<u64, bytes::Bytes>,
}

impl View for BlockCache {
    type V = Map<u64, Seq<u8>>;

    closed spec fn view(&self) -> Map<u64, Seq<u8>> {
        self.blocks@.map_values(|b: bytes::Bytes| bytes_content(b))
    }
}

/// `cache` with one more block, or empty where it would hold too many.
pub open spec fn cache_with(
    cache: Map<u64, Seq<u8>>,
    offset: u64,
    block: Seq<u8>,
) -> Map<u64, Seq<u8>> {
    let more = cache.insert(offset, block);
    if more.dom().len() > CACHE_LIMIT {
        Map::empty()
    } else {
        more
    }
}

impl BlockCache {
    pub fn new() -> (r: Self)
        ensures
            r@ == Map::<u64, Seq<u8>>::empty(),
    {
        let r = Self { blocks: HashMap::new() };
        assert(r@ =~= Map::empty());
        r
    }

    /// The block at `offset`, if it was read already.
    pub fn get(&self, offset: u64) -> (r: Option<bytes::Bytes>)
        ensures
            match r {
                Some(b) => self@.contains_key(offset) && self@[offset] == bytes_content(b),
                None => !self@.contains_key(offset),
            },
    {
        match self.blocks.get(&offset) {
            Some(b) => Some(b.clone()),
            None => None,
        }
    }

    /// Keeps a block, and drops all where there are too many.
    pub fn insert(&mut self, offset: u64, block: bytes::Bytes)
        ensures
            final(self)@ == cache_with(old(self)@, offset, bytes_content(block)),
    {
        self.blocks.insert(offset, block);
        assert(self@ =~= old(self)@.insert(offset, bytes_content(block)));
        assert(self@.dom() =~= self.blocks@.dom());
        if self.blocks.len() > CACHE_LIMIT {
            self.blocks.clear();
            assert(self@ =~= Map::empty());
        }
    }
}

/// Law: a block that is kept is found again and leaves all others as they were, until there are more
/// than a hundred; then none is kept.
pub proof fn law_kept_block_is_found(cache: Map<u64, Seq<u8>>, offset: u64, block: Seq<u8>)
    ensures
        ({
            let after = cache_with(cache, offset, block);
            let many = cache.insert(offset, block).dom().len() > 100;
            &&& many ==> after == Map::<u64, Seq<u8>>::empty()
            &&& !many ==> after.contains_key(offset) && after[offset] == block && forall|o: u64|
                o != offset ==> {
                    &&& #[trigger] after.contains_key(o) == cache.contains_key(o)
                    &&& cache.contains_key(o) ==> after[o] == cache[o]
                }
        }),
{
}

} // verus!
