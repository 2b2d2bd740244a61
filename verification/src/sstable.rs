//! Sorted, immutable tables: how they are laid out in a file, written and read.
use crate::config::CompressionType;
use crate::{Key, Timestamp};
use vstd::prelude::*;

pub mod builder;
pub mod cache;
pub mod format;
pub mod iterator;
pub mod laws;
pub mod reader;
pub mod writer;

pub use builder::SSTableBuilder;
pub use iterator::SSTableIterator;
pub use reader::SSTableReader;
pub use writer::{SSTableImage, SSTableWriter};

verus! {

/// `std::path::PathBuf`, carried as it came.
#[verifier::external_type_specification]
#[verifier::external_body]
pub struct ExPathBuf(std::path::PathBuf);

/// `PathBuf::clone`: the same path.
pub assume_specification[ <std::path::PathBuf as Clone>::clone ](
    path: &std::path::PathBuf,
) -> (r: std::path::PathBuf)
    ensures
        r == *path,
;

/// Figures about a table.
#[derive(Debug)]
pub struct SStableMeta {
    pub entry_count: u64,
    pub data_size: u64,
    pub index_size: u64,
    pub bloom_offset: u64,
    pub bloom_size: u64,
    pub min_key: Key,
    pub max_key: Key,
    pub compression: CompressionType,
    pub created_at: Timestamp,
    pub version: u32,
}

/// An [`SStableMeta`], with its keys as sequences of bytes.
#[verifier::ext_equal]
pub struct MetaView {
    pub entry_count: u64,
    pub data_size: u64,
    pub index_size: u64,
    pub bloom_offset: u64,
    pub bloom_size: u64,
    pub min_key: Seq<u8>,
    pub max_key: Seq<u8>,
    pub compression: CompressionType,
    pub created_at: Timestamp,
    pub version: u32,
}

impl View for SStableMeta {
    type V = MetaView;

    open spec fn view(&self) -> MetaView {
        MetaView {
            entry_count: self.entry_count,
            data_size: self.data_size,
            index_size: self.index_size,
            bloom_offset: self.bloom_offset,
            bloom_size: self.bloom_size,
            min_key: self.min_key@,
            max_key: self.max_key@,
            compression: self.compression,
            created_at: self.created_at,
            version: self.version,
        }
    }
}

impl Clone for SStableMeta {
    fn clone(&self) -> (r: Self)
        ensures
            r@ == self@,
    {
        SStableMeta {
            entry_count: self.entry_count,
            data_size: self.data_size,
            index_size: self.index_size,
            bloom_offset: self.bloom_offset,
            bloom_size: self.bloom_size,
            min_key: crate::copy_bytes(self.min_key.as_slice()),
            max_key: crate::copy_bytes(self.max_key.as_slice()),
            compression: self.compression,
            created_at: self.created_at,
            version: self.version,
        }
    }
}

} // verus!
