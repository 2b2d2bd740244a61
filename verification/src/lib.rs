//! A log-structured key-value store: an in-memory table in front of sorted, immutable tables.
use vstd::prelude::*;

pub mod bloom;
pub mod cli;
pub mod clock;
pub mod codec;
pub mod compaction;
pub mod config;
pub mod error;
pub mod le;
pub mod levels;
pub mod memtable;
pub mod names;
pub mod order;
pub mod serialization;
pub mod sorted;
pub mod sstable;
pub mod storage;
pub mod wal;

pub use config::Config;
pub use error::{Result, StorageError};
pub use storage::StorageEngine;

verus! {

/// The type of keys.
pub type Key = Vec<u8>;

/// The type of values.
pub type Value = Vec<u8>;

/// Microseconds since the start of 1970.
pub type Timestamp = u64;

/// A number that orders operations.
pub type SequenceNumber = u64;

/// The version of the storage engine.
pub const VERSION: &'static str = "0.1.0";

/// The longest key, in bytes.
pub const MAX_KEY_SIZE: usize = 1024;

/// The longest value, in bytes.
pub const MAX_VALUE_SIZE: usize = 1024 * 1024;

/// A key with the value that was put for it, or with none where it was deleted.
#[derive(Debug, PartialEq, Eq)]
pub struct Entry {
    pub key: Key,
    pub value: Option<Value>,
    pub timestamp: Timestamp,
    pub sequence: SequenceNumber,
}

/// An [`Entry`], with its key and value as sequences of bytes.
#[verifier::ext_equal]
pub struct EntryView {
    pub key: Seq<u8>,
    pub value: Option<Seq<u8>>,
    pub timestamp: Timestamp,
    pub sequence: SequenceNumber,
}

/// The bytes of a value, where there is one.
pub open spec fn value_view(value: Option<Value>) -> Option<Seq<u8>> {
    match value {
        Some(v) => Some(v@),
        None => None,
    }
}

impl EntryView {
    /// The bytes of the key and the value, and eight for each of the two numbers.
    pub open spec fn size(self) -> nat {
        self.key.len() + (match self.value {
            Some(v) => v.len(),
            None => 0,
        }) + 16
    }
}

impl View for Entry {
    type V = EntryView;

    open spec fn view(&self) -> EntryView {
        EntryView {
            key: self.key@,
            value: value_view(self.value),
            timestamp: self.timestamp,
            sequence: self.sequence,
        }
    }
}

/// The views of a sequence of entries.
pub open spec fn entry_views(entries: Seq<Entry>) -> Seq<EntryView> {
    entries.map_values(|e: Entry| e@)
}

impl Entry {
    pub fn new(
        key: Key,
        value: Option<Value>,
        timestamp: Timestamp,
        sequence: SequenceNumber,
    ) -> (r: Self)
        ensures
            r == (Entry { key, value, timestamp, sequence }),
    {
        Self { key, value, timestamp, sequence }
    }

    /// Whether this entry marks its key as deleted.
    pub fn is_deleted(&self) -> (r: bool)
        ensures
            r == (self@.value is None),
    {
        self.value.is_none()
    }

    /// The bytes of the key and the value, and eight for each of the two numbers.
    pub fn size(&self) -> (r: usize)
        requires
            self@.size() <= usize::MAX,
        ensures
            r == self@.size(),
    {
        let value_len: usize = match &self.value {
            Some(v) => v.len(),
            None => 0,
        };
        self.key.len() + value_len + 16
    }
}

impl Clone for Entry {
    fn clone(&self) -> (r: Self)
        ensures
            r@ == self@,
    {
        let value = match &self.value {
            Some(v) => Some(copy_bytes(v.as_slice())),
            None => None,
        };
        Entry {
            key: copy_bytes(self.key.as_slice()),
            value,
            timestamp: self.timestamp,
            sequence: self.sequence,
        }
    }
}

/// A copy of `bytes`.
pub fn copy_bytes(bytes: &[u8]) -> (r: Vec<u8>)
    ensures
        r@ == bytes@,
{
    let mut r: Vec<u8> = Vec::new();
    r.extend_from_slice(bytes);
    assert(r@ =~= bytes@);
    r
}

/// Law: the view of an entry has all of its key and its value, and its numbers.
pub proof fn law_entry_is_seen_whole(e: Entry)
    ensures
        e@.key == e.key@,
        match e.value {
            Some(v) => e@.value == Some(v@),
            None => e@.value is None,
        },
        e@.timestamp == e.timestamp,
        e@.sequence == e.sequence,
{
}

/// Law: the views of several entries are those of each, in their order.
pub proof fn law_entries_are_seen_one_by_one(entries: Seq<Entry>)
    ensures
        entry_views(entries).len() == entries.len(),
        forall|i: int| 0 <= i < entries.len() ==> #[trigger] entry_views(entries)[i] == entries[i]@,
{
}

/// Law: the size of an entry grows by one with each byte of its key or its value; without any bytes
/// it is sixteen, and a value without bytes counts as none.
pub proof fn law_size_counts_bytes(e: EntryView, byte: u8)
    ensures
        (EntryView { key: e.key.push(byte), ..e }).size() == e.size() + 1,
        e.value matches Some(v) ==> (EntryView { value: Some(v.push(byte)), ..e }).size()
            == e.size() + 1,
        (EntryView { value: Some(Seq::empty()), ..e }).size() == (EntryView {
            value: None,
            ..e
        }).size(),
        e.key.len() == 0 && e.value is None ==> e.size() == 16,
{
}

} // verus!
