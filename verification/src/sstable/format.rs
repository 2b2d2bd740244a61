//! The parts of a table file: entries, blocks, the index and the footer.
use crate::config::CompressionType;
use crate::error::{ErrorView, Result, StorageError};
use crate::le::{law_le_round_trip, le_bytes, le_value, lemma_byte_ranges, lemma_le_bytes_len};
use crate::order::{less, same_bytes};
use crate::serialization::{law_fixed_width_round_trip, law_prefixed_round_trip, prefixed_bytes, short_data, Deserializer, Serializer};
use crate::sorted::{entries_in, has_key};
use crate::{entry_views, value_view, Entry, EntryView, Key, Timestamp};
use vstd::prelude::*;

verus! {

/// Marks the end of a table file.
pub const SSTABLE_MAGIC: u32 = 0x53533454;

/// The version of the format.
pub const SSTABLE_VERSION: u32 = 1;

/// The bytes of entries that a block takes before the next one begins.
pub const BLOCK_SIZE: usize = 4096;

/// The bytes of the footer.
pub const FOOTER_SIZE: usize = 64;

/// The first key of a block, and where the block is.
#[derive(Debug)]
pub struct IndexEntry {
    pub key: Key,
    pub offset: u64,
    pub size: u64,
}

/// An [`IndexEntry`], with its key as a sequence of bytes.
#[verifier::ext_equal]
pub struct IndexView {
    pub key: Seq<u8>,
    pub offset: u64,
    pub size: u64,
}

impl View for IndexEntry {
    type V = IndexView;

    open spec fn view(&self) -> IndexView {
        IndexView { key: self.key@, offset: self.offset, size: self.size }
    }
}

/// The views of a sequence of index entries.
pub open spec fn index_views(index: Seq<IndexEntry>) -> Seq<IndexView> {
    index.map_values(|e: IndexEntry| e@)
}

/// What the footer holds.
#[derive(Debug, Clone, Copy, PartialEq, Eq, Structural)]
pub struct Footer {
    pub entry_count: u64,
    pub data_size: u64,
    pub index_size: u64,
    pub bloom_offset: u64,
    pub bloom_size: u64,
    pub created_at: Timestamp,
    pub compression: CompressionType,
    pub version: u32,
}

/// A value in a block: whether there is one, and its bytes.
pub open spec fn encode_value(value: Option<Seq<u8>>) -> Seq<u8> {
    match value {
        Some(v) => seq![1u8] + prefixed_bytes(v),
        None => seq![0u8],
    }
}

/// What follows the key of an entry.
pub open spec fn encode_entry_tail(e: EntryView) -> Seq<u8> {
    encode_value(e.value) + le_bytes(e.timestamp as nat, 8) + le_bytes(e.sequence as nat, 8)
}

/// An entry in a block.
pub open spec fn encode_entry(e: EntryView) -> Seq<u8> {
    prefixed_bytes(e.key) + encode_entry_tail(e)
}

/// Entries, one behind the other.
pub open spec fn encode_entries(s: Seq<EntryView>) -> Seq<u8>
    decreases s.len(),
{
    if s.len() == 0 {
        Seq::empty()
    } else {
        encode_entries(s.drop_last()) + encode_entry(s.last())
    }
}

/// A block: the number of its entries, and the entries.
pub open spec fn encode_block(s: Seq<EntryView>) -> Seq<u8> {
    le_bytes(s.len(), 4) + encode_entries(s)
}

/// An entry of the index.
pub open spec fn encode_index_entry(e: IndexView) -> Seq<u8> {
    prefixed_bytes(e.key) + le_bytes(e.offset as nat, 8) + le_bytes(e.size as nat, 8)
}

/// Entries of the index, one behind the other.
pub open spec fn encode_index_entries(s: Seq<IndexView>) -> Seq<u8>
    decreases s.len(),
{
    if s.len() == 0 {
        Seq::empty()
    } else {
        encode_index_entries(s.drop_last()) + encode_index_entry(s.last())
    }
}

/// The index: the number of its entries, and the entries.
pub open spec fn encode_index(s: Seq<IndexView>) -> Seq<u8> {
    le_bytes(s.len(), 4) + encode_index_entries(s)
}

/// The number that stands for a compression.
pub open spec fn compression_code(compression: CompressionType) -> u8 {
    match compression {
        CompressionType::Uncompressed => 0,
        CompressionType::Lz4 => 1,
        CompressionType::Zstd => 2,
    }
}

/// The part of the footer that is used.
pub open spec fn encode_footer_fields(f: Footer) -> Seq<u8> {
    le_bytes(f.entry_count as nat, 8) + le_bytes(f.data_size as nat, 8) + le_bytes(
        f.index_size as nat,
        8,
    ) + le_bytes(f.bloom_offset as nat, 8) + le_bytes(f.bloom_size as nat, 8) + le_bytes(
        f.created_at as nat,
        8,
    ) + seq![compression_code(f.compression)] + le_bytes(f.version as nat, 4) + le_bytes(
        SSTABLE_MAGIC as nat,
        4,
    )
}

/// The footer, filled up with zeros.
pub open spec fn encode_footer(f: Footer) -> Seq<u8> {
    encode_footer_fields(f) + Seq::new(7, |i: int| 0u8)
}

/// The number in the first `n` bytes, and what follows.
pub open spec fn take_le(data: Seq<u8>, n: nat) -> Option<(nat, Seq<u8>)> {
    if n <= data.len() {
        Some((le_value(data.take(n as int)), data.skip(n as int)))
    } else {
        None
    }
}

/// The first `n` bytes, and what follows.
pub open spec fn take_bytes(data: Seq<u8>, n: nat) -> Option<(Seq<u8>, Seq<u8>)> {
    if n <= data.len() {
        Some((data.take(n as int), data.skip(n as int)))
    } else {
        None
    }
}

/// The bytes behind their length, and what follows.
pub open spec fn take_prefixed(data: Seq<u8>) -> Option<(Seq<u8>, Seq<u8>)> {
    match take_le(data, 4) {
        Some((n, rest)) => take_bytes(rest, n),
        None => None,
    }
}

/// The value of an entry, and what follows.
pub open spec fn take_value(data: Seq<u8>) -> Option<(Option<Seq<u8>>, Seq<u8>)> {
    if data.len() == 0 {
        None
    } else if data[0] == 0 {
        Some((None, data.skip(1)))
    } else {
        match take_prefixed(data.skip(1)) {
            Some((v, rest)) => Some((Some(v), rest)),
            None => None,
        }
    }
}

/// The entry whose key was read, and what follows it.
pub open spec fn take_entry_tail(key: Seq<u8>, data: Seq<u8>) -> Option<(EntryView, Seq<u8>)> {
    match take_value(data) {
        Some((value, rest)) => match take_le(rest, 8) {
            Some((timestamp, rest)) => match take_le(rest, 8) {
                Some((sequence, rest)) => Some(
                    (
                        EntryView {
                            key,
                            value,
                            timestamp: timestamp as u64,
                            sequence: sequence as u64,
                        },
                        rest,
                    ),
                ),
                None => None,
            },
            None => None,
        },
        None => None,
    }
}

/// The first entry, and what follows it.
pub open spec fn take_entry(data: Seq<u8>) -> Option<(EntryView, Seq<u8>)> {
    match take_prefixed(data) {
        Some((key, rest)) => take_entry_tail(key, rest),
        None => None,
    }
}

/// The first `count` entries, or nothing where the data ends before them.
pub open spec fn take_entries(data: Seq<u8>, count: nat) -> Option<Seq<EntryView>>
    decreases count,
{
    if count == 0 {
        Some(Seq::empty())
    } else {
        match take_entry(data) {
            Some((e, rest)) => match take_entries(rest, (count - 1) as nat) {
                Some(s) => Some(seq![e] + s),
                None => None,
            },
            None => None,
        }
    }
}

/// The entries of a block, or nothing where the data ends before them.
pub open spec fn block_entries(data: Seq<u8>) -> Option<Seq<EntryView>> {
    match take_le(data, 4) {
        Some((count, rest)) => take_entries(rest, count),
        None => None,
    }
}

/// The first of `count` entries that has this key, if any, or nothing where the data ends before
/// it is found.
pub open spec fn find_entry(data: Seq<u8>, count: nat, key: Seq<u8>) -> Option<Option<EntryView>>
    decreases count,
{
    if count == 0 {
        Some(None)
    } else {
        match take_entry(data) {
            Some((e, rest)) => if e.key == key {
                Some(Some(e))
            } else {
                find_entry(rest, (count - 1) as nat, key)
            },
            None => None,
        }
    }
}

/// The first entry of a block that has this key, if any, or nothing where the data ends before it
/// is found.
pub open spec fn find_in_block(data: Seq<u8>, key: Seq<u8>) -> Option<Option<EntryView>> {
    match take_le(data, 4) {
        Some((count, rest)) => find_entry(rest, count, key),
        None => None,
    }
}

/// The first entry of the index, and what follows it.
pub open spec fn take_index_entry(data: Seq<u8>) -> Option<(IndexView, Seq<u8>)> {
    match take_prefixed(data) {
        Some((key, rest)) => match take_le(rest, 8) {
            Some((offset, rest)) => match take_le(rest, 8) {
                Some((size, rest)) => Some(
                    (IndexView { key, offset: offset as u64, size: size as u64 }, rest),
                ),
                None => None,
            },
            None => None,
        },
        None => None,
    }
}

/// The first `count` entries of the index, or nothing where the data ends before them.
pub open spec fn take_index_entries(data: Seq<u8>, count: nat) -> Option<Seq<IndexView>>
    decreases count,
{
    if count == 0 {
        Some(Seq::empty())
    } else {
        match take_index_entry(data) {
            Some((e, rest)) => match take_index_entries(rest, (count - 1) as nat) {
                Some(s) => Some(seq![e] + s),
                None => None,
            },
            None => None,
        }
    }
}

/// The entries of the index, or nothing where the data ends before them.
pub open spec fn index_of(data: Seq<u8>) -> Option<Seq<IndexView>> {
    match take_le(data, 4) {
        Some((count, rest)) => take_index_entries(rest, count),
        None => None,
    }
}

/// `done` before what is still to come, if it comes.
pub open spec fn prepend<T>(done: Seq<T>, rest: Option<Seq<T>>) -> Option<Seq<T>> {
    match rest {
        Some(s) => Some(done + s),
        None => None,
    }
}

/// The number of eight bytes at `at`.
pub open spec fn word_at(data: Seq<u8>, at: int) -> u64 {
    le_value(data.subrange(at, at + 8)) as u64
}

/// The number of four bytes at `at`.
pub open spec fn half_word_at(data: Seq<u8>, at: int) -> u32 {
    le_value(data.subrange(at, at + 4)) as u32
}

/// The compression that a number stands for.
pub open spec fn compression_of(code: u8) -> Option<CompressionType> {
    if code == 0 {
        Some(CompressionType::Uncompressed)
    } else if code == 1 {
        Some(CompressionType::Lz4)
    } else if code == 2 {
        Some(CompressionType::Zstd)
    } else {
        None
    }
}

/// What 64 bytes hold as a footer, or the error.
pub open spec fn footer_of(data: Seq<u8>) -> std::result::Result<Footer, ErrorView> {
    match compression_of(data[48]) {
        None => Err(ErrorView::Corruption { message: "invalid compression type"@ }),
        Some(compression) => if half_word_at(data, 53) != SSTABLE_MAGIC {
            Err(ErrorView::Corruption { message: "invalid sstable magic number"@ })
        } else if half_word_at(data, 49) != SSTABLE_VERSION {
            Err(ErrorView::Corruption { message: "unsupported sstable version"@ })
        } else {
            Ok(
                Footer {
                    entry_count: word_at(data, 0),
                    data_size: word_at(data, 8),
                    index_size: word_at(data, 16),
                    bloom_offset: word_at(data, 24),
                    bloom_size: word_at(data, 32),
                    created_at: word_at(data, 40),
                    compression,
                    version: half_word_at(data, 49),
                },
            )
        },
    }
}

/// Whether the lengths of an entry fit where they are written.
pub open spec fn storable(e: EntryView) -> bool {
    &&& e.key.len() <= u32::MAX
    &&& e.value matches Some(v) ==> v.len() <= u32::MAX
}

/// Whether every entry of `s` is storable.
pub open spec fn all_storable(s: Seq<EntryView>) -> bool {
    forall|i: int| 0 <= i < s.len() ==> storable(#[trigger] s[i])
}

proof fn lemma_take_prefixed(bytes: Seq<u8>, tail: Seq<u8>)
    requires
        bytes.len() <= u32::MAX,
    ensures
        take_prefixed(prefixed_bytes(bytes) + tail) == Some((bytes, tail)),
{
    law_prefixed_round_trip(bytes, tail);
    let data = prefixed_bytes(bytes) + tail;
    assert(data.skip(4).skip(bytes.len() as int) =~= data.skip(4 + bytes.len() as int));
}

/// Law: an entry is read back from a block, whatever follows it.
pub proof fn law_entry_round_trip(e: EntryView, tail: Seq<u8>)
    requires
        storable(e),
    ensures
        take_entry(encode_entry(e) + tail) == Some((e, tail)),
{
    lemma_byte_ranges();
    let t = le_bytes(e.timestamp as nat, 8);
    let s = le_bytes(e.sequence as nat, 8);
    let rest = encode_value(e.value) + (t + (s + tail));
    assert(encode_entry(e) + tail =~= prefixed_bytes(e.key) + rest);
    lemma_take_prefixed(e.key, rest);
    law_fixed_width_round_trip(e.timestamp as nat, 8, s + tail);
    law_fixed_width_round_trip(e.sequence as nat, 8, tail);
    match e.value {
        Some(v) => {
            assert(rest[0] == 1u8);
            assert(rest.skip(1) =~= prefixed_bytes(v) + (t + (s + tail)));
            lemma_take_prefixed(v, t + (s + tail));
        },
        None => {
            assert(rest[0] == 0u8);
            assert(rest.skip(1) =~= t + (s + tail));
        },
    }
}

proof fn lemma_entries_round_trip(s: Seq<EntryView>, tail: Seq<u8>)
    requires
        all_storable(s),
    ensures
        take_entries(encode_entries(s) + tail, s.len()) == Some(s),
    decreases s.len(),
{
    if s.len() > 0 {
        lemma_encode_entries_front(s);
        let rest = encode_entries(s.drop_first()) + tail;
        assert(encode_entries(s) + tail =~= encode_entry(s[0]) + rest);
        law_entry_round_trip(s[0], rest);
        lemma_entries_round_trip(s.drop_first(), tail);
        assert(seq![s[0]] + s.drop_first() =~= s);
    } else {
        assert(s =~= Seq::empty());
    }
}

proof fn lemma_encode_entries_front(s: Seq<EntryView>)
    requires
        s.len() > 0,
    ensures
        encode_entries(s) == encode_entry(s[0]) + encode_entries(s.drop_first()),
    decreases s.len(),
{
    let t = s.drop_first();
    if s.len() == 1 {
        assert(s.drop_last() =~= Seq::empty());
        assert(t =~= Seq::empty());
        assert(encode_entries(s) =~= encode_entry(s[0]) + encode_entries(t));
    } else {
        lemma_encode_entries_front(s.drop_last());
        assert(s.drop_last().drop_first() =~= t.drop_last());
        assert(s.drop_last()[0] == s[0]);
        assert(encode_entries(s) =~= encode_entry(s[0]) + encode_entries(t));
    }
}

/// Law: the entries of a block are read back from it.
pub proof fn law_block_round_trip(s: Seq<EntryView>)
    requires
        all_storable(s),
        s.len() <= u32::MAX,
    ensures
        block_entries(encode_block(s)) == Some(s),
{
    lemma_byte_ranges();
    let entries = encode_entries(s);
    law_fixed_width_round_trip(s.len(), 4, entries);
    lemma_entries_round_trip(s, Seq::empty());
    assert(entries + Seq::<u8>::empty() =~= entries);
}

/// Whether the entry at `i` is the first that has this key.
pub open spec fn first_with_key(s: Seq<EntryView>, i: int, key: Seq<u8>) -> bool {
    &&& 0 <= i < s.len()
    &&& s[i].key == key
    &&& forall|j: int| 0 <= j < i ==> #[trigger] s[j].key != key
}

/// Law: a search among entries finds the first that has the key, and finds none only where there
/// is none.
pub proof fn law_search_finds_first(data: Seq<u8>, count: nat, key: Seq<u8>, s: Seq<EntryView>)
    requires
        take_entries(data, count) == Some(s),
    ensures
        match find_entry(data, count, key) {
            Some(Some(e)) => exists|i: int| first_with_key(s, i, key) && #[trigger] s[i] == e,
            Some(None) => !has_key(s, key),
            None => false,
        },
    decreases count,
{
    if count > 0 {
        let (e, rest) = take_entry(data)->0;
        let t = take_entries(rest, (count - 1) as nat)->0;
        assert(s =~= seq![e] + t);
        assert(s[0] == e);
        if e.key == key {
            assert(first_with_key(s, 0, key));
        } else {
            law_search_finds_first(rest, (count - 1) as nat, key, t);
            match find_entry(rest, (count - 1) as nat, key)->0 {
                Some(found) => {
                    let i = choose|i: int| first_with_key(t, i, key) && #[trigger] t[i] == found;
                    assert(s[i + 1] == found);
                    assert(first_with_key(s, i + 1, key)) by {
                        assert forall|j: int| 0 <= j < i + 1 implies #[trigger] s[j].key != key by {
                            if j > 0 {
                                assert(s[j] == t[j - 1]);
                            }
                        }
                    }
                },
                None => {
                    assert forall|i: int| 0 <= i < s.len() implies #[trigger] s[i].key != key by {
                        if i > 0 {
                            assert(s[i] == t[i - 1]);
                        }
                    }
                },
            }
        }
    }
}

/// Law: the index is read back from its bytes.
pub proof fn law_index_round_trip(s: Seq<IndexView>)
    requires
        forall|i: int| 0 <= i < s.len() ==> (#[trigger] s[i]).key.len() <= u32::MAX,
        s.len() <= u32::MAX,
    ensures
        index_of(encode_index(s)) == Some(s),
{
    lemma_byte_ranges();
    let entries = encode_index_entries(s);
    law_fixed_width_round_trip(s.len(), 4, entries);
    lemma_index_round_trip(s, Seq::empty());
    assert(entries + Seq::<u8>::empty() =~= entries);
}

proof fn lemma_index_round_trip(s: Seq<IndexView>, tail: Seq<u8>)
    requires
        forall|i: int| 0 <= i < s.len() ==> (#[trigger] s[i]).key.len() <= u32::MAX,
    ensures
        take_index_entries(encode_index_entries(s) + tail, s.len()) == Some(s),
    decreases s.len(),
{
    if s.len() > 0 {
        lemma_byte_ranges();
        lemma_encode_index_front(s);
        let rest = encode_index_entries(s.drop_first()) + tail;
        let e = s[0];
        let o = le_bytes(e.offset as nat, 8);
        let z = le_bytes(e.size as nat, 8);
        assert(encode_index_entries(s) + tail =~= prefixed_bytes(e.key) + (o + (z + rest)));
        lemma_take_prefixed(e.key, o + (z + rest));
        law_fixed_width_round_trip(e.offset as nat, 8, z + rest);
        law_fixed_width_round_trip(e.size as nat, 8, rest);
        assert(take_index_entry(encode_index_entries(s) + tail) == Some((e, rest)));
        lemma_index_round_trip(s.drop_first(), tail);
        assert(seq![s[0]] + s.drop_first() =~= s);
    } else {
        assert(s =~= Seq::empty());
    }
}

proof fn lemma_encode_index_front(s: Seq<IndexView>)
    requires
        s.len() > 0,
    ensures
        encode_index_entries(s) == encode_index_entry(s[0]) + encode_index_entries(
            s.drop_first(),
        ),
    decreases s.len(),
{
    let t = s.drop_first();
    if s.len() == 1 {
        assert(s.drop_last() =~= Seq::empty());
        assert(t =~= Seq::empty());
        assert(encode_index_entries(s) =~= encode_index_entry(s[0]) + encode_index_entries(t));
    } else {
        lemma_encode_index_front(s.drop_last());
        assert(s.drop_last().drop_first() =~= t.drop_last());
        assert(s.drop_last()[0] == s[0]);
        assert(encode_index_entries(s) =~= encode_index_entry(s[0]) + encode_index_entries(t));
    }
}

/// The footer fills its place.
pub proof fn lemma_footer_len(f: Footer)
    ensures
        encode_footer(f).len() == FOOTER_SIZE,
        encode_footer_fields(f).len() == 57,
{
    lemma_le_bytes_len(f.entry_count as nat, 8);
    lemma_le_bytes_len(f.data_size as nat, 8);
    lemma_le_bytes_len(f.index_size as nat, 8);
    lemma_le_bytes_len(f.bloom_offset as nat, 8);
    lemma_le_bytes_len(f.bloom_size as nat, 8);
    lemma_le_bytes_len(f.created_at as nat, 8);
    lemma_le_bytes_len(f.version as nat, 4);
    lemma_le_bytes_len(SSTABLE_MAGIC as nat, 4);
}

/// Law: a footer of the present version is read back from its bytes.
pub proof fn law_footer_round_trip(f: Footer)
    requires
        f.version == SSTABLE_VERSION,
    ensures
        footer_of(encode_footer(f)) == Ok::<Footer, ErrorView>(f),
{
    lemma_byte_ranges();
    lemma_footer_len(f);
    law_le_round_trip(f.entry_count as nat, 8);
    law_le_round_trip(f.data_size as nat, 8);
    law_le_round_trip(f.index_size as nat, 8);
    law_le_round_trip(f.bloom_offset as nat, 8);
    law_le_round_trip(f.bloom_size as nat, 8);
    law_le_round_trip(f.created_at as nat, 8);
    law_le_round_trip(f.version as nat, 4);
    law_le_round_trip(SSTABLE_MAGIC as nat, 4);
    let d = encode_footer(f);
    assert(d.subrange(0, 8) =~= le_bytes(f.entry_count as nat, 8));
    assert(d.subrange(8, 16) =~= le_bytes(f.data_size as nat, 8));
    assert(d.subrange(16, 24) =~= le_bytes(f.index_size as nat, 8));
    assert(d.subrange(24, 32) =~= le_bytes(f.bloom_offset as nat, 8));
    assert(d.subrange(32, 40) =~= le_bytes(f.bloom_size as nat, 8));
    assert(d.subrange(40, 48) =~= le_bytes(f.created_at as nat, 8));
    assert(d[48] == compression_code(f.compression));
    assert(d.subrange(49, 53) =~= le_bytes(f.version as nat, 4));
    assert(d.subrange(53, 57) =~= le_bytes(SSTABLE_MAGIC as nat, 4));
}

/// Writes an entry of a block.
pub fn write_entry(out: &mut Serializer, entry: &Entry)
    ensures
        final(out)@ == old(out)@ + encode_entry(entry@),
{
    out.write_len(entry.key.len());
    out.write_bytes(entry.key.as_slice());
    match &entry.value {
        Some(value) => {
            out.write_u8(1);
            out.write_len(value.len());
            out.write_bytes(value.as_slice());
        },
        None => {
            out.write_u8(0);
        },
    }
    out.write_u64(entry.timestamp);
    out.write_u64(entry.sequence);
    assert(out@ =~= old(out)@ + encode_entry(entry@));
}

/// The bytes of a block of `count` entries.
pub fn write_block(count: usize, entries: &[u8]) -> (r: Vec<u8>)
    ensures
        r@ == le_bytes(count as nat, 4) + entries@,
{
    let mut out = Serializer::new();
    out.write_len(count);
    out.write_bytes(entries);
    assert(out@ =~= le_bytes(count as nat, 4) + entries@);
    out.finish()
}

/// The bytes of the index.
pub fn write_index(index: &Vec<IndexEntry>) -> (r: Vec<u8>)
    ensures
        r@ == encode_index(index_views(index@)),
{
    let ghost views = index_views(index@);
    let mut out = Serializer::new();
    out.write_len(index.len());
    assert(views.take(0) =~= Seq::empty());
    assert(out@ =~= le_bytes(views.len(), 4) + encode_index_entries(views.take(0)));
    let mut i: usize = 0;
    while i < index.len()
        invariant
            i <= index@.len(),
            views == index_views(index@),
            out@ == le_bytes(views.len(), 4) + encode_index_entries(views.take(i as int)),
        decreases index@.len() - i,
    {
        let ghost before = out@;
        let entry = &index[i];
        out.write_len(entry.key.len());
        out.write_bytes(entry.key.as_slice());
        out.write_u64(entry.offset);
        out.write_u64(entry.size);
        assert(views.take(i + 1).drop_last() =~= views.take(i as int));
        assert(views.take(i + 1).last() == entry@);
        assert(out@ =~= before + encode_index_entry(entry@));
        assert(out@ =~= le_bytes(views.len(), 4) + encode_index_entries(views.take(i + 1)));
        i = i + 1;
    }
    assert(views.take(i as int) =~= views);
    out.finish()
}

/// The number that stands for a compression.
pub fn code_of_compression(compression: CompressionType) -> (r: u8)
    ensures
        r == compression_code(compression),
{
    match compression {
        CompressionType::Uncompressed => 0,
        CompressionType::Lz4 => 1,
        CompressionType::Zstd => 2,
    }
}

/// The bytes of the footer.
pub fn write_footer(f: &Footer) -> (r: Vec<u8>)
    ensures
        r@ == encode_footer(*f),
        r@.len() == FOOTER_SIZE,
{
    let mut out = Serializer::new();
    out.write_u64(f.entry_count);
    out.write_u64(f.data_size);
    out.write_u64(f.index_size);
    out.write_u64(f.bloom_offset);
    out.write_u64(f.bloom_size);
    out.write_u64(f.created_at);
    out.write_u8(code_of_compression(f.compression));
    out.write_u32(f.version);
    out.write_u32(SSTABLE_MAGIC);
    assert(out@ =~= encode_footer_fields(*f));
    let mut padded: Vec<u8> = out.finish();
    proof {
        lemma_footer_len(*f);
    }
    padded.resize(FOOTER_SIZE, 0);
    assert(padded@ =~= encode_footer(*f));
    padded
}

/// Reads bytes behind their length.
pub fn read_prefixed<'a>(d: &mut Deserializer<'a>) -> (r: Result<&'a [u8]>)
    requires
        old(d).wf(),
    ensures
        final(d).wf(),
        match r {
            Ok(bytes) => take_prefixed(old(d).rest()) == Some((bytes@, final(d).rest())),
            Err(e) => take_prefixed(old(d).rest()) is None && e@ == short_data(),
        },
{
    let len: u32 = d.read_u32()?;
    d.read_bytes(len as usize)
}

/// Reads what follows the key of an entry.
pub fn read_entry_tail<'a>(d: &mut Deserializer<'a>, key: &[u8]) -> (r: Result<Entry>)
    requires
        old(d).wf(),
    ensures
        final(d).wf(),
        match r {
            Ok(e) => take_entry_tail(key@, old(d).rest()) == Some((e@, final(d).rest())),
            Err(e) => take_entry_tail(key@, old(d).rest()) is None && e@ == short_data(),
        },
{
    let has_value: bool = d.read_u8()? != 0;
    let value = if has_value {
        Some(crate::copy_bytes(read_prefixed(d)?))
    } else {
        None
    };
    let ghost after_value = d.rest();
    assert(take_value(old(d).rest()) == Some((value_view(value), after_value)));
    let timestamp: u64 = d.read_u64()?;
    let sequence: u64 = d.read_u64()?;
    Ok(Entry::new(crate::copy_bytes(key), value, timestamp, sequence))
}

/// Passes over what follows the key of an entry.
pub fn skip_entry_tail<'a>(d: &mut Deserializer<'a>) -> (r: Result<()>)
    requires
        old(d).wf(),
    ensures
        final(d).wf(),
        match r {
            Ok(_) => forall|key: Seq<u8>| #[trigger]
                take_entry_tail(key, old(d).rest()) matches Some((e, rest)) && e.key == key && rest
                    == final(d).rest(),
            Err(e) => e@ == short_data() && forall|key: Seq<u8>| #[trigger]
                take_entry_tail(key, old(d).rest()) is None,
        },
{
    let has_value: bool = d.read_u8()? != 0;
    if has_value {
        let len: u32 = d.read_u32()?;
        d.skip(len as usize)?;
    }
    let ghost after_value = d.rest();
    d.skip(16)?;
    assert(after_value.skip(8).skip(8) =~= after_value.skip(16));
    Ok(())
}

/// Reads the entries of a block.
pub fn read_block_entries(data: &[u8]) -> (r: Result<Vec<Entry>>)
    ensures
        match r {
            Ok(entries) => block_entries(data@) == Some(entry_views(entries@)),
            Err(e) => block_entries(data@) is None && e@ == short_data(),
        },
{
    let mut d = Deserializer::new(data);
    assert(d.rest() =~= data@);
    let count: u32 = d.read_u32()?;
    let ghost whole = take_entries(d.rest(), count as nat);
    let mut entries: Vec<Entry> = Vec::new();
    let mut i: u32 = 0;
    assert(prepend(entry_views(entries@), whole) == whole) by {
        if let Some(s) = whole {
            assert(entry_views(entries@) + s =~= s);
        }
    }
    while i < count
        invariant
            i <= count,
            d.wf(),
            block_entries(data@) == whole,
            whole == prepend(entry_views(entries@), take_entries(d.rest(), (count - i) as nat)),
        decreases count - i,
    {
        let ghost before = entry_views(entries@);
        let ghost rest = d.rest();
        let key = read_prefixed(&mut d)?;
        let entry = read_entry_tail(&mut d, key)?;
        let ghost view = entry@;
        entries.push(entry);
        proof {
            assert(entry_views(entries@) =~= before.push(view));
            if let Some(s) = take_entries(d.rest(), (count - i - 1) as nat) {
                assert(before + (seq![view] + s) =~= before.push(view) + s);
            }
        }
        i = i + 1;
    }
    assert(entry_views(entries@) + Seq::<EntryView>::empty() =~= entry_views(entries@));
    Ok(entries)
}

/// Searches a block for a key.
pub fn search_block(data: &[u8], target: &[u8]) -> (r: Result<Option<Entry>>)
    ensures
        match r {
            Ok(Some(e)) => find_in_block(data@, target@) == Some(Some(e@)),
            Ok(None) => find_in_block(data@, target@) == Some(None::<EntryView>),
            Err(e) => find_in_block(data@, target@) is None && e@ == short_data(),
        },
{
    let mut d = Deserializer::new(data);
    assert(d.rest() =~= data@);
    let count: u32 = d.read_u32()?;
    let mut i: u32 = 0;
    while i < count
        invariant
            i <= count,
            d.wf(),
            find_in_block(data@, target@) == find_entry(d.rest(), (count - i) as nat, target@),
        decreases count - i,
    {
        let key = read_prefixed(&mut d)?;
        if same_bytes(key, target) {
            let entry = read_entry_tail(&mut d, key)?;
            return Ok(Some(entry));
        }
        let ghost tail = d.rest();
        skip_entry_tail(&mut d)?;
        assert(take_entry_tail(key@, tail) is Some);
        i = i + 1;
    }
    Ok(None)
}

/// Reads the entries of a block that lie in a range of keys.
pub fn read_block_range(data: &[u8], start: &[u8], end: &[u8]) -> (r: Result<Vec<Entry>>)
    ensures
        match r {
            Ok(entries) => block_entries(data@) matches Some(s) && entry_views(entries@)
                == entries_in(s, start@, end@),
            Err(e) => block_entries(data@) is None && e@ == short_data(),
        },
{
    let mut d = Deserializer::new(data);
    assert(d.rest() =~= data@);
    let count: u32 = d.read_u32()?;
    let ghost whole = take_entries(d.rest(), count as nat);
    let ghost mut seen: Seq<EntryView> = Seq::empty();
    let mut entries: Vec<Entry> = Vec::new();
    let mut i: u32 = 0;
    proof {
        assert(entry_views(entries@) =~= entries_in(seen, start@, end@));
        if let Some(s) = whole {
            assert(seen + s =~= s);
        }
    }
    while i < count
        invariant
            i <= count,
            d.wf(),
            block_entries(data@) == whole,
            whole == prepend(seen, take_entries(d.rest(), (count - i) as nat)),
            entry_views(entries@) == entries_in(seen, start@, end@),
        decreases count - i,
    {
        let ghost before = entry_views(entries@);
        let key = read_prefixed(&mut d)?;
        let ghost tail = d.rest();
        if !less(key, start) && less(key, end) {
            let entry = read_entry_tail(&mut d, key)?;
            let ghost view = entry@;
            entries.push(entry);
            assert(entry_views(entries@) =~= before.push(view));
        } else {
            skip_entry_tail(&mut d)?;
        }
        proof {
            let (view, after) = take_entry_tail(key@, tail)->0;
            let next = seen.push(view);
            assert(next.drop_last() =~= seen);
            if let Some(s) = take_entries(d.rest(), (count - i - 1) as nat) {
                assert(seen + (seq![view] + s) =~= next + s);
            }
            seen = next;
        }
        i = i + 1;
    }
    assert(seen + Seq::<EntryView>::empty() =~= seen);
    Ok(entries)
}

/// Reads the index.
pub fn read_index(data: &[u8]) -> (r: Result<Vec<IndexEntry>>)
    ensures
        match r {
            Ok(index) => index_of(data@) == Some(index_views(index@)),
            Err(e) => index_of(data@) is None && e@ == short_data(),
        },
{
    let mut d = Deserializer::new(data);
    assert(d.rest() =~= data@);
    let count: u32 = d.read_u32()?;
    let ghost whole = take_index_entries(d.rest(), count as nat);
    let mut index: Vec<IndexEntry> = Vec::new();
    let mut i: u32 = 0;
    assert(prepend(index_views(index@), whole) == whole) by {
        if let Some(s) = whole {
            assert(index_views(index@) + s =~= s);
        }
    }
    while i < count
        invariant
            i <= count,
            d.wf(),
            index_of(data@) == whole,
            whole == prepend(
                index_views(index@),
                take_index_entries(d.rest(), (count - i) as nat),
            ),
        decreases count - i,
    {
        let ghost before = index_views(index@);
        let key = read_prefixed(&mut d)?;
        let offset: u64 = d.read_u64()?;
        let size: u64 = d.read_u64()?;
        let entry = IndexEntry { key: crate::copy_bytes(key), offset, size };
        let ghost view = entry@;
        index.push(entry);
        proof {
            assert(index_views(index@) =~= before.push(view));
            if let Some(s) = take_index_entries(d.rest(), (count - i - 1) as nat) {
                assert(before + (seq![view] + s) =~= before.push(view) + s);
            }
        }
        i = i + 1;
    }
    assert(index_views(index@) + Seq::<IndexView>::empty() =~= index_views(index@));
    Ok(index)
}

/// The compression that a number stands for.
pub fn compression_from_code(code: u8) -> (r: Option<CompressionType>)
    ensures
        r == compression_of(code),
{
    if code == 0 {
        Some(CompressionType::Uncompressed)
    } else if code == 1 {
        Some(CompressionType::Lz4)
    } else if code == 2 {
        Some(CompressionType::Zstd)
    } else {
        None
    }
}

/// Reads the footer.
pub fn read_footer(data: &[u8]) -> (r: Result<Footer>)
    requires
        data@.len() == FOOTER_SIZE,
    ensures
        match r {
            Ok(f) => footer_of(data@) == Ok::<Footer, ErrorView>(f),
            Err(e) => footer_of(data@) == Err::<Footer, ErrorView>(e@),
        },
{
    let mut d = Deserializer::new(data);
    assert(d.rest() =~= data@);
    let entry_count: u64 = d.read_u64()?;
    assert(data@.take(8) =~= data@.subrange(0, 8));
    let data_size: u64 = d.read_u64()?;
    assert(data@.skip(8).take(8) =~= data@.subrange(8, 16));
    assert(d.rest() =~= data@.skip(16));
    let index_size: u64 = d.read_u64()?;
    assert(data@.skip(16).take(8) =~= data@.subrange(16, 24));
    assert(d.rest() =~= data@.skip(24));
    let bloom_offset: u64 = d.read_u64()?;
    assert(data@.skip(24).take(8) =~= data@.subrange(24, 32));
    assert(d.rest() =~= data@.skip(32));
    let bloom_size: u64 = d.read_u64()?;
    assert(data@.skip(32).take(8) =~= data@.subrange(32, 40));
    assert(d.rest() =~= data@.skip(40));
    let created_at: u64 = d.read_u64()?;
    assert(data@.skip(40).take(8) =~= data@.subrange(40, 48));
    assert(d.rest() =~= data@.skip(48));
    let code: u8 = d.read_u8()?;
    assert(d.rest() =~= data@.skip(49));
    let compression = match compression_from_code(code) {
        Some(c) => c,
        None => {
            return Err(StorageError::corruption("invalid compression type"));
        },
    };
    let version: u32 = d.read_u32()?;
    assert(data@.skip(49).take(4) =~= data@.subrange(49, 53));
    assert(d.rest() =~= data@.skip(53));
    let magic: u32 = d.read_u32()?;
    assert(data@.skip(53).take(4) =~= data@.subrange(53, 57));
    if magic != SSTABLE_MAGIC {
        return Err(StorageError::corruption("invalid sstable magic number"));
    }
    if version != SSTABLE_VERSION {
        return Err(StorageError::corruption("unsupported sstable version"));
    }
    Ok(
        Footer {
            entry_count,
            data_size,
            index_size,
            bloom_offset,
            bloom_size,
            created_at,
            compression,
            version,
        },
    )
}

/// Law: an entry is written as the length of its key in four bytes, its key, a one, the length of its
/// value and its value, or a zero for a deletion, and its two numbers in eight bytes each.
pub proof fn law_entry_layout(e: EntryView)
    ensures
        encode_entry(e) == le_bytes(e.key.len(), 4) + e.key + (match e.value {
            Some(v) => seq![1u8] + le_bytes(v.len(), 4) + v,
            None => seq![0u8],
        }) + le_bytes(e.timestamp as nat, 8) + le_bytes(e.sequence as nat, 8),
{
    match e.value {
        Some(v) => {
            assert(encode_entry(e) =~= le_bytes(e.key.len(), 4) + e.key + (seq![1u8] + le_bytes(
                v.len(),
                4,
            ) + v) + le_bytes(e.timestamp as nat, 8) + le_bytes(e.sequence as nat, 8));
        },
        None => {
            assert(encode_entry(e) =~= le_bytes(e.key.len(), 4) + e.key + seq![0u8] + le_bytes(
                e.timestamp as nat,
                8,
            ) + le_bytes(e.sequence as nat, 8));
        },
    }
}

/// Law: a block is the number of its entries in four bytes and its entries one behind the other; the
/// index is the number of its entries, and for each the length of its key, its key, where its block
/// stands and how long it is.
pub proof fn law_block_and_index_layout(
    s: Seq<EntryView>,
    e: EntryView,
    index: Seq<IndexView>,
    i: IndexView,
)
    ensures
        encode_block(s) == le_bytes(s.len(), 4) + encode_entries(s),
        encode_entries(s.push(e)) == encode_entries(s) + encode_entry(e),
        encode_entries(Seq::empty()).len() == 0,
        encode_index(index) == le_bytes(index.len(), 4) + encode_index_entries(index),
        encode_index_entries(index.push(i)) == encode_index_entries(index) + le_bytes(
            i.key.len(),
            4,
        ) + i.key + le_bytes(i.offset as nat, 8) + le_bytes(i.size as nat, 8),
        encode_index_entries(Seq::empty()).len() == 0,
{
    assert(s.push(e).drop_last() =~= s);
    assert(index.push(i).drop_last() =~= index);
    assert(encode_index_entries(index.push(i)) =~= encode_index_entries(index) + le_bytes(
        i.key.len(),
        4,
    ) + i.key + le_bytes(i.offset as nat, 8) + le_bytes(i.size as nat, 8));
}

/// Law: the footer has 64 bytes: six numbers of eight bytes, the code of the compression, the version
/// and the mark of the format in four bytes each, and zeros.
pub proof fn law_footer_layout(f: Footer)
    ensures
        ({
            let data = encode_footer(f);
            &&& data.len() == 64
            &&& data.subrange(0, 8) == le_bytes(f.entry_count as nat, 8)
            &&& data.subrange(8, 16) == le_bytes(f.data_size as nat, 8)
            &&& data.subrange(16, 24) == le_bytes(f.index_size as nat, 8)
            &&& data.subrange(24, 32) == le_bytes(f.bloom_offset as nat, 8)
            &&& data.subrange(32, 40) == le_bytes(f.bloom_size as nat, 8)
            &&& data.subrange(40, 48) == le_bytes(f.created_at as nat, 8)
            &&& f.compression == CompressionType::Uncompressed ==> data[48] == 0
            &&& f.compression == CompressionType::Lz4 ==> data[48] == 1
            &&& f.compression == CompressionType::Zstd ==> data[48] == 2
            &&& data.subrange(49, 53) == le_bytes(f.version as nat, 4)
            &&& data.subrange(53, 57) == le_bytes(0x5353_3454, 4)
            &&& forall|i: int| 57 <= i < 64 ==> #[trigger] data[i] == 0
        }),
{
    lemma_le_bytes_len(f.entry_count as nat, 8);
    lemma_le_bytes_len(f.data_size as nat, 8);
    lemma_le_bytes_len(f.index_size as nat, 8);
    lemma_le_bytes_len(f.bloom_offset as nat, 8);
    lemma_le_bytes_len(f.bloom_size as nat, 8);
    lemma_le_bytes_len(f.created_at as nat, 8);
    lemma_le_bytes_len(f.version as nat, 4);
    lemma_le_bytes_len(SSTABLE_MAGIC as nat, 4);
    let data = encode_footer(f);
    assert(data.subrange(0, 8) =~= le_bytes(f.entry_count as nat, 8));
    assert(data.subrange(8, 16) =~= le_bytes(f.data_size as nat, 8));
    assert(data.subrange(16, 24) =~= le_bytes(f.index_size as nat, 8));
    assert(data.subrange(24, 32) =~= le_bytes(f.bloom_offset as nat, 8));
    assert(data.subrange(32, 40) =~= le_bytes(f.bloom_size as nat, 8));
    assert(data.subrange(40, 48) =~= le_bytes(f.created_at as nat, 8));
    assert(data.subrange(49, 53) =~= le_bytes(f.version as nat, 4));
    assert(data.subrange(53, 57) =~= le_bytes(SSTABLE_MAGIC as nat, 4));
}

/// Law: 64 bytes are taken for a footer exactly where they have the mark of the format, its version
/// and the code of a compression; the footer then has the numbers that stand in them.
pub proof fn law_other_footers_are_refused(data: Seq<u8>)
    requires
        data.len() == 64,
    ensures
        footer_of(data) is Ok <==> {
            &&& le_value(data.subrange(53, 57)) == 0x5353_3454
            &&& le_value(data.subrange(49, 53)) == 1
            &&& data[48] <= 2
        },
        footer_of(data) matches Ok(f) ==> {
            &&& f.entry_count == le_value(data.subrange(0, 8))
            &&& f.data_size == le_value(data.subrange(8, 16))
            &&& f.index_size == le_value(data.subrange(16, 24))
            &&& f.bloom_offset == le_value(data.subrange(24, 32))
            &&& f.bloom_size == le_value(data.subrange(32, 40))
            &&& f.created_at == le_value(data.subrange(40, 48))
            &&& f.compression == CompressionType::Uncompressed <==> data[48] == 0
            &&& f.compression == CompressionType::Lz4 <==> data[48] == 1
            &&& f.compression == CompressionType::Zstd <==> data[48] == 2
            &&& f.version == 1
        },
        footer_of(data) is Err ==> footer_of(data)->Err_0 is Corruption,
{
    lemma_byte_ranges();
    crate::le::lemma_le_value_bound(data.subrange(53, 57));
    crate::le::lemma_le_value_bound(data.subrange(49, 53));
    crate::le::lemma_le_value_bound(data.subrange(0, 8));
    crate::le::lemma_le_value_bound(data.subrange(8, 16));
    crate::le::lemma_le_value_bound(data.subrange(16, 24));
    crate::le::lemma_le_value_bound(data.subrange(24, 32));
    crate::le::lemma_le_value_bound(data.subrange(32, 40));
    crate::le::lemma_le_value_bound(data.subrange(40, 48));
}

/// Law: what is read of a block is what stands in it: each entry that is read is written back as the
/// bytes that it was read from, but for the mark of its value.
pub proof fn law_read_entry_was_there(data: Seq<u8>)
    ensures
        take_entry(data) matches Some((e, rest)) ==> {
            let k = e.key.len() as int;
            &&& 5 + k <= data.len()
            &&& data.take(4) == le_bytes(e.key.len(), 4)
            &&& data.subrange(4, 4 + k) == e.key
            &&& data[4 + k] == 0 <==> e.value is None
            &&& (data[4 + k] == 0 || data[4 + k] == 1) ==> data == encode_entry(e) + rest
        },
{
    if let Some((e, rest)) = take_entry(data) {
        let k = e.key.len() as int;
        let n = le_value(data.take(4));
        crate::le::law_le_bytes_of_value(data.take(4));
        assert(e.key =~= data.skip(4).take(n as int));
        assert(data.subrange(4, 4 + k) =~= e.key);
        let tail = data.skip(4).skip(n as int);
        assert(tail[0] == data[4 + k]);
        lemma_byte_ranges();
        let after = (take_value(tail)->0).1;
        crate::le::law_le_bytes_of_value(after.take(8));
        crate::le::lemma_le_value_bound(after.take(8));
        crate::le::law_le_bytes_of_value(after.skip(8).take(8));
        crate::le::lemma_le_value_bound(after.skip(8).take(8));
        assert(after =~= le_bytes(e.timestamp as nat, 8) + le_bytes(e.sequence as nat, 8) + rest) by {
            assert(after.take(8) + (after.skip(8).take(8) + after.skip(8).skip(8)) =~= after);
        }
        if data[4 + k] == 0 {
            assert(tail =~= seq![0u8] + after);
        } else if data[4 + k] == 1 {
            let body = tail.skip(1);
            let m = le_value(body.take(4));
            crate::le::law_le_bytes_of_value(body.take(4));
            let v = e.value->0;
            assert(v =~= body.skip(4).take(m as int));
            assert(body =~= prefixed_bytes(v) + after);
            assert(tail =~= seq![1u8] + (prefixed_bytes(v) + after));
        }
        if data[4 + k] == 0 || data[4 + k] == 1 {
            assert(data =~= le_bytes(n, 4) + (e.key + tail));
            assert(data =~= encode_entry(e) + rest);
        }
    }
}

/// Law: a search in a block finds the first of its entries that has the key, and none where none has
/// it.
pub proof fn law_block_search_finds_first(data: Seq<u8>, key: Seq<u8>, s: Seq<EntryView>)
    requires
        block_entries(data) == Some(s),
    ensures
        find_in_block(data, key) matches Some(found) && match found {
            Some(e) => exists|i: int|
                0 <= i < s.len() && #[trigger] s[i] == e && e.key == key && forall|j: int|
                    0 <= j < i ==> (#[trigger] s[j]).key != key,
            None => forall|i: int| 0 <= i < s.len() ==> (#[trigger] s[i]).key != key,
        },
{
    let (count, rest) = take_le(data, 4)->0;
    law_search_finds_first(rest, count, key, s);
    if let Some(Some(e)) = find_in_block(data, key) {
        let i = choose|i: int| first_with_key(s, i, key) && #[trigger] s[i] == e;
        assert(s[i] == e && e.key == key && forall|j: int|
            0 <= j < i ==> (#[trigger] s[j]).key != key);
    }
}

/// Law: what is seen of an entry of the index is all of its key, and its place.
pub proof fn law_index_is_seen_whole(e: IndexEntry, index: Seq<IndexEntry>)
    ensures
        e@.key == e.key@,
        e@.offset == e.offset,
        e@.size == e.size,
        index_views(index).len() == index.len(),
        forall|i: int| 0 <= i < index.len() ==> #[trigger] index_views(index)[i] == index[i]@,
{
}

/// Law: a block that is read has as many entries as its first four bytes say, and so has an index.
pub proof fn law_counted_entries_are_read(data: Seq<u8>)
    ensures
        block_entries(data) matches Some(s) ==> data.len() >= 4 && s.len() == le_value(data.take(4)),
        index_of(data) matches Some(s) ==> data.len() >= 4 && s.len() == le_value(data.take(4)),
{
    if data.len() >= 4 {
        let rest = data.skip(4);
        lemma_entry_count(rest, le_value(data.take(4)));
        lemma_index_count(rest, le_value(data.take(4)));
    }
}

proof fn lemma_entry_count(data: Seq<u8>, count: nat)
    ensures
        take_entries(data, count) matches Some(s) ==> s.len() == count,
    decreases count,
{
    if count > 0 {
        if let Some((e, rest)) = take_entry(data) {
            lemma_entry_count(rest, (count - 1) as nat);
        }
    }
}

proof fn lemma_index_count(data: Seq<u8>, count: nat)
    ensures
        take_index_entries(data, count) matches Some(s) ==> s.len() == count,
    decreases count,
{
    if count > 0 {
        if let Some((e, rest)) = take_index_entry(data) {
            lemma_index_count(rest, (count - 1) as nat);
        }
    }
}

/// Law: an entry of the index that is read is written back as the bytes that it was read from.
pub proof fn law_read_index_entry_was_there(data: Seq<u8>)
    ensures
        take_index_entry(data) matches Some((e, rest)) ==> data == encode_index_entry(e) + rest,
{
    if let Some((e, rest)) = take_index_entry(data) {
        let n = le_value(data.take(4));
        crate::le::law_le_bytes_of_value(data.take(4));
        assert(e.key =~= data.skip(4).take(n as int));
        let after = data.skip(4).skip(n as int);
        lemma_byte_ranges();
        crate::le::law_le_bytes_of_value(after.take(8));
        crate::le::lemma_le_value_bound(after.take(8));
        crate::le::law_le_bytes_of_value(after.skip(8).take(8));
        crate::le::lemma_le_value_bound(after.skip(8).take(8));
        assert(after =~= le_bytes(e.offset as nat, 8) + le_bytes(e.size as nat, 8) + rest) by {
            assert(after.take(8) + (after.skip(8).take(8) + after.skip(8).skip(8)) =~= after);
        }
        assert(data =~= le_bytes(n, 4) + (e.key + after));
        assert(data =~= encode_index_entry(e) + rest);
    }
}

} // verus!
