//! Reading a table.
use crate::bloom::{bloom_of, BloomFilter, BloomView};
use crate::codec::{checksum, crc32, decompress, decompressed, verify_checksum};
use crate::config::CompressionType;
use crate::error::{read_past_end, unfilled_error, ErrorView, Result, StorageError};
use crate::le::{get_le, le_value, lemma_byte_ranges};
use crate::order::{key_less, less};
use crate::serialization::short_data;
use crate::sorted::entries_in;
use crate::sstable::cache::{bytes_content, bytes_slice, cache_with, BlockCache};
use crate::sstable::format::{block_entries, find_in_block, footer_of, index_of, index_views, read_block_entries, read_block_range, read_footer, read_index, search_block, Footer, IndexEntry, IndexView, FOOTER_SIZE};
use crate::sstable::iterator::SSTableIterator;
use crate::sstable::{MetaView, SStableMeta};
use crate::{entry_views, Entry, EntryView, Key, SequenceNumber};
use std::path::PathBuf;
use vstd::prelude::*;

verus! {

/// A table that is open for reading.
pub struct SSTableReader {
    path: PathBuf,
    data: Vec<u8>,
    mapped: bool,
    meta: SStableMeta,
    index: Vec<IndexEntry>,
    bloom_filter: Option<BloomFilter>,
    block_cache: BlockCache,
}

/// An [`SSTableReader`]: the bytes of its file, what was read of them when it was opened, and the
/// blocks that were read since.
#[verifier::ext_equal]
pub struct ReaderView {
    pub path: PathBuf,
    pub data: Seq<u8>,
    pub mapped: bool,
    pub meta: MetaView,
    pub index: Seq<IndexView>,
    pub bloom: Option<BloomView>,
    pub cache: Map<u64, Seq<u8>>,
}

/// The bytes of a file from `offset` on, or the error where the file ends before them.
///
/// In a mapped file the offset is taken as an index, of which a machine may keep the low-order
/// bits alone. In one that is not, reading nothing succeeds everywhere.
pub open spec fn read_span(
    data: Seq<u8>,
    mapped: bool,
    offset: u64,
    size: usize,
) -> std::result::Result<Seq<u8>, ErrorView> {
    let start = if mapped {
        offset as usize as int
    } else {
        offset as int
    };
    if !mapped && size == 0 {
        Ok(Seq::empty())
    } else if start + size > data.len() {
        Err(past_end(mapped))
    } else {
        Ok(data.subrange(start, start + size))
    }
}

/// The error for reading behind the end of a file.
pub open spec fn past_end(mapped: bool) -> ErrorView {
    if mapped {
        ErrorView::Corruption { message: "read beyond file bounds"@ }
    } else {
        ErrorView::Io(unfilled_error(Seq::empty()))
    }
}

/// What a block stands for that is stored behind its checksum, or the error.
pub open spec fn unframed(
    frame: Seq<u8>,
    compression: CompressionType,
) -> std::result::Result<Seq<u8>, ErrorView> {
    let stored = le_value(frame.take(4)) as u32;
    let body = frame.skip(4);
    if frame.len() < 4 {
        Err(
            ErrorView::Corruption {
                message: "\n                    block too small to contain checksum\n                "@,
            },
        )
    } else if stored != crc32(body) {
        Err(ErrorView::ChecksumMismatch { expected: stored, actual: crc32(body) })
    } else {
        decompressed(compression, body)
    }
}

/// Where the search for `key` between `left` and `right` ends: it halves the distance, and goes on
/// before the middle where `key` comes before the key there.
pub open spec fn bisect(index: Seq<IndexView>, key: Seq<u8>, left: int, right: int) -> int
    decreases right - left,
{
    if left >= right {
        left
    } else {
        let mid = left + (right - left) / 2;
        if key_less(key, index[mid].key) {
            bisect(index, key, left, mid)
        } else {
            bisect(index, key, mid + 1, right)
        }
    }
}

/// The block in which `key` has to be looked for.
pub open spec fn block_for(index: Seq<IndexView>, key: Seq<u8>) -> Option<int> {
    let end = bisect(index, key, 0, index.len() as int);
    if end > 0 {
        Some(end - 1)
    } else {
        None
    }
}

/// Whether the first keys of the blocks are in order.
pub open spec fn index_sorted(index: Seq<IndexView>) -> bool {
    forall|i: int, j: int|
        0 <= i < j < index.len() ==> key_less(#[trigger] index[i].key, #[trigger] index[j].key)
}

/// Whether blocks at one place have one size.
pub open spec fn index_consistent(index: Seq<IndexView>) -> bool {
    forall|i: int, j: int|
        0 <= i < index.len() && 0 <= j < index.len() && (#[trigger] index[i]).offset == (
        #[trigger] index[j]).offset ==> index[i].size == index[j].size
}

/// The figures of a footer, with the first keys of the first and of the last block.
pub open spec fn meta_of(f: Footer, index: Seq<IndexView>) -> MetaView {
    MetaView {
        entry_count: f.entry_count,
        data_size: f.data_size,
        index_size: f.index_size,
        bloom_offset: f.bloom_offset,
        bloom_size: f.bloom_size,
        min_key: if index.len() > 0 {
            index[0].key
        } else {
            Seq::empty()
        },
        max_key: if index.len() > 0 {
            index.last().key
        } else {
            Seq::empty()
        },
        compression: f.compression,
        created_at: f.created_at,
        version: f.version,
    }
}

/// The footer of a file, or the error.
pub open spec fn file_footer(data: Seq<u8>) -> std::result::Result<Footer, ErrorView> {
    if data.len() < FOOTER_SIZE {
        Err(
            ErrorView::Corruption {
                message: "\n                File too small to contain footer\n                "@,
            },
        )
    } else {
        footer_of(data.skip(data.len() - FOOTER_SIZE))
    }
}

/// The index of a file, or the error.
pub open spec fn file_index(
    data: Seq<u8>,
    mapped: bool,
    f: Footer,
) -> std::result::Result<Seq<IndexView>, ErrorView> {
    if f.bloom_offset + f.bloom_size > u64::MAX {
        Err(past_end(mapped))
    } else {
        match read_span(
            data,
            mapped,
            (f.bloom_offset + f.bloom_size) as u64,
            f.index_size as usize,
        ) {
            Ok(span) => match index_of(span) {
                Some(index) => Ok(index),
                None => Err(short_data()),
            },
            Err(e) => Err(e),
        }
    }
}

/// The Bloom filter of a file, if it has one, or the error.
pub open spec fn file_bloom(
    data: Seq<u8>,
    mapped: bool,
    f: Footer,
) -> std::result::Result<Option<BloomView>, ErrorView> {
    if f.bloom_size == 0 {
        Ok(None)
    } else {
        match read_span(data, mapped, f.bloom_offset, f.bloom_size as usize) {
            Ok(span) => match bloom_of(span) {
                Ok(bloom) => Ok(Some(bloom)),
                Err(e) => Err(e),
            },
            Err(e) => Err(e),
        }
    }
}

/// The reader for a file, or the error: the footer is read first, the index next, the Bloom filter
/// then, and the last block for the key that it ends with.
pub open spec fn opened(
    path: PathBuf,
    data: Seq<u8>,
    mapped: bool,
) -> std::result::Result<ReaderView, ErrorView> {
    match file_footer(data) {
        Err(e) => Err(e),
        Ok(f) => match file_index(data, mapped, f) {
            Err(e) => Err(e),
            Ok(index) => match file_bloom(data, mapped, f) {
                Err(e) => Err(e),
                Ok(bloom) => Ok(
                    ReaderView {
                        path,
                        data,
                        mapped,
                        meta: meta_of(f, index),
                        index,
                        bloom,
                        cache: Map::empty(),
                    }.with_last_key(),
                ),
            },
        },
    }
}

impl ReaderView {
    /// This reader with nothing read.
    pub open spec fn fresh(self) -> ReaderView {
        ReaderView { cache: Map::empty(), ..self }
    }

    /// What the block `i` of the file stands for, or the error.
    pub open spec fn stored_block(self, i: int) -> std::result::Result<Seq<u8>, ErrorView> {
        match read_span(
            self.data,
            self.mapped,
            self.index[i].offset,
            self.index[i].size as usize,
        ) {
            Ok(frame) => unframed(frame, self.meta.compression),
            Err(e) => Err(e),
        }
    }

    /// What reading the block `i` gives: what was read at its place before, or what is stored.
    pub open spec fn fetch(self, i: int) -> std::result::Result<Seq<u8>, ErrorView> {
        if self.cache.contains_key(self.index[i].offset) {
            Ok(self.cache[self.index[i].offset])
        } else {
            self.stored_block(i)
        }
    }

    /// The reader after the block `i` was read.
    pub open spec fn after_fetch(self, i: int) -> ReaderView {
        match self.fetch(i) {
            Ok(block) => if self.cache.contains_key(self.index[i].offset) {
                self
            } else {
                ReaderView { cache: cache_with(self.cache, self.index[i].offset, block), ..self }
            },
            Err(_) => self,
        }
    }

    /// Whether every block that was read is the one that is stored.
    pub open spec fn cache_true(self) -> bool {
        forall|i: int|
            0 <= i < self.index.len() && self.cache.contains_key((#[trigger] self.index[i]).offset)
                ==> self.stored_block(i) == Ok::<Seq<u8>, ErrorView>(
                self.cache[self.index[i].offset],
            )
    }

    /// Whether what was read is what is stored, if blocks at one place have one size.
    pub open spec fn sound(self) -> bool {
        index_consistent(self.index) ==> self.cache_true()
    }

    /// Whether the filter lets a search for `key` go on.
    pub open spec fn may_contain(self, key: Seq<u8>) -> bool {
        self.bloom matches Some(b) ==> b.may_contain(key)
    }

    /// The entry for `key`, if any, or the error.
    pub open spec fn lookup(self, key: Seq<u8>) -> std::result::Result<
        Option<EntryView>,
        ErrorView,
    > {
        if !self.may_contain(key) {
            Ok(None)
        } else {
            match block_for(self.index, key) {
                None => Ok(None),
                Some(i) => match self.fetch(i) {
                    Err(e) => Err(e),
                    Ok(block) => match find_in_block(block, key) {
                        Some(found) => Ok(found),
                        None => Err(short_data()),
                    },
                },
            }
        }
    }

    /// The reader after a search for `key`.
    pub open spec fn after_lookup(self, key: Seq<u8>) -> ReaderView {
        if !self.may_contain(key) {
            self
        } else {
            match block_for(self.index, key) {
                None => self,
                Some(i) => self.after_fetch(i),
            }
        }
    }

    /// The entries of a range in the blocks from `i` on, or the error; and the reader afterwards. A
    /// block that begins at the end of the range or behind it ends the search.
    pub open spec fn range_in(self, i: int, start: Seq<u8>, end: Seq<u8>) -> (
        std::result::Result<Seq<EntryView>, ErrorView>,
        ReaderView,
    )
        decreases self.index.len() - i,
    {
        if i >= self.index.len() || !key_less(self.index[i].key, end) {
            (Ok(Seq::empty()), self)
        } else {
            let next = self.after_fetch(i);
            match self.fetch(i) {
                Err(e) => (Err(e), next),
                Ok(block) => match block_entries(block) {
                    None => (Err(short_data()), next),
                    Some(s) => behind(
                        entries_in(s, start, end),
                        next.range_in(i + 1, start, end),
                    ),
                },
            }
        }
    }

    /// The block in which a search for a range begins.
    pub open spec fn first_block(self, start: Seq<u8>) -> int {
        match block_for(self.index, start) {
            Some(i) => i,
            None => 0,
        }
    }

    /// The entries of a range, or the error; and the reader afterwards.
    pub open spec fn range_of(self, start: Seq<u8>, end: Seq<u8>) -> (
        std::result::Result<Seq<EntryView>, ErrorView>,
        ReaderView,
    ) {
        self.range_in(self.first_block(start), start, end)
    }

    /// The entries of the block `i` of the file, where it can be read.
    pub open spec fn stored_entries(self, i: int) -> Option<Seq<EntryView>> {
        match self.stored_block(i) {
            Ok(block) => block_entries(block),
            Err(_) => None,
        }
    }

    /// The last key of the table: that of the last entry of its last block. Where that block cannot
    /// be read, the key that it begins with, which the index has.
    pub open spec fn last_key(self) -> Seq<u8> {
        if self.index.len() == 0 {
            Seq::empty()
        } else {
            match self.stored_entries(self.index.len() - 1) {
                Some(s) => if s.len() > 0 {
                    s.last().key
                } else {
                    self.index.last().key
                },
                None => self.index.last().key,
            }
        }
    }

    /// This reader with the last key of the table among its figures.
    pub open spec fn with_last_key(self) -> ReaderView {
        ReaderView { meta: MetaView { max_key: self.last_key(), ..self.meta }, ..self }
    }

    /// A number behind those of all entries in the blocks from `i` on that can be read.
    pub open spec fn number_behind(self, i: int) -> SequenceNumber
        decreases self.index.len() - i,
    {
        if i >= self.index.len() {
            0
        } else {
            larger(
                match self.stored_entries(i) {
                    Some(s) => number_behind_all(s),
                    None => 0,
                },
                self.number_behind(i + 1),
            )
        }
    }

    /// The entries of the blocks from `i` on, and the error that ends them, if one does.
    pub open spec fn stream(self, i: int) -> (Seq<EntryView>, Option<ErrorView>)
        decreases self.index.len() - i,
    {
        if i >= self.index.len() {
            (Seq::empty(), None)
        } else {
            match self.fetch(i) {
                Err(e) => (Seq::empty(), Some(e)),
                Ok(block) => match block_entries(block) {
                    None => (Seq::empty(), Some(short_data())),
                    Some(s) => {
                        let (more, fault) = self.after_fetch(i).stream(i + 1);
                        (s + more, fault)
                    },
                },
            }
        }
    }
}

/// The larger of two numbers.
pub open spec fn larger(a: SequenceNumber, b: SequenceNumber) -> SequenceNumber {
    if a > b {
        a
    } else {
        b
    }
}

/// A number behind those of all entries; the last number has none behind it.
pub open spec fn number_behind_all(s: Seq<EntryView>) -> SequenceNumber
    decreases s.len(),
{
    if s.len() == 0 {
        0
    } else {
        larger(
            if s.last().sequence < u64::MAX {
                (s.last().sequence + 1) as u64
            } else {
                u64::MAX
            },
            number_behind_all(s.drop_last()),
        )
    }
}

/// A number behind those of all entries.
fn next_number_of(entries: &Vec<Entry>) -> (r: SequenceNumber)
    ensures
        r == number_behind_all(entry_views(entries@)),
{
    let ghost s = entry_views(entries@);
    let mut number: SequenceNumber = 0;
    let mut i: usize = 0;
    assert(s.take(0) =~= Seq::empty());
    while i < entries.len()
        invariant
            i <= entries@.len(),
            s == entry_views(entries@),
            number == number_behind_all(s.take(i as int)),
        decreases entries@.len() - i,
    {
        assert(s[i as int] == entries@[i as int]@);
        assert(s.take(i + 1).drop_last() =~= s.take(i as int));
        let sequence: SequenceNumber = entries[i].sequence;
        let behind: SequenceNumber = if sequence < u64::MAX {
            sequence + 1
        } else {
            u64::MAX
        };
        if behind > number {
            number = behind;
        }
        i = i + 1;
    }
    assert(s.take(i as int) =~= s);
    number
}

/// `done` before the entries that follow, if they do.
pub open spec fn behind(
    done: Seq<EntryView>,
    rest: (std::result::Result<Seq<EntryView>, ErrorView>, ReaderView),
) -> (std::result::Result<Seq<EntryView>, ErrorView>, ReaderView) {
    (
        match rest.0 {
            Ok(s) => Ok(done + s),
            Err(e) => Err(e),
        },
        rest.1,
    )
}

/// Where the cache holds what is stored, a block that is read is the one that is stored, and the
/// cache goes on holding what is stored.
pub proof fn lemma_fetch_true(r: ReaderView, i: int)
    requires
        index_consistent(r.index),
        r.cache_true(),
        0 <= i < r.index.len(),
    ensures
        r.fetch(i) == r.stored_block(i),
        r.after_fetch(i).cache_true(),
        r.after_fetch(i).fresh() == r.fresh(),
{
    let a = r.after_fetch(i);
    assert(r.index[i] == r.index[i]);
    assert forall|j: int|
        0 <= j < a.index.len() && a.cache.contains_key((#[trigger] a.index[j]).offset) implies a.stored_block(
        j,
    ) == Ok::<Seq<u8>, ErrorView>(a.cache[a.index[j].offset]) by {
        assert(a.stored_block(j) == r.stored_block(j));
        assert(r.index[j] == a.index[j]);
        if r.index[j].offset == r.index[i].offset {
            assert(r.index[j].size == r.index[i].size);
        }
    }
}

/// Reading a block leaves a sound reader sound.
pub proof fn lemma_fetch_sound(r: ReaderView, i: int)
    requires
        r.sound(),
        0 <= i < r.index.len(),
    ensures
        r.after_fetch(i).sound(),
        r.after_fetch(i).fresh() == r.fresh(),
{
    if index_consistent(r.index) {
        lemma_fetch_true(r, i);
    }
}

/// A search ends between its bounds.
proof fn lemma_bisect_range(index: Seq<IndexView>, key: Seq<u8>, left: int, right: int)
    requires
        left <= right,
    ensures
        left <= bisect(index, key, left, right) <= right,
    decreases right - left,
{
    if left < right {
        let mid = left + (right - left) / 2;
        lemma_bisect_range(index, key, left, mid);
        lemma_bisect_range(index, key, mid + 1, right);
    }
}

/// The block in which a key has to be looked for is one of the index.
pub proof fn lemma_block_for_range(index: Seq<IndexView>, key: Seq<u8>)
    ensures
        block_for(index, key) matches Some(i) ==> 0 <= i < index.len(),
{
    lemma_bisect_range(index, key, 0, index.len() as int);
}

/// A search leaves a sound reader sound.
pub proof fn lemma_lookup_sound(r: ReaderView, key: Seq<u8>)
    requires
        r.sound(),
    ensures
        r.after_lookup(key).sound(),
        r.after_lookup(key).fresh() == r.fresh(),
{
    lemma_block_for_range(r.index, key);
    if let Some(i) = block_for(r.index, key) {
        lemma_fetch_sound(r, i);
    }
}

/// A search for a range leaves a sound reader sound.
pub proof fn lemma_range_sound(r: ReaderView, i: int, start: Seq<u8>, end: Seq<u8>)
    requires
        r.sound(),
        0 <= i,
    ensures
        r.range_in(i, start, end).1.sound(),
        r.range_in(i, start, end).1.fresh() == r.fresh(),
    decreases r.index.len() - i,
{
    if i < r.index.len() && key_less(r.index[i].key, end) {
        lemma_fetch_sound(r, i);
        assert(r.after_fetch(i).index == r.fresh().index);
        lemma_range_sound(r.after_fetch(i), i + 1, start, end);
    }
}

impl View for SSTableReader {
    type V = ReaderView;

    closed spec fn view(&self) -> ReaderView {
        ReaderView {
            path: self.path,
            data: self.data@,
            mapped: self.mapped,
            meta: self.meta@,
            index: index_views(self.index@),
            bloom: match self.bloom_filter {
                Some(b) => Some(b@),
                None => None,
            },
            cache: self.block_cache@,
        }
    }
}

/// The error for reading behind the end of a file that is not mapped.
fn ended() -> (r: StorageError)
    ensures
        r@ == past_end(false),
{
    let none: Vec<u8> = Vec::new();
    assert(none@ =~= Seq::empty());
    StorageError::Io(read_past_end(none.as_slice()))
}

/// The bytes of a file from `offset` on.
fn read_at(data: &Vec<u8>, mapped: bool, offset: u64, size: usize) -> (r: Result<bytes::Bytes>)
    ensures
        match r {
            Ok(b) => read_span(data@, mapped, offset, size) == Ok::<Seq<u8>, ErrorView>(
                bytes_content(b),
            ),
            Err(e) => read_span(data@, mapped, offset, size) == Err::<Seq<u8>, ErrorView>(e@),
        },
{
    if mapped {
        let start: usize = offset as usize;
        if size > data.len() || start > data.len() - size {
            return Err(StorageError::corruption("read beyond file bounds"));
        }
        let span = vstd::slice::slice_subrange(data.as_slice(), start, start + size);
        Ok(bytes::Bytes::copy_from_slice(span))
    } else {
        if size == 0 {
            let empty: Vec<u8> = Vec::new();
            assert(empty@ =~= Seq::empty());
            return Ok(bytes::Bytes::from(empty));
        }
        if size > data.len() || offset > (data.len() - size) as u64 {
            return Err(ended());
        }
        let start: usize = offset as usize;
        let span = vstd::slice::slice_subrange(data.as_slice(), start, start + size);
        Ok(bytes::Bytes::copy_from_slice(span))
    }
}

/// Checks the checksum of a stored block and decompresses it.
pub fn unframe(frame: &[u8], compression: CompressionType) -> (r: Result<Vec<u8>>)
    ensures
        crate::codec::result_view(r) == unframed(frame@, compression),
{
    if frame.len() < 4 {
        return Err(
            StorageError::corruption(
                "\n                    block too small to contain checksum\n                ",
            ),
        );
    }
    let body = vstd::slice::slice_subrange(frame, 4, frame.len());
    proof {
        lemma_byte_ranges();
        assert(body@ =~= frame@.skip(4));
        assert(frame@.subrange(0, 4) =~= frame@.take(4));
    }
    let stored: u64 = get_le(frame, 0, 4);
    verify_checksum(stored as u32, checksum(body))?;
    decompress(compression, body)
}

impl SSTableReader {
    /// Opens a table whose file holds `data`.
    pub fn open(path: PathBuf, data: Vec<u8>, use_mmap: bool) -> (r: Result<Self>)
        ensures
            match r {
                Ok(reader) => opened(path, data@, use_mmap) == Ok::<ReaderView, ErrorView>(
                    reader@,
                ),
                Err(e) => opened(path, data@, use_mmap) == Err::<ReaderView, ErrorView>(e@),
            },
    {
        let footer = Self::load_metadata(&data)?;
        let index = Self::load_index(&data, use_mmap, &footer)?;
        let bloom_filter = Self::load_bloom_filter(&data, use_mmap, &footer)?;
        let ghost views = index_views(index@);
        let (min_key, max_key) = if index.len() > 0 {
            assert(views[0] == index@[0]@);
            assert(views.last() == index@.last()@);
            (
                crate::copy_bytes(index[0].key.as_slice()),
                crate::copy_bytes(index[index.len() - 1].key.as_slice()),
            )
        } else {
            (Vec::new(), Vec::new())
        };
        let meta = SStableMeta {
            entry_count: footer.entry_count,
            data_size: footer.data_size,
            index_size: footer.index_size,
            bloom_offset: footer.bloom_offset,
            bloom_size: footer.bloom_size,
            min_key,
            max_key,
            compression: footer.compression,
            created_at: footer.created_at,
            version: footer.version,
        };
        assert(meta@ =~= meta_of(footer, views));
        let mut reader = Self {
            path,
            data,
            mapped: use_mmap,
            meta,
            index,
            bloom_filter,
            block_cache: BlockCache::new(),
        };
        let ghost first = reader@;
        let last = reader.last_key();
        reader.meta.max_key = last;
        assert(reader@ =~= first.with_last_key());
        Ok(reader)
    }

    /// The last key of the table, read from its last block.
    fn last_key(&self) -> (r: Key)
        ensures
            r@ == self@.last_key(),
    {
        if self.index.len() == 0 {
            let none: Key = Vec::new();
            assert(none@ =~= Seq::empty());
            return none;
        }
        let last: usize = self.index.len() - 1;
        assert(self@.index[last as int] == self.index@[last as int]@);
        match self.read_stored(self.index[last].offset, self.index[last].size) {
            Ok(entries) => {
                if entries.len() > 0 {
                    assert(entry_views(entries@).last() == entries@.last()@);
                    return crate::copy_bytes(entries[entries.len() - 1].key.as_slice());
                }
            },
            Err(_) => {},
        }
        crate::copy_bytes(self.index[last].key.as_slice())
    }

    fn load_metadata(data: &Vec<u8>) -> (r: Result<Footer>)
        ensures
            match r {
                Ok(f) => file_footer(data@) == Ok::<Footer, ErrorView>(f),
                Err(e) => file_footer(data@) == Err::<Footer, ErrorView>(e@),
            },
    {
        if data.len() < FOOTER_SIZE {
            return Err(
                StorageError::corruption(
                    "\n                File too small to contain footer\n                ",
                ),
            );
        }
        let span = vstd::slice::slice_subrange(
            data.as_slice(),
            data.len() - FOOTER_SIZE,
            data.len(),
        );
        assert(span@ =~= data@.skip(data@.len() - FOOTER_SIZE));
        read_footer(span)
    }

    fn load_index(data: &Vec<u8>, mapped: bool, footer: &Footer) -> (r: Result<Vec<IndexEntry>>)
        ensures
            match r {
                Ok(index) => file_index(data@, mapped, *footer) == Ok::<
                    Seq<IndexView>,
                    ErrorView,
                >(index_views(index@)),
                Err(e) => file_index(data@, mapped, *footer) == Err::<
                    Seq<IndexView>,
                    ErrorView,
                >(e@),
            },
    {
        if footer.bloom_offset > u64::MAX - footer.bloom_size {
            if mapped {
                return Err(StorageError::corruption("read beyond file bounds"));
            }
            return Err(ended());
        }
        let span = read_at(
            data,
            mapped,
            footer.bloom_offset + footer.bloom_size,
            footer.index_size as usize,
        )?;
        read_index(bytes_slice(&span))
    }

    fn load_bloom_filter(data: &Vec<u8>, mapped: bool, footer: &Footer) -> (r: Result<
        Option<BloomFilter>,
    >)
        ensures
            match r {
                Ok(Some(b)) => file_bloom(data@, mapped, *footer) == Ok::<
                    Option<BloomView>,
                    ErrorView,
                >(Some(b@)),
                Ok(None) => file_bloom(data@, mapped, *footer) == Ok::<
                    Option<BloomView>,
                    ErrorView,
                >(None),
                Err(e) => file_bloom(data@, mapped, *footer) == Err::<
                    Option<BloomView>,
                    ErrorView,
                >(e@),
            },
    {
        if footer.bloom_size == 0 {
            return Ok(None);
        }
        let span = read_at(data, mapped, footer.bloom_offset, footer.bloom_size as usize)?;
        let bloom = BloomFilter::from_bytes(bytes_slice(&span))?;
        Ok(Some(bloom))
    }

    /// The entry for `key`.
    pub fn get(&mut self, key: &[u8]) -> (r: Result<Option<Entry>>)
        ensures
            final(self)@ == old(self)@.after_lookup(key@),
            match r {
                Ok(Some(e)) => old(self)@.lookup(key@) == Ok::<Option<EntryView>, ErrorView>(
                    Some(e@),
                ),
                Ok(None) => old(self)@.lookup(key@) == Ok::<Option<EntryView>, ErrorView>(None),
                Err(e) => old(self)@.lookup(key@) == Err::<Option<EntryView>, ErrorView>(e@),
            },
    {
        if !self.might_contain(key) {
            return Ok(None);
        }
        match self.find_block_for_key(key) {
            None => Ok(None),
            Some(i) => {
                let block = self.read_block(i)?;
                search_block(bytes_slice(&block), key)
            },
        }
    }

    fn find_block_for_key(&self, key: &[u8]) -> (r: Option<usize>)
        ensures
            match r {
                Some(i) => i < self@.index.len() && block_for(self@.index, key@) == Some(i as int),
                None => block_for(self@.index, key@) is None,
            },
    {
        let ghost index = self@.index;
        let mut left: usize = 0;
        let mut right: usize = self.index.len();
        while left < right
            invariant
                left <= right <= self.index@.len(),
                index == self@.index,
                bisect(index, key@, 0, index.len() as int) == bisect(
                    index,
                    key@,
                    left as int,
                    right as int,
                ),
            decreases right - left,
        {
            let mid: usize = left + (right - left) / 2;
            assert(index[mid as int] == self.index@[mid as int]@);
            if less(key, self.index[mid].key.as_slice()) {
                right = mid;
            } else {
                left = mid + 1;
            }
        }
        if left > 0 {
            Some(left - 1)
        } else {
            None
        }
    }

    /// The block `i`, from the cache or from the file.
    pub(crate) fn read_block(&mut self, i: usize) -> (r: Result<bytes::Bytes>)
        requires
            i < old(self)@.index.len(),
        ensures
            final(self)@ == old(self)@.after_fetch(i as int),
            match r {
                Ok(b) => old(self)@.fetch(i as int) == Ok::<Seq<u8>, ErrorView>(bytes_content(b)),
                Err(e) => old(self)@.fetch(i as int) == Err::<Seq<u8>, ErrorView>(e@),
            },
    {
        let ghost view = self@;
        assert(view.index[i as int] == self.index@[i as int]@);
        let offset: u64 = self.index[i].offset;
        let size: u64 = self.index[i].size;
        match self.block_cache.get(offset) {
            Some(block) => {
                return Ok(block);
            },
            None => {},
        }
        let frame = read_at(&self.data, self.mapped, offset, size as usize)?;
        let content = unframe(bytes_slice(&frame), self.meta.compression)?;
        let block = bytes::Bytes::from(content);
        self.block_cache.insert(offset, block.clone());
        assert(self@ =~= view.after_fetch(i as int));
        Ok(block)
    }

    /// The entries from `start` up to, not including, `end`.
    pub fn range(&mut self, start: &[u8], end: &[u8]) -> (r: Result<Vec<Entry>>)
        ensures
            final(self)@ == old(self)@.range_of(start@, end@).1,
            match r {
                Ok(entries) => old(self)@.range_of(start@, end@).0 == Ok::<
                    Seq<EntryView>,
                    ErrorView,
                >(entry_views(entries@)),
                Err(e) => old(self)@.range_of(start@, end@).0 == Err::<Seq<EntryView>, ErrorView>(
                    e@,
                ),
            },
    {
        let mut results: Vec<Entry> = Vec::new();
        let first: usize = match self.find_block_for_key(start) {
            Some(i) => i,
            None => 0,
        };
        let limit: usize = self.index.len();
        let ghost whole = self@.range_of(start@, end@);
        let ghost len = self@.index.len();
        let mut i: usize = first;
        proof {
            assert(self@.first_block(start@) == first);
            if let Ok(s) = whole.0 {
                assert(entry_views(results@) + s =~= s);
            }
            assert(whole == behind(
                entry_views(results@),
                self@.range_in(i as int, start@, end@),
            ));
        }
        while i < limit
            invariant
                limit == len,
                self@.index.len() == len,
                whole == behind(
                    entry_views(results@),
                    self@.range_in(i as int, start@, end@),
                ),
                whole == old(self)@.range_of(start@, end@),
            ensures
                whole == (Ok::<Seq<EntryView>, ErrorView>(entry_views(results@)), self@),
                whole == old(self)@.range_of(start@, end@),
            decreases limit - i,
        {
            let ghost before = self@;
            let ghost done = entry_views(results@);
            assert(before.index[i as int] == self.index@[i as int]@);
            if !less(self.index[i].key.as_slice(), end) {
                assert(done + Seq::<EntryView>::empty() =~= done);
                break;
            }
            let block = self.read_block(i)?;
            let mut entries = read_block_range(bytes_slice(&block), start, end)?;
            let ghost more = entry_views(entries@);
            results.append(&mut entries);
            proof {
                assert(entry_views(results@) =~= done + more);
                if let Ok(s) = self@.range_in(i + 1, start@, end@).0 {
                    assert(done + (more + s) =~= (done + more) + s);
                }
            }
            i = i + 1;
            if i >= limit {
                assert(entry_views(results@) + Seq::<EntryView>::empty() =~= entry_views(
                    results@,
                ));
            }
        }
        Ok(results)
    }

    /// A number behind those of all entries that can be read.
    pub fn next_number(&self) -> (r: SequenceNumber)
        ensures
            r == self@.number_behind(0),
    {
        let ghost view = self@;
        let mut number: SequenceNumber = 0;
        let mut i: usize = self.index.len();
        while i > 0
            invariant
                view == self@,
                i <= self.index@.len(),
                number == view.number_behind(i as int),
            decreases i,
        {
            i = i - 1;
            assert(view.index[i as int] == self.index@[i as int]@);
            let offset: u64 = self.index[i].offset;
            let size: u64 = self.index[i].size;
            match self.read_stored(offset, size) {
                Ok(entries) => {
                    let behind: SequenceNumber = next_number_of(&entries);
                    if behind > number {
                        number = behind;
                    }
                },
                Err(_) => {},
            }
        }
        number
    }

    /// The entries of a block, read from the file.
    fn read_stored(&self, offset: u64, size: u64) -> (r: Result<Vec<Entry>>)
        ensures
            ({
                let stored = match read_span(self@.data, self@.mapped, offset, size as usize) {
                    Ok(frame) => match unframed(frame, self@.meta.compression) {
                        Ok(block) => block_entries(block),
                        Err(_) => None,
                    },
                    Err(_) => None,
                };
                match r {
                    Ok(entries) => stored == Some(entry_views(entries@)),
                    Err(_) => stored is None,
                }
            }),
    {
        let frame = read_at(&self.data, self.mapped, offset, size as usize)?;
        let content = unframe(bytes_slice(&frame), self.meta.compression)?;
        read_block_entries(content.as_slice())
    }

    /// Figures about the table.
    pub fn metadata(&self) -> (r: &SStableMeta)
        ensures
            r@ == self@.meta,
    {
        &self.meta
    }

    /// The path of the file.
    pub fn path(&self) -> (r: &PathBuf)
        ensures
            *r == self@.path,
    {
        &self.path
    }

    /// Whether the table may have an entry for `key`.
    pub fn might_contain(&self, key: &[u8]) -> (r: bool)
        ensures
            r == self@.may_contain(key@),
    {
        match &self.bloom_filter {
            Some(bloom) => bloom.might_contain(key),
            None => true,
        }
    }

    /// An iterator over all entries.
    pub fn iter<'a>(&'a mut self) -> (r: SSTableIterator<'a>)
        ensures
            r.wf(),
            r.remaining() == old(self)@.stream(0),
            *r.reader == *old(self),
            *final(r.reader) == *final(self),
    {
        SSTableIterator::new(self)
    }

    /// The number of blocks.
    pub fn block_count(&self) -> (r: usize)
        ensures
            r == self@.index.len(),
    {
        self.index.len()
    }
}

/// Law: reading a span of a file gives exactly its bytes where the file has all of them, and fails
/// where it does not; reading nothing never fails in a file that is not mapped.
pub proof fn law_span_is_read_whole(data: Seq<u8>, mapped: bool, offset: u64, size: usize)
    requires
        offset <= usize::MAX,
    ensures
        offset + size <= data.len() ==> (read_span(data, mapped, offset, size) matches Ok(bytes)
            && bytes == data.subrange(offset as int, offset + size)),
        offset + size > data.len() ==> (read_span(data, mapped, offset, size) is Err <==> (mapped
            || size > 0)),
{
    if !mapped && size == 0 && offset <= data.len() {
        assert(data.subrange(offset as int, offset as int) =~= Seq::empty());
    }
}

/// Law: a stored block is given only where the checksum before it is that of its bytes; any other
/// checksum is reported with both numbers. A block that is not compressed is given as it stands.
pub proof fn law_damaged_block_is_refused(frame: Seq<u8>, compression: CompressionType)
    requires
        frame.len() >= 4,
    ensures
        le_value(frame.take(4)) != crc32(frame.skip(4)) ==> (unframed(frame, compression)
            matches Err(ErrorView::ChecksumMismatch { expected, actual }) && expected == le_value(
            frame.take(4),
        ) && actual == crc32(frame.skip(4))),
        le_value(frame.take(4)) == crc32(frame.skip(4)) ==> unframed(frame, compression)
            == decompressed(compression, frame.skip(4)),
        le_value(frame.take(4)) == crc32(frame.skip(4)) && compression
            == CompressionType::Uncompressed ==> (unframed(frame, compression) matches Ok(b) && b
            == frame.skip(4)),
{
    lemma_byte_ranges();
    crate::le::lemma_le_value_bound(frame.take(4));
}

/// Law: a block that is too short for a checksum is refused.
pub proof fn law_short_block_is_refused(frame: Seq<u8>, compression: CompressionType)
    ensures
        frame.len() < 4 ==> (unframed(frame, compression) matches Err(ErrorView::Corruption {
            message,
        })),
{
}

/// Law: a table that was opened is that of its file: it has the path, the bytes and the figures of
/// the footer, and nothing was read of it. A file that is shorter than a footer is refused.
pub proof fn law_opened_table_is_that_of_its_file(path: PathBuf, data: Seq<u8>, mapped: bool)
    ensures
        opened(path, data, mapped) matches Ok(r) ==> {
            &&& r.path == path
            &&& r.data == data
            &&& r.mapped == mapped
            &&& r.cache == Map::<u64, Seq<u8>>::empty()
            &&& data.len() >= 64
            &&& footer_of(data.skip(data.len() - 64)) matches Ok(f)
            &&& r.meta.entry_count == f.entry_count
            &&& r.meta.data_size == f.data_size
            &&& r.meta.index_size == f.index_size
            &&& r.meta.bloom_offset == f.bloom_offset
            &&& r.meta.bloom_size == f.bloom_size
            &&& r.meta.created_at == f.created_at
            &&& r.meta.compression == f.compression
            &&& r.meta.version == f.version
            &&& f.bloom_size == 0 <==> r.bloom is None
        },
        data.len() < 64 ==> (opened(path, data, mapped) matches Err(ErrorView::Corruption {
            message,
        })),
{
}

/// Law: the number behind some entries is zero where there is none, and else that of one of them and
/// one more, as long as there is such a number; none of them has as high a number.
pub proof fn law_number_is_just_behind(s: Seq<EntryView>)
    ensures
        s.len() == 0 ==> number_behind_all(s) == 0,
        s.len() > 0 ==> exists|i: int|
            0 <= i < s.len() && (number_behind_all(s) == (#[trigger] s[i]).sequence + 1 || (
            s[i].sequence == u64::MAX && number_behind_all(s) == u64::MAX)),
        forall|i: int|
            0 <= i < s.len() ==> (#[trigger] s[i]).sequence < number_behind_all(s)
                || number_behind_all(s) == u64::MAX,
    decreases s.len(),
{
    if s.len() > 0 {
        let t = s.drop_last();
        let n = s.len() - 1;
        law_number_is_just_behind(t);
        assert(s[n] == s.last());
        if t.len() > 0 {
            let i = choose|i: int|
                0 <= i < t.len() && (number_behind_all(t) == (#[trigger] t[i]).sequence + 1 || (
                t[i].sequence == u64::MAX && number_behind_all(t) == u64::MAX));
            assert(s[i] == t[i]);
        }
        assert forall|i: int| 0 <= i < s.len() implies (#[trigger] s[i]).sequence
            < number_behind_all(s) || number_behind_all(s) == u64::MAX by {
            if i < n {
                assert(t[i] == s[i]);
            }
        }
    }
}

/// Law: the number behind the blocks of a table is that behind one of them that can be read, or zero
/// where there is none.
pub proof fn law_number_behind_blocks(r: ReaderView, i: int)
    requires
        0 <= i,
    ensures
        r.number_behind(i) == 0 || exists|j: int|
            i <= j < r.index.len() && (#[trigger] r.stored_entries(j) matches Some(s)
                && r.number_behind(i) == number_behind_all(s)),
        forall|j: int|
            i <= j < r.index.len() ==> (#[trigger] r.stored_entries(j) matches Some(s)
                ==> r.number_behind(i) >= number_behind_all(s)),
    decreases r.index.len() - i,
{
    if i < r.index.len() {
        law_number_behind_blocks(r, i + 1);
        assert(r.stored_entries(i) == r.stored_entries(i));
    }
}

/// Law: a block is read from where the index says, and no further; a search reads the one block that
/// can have the key, ends with its error where it cannot be read, and else finds what a search in the
/// block finds.
pub proof fn law_search_reads_one_block(r: ReaderView, i: int, key: Seq<u8>)
    requires
        0 <= i < r.index.len(),
        r.index[i].offset <= usize::MAX,
        r.index[i].size <= usize::MAX,
    ensures
        r.index[i].offset + r.index[i].size <= r.data.len() && (r.mapped || r.index[i].size > 0)
            ==> r.stored_block(i) == unframed(
            r.data.subrange(
                r.index[i].offset as int,
                r.index[i].offset + r.index[i].size,
            ),
            r.meta.compression,
        ),
        r.index[i].offset + r.index[i].size > r.data.len() && r.index[i].size > 0
            ==> r.stored_block(i) is Err,
        !r.may_contain(key) ==> r.lookup(key) == Ok::<Option<EntryView>, ErrorView>(None),
        r.may_contain(key) && block_for(r.index, key) is None ==> r.lookup(key) == Ok::<
            Option<EntryView>,
            ErrorView,
        >(None),
        r.may_contain(key) && block_for(r.index, key) == Some(i) && r.cache == Map::<
            u64,
            Seq<u8>,
        >::empty() ==> match r.stored_block(i) {
            Err(e) => r.lookup(key) == Err::<Option<EntryView>, ErrorView>(e),
            Ok(block) => find_in_block(block, key) matches Some(found) ==> r.lookup(key) == Ok::<
                Option<EntryView>,
                ErrorView,
            >(found),
        },
        r.cache == Map::<u64, Seq<u8>>::empty() && r.stored_block(i) is Err ==> r.stream(i) == (
            Seq::<EntryView>::empty(),
            Some(r.stored_block(i)->Err_0),
        ),
{
}

/// Law: the index and the filter of a table are read from where the footer says; where they cannot be
/// read the table is refused.
pub proof fn law_index_and_filter_are_where_the_footer_says(
    path: PathBuf,
    data: Seq<u8>,
    mapped: bool,
)
    ensures
        opened(path, data, mapped) matches Ok(r) ==> {
            let from = r.meta.bloom_offset + r.meta.bloom_size;
            &&& from <= usize::MAX && 0 < r.meta.index_size <= usize::MAX ==> {
                &&& from + r.meta.index_size <= data.len()
                &&& index_of(data.subrange(from, from + r.meta.index_size)) == Some(r.index)
            }
            &&& r.meta.bloom_offset <= usize::MAX && 0 < r.meta.bloom_size <= usize::MAX ==> {
                &&& from <= data.len()
                &&& bloom_of(data.subrange(r.meta.bloom_offset as int, from)) matches Ok(b)
                &&& r.bloom == Some(b)
            }
        },
{
}

/// Law: a reader with nothing read is the same reader but for what it has read.
pub proof fn law_fresh_reader_has_read_nothing(r: ReaderView)
    ensures
        r.fresh().path == r.path,
        r.fresh().data == r.data,
        r.fresh().mapped == r.mapped,
        r.fresh().meta == r.meta,
        r.fresh().index == r.index,
        r.fresh().bloom == r.bloom,
        r.fresh().cache == Map::<u64, Seq<u8>>::empty(),
{
}

} // verus!
