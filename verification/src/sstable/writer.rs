//! Writing a table.
use crate::bloom::{BloomFilter, BloomSizing, BloomView};
use crate::clock::current_timestamp;
use crate::codec::{checksum, compress, compresses_to, crc32};
use crate::config::CompressionType;
use crate::error::{ErrorView, Result, StorageError};
use crate::le::{le_bytes, lemma_le_bytes_len, put_le};
use crate::order::{key_at_most, key_less, law_key_less_total, law_key_less_transitive, less};
use crate::serialization::Serializer;
use crate::sorted::sorted;
use crate::sstable::format::{encode_block, encode_entries, encode_entry, encode_footer, encode_index, index_views, write_block, write_entry, write_footer, write_index, Footer, IndexEntry, IndexView, BLOCK_SIZE, SSTABLE_VERSION};
use crate::sstable::{MetaView, SStableMeta};
use crate::{Entry, EntryView, Key, Timestamp};
use std::path::PathBuf;
use vstd::prelude::*;

verus! {

/// A table that is being written.
pub struct SSTableWriter {
    path: PathBuf,
    output: Vec<u8>,
    current_block: Vec<u8>,
    current_block_entries: usize,
    index: Vec<IndexEntry>,
    bloom_filter: BloomFilter,
    compression: CompressionType,
    compression_level: i32,
    entry_count: u64,
    min_key: Option<Key>,
    max_key: Option<Key>,
    created_at: Timestamp,
    blocks: Ghost<Seq<Seq<EntryView>>>,
    pending: Ghost<Seq<EntryView>>,
}

/// A table that was written: the bytes of its file, and figures about it.
pub struct SSTableImage {
    pub path: PathBuf,
    pub bytes: Vec<u8>,
    pub meta: SStableMeta,
}

/// An [`SSTableWriter`]: what it has put out, the entries of the blocks in it and those of the
/// block that is being filled, and what goes behind the blocks.
#[verifier::ext_equal]
pub struct WriterView {
    pub path: PathBuf,
    pub output: Seq<u8>,
    pub blocks: Seq<Seq<EntryView>>,
    pub pending: Seq<EntryView>,
    pub index: Seq<IndexView>,
    pub bloom: BloomView,
    pub compression: CompressionType,
    pub level: i32,
    pub entry_count: u64,
    pub min_key: Option<Seq<u8>>,
    pub max_key: Option<Seq<u8>>,
    pub created_at: Timestamp,
}

/// The entries of all blocks.
pub open spec fn joined(blocks: Seq<Seq<EntryView>>) -> Seq<EntryView>
    decreases blocks.len(),
{
    if blocks.len() == 0 {
        Seq::empty()
    } else {
        joined(blocks.drop_last()) + blocks.last()
    }
}

/// A stored block: its checksum, and its compressed bytes.
pub open spec fn frame_of(body: Seq<u8>) -> Seq<u8> {
    le_bytes(crc32(body) as nat, 4) + body
}

/// The error for a key that is not behind all others.
pub open spec fn out_of_order() -> ErrorView {
    ErrorView::InvalidOperation { message: "keys must be added in sorted order"@ }
}

impl WriterView {
    /// All entries that were added.
    pub open spec fn entries(self) -> Seq<EntryView> {
        joined(self.blocks) + self.pending
    }

    /// A writer to which nothing was added.
    pub open spec fn empty(
        path: PathBuf,
        bloom: BloomView,
        compression: CompressionType,
        level: i32,
        created_at: Timestamp,
    ) -> WriterView {
        WriterView {
            path,
            output: Seq::empty(),
            blocks: Seq::empty(),
            pending: Seq::empty(),
            index: Seq::empty(),
            bloom,
            compression,
            level,
            entry_count: 0,
            min_key: None,
            max_key: None,
            created_at,
        }
    }

    /// Whether `key` comes behind all keys that were noted.
    pub open spec fn in_order(self, key: Seq<u8>) -> bool {
        self.max_key matches Some(max) ==> key_less(max, key)
    }

    /// The writer after the key of the next entry was noted.
    pub open spec fn noted(self, key: Seq<u8>) -> WriterView {
        WriterView {
            min_key: if self.min_key is None {
                Some(key)
            } else {
                self.min_key
            },
            max_key: Some(key),
            bloom: self.bloom.added(key),
            ..self
        }
    }

    /// Whether the block that is being filled has no room for `e`.
    pub open spec fn is_full_for(self, e: EntryView) -> bool {
        self.pending.len() > 0 && encode_entries(self.pending).len() + encode_entry(e).len()
            > BLOCK_SIZE
    }

    /// The writer after the block that was being filled was put out, compressed to `body`.
    pub open spec fn flushed(self, body: Seq<u8>) -> WriterView {
        let last = self.index.last();
        WriterView {
            output: self.output + frame_of(body),
            blocks: self.blocks.push(self.pending),
            pending: Seq::empty(),
            index: self.index.drop_last().push(
                IndexView { size: frame_of(body).len() as u64, ..last },
            ),
            ..self
        }
    }

    /// The writer after `e` was put in the block that is being filled.
    pub open spec fn appended(self, e: EntryView) -> WriterView {
        WriterView {
            pending: self.pending.push(e),
            index: if self.pending.len() == 0 {
                self.index.push(
                    IndexView { key: e.key, offset: self.output.len() as u64, size: 0 },
                )
            } else {
                self.index
            },
            entry_count: (self.entry_count + 1) as u64,
            ..self
        }
    }

    /// Whether compressing the block that is being filled may give `r`.
    pub open spec fn may_compress(self, r: std::result::Result<Seq<u8>, ErrorView>) -> bool {
        compresses_to(self.compression, self.level, encode_block(self.pending), r)
    }

    /// Whether putting out the block that is being filled may leave `after`.
    pub open spec fn flushes_to(self, after: WriterView) -> bool {
        if self.pending.len() == 0 {
            after == self
        } else {
            exists|body: Seq<u8>|
                self.may_compress(Ok(body)) && after == #[trigger] self.flushed(body)
        }
    }

    /// Whether putting out the block that is being filled may fail with `e`.
    pub open spec fn flush_fails(self, e: ErrorView) -> bool {
        self.pending.len() > 0 && self.may_compress(Err(e))
    }

    /// Whether adding `e` may leave `after`.
    pub open spec fn adds(self, e: EntryView, after: WriterView) -> bool {
        if self.is_full_for(e) {
            exists|flushed: WriterView|
                self.noted(e.key).flushes_to(flushed) && after == #[trigger] flushed.appended(e)
        } else {
            after == self.noted(e.key).appended(e)
        }
    }

    /// The footer of the table.
    pub open spec fn footer(self) -> Footer {
        Footer {
            entry_count: self.entry_count,
            data_size: self.output.len() as u64,
            index_size: encode_index(self.index).len() as u64,
            bloom_offset: self.output.len() as u64,
            bloom_size: self.bloom.encoded().len() as u64,
            created_at: self.created_at,
            compression: self.compression,
            version: SSTABLE_VERSION,
        }
    }

    /// The bytes of the table: the blocks, the Bloom filter, the index and the footer.
    pub open spec fn image(self) -> Seq<u8> {
        self.output + self.bloom.encoded() + encode_index(self.index) + encode_footer(
            self.footer(),
        )
    }

    /// The figures about the table.
    pub open spec fn meta(self) -> MetaView {
        MetaView {
            entry_count: self.entry_count,
            data_size: self.footer().data_size,
            index_size: self.footer().index_size,
            bloom_offset: self.footer().bloom_offset,
            bloom_size: self.footer().bloom_size,
            min_key: match self.min_key {
                Some(key) => key,
                None => Seq::empty(),
            },
            max_key: match self.max_key {
                Some(key) => key,
                None => Seq::empty(),
            },
            compression: self.compression,
            created_at: self.created_at,
            version: SSTABLE_VERSION,
        }
    }

    /// The block `i` stands where the index says, and holds its entries.
    pub open spec fn block_stored(self, i: int) -> bool {
        let at = self.index[i];
        &&& at.offset + at.size <= self.output.len()
        &&& 4 <= at.size
        &&& self.blocks[i].len() > 0
        &&& at.key == self.blocks[i][0].key
        &&& exists|body: Seq<u8>|
            {
                &&& self.output.subrange(at.offset as int, at.offset + at.size)
                    == #[trigger] frame_of(body)
                &&& compresses_to(
                    self.compression,
                    self.level,
                    encode_block(self.blocks[i]),
                    Ok(body),
                )
            }
    }

    /// The blocks stand one behind the other, where the index says.
    pub open spec fn layout_wf(self) -> bool {
        &&& self.output.len() <= usize::MAX
        &&& self.index.len() == self.blocks.len() + (if self.pending.len() > 0 {
            1nat
        } else {
            0nat
        })
        &&& forall|i: int| 0 <= i < self.blocks.len() ==> #[trigger] self.block_stored(i)
        &&& forall|i: int, j: int|
            0 <= i < j < self.blocks.len() ==> (#[trigger] self.index[i]).offset
                + self.index[i].size <= (#[trigger] self.index[j]).offset
        &&& self.pending.len() > 0 ==> {
            &&& self.index.last().key == self.pending[0].key
            &&& self.index.last().offset == self.output.len()
        }
    }

    /// The keys are in order, the smallest and the largest were noted, and the Bloom filter has all
    /// of them.
    pub open spec fn keys_wf(self) -> bool {
        &&& sorted(self.entries())
        &&& (self.min_key is None <==> self.max_key is None)
        &&& (self.max_key is None <==> self.entries().len() == 0)
        &&& self.entries().len() > 0 ==> self.min_key == Some(self.entries()[0].key)
        &&& self.max_key matches Some(max) ==> forall|i: int|
            0 <= i < self.entries().len() ==> key_at_most(#[trigger] self.entries()[i].key, max)
        &&& self.bloom.wf()
        &&& forall|i: int|
            0 <= i < self.entries().len() ==> self.bloom.may_contain(
                #[trigger] self.entries()[i].key,
            )
    }

    /// What holds of every writer.
    pub open spec fn wf(self) -> bool {
        self.layout_wf() && self.keys_wf()
    }
}

impl View for SSTableWriter {
    type V = WriterView;

    closed spec fn view(&self) -> WriterView {
        WriterView {
            path: self.path,
            output: self.output@,
            blocks: self.blocks@,
            pending: self.pending@,
            index: index_views(self.index@),
            bloom: self.bloom_filter@,
            compression: self.compression,
            level: self.compression_level,
            entry_count: self.entry_count,
            min_key: crate::value_view(self.min_key),
            max_key: crate::value_view(self.max_key),
            created_at: self.created_at,
        }
    }
}

proof fn lemma_encode_entries_push(s: Seq<EntryView>, e: EntryView)
    ensures
        encode_entries(s.push(e)) == encode_entries(s) + encode_entry(e),
{
    assert(s.push(e).drop_last() =~= s);
}

proof fn lemma_joined_push(blocks: Seq<Seq<EntryView>>, block: Seq<EntryView>)
    ensures
        joined(blocks.push(block)) == joined(blocks) + block,
{
    assert(blocks.push(block).drop_last() =~= blocks);
}

/// Entries take bytes.
proof fn lemma_encode_entries_len(s: Seq<EntryView>)
    ensures
        s.len() > 0 ==> encode_entries(s).len() > 0,
        s.len() == 0 ==> encode_entries(s).len() == 0,
{
    if s.len() > 0 {
        lemma_le_bytes_len(s.last().timestamp as nat, 8);
    }
}

/// Putting a block out keeps the layout and the entries.
proof fn lemma_flushed_layout(w: WriterView, body: Seq<u8>)
    requires
        w.layout_wf(),
        w.pending.len() > 0,
        w.may_compress(Ok(body)),
        w.output.len() + frame_of(body).len() <= usize::MAX,
    ensures
        w.flushed(body).layout_wf(),
        w.flushed(body).entries() == w.entries(),
{
    let f = w.flushed(body);
    let n = w.blocks.len() as int;
    lemma_le_bytes_len(crc32(body) as nat, 4);
    lemma_joined_push(w.blocks, w.pending);
    assert(f.entries() =~= w.entries());
    assert(f.index[n] == IndexView { size: frame_of(body).len() as u64, ..w.index[n] });
    assert forall|i: int| 0 <= i < f.blocks.len() implies #[trigger] f.block_stored(i) by {
        if i < n {
            assert(w.block_stored(i));
            assert(f.index[i] == w.index[i]);
            assert(f.blocks[i] == w.blocks[i]);
            let at = w.index[i];
            assert(f.output.subrange(at.offset as int, at.offset + at.size)
                =~= w.output.subrange(at.offset as int, at.offset + at.size));
        } else {
            assert(f.blocks[i] == w.pending);
            let at = f.index[i];
            assert(f.output.subrange(at.offset as int, at.offset + at.size) =~= frame_of(body));
        }
    }
    assert forall|i: int, j: int| 0 <= i < j < f.blocks.len() implies (#[trigger] f.index[i]).offset
        + f.index[i].size <= (#[trigger] f.index[j]).offset by {
        assert(f.index[i] == w.index[i]);
        assert(w.block_stored(i));
        if j < n {
            assert(f.index[j] == w.index[j]);
        }
    }
}

/// Noting a key keeps the layout and the entries; all keys come before it.
proof fn lemma_noted(w: WriterView, key: Seq<u8>)
    requires
        w.wf(),
        w.in_order(key),
    ensures
        w.noted(key).layout_wf(),
        w.noted(key).entries() == w.entries(),
        w.entries().len() > 0 ==> w.noted(key).keys_wf(),
        w.noted(key).bloom.wf(),
        w.noted(key).bloom.may_contain(key),
        forall|i: int|
            0 <= i < w.entries().len() ==> key_less(#[trigger] w.entries()[i].key, key)
                && w.noted(key).bloom.may_contain(w.entries()[i].key),
{
    let m = w.noted(key);
    assert(m.entries() == w.entries());
    crate::bloom::law_added_is_contained(w.bloom, key);
    assert forall|i: int| 0 <= i < m.blocks.len() implies #[trigger] m.block_stored(i) by {
        assert(w.block_stored(i));
    }
    assert forall|i: int| 0 <= i < w.entries().len() implies key_less(
        #[trigger] w.entries()[i].key,
        key,
    ) && m.bloom.may_contain(w.entries()[i].key) by {
        let k = w.entries()[i].key;
        let max = w.max_key->0;
        law_key_less_total(k, max);
        if k != max {
            law_key_less_transitive(k, max, key);
        }
        crate::bloom::law_added_keeps_members(w.bloom, key, k);
    }
    assert forall|i: int| 0 <= i < m.entries().len() implies key_at_most(
        #[trigger] m.entries()[i].key,
        key,
    ) by {
        law_key_less_total(w.entries()[i].key, key);
    }
}

/// Appending an entry whose key was noted keeps what holds of a writer.
proof fn lemma_appended(w: WriterView, base: WriterView, e: EntryView)
    requires
        w.wf(),
        w.in_order(e.key),
        base.layout_wf(),
        base.entries() == w.entries(),
        base.bloom == w.noted(e.key).bloom,
        base.min_key == w.noted(e.key).min_key,
        base.max_key == w.noted(e.key).max_key,
    ensures
        base.appended(e).wf(),
        base.appended(e).entries() == w.entries().push(e),
{
    lemma_noted(w, e.key);
    let a = base.appended(e);
    let n = w.entries().len() as int;
    assert(a.entries() =~= w.entries().push(e));
    assert forall|i: int| 0 <= i < a.blocks.len() implies #[trigger] a.block_stored(i) by {
        assert(base.block_stored(i));
        assert(a.index[i] == base.index[i]);
    }
    assert forall|i: int, j: int| 0 <= i < j < a.blocks.len() implies (#[trigger] a.index[i]).offset
        + a.index[i].size <= (#[trigger] a.index[j]).offset by {
        assert(a.index[i] == base.index[i]);
        assert(a.index[j] == base.index[j]);
    }
    assert forall|i: int, j: int| 0 <= i < j < a.entries().len() implies key_less(
        #[trigger] a.entries()[i].key,
        #[trigger] a.entries()[j].key,
    ) by {
        if j < n {
            assert(key_less(w.entries()[i].key, w.entries()[j].key));
        } else {
            assert(a.entries()[i] == w.entries()[i]);
        }
    }
    assert forall|i: int| 0 <= i < a.entries().len() implies key_at_most(
        #[trigger] a.entries()[i].key,
        e.key,
    ) && a.bloom.may_contain(a.entries()[i].key) by {
        law_key_less_total(a.entries()[i].key, e.key);
        if i < n {
            assert(a.entries()[i] == w.entries()[i]);
        }
    }
}

impl SSTableWriter {
    /// The bytes of the block that is being filled are those of its entries, which were counted.
    pub closed spec fn block_wf(self) -> bool {
        &&& self.current_block@ == encode_entries(self.pending@)
        &&& self.current_block_entries == self.pending@.len()
    }

    pub open spec fn wf(self) -> bool {
        self@.wf() && self.block_wf()
    }

    /// A writer for about `expected_entries` entries, with the present time.
    pub fn new(
        path: PathBuf,
        expected_entries: usize,
        compression: CompressionType,
        compression_level: i32,
        bloom: BloomSizing,
    ) -> (r: Self)
        ensures
            r.wf(),
            exists|now: Timestamp|
                r@ == #[trigger] WriterView::empty(
                    path,
                    crate::bloom::new_bloom(expected_entries as nat, bloom),
                    compression,
                    compression_level,
                    now,
                ),
    {
        let now: Timestamp = current_timestamp();
        Self::new_at(path, expected_entries, compression, compression_level, bloom, now)
    }

    /// A writer that was made at a given time.
    pub fn new_at(
        path: PathBuf,
        expected_entries: usize,
        compression: CompressionType,
        compression_level: i32,
        bloom: BloomSizing,
        created_at: Timestamp,
    ) -> (r: Self)
        ensures
            r.wf(),
            r@ == WriterView::empty(
                path,
                crate::bloom::new_bloom(expected_entries as nat, bloom),
                compression,
                compression_level,
                created_at,
            ),
    {
        let r = Self {
            path,
            output: Vec::new(),
            current_block: Vec::new(),
            current_block_entries: 0,
            index: Vec::new(),
            bloom_filter: BloomFilter::new(expected_entries, bloom),
            compression,
            compression_level,
            entry_count: 0,
            min_key: None,
            max_key: None,
            created_at,
            blocks: Ghost(Seq::empty()),
            pending: Ghost(Seq::empty()),
        };
        proof {
            assert(r.current_block@ =~= Seq::empty());
            assert(r@ =~= WriterView::empty(
                path,
                crate::bloom::new_bloom(expected_entries as nat, bloom),
                compression,
                compression_level,
                created_at,
            ));
            assert(r@.entries() =~= Seq::empty());
        }
        r
    }

    /// Puts the block that is being filled out.
    fn flush_current_block(&mut self) -> (r: Result<()>)
        requires
            old(self)@.layout_wf(),
            old(self).block_wf(),
        ensures
            final(self).block_wf(),
            match r {
                Ok(_) => {
                    &&& old(self)@.flushes_to(final(self)@)
                    &&& final(self)@.layout_wf()
                    &&& final(self)@.entries() == old(self)@.entries()
                    &&& final(self)@.pending.len() == 0
                },
                Err(e) => old(self)@.flush_fails(e@) && final(self)@ == old(self)@,
            },
    {
        proof {
            lemma_encode_entries_len(self.pending@);
        }
        if self.current_block.len() == 0 {
            return Ok(());
        }
        let ghost before = self@;
        let block = write_block(self.current_block_entries, self.current_block.as_slice());
        assert(block@ == encode_block(before.pending));
        let body = compress(self.compression, self.compression_level, block.as_slice())?;
        let start: usize = self.output.len();
        let sum: u32 = checksum(body.as_slice());
        put_le(&mut self.output, sum as u64, 4);
        self.output.extend_from_slice(body.as_slice());
        assert(self.output@ =~= before.output + frame_of(body@));
        let last: usize = self.index.len() - 1;
        let size: u64 = (self.output.len() - start) as u64;
        let ghost old_index = self.index@;
        let entry = &self.index[last];
        let updated = IndexEntry {
            key: crate::copy_bytes(entry.key.as_slice()),
            offset: entry.offset,
            size,
        };
        let ghost view = updated@;
        self.index.set(last, updated);
        self.current_block.clear();
        self.current_block_entries = 0;
        proof {
            assert(index_views(old_index)[last as int] == old_index[last as int]@);
            self.blocks@ = self.blocks@.push(self.pending@);
            self.pending@ = Seq::empty();
            assert(index_views(self.index@) =~= before.index.drop_last().push(view));
            assert(self@ =~= before.flushed(body@));
            lemma_flushed_layout(before, body@);
            assert(self.current_block@ =~= Seq::empty());
        }
        Ok(())
    }

    /// Adds an entry, whose key has to come behind all others.
    pub fn add(&mut self, entry: &Entry) -> (r: Result<()>)
        requires
            old(self).wf(),
            old(self)@.bloom.element_count < usize::MAX,
            old(self)@.entry_count < u64::MAX,
        ensures
            final(self).wf(),
            match r {
                Ok(_) => {
                    &&& old(self)@.in_order(entry@.key)
                    &&& old(self)@.adds(entry@, final(self)@)
                    &&& final(self)@.entries() == old(self)@.entries().push(entry@)
                },
                Err(e) => if old(self)@.in_order(entry@.key) {
                    &&& old(self)@.is_full_for(entry@)
                    &&& old(self)@.noted(entry@.key).flush_fails(e@)
                    &&& final(self)@ == old(self)@.noted(entry@.key)
                } else {
                    e@ == out_of_order() && final(self)@ == old(self)@
                },
            },
    {
        let ghost before = self@;
        let ghost key = entry@.key;
        match &self.max_key {
            Some(max) => {
                if !less(max.as_slice(), entry.key.as_slice()) {
                    return Err(
                        StorageError::invalid_operation("keys must be added in sorted order"),
                    );
                }
            },
            None => {},
        }
        if self.min_key.is_none() {
            self.min_key = Some(crate::copy_bytes(entry.key.as_slice()));
        }
        self.max_key = Some(crate::copy_bytes(entry.key.as_slice()));
        self.bloom_filter.add(entry.key.as_slice());
        assert(self@ =~= before.noted(key));
        proof {
            lemma_noted(before, key);
        }
        let mut serializer = Serializer::new();
        write_entry(&mut serializer, entry);
        let entry_data = serializer.finish();
        assert(entry_data@ =~= encode_entry(entry@));
        if self.current_block_entries > 0 && (entry_data.len() > BLOCK_SIZE
            || self.current_block.len() > BLOCK_SIZE - entry_data.len()) {
            assert(before.is_full_for(entry@));
            assert(before.entries().len() > 0);
            self.flush_current_block()?;
        }
        let ghost base = self@;
        if self.current_block_entries == 0 {
            self.index.push(
                IndexEntry {
                    key: crate::copy_bytes(entry.key.as_slice()),
                    offset: self.output.len() as u64,
                    size: 0,
                },
            );
        }
        self.current_block.extend_from_slice(entry_data.as_slice());
        proof {
            lemma_encode_entries_push(self.pending@, entry@);
            lemma_encode_entries_count(self.pending@.push(entry@));
            self.pending@ = self.pending@.push(entry@);
        }
        let block_len: usize = self.current_block.len();
        self.current_block_entries = self.current_block_entries + 1;
        self.entry_count = self.entry_count + 1;
        proof {
            assert(self@.index =~= base.appended(entry@).index);
            assert(self@ =~= base.appended(entry@));
            assert(self.current_block@ =~= encode_entries(self.pending@));
            assert(self.block_wf());
            lemma_appended(before, base, entry@);
        }
        Ok(())
    }

    /// Puts out what is left, and the Bloom filter, the index and the footer behind it.
    pub fn finish(self) -> (r: Result<SSTableImage>)
        requires
            self.wf(),
        ensures
            match r {
                Ok(image) => exists|w: WriterView|
                    {
                        &&& #[trigger] self@.flushes_to(w)
                        &&& w.wf()
                        &&& w.entries() == self@.entries()
                        &&& w.pending.len() == 0
                        &&& image.bytes@ == w.image()
                        &&& image.meta@ == w.meta()
                        &&& image.path == self@.path
                    },
                Err(e) => self@.flush_fails(e@),
            },
    {
        let mut writer = self;
        writer.flush_current_block()?;
        let ghost w = writer@;
        let SSTableWriter {
            path,
            output,
            current_block: _,
            current_block_entries: _,
            index,
            bloom_filter,
            compression,
            compression_level: _,
            entry_count,
            min_key,
            max_key,
            created_at,
            blocks: _,
            pending: _,
        } = writer;
        let mut bytes: Vec<u8> = output;
        let data_size: u64 = bytes.len() as u64;
        let bloom_data = bloom_filter.to_bytes();
        let index_data = write_index(&index);
        let footer = Footer {
            entry_count,
            data_size,
            index_size: index_data.len() as u64,
            bloom_offset: data_size,
            bloom_size: bloom_data.len() as u64,
            created_at,
            compression,
            version: SSTABLE_VERSION,
        };
        assert(footer == w.footer());
        let footer_data = write_footer(&footer);
        bytes.extend_from_slice(bloom_data.as_slice());
        bytes.extend_from_slice(index_data.as_slice());
        bytes.extend_from_slice(footer_data.as_slice());
        assert(bytes@ =~= w.image());
        let meta = SStableMeta {
            entry_count,
            data_size,
            index_size: footer.index_size,
            bloom_offset: footer.bloom_offset,
            bloom_size: footer.bloom_size,
            min_key: match min_key {
                Some(key) => key,
                None => Vec::new(),
            },
            max_key: match max_key {
                Some(key) => key,
                None => Vec::new(),
            },
            compression,
            created_at,
            version: SSTABLE_VERSION,
        };
        assert(meta@ =~= w.meta());
        Ok(SSTableImage { path, bytes, meta })
    }

    /// The number of bytes that were put out so far.
    pub fn size(&self) -> (r: u64)
        ensures
            r == self@.output.len(),
    {
        self.output.len() as u64
    }

    /// The number of entries so far.
    pub fn entry_count(&self) -> (r: u64)
        ensures
            r == self@.entry_count,
    {
        self.entry_count
    }

    /// The path of the file.
    pub fn path(&self) -> (r: &PathBuf)
        ensures
            *r == self@.path,
    {
        &self.path
    }
}

/// Every entry takes a byte at least.
proof fn lemma_encode_entries_count(s: Seq<EntryView>)
    ensures
        s.len() <= encode_entries(s).len(),
    decreases s.len(),
{
    if s.len() > 0 {
        lemma_encode_entries_count(s.drop_last());
        lemma_le_bytes_len(s.last().timestamp as nat, 8);
    }
}

} // verus!
