//! What holds between a table that was written and the reader that opens it.
use crate::bloom::{bounded_bits, law_bloom_round_trip, law_filled_bloom_is_read_back, new_bloom, BloomSizing};
use crate::codec::{compresses_to, law_compression_round_trip, reads_back};
use crate::config::CompressionType;
use crate::error::ErrorView;
use crate::le::{law_le_round_trip, le_bytes, lemma_byte_ranges, lemma_le_bytes_len};
use crate::order::{key_at_most, key_in_range, key_less, law_key_less_total, law_key_less_transitive};
use crate::sorted::{entries_in, has_key, lemma_table_entry, table};
use crate::sstable::builder::{block_fits, builds, built, keys_of, lemma_built_parts, lemma_flush_parts};
use crate::sstable::format::{all_storable, block_entries, encode_block, encode_entries, encode_entry, encode_footer, encode_index, find_in_block, first_with_key, law_block_round_trip, law_footer_round_trip, law_index_round_trip, law_search_finds_first, lemma_footer_len, storable, take_le, IndexView, FOOTER_SIZE};
use crate::sstable::reader::{bisect, block_for, file_bloom, file_footer, file_index, index_consistent, index_sorted, lemma_block_for_range, lemma_fetch_true, meta_of, opened, ReaderView};
use crate::sstable::writer::{frame_of, joined, SSTableImage, WriterView};
use crate::{EntryView, Timestamp};
use std::path::PathBuf;
use vstd::prelude::*;

verus! {

/// Law: among blocks whose first keys are in order, a key is looked for in the last one that does
/// not begin behind it.
pub proof fn law_block_for_key(index: Seq<IndexView>, key: Seq<u8>)
    requires
        index_sorted(index),
    ensures
        match block_for(index, key) {
            Some(i) => {
                &&& 0 <= i < index.len()
                &&& key_at_most(index[i].key, key)
                &&& forall|j: int| i < j < index.len() ==> key_less(key, #[trigger] index[j].key)
            },
            None => forall|j: int| 0 <= j < index.len() ==> key_less(key, #[trigger] index[j].key),
        },
{
    lemma_bisect(index, key, 0, index.len() as int);
}

proof fn lemma_bisect(index: Seq<IndexView>, key: Seq<u8>, left: int, right: int)
    requires
        index_sorted(index),
        0 <= left <= right <= index.len(),
        forall|i: int| 0 <= i < left ==> key_at_most(#[trigger] index[i].key, key),
        forall|i: int| right <= i < index.len() ==> key_less(key, #[trigger] index[i].key),
    ensures
        left <= bisect(index, key, left, right) <= right,
        forall|i: int|
            0 <= i < bisect(index, key, left, right) ==> key_at_most(#[trigger] index[i].key, key),
        forall|i: int|
            bisect(index, key, left, right) <= i < index.len() ==> key_less(
                key,
                #[trigger] index[i].key,
            ),
    decreases right - left,
{
    if left < right {
        let mid = left + (right - left) / 2;
        if key_less(key, index[mid].key) {
            assert forall|i: int| mid <= i < index.len() implies key_less(
                key,
                #[trigger] index[i].key,
            ) by {
                if mid < i {
                    law_key_less_transitive(key, index[mid].key, index[i].key);
                }
            }
            lemma_bisect(index, key, left, mid);
        } else {
            assert forall|i: int| 0 <= i < mid + 1 implies key_at_most(
                #[trigger] index[i].key,
                key,
            ) by {
                if i < mid && key_less(key, index[i].key) {
                    law_key_less_transitive(key, index[i].key, index[mid].key);
                }
            }
            lemma_bisect(index, key, mid + 1, right);
        }
    }
}

/// Two readers of one file whose caches hold what is stored hand out the same entries.
proof fn lemma_stream_agrees(a: ReaderView, b: ReaderView, i: int)
    requires
        index_consistent(a.index),
        a.cache_true(),
        b.cache_true(),
        a.fresh() == b.fresh(),
        0 <= i,
    ensures
        a.stream(i) == b.stream(i),
    decreases a.index.len() - i,
{
    assert(a.index == b.index);
    if i < a.index.len() {
        assert(a.stored_block(i) == b.stored_block(i));
        lemma_fetch_true(a, i);
        lemma_fetch_true(b, i);
        lemma_stream_agrees(a.after_fetch(i), b.after_fetch(i), i + 1);
    }
}

/// Two readers of one file whose caches hold what is stored find the same entries of a range.
proof fn lemma_range_agrees(a: ReaderView, b: ReaderView, i: int, start: Seq<u8>, end: Seq<u8>)
    requires
        index_consistent(a.index),
        a.cache_true(),
        b.cache_true(),
        a.fresh() == b.fresh(),
        0 <= i,
    ensures
        a.range_in(i, start, end).0 == b.range_in(i, start, end).0,
        a.range_in(i, start, end).1.cache_true(),
        a.range_in(i, start, end).1.fresh() == a.fresh(),
    decreases a.index.len() - i,
{
    assert(a.index == b.index);
    if i < a.index.len() && key_less(a.index[i].key, end) {
        assert(a.stored_block(i) == b.stored_block(i));
        lemma_fetch_true(a, i);
        lemma_fetch_true(b, i);
        lemma_range_agrees(a.after_fetch(i), b.after_fetch(i), i + 1, start, end);
    }
}

/// Law: where blocks at one place have one size, what was read before makes no difference: a
/// search, a range and a walk give what they would give of the file alone, and leave a cache that
/// holds only what is stored.
pub proof fn law_cache_is_transparent(r: ReaderView, key: Seq<u8>, start: Seq<u8>, end: Seq<u8>)
    requires
        index_consistent(r.index),
        r.cache_true(),
    ensures
        r.lookup(key) == r.fresh().lookup(key),
        r.after_lookup(key).cache_true(),
        r.after_lookup(key).fresh() == r.fresh(),
        r.range_of(start, end).0 == r.fresh().range_of(start, end).0,
        r.range_of(start, end).1.cache_true(),
        r.range_of(start, end).1.fresh() == r.fresh(),
        r.stream(0) == r.fresh().stream(0),
{
    let f = r.fresh();
    assert(f.cache_true());
    assert(f.fresh() == r.fresh());
    lemma_block_for_range(r.index, key);
    lemma_block_for_range(r.index, start);
    if let Some(i) = block_for(r.index, key) {
        lemma_fetch_true(r, i);
        lemma_fetch_true(f, i);
        assert(r.stored_block(i) == f.stored_block(i));
    }
    lemma_stream_agrees(r, f, 0);
    lemma_range_agrees(r, f, r.first_block(start), start, end);
}

/// Entries of two sequences in a range are those of each.
pub proof fn lemma_entries_in_concat(a: Seq<EntryView>, b: Seq<EntryView>, start: Seq<u8>, end: Seq<u8>)
    ensures
        entries_in(a + b, start, end) == entries_in(a, start, end) + entries_in(b, start, end),
    decreases b.len(),
{
    if b.len() == 0 {
        assert(a + b =~= a);
        assert(entries_in(a, start, end) + Seq::<EntryView>::empty() =~= entries_in(
            a,
            start,
            end,
        ));
    } else {
        lemma_entries_in_concat(a, b.drop_last(), start, end);
        assert((a + b).drop_last() =~= a + b.drop_last());
        let x = entries_in(a, start, end);
        let y = entries_in(b.drop_last(), start, end);
        assert((x + y).push(b.last()) =~= x + y.push(b.last()));
    }
}

/// Where no key lies in the range there are no entries in it.
proof fn lemma_entries_in_none(s: Seq<EntryView>, start: Seq<u8>, end: Seq<u8>)
    requires
        forall|i: int| 0 <= i < s.len() ==> !key_in_range(#[trigger] s[i].key, start, end),
    ensures
        entries_in(s, start, end) == Seq::<EntryView>::empty(),
    decreases s.len(),
{
    if s.len() > 0 {
        assert(!key_in_range(s[s.len() - 1].key, start, end));
        assert forall|i: int| 0 <= i < s.drop_last().len() implies !key_in_range(
            #[trigger] s.drop_last()[i].key,
            start,
            end,
        ) by {
            assert(!key_in_range(s[i].key, start, end));
        }
        lemma_entries_in_none(s.drop_last(), start, end);
    }
}

/// An entry of a block has a place among all entries.
pub proof fn lemma_joined_at(blocks: Seq<Seq<EntryView>>, i: int, j: int)
    requires
        0 <= i < blocks.len(),
        0 <= j < blocks[i].len(),
    ensures
        joined(blocks.take(i)).len() + j < joined(blocks).len(),
        joined(blocks)[joined(blocks.take(i)).len() + j] == blocks[i][j],
        joined(blocks.take(i)).len() + blocks[i].len() <= joined(blocks).len(),
    decreases blocks.len(),
{
    let n = blocks.len() - 1;
    if i == n {
        assert(blocks.take(i) =~= blocks.drop_last());
    } else {
        lemma_joined_at(blocks.drop_last(), i, j);
        assert(blocks.drop_last().take(i) =~= blocks.take(i));
    }
}

/// Every entry stands in a block.
pub proof fn lemma_joined_find(blocks: Seq<Seq<EntryView>>, k: int) -> (r: (int, int))
    requires
        0 <= k < joined(blocks).len(),
    ensures
        0 <= r.0 < blocks.len(),
        0 <= r.1 < blocks[r.0].len(),
        blocks[r.0][r.1] == joined(blocks)[k],
    decreases blocks.len(),
{
    let before = joined(blocks.drop_last()).len() as int;
    if k >= before {
        (blocks.len() - 1, k - before)
    } else {
        lemma_joined_find(blocks.drop_last(), k)
    }
}

/// The places of the blocks grow.
pub proof fn lemma_joined_grows(blocks: Seq<Seq<EntryView>>, i: int, j: int)
    requires
        0 <= i < j <= blocks.len(),
    ensures
        joined(blocks.take(i)).len() + blocks[i].len() <= joined(blocks.take(j)).len(),
    decreases j,
{
    assert(blocks.take(j).drop_last() =~= blocks.take(j - 1));
    assert(blocks.take(j).last() == blocks[j - 1]);
    if i < j - 1 {
        lemma_joined_grows(blocks, i, j - 1);
    }
}

pub proof fn lemma_joined_front(blocks: Seq<Seq<EntryView>>)
    requires
        blocks.len() > 0,
    ensures
        joined(blocks) == blocks[0] + joined(blocks.drop_first()),
    decreases blocks.len(),
{
    let rest = blocks.drop_first();
    if blocks.len() == 1 {
        assert(blocks.drop_last() =~= Seq::empty());
        assert(rest =~= Seq::empty());
        assert(joined(blocks) =~= blocks[0] + joined(rest));
    } else {
        lemma_joined_front(blocks.drop_last());
        assert(blocks.drop_last().drop_first() =~= rest.drop_last());
        assert(joined(blocks) =~= blocks[0] + joined(rest));
    }
}

impl WriterView {
    /// Whether a table can be opened again once it was written: its Bloom filter is compact, and
    /// what it holds fits where it is written.
    pub open spec fn can_open(self) -> bool {
        &&& self.wf()
        &&& self.pending.len() == 0
        &&& self.bloom.is_compact()
        &&& self.image().len() <= usize::MAX
        &&& self.index.len() <= u32::MAX
        &&& forall|i: int| 0 <= i < self.index.len() ==> (#[trigger] self.index[i]).key.len()
            <= u32::MAX
    }

    /// Whether the blocks of a table can be read again once they were written.
    pub open spec fn can_read(self) -> bool {
        forall|i: int|
            0 <= i < self.blocks.len() ==> {
                &&& all_storable(#[trigger] self.blocks[i])
                &&& self.blocks[i].len() <= u32::MAX
                &&& reads_back(self.compression, encode_block(self.blocks[i]).len())
            }
    }

    /// The reader that opens the table.
    pub open spec fn reader(self, path: PathBuf, mapped: bool) -> ReaderView {
        ReaderView {
            path,
            data: self.image(),
            mapped,
            meta: meta_of(self.footer(), self.index),
            index: self.index,
            bloom: Some(self.bloom),
            cache: Map::empty(),
        }.with_last_key()
    }
}

/// Law: a table that was written is opened again, with the index and the Bloom filter that it was
/// written with.
pub proof fn law_written_table_opens(w: WriterView, path: PathBuf, mapped: bool)
    requires
        w.can_open(),
    ensures
        opened(path, w.image(), mapped) == Ok::<ReaderView, ErrorView>(w.reader(path, mapped)),
{
    let image = w.image();
    let f = w.footer();
    let bloom = w.bloom.encoded();
    let index = encode_index(w.index);
    let a = w.output.len() as int;
    let b = a + bloom.len();
    let c = b + index.len();
    lemma_footer_len(f);
    assert(image.len() == c + FOOTER_SIZE);
    assert(image.skip(image.len() - FOOTER_SIZE) =~= encode_footer(f));
    law_footer_round_trip(f);
    assert(file_footer(image) == Ok::<crate::sstable::format::Footer, ErrorView>(f));
    lemma_le_bytes_len(w.index.len(), 4);
    lemma_le_bytes_len(w.bloom.bit_count, 4);
    lemma_le_bytes_len(w.bloom.hash_count, 4);
    lemma_le_bytes_len(w.bloom.element_count, 4);
    assert(f.bloom_offset == a && f.bloom_size == b - a && f.index_size == c - b);
    assert(image.subrange(b, c) =~= index);
    law_index_round_trip(w.index);
    assert(file_index(image, mapped, f) == Ok::<Seq<IndexView>, ErrorView>(w.index));
    assert(image.subrange(a, b) =~= bloom);
    law_bloom_round_trip(w.bloom);
    assert(file_bloom(image, mapped, f) == Ok::<
        Option<crate::bloom::BloomView>,
        ErrorView,
    >(Some(w.bloom)));
}

/// A stored block is read back.
proof fn lemma_stored_block(w: WriterView, path: PathBuf, mapped: bool, i: int)
    requires
        w.can_open(),
        w.can_read(),
        0 <= i < w.blocks.len(),
    ensures
        w.reader(path, mapped).stored_block(i) == Ok::<Seq<u8>, ErrorView>(
            encode_block(w.blocks[i]),
        ),
        block_entries(encode_block(w.blocks[i])) == Some(w.blocks[i]),
{
    let r = w.reader(path, mapped);
    let at = w.index[i];
    assert(w.block_stored(i));
    let body = choose|body: Seq<u8>|
        {
            &&& w.output.subrange(at.offset as int, at.offset + at.size) == #[trigger] frame_of(
                body,
            )
            &&& compresses_to(w.compression, w.level, encode_block(w.blocks[i]), Ok(body))
        };
    let frame = frame_of(body);
    assert(w.image().len() >= w.output.len());
    assert(w.image().subrange(at.offset as int, at.offset + at.size) =~= w.output.subrange(
        at.offset as int,
        at.offset + at.size,
    ));
    lemma_byte_ranges();
    law_le_round_trip(crate::codec::crc32(body) as nat, 4);
    assert(frame.take(4) =~= le_bytes(crate::codec::crc32(body) as nat, 4));
    assert(frame.skip(4) =~= body);
    assert(all_storable(w.blocks[i]));
    law_compression_round_trip(w.compression, w.level, encode_block(w.blocks[i]), body);
    law_block_round_trip(w.blocks[i]);
}

/// The index of a table that was written is in order, and no two blocks stand at one place.
proof fn lemma_written_index(w: WriterView)
    requires
        w.can_open(),
    ensures
        index_sorted(w.index),
        index_consistent(w.index),
        w.index.len() == w.blocks.len(),
        w.entries() == joined(w.blocks),
        forall|i: int, j: int|
            0 <= i < w.blocks.len() && 0 <= j < w.blocks[i].len() ==> key_at_most(
                w.index[i].key,
                #[trigger] w.blocks[i][j].key,
            ),
        forall|i: int, j: int, k: int|
            0 <= i < k < w.blocks.len() && 0 <= j < w.blocks[i].len() ==> key_less(
                #[trigger] w.blocks[i][j].key,
                #[trigger] w.index[k].key,
            ),
{
    assert(w.entries() =~= joined(w.blocks));
    let s = w.entries();
    assert forall|i: int, j: int, k: int|
        0 <= i < k < w.blocks.len() && 0 <= j < w.blocks[i].len() implies key_less(
        #[trigger] w.blocks[i][j].key,
        #[trigger] w.index[k].key,
    ) by {
        assert(w.block_stored(k));
        lemma_joined_at(w.blocks, i, j);
        lemma_joined_at(w.blocks, k, 0);
        lemma_joined_grows(w.blocks, i, k);
        let p = joined(w.blocks.take(i)).len() + j;
        let q = joined(w.blocks.take(k)).len() as int;
        assert(key_less(s[p].key, s[q].key));
    }
    assert forall|i: int, j: int|
        0 <= i < w.blocks.len() && 0 <= j < w.blocks[i].len() implies key_at_most(
        w.index[i].key,
        #[trigger] w.blocks[i][j].key,
    ) by {
        assert(w.block_stored(i));
        lemma_joined_at(w.blocks, i, 0);
        lemma_joined_at(w.blocks, i, j);
        let p = joined(w.blocks.take(i)).len() as int;
        if j > 0 {
            assert(key_less(s[p].key, s[p + j].key));
        }
        law_key_less_total(w.blocks[i][0].key, w.blocks[i][j].key);
    }
    assert forall|i: int, j: int| 0 <= i < j < w.index.len() implies key_less(
        #[trigger] w.index[i].key,
        #[trigger] w.index[j].key,
    ) by {
        assert(w.block_stored(i));
        assert(key_less(w.blocks[i][0].key, w.index[j].key));
    }
    assert forall|i: int, j: int|
        0 <= i < w.index.len() && 0 <= j < w.index.len() && (#[trigger] w.index[i]).offset == (
        #[trigger] w.index[j]).offset implies w.index[i].size == w.index[j].size by {
        assert(w.block_stored(i));
        assert(w.block_stored(j));
    }
}

/// No two blocks of a table that was written stand at one place.
proof fn lemma_written_places(w: WriterView)
    requires
        w.can_open(),
    ensures
        index_consistent(w.index),
        w.index.len() == w.blocks.len(),
        w.entries() == joined(w.blocks),
{
    lemma_written_index(w);
}

/// Law: a table that was written gives back every entry: a search for a key finds the entry that
/// was added for it, and finds none for any other key.
pub proof fn law_written_entry_is_found(w: WriterView, path: PathBuf, mapped: bool, key: Seq<u8>)
    requires
        w.can_open(),
        w.can_read(),
    ensures
        w.reader(path, mapped).lookup(key) == Ok::<Option<EntryView>, ErrorView>(
            if table(w.entries()).contains_key(key) {
                Some(table(w.entries())[key])
            } else {
                None
            },
        ),
{
    let s = w.entries();
    if has_key(s, key) {
        let p = choose|p: int| 0 <= p < s.len() && #[trigger] s[p].key == key;
        lemma_present_is_found(w, path, mapped, p);
    } else {
        lemma_absent_is_not_found(w, path, mapped, key);
    }
}

/// A search for the key of an entry finds the entry.
proof fn lemma_present_is_found(w: WriterView, path: PathBuf, mapped: bool, p: int)
    requires
        w.can_open(),
        w.can_read(),
        0 <= p < w.entries().len(),
    ensures
        table(w.entries()).contains_key(w.entries()[p].key),
        w.reader(path, mapped).lookup(w.entries()[p].key) == Ok::<Option<EntryView>, ErrorView>(
            Some(table(w.entries())[w.entries()[p].key]),
        ),
{
    let s = w.entries();
    let key = s[p].key;
    lemma_table_entry(s, p);
    assert(w.bloom.may_contain(s[p].key));
    let (at, j) = lemma_block_of_entry(w, p);
    lemma_stored_block(w, path, mapped, at);
    lemma_search_block(w.blocks[at], key);
    let found = find_in_block(encode_block(w.blocks[at]), key);
    assert(w.blocks[at][j].key == key);
    let e = found->0->0;
    let q = choose|q: int| first_with_key(w.blocks[at], q, key) && #[trigger] w.blocks[at][q] == e;
    lemma_joined_at(w.blocks, at, q);
    lemma_table_entry(s, joined(w.blocks.take(at)).len() + q);
}

/// The block in which the key of an entry is looked for holds the entry.
proof fn lemma_block_of_entry(w: WriterView, p: int) -> (r: (int, int))
    requires
        w.can_open(),
        0 <= p < w.entries().len(),
    ensures
        block_for(w.index, w.entries()[p].key) == Some(r.0),
        0 <= r.0 < w.blocks.len(),
        0 <= r.1 < w.blocks[r.0].len(),
        w.blocks[r.0][r.1] == w.entries()[p],
        w.entries() == joined(w.blocks),
{
    let key = w.entries()[p].key;
    lemma_written_index(w);
    law_block_for_key(w.index, key);
    let (i, j) = lemma_joined_find(w.blocks, p);
    assert(key_at_most(w.index[i].key, w.blocks[i][j].key));
    match block_for(w.index, key) {
        None => {
            assert(key_less(key, w.index[i].key));
        },
        Some(at) => {
            if at < i {
                assert(key_less(key, w.index[i].key));
            }
            if i < at {
                assert(key_less(w.blocks[i][j].key, w.index[at].key));
            }
        },
    }
    (i, j)
}

/// A search for a key that no entry has finds none.
proof fn lemma_absent_is_not_found(w: WriterView, path: PathBuf, mapped: bool, key: Seq<u8>)
    requires
        w.can_open(),
        w.can_read(),
        !has_key(w.entries(), key),
    ensures
        w.reader(path, mapped).lookup(key) == Ok::<Option<EntryView>, ErrorView>(None),
{
    let r = w.reader(path, mapped);
    let s = w.entries();
    lemma_written_places(w);
    lemma_block_for_range(w.index, key);
    if r.may_contain(key) {
        if let Some(at) = block_for(w.index, key) {
            lemma_stored_block(w, path, mapped, at);
            lemma_search_block(w.blocks[at], key);
            let found = find_in_block(encode_block(w.blocks[at]), key);
            if let Some(Some(e)) = found {
                let q = choose|q: int|
                    first_with_key(w.blocks[at], q, key) && #[trigger] w.blocks[at][q] == e;
                lemma_joined_at(w.blocks, at, q);
                assert(s[joined(w.blocks.take(at)).len() + q].key == key);
            }
        }
    }
}

/// A search in a block that was written finds the first entry of the key.
proof fn lemma_search_block(s: Seq<EntryView>, key: Seq<u8>)
    requires
        block_entries(encode_block(s)) == Some(s),
    ensures
        match find_in_block(encode_block(s), key) {
            Some(Some(e)) => exists|i: int| first_with_key(s, i, key) && #[trigger] s[i] == e,
            Some(None) => !has_key(s, key),
            None => false,
        },
{
    let data = encode_block(s);
    let (count, rest) = take_le(data, 4)->0;
    law_search_finds_first(rest, count, key, s);
}

/// Whether the file of a reader holds exactly these blocks, and what was read of it is what is
/// stored.
pub open spec fn serves(r: ReaderView, blocks: Seq<Seq<EntryView>>) -> bool {
    &&& index_consistent(r.index)
    &&& r.cache_true()
    &&& r.index.len() == blocks.len()
    &&& forall|i: int| 0 <= i < blocks.len() ==> #[trigger] serves_block(r, blocks, i)
}

/// Whether the block `i` of the file has the entries of `blocks[i]`.
pub open spec fn serves_block(r: ReaderView, blocks: Seq<Seq<EntryView>>, i: int) -> bool {
    r.stored_block(i) matches Ok(b) && block_entries(b) == Some(blocks[i])
}

/// Reading a block keeps what the file holds.
proof fn lemma_serves_fetch(r: ReaderView, blocks: Seq<Seq<EntryView>>, i: int)
    requires
        serves(r, blocks),
        0 <= i < blocks.len(),
    ensures
        serves(r.after_fetch(i), blocks),
        r.fetch(i) matches Ok(b) && block_entries(b) == Some(blocks[i]),
        r.after_fetch(i).index == r.index,
{
    lemma_fetch_true(r, i);
    assert(serves_block(r, blocks, i));
    let a = r.after_fetch(i);
    assert(a.index == r.fresh().index && a.data == r.fresh().data && a.mapped == r.fresh().mapped
        && a.meta == r.fresh().meta);
    assert forall|j: int| 0 <= j < blocks.len() implies #[trigger] serves_block(a, blocks, j) by {
        assert(serves_block(r, blocks, j));
        assert(a.stored_block(j) == r.stored_block(j));
    }
}

/// The reader of a table that was written holds its blocks.
proof fn lemma_written_serves(w: WriterView, path: PathBuf, mapped: bool)
    requires
        w.can_open(),
        w.can_read(),
    ensures
        serves(w.reader(path, mapped), w.blocks),
{
    let r = w.reader(path, mapped);
    lemma_written_places(w);
    assert forall|i: int| 0 <= i < w.blocks.len() implies #[trigger] serves_block(
        r,
        w.blocks,
        i,
    ) by {
        lemma_stored_block(w, path, mapped, i);
    }
}

/// Law: a walk over a table that was written hands out all entries in their order, and ends without
/// an error.
pub proof fn law_written_entries_are_walked(w: WriterView, path: PathBuf, mapped: bool)
    requires
        w.can_open(),
        w.can_read(),
    ensures
        w.reader(path, mapped).stream(0) == (w.entries(), None::<ErrorView>),
{
    lemma_written_places(w);
    lemma_written_serves(w, path, mapped);
    lemma_stream_of_blocks(w.reader(path, mapped), w.blocks, 0);
    assert(w.blocks.skip(0) =~= w.blocks);
}

proof fn lemma_stream_of_blocks(r: ReaderView, blocks: Seq<Seq<EntryView>>, i: int)
    requires
        serves(r, blocks),
        0 <= i <= blocks.len(),
    ensures
        r.stream(i) == (joined(blocks.skip(i)), None::<ErrorView>),
    decreases blocks.len() - i,
{
    if i < blocks.len() {
        lemma_serves_fetch(r, blocks, i);
        lemma_stream_of_blocks(r.after_fetch(i), blocks, i + 1);
        lemma_joined_front(blocks.skip(i));
        assert(blocks.skip(i).drop_first() =~= blocks.skip(i + 1));
    } else {
        assert(blocks.skip(i) =~= Seq::empty());
    }
}

/// Law: a range of a table that was written gives exactly the entries of the range, in their order.
pub proof fn law_written_range_is_found(
    w: WriterView,
    path: PathBuf,
    mapped: bool,
    start: Seq<u8>,
    end: Seq<u8>,
)
    requires
        w.can_open(),
        w.can_read(),
    ensures
        w.reader(path, mapped).range_of(start, end).0 == Ok::<Seq<EntryView>, ErrorView>(
            entries_in(w.entries(), start, end),
        ),
{
    let r = w.reader(path, mapped);
    lemma_written_places(w);
    lemma_before_first_block(w, path, mapped, start, end);
    lemma_written_serves(w, path, mapped);
    lemma_starts_behind(w, end);
    assert(ends_at(w.reader(path, mapped), w.blocks, end));
    lemma_range_from(r, w.blocks, r.first_block(start), start, end);
}

/// Where the blocks before `first` hold no entries of a range, those from there on hold all of them.
proof fn lemma_range_from(
    r: ReaderView,
    blocks: Seq<Seq<EntryView>>,
    first: int,
    start: Seq<u8>,
    end: Seq<u8>,
)
    requires
        serves(r, blocks),
        ends_at(r, blocks, end),
        0 <= first <= blocks.len(),
        forall|i: int|
            0 <= i < first ==> entries_in(#[trigger] blocks[i], start, end) == Seq::<
                EntryView,
            >::empty(),
    ensures
        r.range_in(first, start, end).0 == Ok::<Seq<EntryView>, ErrorView>(
            entries_in(joined(blocks), start, end),
        ),
{
    lemma_range_of_blocks(r, blocks, first, start, end);
    let head = blocks.take(first);
    let tail = blocks.skip(first);
    assert(head + tail =~= blocks);
    assert forall|i: int| 0 <= i < head.len() implies entries_in(#[trigger] head[i], start, end)
        == Seq::<EntryView>::empty() by {
        assert(head[i] == blocks[i]);
    }
    lemma_joined_empty(head, start, end);
    lemma_joined_concat(head, tail);
    lemma_entries_in_concat(joined(head), joined(tail), start, end);
    let m = entries_in(joined(tail), start, end);
    assert(Seq::<EntryView>::empty() + m =~= m);
}

/// Blocks before the one in which a search for a range begins hold nothing of the range.
proof fn lemma_before_first_block(
    w: WriterView,
    path: PathBuf,
    mapped: bool,
    start: Seq<u8>,
    end: Seq<u8>,
)
    requires
        w.can_open(),
    ensures
        ({
            let first = w.reader(path, mapped).first_block(start);
            &&& 0 <= first
            &&& first <= w.blocks.len()
            &&& forall|i: int|
                0 <= i < first ==> entries_in(#[trigger] w.blocks[i], start, end) == Seq::<
                    EntryView,
                >::empty()
        }),
{
    let first = w.reader(path, mapped).first_block(start);
    lemma_written_index(w);
    law_block_for_key(w.index, start);
    assert forall|i: int| 0 <= i < first implies entries_in(#[trigger] w.blocks[i], start, end)
        == Seq::<EntryView>::empty() by {
        assert forall|j: int| 0 <= j < w.blocks[i].len() implies !key_in_range(
            #[trigger] w.blocks[i][j].key,
            start,
            end,
        ) by {
            assert(key_less(w.blocks[i][j].key, w.index[first].key));
            law_key_less_total(w.index[first].key, start);
            if w.index[first].key != start {
                law_key_less_transitive(w.blocks[i][j].key, w.index[first].key, start);
            }
        }
        lemma_entries_in_none(w.blocks[i], start, end);
    }
}

proof fn lemma_joined_concat(a: Seq<Seq<EntryView>>, b: Seq<Seq<EntryView>>)
    ensures
        joined(a + b) == joined(a) + joined(b),
    decreases b.len(),
{
    if b.len() == 0 {
        assert(a + b =~= a);
        assert(joined(a) + joined(b) =~= joined(a));
    } else {
        lemma_joined_concat(a, b.drop_last());
        assert((a + b).drop_last() =~= a + b.drop_last());
        assert(joined(a + b) =~= joined(a) + joined(b));
    }
}

/// Blocks without entries in a range have none together.
proof fn lemma_joined_empty(blocks: Seq<Seq<EntryView>>, start: Seq<u8>, end: Seq<u8>)
    requires
        forall|i: int|
            0 <= i < blocks.len() ==> entries_in(#[trigger] blocks[i], start, end) == Seq::<
                EntryView,
            >::empty(),
    ensures
        entries_in(joined(blocks), start, end) == Seq::<EntryView>::empty(),
    decreases blocks.len(),
{
    if blocks.len() > 0 {
        let t = blocks.drop_last();
        assert forall|i: int| 0 <= i < t.len() implies entries_in(#[trigger] t[i], start, end)
            == Seq::<EntryView>::empty() by {
            assert(t[i] == blocks[i]);
        }
        lemma_joined_empty(t, start, end);
        assert(entries_in(blocks[blocks.len() - 1], start, end) == Seq::<EntryView>::empty());
        lemma_entries_in_concat(joined(t), blocks.last(), start, end);
        assert(Seq::<EntryView>::empty() + Seq::<EntryView>::empty() =~= Seq::<
            EntryView,
        >::empty());
    }
}

/// Whether a block that begins at `end` or behind it, and all blocks behind it, hold no key before
/// `end`.
pub open spec fn ends_at(r: ReaderView, blocks: Seq<Seq<EntryView>>, end: Seq<u8>) -> bool {
    forall|i: int, k: int, j: int|
        0 <= i <= k < blocks.len() && 0 <= j < blocks[k].len() && !key_less(
            #[trigger] r.index[i].key,
            end,
        ) ==> !key_less(#[trigger] blocks[k][j].key, end)
}

proof fn lemma_starts_behind(w: WriterView, end: Seq<u8>)
    requires
        w.can_open(),
    ensures
        forall|path: PathBuf, mapped: bool|
            ends_at(#[trigger] w.reader(path, mapped), w.blocks, end),
{
    lemma_written_index(w);
    assert forall|path: PathBuf, mapped: bool| ends_at(
        #[trigger] w.reader(path, mapped),
        w.blocks,
        end,
    ) by {
        assert forall|i: int, k: int, j: int|
            0 <= i <= k < w.blocks.len() && 0 <= j < w.blocks[k].len() && !key_less(
                #[trigger] w.index[i].key,
                end,
            ) implies !key_less(#[trigger] w.blocks[k][j].key, end) by {
            let first = w.index[i].key;
            let begin = w.index[k].key;
            let key = w.blocks[k][j].key;
            assert(key_at_most(begin, key));
            law_key_less_total(begin, key);
            if key_less(key, end) {
                if begin != key {
                    law_key_less_transitive(begin, key, end);
                }
                if i < k {
                    law_key_less_transitive(first, begin, end);
                }
            }
        }
    }
}

proof fn lemma_range_of_blocks(
    r: ReaderView,
    blocks: Seq<Seq<EntryView>>,
    i: int,
    start: Seq<u8>,
    end: Seq<u8>,
)
    requires
        serves(r, blocks),
        ends_at(r, blocks, end),
        0 <= i <= blocks.len(),
    ensures
        r.range_in(i, start, end).0 == Ok::<Seq<EntryView>, ErrorView>(
            entries_in(joined(blocks.skip(i)), start, end),
        ),
    decreases blocks.len() - i,
{
    let some = blocks.skip(i);
    if i == blocks.len() {
        assert(some =~= Seq::empty());
    } else if key_less(r.index[i].key, end) {
        lemma_serves_fetch(r, blocks, i);
        lemma_range_of_blocks(r.after_fetch(i), blocks, i + 1, start, end);
        lemma_joined_front(some);
        assert(some.drop_first() =~= blocks.skip(i + 1));
        lemma_entries_in_concat(some[0], joined(some.drop_first()), start, end);
    } else {
        assert forall|k: int| 0 <= k < some.len() implies entries_in(
            #[trigger] some[k],
            start,
            end,
        ) == Seq::<EntryView>::empty() by {
            let b = some[k];
            assert(b == blocks[i + k]);
            assert forall|j: int| 0 <= j < b.len() implies !key_in_range(
                #[trigger] b[j].key,
                start,
                end,
            ) by {
                assert(!key_less(blocks[i + k][j].key, end));
            }
            lemma_entries_in_none(b, start, end);
        }
        lemma_joined_empty(some, start, end);
    }
}

/// What `m` holds for `key`.
pub open spec fn held(m: Map<Seq<u8>, EntryView>, key: Seq<u8>) -> Option<EntryView> {
    if m.contains_key(key) {
        Some(m[key])
    } else {
        None
    }
}

/// Whether a reader gives exactly the entries of `s`: one by one, in ranges and in a walk.
pub open spec fn gives(r: ReaderView, s: Seq<EntryView>) -> bool {
    &&& index_consistent(r.index)
    &&& r.cache_true()
    &&& forall|key: Seq<u8>| #[trigger]
        r.lookup(key) == Ok::<Option<EntryView>, ErrorView>(held(table(s), key))
    &&& forall|start: Seq<u8>, end: Seq<u8>| #[trigger]
        r.range_of(start, end).0 == Ok::<Seq<EntryView>, ErrorView>(entries_in(s, start, end))
    &&& r.stream(0) == (s, None::<ErrorView>)
}

/// Whether a reader names the first and the last key of `s` among its figures.
pub open spec fn spans(r: ReaderView, s: Seq<EntryView>) -> bool {
    s.len() > 0 ==> r.meta.min_key == s[0].key && r.meta.max_key == s.last().key
}

/// Whether an entry is read back from a table: its lengths fit where they are written, and a block
/// of it alone is read back after it was compressed.
pub open spec fn readable(compression: CompressionType, e: EntryView) -> bool {
    storable(e) && reads_back(compression, 4 + encode_entry(e).len())
}

/// Law: a table that is written in one go can be opened, gives back exactly its entries, and names
/// the first and the last of their keys.
///
/// The numbers of its entries and of the bits of its Bloom filter have to fit in four bytes.
pub proof fn law_built_table_gives_entries(
    path: PathBuf,
    expected_entries: nat,
    bloom: BloomSizing,
    compression: CompressionType,
    level: i32,
    created_at: Timestamp,
    s: Seq<EntryView>,
    image: SSTableImage,
    mapped: bool,
)
    requires
        builds(
            WriterView::empty(
                path,
                new_bloom(expected_entries, bloom),
                compression,
                level,
                created_at,
            ),
            s,
            image,
        ),
        bounded_bits(bloom.bits as nat) <= u32::MAX,
        s.len() <= u32::MAX,
        forall|i: int| 0 <= i < s.len() ==> readable(compression, #[trigger] s[i]),
    ensures
        opened(image.path, image.bytes@, mapped) matches Ok(r) && gives(r, s) && spans(r, s),
{
    let start = WriterView::empty(
        path,
        new_bloom(expected_entries, bloom),
        compression,
        level,
        created_at,
    );
    let (full, w) = choose|full: WriterView, w: WriterView|
        {
            &&& #[trigger] built(start, s, full)
            &&& #[trigger] full.flushes_to(w)
            &&& w.wf()
            &&& w.entries() == s
            &&& w.pending.len() == 0
            &&& image.bytes@ == w.image()
            &&& image.meta@ == w.meta()
            &&& image.path == start.path
        };
    lemma_built_parts(start, s, full);
    lemma_flush_parts(full, w);
    law_filled_bloom_is_read_back(expected_entries, bloom, keys_of(s));
    assert(w.entries() =~= joined(w.blocks));
    assert(image.bytes@.len() == image.bytes.len());
    lemma_blocks_are_readable(w);
    law_written_table_opens(w, path, mapped);
    lemma_written_gives(w, path, mapped);
    lemma_written_spans(w, path, mapped);
}

/// The blocks of a table whose entries are readable can be read.
proof fn lemma_blocks_are_readable(w: WriterView)
    requires
        w.wf(),
        w.pending.len() == 0,
        w.entries().len() <= u32::MAX,
        forall|i: int| 0 <= i < w.blocks.len() ==> block_fits(#[trigger] w.blocks[i]),
        forall|i: int|
            0 <= i < w.entries().len() ==> readable(w.compression, #[trigger] w.entries()[i]),
    ensures
        w.can_read(),
        w.index.len() <= u32::MAX,
        forall|i: int| 0 <= i < w.index.len() ==> (#[trigger] w.index[i]).key.len() <= u32::MAX,
{
    assert(w.entries() =~= joined(w.blocks));
    assert forall|i: int| 0 <= i < w.blocks.len() implies {
        &&& all_storable(#[trigger] w.blocks[i])
        &&& w.blocks[i].len() <= u32::MAX
        &&& reads_back(w.compression, encode_block(w.blocks[i]).len())
    } by {
        let b = w.blocks[i];
        assert(w.block_stored(i));
        assert forall|j: int| 0 <= j < b.len() implies readable(
            w.compression,
            #[trigger] b[j],
        ) by {
            lemma_joined_at(w.blocks, i, j);
        }
        lemma_joined_at(w.blocks, i, 0);
        lemma_le_bytes_len(b.len(), 4);
        if b.len() == 1 {
            reveal_with_fuel(encode_entries, 2);
            assert(b.drop_last() =~= Seq::empty());
            assert(encode_entries(b) =~= encode_entry(b[0]));
        }
    }
    assert forall|i: int| 0 <= i < w.index.len() implies (#[trigger] w.index[i]).key.len()
        <= u32::MAX by {
        assert(w.block_stored(i));
        assert(all_storable(w.blocks[i]));
        assert(storable(w.blocks[i][0]));
    }
    assert forall|i: int| 0 <= i < w.blocks.len() implies (#[trigger] w.blocks[i]).len() > 0 by {
        assert(w.block_stored(i));
    }
    lemma_joined_len(w.blocks);
}

/// There are no more blocks than entries where none is empty.
proof fn lemma_joined_len(blocks: Seq<Seq<EntryView>>)
    requires
        forall|i: int| 0 <= i < blocks.len() ==> (#[trigger] blocks[i]).len() > 0,
    ensures
        blocks.len() <= joined(blocks).len(),
    decreases blocks.len(),
{
    if blocks.len() > 0 {
        lemma_joined_len(blocks.drop_last());
        assert(blocks[blocks.len() - 1].len() > 0);
    }
}

/// The reader of a table that was written gives exactly its entries.
proof fn lemma_written_gives(w: WriterView, path: PathBuf, mapped: bool)
    requires
        w.can_open(),
        w.can_read(),
    ensures
        gives(w.reader(path, mapped), w.entries()),
{
    let r = w.reader(path, mapped);
    lemma_written_places(w);
    law_written_entries_are_walked(w, path, mapped);
    assert forall|key: Seq<u8>| #[trigger]
        r.lookup(key) == Ok::<Option<EntryView>, ErrorView>(held(table(w.entries()), key)) by {
        law_written_entry_is_found(w, path, mapped, key);
    }
    assert forall|start: Seq<u8>, end: Seq<u8>| #[trigger]
        r.range_of(start, end).0 == Ok::<Seq<EntryView>, ErrorView>(
            entries_in(w.entries(), start, end),
        ) by {
        law_written_range_is_found(w, path, mapped, start, end);
    }
}

/// The reader of a table that was written names its first and its last key.
proof fn lemma_written_spans(w: WriterView, path: PathBuf, mapped: bool)
    requires
        w.can_open(),
        w.can_read(),
    ensures
        spans(w.reader(path, mapped), w.entries()),
{
    let r = w.reader(path, mapped);
    lemma_written_places(w);
    if w.entries().len() > 0 {
        let last = w.blocks.len() - 1;
        assert(w.block_stored(0));
        assert(w.block_stored(last));
        lemma_joined_at(w.blocks, 0, 0);
        assert(w.blocks.take(0) =~= Seq::empty());
        lemma_stored_block(w, path, mapped, last);
        assert(r.stored_entries(last) == Some(w.blocks[last]));
        assert(joined(w.blocks).last() == w.blocks[last].last());
    }
}

/// Law: the figures of a table that is opened are those with which it was written.
pub proof fn law_figures_are_read_back(
    path: PathBuf,
    expected_entries: nat,
    bloom: BloomSizing,
    compression: CompressionType,
    level: i32,
    created_at: Timestamp,
    s: Seq<EntryView>,
    image: SSTableImage,
    mapped: bool,
)
    requires
        builds(
            WriterView::empty(
                path,
                new_bloom(expected_entries, bloom),
                compression,
                level,
                created_at,
            ),
            s,
            image,
        ),
        bounded_bits(bloom.bits as nat) <= u32::MAX,
        s.len() <= u32::MAX,
        forall|i: int| 0 <= i < s.len() ==> readable(compression, #[trigger] s[i]),
    ensures
        opened(image.path, image.bytes@, mapped) matches Ok(r) && {
            &&& r.path == path
            &&& r.meta.entry_count == s.len()
            &&& r.meta.entry_count == image.meta@.entry_count
            &&& r.meta.data_size == image.meta@.data_size
            &&& r.meta.index_size == image.meta@.index_size
            &&& r.meta.bloom_offset == image.meta@.bloom_offset
            &&& r.meta.bloom_size == image.meta@.bloom_size
            &&& r.meta.compression == compression
            &&& r.meta.compression == image.meta@.compression
            &&& r.meta.created_at == created_at
            &&& r.meta.created_at == image.meta@.created_at
            &&& r.meta.version == image.meta@.version
        },
{
    let start = WriterView::empty(
        path,
        new_bloom(expected_entries, bloom),
        compression,
        level,
        created_at,
    );
    let (full, w) = choose|full: WriterView, w: WriterView|
        {
            &&& #[trigger] built(start, s, full)
            &&& #[trigger] full.flushes_to(w)
            &&& w.wf()
            &&& w.entries() == s
            &&& w.pending.len() == 0
            &&& image.bytes@ == w.image()
            &&& image.meta@ == w.meta()
            &&& image.path == start.path
        };
    lemma_built_parts(start, s, full);
    lemma_flush_parts(full, w);
    law_filled_bloom_is_read_back(expected_entries, bloom, keys_of(s));
    assert(w.entries() =~= joined(w.blocks));
    assert(image.bytes@.len() == image.bytes.len());
    lemma_blocks_are_readable(w);
    law_written_table_opens(w, path, mapped);
}

/// Law: an entry with a key of up to 1024 bytes and a value of up to 1048576 is read back from a
/// table that is not compressed, or compressed with LZ4; with Zstandard one whose parts have no more
/// than 16300 bytes.
pub proof fn law_usual_entries_are_read_back(e: EntryView)
    requires
        e.key.len() <= 1024,
        e.value matches Some(v) ==> v.len() <= 1_048_576,
    ensures
        readable(CompressionType::Uncompressed, e),
        readable(CompressionType::Lz4, e),
        e.size() <= 16_300 ==> readable(CompressionType::Zstd, e),
{
    lemma_le_bytes_len(e.key.len(), 4);
    lemma_le_bytes_len(e.timestamp as nat, 8);
    lemma_le_bytes_len(e.sequence as nat, 8);
    if let Some(v) = e.value {
        lemma_le_bytes_len(v.len(), 4);
    }
}

/// Law: a reader that gives some entries finds for each key the entry that has it and none for other
/// keys, hands out those of a range in their order, and all of them in a walk without an error.
pub proof fn law_given_entries_are_found(
    r: ReaderView,
    s: Seq<EntryView>,
    key: Seq<u8>,
    start: Seq<u8>,
    end: Seq<u8>,
)
    requires
        gives(r, s),
        crate::sorted::sorted(s),
    ensures
        forall|i: int|
            0 <= i < s.len() && (#[trigger] s[i]).key == key ==> r.lookup(key) == Ok::<
                Option<EntryView>,
                ErrorView,
            >(Some(s[i])),
        (forall|i: int| 0 <= i < s.len() ==> (#[trigger] s[i]).key != key) ==> r.lookup(key) == Ok::<
            Option<EntryView>,
            ErrorView,
        >(None),
        r.range_of(start, end).0 == Ok::<Seq<EntryView>, ErrorView>(
            s.filter(
                |e: EntryView|
                    (e.key == start || key_less(start, e.key)) && key_less(e.key, end),
            ),
        ),
        r.stream(0) == (s, None::<ErrorView>),
{
    crate::sorted::law_table_holds_entries(s, key);
    crate::sorted::law_range_is_picked_out(s, start, end);
    assert(r.lookup(key) == Ok::<Option<EntryView>, ErrorView>(held(table(s), key)));
    assert(r.range_of(start, end).0 == Ok::<Seq<EntryView>, ErrorView>(entries_in(s, start, end)));
}

/// Law: a table lets a search go on exactly where its filter takes the key for a member, and always
/// where it has no filter.
pub proof fn law_filter_decides(r: ReaderView, key: Seq<u8>)
    ensures
        match r.bloom {
            Some(b) => r.may_contain(key) == b.may_contain(key),
            None => r.may_contain(key),
        },
{
}

/// Law: what one block after the other holds is what they hold together, in their order.
pub proof fn law_blocks_are_joined_in_order(
    a: Seq<Seq<EntryView>>,
    block: Seq<EntryView>,
)
    ensures
        joined(a.push(block)) == joined(a) + block,
        joined(Seq::empty()).len() == 0,
{
    assert(a.push(block).drop_last() =~= a);
}

} // verus!
