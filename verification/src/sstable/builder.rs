//! Writing a table in one go.
use crate::bloom::{added_all, new_bloom, BloomSizing};
use crate::clock::current_timestamp;
use crate::config::{CompressionType, Rate, ONE_PERCENT_BITS};
use crate::error::{ErrorView, Result};
use crate::order::{key_at_most, key_less, law_key_less_total, law_key_less_transitive, less};
use crate::sorted::{law_sorted_entries_are_determined, lemma_table_entry, sorted, table};
use crate::sstable::format::{encode_entries, encode_entry, BLOCK_SIZE};
use crate::sstable::writer::{out_of_order, SSTableImage, SSTableWriter, WriterView};
use crate::sstable::MetaView;
use crate::{entry_views, Entry, EntryView, Timestamp};
use std::path::PathBuf;
use vstd::prelude::*;

verus! {

/// The settings of a table.
#[derive(Debug, Clone, Copy)]
pub struct SSTableBuilder {
    pub compression: CompressionType,
    pub compression_level: i32,
    pub bloom_false_positive_rate: Rate,
}

/// `s`, whose keys are in order, with `e` put behind all keys that do not come behind its own.
pub open spec fn placed(s: Seq<EntryView>, e: EntryView) -> Seq<EntryView>
    decreases s.len(),
{
    if s.len() == 0 || !key_less(e.key, s.last().key) {
        s.push(e)
    } else {
        placed(s.drop_last(), e).push(s.last())
    }
}

/// The entries of `s` in the order of their keys; those of one key stay in their order.
pub open spec fn ordered(s: Seq<EntryView>) -> Seq<EntryView>
    decreases s.len(),
{
    if s.len() == 0 {
        s
    } else {
        placed(ordered(s.drop_last()), s.last())
    }
}

/// No key comes before one that stands before it.
pub open spec fn in_key_order(s: Seq<EntryView>) -> bool {
    forall|i: int, j: int|
        0 <= i < j < s.len() ==> key_at_most(#[trigger] s[i].key, #[trigger] s[j].key)
}

/// Whether adding the entries of `s` to `start`, one by one, may leave `w`.
pub open spec fn built(start: WriterView, s: Seq<EntryView>, w: WriterView) -> bool
    decreases s.len(),
{
    if s.len() == 0 {
        w == start
    } else {
        exists|before: WriterView|
            {
                &&& built(start, s.drop_last(), before)
                &&& before.in_order(s.last().key)
                &&& #[trigger] before.adds(s.last(), w)
            }
    }
}

/// Whether adding `e` to `w` may fail with `error`.
pub open spec fn add_fails(w: WriterView, e: EntryView, error: ErrorView) -> bool {
    if w.in_order(e.key) {
        w.is_full_for(e) && w.noted(e.key).flush_fails(error)
    } else {
        error == out_of_order()
    }
}

/// Whether writing the entries of `s` to `start` and finishing may fail with `error`.
pub open spec fn build_fails(start: WriterView, s: Seq<EntryView>, error: ErrorView) -> bool {
    exists|i: int, w: WriterView|
        {
            &&& 0 <= i <= s.len()
            &&& #[trigger] built(start, s.take(i), w)
            &&& if i < s.len() {
                add_fails(w, s[i], error)
            } else {
                w.flush_fails(error)
            }
        }
}

/// Whether writing the entries of `s` to `start` and finishing may give a file with these bytes
/// and figures.
pub open spec fn builds(start: WriterView, s: Seq<EntryView>, image: SSTableImage) -> bool {
    exists|full: WriterView, w: WriterView|
        {
            &&& #[trigger] built(start, s, full)
            &&& #[trigger] full.flushes_to(w)
            &&& w.wf()
            &&& w.entries() == s
            &&& w.pending.len() == 0
            &&& image.bytes@ == w.image()
            &&& image.meta@ == w.meta()
            &&& image.path == start.path
        }
}

impl SSTableBuilder {
    pub fn new() -> (r: Self)
        ensures
            r == (SSTableBuilder {
                compression: CompressionType::Lz4,
                compression_level: 1,
                bloom_false_positive_rate: Rate { bits: ONE_PERCENT_BITS },
            }),
    {
        Self {
            compression: CompressionType::Lz4,
            compression_level: 1,
            bloom_false_positive_rate: Rate { bits: ONE_PERCENT_BITS },
        }
    }

    /// Sets how blocks are compressed.
    pub fn compression(self, compression: CompressionType) -> (r: Self)
        ensures
            r == (SSTableBuilder { compression, ..self }),
    {
        SSTableBuilder { compression, ..self }
    }

    /// Sets how hard blocks are compressed.
    pub fn compression_level(self, level: i32) -> (r: Self)
        ensures
            r == (SSTableBuilder { compression_level: level, ..self }),
    {
        SSTableBuilder { compression_level: level, ..self }
    }

    /// Sets the rate of false positives that the Bloom filter is sized for.
    pub fn bloom_false_positive_rate(self, rate: Rate) -> (r: Self)
        ensures
            r == (SSTableBuilder { bloom_false_positive_rate: rate, ..self }),
    {
        SSTableBuilder { bloom_false_positive_rate: rate, ..self }
    }

    /// The writer with which a table of `expected_entries` entries begins.
    pub open spec fn start(
        self,
        path: PathBuf,
        expected_entries: nat,
        bloom: BloomSizing,
        created_at: Timestamp,
    ) -> WriterView {
        WriterView::empty(
            path,
            new_bloom(expected_entries, bloom),
            self.compression,
            self.compression_level,
            created_at,
        )
    }

    /// Writes a table of entries whose keys are in order, with the present time.
    pub fn build(self, path: PathBuf, entries: Vec<Entry>, bloom: BloomSizing) -> (r: Result<
        SSTableImage,
    >)
        ensures
            ({
                let s = entry_views(entries@);
                match r {
                    Ok(image) => sorted(s) && exists|now: Timestamp|
                        builds(#[trigger] self.start(path, s.len(), bloom, now), s, image),
                    Err(e) => exists|now: Timestamp|
                        build_fails(#[trigger] self.start(path, s.len(), bloom, now), s, e@),
                }
            }),
    {
        let now: Timestamp = current_timestamp();
        self.build_at(path, entries, bloom, now)
    }

    /// Writes a table of entries whose keys are in order, at a given time.
    pub fn build_at(
        self,
        path: PathBuf,
        entries: Vec<Entry>,
        bloom: BloomSizing,
        created_at: Timestamp,
    ) -> (r: Result<SSTableImage>)
        ensures
            ({
                let s = entry_views(entries@);
                let start = self.start(path, s.len(), bloom, created_at);
                match r {
                    Ok(image) => sorted(s) && builds(start, s, image),
                    Err(e) => build_fails(start, s, e@),
                }
            }),
    {
        let ghost s = entry_views(entries@);
        let ghost start = self.start(path, s.len(), bloom, created_at);
        let mut writer = SSTableWriter::new_at(
            path,
            entries.len(),
            self.compression,
            self.compression_level,
            bloom,
            created_at,
        );
        let mut i: usize = 0;
        assert(s.take(0) =~= Seq::empty());
        assert(writer@.entries() =~= Seq::empty());
        while i < entries.len()
            invariant
                i <= entries.len(),
                s == entry_views(entries@),
                writer.wf(),
                built(start, s.take(i as int), writer@),
                writer@.entries() == s.take(i as int),
                writer@.bloom.element_count == i,
                writer@.entry_count == i,
                writer@.path == start.path,
                start == self.start(path, s.len(), bloom, created_at),
            decreases entries.len() - i,
        {
            let ghost before = writer@;
            assert(entries@[i as int]@ == s[i as int]);
            match writer.add(&entries[i]) {
                Ok(_) => {},
                Err(e) => {
                    assert(add_fails(before, s[i as int], e@));
                    assert(build_fails(start, s, e@));
                    return Err(e);
                },
            }
            proof {
                assert(s.take(i + 1) =~= s.take(i as int).push(s[i as int]));
                lemma_built_push(start, s.take(i as int), before, s[i as int], writer@);
                lemma_adds(before, s[i as int], writer@);
            }
            i = i + 1;
        }
        let ghost full = writer@;
        assert(s.take(i as int) =~= s);
        match writer.finish() {
            Ok(image) => {
                proof {
                    let w = choose|w: WriterView|
                        {
                            &&& #[trigger] full.flushes_to(w)
                            &&& w.wf()
                            &&& w.entries() == full.entries()
                            &&& w.pending.len() == 0
                            &&& image.bytes@ == w.image()
                            &&& image.meta@ == w.meta()
                            &&& image.path == full.path
                        };
                    assert(built(start, s, full) && full.flushes_to(w));
                }
                Ok(image)
            },
            Err(e) => {
                assert(built(start, s.take(s.len() as int), full));
                Err(e)
            },
        }
    }

    /// Writes a table of entries in any order, with the present time.
    pub fn build_from_vec(self, path: PathBuf, entries: Vec<Entry>, bloom: BloomSizing) -> (r:
        Result<SSTableImage>)
        ensures
            ({
                let s = ordered(entry_views(entries@));
                match r {
                    Ok(image) => sorted(s) && exists|now: Timestamp|
                        builds(
                            #[trigger] self.start(path, entries@.len(), bloom, now),
                            s,
                            image,
                        ),
                    Err(e) => exists|now: Timestamp|
                        build_fails(
                            #[trigger] self.start(path, entries@.len(), bloom, now),
                            s,
                            e@,
                        ),
                }
            }),
    {
        let now: Timestamp = current_timestamp();
        self.build_from_vec_at(path, entries, bloom, now)
    }

    /// Writes a table of entries in any order, at a given time.
    pub fn build_from_vec_at(
        self,
        path: PathBuf,
        entries: Vec<Entry>,
        bloom: BloomSizing,
        created_at: Timestamp,
    ) -> (r: Result<SSTableImage>)
        ensures
            ({
                let s = ordered(entry_views(entries@));
                let start = self.start(path, entries@.len(), bloom, created_at);
                match r {
                    Ok(image) => sorted(s) && builds(start, s, image),
                    Err(e) => build_fails(start, s, e@),
                }
            }),
    {
        let ghost given = entry_views(entries@);
        let entries = sort_by_key(entries);
        proof {
            law_ordering_keeps_entries(given);
        }
        self.build_at(path, entries, bloom, created_at)
    }
}

impl Default for SSTableBuilder {
    fn default() -> (r: Self)
        ensures
            r == (SSTableBuilder {
                compression: CompressionType::Lz4,
                compression_level: 1,
                bloom_false_positive_rate: Rate { bits: ONE_PERCENT_BITS },
            }),
    {
        Self::new()
    }
}

proof fn lemma_built_push(
    start: WriterView,
    s: Seq<EntryView>,
    before: WriterView,
    e: EntryView,
    after: WriterView,
)
    requires
        built(start, s, before),
        before.in_order(e.key),
        before.adds(e, after),
    ensures
        built(start, s.push(e), after),
{
    assert(s.push(e).drop_last() =~= s);
    assert(before.adds(s.push(e).last(), after));
}

proof fn lemma_adds(before: WriterView, e: EntryView, after: WriterView)
    requires
        before.adds(e, after),
        before.entry_count < u64::MAX,
    ensures
        after.bloom.element_count == before.bloom.element_count + 1,
        after.entry_count == before.entry_count + 1,
        after.path == before.path,
{
    let noted = before.noted(e.key);
    if before.is_full_for(e) {
        let flushed = choose|flushed: WriterView|
            noted.flushes_to(flushed) && after == #[trigger] flushed.appended(e);
        assert(flushed.bloom == noted.bloom && flushed.entry_count == noted.entry_count);
    }
}

/// What adding entries to an empty writer leaves.
proof fn lemma_built(start: WriterView, s: Seq<EntryView>, w: WriterView)
    requires
        start.max_key is None,
        start.blocks.len() == 0,
        start.pending.len() == 0,
        built(start, s, w),
    ensures
        w.compression == start.compression,
        w.entries() == s,
        s.len() == 0 ==> w.max_key is None,
        s.len() > 0 ==> w.max_key == Some(s.last().key),
    decreases s.len(),
{
    if s.len() == 0 {
        assert(w.entries() =~= s);
    } else {
        let e = s.last();
        let before = choose|before: WriterView|
            {
                &&& built(start, s.drop_last(), before)
                &&& before.in_order(e.key)
                &&& #[trigger] before.adds(e, w)
            };
        lemma_built(start, s.drop_last(), before);
        let noted = before.noted(e.key);
        if before.is_full_for(e) {
            let flushed = choose|flushed: WriterView|
                noted.flushes_to(flushed) && w == #[trigger] flushed.appended(e);
            let body = choose|body: Seq<u8>|
                noted.may_compress(Ok(body)) && flushed == #[trigger] noted.flushed(body);
            assert(noted.blocks.push(noted.pending).drop_last() =~= noted.blocks);
            assert(flushed.entries() =~= before.entries());
            assert(w.entries() =~= before.entries().push(e));
        } else {
            assert(w.entries() =~= before.entries().push(e));
        }
        assert(s.drop_last().push(e) =~= s);
    }
}

/// Law: writing entries whose keys are in order, each key once, fails only where a block cannot be
/// compressed, and never where blocks are not compressed; writing others always fails.
pub proof fn law_entries_in_order_are_written(
    start: WriterView,
    s: Seq<EntryView>,
    error: ErrorView,
    image: SSTableImage,
)
    requires
        start.max_key is None,
        start.blocks.len() == 0,
        start.pending.len() == 0,
    ensures
        sorted(s) && build_fails(start, s, error) ==> error is Compression && start.compression
            != CompressionType::Uncompressed,
        builds(start, s, image) ==> sorted(s),
{
    if sorted(s) && build_fails(start, s, error) {
        let (i, w) = choose|i: int, w: WriterView|
            {
                &&& 0 <= i <= s.len()
                &&& #[trigger] built(start, s.take(i), w)
                &&& if i < s.len() {
                    add_fails(w, s[i], error)
                } else {
                    w.flush_fails(error)
                }
            };
        lemma_built(start, s.take(i), w);
        if 0 < i < s.len() {
            assert(s.take(i).last() == s[i - 1]);
            assert(key_less(s[i - 1].key, s[i].key));
        }
    }
}

/// The keys of some entries.
pub open spec fn keys_of(s: Seq<EntryView>) -> Seq<Seq<u8>> {
    s.map_values(|e: EntryView| e.key)
}

/// Whether the entries of a block are one, or no more bytes than a block takes.
pub open spec fn block_fits(block: Seq<EntryView>) -> bool {
    block.len() <= 1 || encode_entries(block).len() <= BLOCK_SIZE
}

/// Whether all blocks of a writer fit.
pub open spec fn blocks_fit(w: WriterView) -> bool {
    &&& block_fits(w.pending)
    &&& forall|i: int| 0 <= i < w.blocks.len() ==> block_fits(#[trigger] w.blocks[i])
}

/// Putting a block out changes neither the figures nor the sizes of the blocks.
pub proof fn lemma_flush_parts(w: WriterView, after: WriterView)
    requires
        w.flushes_to(after),
        blocks_fit(w),
    ensures
        blocks_fit(after),
        after.bloom == w.bloom,
        after.entry_count == w.entry_count,
        after.compression == w.compression,
        after.level == w.level,
        after.created_at == w.created_at,
        after.min_key == w.min_key,
        after.max_key == w.max_key,
{
    if w.pending.len() > 0 {
        let body = choose|body: Seq<u8>|
            w.may_compress(Ok(body)) && after == #[trigger] w.flushed(body);
        assert forall|i: int| 0 <= i < after.blocks.len() implies block_fits(
            #[trigger] after.blocks[i],
        ) by {
            if i < w.blocks.len() {
                assert(after.blocks[i] == w.blocks[i]);
            }
        }
    }
}

/// The figures, the Bloom filter and the blocks that adding entries to an empty writer leaves.
pub proof fn lemma_built_parts(start: WriterView, s: Seq<EntryView>, w: WriterView)
    requires
        start.blocks.len() == 0,
        start.pending.len() == 0,
        start.entry_count == 0,
        s.len() <= u64::MAX,
        built(start, s, w),
    ensures
        blocks_fit(w),
        w.bloom == added_all(start.bloom, keys_of(s)),
        w.entry_count == s.len(),
        w.compression == start.compression,
        w.level == start.level,
        w.created_at == start.created_at,
    decreases s.len(),
{
    if s.len() > 0 {
        let e = s.last();
        let before = choose|before: WriterView|
            {
                &&& built(start, s.drop_last(), before)
                &&& before.in_order(e.key)
                &&& #[trigger] before.adds(e, w)
            };
        lemma_built_parts(start, s.drop_last(), before);
        assert(keys_of(s).drop_last() =~= keys_of(s.drop_last()));
        assert(keys_of(s).last() == e.key);
        let noted = before.noted(e.key);
        assert(blocks_fit(noted));
        if before.is_full_for(e) {
            let flushed = choose|flushed: WriterView|
                noted.flushes_to(flushed) && w == #[trigger] flushed.appended(e);
            lemma_flush_parts(noted, flushed);
        } else if before.pending.len() > 0 {
            assert(before.pending.push(e).drop_last() =~= before.pending);
            assert(encode_entries(before.pending.push(e)).len() == encode_entries(
                before.pending,
            ).len() + encode_entry(e).len());
        }
    }
}

/// Entries in the order of their keys, each key once, are the only ones in this order that are
/// these entries.
proof fn lemma_one_order(a: Seq<EntryView>, b: Seq<EntryView>)
    requires
        in_key_order(a),
        sorted(b),
        a.to_multiset() == b.to_multiset(),
    ensures
        a == b,
{
    broadcast use vstd::seq_lib::group_to_multiset_ensures;

    assert(b.no_duplicates()) by {
        assert forall|i: int, j: int| 0 <= i < b.len() && 0 <= j < b.len() && i != j implies b[i]
            != b[j] by {
            law_key_less_total(b[i].key, b[j].key);
            if i < j {
                assert(key_less(b[i].key, b[j].key));
            } else {
                assert(key_less(b[j].key, b[i].key));
            }
        }
    }
    b.lemma_multiset_has_no_duplicates();
    a.lemma_multiset_has_no_duplicates_conv();
    assert forall|i: int, j: int| 0 <= i < j < a.len() implies key_less(
        #[trigger] a[i].key,
        #[trigger] a[j].key,
    ) by {
        assert(key_at_most(a[i].key, a[j].key));
        law_key_less_total(a[i].key, a[j].key);
        if a[i].key == a[j].key {
            assert(a.contains(a[i]) && a.contains(a[j]));
            assert(b.to_multiset().count(a[i]) > 0 && b.to_multiset().count(a[j]) > 0);
            assert(b.contains(a[i]) && b.contains(a[j]));
            let x = choose|x: int| 0 <= x < b.len() && b[x] == a[i];
            let y = choose|y: int| 0 <= y < b.len() && b[y] == a[j];
            if x < y {
                assert(key_less(b[x].key, b[y].key));
            } else {
                assert(x != y);
                assert(key_less(b[y].key, b[x].key));
            }
        }
    }
    lemma_same_table(a, b);
    lemma_same_table(b, a);
    assert(table(a) =~= table(b));
    law_sorted_entries_are_determined(a, b);
}

/// What one of two tables of the same entries holds, the other holds.
proof fn lemma_same_table(a: Seq<EntryView>, b: Seq<EntryView>)
    requires
        sorted(a),
        sorted(b),
        a.to_multiset() == b.to_multiset(),
    ensures
        forall|key: Seq<u8>| #[trigger]
            table(a).contains_key(key) ==> table(b).contains_key(key) && table(b)[key] == table(
                a,
            )[key],
{
    broadcast use vstd::seq_lib::group_to_multiset_ensures;

    assert forall|key: Seq<u8>| #[trigger] table(a).contains_key(key) implies table(b).contains_key(
        key,
    ) && table(b)[key] == table(a)[key] by {
        let i = choose|i: int| 0 <= i < a.len() && #[trigger] a[i].key == key;
        lemma_table_entry(a, i);
        assert(a.contains(a[i]));
        assert(b.to_multiset().count(a[i]) > 0);
        assert(b.contains(a[i]));
        let k = choose|k: int| 0 <= k < b.len() && b[k] == a[i];
        lemma_table_entry(b, k);
    }
}

/// Law: entries in any order are written as the same entries in the order of their keys are, and
/// give the figures of these. Where two of them have one key nothing is written: the error says
/// that keys are not in order, or, where blocks are compressed, that one could not be.
pub proof fn law_any_order_gives_one_table(
    start: WriterView,
    given: Seq<EntryView>,
    s: Seq<EntryView>,
    image: SSTableImage,
    error: ErrorView,
)
    requires
        given.to_multiset() == s.to_multiset(),
        in_key_order(s),
        s.len() <= usize::MAX,
        start == WriterView::empty(
            start.path,
            start.bloom,
            start.compression,
            start.level,
            start.created_at,
        ),
    ensures
        sorted(s) ==> ordered(given) == s,
        builds(start, ordered(given), image) ==> {
            &&& sorted(s)
            &&& builds(start, s, image)
            &&& image.meta@.entry_count == s.len()
            &&& s.len() > 0 ==> image.meta@.min_key == s[0].key && image.meta@.max_key
                == s.last().key
            &&& image.meta@.compression == start.compression
            &&& image.meta@.created_at == start.created_at
        },
        !sorted(s) && build_fails(start, ordered(given), error) ==> error == out_of_order() || (
        error is Compression && start.compression != CompressionType::Uncompressed),
        sorted(s) && build_fails(start, ordered(given), error) ==> error is Compression
            && start.compression != CompressionType::Uncompressed,
{
    let o = ordered(given);
    law_ordering_keeps_entries(given);
    if sorted(s) {
        lemma_one_order(o, s);
    }
    law_entries_in_order_are_written(start, o, error, image);
    if builds(start, o, image) {
        lemma_one_order(s, o);
        let (full, w) = choose|full: WriterView, w: WriterView|
            {
                &&& #[trigger] built(start, o, full)
                &&& #[trigger] full.flushes_to(w)
                &&& w.wf()
                &&& w.entries() == o
                &&& w.pending.len() == 0
                &&& image.bytes@ == w.image()
                &&& image.meta@ == w.meta()
                &&& image.path == start.path
            };
        lemma_built_parts(start, o, full);
        lemma_flush_parts(full, w);
        lemma_built(start, o, full);
    }
    if !sorted(s) && build_fails(start, o, error) {
        let (i, w) = choose|i: int, w: WriterView|
            {
                &&& 0 <= i <= o.len()
                &&& #[trigger] built(start, o.take(i), w)
                &&& if i < o.len() {
                    add_fails(w, o[i], error)
                } else {
                    w.flush_fails(error)
                }
            };
        lemma_built(start, o.take(i), w);
    }
}

/// Where an entry is put is where it would have to be inserted.
proof fn lemma_placed(s: Seq<EntryView>, e: EntryView, at: int)
    requires
        0 <= at <= s.len(),
        forall|i: int| 0 <= i < at ==> key_at_most(#[trigger] s[i].key, e.key),
        forall|i: int| at <= i < s.len() ==> key_less(e.key, #[trigger] s[i].key),
    ensures
        placed(s, e) == s.insert(at, e),
    decreases s.len(),
{
    if at == s.len() {
        assert(s.insert(at, e) =~= s.push(e));
        if s.len() > 0 {
            assert(key_at_most(s[s.len() - 1].key, e.key));
        }
    } else {
        assert(key_less(e.key, s[s.len() - 1].key));
        lemma_placed(s.drop_last(), e, at);
        assert(s.insert(at, e) =~= s.drop_last().insert(at, e).push(s.last()));
    }
}

proof fn lemma_placed_in_order(s: Seq<EntryView>, e: EntryView)
    requires
        in_key_order(s),
    ensures
        in_key_order(placed(s, e)),
        placed(s, e).to_multiset() == s.push(e).to_multiset(),
        forall|i: int|
            0 <= i < placed(s, e).len() ==> #[trigger] placed(s, e)[i] == e || s.contains(
                placed(s, e)[i],
            ),
    decreases s.len(),
{
    broadcast use vstd::seq_lib::group_to_multiset_ensures;

    let p = placed(s, e);
    if s.len() == 0 || !key_less(e.key, s.last().key) {
        assert forall|i: int, j: int| 0 <= i < j < p.len() implies key_at_most(
            #[trigger] p[i].key,
            #[trigger] p[j].key,
        ) by {
            if j < s.len() {
                assert(key_at_most(s[i].key, s[j].key));
            } else if i < s.len() - 1 {
                assert(key_at_most(s[i].key, s[s.len() - 1].key));
                lemma_at_most_transitive(s[i].key, s.last().key, e.key);
            }
        }
        assert forall|i: int| 0 <= i < p.len() implies #[trigger] p[i] == e || s.contains(p[i]) by {
            if i < s.len() {
                assert(s[i] == p[i]);
            }
        }
    } else {
        let t = s.drop_last();
        let x = s.last();
        assert forall|i: int, j: int| 0 <= i < j < t.len() implies key_at_most(
            #[trigger] t[i].key,
            #[trigger] t[j].key,
        ) by {
            assert(key_at_most(s[i].key, s[j].key));
        }
        lemma_placed_in_order(t, e);
        let q = placed(t, e);
        assert(p == q.push(x));
        assert forall|i: int| 0 <= i < q.len() implies key_at_most(#[trigger] q[i].key, x.key) by {
            if q[i] == e {
                law_key_less_total(e.key, x.key);
            } else {
                let k = choose|k: int| 0 <= k < t.len() && t[k] == q[i];
                assert(key_at_most(s[k].key, s[s.len() - 1].key));
            }
        }
        assert forall|i: int, j: int| 0 <= i < j < p.len() implies key_at_most(
            #[trigger] p[i].key,
            #[trigger] p[j].key,
        ) by {
            if j < q.len() {
                assert(key_at_most(q[i].key, q[j].key));
            } else {
                assert(p[i] == q[i]);
            }
        }
        assert forall|i: int| 0 <= i < p.len() implies #[trigger] p[i] == e || s.contains(p[i]) by {
            if i < q.len() {
                assert(p[i] == q[i]);
                if q[i] != e {
                    let k = choose|k: int| 0 <= k < t.len() && t[k] == q[i];
                    assert(s[k] == p[i]);
                }
            } else {
                assert(s[s.len() - 1] == p[i]);
            }
        }
        assert(q.push(x).to_multiset() =~= q.to_multiset().insert(x));
        assert(t.push(e).to_multiset() =~= t.to_multiset().insert(e));
        assert(t.push(x) =~= s);
        assert(s.to_multiset() =~= t.to_multiset().insert(x));
        assert(p.to_multiset() =~= s.push(e).to_multiset());
    }
}

proof fn lemma_at_most_transitive(a: Seq<u8>, b: Seq<u8>, c: Seq<u8>)
    requires
        key_at_most(a, b),
        key_at_most(b, c),
    ensures
        key_at_most(a, c),
{
    law_key_less_total(a, b);
    law_key_less_total(b, c);
    if a != b && b != c {
        law_key_less_transitive(a, b, c);
    }
    law_key_less_total(a, c);
}

/// Law: ordering entries by their keys keeps all of them and puts no key before a smaller one;
/// entries whose keys are in order already, each key once, stay as they are.
pub proof fn law_ordering_keeps_entries(s: Seq<EntryView>)
    ensures
        ordered(s).to_multiset() == s.to_multiset(),
        ordered(s).len() == s.len(),
        in_key_order(ordered(s)),
        sorted(s) ==> ordered(s) == s,
    decreases s.len(),
{
    broadcast use vstd::seq_lib::group_to_multiset_ensures;

    if s.len() > 0 {
        let t = s.drop_last();
        law_ordering_keeps_entries(t);
        lemma_placed_in_order(ordered(t), s.last());
        assert(t.push(s.last()) =~= s);
        assert(s.to_multiset() =~= t.to_multiset().insert(s.last()));
        assert(ordered(t).push(s.last()).to_multiset() =~= ordered(t).to_multiset().insert(
            s.last(),
        ));
        lemma_placed_len(ordered(t), s.last());
        if sorted(s) {
            assert(sorted(t)) by {
                assert forall|i: int, j: int| 0 <= i < j < t.len() implies key_less(
                    #[trigger] t[i].key,
                    #[trigger] t[j].key,
                ) by {
                    assert(key_less(s[i].key, s[j].key));
                }
            }
            if t.len() > 0 {
                assert(key_less(s[s.len() - 2].key, s[s.len() - 1].key));
                law_key_less_total(t.last().key, s.last().key);
            }
        }
    }
}

proof fn lemma_placed_len(s: Seq<EntryView>, e: EntryView)
    ensures
        placed(s, e).len() == s.len() + 1,
    decreases s.len(),
{
    if s.len() > 0 && key_less(e.key, s.last().key) {
        lemma_placed_len(s.drop_last(), e);
    }
}

/// Puts entries in the order of their keys; those of one key stay in their order.
pub fn sort_by_key(entries: Vec<Entry>) -> (r: Vec<Entry>)
    ensures
        entry_views(r@) == ordered(entry_views(entries@)),
{
    let ghost given = entries@;
    let ghost s = entry_views(given);
    let mut input = entries;
    let mut reversed: Vec<Entry> = Vec::new();
    while input.len() > 0
        invariant
            input@.len() + reversed@.len() == given.len(),
            input@ == given.take(input@.len() as int),
            forall|k: int|
                0 <= k < reversed@.len() ==> #[trigger] reversed@[k] == given[given.len() - 1 - k],
        decreases input@.len(),
    {
        match input.pop() {
            Some(entry) => {
                reversed.push(entry);
            },
            None => {},
        }
        assert(input@ =~= given.take(input@.len() as int));
    }
    let mut sorted_entries: Vec<Entry> = Vec::new();
    assert(entry_views(sorted_entries@) =~= ordered(s.take(0)));
    while reversed.len() > 0
        invariant
            s == entry_views(given),
            sorted_entries@.len() + reversed@.len() == given.len(),
            forall|k: int|
                0 <= k < reversed@.len() ==> #[trigger] reversed@[k] == given[given.len() - 1 - k],
            entry_views(sorted_entries@) == ordered(s.take(given.len() - reversed@.len())),
        decreases reversed@.len(),
    {
        let ghost done = given.len() - reversed@.len();
        match reversed.pop() {
            Some(entry) => {
                let ghost views = entry_views(sorted_entries@);
                let ghost view = entry@;
                proof {
                    law_ordering_keeps_entries(s.take(done));
                }
                let at: usize = upper_bound(&sorted_entries, entry.key.as_slice());
                sorted_entries.insert(at, entry);
                proof {
                    assert(s[done] == view);
                    assert(entry_views(sorted_entries@) =~= views.insert(at as int, view));
                    lemma_placed(views, view, at as int);
                    assert(s.take(done + 1).drop_last() =~= s.take(done));
                    assert(s.take(done + 1).last() == view);
                }
            },
            None => {},
        }
    }
    assert(s.take(given.len() as int) =~= s);
    sorted_entries
}

/// The index behind all keys that do not come behind `key`.
fn upper_bound(entries: &Vec<Entry>, key: &[u8]) -> (r: usize)
    requires
        in_key_order(entry_views(entries@)),
    ensures
        r <= entries@.len(),
        forall|i: int| 0 <= i < r ==> key_at_most(#[trigger] entry_views(entries@)[i].key, key@),
        forall|i: int|
            r <= i < entries@.len() ==> key_less(key@, #[trigger] entry_views(entries@)[i].key),
{
    let ghost s = entry_views(entries@);
    let mut left: usize = 0;
    let mut right: usize = entries.len();
    while left < right
        invariant
            left <= right <= entries@.len(),
            s == entry_views(entries@),
            in_key_order(s),
            forall|i: int| 0 <= i < left ==> key_at_most(#[trigger] s[i].key, key@),
            forall|i: int| right <= i < entries@.len() ==> key_less(key@, #[trigger] s[i].key),
        decreases right - left,
    {
        let mid: usize = left + (right - left) / 2;
        assert(s[mid as int] == entries@[mid as int]@);
        if less(key, entries[mid].key.as_slice()) {
            assert forall|i: int| mid <= i < entries@.len() implies key_less(
                key@,
                #[trigger] s[i].key,
            ) by {
                if mid < i {
                    assert(key_at_most(s[mid as int].key, s[i].key));
                    law_key_less_total(s[mid as int].key, s[i].key);
                    if s[mid as int].key != s[i].key {
                        law_key_less_transitive(key@, s[mid as int].key, s[i].key);
                    }
                }
            }
            right = mid;
        } else {
            assert forall|i: int| 0 <= i < mid + 1 implies key_at_most(
                #[trigger] s[i].key,
                key@,
            ) by {
                if i < mid {
                    assert(key_at_most(s[i].key, s[mid as int].key));
                    lemma_at_most_transitive(s[i].key, s[mid as int].key, key@);
                }
            }
            left = mid + 1;
        }
    }
    left
}

/// Whether two writers are the same but for the path and the time.
pub open spec fn alike(a: WriterView, b: WriterView) -> bool {
    b == (WriterView { path: b.path, created_at: b.created_at, ..a })
}

/// Law: writing a table twice of the same entries gives the same figures but for the time, and the
/// same bytes where the time is the same too.
///
/// With LZ4 which bytes a block is compressed to may differ, and with them the sizes: it is left
/// out.
pub proof fn law_build_is_repeatable(
    a: WriterView,
    b: WriterView,
    s: Seq<EntryView>,
    x: SSTableImage,
    y: SSTableImage,
)
    requires
        alike(a, b),
        a.compression != CompressionType::Lz4,
        builds(a, s, x),
        builds(b, s, y),
    ensures
        y.meta@ == (MetaView { created_at: y.meta@.created_at, ..x.meta@ }),
        a.created_at == b.created_at ==> y.meta@ == x.meta@ && y.bytes@ == x.bytes@,
{
    let (full, w) = choose|full: WriterView, w: WriterView|
        {
            &&& #[trigger] built(a, s, full)
            &&& #[trigger] full.flushes_to(w)
            &&& w.wf()
            &&& w.entries() == s
            &&& w.pending.len() == 0
            &&& x.bytes@ == w.image()
            &&& x.meta@ == w.meta()
            &&& x.path == a.path
        };
    let (other_full, other) = choose|full: WriterView, w: WriterView|
        {
            &&& #[trigger] built(b, s, full)
            &&& #[trigger] full.flushes_to(w)
            &&& w.wf()
            &&& w.entries() == s
            &&& w.pending.len() == 0
            &&& y.bytes@ == w.image()
            &&& y.meta@ == w.meta()
            &&& y.path == b.path
        };
    lemma_built_alike(a, b, s, full, other_full);
    lemma_flush_alike(full, other_full, w, other);
}

/// Adding the same entries to two writers that are alike leaves two that are alike.
proof fn lemma_built_alike(
    a: WriterView,
    b: WriterView,
    s: Seq<EntryView>,
    x: WriterView,
    y: WriterView,
)
    requires
        alike(a, b),
        a.compression != CompressionType::Lz4,
        built(a, s, x),
        built(b, s, y),
    ensures
        alike(x, y),
        x.compression == a.compression,
        x.created_at == a.created_at,
        y.created_at == b.created_at,
    decreases s.len(),
{
    if s.len() > 0 {
        let e = s.last();
        let before = choose|before: WriterView|
            {
                &&& built(a, s.drop_last(), before)
                &&& before.in_order(e.key)
                &&& #[trigger] before.adds(e, x)
            };
        let other = choose|before: WriterView|
            {
                &&& built(b, s.drop_last(), before)
                &&& before.in_order(e.key)
                &&& #[trigger] before.adds(e, y)
            };
        lemma_built_alike(a, b, s.drop_last(), before, other);
        let noted = before.noted(e.key);
        let other_noted = other.noted(e.key);
        assert(alike(noted, other_noted));
        if before.is_full_for(e) {
            let flushed = choose|flushed: WriterView|
                noted.flushes_to(flushed) && x == #[trigger] flushed.appended(e);
            let other_flushed = choose|flushed: WriterView|
                other_noted.flushes_to(flushed) && y == #[trigger] flushed.appended(e);
            lemma_flush_alike(noted, other_noted, flushed, other_flushed);
        }
    }
}

/// Putting out a block of two writers that are alike leaves two that are alike.
proof fn lemma_flush_alike(a: WriterView, b: WriterView, x: WriterView, y: WriterView)
    requires
        alike(a, b),
        a.compression != CompressionType::Lz4,
        a.flushes_to(x),
        b.flushes_to(y),
    ensures
        alike(x, y),
        x.compression == a.compression,
        x.created_at == a.created_at,
        y.created_at == b.created_at,
{
    if a.pending.len() > 0 {
        let body = choose|body: Seq<u8>|
            a.may_compress(Ok(body)) && x == #[trigger] a.flushed(body);
        let other = choose|body: Seq<u8>|
            b.may_compress(Ok(body)) && y == #[trigger] b.flushed(body);
        assert(body == other);
    }
}

/// Law: ordering entries by their keys keeps the order of those that have one key.
pub proof fn law_ordering_is_stable(s: Seq<EntryView>, key: Seq<u8>)
    ensures
        ordered(s).filter(|e: EntryView| e.key == key) == s.filter(|e: EntryView| e.key == key),
    decreases s.len(),
{
    let has = |e: EntryView| e.key == key;
    reveal(Seq::filter);
    if s.len() > 0 {
        let t = s.drop_last();
        law_ordering_is_stable(t, key);
        lemma_placed_filter(ordered(t), s.last(), key, has);
    }
}

proof fn lemma_placed_filter(
    s: Seq<EntryView>,
    e: EntryView,
    key: Seq<u8>,
    has: spec_fn(EntryView) -> bool,
)
    requires
        forall|x: EntryView| #[trigger] has(x) == (x.key == key),
    ensures
        placed(s, e).filter(has) == (if e.key == key {
            s.filter(has).push(e)
        } else {
            s.filter(has)
        }),
    decreases s.len(),
{
    reveal(Seq::filter);
    if s.len() == 0 || !key_less(e.key, s.last().key) {
        assert(s.push(e).drop_last() =~= s);
    } else {
        let t = s.drop_last();
        lemma_placed_filter(t, e, key, has);
        assert(placed(t, e).push(s.last()).drop_last() =~= placed(t, e));
        law_key_less_total(e.key, s.last().key);
    }
}

/// Law: no key comes before one that stands before it, as the order of keys says.
pub proof fn law_keys_in_order_do_not_go_down(s: Seq<EntryView>)
    ensures
        in_key_order(s) <==> forall|i: int, j: int|
            0 <= i < j < s.len() ==> !key_less((#[trigger] s[j]).key, (#[trigger] s[i]).key),
{
    if in_key_order(s) {
        assert forall|i: int, j: int| 0 <= i < j < s.len() implies !key_less(
            (#[trigger] s[j]).key,
            (#[trigger] s[i]).key,
        ) by {
            assert(key_at_most(s[i].key, s[j].key));
        }
    }
}

/// Law: the bytes of a table are its data, its filter and its index, as many of each as its figures
/// say, and a footer of 64 bytes; the filter stands behind the data.
pub proof fn law_figures_measure_the_file(
    start: WriterView,
    s: Seq<EntryView>,
    image: SSTableImage,
)
    requires
        builds(start, s, image),
    ensures
        image.bytes@.len() == image.meta@.data_size + image.meta@.bloom_size
            + image.meta@.index_size + 64,
        image.meta@.bloom_offset == image.meta@.data_size,
        image.meta@.version == 1,
        image.path == start.path,
{
    let (full, w) = choose|full: WriterView, w: WriterView|
        {
            &&& #[trigger] built(start, s, full)
            &&& #[trigger] full.flushes_to(w)
            &&& w.wf()
            &&& w.entries() == s
            &&& w.pending.len() == 0
            &&& image.bytes@ == w.image()
            &&& image.meta@ == w.meta()
            &&& image.path == start.path
        };
    crate::sstable::format::law_footer_layout(w.footer());
    assert(image.bytes@.len() == image.bytes.len());
}

/// Law: a block of several entries has no more than 4096 bytes of them, and a block is closed only
/// where the next entry would have made it larger.
pub proof fn law_blocks_are_filled(
    start: WriterView,
    s: Seq<EntryView>,
    full: WriterView,
    w: WriterView,
    i: int,
)
    requires
        start.blocks.len() == 0,
        start.pending.len() == 0,
        start.entry_count == 0,
        s.len() <= u64::MAX,
        built(start, s, full),
        full.flushes_to(w),
        0 <= i < w.blocks.len(),
    ensures
        w.blocks[i].len() <= 1 || encode_entries(w.blocks[i]).len() <= 4096,
        i + 1 < w.blocks.len() ==> encode_entries(w.blocks[i]).len() + encode_entry(
            w.blocks[i + 1][0],
        ).len() > 4096,
{
    lemma_built_parts(start, s, full);
    lemma_flush_parts(full, w);
    lemma_blocks_filled(start, s, full);
    assert(block_fits(w.blocks[i]));
    if i < full.blocks.len() {
        assert(w.blocks[i] == full.blocks[i]);
        if i + 1 < full.blocks.len() {
            assert(w.blocks[i + 1] == full.blocks[i + 1]);
        }
    }
}

proof fn lemma_blocks_filled(start: WriterView, s: Seq<EntryView>, w: WriterView)
    requires
        start.blocks.len() == 0,
        start.pending.len() == 0,
        built(start, s, w),
    ensures
        forall|i: int|
            #![trigger w.blocks[i]]
            0 <= i && i + 1 < w.blocks.len() ==> encode_entries(w.blocks[i]).len() + encode_entry(
                w.blocks[i + 1][0],
            ).len() > BLOCK_SIZE,
        w.blocks.len() > 0 && w.pending.len() > 0 ==> encode_entries(w.blocks.last()).len()
            + encode_entry(w.pending[0]).len() > BLOCK_SIZE,
        w.blocks.len() > 0 ==> w.pending.len() > 0,
    decreases s.len(),
{
    if s.len() > 0 {
        let e = s.last();
        let before = choose|before: WriterView|
            {
                &&& built(start, s.drop_last(), before)
                &&& before.in_order(e.key)
                &&& #[trigger] before.adds(e, w)
            };
        lemma_blocks_filled(start, s.drop_last(), before);
        let noted = before.noted(e.key);
        if before.is_full_for(e) {
            let flushed = choose|flushed: WriterView|
                noted.flushes_to(flushed) && w == #[trigger] flushed.appended(e);
            let body = choose|body: Seq<u8>|
                noted.may_compress(Ok(body)) && flushed == #[trigger] noted.flushed(body);
            assert(w.blocks == before.blocks.push(before.pending));
            assert(w.pending =~= seq![e]);
            assert forall|i: int|
                #![trigger w.blocks[i]]
                0 <= i && i + 1 < w.blocks.len() implies encode_entries(w.blocks[i]).len()
                + encode_entry(w.blocks[i + 1][0]).len() > BLOCK_SIZE by {
                assert(w.blocks[i] == before.blocks[i]);
                if i + 1 < before.blocks.len() {
                    assert(w.blocks[i + 1] == before.blocks[i + 1]);
                }
            }
        } else if before.pending.len() > 0 {
            assert(w.pending[0] == before.pending[0]);
        }
    }
}

/// Law: a table begins with the settings of its builder, and with nothing written.
pub proof fn law_table_begins_with_its_settings(
    builder: SSTableBuilder,
    path: PathBuf,
    expected_entries: nat,
    bloom: BloomSizing,
    created_at: Timestamp,
)
    ensures
        ({
            let w = builder.start(path, expected_entries, bloom, created_at);
            &&& w.path == path
            &&& w.compression == builder.compression
            &&& w.level == builder.compression_level
            &&& w.created_at == created_at
            &&& w.bloom == new_bloom(expected_entries, bloom)
            &&& w.output.len() == 0
            &&& w.entries().len() == 0
            &&& w.index.len() == 0
            &&& w.entry_count == 0
            &&& w.min_key is None
            &&& w.max_key is None
        }),
{
}

} // verus!
