//! What holds of an engine as a whole.
use crate::bloom::{bounded_bits, BloomSizing};
use crate::config::CompressionType;
use crate::error::ErrorView;
use crate::le::lemma_le_bytes_len;
use crate::levels::{fresh_levels, sound_levels, tables_at};
use crate::memtable::{entry_of, MemTableView};
use crate::order::{key_in_range, key_less};
use crate::sorted::{absorb_all, entries_in, has_key, law_newest_entry_stays, table};
use crate::sstable::builder::{builds, law_ordering_keeps_entries, ordered};
use crate::sstable::format::block_entries;
use crate::sstable::laws::{gives, held, law_built_table_gives_entries, law_cache_is_transparent, readable};
use crate::sstable::reader::{index_consistent, opened, ReaderView};
use crate::sstable::writer::SSTableImage;
use crate::storage::compact::walked;
use crate::storage::scan::{level_items, lists, memtable_items, table_items};
use crate::storage::sequence::shows;
use crate::storage::{entry_within_limits, first_covering, found_in_level, found_on_disk, newest_memtable, newest_table, within_limits, EngineView, WriteStep};
use crate::{EntryView, Key, Timestamp, Value};
use std::path::PathBuf;
use vstd::prelude::*;

verus! {

/// Law: what was written for a key is what is found for it, a deleted key has no value, and the
/// values of all other keys stay as they were.
pub proof fn law_written_value_is_found(
    before: EngineView,
    after: EngineView,
    e: EntryView,
    key: Seq<u8>,
)
    requires
        before.wrote(after, e),
        !before.closed,
    ensures
        after.value_of(e.key) == Ok::<Option<Seq<u8>>, ErrorView>(e.value),
        key != e.key ==> after.value_of(key) == before.value_of(key),
{
}

/// Law: putting a full memtable aside changes nothing that is found.
pub proof fn law_rotation_changes_no_value(engine: EngineView, now: Timestamp, key: Seq<u8>)
    ensures
        engine.rotated(now).value_of(key) == engine.value_of(key),
{
    let after = engine.rotated(now);
    if engine.memtable.size >= engine.memtable.max_size {
        let aside = MemTableView { immutable: true, ..engine.memtable };
        assert(after.immutables.drop_last() =~= engine.immutables);
        assert(after.immutables.last() == aside);
        assert(!has_key(after.memtable.entries, key));
        assert(aside.lookup(key) == engine.memtable.lookup(key));
    }
}

/// Law: flushing changes no value: the table that is written of the oldest memtable that waits can
/// be opened, and with it in the first level, and the memtable gone, every key has the value that it
/// had.
///
/// The numbers of the entries and of the bits of the Bloom filter have to fit in four bytes.
/// Zstandard blocks have to be within the capacity that is set aside for them.
pub proof fn law_flush_changes_no_value(
    engine: EngineView,
    path: PathBuf,
    bloom: BloomSizing,
    created_at: Timestamp,
    image: SSTableImage,
    key: Seq<u8>,
)
    requires
        engine.memory_wf(),
        engine.config.complaint() is None,
        engine.immutables.len() > 0,
        engine.can_flush(engine.immutables[0], bloom),
        builds(
            engine.table_settings().start(
                path,
                engine.immutables[0].entries.len(),
                bloom,
                created_at,
            ),
            ordered(engine.immutables[0].entries),
            image,
        ),
    ensures
        opened(image.path, image.bytes@, engine.config.use_mmap) matches Ok(table) && gives(
            table,
            engine.immutables[0].entries,
        ) && engine.flushed(table).value_of(key) == engine.value_of(key),
{
    let m = engine.immutables[0];
    lemma_flushed_table(engine, m, path, bloom, created_at, image);
    let table = opened(image.path, image.bytes@, engine.config.use_mmap)->Ok_0;
    assert(table.lookup(key) == Ok::<Option<EntryView>, ErrorView>(m.lookup(key)));
    lemma_table_takes_over(engine, table, key);
}

impl EngineView {
    /// Whether the table that is written of a memtable is read back.
    pub open spec fn can_flush(self, m: MemTableView, bloom: BloomSizing) -> bool {
        &&& m.entries.len() <= u32::MAX
        &&& bounded_bits(bloom.bits as nat) <= u32::MAX
        &&& self.config.compression == CompressionType::Zstd ==> forall|i: int|
            0 <= i < m.entries.len() ==> readable(CompressionType::Zstd, #[trigger] m.entries[i])
    }

    /// The engine after the oldest memtable that waits has given way to a table.
    pub open spec fn flushed(self, table: ReaderView) -> EngineView {
        EngineView {
            levels: self.levels.insert(0, tables_at(self.levels, 0).push(table)),
            ..self.without_oldest()
        }
    }
}

/// The table that is written of a memtable gives back its entries.
proof fn lemma_flushed_table(
    engine: EngineView,
    m: MemTableView,
    path: PathBuf,
    bloom: BloomSizing,
    created_at: Timestamp,
    image: SSTableImage,
)
    requires
        m.wf(),
        within_limits(m.entries),
        engine.can_flush(m, bloom),
        builds(
            engine.table_settings().start(path, m.entries.len(), bloom, created_at),
            ordered(m.entries),
            image,
        ),
    ensures
        opened(image.path, image.bytes@, engine.config.use_mmap) matches Ok(table) && gives(
            table,
            m.entries,
        ),
{
    law_ordering_keeps_entries(m.entries);
    assert forall|i: int| 0 <= i < m.entries.len() implies readable(
        engine.config.compression,
        #[trigger] m.entries[i],
    ) by {
        assert(entry_within_limits(m.entries[i]));
        if engine.config.compression != CompressionType::Zstd {
            lemma_within_limits_is_readable(engine.config.compression, m.entries[i]);
        }
    }
    law_built_table_gives_entries(
        path,
        m.entries.len(),
        bloom,
        engine.config.compression,
        engine.config.compression_level,
        created_at,
        m.entries,
        image,
        engine.config.use_mmap,
    );
}

/// Entries within the limits are read back.
proof fn lemma_within_limits_is_readable(compression: CompressionType, e: EntryView)
    requires
        entry_within_limits(e),
        compression != CompressionType::Zstd,
    ensures
        readable(compression, e),
{
    lemma_le_bytes_len(e.key.len(), 4);
    lemma_le_bytes_len(e.timestamp as nat, 8);
    lemma_le_bytes_len(e.sequence as nat, 8);
    if let Some(v) = e.value {
        lemma_le_bytes_len(v.len(), 4);
    }
}

/// A table that gives for a key what the oldest memtable held takes its place.
proof fn lemma_table_takes_over(engine: EngineView, table: ReaderView, key: Seq<u8>)
    requires
        engine.immutables.len() > 0,
        engine.config.max_levels > 0,
        table.lookup(key) == Ok::<Option<EntryView>, ErrorView>(engine.immutables[0].lookup(key)),
    ensures
        engine.flushed(table).value_of(key) == engine.value_of(key),
{
    let after = engine.flushed(table);
    let max = engine.config.max_levels as nat;
    lemma_oldest_memtable(engine.immutables, key);
    lemma_levels_above(engine.levels, after.levels, 1, max, key);
    let tables = tables_at(engine.levels, 0);
    assert(tables_at(after.levels, 0) == tables.push(table));
    assert(tables.push(table).drop_last() =~= tables);
}

/// A search among memtables ends at the oldest one.
proof fn lemma_oldest_memtable(tables: Seq<MemTableView>, key: Seq<u8>)
    requires
        tables.len() > 0,
    ensures
        newest_memtable(tables, key) == (match newest_memtable(tables.drop_first(), key) {
            Some(e) => Some(e),
            None => tables[0].lookup(key),
        }),
    decreases tables.len(),
{
    if tables.len() == 1 {
        assert(tables.drop_last() =~= Seq::empty());
        assert(tables.drop_first() =~= Seq::empty());
    } else {
        lemma_oldest_memtable(tables.drop_last(), key);
        assert(tables.drop_last().drop_first() =~= tables.drop_first().drop_last());
    }
}

/// A search in levels that have the same tables finds the same.
pub proof fn lemma_levels_above(
    a: Map<usize, Seq<ReaderView>>,
    b: Map<usize, Seq<ReaderView>>,
    level: nat,
    max: nat,
    key: Seq<u8>,
)
    requires
        forall|l: usize| level <= l < max ==> tables_at(a, l) == #[trigger] tables_at(b, l),
        max <= usize::MAX,
    ensures
        found_on_disk(a, level, max, key) == found_on_disk(b, level, max, key),
    decreases max - level,
{
    if level < max {
        assert(tables_at(a, level as usize) == tables_at(b, level as usize));
        lemma_levels_above(a, b, level + 1, max, key);
    }
}

/// The value that a search in files gives.
pub open spec fn value_found(
    found: std::result::Result<Option<EntryView>, ErrorView>,
) -> std::result::Result<Option<Seq<u8>>, ErrorView> {
    match found {
        Ok(Some(e)) => Ok(e.value),
        Ok(None) => Ok(None),
        Err(e) => Err(e),
    }
}

/// Law: a closed engine refuses every read and every write.
pub proof fn law_closed_engine_refuses(
    engine: EngineView,
    key: Seq<u8>,
    value: Option<Seq<u8>>,
)
    requires
        engine.closed,
    ensures
        engine.value_of(key) == Err::<Option<Seq<u8>>, ErrorView>(ErrorView::Closed),
        engine.refusal(key, value) == Some(ErrorView::Closed),
{
}

/// Entries of a range lie in it.
proof fn lemma_entries_in_range(s: Seq<EntryView>, start: Seq<u8>, end: Seq<u8>)
    ensures
        all_in(entries_in(s, start, end), start, end),
    decreases s.len(),
{
    if s.len() > 0 {
        lemma_entries_in_range(s.drop_last(), start, end);
    }
}

/// Whether all keys lie in a range.
pub open spec fn all_in(s: Seq<EntryView>, start: Seq<u8>, end: Seq<u8>) -> bool {
    forall|i: int| 0 <= i < s.len() ==> key_in_range(#[trigger] s[i].key, start, end)
}

proof fn lemma_all_in_concat(a: Seq<EntryView>, b: Seq<EntryView>, start: Seq<u8>, end: Seq<u8>)
    requires
        all_in(a, start, end),
        all_in(b, start, end),
    ensures
        all_in(a + b, start, end),
{
    assert forall|i: int| 0 <= i < (a + b).len() implies key_in_range(
        #[trigger] (a + b)[i].key,
        start,
        end,
    ) by {
        if i < a.len() {
            assert((a + b)[i] == a[i]);
        } else {
            assert((a + b)[i] == b[i - a.len()]);
        }
    }
}

proof fn lemma_memtable_items_in(tables: Seq<MemTableView>, start: Seq<u8>, end: Seq<u8>)
    ensures
        all_in(memtable_items(tables, start, end), start, end),
    decreases tables.len(),
{
    if tables.len() > 0 {
        lemma_memtable_items_in(tables.drop_last(), start, end);
        lemma_entries_in_range(tables.last().entries, start, end);
        lemma_all_in_concat(
            entries_in(tables.last().entries, start, end),
            memtable_items(tables.drop_last(), start, end),
            start,
            end,
        );
    }
}

proof fn lemma_range_in_range(r: ReaderView, i: int, start: Seq<u8>, end: Seq<u8>)
    ensures
        r.range_in(i, start, end).0 matches Ok(s) ==> all_in(s, start, end),
    decreases r.index.len() - i,
{
    if i < r.index.len() && key_less(r.index[i].key, end) {
        if let Ok(block) = r.fetch(i) {
            if let Some(s) = block_entries(block) {
                let next = r.after_fetch(i);
                lemma_range_in_range(next, i + 1, start, end);
                lemma_entries_in_range(s, start, end);
                if let Ok(t) = next.range_in(i + 1, start, end).0 {
                    lemma_all_in_concat(entries_in(s, start, end), t, start, end);
                }
            }
        }
    }
}

proof fn lemma_table_items_in(tables: Seq<ReaderView>, i: int, start: Seq<u8>, end: Seq<u8>)
    ensures
        all_in(table_items(tables, i, start, end).0, start, end),
    decreases tables.len() - i,
{
    if i < tables.len() {
        let r = tables[i];
        lemma_range_in_range(r, r.first_block(start), start, end);
        lemma_table_items_in(tables, i + 1, start, end);
        if let Ok(s) = r.range_of(start, end).0 {
            lemma_all_in_concat(s, table_items(tables, i + 1, start, end).0, start, end);
        }
    }
}

proof fn lemma_level_items_in(
    levels: Map<usize, Seq<ReaderView>>,
    level: nat,
    max: nat,
    start: Seq<u8>,
    end: Seq<u8>,
)
    ensures
        all_in(level_items(levels, level, max, start, end).0, start, end),
    decreases max - level,
{
    if level < max {
        let tables = tables_at(levels, level as usize);
        lemma_table_items_in(tables, 0, start, end);
        lemma_level_items_in(levels, level + 1, max, start, end);
        lemma_all_in_concat(
            table_items(tables, 0, start, end).0,
            level_items(levels, level + 1, max, start, end).0,
            start,
            end,
        );
    }
}

/// Law: a scan lists keys of the range alone, in their order, each once, none with an empty value.
pub proof fn law_scan_stays_in_range(
    engine: EngineView,
    start: Seq<u8>,
    end: Seq<u8>,
    pairs: Seq<(Key, Value)>,
)
    requires
        lists(pairs, absorb_all(Map::empty(), engine.items(start, end).0)),
    ensures
        forall|i: int|
            0 <= i < pairs.len() ==> key_in_range((#[trigger] pairs[i]).0@, start, end)
                && pairs[i].1@.len() > 0,
        forall|i: int, j: int|
            0 <= i < j < pairs.len() ==> key_less((#[trigger] pairs[i]).0@, (#[trigger] pairs[j]).0@),
{
    let items = engine.items(start, end).0;
    let max = engine.config.max_levels as nat;
    lemma_entries_in_range(engine.memtable.entries, start, end);
    lemma_memtable_items_in(engine.immutables, start, end);
    lemma_level_items_in(engine.levels, 0, max, start, end);
    let b = memtable_items(engine.immutables, start, end);
    let c = level_items(engine.levels, 0, max, start, end).0;
    lemma_all_in_concat(b, c, start, end);
    lemma_all_in_concat(entries_in(engine.memtable.entries, start, end), b + c, start, end);
    assert forall|i: int| 0 <= i < pairs.len() implies key_in_range(
        (#[trigger] pairs[i]).0@,
        start,
        end,
    ) && pairs[i].1@.len() > 0 by {
        let key = pairs[i].0@;
        law_newest_entry_stays(items, key);
        let k = choose|k: int| 0 <= k < items.len() && #[trigger] items[k].key == key;
        assert(key_in_range(items[k].key, start, end));
    }
}

/// The entries of a range are those of the sequence whose keys lie in it.
pub proof fn lemma_entries_in_members(s: Seq<EntryView>, start: Seq<u8>, end: Seq<u8>, key: Seq<u8>)
    ensures
        forall|k: int|
            0 <= k < entries_in(s, start, end).len() ==> exists|j: int|
                0 <= j < s.len() && #[trigger] s[j] == #[trigger] entries_in(s, start, end)[k],
        key_in_range(key, start, end) && has_key(s, key) ==> has_key(
            entries_in(s, start, end),
            key,
        ),
    decreases s.len(),
{
    if s.len() > 0 {
        let t = s.drop_last();
        let p = entries_in(t, start, end);
        let q = entries_in(s, start, end);
        lemma_entries_in_members(t, start, end, key);
        assert forall|k: int| 0 <= k < q.len() implies exists|j: int|
            0 <= j < s.len() && #[trigger] s[j] == #[trigger] q[k] by {
            if k < p.len() {
                assert(q[k] == p[k]);
                let j = choose|j: int| 0 <= j < t.len() && #[trigger] t[j] == p[k];
                assert(s[j] == q[k]);
            } else {
                assert(s[s.len() - 1] == q[k]);
            }
        }
        if key_in_range(key, start, end) && has_key(s, key) {
            let j = choose|j: int| 0 <= j < s.len() && #[trigger] s[j].key == key;
            if j < t.len() {
                assert(t[j].key == key);
                let k = choose|k: int| 0 <= k < p.len() && #[trigger] p[k].key == key;
                assert(q[k].key == key);
            } else {
                assert(q[q.len() - 1].key == key);
            }
        }
    }
}

/// Whether in every table blocks at one place have one size.
pub open spec fn consistent(levels: Map<usize, Seq<ReaderView>>) -> bool {
    forall|level: usize, i: int|
        levels.contains_key(level) && 0 <= i < levels[level].len() ==> index_consistent(
            (#[trigger] levels[level][i]).index,
        )
}

/// Two readers of one file that have read only what is stored answer alike.
proof fn lemma_readers_agree(
    a: ReaderView,
    b: ReaderView,
    key: Seq<u8>,
    start: Seq<u8>,
    end: Seq<u8>,
)
    requires
        a.fresh() == b.fresh(),
        a.sound(),
        b.sound(),
        index_consistent(a.index),
    ensures
        a.lookup(key) == b.lookup(key),
        a.range_of(start, end).0 == b.range_of(start, end).0,
        a.meta == b.meta,
        a.stream(0) == b.stream(0),
{
    assert(a.index == a.fresh().index && b.index == b.fresh().index);
    assert(a.meta == a.fresh().meta && b.meta == b.fresh().meta);
    law_cache_is_transparent(a, key, start, end);
    law_cache_is_transparent(b, key, start, end);
}

/// Two sequences of readers of the same files.
spec fn alike(a: Seq<ReaderView>, b: Seq<ReaderView>) -> bool {
    &&& a.len() == b.len()
    &&& forall|i: int|
        0 <= i < a.len() ==> (#[trigger] a[i]).fresh() == b[i].fresh() && a[i].sound()
            && b[i].sound() && index_consistent(a[i].index)
}

proof fn lemma_alike_levels(
    a: Map<usize, Seq<ReaderView>>,
    b: Map<usize, Seq<ReaderView>>,
    level: usize,
)
    requires
        fresh_levels(a) == fresh_levels(b),
        sound_levels(a),
        sound_levels(b),
        consistent(a),
    ensures
        alike(tables_at(a, level), tables_at(b, level)),
{
    assert(a.contains_key(level) == fresh_levels(a).contains_key(level));
    assert(b.contains_key(level) == fresh_levels(b).contains_key(level));
    if a.contains_key(level) {
        let x = a[level];
        let y = b[level];
        assert(fresh_levels(a)[level] == fresh_levels(b)[level]);
        assert(fresh_levels(a)[level].len() == x.len());
        assert(fresh_levels(b)[level].len() == y.len());
        assert forall|i: int| 0 <= i < x.len() implies (#[trigger] x[i]).fresh() == y[i].fresh()
            && x[i].sound() && y[i].sound() && index_consistent(x[i].index) by {
            assert(fresh_levels(a)[level][i] == x[i].fresh());
            assert(fresh_levels(b)[level][i] == y[i].fresh());
            assert(a[level][i].sound());
            assert(b[level][i].sound());
        }
    }
}

proof fn lemma_alike_newest(a: Seq<ReaderView>, b: Seq<ReaderView>, key: Seq<u8>)
    requires
        alike(a, b),
    ensures
        newest_table(a, key) == newest_table(b, key),
    decreases a.len(),
{
    if a.len() > 0 {
        let n = a.len() - 1;
        assert(a[n].fresh() == b[n].fresh());
        lemma_readers_agree(a[n], b[n], key, key, key);
        assert(alike(a.drop_last(), b.drop_last())) by {
            assert forall|i: int| 0 <= i < n implies (#[trigger] a.drop_last()[i]).fresh()
                == b.drop_last()[i].fresh() && a.drop_last()[i].sound() && b.drop_last()[i].sound()
                && index_consistent(a.drop_last()[i].index) by {
                assert(a[i].fresh() == b[i].fresh());
            }
        }
        lemma_alike_newest(a.drop_last(), b.drop_last(), key);
    }
}

proof fn lemma_alike_covering(a: Seq<ReaderView>, b: Seq<ReaderView>, key: Seq<u8>, i: int)
    requires
        alike(a, b),
        0 <= i,
    ensures
        first_covering(a, key, i) == first_covering(b, key, i),
        i <= first_covering(a, key, i),
    decreases a.len() - i,
{
    if i < a.len() {
        assert(a[i].fresh() == b[i].fresh());
        assert(a[i].meta == a[i].fresh().meta && b[i].meta == b[i].fresh().meta);
        lemma_alike_covering(a, b, key, i + 1);
    }
}

proof fn lemma_alike_in_level(a: Seq<ReaderView>, b: Seq<ReaderView>, level: nat, key: Seq<u8>)
    requires
        alike(a, b),
    ensures
        found_in_level(a, level, key) == found_in_level(b, level, key),
{
    lemma_alike_newest(a, b, key);
    lemma_alike_covering(a, b, key, 0);
    let i = first_covering(a, key, 0);
    if i < a.len() {
        assert(a[i].fresh() == b[i].fresh());
        lemma_readers_agree(a[i], b[i], key, key, key);
    }
}

proof fn lemma_alike_found(
    a: Map<usize, Seq<ReaderView>>,
    b: Map<usize, Seq<ReaderView>>,
    level: nat,
    max: nat,
    key: Seq<u8>,
)
    requires
        fresh_levels(a) == fresh_levels(b),
        sound_levels(a),
        sound_levels(b),
        consistent(a),
    ensures
        found_on_disk(a, level, max, key) == found_on_disk(b, level, max, key),
    decreases max - level,
{
    if level < max {
        lemma_alike_levels(a, b, level as usize);
        lemma_alike_in_level(
            tables_at(a, level as usize),
            tables_at(b, level as usize),
            level,
            key,
        );
        lemma_alike_found(a, b, level + 1, max, key);
    }
}

proof fn lemma_alike_table_items(
    a: Seq<ReaderView>,
    b: Seq<ReaderView>,
    i: int,
    start: Seq<u8>,
    end: Seq<u8>,
)
    requires
        alike(a, b),
        0 <= i,
    ensures
        table_items(a, i, start, end) == table_items(b, i, start, end),
    decreases a.len() - i,
{
    if i < a.len() {
        assert(a[i].fresh() == b[i].fresh());
        lemma_readers_agree(a[i], b[i], start, start, end);
        lemma_alike_table_items(a, b, i + 1, start, end);
    }
}

proof fn lemma_alike_items(
    a: Map<usize, Seq<ReaderView>>,
    b: Map<usize, Seq<ReaderView>>,
    level: nat,
    max: nat,
    start: Seq<u8>,
    end: Seq<u8>,
)
    requires
        fresh_levels(a) == fresh_levels(b),
        sound_levels(a),
        sound_levels(b),
        consistent(a),
    ensures
        level_items(a, level, max, start, end) == level_items(b, level, max, start, end),
    decreases max - level,
{
    if level < max {
        lemma_alike_levels(a, b, level as usize);
        lemma_alike_table_items(
            tables_at(a, level as usize),
            tables_at(b, level as usize),
            0,
            start,
            end,
        );
        lemma_alike_items(a, b, level + 1, max, start, end);
    }
}

proof fn lemma_alike_walked(a: Seq<ReaderView>, b: Seq<ReaderView>, i: int)
    requires
        alike(a, b),
        0 <= i,
    ensures
        walked(a, i) == walked(b, i),
    decreases a.len() - i,
{
    if i < a.len() {
        assert(a[i].fresh() == b[i].fresh());
        lemma_readers_agree(a[i], b[i], Seq::empty(), Seq::empty(), Seq::empty());
        lemma_alike_walked(a, b, i + 1);
    }
}

/// What a level shows does not depend on what was read of its tables.
pub proof fn lemma_alike_shows(
    a: Map<usize, Seq<ReaderView>>,
    b: Map<usize, Seq<ReaderView>>,
    level: usize,
    s: Seq<EntryView>,
)
    requires
        fresh_levels(a) == fresh_levels(b),
        sound_levels(a),
        sound_levels(b),
        consistent(a),
        shows(tables_at(a, level), level as nat, s),
    ensures
        shows(tables_at(b, level), level as nat, s),
{
    let x = tables_at(a, level);
    let y = tables_at(b, level);
    lemma_alike_levels(a, b, level);
    lemma_alike_walked(x, y, 0);
    assert forall|start: Seq<u8>, end: Seq<u8>| #[trigger]
        table_items(y, 0, start, end) == (entries_in(s, start, end), None::<ErrorView>) by {
        lemma_alike_table_items(x, y, 0, start, end);
    }
    assert forall|key: Seq<u8>| #[trigger]
        found_in_level(y, level as nat, key) == Ok::<Option<EntryView>, ErrorView>(
            held(absorb_all(Map::empty(), s), key),
        ) by {
        lemma_alike_in_level(x, y, level as nat, key);
    }
}

/// Law: reading changes no answer: an engine from which a search or a scan has read answers every
/// search and every scan as it did before, where in its tables blocks at one place have one size.
pub proof fn law_reading_changes_no_answer(
    before: EngineView,
    after: EngineView,
    key: Seq<u8>,
    start: Seq<u8>,
    end: Seq<u8>,
)
    requires
        sound_levels(before.levels),
        sound_levels(after.levels),
        after.fresh() == before.fresh(),
        consistent(before.levels),
    ensures
        after.value_of(key) == before.value_of(key),
        after.items(start, end) == before.items(start, end),
{
    let max = before.config.max_levels as nat;
    assert(fresh_levels(after.levels) == after.fresh().levels);
    assert(fresh_levels(before.levels) == before.fresh().levels);
    assert(after.memtable == after.fresh().memtable && before.memtable == before.fresh().memtable);
    assert(after.immutables == after.fresh().immutables && before.immutables
        == before.fresh().immutables);
    assert(after.config == after.fresh().config && before.config == before.fresh().config);
    assert(after.closed == after.fresh().closed && before.closed == before.fresh().closed);
    lemma_alike_found(before.levels, after.levels, 0, max, key);
    lemma_alike_items(before.levels, after.levels, 0, max, start, end);
}

/// Law: a value that was put for a key is the value of that key afterwards, all of it; a key that was
/// deleted has none; and no other key changes its value.
pub proof fn law_put_value_is_got_back(
    before: EngineView,
    made: Timestamp,
    now: Timestamp,
    after: EngineView,
    key: Seq<u8>,
    value: Option<Seq<u8>>,
    other: Seq<u8>,
)
    requires
        !before.closed,
        before.rotated(made).goes_on(key, value, now, WriteStep::Done, after),
    ensures
        after.value_of(key) == Ok::<Option<Seq<u8>>, ErrorView>(value),
        other != key ==> after.value_of(other) == before.value_of(other),
{
    law_rotation_changes_no_value(before, made, other);
    let e = entry_of(key, value, now, before.rotated(made).memtable.sequence);
    law_written_value_is_found(before.rotated(made), after, e, other);
}

/// Law: a write is refused exactly where the engine is closed, the key has more than 1024 bytes, or
/// the value has more than 1048576; the error says which, with both lengths.
pub proof fn law_only_large_writes_are_refused(
    engine: EngineView,
    key: Seq<u8>,
    value: Option<Seq<u8>>,
)
    requires
        key.len() <= usize::MAX,
        value matches Some(v) ==> v.len() <= usize::MAX,
    ensures
        engine.refusal(key, value) is None <==> !engine.closed && key.len() <= 1024 && (
        value matches Some(v) ==> v.len() <= 1_048_576),
        engine.closed ==> engine.refusal(key, value) == Some(ErrorView::Closed),
        !engine.closed && key.len() > 1024 ==> (engine.refusal(key, value) matches Some(
            ErrorView::InvalidKeySize { size, max_size },
        ) && size == key.len() && max_size == 1024),
        !engine.closed && key.len() <= 1024 ==> (value matches Some(v) ==> v.len() > 1_048_576 ==> (
        engine.refusal(key, value) matches Some(ErrorView::InvalidValueSize { size, max_size })
            && size == v.len() && max_size == 1_048_576)),
{
}

/// Law: a memtable that has reached its size is put aside with all of its entries, behind those that
/// wait, and a new one that is empty takes the next writes, with numbers that were not given out; one
/// that has not is kept.
pub proof fn law_full_memtable_is_put_aside(engine: EngineView, now: Timestamp)
    ensures
        ({
            let after = engine.rotated(now);
            let full = engine.memtable.size >= engine.memtable.max_size;
            &&& !full ==> after == engine
            &&& full ==> {
                &&& after.immutables.len() == engine.immutables.len() + 1
                &&& after.immutables.drop_last() == engine.immutables
                &&& after.immutables.last().entries == engine.memtable.entries
                &&& after.immutables.last().size == engine.memtable.size
                &&& after.immutables.last().sequence == engine.memtable.sequence
                &&& after.immutables.last().created_at == engine.memtable.created_at
                &&& after.immutables.last().immutable
                &&& after.memtable.entries.len() == 0
                &&& after.memtable.size == 0
                &&& !after.memtable.immutable
                &&& after.memtable.max_size == engine.config.memtable_size_threshold
                &&& after.memtable.created_at == now
                &&& after.memtable.sequence >= engine.memtable.sequence
                &&& after.memtable.sequence >= engine.sequence
                &&& after.memtable.sequence == engine.memtable.sequence || after.memtable.sequence
                    == engine.sequence
                &&& engine.sequence < u64::MAX ==> after.sequence == engine.sequence + 1
            }
            &&& after.config == engine.config
            &&& after.levels == engine.levels
            &&& after.closed == engine.closed
        }),
{
    assert(engine.immutables.push(
        MemTableView { immutable: true, ..engine.memtable },
    ).drop_last() =~= engine.immutables);
}

/// Law: a write asks for a flush exactly where the memtable is full and as many wait as may; the
/// memtable that is handed out is then the one that waits longest, and all others stay.
pub proof fn law_flush_is_asked_for_in_time(
    before: EngineView,
    made: Timestamp,
    now: Timestamp,
    step: WriteStep,
    after: EngineView,
    key: Seq<u8>,
    value: Option<Seq<u8>>,
)
    requires
        before.wf(),
        before.rotated(made).goes_on(key, value, now, step, after),
    ensures
        step is Flush <==> before.memtable.size >= before.memtable.max_size
            && before.immutables.len() == before.config.max_memtables,
        step matches WriteStep::Flush(m) ==> {
            let all = before.immutables.map_values(|t: MemTableView| t.entries).push(
                before.memtable.entries,
            );
            &&& m@.entries == all[0]
            &&& after.immutables.map_values(|t: MemTableView| t.entries) == all.drop_first()
            &&& after.memtable.entries.len() == 0
            &&& after.levels == before.levels
        },
{
    if step is Flush {
        let all = before.immutables.map_values(|t: MemTableView| t.entries).push(
            before.memtable.entries,
        );
        assert(after.immutables.map_values(|t: MemTableView| t.entries) =~= all.drop_first());
    }
}

/// Law: a write leaves an entry in memory that has its key, its value, the time of the write and the
/// next number.
pub proof fn law_written_entry_is_in_memory(
    before: EngineView,
    made: Timestamp,
    now: Timestamp,
    after: EngineView,
    key: Seq<u8>,
    value: Option<Seq<u8>>,
)
    requires
        before.rotated(made).goes_on(key, value, now, WriteStep::Done, after),
    ensures
        after.found_in_memory(key) matches Some(e) && {
            &&& e.key == key
            &&& e.value == value
            &&& e.timestamp == now
            &&& e.sequence >= before.memtable.sequence
            &&& before.memtable.size < before.memtable.max_size ==> e.sequence
                == before.memtable.sequence
            &&& e.sequence < u64::MAX ==> after.memtable.sequence == e.sequence + 1
        },
{
}

/// Law: a search looks into the memtable, then into those that wait, the newest first, and then into
/// the files, level by level; the first entry that is found counts, and one that marks a deletion has
/// no value.
pub proof fn law_newest_place_is_searched_first(
    engine: EngineView,
    waiting: MemTableView,
    key: Seq<u8>,
)
    requires
        !engine.closed,
    ensures
        engine.memtable.lookup(key) matches Some(e) ==> engine.value_of(key) == Ok::<
            Option<Seq<u8>>,
            ErrorView,
        >(e.value),
        ({
            let more = EngineView { immutables: engine.immutables.push(waiting), ..engine };
            engine.memtable.lookup(key) is None ==> match waiting.lookup(key) {
                Some(e) => more.value_of(key) == Ok::<Option<Seq<u8>>, ErrorView>(e.value),
                None => more.value_of(key) == engine.value_of(key),
            }
        }),
        engine.memtable.lookup(key) is None && engine.immutables.len() == 0 ==> engine.value_of(key)
            == (match found_on_disk(engine.levels, 0, engine.config.max_levels as nat, key) {
            Ok(Some(e)) => Ok(e.value),
            Ok(None) => Ok(None),
            Err(e) => Err(e),
        }),
{
    assert(engine.immutables.push(waiting).drop_last() =~= engine.immutables);
}

/// Law: in the files the levels are searched from the first to the last, and the tables of the first
/// level from the newest on; a table that cannot be read ends the search with its error.
pub proof fn law_levels_are_searched_in_turn(
    levels: Map<usize, Seq<ReaderView>>,
    level: nat,
    max: nat,
    tables: Seq<ReaderView>,
    table: ReaderView,
    key: Seq<u8>,
)
    ensures
        level >= max ==> found_on_disk(levels, level, max, key) == Ok::<
            Option<EntryView>,
            ErrorView,
        >(None),
        level < max ==> found_on_disk(levels, level, max, key) == (match found_in_level(
            tables_at(levels, level as usize),
            level,
            key,
        ) {
            Ok(None) => found_on_disk(levels, level + 1, max, key),
            found => found,
        }),
        found_in_level(tables.push(table), 0, key) == (match table.lookup(key) {
            Ok(None) => found_in_level(tables, 0, key),
            found => found,
        }),
        found_in_level(Seq::empty(), 0, key) == Ok::<Option<EntryView>, ErrorView>(None),
{
    assert(tables.push(table).drop_last() =~= tables);
}

/// Law: in a level but the first the table is searched whose first and last key enclose the key, the
/// first of several; where there is none, nothing is found.
pub proof fn law_enclosing_table_is_searched(
    tables: Seq<ReaderView>,
    level: nat,
    key: Seq<u8>,
    at: int,
)
    requires
        level > 0,
        0 <= at <= tables.len(),
        forall|i: int|
            0 <= i < at ==> key_less(key, (#[trigger] tables[i]).meta.min_key) || key_less(
                tables[i].meta.max_key,
                key,
            ),
        at < tables.len() ==> !key_less(key, tables[at].meta.min_key) && !key_less(
            tables[at].meta.max_key,
            key,
        ),
    ensures
        at < tables.len() ==> found_in_level(tables, level, key) == tables[at].lookup(key),
        at == tables.len() ==> found_in_level(tables, level, key) == Ok::<
            Option<EntryView>,
            ErrorView,
        >(None),
{
    lemma_covering_at(tables, key, 0, at);
}

proof fn lemma_covering_at(tables: Seq<ReaderView>, key: Seq<u8>, i: int, at: int)
    requires
        0 <= i <= at <= tables.len(),
        forall|j: int|
            i <= j < at ==> key_less(key, (#[trigger] tables[j]).meta.min_key) || key_less(
                tables[j].meta.max_key,
                key,
            ),
        at < tables.len() ==> !key_less(key, tables[at].meta.min_key) && !key_less(
            tables[at].meta.max_key,
            key,
        ),
    ensures
        first_covering(tables, key, i) == at,
    decreases at - i,
{
    if i < at {
        assert(key_less(key, tables[i].meta.min_key) || key_less(tables[i].meta.max_key, key));
        lemma_covering_at(tables, key, i + 1, at);
    }
}

/// Law: a memtable can be flushed where its entries and the bits of its filter can be counted in four
/// bytes; with Zstandard each of its entries has to be small enough too. The table that is written of
/// it comes behind those of the first level.
pub proof fn law_usual_memtables_can_be_flushed(
    engine: EngineView,
    m: MemTableView,
    bloom: BloomSizing,
    table: ReaderView,
)
    requires
        m.entries.len() <= u32::MAX,
        bloom.bits <= u32::MAX,
        engine.config.compression == CompressionType::Zstd ==> forall|i: int|
            0 <= i < m.entries.len() ==> (#[trigger] m.entries[i]).size() <= 16_300
                && m.entries[i].key.len() <= 1024,
    ensures
        engine.can_flush(m, bloom),
        engine.immutables.len() > 0 ==> {
            let after = engine.flushed(table);
            &&& after.immutables == engine.immutables.drop_first()
            &&& tables_at(after.levels, 0) == tables_at(engine.levels, 0).push(table)
            &&& after.memtable == engine.memtable
            &&& after.config == engine.config
            &&& forall|l: usize|
                l > 0 ==> #[trigger] tables_at(after.levels, l) == tables_at(engine.levels, l)
        },
{
    if engine.config.compression == CompressionType::Zstd {
        assert forall|i: int| 0 <= i < m.entries.len() implies readable(
            CompressionType::Zstd,
            #[trigger] m.entries[i],
        ) by {
            assert(m.entries[i].size() <= 16_300);
            crate::sstable::laws::law_usual_entries_are_read_back(m.entries[i]);
        }
    }
}

/// Law: entries are within the limits where their keys have up to 1024 bytes and their values up to
/// 1048576.
pub proof fn law_limits_are_those_of_writes(s: Seq<EntryView>)
    ensures
        within_limits(s) <==> forall|i: int|
            0 <= i < s.len() ==> (#[trigger] s[i]).key.len() <= 1024 && (s[i].value matches Some(v)
                ==> v.len() <= 1_048_576),
{
    if forall|i: int|
        0 <= i < s.len() ==> (#[trigger] s[i]).key.len() <= 1024 && (s[i].value matches Some(v)
            ==> v.len() <= 1_048_576) {
        assert forall|i: int| 0 <= i < s.len() implies entry_within_limits(#[trigger] s[i]) by {
            assert(s[i].key.len() <= 1024);
        }
    }
    if within_limits(s) {
        assert forall|i: int| 0 <= i < s.len() implies (#[trigger] s[i]).key.len() <= 1024 && (
        s[i].value matches Some(v) ==> v.len() <= 1_048_576) by {
            assert(entry_within_limits(s[i]));
        }
    }
}

/// Law: the tables of some levels are consistent where no two blocks of one table stand at one place
/// with different sizes; a table that gives its entries is.
pub proof fn law_usual_tables_are_consistent(
    levels: Map<usize, Seq<ReaderView>>,
    r: ReaderView,
    s: Seq<EntryView>,
)
    ensures
        gives(r, s) ==> index_consistent(r.index) && r.sound(),
        (forall|level: usize, i: int|
            levels.contains_key(level) && 0 <= i < levels[level].len() ==> index_consistent(
                (#[trigger] levels[level][i]).index,
            )) ==> consistent(levels),
        (forall|i: int, j: int|
            0 <= i < r.index.len() && 0 <= j < r.index.len() && (#[trigger] r.index[i]).offset == (
            #[trigger] r.index[j]).offset ==> r.index[i].size == r.index[j].size)
            ==> index_consistent(r.index),
{
}

/// Law: an engine with nothing read of its files is the same engine but for what it has read.
pub proof fn law_fresh_engine_has_read_nothing(engine: EngineView, level: usize, i: int)
    ensures
        engine.fresh().config == engine.config,
        engine.fresh().memtable == engine.memtable,
        engine.fresh().immutables == engine.immutables,
        engine.fresh().sequence == engine.sequence,
        engine.fresh().closed == engine.closed,
        engine.fresh().levels.dom() == engine.levels.dom(),
        engine.levels.contains_key(level) ==> engine.fresh().levels[level].len()
            == engine.levels[level].len(),
        engine.levels.contains_key(level) && 0 <= i < engine.levels[level].len()
            ==> engine.fresh().levels[level][i] == engine.levels[level][i].fresh(),
{
    assert(engine.fresh().levels.dom() =~= engine.levels.dom());
}

} // verus!
