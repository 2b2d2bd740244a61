//! What holds of a level into which another one was merged.
use crate::bloom::{bounded_bits, BloomSizing};
use crate::error::ErrorView;
use crate::levels::tables_at;
use crate::order::{key_less, law_key_less_irreflexive, law_key_less_total};
use crate::sorted::{absorb_all, entries_in, has_key, lemma_table_entry, sorted, table};
use crate::sstable::builder::builds;
use crate::sstable::laws::{gives, held, law_built_table_gives_entries, lemma_entries_in_concat, lemma_joined_at, lemma_joined_find, lemma_joined_front, lemma_joined_grows, readable, spans};
use crate::sstable::reader::{opened, ReaderView};
use crate::sstable::writer::{joined, SSTableImage};
use crate::storage::compact::{groups, law_groups_keep_entries, lemma_walked_concat, live, walked};
use crate::storage::laws::{lemma_levels_above, value_found};
use crate::storage::scan::table_items;
use crate::storage::sequence::{lemma_absorb_older, lemma_absorb_sorted, lemma_merge_keeps_sequence, lemma_newest_is_held, older, shows};
use crate::storage::{covers, first_covering, found_in_level, found_on_disk, EngineView};
use crate::{EntryView, Timestamp};
use std::path::PathBuf;
use vstd::prelude::*;

verus! {

impl EngineView {
    /// Whether a table was opened from a file that was written of the entries of `s` with the
    /// settings of this engine. The number of the bits of the Bloom filter fits in four bytes.
    pub open spec fn writes_table(self, s: Seq<EntryView>, table: ReaderView) -> bool {
        exists|path: PathBuf, n: nat, bloom: BloomSizing, created_at: Timestamp, image: SSTableImage|
            {
                &&& #[trigger] builds(
                    self.table_settings().start(path, n, bloom, created_at),
                    s,
                    image,
                )
                &&& bounded_bits(bloom.bits as nat) <= u32::MAX
                &&& opened(image.path, image.bytes@, self.config.use_mmap) == Ok::<
                    ReaderView,
                    ErrorView,
                >(table)
            }
    }

    /// Whether tables were written of entries for a level, one of each group of them.
    pub open spec fn writes_level(
        self,
        entries: Seq<EntryView>,
        level: usize,
        tables: Seq<ReaderView>,
    ) -> bool {
        let parts = groups(entries, self.table_target(level));
        &&& tables.len() == parts.len()
        &&& forall|i: int|
            0 <= i < parts.len() ==> self.writes_table(parts[i], #[trigger] tables[i])
    }

    /// Whether the tables that are written of entries for a level are read back: the number of the
    /// entries of each fits in four bytes, and each entry is read back.
    pub open spec fn reads_entries(self, entries: Seq<EntryView>, level: usize) -> bool {
        let parts = groups(entries, self.table_target(level));
        &&& forall|i: int| 0 <= i < parts.len() ==> (#[trigger] parts[i]).len() <= u32::MAX
        &&& forall|i: int|
            0 <= i < entries.len() ==> readable(self.config.compression, #[trigger] entries[i])
    }

    /// Whether these are the entries that merging a level into the next one keeps, in the order of
    /// their keys.
    pub open spec fn merges(self, level: usize, entries: Seq<EntryView>) -> bool {
        &&& sorted(entries)
        &&& table(entries) == live(
            absorb_all(Map::empty(), walked(self.merge_inputs(level), 0).0),
        )
    }

    /// Whether merging a level into the next one brings to light a value that was deleted: the two
    /// levels have the newest entry for the key, it marks a deletion, and a level below has a value.
    pub open spec fn revives(self, level: usize, key: Seq<u8>) -> bool {
        let mid = level as nat + 2;
        &&& self.found_in_memory(key) is None
        &&& found_on_disk(self.levels, 0, level as nat, key) == Ok::<Option<EntryView>, ErrorView>(
            None,
        )
        &&& found_on_disk(self.levels, level as nat, mid, key) matches Ok(Some(e))
        &&& e.value is None
        &&& value_found(found_on_disk(self.levels, mid, self.config.max_levels as nat, key))
            != Ok::<Option<Seq<u8>>, ErrorView>(None)
    }
}

/// Law: the tables that are written of entries in the order of their keys, for a level but the
/// first, show exactly these entries.
pub proof fn law_written_level_shows_entries(
    engine: EngineView,
    entries: Seq<EntryView>,
    level: usize,
    tables: Seq<ReaderView>,
)
    requires
        level > 0,
        sorted(entries),
        engine.reads_entries(entries, level),
        engine.writes_level(entries, level, tables),
    ensures
        shows(tables, level as nat, entries),
{
    let target = engine.table_target(level);
    let parts = groups(entries, target);
    law_groups_keep_entries(entries, target);
    assert forall|i: int| 0 <= i < parts.len() implies gives(#[trigger] tables[i], parts[i])
        && spans(tables[i], parts[i]) by {
        lemma_written_table(engine, entries, parts, i, tables[i]);
    }
    lemma_parts_are_shown(tables, parts, level as nat);
}

/// The table that is written of a group of entries gives back the group.
proof fn lemma_written_table(
    engine: EngineView,
    entries: Seq<EntryView>,
    parts: Seq<Seq<EntryView>>,
    i: int,
    table: ReaderView,
)
    requires
        joined(parts) == entries,
        0 <= i < parts.len(),
        0 < parts[i].len() <= u32::MAX,
        forall|j: int|
            0 <= j < entries.len() ==> readable(engine.config.compression, #[trigger] entries[j]),
        engine.writes_table(parts[i], table),
    ensures
        gives(table, parts[i]),
        spans(table, parts[i]),
{
    let s = parts[i];
    let (path, n, bloom, created_at, image) = choose|
        path: PathBuf,
        n: nat,
        bloom: BloomSizing,
        created_at: Timestamp,
        image: SSTableImage,
    |
        {
            &&& #[trigger] builds(
                engine.table_settings().start(path, n, bloom, created_at),
                s,
                image,
            )
            &&& bounded_bits(bloom.bits as nat) <= u32::MAX
            &&& opened(image.path, image.bytes@, engine.config.use_mmap) == Ok::<
                ReaderView,
                ErrorView,
            >(table)
        };
    assert forall|j: int| 0 <= j < s.len() implies readable(
        engine.config.compression,
        #[trigger] s[j],
    ) by {
        lemma_joined_at(parts, i, j);
    }
    lemma_joined_at(parts, i, 0);
    law_built_table_gives_entries(
        path,
        n,
        bloom,
        engine.config.compression,
        engine.config.compression_level,
        created_at,
        s,
        image,
        engine.config.use_mmap,
    );
}

/// Tables that give parts of entries in the order of their keys show all of them.
proof fn lemma_parts_are_shown(
    tables: Seq<ReaderView>,
    parts: Seq<Seq<EntryView>>,
    level: nat,
)
    requires
        level > 0,
        tables.len() == parts.len(),
        sorted(joined(parts)),
        forall|i: int| 0 <= i < parts.len() ==> (#[trigger] parts[i]).len() > 0,
        forall|i: int|
            0 <= i < parts.len() ==> gives(#[trigger] tables[i], parts[i]) && spans(
                tables[i],
                parts[i],
            ),
    ensures
        shows(tables, level, joined(parts)),
{
    let s = joined(parts);
    assert(parts.skip(0) =~= parts);
    lemma_parts_walked(tables, parts, 0);
    assert forall|start: Seq<u8>, end: Seq<u8>| #[trigger]
        table_items(tables, 0, start, end) == (entries_in(s, start, end), None::<ErrorView>) by {
        lemma_parts_items(tables, parts, 0, start, end);
    }
    assert forall|key: Seq<u8>| #[trigger]
        found_in_level(tables, level, key) == Ok::<Option<EntryView>, ErrorView>(
            held(absorb_all(Map::empty(), s), key),
        ) by {
        lemma_absorb_sorted(s, key);
        if has_key(s, key) {
            let k = choose|k: int| 0 <= k < s.len() && #[trigger] s[k].key == key;
            lemma_part_covers(tables, parts, k);
            lemma_table_entry(s, k);
        } else {
            let i = first_covering(tables, key, 0);
            lemma_first_covering_from(tables, key, 0);
            if i < tables.len() {
                assert(tables[i].lookup(key) == Ok::<Option<EntryView>, ErrorView>(
                    held(table(parts[i]), key),
                ));
                if has_key(parts[i], key) {
                    let j = choose|j: int| 0 <= j < parts[i].len() && #[trigger] parts[i][j].key
                        == key;
                    lemma_joined_at(parts, i, j);
                    assert(s[joined(parts.take(i)).len() + j].key == key);
                }
            }
        }
    }
}

proof fn lemma_parts_walked(tables: Seq<ReaderView>, parts: Seq<Seq<EntryView>>, i: int)
    requires
        0 <= i <= parts.len(),
        tables.len() == parts.len(),
        forall|i: int| 0 <= i < parts.len() ==> gives(#[trigger] tables[i], parts[i]),
    ensures
        walked(tables, i) == (joined(parts.skip(i)), None::<ErrorView>),
    decreases parts.len() - i,
{
    if i < parts.len() {
        lemma_parts_walked(tables, parts, i + 1);
        assert(gives(tables[i], parts[i]));
        lemma_joined_front(parts.skip(i));
        assert(parts.skip(i).drop_first() =~= parts.skip(i + 1));
    } else {
        assert(parts.skip(i) =~= Seq::empty());
    }
}

proof fn lemma_parts_items(
    tables: Seq<ReaderView>,
    parts: Seq<Seq<EntryView>>,
    i: int,
    start: Seq<u8>,
    end: Seq<u8>,
)
    requires
        0 <= i <= parts.len(),
        tables.len() == parts.len(),
        forall|i: int| 0 <= i < parts.len() ==> gives(#[trigger] tables[i], parts[i]),
    ensures
        table_items(tables, i, start, end) == (
            entries_in(joined(parts.skip(i)), start, end),
            None::<ErrorView>,
        ),
    decreases parts.len() - i,
{
    if i < parts.len() {
        lemma_parts_items(tables, parts, i + 1, start, end);
        assert(gives(tables[i], parts[i]));
        assert(tables[i].range_of(start, end).0 == Ok::<Seq<EntryView>, ErrorView>(
            entries_in(parts[i], start, end),
        ));
        lemma_joined_front(parts.skip(i));
        assert(parts.skip(i).drop_first() =~= parts.skip(i + 1));
        lemma_entries_in_concat(parts[i], joined(parts.skip(i + 1)), start, end);
    } else {
        assert(parts.skip(i) =~= Seq::empty());
    }
}

/// The first table from `i` on that covers a key is one from there on, or none.
proof fn lemma_first_covering_from(tables: Seq<ReaderView>, key: Seq<u8>, i: int)
    requires
        0 <= i <= tables.len(),
    ensures
        i <= first_covering(tables, key, i) <= tables.len(),
    decreases tables.len() - i,
{
    if i < tables.len() && !covers(tables[i], key) {
        lemma_first_covering_from(tables, key, i + 1);
    }
}

/// The first table that covers a key is the one that does where none before does.
proof fn lemma_first_covering_is(tables: Seq<ReaderView>, key: Seq<u8>, i: int, p: int)
    requires
        0 <= i <= p < tables.len(),
        covers(tables[p], key),
        forall|j: int| i <= j < p ==> !covers(#[trigger] tables[j], key),
    ensures
        first_covering(tables, key, i) == p,
    decreases p - i,
{
    if i < p {
        assert(!covers(tables[i], key));
        lemma_first_covering_is(tables, key, i + 1, p);
    }
}

/// Of the parts of entries in order, the one that has an entry is the first that covers its key, and
/// finds it.
proof fn lemma_part_covers(tables: Seq<ReaderView>, parts: Seq<Seq<EntryView>>, k: int)
    requires
        tables.len() == parts.len(),
        sorted(joined(parts)),
        0 <= k < joined(parts).len(),
        forall|i: int| 0 <= i < parts.len() ==> (#[trigger] parts[i]).len() > 0,
        forall|i: int|
            0 <= i < parts.len() ==> gives(#[trigger] tables[i], parts[i]) && spans(
                tables[i],
                parts[i],
            ),
    ensures
        ({
            let e = joined(parts)[k];
            let i = first_covering(tables, e.key, 0);
            &&& 0 <= i < tables.len()
            &&& tables[i].lookup(e.key) == Ok::<Option<EntryView>, ErrorView>(Some(e))
        }),
{
    let s = joined(parts);
    let e = s[k];
    let (p, q) = lemma_joined_find(parts, k);
    let part = parts[p];
    let n = part.len() as int;
    let base = joined(parts.take(p)).len() as int;
    assert(gives(tables[p], part) && spans(tables[p], part));
    lemma_joined_at(parts, p, 0);
    lemma_joined_at(parts, p, q);
    lemma_joined_at(parts, p, n - 1);
    if q > 0 {
        assert(key_less(s[base].key, s[base + q].key));
    }
    if q < n - 1 {
        assert(key_less(s[base + q].key, s[base + n - 1].key));
    }
    law_key_less_total(part[0].key, e.key);
    law_key_less_total(e.key, part.last().key);
    law_key_less_irreflexive(e.key);
    assert(covers(tables[p], e.key));
    assert forall|j: int| 0 <= j < p implies !covers(#[trigger] tables[j], e.key) by {
        let m = parts[j].len() as int;
        assert(gives(tables[j], parts[j]) && spans(tables[j], parts[j]));
        lemma_joined_at(parts, j, m - 1);
        lemma_joined_grows(parts, j, p);
        let r = joined(parts.take(j)).len() + m - 1;
        assert(key_less(s[r].key, s[base + q].key));
        law_key_less_total(s[r].key, e.key);
    }
    lemma_first_covering_is(tables, e.key, 0, p);
    assert(sorted(part)) by {
        assert forall|a: int, b: int| 0 <= a < b < part.len() implies key_less(
            #[trigger] part[a].key,
            #[trigger] part[b].key,
        ) by {
            lemma_joined_at(parts, p, a);
            lemma_joined_at(parts, p, b);
            assert(key_less(s[base + a].key, s[base + b].key));
        }
    }
    lemma_table_entry(part, q);
}

/// Law: merging a level into the next one changes no value: with the tables that are written of what
/// the merge keeps, every key has the value that it had.
///
/// A mark of a deletion leaves with the merge, also where a level below the two has a value for the
/// key, which comes to light then: such keys are left out. There are none where the two are the last
/// levels.
pub proof fn law_compaction_changes_no_value(
    engine: EngineView,
    contents: Seq<Seq<EntryView>>,
    level: usize,
    entries: Seq<EntryView>,
    tables: Seq<ReaderView>,
    key: Seq<u8>,
)
    requires
        engine.stores(contents),
        engine.in_sequence(contents),
        level + 1 < engine.config.max_levels,
        engine.merges(level, entries),
        engine.reads_entries(entries, (level + 1) as usize),
        engine.writes_level(entries, (level + 1) as usize, tables),
        !engine.revives(level, key),
    ensures
        engine.merged(level, tables).value_of(key) == engine.value_of(key),
{
    let after = engine.merged(level, tables);
    let max = engine.config.max_levels as nat;
    let l = level as nat;
    law_written_level_shows_entries(engine, entries, (level + 1) as usize, tables);
    lemma_merged_search(engine, contents, level, entries, tables, key);
    lemma_levels_above(engine.levels, after.levels, l + 2, max, key);
    lemma_levels_above(engine.levels, after.levels, 0, l, key);
    lemma_search_in_two(engine.levels, 0, l, max, key);
    lemma_search_in_two(engine.levels, l, l + 2, max, key);
    lemma_search_in_two(after.levels, 0, l, max, key);
    lemma_search_in_two(after.levels, l, l + 2, max, key);
    assert(after.found_in_memory(key) == engine.found_in_memory(key));
}

/// Law: merging a level into the next one keeps the order of the writes, with what the merge keeps
/// in the next level and nothing in the level itself.
pub proof fn law_compaction_keeps_sequence(
    engine: EngineView,
    contents: Seq<Seq<EntryView>>,
    level: usize,
    entries: Seq<EntryView>,
    tables: Seq<ReaderView>,
)
    requires
        engine.stores(contents),
        engine.in_sequence(contents),
        level + 1 < engine.config.max_levels,
        engine.merges(level, entries),
        engine.reads_entries(entries, (level + 1) as usize),
        engine.writes_level(entries, (level + 1) as usize, tables),
    ensures
        ({
            let after = engine.merged(level, tables);
            let now = contents.update(level as int, Seq::empty()).update(level + 1, entries);
            after.stores(now) && after.in_sequence(now)
        }),
{
    law_written_level_shows_entries(engine, entries, (level + 1) as usize, tables);
    lemma_merge_inputs(engine, contents, level);
    let first = contents[level as int];
    let second = contents[level + 1];
    let items = first + second;
    assert forall|i: int| 0 <= i < entries.len() implies first.contains(#[trigger] entries[i])
        || second.contains(entries[i]) by {
        let e = entries[i];
        lemma_table_entry(entries, i);
        let k = lemma_newest_is_held(items, e.key);
        assert(held(absorb_all(Map::empty(), items), e.key) == Some(e));
        if k < first.len() {
            assert(first[k] == e);
        } else {
            assert(second[k - first.len()] == e);
        }
    }
    lemma_merge_keeps_sequence(engine, contents, level, tables, entries);
}

/// Law: what a merge keeps depends only on the entries that the levels show, not on what was read of
/// their tables.
pub proof fn law_merge_follows_contents(
    a: EngineView,
    b: EngineView,
    contents: Seq<Seq<EntryView>>,
    level: usize,
    entries: Seq<EntryView>,
)
    requires
        a.stores(contents),
        b.stores(contents),
        level + 1 < contents.len(),
    ensures
        a.merges(level, entries) == b.merges(level, entries),
{
    lemma_merge_inputs(a, contents, level);
    lemma_merge_inputs(b, contents, level);
}

/// What is walked for a merge are the entries that the two levels show.
proof fn lemma_merge_inputs(engine: EngineView, contents: Seq<Seq<EntryView>>, level: usize)
    requires
        engine.stores(contents),
        level + 1 < engine.config.max_levels,
    ensures
        walked(engine.merge_inputs(level), 0) == (
            contents[level as int] + contents[level + 1],
            None::<ErrorView>,
        ),
{
    let first = contents[level as int];
    let second = contents[level + 1];
    let a = tables_at(engine.levels, level);
    let b = tables_at(engine.levels, (level + 1) as usize);
    assert(shows(a, level as nat, first));
    assert(shows(b, level as nat + 1, second));
    lemma_walked_concat(a, b, 0);
}

/// A search in the two levels finds the newest of their entries before a merge, and afterwards the
/// same unless it marks a deletion.
proof fn lemma_merged_search(
    engine: EngineView,
    contents: Seq<Seq<EntryView>>,
    level: usize,
    entries: Seq<EntryView>,
    tables: Seq<ReaderView>,
    key: Seq<u8>,
)
    requires
        engine.stores(contents),
        engine.in_sequence(contents),
        level + 1 < engine.config.max_levels,
        engine.merges(level, entries),
        shows(tables, level as nat + 1, entries),
    ensures
        ({
            let m = absorb_all(Map::empty(), walked(engine.merge_inputs(level), 0).0);
            let l = level as nat;
            &&& found_on_disk(engine.levels, l, l + 2, key) == Ok::<Option<EntryView>, ErrorView>(
                held(m, key),
            )
            &&& found_on_disk(engine.merged(level, tables).levels, l, l + 2, key) == Ok::<
                Option<EntryView>,
                ErrorView,
            >(held(live(m), key))
        }),
{
    let first = contents[level as int];
    let second = contents[level + 1];
    let l = level as nat;
    let none = Seq::<ReaderView>::empty();
    let after = engine.merged(level, tables).levels;
    lemma_merge_inputs(engine, contents, level);
    assert(older(second, first));
    lemma_absorb_older(first, second, key);
    lemma_absorb_sorted(entries, key);
    reveal_with_fuel(found_on_disk, 3);
    assert(shows(tables_at(engine.levels, level), l, first));
    assert(shows(tables_at(engine.levels, (level + 1) as usize), l + 1, second));
    assert(found_in_level(tables_at(engine.levels, level), l, key) == Ok::<
        Option<EntryView>,
        ErrorView,
    >(held(absorb_all(Map::empty(), first), key)));
    assert(found_in_level(tables_at(engine.levels, (level + 1) as usize), l + 1, key) == Ok::<
        Option<EntryView>,
        ErrorView,
    >(held(absorb_all(Map::empty(), second), key)));
    assert(tables_at(after, level) == none);
    assert(tables_at(after, (level + 1) as usize) == tables);
    assert(first_covering(none, key, 0) == 0);
    assert(found_in_level(none, l, key) == Ok::<Option<EntryView>, ErrorView>(None));
    assert(found_in_level(tables, l + 1, key) == Ok::<Option<EntryView>, ErrorView>(
        held(absorb_all(Map::empty(), entries), key),
    ));
}

/// A search goes on behind the level `mid` where it finds nothing before.
proof fn lemma_search_in_two(
    levels: Map<usize, Seq<ReaderView>>,
    level: nat,
    mid: nat,
    max: nat,
    key: Seq<u8>,
)
    requires
        level <= mid <= max,
    ensures
        found_on_disk(levels, level, max, key) == (match found_on_disk(levels, level, mid, key) {
            Ok(None) => found_on_disk(levels, mid, max, key),
            found => found,
        }),
    decreases mid - level,
{
    if level < mid {
        lemma_search_in_two(levels, level + 1, mid, max, key);
    }
}

/// Law: a merge brings a deleted value to light only where the newest entry for the key is one of the
/// two levels and marks a deletion, and a level below them has a value or cannot be read.
pub proof fn law_only_deletions_bring_values_to_light(engine: EngineView, level: usize, key: Seq<u8>)
    ensures
        engine.revives(level, key) ==> {
            &&& engine.found_in_memory(key) is None
            &&& found_on_disk(engine.levels, 0, level as nat, key) == Ok::<
                Option<EntryView>,
                ErrorView,
            >(None)
            &&& found_on_disk(engine.levels, level as nat, level as nat + 2, key) matches Ok(
                Some(e),
            )
            &&& e.value is None
            &&& found_on_disk(
                engine.levels,
                level as nat + 2,
                engine.config.max_levels as nat,
                key,
            ) != Ok::<Option<EntryView>, ErrorView>(None)
        },
        level + 2 >= engine.config.max_levels ==> !engine.revives(level, key),
{
}

/// Law: entries are what a merge keeps where they are in the order of their keys and hold what is kept
/// of the two levels; tables are written of them where there is one of each group.
pub proof fn law_merge_is_recognised(
    engine: EngineView,
    level: usize,
    entries: Seq<EntryView>,
    tables: Seq<ReaderView>,
)
    ensures
        sorted(entries) && table(entries) == live(
            absorb_all(
                Map::empty(),
                walked(
                    tables_at(engine.levels, level) + tables_at(
                        engine.levels,
                        (level + 1) as usize,
                    ),
                    0,
                ).0,
            ),
        ) ==> engine.merges(level, entries),
        ({
            let parts = groups(entries, engine.table_target(level));
            tables.len() == parts.len() && (forall|i: int|
                0 <= i < parts.len() ==> engine.writes_table(parts[i], #[trigger] tables[i]))
                ==> engine.writes_level(entries, level, tables)
        }),
        (forall|i: int|
            0 <= i < entries.len() ==> readable(engine.config.compression, #[trigger] entries[i]))
            && entries.len() <= u32::MAX ==> engine.reads_entries(entries, level),
{
    let parts = groups(entries, engine.table_target(level));
    law_groups_keep_entries(entries, engine.table_target(level));
    if entries.len() <= u32::MAX {
        assert forall|i: int| 0 <= i < parts.len() implies (#[trigger] parts[i]).len()
            <= u32::MAX by {
            lemma_joined_at(parts, i, 0);
        }
    }
}

/// Law: a table was written of some entries where a file that they build is opened as it.
pub proof fn law_opened_file_is_a_written_table(
    engine: EngineView,
    s: Seq<EntryView>,
    path: PathBuf,
    n: nat,
    bloom: BloomSizing,
    created_at: Timestamp,
    image: SSTableImage,
    table: ReaderView,
)
    requires
        builds(engine.table_settings().start(path, n, bloom, created_at), s, image),
        bounded_bits(bloom.bits as nat) <= u32::MAX,
        opened(image.path, image.bytes@, engine.config.use_mmap) == Ok::<ReaderView, ErrorView>(
            table,
        ),
    ensures
        engine.writes_table(s, table),
{
}

} // verus!
