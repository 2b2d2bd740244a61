//! The order of writes, by their sequence numbers.
use crate::error::ErrorView;
use crate::levels::{fresh_levels, sound_levels, tables_at};
use crate::memtable::MemTableView;
use crate::order::key_in_range;
use crate::sorted::{absorb_all, entries_in, has_key, law_newest_entry_stays, lemma_table_entry, newest_at, sorted, table};
use crate::sstable::laws::{gives, held};
use crate::sstable::reader::{index_consistent, lemma_fetch_true, number_behind_all, opened, ReaderView};
use crate::storage::compact::{lemma_walked_concat, walked};
use crate::storage::laws::{consistent, lemma_alike_shows, lemma_entries_in_members};
use crate::storage::load::{number_behind_files, table_level, FileView};
use crate::storage::scan::{and_next, has_value, level_items, lists, memtable_items, table_items};
use crate::storage::{found_in_level, found_on_disk, newest_memtable, EngineView};
use crate::{EntryView, Key, SequenceNumber, Timestamp, Value};
use vstd::prelude::*;

verus! {

/// Whether every entry of `a` has a lower number than every entry of `b`.
pub open spec fn older(a: Seq<EntryView>, b: Seq<EntryView>) -> bool {
    forall|i: int, j: int|
        0 <= i < a.len() && 0 <= j < b.len() ==> (#[trigger] a[i]).sequence < (
        #[trigger] b[j]).sequence
}

/// Whether every entry has a number below `n`.
pub open spec fn below(s: Seq<EntryView>, n: SequenceNumber) -> bool {
    forall|i: int| 0 <= i < s.len() ==> (#[trigger] s[i]).sequence < n
}

/// Whether the tables of a level show exactly the entries of `s`: a walk gives all of them, a range
/// gives those in it, and a search finds the newest for a key.
pub open spec fn shows(tables: Seq<ReaderView>, level: nat, s: Seq<EntryView>) -> bool {
    &&& walked(tables, 0) == (s, None::<ErrorView>)
    &&& forall|start: Seq<u8>, end: Seq<u8>| #[trigger]
        table_items(tables, 0, start, end) == (entries_in(s, start, end), None::<ErrorView>)
    &&& forall|key: Seq<u8>| #[trigger]
        found_in_level(tables, level, key) == Ok::<Option<EntryView>, ErrorView>(
            held(absorb_all(Map::empty(), s), key),
        )
}

impl EngineView {
    /// Whether the levels show these entries, one sequence for each level.
    pub open spec fn stores(self, contents: Seq<Seq<EntryView>>) -> bool {
        &&& contents.len() == self.config.max_levels
        &&& forall|l: int|
            0 <= l < contents.len() ==> shows(
                tables_at(self.levels, l as usize),
                l as nat,
                #[trigger] contents[l],
            )
    }

    /// Whether the order of the numbers is that of the writes: what is searched first has the
    /// higher numbers, and the next write gets one that is higher than all.
    pub open spec fn in_sequence(self, contents: Seq<Seq<EntryView>>) -> bool {
        &&& self.memory_in_sequence()
        &&& forall|l: int|
            0 <= l < contents.len() ==> {
                &&& below(#[trigger] contents[l], self.memtable.sequence)
                &&& older(contents[l], self.memtable.entries)
            }
        &&& forall|l: int, i: int|
            0 <= l < contents.len() && 0 <= i < self.immutables.len() ==> older(
                #[trigger] contents[l],
                (#[trigger] self.immutables[i]).entries,
            )
        &&& forall|l: int, k: int|
            0 <= l < k < contents.len() ==> older(#[trigger] contents[k], #[trigger] contents[l])
    }

    /// Whether the order of the numbers in memory is that of the writes.
    pub open spec fn memory_in_sequence(self) -> bool {
        &&& below(self.memtable.entries, self.memtable.sequence)
        &&& forall|i: int|
            0 <= i < self.immutables.len() ==> {
                &&& below((#[trigger] self.immutables[i]).entries, self.memtable.sequence)
                &&& older(self.immutables[i].entries, self.memtable.entries)
            }
        &&& forall|i: int, j: int|
            0 <= i < j < self.immutables.len() ==> older(
                (#[trigger] self.immutables[i]).entries,
                (#[trigger] self.immutables[j]).entries,
            )
    }
}

/// Absorbing entries of a range leaves what absorbing all leaves for the keys of the range.
proof fn lemma_absorb_in(s: Seq<EntryView>, start: Seq<u8>, end: Seq<u8>, key: Seq<u8>)
    ensures
        held(absorb_all(Map::empty(), entries_in(s, start, end)), key) == (if key_in_range(
            key,
            start,
            end,
        ) {
            held(absorb_all(Map::empty(), s), key)
        } else {
            None
        }),
    decreases s.len(),
{
    if s.len() > 0 {
        let t = s.drop_last();
        let e = s.last();
        lemma_absorb_in(t, start, end, key);
        if key_in_range(e.key, start, end) {
            let p = entries_in(t, start, end);
            assert(p.push(e).drop_last() =~= p);
            assert(p.push(e).last() == e);
        }
    }
}

/// Absorbing entries with one for each key leaves all of them.
pub proof fn lemma_absorb_sorted(s: Seq<EntryView>, key: Seq<u8>)
    requires
        sorted(s),
    ensures
        held(absorb_all(Map::empty(), s), key) == held(table(s), key),
{
    law_newest_entry_stays(s, key);
    if has_key(s, key) {
        let i = choose|i: int| newest_at(s, i) && #[trigger] s[i].key == key;
        lemma_table_entry(s, i);
    }
}

/// What is held of absorbed entries is the newest for the key.
pub proof fn lemma_newest_is_held(s: Seq<EntryView>, key: Seq<u8>) -> (i: int)
    ensures
        has_key(s, key) ==> newest_at(s, i) && s[i].key == key && held(
            absorb_all(Map::empty(), s),
            key,
        ) == Some(s[i]),
        !has_key(s, key) ==> held(absorb_all(Map::empty(), s), key) is None,
{
    law_newest_entry_stays(s, key);
    choose|i: int| newest_at(s, i) && #[trigger] s[i].key == key
}

/// An entry that is the newest for its key is held.
proof fn lemma_newest_at_is_held(s: Seq<EntryView>, i: int)
    requires
        newest_at(s, i),
    ensures
        held(absorb_all(Map::empty(), s), s[i].key) == Some(s[i]),
{
    law_newest_entry_stays(s, s[i].key);
    assert(has_key(s, s[i].key));
}

/// What is held of two sequences, of which each is older than the other or has no entry for the key
/// where the other has one.
proof fn lemma_absorb_two(a: Seq<EntryView>, b: Seq<EntryView>, key: Seq<u8>, front: bool)
    requires
        if front {
            older(b, a)
        } else {
            older(a, b)
        },
    ensures
        held(absorb_all(Map::empty(), a + b), key) == (if has_key(a, key) && (front || !has_key(
            b,
            key,
        )) {
            held(absorb_all(Map::empty(), a), key)
        } else {
            held(absorb_all(Map::empty(), b), key)
        }),
{
    lemma_has_key_concat(a, b, key);
    let i = lemma_newest_is_held(a, key);
    let j = lemma_newest_is_held(b, key);
    if has_key(a, key) && (front || !has_key(b, key)) {
        lemma_newest_in_front(a, b, i);
        lemma_newest_at_is_held(a + b, i);
    } else if has_key(b, key) {
        lemma_newest_behind(a, b, j);
        lemma_newest_at_is_held(a + b, a.len() + j);
    } else {
        let k = lemma_newest_is_held(a + b, key);
    }
}

/// Of what is absorbed, the newer entries in front count.
pub proof fn lemma_absorb_older(a: Seq<EntryView>, b: Seq<EntryView>, key: Seq<u8>)
    requires
        older(b, a),
    ensures
        held(absorb_all(Map::empty(), a + b), key) == (match held(
            absorb_all(Map::empty(), a),
            key,
        ) {
            Some(e) => Some(e),
            None => held(absorb_all(Map::empty(), b), key),
        }),
{
    lemma_absorb_two(a, b, key, true);
    let i = lemma_newest_is_held(a, key);
}

/// Of what is absorbed, the newer entries behind count.
proof fn lemma_absorb_newer(a: Seq<EntryView>, b: Seq<EntryView>, key: Seq<u8>)
    requires
        older(a, b),
    ensures
        held(absorb_all(Map::empty(), a + b), key) == (match held(
            absorb_all(Map::empty(), b),
            key,
        ) {
            Some(e) => Some(e),
            None => held(absorb_all(Map::empty(), a), key),
        }),
{
    lemma_absorb_two(a, b, key, false);
    let i = lemma_newest_is_held(a, key);
    let j = lemma_newest_is_held(b, key);
}

proof fn lemma_has_key_concat(a: Seq<EntryView>, b: Seq<EntryView>, key: Seq<u8>)
    ensures
        has_key(a + b, key) <==> has_key(a, key) || has_key(b, key),
{
    let s = a + b;
    let n = a.len() as int;
    if has_key(a, key) {
        let i = choose|i: int| 0 <= i < a.len() && #[trigger] a[i].key == key;
        assert(s[i].key == key);
    }
    if has_key(b, key) {
        let i = choose|i: int| 0 <= i < b.len() && #[trigger] b[i].key == key;
        assert(s[n + i].key == key);
    }
    if has_key(s, key) {
        let i = choose|i: int| 0 <= i < s.len() && #[trigger] s[i].key == key;
        if i < n {
            assert(a[i].key == key);
        } else {
            assert(b[i - n].key == key);
        }
    }
}

/// The newest entry stays so where older entries, or none of its key, follow.
proof fn lemma_newest_in_front(a: Seq<EntryView>, b: Seq<EntryView>, i: int)
    requires
        newest_at(a, i),
        older(b, a) || !has_key(b, a[i].key),
    ensures
        newest_at(a + b, i),
{
    let s = a + b;
    let n = a.len() as int;
    assert forall|j: int| 0 <= j < s.len() && #[trigger] s[j].key == s[i].key implies if j < i {
        s[j].sequence < s[i].sequence
    } else {
        s[j].sequence <= s[i].sequence
    } by {
        if j < n {
            assert(a[j].key == a[i].key);
        } else {
            assert(b[j - n].key == a[i].key);
            assert(b[j - n].sequence < a[i].sequence);
        }
    }
}

/// The newest entry stays so where older entries, or none of its key, stand before.
proof fn lemma_newest_behind(a: Seq<EntryView>, b: Seq<EntryView>, i: int)
    requires
        newest_at(b, i),
        older(a, b) || !has_key(a, b[i].key),
    ensures
        newest_at(a + b, a.len() + i),
{
    let s = a + b;
    let n = a.len() as int;
    assert forall|j: int| 0 <= j < s.len() && #[trigger] s[j].key == s[n + i].key implies if j < n
        + i {
        s[j].sequence < s[n + i].sequence
    } else {
        s[j].sequence <= s[n + i].sequence
    } by {
        if j >= n {
            assert(b[j - n].key == b[i].key);
        } else {
            assert(a[j].key == b[i].key);
            assert(a[j].sequence < b[i].sequence);
        }
    }
}

/// Entries of a range are as old as all entries.
proof fn lemma_older_in(
    a: Seq<EntryView>,
    b: Seq<EntryView>,
    start: Seq<u8>,
    end: Seq<u8>,
)
    requires
        older(a, b),
    ensures
        older(entries_in(a, start, end), b),
        older(a, entries_in(b, start, end)),
{
    lemma_entries_in_members(a, start, end, start);
    lemma_entries_in_members(b, start, end, start);
    let p = entries_in(a, start, end);
    let q = entries_in(b, start, end);
    assert forall|i: int, j: int| 0 <= i < p.len() && 0 <= j < b.len() implies (
    #[trigger] p[i]).sequence < (#[trigger] b[j]).sequence by {
        let k = choose|k: int| 0 <= k < a.len() && #[trigger] a[k] == p[i];
        assert(a[k].sequence < b[j].sequence);
    }
    assert forall|i: int, j: int| 0 <= i < a.len() && 0 <= j < q.len() implies (
    #[trigger] a[i]).sequence < (#[trigger] q[j]).sequence by {
        let k = choose|k: int| 0 <= k < b.len() && #[trigger] b[k] == q[j];
        assert(a[i].sequence < b[k].sequence);
    }
}

proof fn lemma_older_concat(a: Seq<EntryView>, b: Seq<EntryView>, c: Seq<EntryView>)
    requires
        older(a, c),
        older(b, c),
    ensures
        older(a + b, c),
{
    assert forall|i: int, j: int| 0 <= i < (a + b).len() && 0 <= j < c.len() implies (
    #[trigger] (a + b)[i]).sequence < (#[trigger] c[j]).sequence by {
        if i < a.len() {
            assert(a[i].sequence < c[j].sequence);
        } else {
            assert(b[i - a.len()].sequence < c[j].sequence);
        }
    }
}

/// The entries of memtables are as old as the memtables.
proof fn lemma_memtables_older(
    tables: Seq<MemTableView>,
    start: Seq<u8>,
    end: Seq<u8>,
    b: Seq<EntryView>,
)
    requires
        forall|i: int| 0 <= i < tables.len() ==> older((#[trigger] tables[i]).entries, b),
    ensures
        older(memtable_items(tables, start, end), b),
    decreases tables.len(),
{
    if tables.len() > 0 {
        let t = tables.drop_last();
        assert forall|i: int| 0 <= i < t.len() implies older((#[trigger] t[i]).entries, b) by {
            assert(t[i] == tables[i]);
        }
        lemma_memtables_older(t, start, end, b);
        assert(older(tables[tables.len() - 1].entries, b));
        lemma_older_in(tables.last().entries, b, start, end);
        lemma_older_concat(
            entries_in(tables.last().entries, start, end),
            memtable_items(t, start, end),
            b,
        );
    }
}

/// What is absorbed of memtables for a key is what the newest of them holds.
proof fn lemma_memtables_absorbed(
    tables: Seq<MemTableView>,
    start: Seq<u8>,
    end: Seq<u8>,
    key: Seq<u8>,
)
    requires
        forall|i: int| 0 <= i < tables.len() ==> sorted((#[trigger] tables[i]).entries),
        forall|i: int, j: int|
            0 <= i < j < tables.len() ==> older(
                (#[trigger] tables[i]).entries,
                (#[trigger] tables[j]).entries,
            ),
    ensures
        held(absorb_all(Map::empty(), memtable_items(tables, start, end)), key) == (
        if key_in_range(key, start, end) {
            newest_memtable(tables, key)
        } else {
            None
        }),
    decreases tables.len(),
{
    if tables.len() > 0 {
        let t = tables.drop_last();
        let n = tables.len() - 1;
        let last = tables.last().entries;
        assert(sorted(tables[n].entries));
        assert forall|i: int| 0 <= i < t.len() implies sorted((#[trigger] t[i]).entries) && older(
            t[i].entries,
            last,
        ) by {
            assert(t[i] == tables[i]);
            assert(older(tables[i].entries, tables[n].entries));
        }
        assert forall|i: int, j: int| 0 <= i < j < t.len() implies older(
            (#[trigger] t[i]).entries,
            (#[trigger] t[j]).entries,
        ) by {
            assert(older(tables[i].entries, tables[j].entries));
        }
        lemma_memtables_absorbed(t, start, end, key);
        lemma_memtables_older(t, start, end, last);
        lemma_older_in(memtable_items(t, start, end), last, start, end);
        lemma_absorb_older(entries_in(last, start, end), memtable_items(t, start, end), key);
        lemma_absorb_in(last, start, end, key);
        lemma_absorb_sorted(last, key);
    }
}

/// The entries of levels are as old as the levels.
proof fn lemma_levels_older(
    engine: EngineView,
    contents: Seq<Seq<EntryView>>,
    level: nat,
    start: Seq<u8>,
    end: Seq<u8>,
    b: Seq<EntryView>,
)
    requires
        engine.stores(contents),
        forall|l: int| level <= l < contents.len() ==> older(#[trigger] contents[l], b),
    ensures
        ({
            let items = level_items(
                engine.levels,
                level,
                engine.config.max_levels as nat,
                start,
                end,
            );
            older(items.0, b) && items.1 is None
        }),
    decreases engine.config.max_levels - level,
{
    let max = engine.config.max_levels as nat;
    if level < max {
        lemma_levels_older(engine, contents, level + 1, start, end, b);
        let here = contents[level as int];
        let tables = tables_at(engine.levels, level as usize);
        assert(shows(tables, level, here));
        assert(table_items(tables, 0, start, end) == (
            entries_in(here, start, end),
            None::<ErrorView>,
        ));
        lemma_older_in(here, b, start, end);
        lemma_older_concat(
            entries_in(here, start, end),
            level_items(engine.levels, level + 1, max, start, end).0,
            b,
        );
    }
}

/// What is absorbed of levels for a key is what a search in them finds.
proof fn lemma_levels_absorbed(
    engine: EngineView,
    contents: Seq<Seq<EntryView>>,
    level: nat,
    start: Seq<u8>,
    end: Seq<u8>,
    key: Seq<u8>,
)
    requires
        engine.stores(contents),
        forall|l: int, k: int|
            0 <= l < k < contents.len() ==> older(#[trigger] contents[k], #[trigger] contents[l]),
    ensures
        ({
            let max = engine.config.max_levels as nat;
            let absorbed = held(
                absorb_all(
                    Map::empty(),
                    level_items(engine.levels, level, max, start, end).0,
                ),
                key,
            );
            if key_in_range(key, start, end) {
                found_on_disk(engine.levels, level, max, key) == Ok::<
                    Option<EntryView>,
                    ErrorView,
                >(absorbed)
            } else {
                absorbed is None
            }
        }),
    decreases engine.config.max_levels - level,
{
    let max = engine.config.max_levels as nat;
    if level < max {
        lemma_levels_absorbed(engine, contents, level + 1, start, end, key);
        let here = contents[level as int];
        let tables = tables_at(engine.levels, level as usize);
        let rest = level_items(engine.levels, level + 1, max, start, end).0;
        assert(shows(tables, level, here));
        assert(table_items(tables, 0, start, end) == (
            entries_in(here, start, end),
            None::<ErrorView>,
        ));
        assert(found_in_level(tables, level, key) == Ok::<Option<EntryView>, ErrorView>(
            held(absorb_all(Map::empty(), here), key),
        ));
        assert forall|l: int| level + 1 <= l < contents.len() implies older(
            #[trigger] contents[l],
            here,
        ) by {}
        lemma_levels_older(engine, contents, level + 1, start, end, here);
        lemma_older_in(rest, here, start, end);
        lemma_absorb_older(entries_in(here, start, end), rest, key);
        lemma_absorb_in(here, start, end, key);
    }
}

/// Law: a scan lists exactly the keys of the range for which a search finds a value that is not
/// empty, with that value.
///
/// The order of the numbers has to be that of the writes, and the levels have to show their
/// entries.
pub proof fn law_scan_agrees_with_get(
    engine: EngineView,
    contents: Seq<Seq<EntryView>>,
    start: Seq<u8>,
    end: Seq<u8>,
    pairs: Seq<(Key, Value)>,
    key: Seq<u8>,
    value: Seq<u8>,
)
    requires
        engine.memory_wf(),
        !engine.closed,
        engine.stores(contents),
        engine.in_sequence(contents),
        lists(pairs, absorb_all(Map::empty(), engine.items(start, end).0)),
    ensures
        engine.items(start, end).1 is None,
        (exists|i: int|
            0 <= i < pairs.len() && (#[trigger] pairs[i]).0@ == key && pairs[i].1@ == value) <==> (
        key_in_range(key, start, end) && value.len() > 0 && engine.value_of(key) == Ok::<
            Option<Seq<u8>>,
            ErrorView,
        >(Some(value))),
{
    let m = absorb_all(Map::<Seq<u8>, EntryView>::empty(), engine.items(start, end).0);
    lemma_items_absorbed(engine, contents, start, end, key);
    if exists|i: int|
        0 <= i < pairs.len() && (#[trigger] pairs[i]).0@ == key && pairs[i].1@ == value {
        let i = choose|i: int|
            0 <= i < pairs.len() && (#[trigger] pairs[i]).0@ == key && pairs[i].1@ == value;
        assert(m.contains_key(pairs[i].0@));
    }
    if key_in_range(key, start, end) && value.len() > 0 && engine.value_of(key) == Ok::<
        Option<Seq<u8>>,
        ErrorView,
    >(Some(value)) {
        assert(m.contains_key(key) && has_value(m[key]));
        let i = choose|i: int| 0 <= i < pairs.len() && (#[trigger] pairs[i]).0@ == key;
        assert(pairs[i].1@ == value);
    }
}

/// What is absorbed of an engine for a key is what a search finds.
proof fn lemma_items_absorbed(
    engine: EngineView,
    contents: Seq<Seq<EntryView>>,
    start: Seq<u8>,
    end: Seq<u8>,
    key: Seq<u8>,
)
    requires
        engine.memory_wf(),
        engine.stores(contents),
        engine.in_sequence(contents),
    ensures
        engine.items(start, end).1 is None,
        ({
            let absorbed = held(absorb_all(Map::empty(), engine.items(start, end).0), key);
            if key_in_range(key, start, end) {
                engine.found(key) == Ok::<Option<EntryView>, ErrorView>(absorbed)
            } else {
                absorbed is None
            }
        }),
{
    let top = engine.memtable.entries;
    let max = engine.config.max_levels as nat;
    let a = entries_in(top, start, end);
    let b = memtable_items(engine.immutables, start, end);
    let c = level_items(engine.levels, 0, max, start, end).0;
    lemma_memtables_absorbed(engine.immutables, start, end, key);
    lemma_levels_absorbed(engine, contents, 0, start, end, key);
    lemma_absorb_in(top, start, end, key);
    lemma_absorb_sorted(top, key);
    lemma_memtables_older(engine.immutables, start, end, top);
    lemma_levels_older(engine, contents, 0, start, end, top);
    lemma_older_concat(b, c, top);
    lemma_older_in(b + c, top, start, end);
    lemma_absorb_older(a, b + c, key);
    lemma_levels_older_than_memtables(engine, contents, engine.immutables, start, end);
    lemma_absorb_older(b, c, key);
}

/// The entries of the levels are older than those of memtables than which the levels are older.
proof fn lemma_levels_older_than_memtables(
    engine: EngineView,
    contents: Seq<Seq<EntryView>>,
    tables: Seq<MemTableView>,
    start: Seq<u8>,
    end: Seq<u8>,
)
    requires
        engine.stores(contents),
        forall|l: int, i: int|
            0 <= l < contents.len() && 0 <= i < tables.len() ==> older(
                #[trigger] contents[l],
                (#[trigger] tables[i]).entries,
            ),
    ensures
        older(
            level_items(engine.levels, 0, engine.config.max_levels as nat, start, end).0,
            memtable_items(tables, start, end),
        ),
    decreases tables.len(),
{
    let c = level_items(engine.levels, 0, engine.config.max_levels as nat, start, end).0;
    if tables.len() > 0 {
        let t = tables.drop_last();
        let last = tables.last().entries;
        assert forall|l: int, i: int|
            0 <= l < contents.len() && 0 <= i < t.len() implies older(
            #[trigger] contents[l],
            (#[trigger] t[i]).entries,
        ) by {
            assert(older(contents[l], tables[i].entries));
        }
        lemma_levels_older_than_memtables(engine, contents, t, start, end);
        assert forall|l: int| 0 <= l < contents.len() implies older(
            #[trigger] contents[l],
            last,
        ) by {
            assert(older(contents[l], tables[tables.len() - 1].entries));
        }
        lemma_levels_older(engine, contents, 0, start, end, last);
        lemma_older_in(c, last, start, end);
        let p = entries_in(last, start, end);
        let q = memtable_items(t, start, end);
        assert forall|i: int, j: int| 0 <= i < c.len() && 0 <= j < (p + q).len() implies (
        #[trigger] c[i]).sequence < (#[trigger] (p + q)[j]).sequence by {
            if j < p.len() {
                assert(c[i].sequence < p[j].sequence);
            } else {
                assert(c[i].sequence < q[j - p.len()].sequence);
            }
        }
    }
}

/// Law: a new engine is in sequence where its files are: it starts with a number behind theirs.
pub proof fn law_new_engine_is_in_sequence(engine: EngineView, contents: Seq<Seq<EntryView>>)
    requires
        engine.memtable.entries.len() == 0,
        engine.immutables.len() == 0,
        forall|l: int|
            0 <= l < contents.len() ==> below(#[trigger] contents[l], engine.memtable.sequence),
        forall|l: int, k: int|
            0 <= l < k < contents.len() ==> older(#[trigger] contents[k], #[trigger] contents[l]),
    ensures
        engine.in_sequence(contents),
{
}

/// Law: a new engine without files is in sequence, and shows nothing.
pub proof fn law_empty_engine_is_in_sequence(engine: EngineView, contents: Seq<Seq<EntryView>>)
    requires
        engine.memtable.entries.len() == 0,
        engine.immutables.len() == 0,
        contents == Seq::new(engine.config.max_levels as nat, |l: int| Seq::<EntryView>::empty()),
        engine.levels == Map::<usize, Seq<ReaderView>>::empty(),
    ensures
        engine.in_sequence(contents),
        engine.stores(contents),
{
    assert forall|l: int| 0 <= l < contents.len() implies shows(
        tables_at(engine.levels, l as usize),
        l as nat,
        #[trigger] contents[l],
    ) by {
        lemma_nothing_shown(l as nat);
    }
}

/// Law: the numbers go on where they ended: an engine that is opened on files starts with a number
/// behind that of every entry of their tables, as long as there is one.
pub proof fn law_opened_engine_counts_on(
    files: Seq<FileView>,
    mapped: bool,
    i: int,
    s: Seq<EntryView>,
)
    requires
        0 <= i < files.len(),
        table_level(files[i]) is Some,
        opened(files[i].path, files[i].bytes, mapped) matches Ok(r) && gives(r, s),
        number_behind_files(files, mapped) < u64::MAX,
    ensures
        below(s, number_behind_files(files, mapped)),
    decreases files.len(),
{
    let rest = files.drop_last();
    if i == files.len() - 1 {
        let r = opened(files[i].path, files[i].bytes, mapped)->Ok_0;
        lemma_stream_below(r, 0);
    } else {
        assert(rest[i] == files[i]);
        law_opened_engine_counts_on(rest, mapped, i, s);
    }
}

/// The entries that a reader hands out have numbers below the one behind all of them.
pub proof fn lemma_stream_below(r: ReaderView, i: int)
    requires
        index_consistent(r.index),
        r.cache_true(),
        r.stream(i).1 is None,
        r.number_behind(i) < u64::MAX,
        0 <= i,
    ensures
        below(r.stream(i).0, r.number_behind(i)),
    decreases r.index.len() - i,
{
    if i < r.index.len() {
        lemma_fetch_true(r, i);
        let a = r.after_fetch(i);
        assert(a.index == r.fresh().index);
        lemma_same_numbers(a, r, i + 1);
        lemma_stream_below(a, i + 1);
        let s = r.stored_entries(i)->0;
        lemma_number_behind_all(s);
        let more = a.stream(i + 1).0;
        assert forall|k: int| 0 <= k < (s + more).len() implies (#[trigger] (s + more)[k]).sequence
            < r.number_behind(i) by {
            if k < s.len() {
                assert(s[k].sequence < number_behind_all(s));
            } else {
                assert(more[k - s.len()].sequence < a.number_behind(i + 1));
            }
        }
    }
}

/// The number behind the entries of a file does not depend on what was read of it.
proof fn lemma_same_numbers(a: ReaderView, b: ReaderView, i: int)
    requires
        a.fresh() == b.fresh(),
    ensures
        a.number_behind(i) == b.number_behind(i),
    decreases a.index.len() - i,
{
    assert(a.index == b.fresh().index && a.data == b.fresh().data && a.mapped == b.fresh().mapped
        && a.meta == b.fresh().meta);
    if i < a.index.len() {
        assert(a.stored_block(i) == b.stored_block(i));
        lemma_same_numbers(a, b, i + 1);
    }
}

/// A number that is behind all entries is above each of their numbers.
proof fn lemma_number_behind_all(s: Seq<EntryView>)
    ensures
        number_behind_all(s) < u64::MAX ==> below(s, number_behind_all(s)),
    decreases s.len(),
{
    if s.len() > 0 {
        lemma_number_behind_all(s.drop_last());
        if number_behind_all(s) < u64::MAX {
            assert forall|k: int| 0 <= k < s.len() implies (#[trigger] s[k]).sequence
                < number_behind_all(s) by {
                if k < s.len() - 1 {
                    assert(s.drop_last()[k] == s[k]);
                }
            }
        }
    }
}

/// No table shows no entries.
proof fn lemma_nothing_shown(level: nat)
    ensures
        shows(Seq::empty(), level, Seq::empty()),
{
    let none = Seq::<ReaderView>::empty();
    assert forall|key: Seq<u8>| #[trigger]
        found_in_level(none, level, key) == Ok::<Option<EntryView>, ErrorView>(
            held(absorb_all(Map::empty(), Seq::<EntryView>::empty()), key),
        ) by {
        assert(crate::storage::first_covering(none, key, 0) == 0);
    }
}

/// Law: reading keeps the order, and the levels show what they showed, where in their tables blocks
/// at one place have one size.
pub proof fn law_reading_keeps_sequence(
    before: EngineView,
    after: EngineView,
    contents: Seq<Seq<EntryView>>,
)
    requires
        before.stores(contents),
        before.in_sequence(contents),
        sound_levels(before.levels),
        sound_levels(after.levels),
        after.fresh() == before.fresh(),
        consistent(before.levels),
    ensures
        after.stores(contents),
        after.in_sequence(contents),
{
    assert(fresh_levels(after.levels) == after.fresh().levels);
    assert(fresh_levels(before.levels) == before.fresh().levels);
    assert(after.memtable == after.fresh().memtable && before.memtable == before.fresh().memtable);
    assert(after.immutables == after.fresh().immutables && before.immutables
        == before.fresh().immutables);
    assert(after.config == after.fresh().config && before.config == before.fresh().config);
    assert forall|l: int| 0 <= l < contents.len() implies shows(
        tables_at(after.levels, l as usize),
        l as nat,
        #[trigger] contents[l],
    ) by {
        lemma_alike_shows(before.levels, after.levels, l as usize, contents[l]);
    }
}

/// Law: a write keeps the order, as long as the numbers do not run out.
pub proof fn law_write_keeps_sequence(
    before: EngineView,
    after: EngineView,
    contents: Seq<Seq<EntryView>>,
    e: EntryView,
)
    requires
        before.in_sequence(contents),
        before.wrote(after, e),
        e.sequence == before.memtable.sequence,
        before.memtable.sequence < u64::MAX,
    ensures
        after.in_sequence(contents),
{
    let n = before.memtable.sequence;
    assert(after.memtable.sequence == n + 1);
    assert forall|i: int| 0 <= i < after.memtable.entries.len() implies (
    #[trigger] after.memtable.entries[i]) == e || exists|k: int|
        0 <= k < before.memtable.entries.len() && #[trigger] before.memtable.entries[k]
            == after.memtable.entries[i] by {
        let x = after.memtable.entries[i];
        lemma_table_entry(after.memtable.entries, i);
        if x.key != e.key {
            assert(table(before.memtable.entries).contains_key(x.key));
            let k = choose|k: int|
                0 <= k < before.memtable.entries.len() && #[trigger] before.memtable.entries[k].key
                    == x.key;
            assert(before.memtable.entries[k] == x);
        }
    }
    assert forall|l: int| 0 <= l < contents.len() implies {
        &&& below(#[trigger] contents[l], after.memtable.sequence)
        &&& older(contents[l], after.memtable.entries)
    } by {
        lemma_older_with(contents[l], before.memtable.entries, after.memtable.entries, n, e);
    }
    assert forall|i: int| 0 <= i < after.immutables.len() implies {
        &&& below((#[trigger] after.immutables[i]).entries, after.memtable.sequence)
        &&& older(after.immutables[i].entries, after.memtable.entries)
    } by {
        assert(before.immutables[i] == after.immutables[i]);
        lemma_older_with(
            after.immutables[i].entries,
            before.memtable.entries,
            after.memtable.entries,
            n,
            e,
        );
    }
}

proof fn lemma_older_with(
    a: Seq<EntryView>,
    before: Seq<EntryView>,
    after: Seq<EntryView>,
    n: SequenceNumber,
    e: EntryView,
)
    requires
        older(a, before),
        below(a, n),
        e.sequence == n,
        forall|i: int|
            0 <= i < after.len() ==> (#[trigger] after[i]) == e || exists|k: int|
                0 <= k < before.len() && #[trigger] before[k] == after[i],
    ensures
        older(a, after),
{
    assert forall|i: int, j: int| 0 <= i < a.len() && 0 <= j < after.len() implies (
    #[trigger] a[i]).sequence < (#[trigger] after[j]).sequence by {
        if after[j] != e {
            let k = choose|k: int| 0 <= k < before.len() && #[trigger] before[k] == after[j];
            assert(a[i].sequence < before[k].sequence);
        }
    }
}

/// Law: putting a full memtable aside keeps the order: no number comes again.
pub proof fn law_rotation_keeps_sequence(
    engine: EngineView,
    contents: Seq<Seq<EntryView>>,
    now: Timestamp,
)
    requires
        engine.in_sequence(contents),
    ensures
        engine.rotated(now).in_sequence(contents),
{
    let after = engine.rotated(now);
    if engine.memtable.size >= engine.memtable.max_size {
        let n = engine.immutables.len() as int;
        assert forall|i: int| 0 <= i < after.immutables.len() implies {
            &&& below((#[trigger] after.immutables[i]).entries, after.memtable.sequence)
            &&& older(after.immutables[i].entries, after.memtable.entries)
        } by {
            if i < n {
                assert(after.immutables[i] == engine.immutables[i]);
            }
        }
        assert forall|i: int, j: int| 0 <= i < j < after.immutables.len() implies older(
            (#[trigger] after.immutables[i]).entries,
            (#[trigger] after.immutables[j]).entries,
        ) by {
            assert(after.immutables[i] == engine.immutables[i]);
            if j < n {
                assert(after.immutables[j] == engine.immutables[j]);
            }
        }
        assert forall|l: int, i: int|
            0 <= l < contents.len() && 0 <= i < after.immutables.len() implies older(
            #[trigger] contents[l],
            (#[trigger] after.immutables[i]).entries,
        ) by {
            if i < n {
                assert(after.immutables[i] == engine.immutables[i]);
            }
        }
    }
}

/// Law: flushing keeps the order: the first level shows the entries of the memtable too, behind its
/// own.
pub proof fn law_flush_keeps_sequence(
    engine: EngineView,
    contents: Seq<Seq<EntryView>>,
    table: ReaderView,
)
    requires
        engine.memory_wf(),
        engine.config.complaint() is None,
        engine.immutables.len() > 0,
        engine.stores(contents),
        engine.in_sequence(contents),
        gives(table, engine.immutables[0].entries),
    ensures
        ({
            let more = contents.update(0, contents[0] + engine.immutables[0].entries);
            engine.flushed(table).stores(more) && engine.flushed(table).in_sequence(more)
        }),
{
    let after = engine.flushed(table);
    let m = engine.immutables[0].entries;
    let more = contents.update(0, contents[0] + m);
    let tables = tables_at(engine.levels, 0);
    assert(tables_at(after.levels, 0) == tables.push(table));
    assert(shows(tables, 0, contents[0]));
    assert(engine.immutables[0].wf());
    lemma_shows_push(tables, contents[0], table, m);
    assert forall|l: int| 0 <= l < more.len() implies shows(
        tables_at(after.levels, l as usize),
        l as nat,
        #[trigger] more[l],
    ) by {
        if l > 0 {
            assert(more[l] == contents[l]);
            assert(tables_at(after.levels, l as usize) == tables_at(engine.levels, l as usize));
        }
    }
    assert forall|l: int| 0 <= l < more.len() implies {
        &&& below(#[trigger] more[l], after.memtable.sequence)
        &&& older(more[l], after.memtable.entries)
    } by {
        assert(below(contents[l], engine.memtable.sequence));
        if l == 0 {
            lemma_older_concat(contents[0], m, after.memtable.entries);
            assert forall|i: int| 0 <= i < more[0].len() implies (#[trigger] more[0][i]).sequence
                < after.memtable.sequence by {
                if i < contents[0].len() {
                    assert(more[0][i] == contents[0][i]);
                } else {
                    assert(more[0][i] == m[i - contents[0].len()]);
                }
            }
        }
    }
    assert forall|l: int, i: int|
        0 <= l < more.len() && 0 <= i < after.immutables.len() implies older(
        #[trigger] more[l],
        (#[trigger] after.immutables[i]).entries,
    ) by {
        assert(after.immutables[i] == engine.immutables[i + 1]);
        assert(older(contents[l], engine.immutables[i + 1].entries));
        if l == 0 {
            assert(older(engine.immutables[0].entries, engine.immutables[i + 1].entries));
            lemma_older_concat(contents[0], m, after.immutables[i].entries);
        }
    }
    assert forall|l: int, k: int| 0 <= l < k < more.len() implies older(
        #[trigger] more[k],
        #[trigger] more[l],
    ) by {
        assert(older(contents[k], contents[l]));
        if l == 0 {
            let c = contents[k];
            assert(older(c, engine.immutables[0].entries));
            assert forall|i: int, j: int| 0 <= i < c.len() && 0 <= j < more[0].len() implies (
            #[trigger] c[i]).sequence < (#[trigger] more[0][j]).sequence by {
                if j < contents[0].len() {
                    assert(c[i].sequence < contents[0][j].sequence);
                } else {
                    assert(c[i].sequence < m[j - contents[0].len()].sequence);
                }
            }
        }
    }
    assert forall|i: int| 0 <= i < after.immutables.len() implies {
        &&& below((#[trigger] after.immutables[i]).entries, after.memtable.sequence)
        &&& older(after.immutables[i].entries, after.memtable.entries)
    } by {
        assert(after.immutables[i] == engine.immutables[i + 1]);
    }
    assert forall|i: int, j: int| 0 <= i < j < after.immutables.len() implies older(
        (#[trigger] after.immutables[i]).entries,
        (#[trigger] after.immutables[j]).entries,
    ) by {
        assert(older(engine.immutables[i + 1].entries, engine.immutables[j + 1].entries));
    }
}

/// A table of newer entries behind those of the first level adds its entries to what they show.
proof fn lemma_shows_push(
    tables: Seq<ReaderView>,
    s: Seq<EntryView>,
    table: ReaderView,
    m: Seq<EntryView>,
)
    requires
        shows(tables, 0, s),
        gives(table, m),
        sorted(m),
        older(s, m),
    ensures
        shows(tables.push(table), 0, s + m),
{
    let more = tables.push(table);
    assert(more =~= tables + seq![table]);
    lemma_walked_concat(tables, seq![table], 0);
    reveal_with_fuel(walked, 2);
    assert(m + Seq::<EntryView>::empty() =~= m);
    assert forall|start: Seq<u8>, end: Seq<u8>| #[trigger]
        table_items(more, 0, start, end) == (entries_in(s + m, start, end), None::<ErrorView>) by {
        assert(table_items(tables, 0, start, end) == (
            entries_in(s, start, end),
            None::<ErrorView>,
        ));
        assert(table.range_of(start, end).0 == Ok::<Seq<EntryView>, ErrorView>(
            entries_in(m, start, end),
        ));
        lemma_table_items_push(tables, table, 0, start, end);
        crate::sstable::laws::lemma_entries_in_concat(s, m, start, end);
    }
    assert forall|key: Seq<u8>| #[trigger]
        found_in_level(more, 0, key) == Ok::<Option<EntryView>, ErrorView>(
            held(absorb_all(Map::empty(), s + m), key),
        ) by {
        assert(more.drop_last() =~= tables);
        assert(found_in_level(tables, 0, key) == Ok::<Option<EntryView>, ErrorView>(
            held(absorb_all(Map::empty(), s), key),
        ));
        assert(table.lookup(key) == Ok::<Option<EntryView>, ErrorView>(
            held(crate::sorted::table(m), key),
        ));
        lemma_absorb_newer(s, m, key);
        lemma_absorb_sorted(m, key);
    }
}

proof fn lemma_table_items_push(
    tables: Seq<ReaderView>,
    table: ReaderView,
    i: int,
    start: Seq<u8>,
    end: Seq<u8>,
)
    requires
        0 <= i <= tables.len(),
        table.range_of(start, end).0 is Ok,
    ensures
        table_items(tables.push(table), i, start, end) == and_next(
            table_items(tables, i, start, end),
            (table.range_of(start, end).0->Ok_0, None),
        ),
    decreases tables.len() - i,
{
    let more = tables.push(table);
    let last = table.range_of(start, end).0->Ok_0;
    if i < tables.len() {
        assert(more[i] == tables[i]);
        lemma_table_items_push(tables, table, i + 1, start, end);
        if let Ok(s) = tables[i].range_of(start, end).0 {
            let rest = table_items(tables, i + 1, start, end);
            assert(s + (rest.0 + last) =~= (s + rest.0) + last);
        }
    } else {
        assert(more[i] == table);
        assert(table_items(more, i + 1, start, end) == (
            Seq::<EntryView>::empty(),
            None::<ErrorView>,
        ));
        assert(last + Seq::<EntryView>::empty() =~= last);
        assert(Seq::<EntryView>::empty() + last =~= last);
    }
}

/// Tables of entries of two levels, in place of those of the second level, keep the order, whatever
/// of the entries is kept.
pub proof fn lemma_merge_keeps_sequence(
    engine: EngineView,
    contents: Seq<Seq<EntryView>>,
    level: usize,
    tables: Seq<ReaderView>,
    kept: Seq<EntryView>,
)
    requires
        engine.stores(contents),
        engine.in_sequence(contents),
        level + 1 < contents.len(),
        shows(tables, (level + 1) as nat, kept),
        forall|i: int|
            0 <= i < kept.len() ==> contents[level as int].contains(#[trigger] kept[i])
                || contents[level + 1].contains(kept[i]),
    ensures
        ({
            let after = engine.merged(level, tables);
            let now = contents.update(level as int, Seq::empty()).update(level + 1, kept);
            after.stores(now) && after.in_sequence(now)
        }),
{
    let after = engine.merged(level, tables);
    let at = level as int;
    let now = contents.update(at, Seq::empty()).update(at + 1, kept);
    let first = contents[at];
    let second = contents[at + 1];
    assert forall|l: int| 0 <= l < now.len() implies shows(
        tables_at(after.levels, l as usize),
        l as nat,
        #[trigger] now[l],
    ) by {
        if l == at {
            lemma_nothing_shown(l as nat);
        } else if l != at + 1 {
            assert(now[l] == contents[l]);
            assert(tables_at(after.levels, l as usize) == tables_at(engine.levels, l as usize));
        }
    }
    assert forall|l: int| 0 <= l < now.len() implies {
        &&& below(#[trigger] now[l], after.memtable.sequence)
        &&& older(now[l], after.memtable.entries)
    } by {
        assert(below(contents[l], engine.memtable.sequence));
        assert(below(first, engine.memtable.sequence));
        if l == at + 1 {
            lemma_kept_older(first, second, kept, after.memtable.entries);
            assert forall|i: int| 0 <= i < kept.len() implies (#[trigger] kept[i]).sequence
                < after.memtable.sequence by {
                if first.contains(kept[i]) {
                    let k = choose|k: int| 0 <= k < first.len() && first[k] == kept[i];
                    assert(first[k].sequence < engine.memtable.sequence);
                } else {
                    let k = choose|k: int|
                        0 <= k < second.len() && second[k] == kept[i];
                    assert(second[k].sequence < engine.memtable.sequence);
                }
            }
        }
    }
    assert forall|l: int, i: int|
        0 <= l < now.len() && 0 <= i < after.immutables.len() implies older(
        #[trigger] now[l],
        (#[trigger] after.immutables[i]).entries,
    ) by {
        assert(older(contents[l], engine.immutables[i].entries));
        assert(older(first, engine.immutables[i].entries));
        if l == at + 1 {
            lemma_kept_older(
                first,
                second,
                kept,
                after.immutables[i].entries,
            );
        }
    }
    assert forall|l: int, k: int| 0 <= l < k < now.len() implies older(
        #[trigger] now[k],
        #[trigger] now[l],
    ) by {
        if k == at + 1 && l < at {
            assert(older(first, contents[l]) && older(second, contents[l]));
            lemma_kept_older(first, second, kept, contents[l]);
        } else if l == at + 1 {
            assert(older(contents[k], first) && older(contents[k], second));
            let c = contents[k];
            assert forall|i: int, j: int| 0 <= i < c.len() && 0 <= j < kept.len() implies (
            #[trigger] c[i]).sequence < (#[trigger] kept[j]).sequence by {
                if first.contains(kept[j]) {
                    let x = choose|x: int| 0 <= x < first.len() && first[x] == kept[j];
                    assert(c[i].sequence < first[x].sequence);
                } else {
                    let x = choose|x: int|
                        0 <= x < second.len() && second[x] == kept[j];
                    assert(c[i].sequence < second[x].sequence);
                }
            }
        } else if k != at && l != at {
            assert(older(contents[k], contents[l]));
        }
    }
}

proof fn lemma_kept_older(
    a: Seq<EntryView>,
    b: Seq<EntryView>,
    kept: Seq<EntryView>,
    c: Seq<EntryView>,
)
    requires
        older(a, c),
        older(b, c),
        forall|i: int| 0 <= i < kept.len() ==> a.contains(#[trigger] kept[i]) || b.contains(kept[i]),
    ensures
        older(kept, c),
{
    assert forall|i: int, j: int| 0 <= i < kept.len() && 0 <= j < c.len() implies (
    #[trigger] kept[i]).sequence < (#[trigger] c[j]).sequence by {
        if a.contains(kept[i]) {
            let k = choose|k: int| 0 <= k < a.len() && a[k] == kept[i];
            assert(a[k].sequence < c[j].sequence);
        } else {
            let k = choose|k: int| 0 <= k < b.len() && b[k] == kept[i];
            assert(b[k].sequence < c[j].sequence);
        }
    }
}

} // verus!
