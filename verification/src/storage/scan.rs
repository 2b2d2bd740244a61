//! Scanning a range of keys.
use crate::error::{ErrorView, Result, StorageError};
use crate::levels::tables_at;
use crate::memtable::{MemTable, MemTableView};
use crate::order::{key_at_most, key_less};
use crate::sorted::{absorb_all, entries_in, keyed, lemma_absorb_concat, lemma_table_entry, sorted, table, EntryTable};
use crate::sstable::reader::ReaderView;
use crate::storage::{EngineView, StorageEngine};
use crate::{entry_views, Entry, EntryView, Key, Value};
use vstd::prelude::*;

verus! {

/// Entries that were found, and the error that ended the search, if one did.
pub type Found = (Seq<EntryView>, Option<ErrorView>);

/// `done` before what is still to be found.
pub open spec fn ahead(done: Seq<EntryView>, rest: Found) -> Found {
    (done + rest.0, rest.1)
}

/// The entries of a range in memtables, the newest table first.
pub open spec fn memtable_items(tables: Seq<MemTableView>, start: Seq<u8>, end: Seq<u8>) -> Seq<
    EntryView,
>
    decreases tables.len(),
{
    if tables.len() == 0 {
        Seq::empty()
    } else {
        entries_in(tables.last().entries, start, end) + memtable_items(
            tables.drop_last(),
            start,
            end,
        )
    }
}

/// The entries of a range in the tables of a level from `i` on.
pub open spec fn table_items(
    tables: Seq<ReaderView>,
    i: int,
    start: Seq<u8>,
    end: Seq<u8>,
) -> Found
    decreases tables.len() - i,
{
    if i >= tables.len() {
        (Seq::empty(), None)
    } else {
        match tables[i].range_of(start, end).0 {
            Ok(s) => ahead(s, table_items(tables, i + 1, start, end)),
            Err(e) => (Seq::empty(), Some(e)),
        }
    }
}

/// What is found in `first`, and in `second` where no error ended the search before.
pub open spec fn and_next(first: Found, second: Found) -> Found {
    match first.1 {
        Some(e) => first,
        None => ahead(first.0, second),
    }
}

/// The entries of a range in the levels from `level` on and before `max`.
pub open spec fn level_items(
    levels: Map<usize, Seq<ReaderView>>,
    level: nat,
    max: nat,
    start: Seq<u8>,
    end: Seq<u8>,
) -> Found
    decreases max - level,
{
    if level >= max {
        (Seq::empty(), None)
    } else {
        and_next(
            table_items(tables_at(levels, level as usize), 0, start, end),
            level_items(levels, level + 1, max, start, end),
        )
    }
}

impl EngineView {
    /// All entries of a range: those of the memtable, of the memtables that wait, from the newest
    /// on, and of the files, level by level.
    pub open spec fn items(self, start: Seq<u8>, end: Seq<u8>) -> Found {
        ahead(
            entries_in(self.memtable.entries, start, end),
            ahead(
                memtable_items(self.immutables, start, end),
                level_items(self.levels, 0, self.config.max_levels as nat, start, end),
            ),
        )
    }
}

/// Whether `r` are the keys and values of `m`, in the order of the keys, without those that have no
/// value or an empty one.
pub open spec fn lists(r: Seq<(Key, Value)>, m: Map<Seq<u8>, EntryView>) -> bool {
    &&& forall|i: int, j: int|
        0 <= i < j < r.len() ==> key_less((#[trigger] r[i]).0@, (#[trigger] r[j]).0@)
    &&& forall|i: int|
        0 <= i < r.len() ==> m.contains_key((#[trigger] r[i]).0@) && m[r[i].0@].value == Some(
            r[i].1@,
        ) && r[i].1@.len() > 0
    &&& forall|key: Seq<u8>| #[trigger]
        m.contains_key(key) && has_value(m[key]) ==> exists|i: int|
            0 <= i < r.len() && (#[trigger] r[i]).0@ == key
}

/// Whether an entry has a value that is not empty.
pub open spec fn has_value(e: EntryView) -> bool {
    e.value matches Some(v) && v.len() > 0
}

impl StorageEngine {
    /// The keys from `start` up to, not including, `end`, with their values.
    ///
    /// Of several entries for a key that of the highest sequence number counts. Empty values are
    /// left out.
    pub fn scan(&mut self, start: &[u8], end: &[u8]) -> (r: Result<Vec<(Key, Value)>>)
        requires
            old(self).wf(),
            old(self)@.closed || key_at_most(start@, end@),
        ensures
            final(self).wf(),
            final(self)@.fresh() == old(self)@.fresh(),
            if old(self)@.closed {
                r matches Err(e) && e@ == ErrorView::Closed
            } else {
                let (items, fault) = old(self)@.items(start@, end@);
                match r {
                    Ok(pairs) => fault is None && lists(pairs@, absorb_all(Map::empty(), items)),
                    Err(e) => fault == Some(e@),
                }
            },
    {
        if self.closed {
            return Err(StorageError::Closed);
        }
        let ghost whole = self@.items(start@, end@);
        let mut results = EntryTable::new();
        collect_memtable(&self.memtable, start, end, &mut results);
        let ghost first = entries_in(self@.memtable.entries, start@, end@);
        self.collect_immutables(start, end, &mut results);
        let ghost second = memtable_items(self@.immutables, start@, end@);
        proof {
            lemma_absorb_concat(Map::empty(), first, second);
        }
        self.collect_levels(start, end, &mut results)?;
        proof {
            let third = level_items(
                old(self)@.levels,
                0,
                old(self)@.config.max_levels as nat,
                start@,
                end@,
            ).0;
            lemma_absorb_concat(Map::empty(), first + second, third);
            assert(first + second + third =~= first + (second + third));
        }
        Ok(list_values(results))
    }

    /// Absorbs the entries of a range in the memtables that wait.
    fn collect_immutables(&self, start: &[u8], end: &[u8], into: &mut EntryTable)
        requires
            self.wf(),
            key_at_most(start@, end@),
            old(into).wf(),
        ensures
            final(into).wf(),
            final(into)@ == absorb_all(
                old(into)@,
                memtable_items(self@.immutables, start@, end@),
            ),
    {
        let ghost views = self@.immutables;
        let ghost whole = memtable_items(views, start@, end@);
        let ghost mut done: Seq<EntryView> = Seq::empty();
        let mut i: usize = self.immutable_memtables.len();
        proof {
            assert(views.take(i as int) =~= views);
            assert(done + whole =~= whole);
        }
        while i > 0
            invariant
                self.wf(),
                key_at_most(start@, end@),
                views == self@.immutables,
                i <= self.immutable_memtables@.len(),
                into.wf(),
                into@ == absorb_all(old(into)@, done),
                whole == memtable_items(views, start@, end@),
                whole == done + memtable_items(views.take(i as int), start@, end@),
            decreases i,
        {
            let ghost part = entries_in(views[i - 1].entries, start@, end@);
            assert(views.take(i as int).last() == self.immutable_memtables@[i - 1]@);
            assert(views.take(i as int).drop_last() =~= views.take(i - 1));
            collect_memtable(&self.immutable_memtables[i - 1], start, end, into);
            proof {
                lemma_absorb_concat(old(into)@, done, part);
                let rest = memtable_items(views.take(i - 1), start@, end@);
                assert(done + (part + rest) =~= (done + part) + rest);
                done = done + part;
            }
            i = i - 1;
        }
        assert(done + Seq::<EntryView>::empty() =~= done);
    }

    /// Absorbs the entries of a range in the files.
    fn collect_levels(&mut self, start: &[u8], end: &[u8], into: &mut EntryTable) -> (r: Result<()>)
        requires
            old(self).wf(),
            old(into).wf(),
        ensures
            final(self).wf(),
            final(self)@.fresh() == old(self)@.fresh(),
            final(into).wf(),
            ({
                let (items, fault) = level_items(
                    old(self)@.levels,
                    0,
                    old(self)@.config.max_levels as nat,
                    start@,
                    end@,
                );
                match r {
                    Ok(_) => fault is None && final(into)@ == absorb_all(old(into)@, items),
                    Err(e) => fault == Some(e@),
                }
            }),
    {
        let ghost levels = self@.levels;
        let max: usize = self.config.max_levels;
        let ghost whole = level_items(levels, 0, max as nat, start@, end@);
        let ghost mut done: Seq<EntryView> = Seq::empty();
        let mut level: usize = 0;
        assert(done + whole.0 =~= whole.0);
        while level < max
            invariant
                self.wf(),
                self@.fresh() == old(self)@.fresh(),
                levels == old(self)@.levels,
                max == old(self)@.config.max_levels,
                level <= max,
                forall|l: usize|
                    level <= l ==> tables_at(self@.levels, l) == #[trigger] tables_at(levels, l),
                into.wf(),
                into@ == absorb_all(old(into)@, done),
                whole == level_items(levels, 0, max as nat, start@, end@),
                whole == ahead(
                    done,
                    level_items(levels, level as nat, max as nat, start@, end@),
                ),
            decreases max - level,
        {
            let ghost part = table_items(tables_at(levels, level), 0, start@, end@);
            self.collect_level(level, start, end, into)?;
            proof {
                lemma_absorb_concat(old(into)@, done, part.0);
                let rest = level_items(levels, (level + 1) as nat, max as nat, start@, end@);
                assert(done + (part.0 + rest.0) =~= (done + part.0) + rest.0);
                done = done + part.0;
            }
            level = level + 1;
        }
        assert(done + Seq::<EntryView>::empty() =~= done);
        Ok(())
    }

    /// Absorbs the entries of a range in the tables of a level.
    fn collect_level(
        &mut self,
        level: usize,
        start: &[u8],
        end: &[u8],
        into: &mut EntryTable,
    ) -> (r: Result<()>)
        requires
            old(self).wf(),
            old(into).wf(),
        ensures
            final(self).wf(),
            final(self)@.fresh() == old(self)@.fresh(),
            forall|l: usize|
                l != level ==> tables_at(final(self)@.levels, l) == #[trigger] tables_at(
                    old(self)@.levels,
                    l,
                ),
            final(into).wf(),
            ({
                let (items, fault) = table_items(
                    tables_at(old(self)@.levels, level),
                    0,
                    start@,
                    end@,
                );
                match r {
                    Ok(_) => fault is None && final(into)@ == absorb_all(old(into)@, items),
                    Err(e) => fault == Some(e@),
                }
            }),
    {
        let ghost tables = tables_at(self@.levels, level);
        let ghost whole = table_items(tables, 0, start@, end@);
        let ghost mut done: Seq<EntryView> = Seq::empty();
        let count: usize = match self.sstables.table_count(level) {
            Some(n) => n,
            None => 0,
        };
        let mut i: usize = 0;
        assert(done + whole.0 =~= whole.0);
        while i < count
            invariant
                self.wf(),
                self@.fresh() == old(self)@.fresh(),
                tables == tables_at(old(self)@.levels, level),
                tables_at(self@.levels, level).len() == tables.len(),
                count == tables.len(),
                i <= count,
                forall|l: usize|
                    l != level ==> tables_at(self@.levels, l) == #[trigger] tables_at(
                        old(self)@.levels,
                        l,
                    ),
                forall|j: int|
                    i <= j < count ==> #[trigger] tables_at(self@.levels, level)[j] == tables[j],
                into.wf(),
                into@ == absorb_all(old(into)@, done),
                whole == table_items(tables, 0, start@, end@),
                whole == ahead(done, table_items(tables, i as int, start@, end@)),
            decreases count - i,
        {
            assert(tables_at(self@.levels, level)[i as int] == tables[i as int]);
            let entries = self.sstables.range_in(level, i, start, end)?;
            let ghost part = entry_views(entries@);
            absorb_entries(entries, into);
            proof {
                lemma_absorb_concat(old(into)@, done, part);
                let rest = table_items(tables, i + 1, start@, end@);
                assert(done + (part + rest.0) =~= (done + part) + rest.0);
                done = done + part;
            }
            i = i + 1;
        }
        assert(done + Seq::<EntryView>::empty() =~= done);
        Ok(())
    }
}

/// Absorbs the entries of a range in a memtable.
fn collect_memtable(memtable: &MemTable, start: &[u8], end: &[u8], into: &mut EntryTable)
    requires
        memtable.wf(),
        key_at_most(start@, end@),
        old(into).wf(),
    ensures
        final(into).wf(),
        final(into)@ == absorb_all(old(into)@, entries_in(memtable@.entries, start@, end@)),
{
    let pairs = memtable.range_iter(start, end);
    let ghost items = entries_in(memtable@.entries, start@, end@);
    let mut i: usize = 0;
    assert(items.take(0) =~= Seq::empty());
    while i < pairs.len()
        invariant
            i <= pairs@.len(),
            keyed(pairs@, items),
            into.wf(),
            into@ == absorb_all(old(into)@, items.take(i as int)),
        decreases pairs@.len() - i,
    {
        let entry = pairs[i].1.clone();
        into.absorb(entry);
        assert(items.take(i + 1).drop_last() =~= items.take(i as int));
        i = i + 1;
    }
    assert(items.take(i as int) =~= items);
}

/// Absorbs entries.
pub(crate) fn absorb_entries(entries: Vec<Entry>, into: &mut EntryTable)
    requires
        old(into).wf(),
    ensures
        final(into).wf(),
        final(into)@ == absorb_all(old(into)@, entry_views(entries@)),
{
    let ghost items = entry_views(entries@);
    let mut i: usize = 0;
    assert(items.take(0) =~= Seq::empty());
    while i < entries.len()
        invariant
            i <= entries@.len(),
            items == entry_views(entries@),
            into.wf(),
            into@ == absorb_all(old(into)@, items.take(i as int)),
        decreases entries@.len() - i,
    {
        into.absorb(entries[i].clone());
        assert(items.take(i + 1).drop_last() =~= items.take(i as int));
        assert(items.take(i + 1).last() == entries@[i as int]@);
        i = i + 1;
    }
    assert(items.take(i as int) =~= items);
}

/// The keys and values of a table, without those that have no value or an empty one.
fn list_values(entries: EntryTable) -> (r: Vec<(Key, Value)>)
    requires
        entries.wf(),
    ensures
        lists(r@, entries@),
{
    let ghost m = entries@;
    let ghost s = entries.seq();
    let list = entries.into_entries();
    let mut r: Vec<(Key, Value)> = Vec::new();
    let ghost mut origin: Seq<int> = Seq::empty();
    let mut i: usize = 0;
    while i < list.len()
        invariant
            i <= list@.len(),
            s == entry_views(list@),
            sorted(s),
            m == table(s),
            origin.len() == r@.len(),
            forall|k: int|
                0 <= k < origin.len() ==> 0 <= #[trigger] origin[k] < i && s[origin[k]].key
                    == r@[k].0@ && s[origin[k]].value == Some(r@[k].1@) && r@[k].1@.len() > 0,
            forall|a: int, b: int|
                0 <= a < b < origin.len() ==> #[trigger] origin[a] < #[trigger] origin[b],
            forall|j: int|
                0 <= j < i && has_value(#[trigger] s[j]) ==> exists|k: int|
                    0 <= k < origin.len() && #[trigger] origin[k] == j,
        decreases list@.len() - i,
    {
        let entry = &list[i];
        assert(entry@ == s[i as int]);
        let ghost before = origin;
        match &entry.value {
            Some(value) => {
                if value.len() > 0 {
                    r.push(
                        (
                            crate::copy_bytes(entry.key.as_slice()),
                            crate::copy_bytes(value.as_slice()),
                        ),
                    );
                    proof {
                        origin = origin.push(i as int);
                        assert(origin[before.len() as int] == i);
                    }
                }
            },
            None => {},
        }
        proof {
            assert forall|j: int| 0 <= j < i + 1 && has_value(#[trigger] s[j]) implies exists|k: int|
                0 <= k < origin.len() && #[trigger] origin[k] == j by {
                if j < i {
                    let k = choose|k: int| 0 <= k < before.len() && #[trigger] before[k] == j;
                    assert(origin[k] == j);
                }
            }
        }
        i = i + 1;
    }
    proof {
        assert forall|a: int, b: int| 0 <= a < b < r@.len() implies key_less(
            (#[trigger] r@[a]).0@,
            (#[trigger] r@[b]).0@,
        ) by {
            assert(origin[a] < origin[b]);
            assert(key_less(s[origin[a]].key, s[origin[b]].key));
        }
        assert forall|k: int| 0 <= k < r@.len() implies m.contains_key((#[trigger] r@[k]).0@)
            && m[r@[k].0@].value == Some(r@[k].1@) && r@[k].1@.len() > 0 by {
            lemma_table_entry(s, origin[k]);
        }
        assert forall|key: Seq<u8>| #[trigger]
            m.contains_key(key) && has_value(m[key]) implies exists|k: int|
            0 <= k < r@.len() && (#[trigger] r@[k]).0@ == key by {
            let j = choose|j: int| 0 <= j < s.len() && #[trigger] s[j].key == key;
            lemma_table_entry(s, j);
            assert(has_value(s[j]));
            let k = choose|k: int| 0 <= k < origin.len() && #[trigger] origin[k] == j;
            assert(r@[k].0@ == key);
        }
    }
    r
}

/// Law: the entries of a range in the tables of a level are those of each table, one table after the
/// other; the first table that cannot be read ends them with its error.
pub proof fn law_tables_are_scanned_in_turn(
    tables: Seq<ReaderView>,
    table: ReaderView,
    start: Seq<u8>,
    end: Seq<u8>,
)
    ensures
        ({
            let before = table_items(tables, 0, start, end);
            let after = table_items(tables.push(table), 0, start, end);
            match before.1 {
                Some(e) => after == before,
                None => match table.range_of(start, end).0 {
                    Ok(s) => after == (before.0 + s, None::<ErrorView>),
                    Err(e) => after == (before.0, Some(e)),
                },
            }
        }),
        table_items(Seq::empty(), 0, start, end) == (Seq::<EntryView>::empty(), None::<ErrorView>),
{
    lemma_scanned_in_turn(tables, table, 0, start, end);
}

proof fn lemma_scanned_in_turn(
    tables: Seq<ReaderView>,
    table: ReaderView,
    i: int,
    start: Seq<u8>,
    end: Seq<u8>,
)
    requires
        0 <= i <= tables.len(),
    ensures
        ({
            let before = table_items(tables, i, start, end);
            let after = table_items(tables.push(table), i, start, end);
            match before.1 {
                Some(e) => after == before,
                None => match table.range_of(start, end).0 {
                    Ok(s) => after == (before.0 + s, None::<ErrorView>),
                    Err(e) => after == (before.0, Some(e)),
                },
            }
        }),
    decreases tables.len() - i,
{
    let more = tables.push(table);
    if i < tables.len() {
        assert(more[i] == tables[i]);
        lemma_scanned_in_turn(tables, table, i + 1, start, end);
        if let Ok(s) = tables[i].range_of(start, end).0 {
            let rest = table_items(tables, i + 1, start, end);
            if let Ok(t) = table.range_of(start, end).0 {
                assert(s + (rest.0 + t) =~= (s + rest.0) + t);
            }
        }
    } else {
        assert(more[i] == table);
        assert(table_items(more, i + 1, start, end) == (
            Seq::<EntryView>::empty(),
            None::<ErrorView>,
        ));
        if let Ok(t) = table.range_of(start, end).0 {
            assert(t + Seq::<EntryView>::empty() =~= t);
            assert(Seq::<EntryView>::empty() + t =~= t);
        }
    }
}

/// Law: a scan takes the entries of the memtable, of each memtable that waits, and of every level
/// before the last; an error in a level ends it.
pub proof fn law_every_place_is_scanned(
    engine: EngineView,
    waiting: Seq<MemTableView>,
    one: MemTableView,
    level: nat,
    start: Seq<u8>,
    end: Seq<u8>,
)
    ensures
        engine.items(start, end).0 == entries_in(engine.memtable.entries, start, end)
            + memtable_items(engine.immutables, start, end) + level_items(
            engine.levels,
            0,
            engine.config.max_levels as nat,
            start,
            end,
        ).0,
        engine.items(start, end).1 == level_items(
            engine.levels,
            0,
            engine.config.max_levels as nat,
            start,
            end,
        ).1,
        memtable_items(waiting.push(one), start, end) == entries_in(one.entries, start, end)
            + memtable_items(waiting, start, end),
        memtable_items(Seq::empty(), start, end).len() == 0,
        level >= engine.config.max_levels ==> level_items(
            engine.levels,
            level,
            engine.config.max_levels as nat,
            start,
            end,
        ) == (Seq::<EntryView>::empty(), None::<ErrorView>),
        level < engine.config.max_levels ==> ({
            let max = engine.config.max_levels as nat;
            let here = table_items(tables_at(engine.levels, level as usize), 0, start, end);
            let rest = level_items(engine.levels, level + 1, max, start, end);
            match here.1 {
                Some(e) => level_items(engine.levels, level, max, start, end) == here,
                None => level_items(engine.levels, level, max, start, end) == (
                    here.0 + rest.0,
                    rest.1,
                ),
            }
        }),
{
    assert(waiting.push(one).drop_last() =~= waiting);
    let a = entries_in(engine.memtable.entries, start, end);
    let b = memtable_items(engine.immutables, start, end);
    let c = level_items(engine.levels, 0, engine.config.max_levels as nat, start, end).0;
    assert(a + (b + c) =~= a + b + c);
}

/// Law: a list of pairs is that of a table where its keys go up, each pair is an entry with a value
/// that is not empty, and every such entry is among them.
pub proof fn law_listed_pairs_are_entries(
    r: Seq<(Key, Value)>,
    m: Map<Seq<u8>, EntryView>,
    key: Seq<u8>,
)
    requires
        lists(r, m),
    ensures
        forall|i: int, j: int|
            0 <= i < j < r.len() ==> key_less((#[trigger] r[i]).0@, (#[trigger] r[j]).0@),
        forall|i: int|
            0 <= i < r.len() ==> m.contains_key((#[trigger] r[i]).0@) && m[r[i].0@].value == Some(
                r[i].1@,
            ),
        m.contains_key(key) && m[key].value is Some && m[key].value->0.len() > 0 ==> exists|i: int|
            0 <= i < r.len() && (#[trigger] r[i]).0@ == key,
{
    if m.contains_key(key) && m[key].value is Some && m[key].value->0.len() > 0 {
        assert(m.contains_key(key) && has_value(m[key]));
    }
}

} // verus!
