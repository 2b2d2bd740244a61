//! Merging the tables of a level into the next one.
use crate::error::Result;
use crate::levels::{reader_views, tables_at};
use crate::names::{table_file_name, table_name};
use crate::order::{key_less, law_key_less_irreflexive};
use crate::sorted::{absorb_all, has_key, law_newest_entry_stays, lemma_absorb_concat, lemma_table_entry, newest_at, sorted, table, total_bytes, EntryTable};
use crate::sstable::reader::{ReaderView, SSTableReader};
use crate::sstable::writer::joined;
use crate::storage::scan::{ahead, and_next, Found};
use crate::storage::{EngineView, StorageEngine};
use crate::{entry_views, Entry, EntryView, SequenceNumber};
use vstd::arithmetic::power::pow;
use vstd::prelude::*;

verus! {

/// The entries of the tables from `i` on, table by table, up to the first error.
pub open spec fn walked(tables: Seq<ReaderView>, i: int) -> Found
    decreases tables.len() - i,
{
    if i >= tables.len() {
        (Seq::empty(), None)
    } else {
        and_next(tables[i].stream(0), walked(tables, i + 1))
    }
}

/// The entries of `m` that do not mark a deletion.
pub open spec fn live(m: Map<Seq<u8>, EntryView>) -> Map<Seq<u8>, EntryView> {
    Map::new(
        |key: Seq<u8>| m.contains_key(key) && m[key].value is Some,
        |key: Seq<u8>| m[key],
    )
}

/// Entries in groups: those that are full, and the one that is being filled.
pub open spec fn grouping(s: Seq<EntryView>, target: nat) -> (Seq<Seq<EntryView>>, Seq<EntryView>)
    decreases s.len(),
{
    if s.len() == 0 {
        (Seq::empty(), Seq::empty())
    } else {
        let (full, open) = grouping(s.drop_last(), target);
        if open.len() > 0 && total_bytes(open) + s.last().size() > target {
            (full.push(open), seq![s.last()])
        } else {
            (full, open.push(s.last()))
        }
    }
}

/// Entries in groups, one for each table that is written.
pub open spec fn groups(s: Seq<EntryView>, target: nat) -> Seq<Seq<EntryView>> {
    let (full, open) = grouping(s, target);
    if open.len() > 0 {
        full.push(open)
    } else {
        full
    }
}

/// The views of groups of entries.
pub open spec fn group_views(s: Seq<Vec<Entry>>) -> Seq<Seq<EntryView>> {
    s.map_values(|g: Vec<Entry>| entry_views(g@))
}

/// The sum of the data sizes of the tables, as far as 64 bits hold it.
pub open spec fn data_bytes(tables: Seq<ReaderView>) -> u64
    decreases tables.len(),
{
    if tables.len() == 0 {
        0
    } else {
        data_bytes(tables.drop_last()).wrapping_add(tables.last().meta.data_size)
    }
}

impl EngineView {
    /// Whether a level has to be merged into the next one: the first level where it has too many
    /// tables, the others where they hold too many bytes. The last level never has to.
    pub open spec fn needs_compaction(self, level: usize) -> bool {
        if level == 0 {
            &&& 1 < self.config.max_levels
            &&& tables_at(self.levels, 0).len() >= self.config.l0_compaction_threshold
        } else {
            &&& level + 1 < self.config.max_levels
            &&& self.config.target_fits(level as nat)
            &&& data_bytes(tables_at(self.levels, level)) > self.config.target_size(level as nat)
        }
    }

    /// The tables that are merged: those of a level and those of the next one.
    pub open spec fn merge_inputs(self, level: usize) -> Seq<ReaderView> {
        tables_at(self.levels, level) + tables_at(self.levels, (level + 1) as usize)
    }

    /// The engine after a level was merged into the next one, which has these tables now.
    pub open spec fn merged(self, level: usize, tables: Seq<ReaderView>) -> EngineView {
        EngineView {
            levels: self.levels.insert(level, Seq::empty()).insert((level + 1) as usize, tables),
            ..self
        }
    }

    /// The bytes that a table of a level is meant to have.
    pub open spec fn table_target(self, level: usize) -> nat {
        if level == 0 {
            self.config.l0_sstable_size as nat
        } else {
            self.config.l0_sstable_size as nat * 2
        }
    }
}

/// Law: merging keeps, of the entries for each key, the one of the highest sequence number, the
/// first where several have it, unless it marks a deletion: the key is left out then.
pub proof fn law_merge_keeps_newest(items: Seq<EntryView>, i: int)
    requires
        newest_at(items, i),
    ensures
        ({
            let merged = live(absorb_all(Map::empty(), items));
            if items[i].value is Some {
                merged.contains_key(items[i].key) && merged[items[i].key] == items[i]
            } else {
                !merged.contains_key(items[i].key)
            }
        }),
        forall|key: Seq<u8>| #[trigger]
            live(absorb_all(Map::empty(), items)).contains_key(key) ==> has_key(items, key),
{
    law_newest_entry_stays(items, items[i].key);
    assert(has_key(items, items[i].key));
    assert forall|key: Seq<u8>| #[trigger]
        live(absorb_all(Map::empty(), items)).contains_key(key) implies has_key(items, key) by {
        law_newest_entry_stays(items, key);
    }
}

/// Law: grouping entries loses none and keeps their order; no group is empty, and one of several
/// entries has no more bytes than a table is meant to have.
pub proof fn law_groups_keep_entries(s: Seq<EntryView>, target: nat)
    ensures
        joined(groups(s, target)) == s,
        forall|i: int|
            0 <= i < groups(s, target).len() ==> (#[trigger] groups(s, target)[i]).len() > 0,
        forall|i: int|
            0 <= i < groups(s, target).len() ==> (#[trigger] groups(s, target)[i]).len() == 1
                || total_bytes(groups(s, target)[i]) <= target,
{
    lemma_grouping(s, target);
    let (full, open) = grouping(s, target);
    if open.len() > 0 {
        assert(full.push(open).drop_last() =~= full);
    } else {
        assert(joined(full) + open =~= joined(full));
    }
}

proof fn lemma_grouping(s: Seq<EntryView>, target: nat)
    ensures
        ({
            let (full, open) = grouping(s, target);
            &&& joined(full) + open == s
            &&& s.len() > 0 ==> open.len() > 0
            &&& open.len() <= 1 || total_bytes(open) <= target
            &&& forall|i: int| 0 <= i < full.len() ==> (#[trigger] full[i]).len() > 0
            &&& forall|i: int|
                0 <= i < full.len() ==> (#[trigger] full[i]).len() == 1 || total_bytes(full[i])
                    <= target
        }),
    decreases s.len(),
{
    let (full, open) = grouping(s, target);
    if s.len() == 0 {
        assert(joined(full) + open =~= s);
    } else {
        lemma_grouping(s.drop_last(), target);
        let (full0, open0) = grouping(s.drop_last(), target);
        assert(s.drop_last().push(s.last()) =~= s);
        if open0.len() > 0 && total_bytes(open0) + s.last().size() > target {
            assert(full.drop_last() =~= full0);
            assert(joined(full) + open =~= (joined(full0) + open0).push(s.last()));
        } else {
            assert(open.drop_last() =~= open0);
            assert(joined(full) + open =~= (joined(full0) + open0).push(s.last()));
            if open0.len() == 0 {
                assert(open.len() == 1);
            }
        }
    }
}

impl StorageEngine {
    /// The first level from `from` on that has to be merged into the next one.
    pub fn next_compaction(&self, from: usize) -> (r: Option<usize>)
        requires
            self.wf(),
        ensures
            match r {
                Some(level) => {
                    &&& from <= level
                    &&& level + 1 < self@.config.max_levels
                    &&& self@.needs_compaction(level)
                    &&& forall|l: usize| from <= l < level ==> !self@.needs_compaction(l)
                },
                None => forall|l: usize| from <= l ==> !self@.needs_compaction(l),
            },
    {
        if from == 0 && 1 < self.config.max_levels {
            let count: usize = match self.sstables.table_count(0) {
                Some(n) => n,
                None => 0,
            };
            if count >= self.config.l0_compaction_threshold {
                return Some(0);
            }
        }
        let max: usize = self.config.max_levels;
        let mut level: usize = if from == 0 {
            1
        } else {
            from
        };
        while level < max - 1
            invariant
                self.wf(),
                max == self@.config.max_levels,
                max >= 1,
                from <= level,
                1 <= level,
                forall|l: usize| from <= l < level ==> !self@.needs_compaction(l),
            decreases max - level,
        {
            if self.level_needs_compaction(level) {
                return Some(level);
            }
            level = level + 1;
        }
        None
    }

    /// Whether a level but the first holds too many bytes.
    fn level_needs_compaction(&self, level: usize) -> (r: bool)
        requires
            self.wf(),
            0 < level,
            level + 1 < self@.config.max_levels,
        ensures
            r == self@.needs_compaction(level),
    {
        let ghost tables = tables_at(self@.levels, level);
        let count: usize = match self.sstables.table_count(level) {
            Some(n) => n,
            None => 0,
        };
        let mut current_size: u64 = 0;
        let mut i: usize = 0;
        assert(tables.take(0) =~= Seq::empty());
        while i < count
            invariant
                self.wf(),
                tables == tables_at(self@.levels, level),
                count == tables.len(),
                i <= count,
                current_size == data_bytes(tables.take(i as int)),
            decreases count - i,
        {
            current_size = current_size.wrapping_add(self.sstables.meta(level, i).data_size);
            assert(tables.take(i + 1).drop_last() =~= tables.take(i as int));
            i = i + 1;
        }
        assert(tables.take(i as int) =~= tables);
        match self.config.checked_level_target_size(level) {
            Some(target) => current_size > target as u64,
            None => false,
        }
    }

    /// The entries of a level and the next one, merged, or nothing where the level is empty.
    pub fn merge_sstables(&mut self, level: usize) -> (r: Result<Option<Vec<Entry>>>)
        requires
            old(self).wf(),
            level < usize::MAX,
        ensures
            final(self).wf(),
            final(self)@.fresh() == old(self)@.fresh(),
            if tables_at(old(self)@.levels, level).len() == 0 {
                r matches Ok(None)
            } else {
                let (items, fault) = walked(old(self)@.merge_inputs(level), 0);
                match r {
                    Ok(Some(entries)) => {
                        &&& fault is None
                        &&& sorted(entry_views(entries@))
                        &&& table(entry_views(entries@)) == live(absorb_all(Map::empty(), items))
                    },
                    Ok(None) => false,
                    Err(e) => fault == Some(e@),
                }
            },
    {
        let ghost current = tables_at(self@.levels, level);
        let ghost next = tables_at(self@.levels, (level + 1) as usize);
        let is_empty: bool = match self.sstables.table_count(level) {
            Some(n) => n == 0,
            None => true,
        };
        if is_empty {
            return Ok(None);
        }
        let mut entries = EntryTable::new();
        proof {
            lemma_walked_concat(current, next, 0);
        }
        self.absorb_level(level, &mut entries)?;
        self.absorb_level(level + 1, &mut entries)?;
        proof {
            lemma_absorb_concat(Map::empty(), walked(current, 0).0, walked(next, 0).0);
        }
        Ok(Some(keep_live(entries)))
    }

    /// Absorbs the entries of all tables of a level.
    fn absorb_level(&mut self, level: usize, into: &mut EntryTable) -> (r: Result<()>)
        requires
            old(self).wf(),
            old(into).wf(),
        ensures
            final(self).wf(),
            final(self)@.fresh() == old(self)@.fresh(),
            forall|l: usize|
                l != level ==> tables_at(final(self)@.levels, l) == #[trigger] tables_at(
                    old(self)@.levels,
                    l,
                ),
            final(into).wf(),
            ({
                let (items, fault) = walked(tables_at(old(self)@.levels, level), 0);
                match r {
                    Ok(_) => fault is None && final(into)@ == absorb_all(old(into)@, items),
                    Err(e) => fault == Some(e@),
                }
            }),
    {
        let ghost tables = tables_at(self@.levels, level);
        let ghost whole = walked(tables, 0);
        let ghost mut done: Seq<EntryView> = Seq::empty();
        let count: usize = match self.sstables.table_count(level) {
            Some(n) => n,
            None => 0,
        };
        let mut i: usize = 0;
        assert(done + whole.0 =~= whole.0);
        while i < count
            invariant
                self.wf(),
                self@.fresh() == old(self)@.fresh(),
                tables == tables_at(old(self)@.levels, level),
                tables_at(self@.levels, level).len() == tables.len(),
                count == tables.len(),
                i <= count,
                forall|l: usize|
                    l != level ==> tables_at(self@.levels, l) == #[trigger] tables_at(
                        old(self)@.levels,
                        l,
                    ),
                forall|j: int|
                    i <= j < count ==> #[trigger] tables_at(self@.levels, level)[j] == tables[j],
                into.wf(),
                into@ == absorb_all(old(into)@, done),
                whole == walked(tables, 0),
                whole == ahead(done, walked(tables, i as int)),
            decreases count - i,
        {
            assert(tables_at(self@.levels, level)[i as int] == tables[i as int]);
            let ghost part = tables[i as int].stream(0);
            self.sstables.absorb_in(level, i, into)?;
            proof {
                lemma_absorb_concat(old(into)@, done, part.0);
                let rest = walked(tables, i + 1);
                assert(done + (part.0 + rest.0) =~= (done + part.0) + rest.0);
                done = done + part.0;
            }
            i = i + 1;
        }
        assert(done + Seq::<EntryView>::empty() =~= done);
        Ok(())
    }

    /// Splits entries into groups, one for each table of a level that is written.
    pub fn split_for_level(&self, level: usize, entries: Vec<Entry>) -> (r: Vec<Vec<Entry>>)
        ensures
            group_views(r@) == groups(entry_views(entries@), self@.table_target(level)),
    {
        let target: u128 = if level == 0 {
            self.config.l0_sstable_size as u128
        } else {
            self.config.l0_sstable_size as u128 * 2
        };
        let ghost s = entry_views(entries@);
        let mut full: Vec<Vec<Entry>> = Vec::new();
        let mut open: Vec<Entry> = Vec::new();
        let mut open_size: u128 = 0;
        let mut i: usize = 0;
        proof {
            assert(s.take(0) =~= Seq::empty());
            assert(group_views(full@) =~= Seq::empty());
            assert(entry_views(open@) =~= Seq::empty());
        }
        while i < entries.len()
            invariant
                i <= entries@.len(),
                s == entry_views(entries@),
                target == self@.table_target(level),
                target <= 2 * usize::MAX,
                grouping(s.take(i as int), target as nat) == (
                    group_views(full@),
                    entry_views(open@),
                ),
                open_size == total_bytes(entry_views(open@)),
                open_size <= 2 * usize::MAX + 16,
            decreases entries@.len() - i,
        {
            let ghost before_full = group_views(full@);
            let ghost before_open = entry_views(open@);
            assert(entries@[i as int]@ == s[i as int]);
            let entry = entries[i].clone();
            let ghost view = entry@;
            let value_size: u128 = match &entry.value {
                Some(v) => v.len() as u128,
                None => 0,
            };
            let entry_size: u128 = entry.key.len() as u128 + value_size + 16;
            assert(entry_size == view.size());
            proof {
                assert(s.take(i + 1).drop_last() =~= s.take(i as int));
                assert(s.take(i + 1).last() == view);
            }
            if open.len() > 0 && open_size + entry_size > target {
                let mut done: Vec<Entry> = Vec::new();
                std::mem::swap(&mut open, &mut done);
                full.push(done);
                open_size = 0;
                proof {
                    assert(group_views(full@) =~= before_full.push(before_open));
                    assert(entry_views(open@) =~= Seq::empty());
                }
            }
            let ghost base = entry_views(open@);
            open.push(entry);
            open_size = open_size + entry_size;
            proof {
                assert(entry_views(open@) =~= base.push(view));
                assert(base.push(view).drop_last() =~= base);
                assert(total_bytes(base.push(view)) == total_bytes(base) + view.size());
                if base.len() == 0 {
                    assert(base =~= Seq::empty());
                    assert(base.push(view) =~= seq![view]);
                }
            }
            i = i + 1;
        }
        assert(s.take(i as int) =~= s);
        if open.len() > 0 {
            let ghost last = entry_views(open@);
            let ghost before_full = group_views(full@);
            full.push(open);
            assert(group_views(full@) =~= before_full.push(last));
        }
        full
    }

    /// The name of the file of the next table of a level.
    pub fn next_table_name(&mut self, level: usize, seconds: u64) -> (r: String)
        requires
            old(self).wf(),
        ensures
            r@ == table_name(level as nat, seconds as nat, old(self)@.sequence as nat),
            final(self).wf(),
            final(self)@ == (EngineView {
                sequence: old(self)@.sequence.wrapping_add(1),
                ..old(self)@
            }),
    {
        let sequence: SequenceNumber = self.next_sequence();
        table_file_name(level, seconds, sequence)
    }

    /// Empties a level and gives the next one the merged tables; hands out the tables of both.
    pub fn finish_compaction(&mut self, level: usize, tables: Vec<SSTableReader>) -> (r: (
        Vec<SSTableReader>,
        Vec<SSTableReader>,
    ))
        requires
            old(self).wf(),
            level < usize::MAX,
            forall|i: int| 0 <= i < tables@.len() ==> (#[trigger] tables@[i])@.sound(),
        ensures
            final(self).wf(),
            reader_views(r.0@) == tables_at(old(self)@.levels, level),
            reader_views(r.1@) == tables_at(old(self)@.levels, (level + 1) as usize),
            final(self)@ == old(self)@.merged(level, reader_views(tables@)),
    {
        let ghost before = self@.levels;
        let empty: Vec<SSTableReader> = Vec::new();
        assert(reader_views(empty@) =~= Seq::empty());
        let old_current = self.sstables.replace(level, empty);
        let old_next = self.sstables.replace(level + 1, tables);
        proof {
            let m = self@.levels;
            assert forall|l: usize, i: int| m.contains_key(l) && 0 <= i < m[l].len() implies (
            #[trigger] m[l][i]).sound() by {
                if l == level + 1 {
                    assert(m[l][i] == tables@[i]@);
                } else if l != level {
                    assert(before[l][i].sound());
                }
            }
        }
        (old_current, old_next)
    }

    /// Adds a table behind those of a level.
    pub fn install(&mut self, level: usize, reader: SSTableReader)
        requires
            old(self).wf(),
            reader@.sound(),
        ensures
            final(self).wf(),
            final(self)@ == (EngineView {
                levels: old(self)@.levels.insert(
                    level,
                    tables_at(old(self)@.levels, level).push(reader@),
                ),
                ..old(self)@
            }),
    {
        let ghost before = self@.levels;
        let ghost view = reader@;
        self.sstables.add(level, reader);
        proof {
            let m = self@.levels;
            assert forall|l: usize, i: int| m.contains_key(l) && 0 <= i < m[l].len() implies (
            #[trigger] m[l][i]).sound() by {
                if l != level || i < tables_at(before, level).len() {
                    assert(before[l][i].sound());
                }
            }
        }
    }
}

/// What is walked of two sequences of tables.
pub proof fn lemma_walked_concat(a: Seq<ReaderView>, b: Seq<ReaderView>, i: int)
    requires
        0 <= i <= a.len(),
    ensures
        walked(a + b, i) == and_next(walked(a, i), walked(b, 0)),
    decreases a.len() - i,
{
    if i < a.len() {
        lemma_walked_concat(a, b, i + 1);
        let s = a[i].stream(0);
        let x = walked(a, i + 1);
        let y = walked(b, 0);
        assert((a + b)[i] == a[i]);
        assert(s.0 + (x.0 + y.0) =~= (s.0 + x.0) + y.0);
    } else {
        lemma_walked_shift(a, b, 0);
        assert(Seq::<EntryView>::empty() + walked(b, 0).0 =~= walked(b, 0).0);
    }
}

proof fn lemma_walked_shift(a: Seq<ReaderView>, b: Seq<ReaderView>, i: int)
    requires
        0 <= i <= b.len(),
    ensures
        walked(a + b, a.len() + i) == walked(b, i),
    decreases b.len() - i,
{
    if i < b.len() {
        lemma_walked_shift(a, b, i + 1);
        assert((a + b)[a.len() + i] == b[i]);
    }
}

/// The entries of a table that do not mark a deletion.
fn keep_live(entries: EntryTable) -> (r: Vec<Entry>)
    requires
        entries.wf(),
    ensures
        sorted(entry_views(r@)),
        table(entry_views(r@)) == live(entries@),
{
    let ghost m = entries@;
    let ghost s = entries.seq();
    let list = entries.into_entries();
    let mut kept = EntryTable::new();
    let mut i: usize = 0;
    assert(live(table(s.take(0))) =~= Map::empty());
    while i < list.len()
        invariant
            i <= list@.len(),
            s == entry_views(list@),
            sorted(s),
            kept.wf(),
            kept@ == live(table(s.take(i as int))),
        decreases list@.len() - i,
    {
        let entry = &list[i];
        assert(entry@ == s[i as int]);
        proof {
            lemma_live_step(s, i as int);
        }
        if entry.value.is_some() {
            kept.insert(entry.clone());
        }
        i = i + 1;
    }
    assert(s.take(i as int) =~= s);
    kept.into_entries()
}

proof fn lemma_live_step(s: Seq<EntryView>, i: int)
    requires
        sorted(s),
        0 <= i < s.len(),
    ensures
        live(table(s.take(i + 1))) == (if s[i].value is Some {
            live(table(s.take(i))).insert(s[i].key, s[i])
        } else {
            live(table(s.take(i)))
        }),
{
    let a = s.take(i);
    let b = s.take(i + 1);
    assert(sorted(b)) by {
        assert forall|x: int, y: int| 0 <= x < y < b.len() implies key_less(
            #[trigger] b[x].key,
            #[trigger] b[y].key,
        ) by {
            assert(key_less(s[x].key, s[y].key));
        }
    }
    assert(sorted(a)) by {
        assert forall|x: int, y: int| 0 <= x < y < a.len() implies key_less(
            #[trigger] a[x].key,
            #[trigger] a[y].key,
        ) by {
            assert(key_less(s[x].key, s[y].key));
        }
    }
    assert(b.drop_last() =~= a);
    lemma_table_entry(b, i);
    assert forall|key: Seq<u8>| key != s[i].key implies (table(b).contains_key(key) == table(
        a,
    ).contains_key(key) && (table(a).contains_key(key) ==> #[trigger] table(b)[key] == table(
        a,
    )[key])) by {
        if has_key(a, key) {
            let k = choose|k: int| 0 <= k < a.len() && #[trigger] a[k].key == key;
            assert(b[k].key == key);
            lemma_table_entry(a, k);
            lemma_table_entry(b, k);
        }
        if has_key(b, key) {
            let k = choose|k: int| 0 <= k < b.len() && #[trigger] b[k].key == key;
            assert(a[k].key == key);
        }
    }
    let want = if s[i].value is Some {
        live(table(a)).insert(s[i].key, s[i])
    } else {
        live(table(a))
    };
    assert(!table(a).contains_key(s[i].key)) by {
        if has_key(a, s[i].key) {
            let k = choose|k: int| 0 <= k < a.len() && #[trigger] a[k].key == s[i].key;
            assert(key_less(s[k].key, s[i].key));
            law_key_less_irreflexive(s[i].key);
        }
    }
    assert(live(table(b)) =~= want);
}

/// What the sizes of tables add up to is what they are counted as, as long as 64 bits hold it.
pub proof fn lemma_data_bytes_add_up(tables: Seq<ReaderView>, with_size: spec_fn(int, ReaderView) -> int)
    requires
        forall|sum: int, t: ReaderView| #[trigger] with_size(sum, t) == sum + t.meta.data_size,
        tables.fold_left(0int, with_size) <= u64::MAX,
    ensures
        data_bytes(tables) == tables.fold_left(0int, with_size),
        tables.fold_left(0int, with_size) >= 0,
    decreases tables.len(),
{
    if tables.len() > 0 {
        lemma_sum_is_not_negative(tables.drop_last(), with_size);
        lemma_data_bytes_add_up(tables.drop_last(), with_size);
    }
}

proof fn lemma_sum_is_not_negative(tables: Seq<ReaderView>, with_size: spec_fn(int, ReaderView) -> int)
    requires
        forall|sum: int, t: ReaderView| #[trigger] with_size(sum, t) == sum + t.meta.data_size,
    ensures
        tables.fold_left(0int, with_size) >= 0,
    decreases tables.len(),
{
    if tables.len() > 0 {
        lemma_sum_is_not_negative(tables.drop_last(), with_size);
    }
}

/// Law: a level but the first and the last has to be merged exactly where the sizes of all of its
/// tables add up to more than the size of a table of the first level times the multiplier raised to
/// the level; the first one exactly where it has as many tables as it may have, and is not the last;
/// the last one never.
///
/// The target has to be a number that the machine can hold, and so has the sum.
pub proof fn law_outgrown_level_is_due(engine: EngineView, level: usize)
    ensures
        ({
            let tables = tables_at(engine.levels, level);
            let sum = tables.fold_left(
                0int,
                |sum: int, t: ReaderView| sum + t.meta.data_size as int,
            );
            let factor = pow(engine.config.level_size_multiplier as int, level as nat);
            let target = engine.config.l0_sstable_size * factor;
            &&& 0 < level < 0x1_0000_0000 && level + 1 < engine.config.max_levels && factor
                <= usize::MAX && target <= usize::MAX && sum <= u64::MAX ==> (
            engine.needs_compaction(level) <==> sum > target)
            &&& level == 0 ==> (engine.needs_compaction(level) <==> engine.config.max_levels > 1
                && tables.len() >= engine.config.l0_compaction_threshold)
            &&& level + 1 >= engine.config.max_levels ==> !engine.needs_compaction(level)
        }),
{
    let tables = tables_at(engine.levels, level);
    let with_size = |sum: int, t: ReaderView| sum + t.meta.data_size as int;
    if tables.fold_left(0int, with_size) <= u64::MAX {
        lemma_data_bytes_add_up(tables, with_size);
    }
    if 0 < level < 0x1_0000_0000 {
        crate::config::lemma_target_is_a_power(engine.config, level as nat);
    }
}

/// Law: whether a level has to be merged does not depend on the order of its tables.
pub proof fn law_order_of_tables_does_not_matter(a: EngineView, b: EngineView, level: usize)
    requires
        a.config == b.config,
        tables_at(a.levels, level).to_multiset() == tables_at(b.levels, level).to_multiset(),
    ensures
        a.needs_compaction(level) == b.needs_compaction(level),
{
    let x = tables_at(a.levels, level);
    let y = tables_at(b.levels, level);
    let f = |sum: u64, t: ReaderView| sum.wrapping_add(t.meta.data_size);
    assert forall|s: ReaderView, t: ReaderView, v: u64| #[trigger] f(f(v, s), t) == f(
        f(v, t),
        s,
    ) by {}
    vstd::seq_lib::lemma_fold_left_permutation(x, y, f, 0u64);
    lemma_data_bytes_folds(x, f);
    lemma_data_bytes_folds(y, f);
    x.to_multiset_ensures();
    y.to_multiset_ensures();
}

proof fn lemma_data_bytes_folds(tables: Seq<ReaderView>, f: spec_fn(u64, ReaderView) -> u64)
    requires
        forall|sum: u64, t: ReaderView| #[trigger]
            f(sum, t) == sum.wrapping_add(t.meta.data_size),
    ensures
        data_bytes(tables) == tables.fold_left(0u64, f),
    decreases tables.len(),
{
    if tables.len() > 0 {
        lemma_data_bytes_folds(tables.drop_last(), f);
    }
}

/// Law: a level that has to be merged still has to be where it gets one more table, wherever the
/// table is put, as long as 64 bits hold the sizes.
pub proof fn law_growing_level_stays_due(
    engine: EngineView,
    level: usize,
    table: ReaderView,
    at: int,
)
    requires
        engine.needs_compaction(level),
        0 <= at <= tables_at(engine.levels, level).len(),
        data_bytes(tables_at(engine.levels, level)) + table.meta.data_size <= u64::MAX,
    ensures
        (EngineView {
            levels: engine.levels.insert(
                level,
                tables_at(engine.levels, level).insert(at, table),
            ),
            ..engine
        }).needs_compaction(level),
{
    let tables = tables_at(engine.levels, level);
    let more = tables.insert(at, table);
    let last = EngineView { levels: engine.levels.insert(level, tables.push(table)), ..engine };
    let after = EngineView { levels: engine.levels.insert(level, more), ..engine };
    assert(tables.push(table).drop_last() =~= tables);
    assert(last.needs_compaction(level));
    tables.to_multiset_ensures();
    assert(tables.insert(at, table).to_multiset() =~= tables.to_multiset().insert(table)) by {
        broadcast use vstd::seq_lib::group_to_multiset_ensures;

    }
    assert(tables.push(table).to_multiset() =~= tables.to_multiset().insert(table)) by {
        broadcast use vstd::seq_lib::group_to_multiset_ensures;

    }
    law_order_of_tables_does_not_matter(last, after, level);
}

/// Law: a merge keeps an entry for a key exactly where the one of the highest number, the first of
/// several, has a value, and keeps that one as it is.
pub proof fn law_merge_keeps_highest_number(items: Seq<EntryView>, i: int)
    requires
        0 <= i < items.len(),
        forall|j: int|
            0 <= j < items.len() && (#[trigger] items[j]).key == items[i].key ==> items[j].sequence
                <= items[i].sequence && (j < i ==> items[j].sequence < items[i].sequence),
    ensures
        ({
            let kept = live(absorb_all(Map::empty(), items));
            &&& kept.contains_key(items[i].key) <==> items[i].value is Some
            &&& items[i].value is Some ==> kept[items[i].key] == items[i]
        }),
{
    assert forall|j: int| 0 <= j < items.len() && #[trigger] items[j].key == items[i].key implies if j
        < i {
        items[j].sequence < items[i].sequence
    } else {
        items[j].sequence <= items[i].sequence
    } by {}
    law_merge_keeps_newest(items, i);
}

/// Law: a merge keeps no entry that none of the tables has.
pub proof fn law_merge_makes_no_entry(items: Seq<EntryView>, key: Seq<u8>)
    ensures
        live(absorb_all(Map::empty(), items)).contains_key(key) ==> items.contains(
            live(absorb_all(Map::empty(), items))[key],
        ),
{
    crate::sorted::law_highest_number_stays(items, key);
}

/// Law: a group is closed only where the next entry would make it larger than a table is meant to
/// be.
pub proof fn law_groups_are_filled(s: Seq<EntryView>, target: nat, i: int)
    requires
        0 <= i,
        i + 1 < groups(s, target).len(),
    ensures
        total_bytes(groups(s, target)[i]) + groups(s, target)[i + 1][0].size() > target,
{
    lemma_groups_are_filled(s, target);
    let (full, open) = grouping(s, target);
    lemma_grouping(s, target);
    if i + 1 < full.len() {
        assert(full[i + 1] == groups(s, target)[i + 1]);
    }
}

proof fn lemma_groups_are_filled(s: Seq<EntryView>, target: nat)
    ensures
        ({
            let (full, open) = grouping(s, target);
            &&& forall|i: int|
                #![trigger full[i]]
                0 <= i && i + 1 < full.len() ==> total_bytes(full[i]) + full[i + 1][0].size()
                    > target
            &&& full.len() > 0 ==> open.len() > 0 && total_bytes(full.last()) + open[0].size()
                > target
        }),
    decreases s.len(),
{
    if s.len() > 0 {
        lemma_groups_are_filled(s.drop_last(), target);
        let (full0, open0) = grouping(s.drop_last(), target);
        let (full, open) = grouping(s, target);
        if open0.len() > 0 && total_bytes(open0) + s.last().size() > target {
            assert forall|i: int|
                #![trigger full[i]]
                0 <= i && i + 1 < full.len() implies total_bytes(full[i]) + full[i + 1][0].size()
                > target by {
                assert(full[i] == full0[i]);
                if i + 1 < full0.len() {
                    assert(full[i + 1] == full0[i + 1]);
                }
            }
        } else {
            if open0.len() > 0 {
                assert(open[0] == open0[0]);
            }
        }
    }
}

/// Law: a table of the first level is meant to have the size that the settings say, one of any other
/// level twice that.
pub proof fn law_lower_tables_are_twice_as_large(engine: EngineView, level: usize)
    ensures
        engine.table_target(0) == engine.config.l0_sstable_size,
        level > 0 ==> engine.table_target(level) == 2 * engine.config.l0_sstable_size,
{
}

/// Law: a merge reads the tables of a level and of the next one, those of the level first; it leaves
/// the level without tables, gives the next one the new ones, and touches nothing else.
pub proof fn law_merge_touches_two_levels(
    engine: EngineView,
    level: usize,
    tables: Seq<ReaderView>,
    other: usize,
)
    requires
        level < usize::MAX,
    ensures
        engine.merge_inputs(level) == tables_at(engine.levels, level) + tables_at(
            engine.levels,
            (level + 1) as usize,
        ),
        ({
            let after = engine.merged(level, tables);
            &&& tables_at(after.levels, level).len() == 0
            &&& tables_at(after.levels, (level + 1) as usize) == tables
            &&& other != level && other != level + 1 ==> tables_at(after.levels, other)
                == tables_at(engine.levels, other)
            &&& after.memtable == engine.memtable
            &&& after.immutables == engine.immutables
            &&& after.config == engine.config
            &&& after.sequence == engine.sequence
            &&& after.closed == engine.closed
        }),
{
}

/// Law: walking through tables gives the entries of each, table by table, until a table cannot be
/// read to its end.
pub proof fn law_walk_goes_from_table_to_table(a: Seq<ReaderView>, table: ReaderView)
    ensures
        walked(Seq::empty(), 0) == (Seq::<EntryView>::empty(), None::<crate::error::ErrorView>),
        walked(a.push(table), 0).1 == (match walked(a, 0).1 {
            Some(e) => Some(e),
            None => table.stream(0).1,
        }),
        walked(a.push(table), 0).0 == (match walked(a, 0).1 {
            Some(e) => walked(a, 0).0,
            None => walked(a, 0).0 + table.stream(0).0,
        }),
{
    assert(a.push(table) =~= a + seq![table]);
    lemma_walked_concat(a, seq![table], 0);
    reveal_with_fuel(walked, 2);
    assert(table.stream(0).0 + Seq::<EntryView>::empty() =~= table.stream(0).0);
}

/// Law: what is seen of several groups is all entries of each, in their order.
pub proof fn law_groups_are_seen_whole(s: Seq<Vec<Entry>>)
    ensures
        group_views(s).len() == s.len(),
        forall|i: int| 0 <= i < s.len() ==> #[trigger] group_views(s)[i] == entry_views(s[i]@),
{
}

} // verus!
