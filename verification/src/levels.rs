//! The tables of each level.
use crate::error::{ErrorView, Result, StorageError};
use crate::sorted::{absorb_all, EntryTable};
use crate::sstable::reader::{lemma_block_for_range, lemma_lookup_sound, lemma_range_sound, ReaderView, SSTableReader};
use crate::sstable::SStableMeta;
use crate::{entry_views, Entry, EntryView};
use std::collections::HashMap;
use vstd::prelude::*;

verus! {

/// The views of a sequence of readers.
pub open spec fn reader_views(tables: Seq<SSTableReader>) -> Seq<ReaderView> {
    tables.map_values(|r: SSTableReader| r@)
}

/// What a table hands out is absorbed until there is no more, or until an error.
fn absorb_table(table: &mut SSTableReader, into: &mut EntryTable) -> (r: Result<()>)
    requires
        old(into).wf(),
    ensures
        final(into).wf(),
        final(table)@.fresh() == old(table)@.fresh(),
        old(table)@.sound() ==> final(table)@.sound(),
        match r {
            Ok(_) => {
                let (items, fault) = old(table)@.stream(0);
                &&& fault is None
                &&& final(into)@ == absorb_all(old(into)@, items)
            },
            Err(e) => old(table)@.stream(0).1 == Some(e@),
        },
{
    let ghost view = table@;
    let ghost start = into@;
    let ghost (items, fault) = table@.stream(0);
    let ghost mut done: int = 0;
    let mut iter = table.iter();
    proof {
        assert(items.skip(0) =~= items);
        assert(items.take(0) =~= Seq::empty());
    }
    let mut failure: Option<StorageError> = None;
    loop
        invariant
            iter.wf(),
            into.wf(),
            0 <= done <= items.len(),
            iter.remaining() == (items.skip(done), fault),
            into@ == absorb_all(start, items.take(done)),
            iter.reader@.fresh() == view.fresh(),
            view.sound() ==> iter.reader@.sound(),
            *final(iter.reader) == *after_borrow(table),
        ensures
            match failure {
                Some(e) => fault == Some(e@),
                None => fault is None && done == items.len(),
            },
        decreases items.len() - done,
    {
        match iter.next() {
            Some(Ok(entry)) => {
                into.absorb(entry);
                proof {
                    assert(items.skip(done).drop_first() =~= items.skip(done + 1));
                    assert(items.take(done + 1).drop_last() =~= items.take(done));
                    done = done + 1;
                }
            },
            Some(Err(e)) => {
                failure = Some(e);
                break;
            },
            None => {
                failure = None;
                break;
            },
        }
    }
    match failure {
        Some(e) => Err(e),
        None => {
            assert(items.take(done) =~= items);
            Ok(())
        },
    }
}

/// The tables of each level that has any, or had any.
pub struct LevelMap {
    tables: HashMap<usize, Vec<SSTableReader>>,
}

/// Every reader without what it has read.
pub open spec fn fresh_levels(m: Map<usize, Seq<ReaderView>>) -> Map<usize, Seq<ReaderView>> {
    m.map_values(|s: Seq<ReaderView>| s.map_values(|r: ReaderView| r.fresh()))
}

/// Every reader has read only what is stored, as far as its index allows.
pub open spec fn sound_levels(m: Map<usize, Seq<ReaderView>>) -> bool {
    forall|level: usize, i: int|
        m.contains_key(level) && 0 <= i < m[level].len() ==> (#[trigger] m[level][i]).sound()
}

/// The tables of a level, none where the level is not there.
pub open spec fn tables_at(m: Map<usize, Seq<ReaderView>>, level: usize) -> Seq<ReaderView> {
    if m.contains_key(level) {
        m[level]
    } else {
        Seq::empty()
    }
}

/// A reader in the place of another one that differs in what was read.
pub proof fn lemma_reader_replaced(
    m: Map<usize, Seq<ReaderView>>,
    level: usize,
    i: int,
    r: ReaderView,
)
    requires
        m.contains_key(level),
        0 <= i < m[level].len(),
        r.fresh() == m[level][i].fresh(),
        r.sound(),
        sound_levels(m),
    ensures
        fresh_levels(m.insert(level, m[level].update(i, r))) == fresh_levels(m),
        sound_levels(m.insert(level, m[level].update(i, r))),
{
    let n = m.insert(level, m[level].update(i, r));
    assert forall|l: usize, j: int| n.contains_key(l) && 0 <= j < n[l].len() implies (
    #[trigger] n[l][j]).sound() by {
        assert(m[l][j].sound());
    }
    assert(fresh_levels(n)[level] =~= fresh_levels(m)[level]);
    assert(fresh_levels(n) =~= fresh_levels(m));
}

/// The tables of a level with one more, behind those that are not younger.
pub open spec fn placed_by_time(s: Seq<ReaderView>, r: ReaderView) -> Seq<ReaderView>
    decreases s.len(),
{
    if s.len() == 0 || s.last().meta.created_at <= r.meta.created_at {
        s.push(r)
    } else {
        placed_by_time(s.drop_last(), r).push(s.last())
    }
}

/// The tables of a level from the oldest to the youngest.
pub open spec fn by_age(s: Seq<ReaderView>) -> bool {
    forall|i: int, j: int|
        0 <= i < j < s.len() ==> (#[trigger] s[i]).meta.created_at <= (
        #[trigger] s[j]).meta.created_at
}

proof fn lemma_placed_by_time(s: Seq<ReaderView>, r: ReaderView, at: int)
    requires
        0 <= at <= s.len(),
        at > 0 ==> s[at - 1].meta.created_at <= r.meta.created_at,
        forall|i: int|
            at <= i < s.len() ==> r.meta.created_at < (#[trigger] s[i]).meta.created_at,
    ensures
        placed_by_time(s, r) == s.insert(at, r),
    decreases s.len(),
{
    if at == s.len() {
        assert(s.insert(at, r) =~= s.push(r));
    } else {
        assert(r.meta.created_at < s[s.len() - 1].meta.created_at);
        lemma_placed_by_time(s.drop_last(), r, at);
        assert(s.insert(at, r) =~= s.drop_last().insert(at, r).push(s.last()));
    }
}

/// Law: a level whose tables stand from the oldest to the youngest goes on so when a table is put
/// in its place.
pub proof fn law_placing_keeps_age(s: Seq<ReaderView>, r: ReaderView)
    requires
        by_age(s),
    ensures
        by_age(placed_by_time(s, r)),
        forall|i: int|
            0 <= i < placed_by_time(s, r).len() ==> #[trigger] placed_by_time(s, r)[i] == r
                || s.contains(placed_by_time(s, r)[i]),
    decreases s.len(),
{
    let p = placed_by_time(s, r);
    if s.len() == 0 || s.last().meta.created_at <= r.meta.created_at {
        assert forall|i: int, j: int| 0 <= i < j < p.len() implies (#[trigger] p[i]).meta.created_at
            <= (#[trigger] p[j]).meta.created_at by {
            if j < s.len() {
                assert(s[i].meta.created_at <= s[j].meta.created_at);
            } else if i < s.len() - 1 {
                assert(s[i].meta.created_at <= s[s.len() - 1].meta.created_at);
            }
        }
        assert forall|i: int| 0 <= i < p.len() implies #[trigger] p[i] == r || s.contains(p[i]) by {
            if i < s.len() {
                assert(s[i] == p[i]);
            }
        }
    } else {
        let t = s.drop_last();
        let x = s.last();
        assert(by_age(t)) by {
            assert forall|i: int, j: int| 0 <= i < j < t.len() implies (
            #[trigger] t[i]).meta.created_at <= (#[trigger] t[j]).meta.created_at by {
                assert(s[i].meta.created_at <= s[j].meta.created_at);
            }
        }
        law_placing_keeps_age(t, r);
        let q = placed_by_time(t, r);
        assert(p == q.push(x));
        assert forall|i: int, j: int| 0 <= i < j < p.len() implies (#[trigger] p[i]).meta.created_at
            <= (#[trigger] p[j]).meta.created_at by {
            if j < q.len() {
                assert(q[i].meta.created_at <= q[j].meta.created_at);
            } else if q[i] != r {
                let k = choose|k: int| 0 <= k < t.len() && t[k] == q[i];
                assert(s[k].meta.created_at <= s[s.len() - 1].meta.created_at);
            }
        }
        assert forall|i: int| 0 <= i < p.len() implies #[trigger] p[i] == r || s.contains(p[i]) by {
            if i < q.len() {
                if q[i] != r {
                    let k = choose|k: int| 0 <= k < t.len() && t[k] == q[i];
                    assert(s[k] == p[i]);
                }
            } else {
                assert(s[s.len() - 1] == p[i]);
            }
        }
    }
}

impl LevelMap {
    pub fn new() -> (r: Self)
        ensures
            r@ == Map::<usize, Seq<ReaderView>>::empty(),
    {
        let r = LevelMap { tables: HashMap::new() };
        assert(r@ =~= Map::empty());
        r
    }

    /// The number of tables of a level that is there.
    pub fn table_count(&self, level: usize) -> (r: Option<usize>)
        ensures
            match r {
                Some(n) => self@.contains_key(level) && n == self@[level].len(),
                None => !self@.contains_key(level),
            },
    {
        broadcast use vstd::std_specs::hash::group_hash_axioms;

        match self.tables.get(&level) {
            Some(tables) => Some(tables.len()),
            None => None,
        }
    }

    /// Figures about a table.
    pub fn meta(&self, level: usize, table: usize) -> (r: &SStableMeta)
        requires
            self@.contains_key(level),
            table < self@[level].len(),
        ensures
            r@ == self@[level][table as int].meta,
    {
        broadcast use vstd::std_specs::hash::group_hash_axioms;

        let tables = self.tables.get(&level).unwrap();
        assert(self@[level][table as int] == tables@[table as int]@);
        tables[table].metadata()
    }

    /// Takes the tables of a level out, none where the level is not there.
    fn take(&mut self, level: usize) -> (r: Vec<SSTableReader>)
        ensures
            reader_views(r@) == tables_at(old(self)@, level),
            final(self)@ == old(self)@.remove(level),
    {
        broadcast use vstd::std_specs::hash::group_hash_axioms;

        let ghost before = self@;
        let taken = self.tables.remove(&level);
        assert(self@ =~= before.remove(level));
        match taken {
            Some(tables) => tables,
            None => {
                let none: Vec<SSTableReader> = Vec::new();
                assert(reader_views(none@) =~= Seq::empty());
                none
            },
        }
    }

    /// Searches a table for a key.
    pub fn get_in(&mut self, level: usize, table: usize, key: &[u8]) -> (r: Result<Option<Entry>>)
        requires
            old(self)@.contains_key(level),
            table < old(self)@[level].len(),
            sound_levels(old(self)@),
        ensures
            sound_levels(final(self)@),
            fresh_levels(final(self)@) == fresh_levels(old(self)@),
            ({
                let reader = old(self)@[level][table as int];
                &&& final(self)@ == old(self)@.insert(
                    level,
                    old(self)@[level].update(table as int, reader.after_lookup(key@)),
                )
                &&& match r {
                    Ok(Some(e)) => reader.lookup(key@) == Ok::<Option<EntryView>, ErrorView>(
                        Some(e@),
                    ),
                    Ok(None) => reader.lookup(key@) == Ok::<Option<EntryView>, ErrorView>(None),
                    Err(e) => reader.lookup(key@) == Err::<Option<EntryView>, ErrorView>(e@),
                }
            }),
    {
        let ghost before = self@;
        let mut tables = self.take(level);
        assert(before[level][table as int] == tables@[table as int]@);
        let r = tables[table].get(key);
        proof {
            let reader = before[level][table as int];
            assert(reader_views(tables@) =~= before[level].update(
                table as int,
                reader.after_lookup(key@),
            ));
            assert(before[level][table as int].sound());
            lemma_lookup_sound(reader, key@);
            lemma_reader_replaced(before, level, table as int, reader.after_lookup(key@));
        }
        let _none = self.replace(level, tables);
        assert(before.remove(level).insert(level, reader_views(tables@)) =~= before.insert(
            level,
            reader_views(tables@),
        ));
        r
    }

    /// Searches a table for a range of keys.
    pub fn range_in(&mut self, level: usize, table: usize, start: &[u8], end: &[u8]) -> (r: Result<
        Vec<Entry>,
    >)
        requires
            old(self)@.contains_key(level),
            table < old(self)@[level].len(),
            sound_levels(old(self)@),
        ensures
            sound_levels(final(self)@),
            fresh_levels(final(self)@) == fresh_levels(old(self)@),
            ({
                let reader = old(self)@[level][table as int];
                let (found, after) = reader.range_of(start@, end@);
                &&& final(self)@ == old(self)@.insert(
                    level,
                    old(self)@[level].update(table as int, after),
                )
                &&& match r {
                    Ok(entries) => found == Ok::<Seq<EntryView>, ErrorView>(entry_views(entries@)),
                    Err(e) => found == Err::<Seq<EntryView>, ErrorView>(e@),
                }
            }),
    {
        let ghost before = self@;
        let mut tables = self.take(level);
        assert(before[level][table as int] == tables@[table as int]@);
        let r = tables[table].range(start, end);
        proof {
            let reader = before[level][table as int];
            let (found, after) = reader.range_of(start@, end@);
            assert(reader_views(tables@) =~= before[level].update(table as int, after));
            assert(before[level][table as int].sound());
            lemma_block_for_range(reader.index, start@);
            lemma_range_sound(reader, reader.first_block(start@), start@, end@);
            lemma_reader_replaced(before, level, table as int, after);
        }
        let _none = self.replace(level, tables);
        assert(before.remove(level).insert(level, reader_views(tables@)) =~= before.insert(
            level,
            reader_views(tables@),
        ));
        r
    }

    /// Absorbs the entries of a table.
    pub fn absorb_in(&mut self, level: usize, table: usize, into: &mut EntryTable) -> (r: Result<()>)
        requires
            old(self)@.contains_key(level),
            table < old(self)@[level].len(),
            sound_levels(old(self)@),
            old(into).wf(),
        ensures
            sound_levels(final(self)@),
            fresh_levels(final(self)@) == fresh_levels(old(self)@),
            final(self)@ == old(self)@.insert(
                level,
                old(self)@[level].update(table as int, final(self)@[level][table as int]),
            ),
            final(into).wf(),
            ({
                let (items, fault) = old(self)@[level][table as int].stream(0);
                match r {
                    Ok(_) => fault is None && final(into)@ == absorb_all(old(into)@, items),
                    Err(e) => fault == Some(e@),
                }
            }),
    {
        let ghost before = self@;
        let mut tables = self.take(level);
        assert(before[level][table as int] == tables@[table as int]@);
        let r = absorb_table(&mut tables[table], into);
        let ghost after = tables@[table as int]@;
        proof {
            assert(reader_views(tables@) =~= before[level].update(table as int, after));
            assert(before[level][table as int].sound());
            lemma_reader_replaced(before, level, table as int, after);
        }
        let _none = self.replace(level, tables);
        assert(before.remove(level).insert(level, reader_views(tables@)) =~= before.insert(
            level,
            reader_views(tables@),
        ));
        r
    }

    /// Gives a level new tables, and hands out those that it had.
    pub fn replace(&mut self, level: usize, tables: Vec<SSTableReader>) -> (r: Vec<SSTableReader>)
        ensures
            final(self)@ == old(self)@.insert(level, reader_views(tables@)),
            reader_views(r@) == tables_at(old(self)@, level),
    {
        broadcast use vstd::std_specs::hash::group_hash_axioms;

        let ghost before = self@;
        let ghost views = reader_views(tables@);
        let previous = self.tables.insert(level, tables);
        assert(self@ =~= before.insert(level, views));
        match previous {
            Some(tables) => tables,
            None => {
                let none: Vec<SSTableReader> = Vec::new();
                assert(reader_views(none@) =~= Seq::empty());
                none
            },
        }
    }

    /// Adds a table behind those of a level.
    pub fn add(&mut self, level: usize, reader: SSTableReader)
        ensures
            final(self)@ == old(self)@.insert(level, tables_at(old(self)@, level).push(reader@)),
    {
        let ghost before = self@;
        let ghost view = reader@;
        let mut tables = self.take(level);
        tables.push(reader);
        assert(reader_views(tables@) =~= tables_at(before, level).push(view));
        let _none = self.replace(level, tables);
        assert(self@ =~= before.insert(level, tables_at(before, level).push(view)));
    }

    /// Adds a table to a level, behind those that are not younger.
    pub fn add_by_time(&mut self, level: usize, reader: SSTableReader)
        ensures
            final(self)@ == old(self)@.insert(
                level,
                placed_by_time(tables_at(old(self)@, level), reader@),
            ),
    {
        let ghost view = reader@;
        let ghost before = self@;
        let mut tables = self.take(level);
        let ghost views = reader_views(tables@);
        let mut at: usize = tables.len();
        while at > 0 && reader.metadata().created_at < tables[at - 1].metadata().created_at
            invariant
                at <= tables@.len(),
                views == reader_views(tables@),
                reader@ == view,
                forall|i: int|
                    at <= i < tables@.len() ==> view.meta.created_at < (
                    #[trigger] views[i]).meta.created_at,
            decreases at,
        {
            at = at - 1;
            assert(views[at as int] == tables@[at as int]@);
        }
        proof {
            if at > 0 {
                assert(views[at - 1] == tables@[at - 1]@);
            }
            lemma_placed_by_time(views, view, at as int);
        }
        tables.insert(at, reader);
        assert(reader_views(tables@) =~= views.insert(at as int, view));
        let _none = self.replace(level, tables);
        assert(self@ =~= before.insert(level, placed_by_time(tables_at(before, level), view)));
    }

    /// The levels that are there, in any order.
    pub fn levels(&self) -> (r: Vec<usize>)
        ensures
            r@.no_duplicates(),
            r@.to_set() == self@.dom(),
    {
        broadcast use vstd::std_specs::hash::group_hash_axioms;

        let mut levels: Vec<usize> = Vec::new();
        for level in iter: self.tables.keys()
            invariant
                levels@ == iter.seq().unref().take(iter.index() as int),
                iter.seq().unref().to_set() == self.tables@.dom(),
                iter.index() == iter.seq().len() ==> levels@ == iter.seq().unref(),
        {
            levels.push(*level);
        }
        assert(self@.dom() =~= self.tables@.dom());
        levels
    }
}

impl View for LevelMap {
    type V = Map<usize, Seq<ReaderView>>;

    closed spec fn view(&self) -> Map<usize, Seq<ReaderView>> {
        self.tables@.map_values(|tables: Vec<SSTableReader>| reader_views(tables@))
    }
}

/// Law: a table is placed behind all that are not younger and before all that are; the others keep
/// their order.
pub proof fn law_table_is_placed_by_its_age(s: Seq<ReaderView>, r: ReaderView)
    requires
        by_age(s),
    ensures
        exists|at: int|
            {
                &&& 0 <= at <= s.len()
                &&& placed_by_time(s, r) == #[trigger] s.insert(at, r)
                &&& forall|i: int|
                    0 <= i < at ==> (#[trigger] s[i]).meta.created_at <= r.meta.created_at
                &&& forall|i: int|
                    at <= i < s.len() ==> r.meta.created_at < (#[trigger] s[i]).meta.created_at
            },
{
    let at = lemma_place_by_age(s, r);
    lemma_placed_by_time(s, r, at);
    assert(placed_by_time(s, r) == s.insert(at, r));
}

proof fn lemma_place_by_age(s: Seq<ReaderView>, r: ReaderView) -> (at: int)
    requires
        by_age(s),
    ensures
        0 <= at <= s.len(),
        forall|i: int| 0 <= i < at ==> (#[trigger] s[i]).meta.created_at <= r.meta.created_at,
        forall|i: int|
            at <= i < s.len() ==> r.meta.created_at < (#[trigger] s[i]).meta.created_at,
    decreases s.len(),
{
    if s.len() == 0 {
        0
    } else {
        let n = s.len() - 1;
        if s[n].meta.created_at <= r.meta.created_at {
            assert forall|i: int| 0 <= i < s.len() implies (#[trigger] s[i]).meta.created_at
                <= r.meta.created_at by {
                if i < n {
                    assert(s[i].meta.created_at <= s[n].meta.created_at);
                }
            }
            s.len() as int
        } else {
            let t = s.drop_last();
            assert(by_age(t)) by {
                assert forall|i: int, j: int| 0 <= i < j < t.len() implies (
                #[trigger] t[i]).meta.created_at <= (#[trigger] t[j]).meta.created_at by {
                    assert(s[i].meta.created_at <= s[j].meta.created_at);
                }
            }
            let at = lemma_place_by_age(t, r);
            assert forall|i: int| 0 <= i < at implies (#[trigger] s[i]).meta.created_at
                <= r.meta.created_at by {
                assert(t[i] == s[i]);
            }
            assert forall|i: int| at <= i < s.len() implies r.meta.created_at < (
            #[trigger] s[i]).meta.created_at by {
                if i < n {
                    assert(t[i] == s[i]);
                }
            }
            at
        }
    }
}

/// Law: what is seen of several tables is each of them, in their order; a level that is not there has
/// no tables.
pub proof fn law_tables_are_seen_one_by_one(
    tables: Seq<SSTableReader>,
    m: Map<usize, Seq<ReaderView>>,
    level: usize,
)
    ensures
        reader_views(tables).len() == tables.len(),
        forall|i: int| 0 <= i < tables.len() ==> #[trigger] reader_views(tables)[i] == tables[i]@,
        m.contains_key(level) ==> tables_at(m, level) == m[level],
        !m.contains_key(level) ==> tables_at(m, level).len() == 0,
{
}

} // verus!
