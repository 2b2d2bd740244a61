//! Closing an engine, and opening it again on its files.
use crate::levels::{by_age, fresh_levels, placed_by_time, sound_levels, tables_at};
use crate::memtable::MemTableView;
use crate::sorted::has_key;
use crate::sstable::reader::{index_consistent, opened, ReaderView};
use crate::storage::compact::walked;
use crate::storage::laws::{consistent, law_reading_changes_no_answer, lemma_alike_shows, lemma_levels_above};
use crate::storage::load::{law_loaded_tables_are_by_age, loaded_files, number_behind_files, table_level, FileView};
use crate::storage::sequence::{below, law_new_engine_is_in_sequence, lemma_stream_below, shows};
use crate::storage::{newest_memtable, EngineView};
use crate::{EntryView, SequenceNumber, Timestamp};
use vstd::prelude::*;

verus! {

/// The tables of a level among some files that can be opened, in the order of the files.
pub open spec fn level_readers(files: Seq<FileView>, mapped: bool, level: usize) -> Seq<ReaderView>
    decreases files.len(),
{
    if files.len() == 0 {
        Seq::empty()
    } else {
        let rest = level_readers(files.drop_last(), mapped, level);
        let f = files.last();
        match (table_level(f), opened(f.path, f.bytes, mapped)) {
            (Some(n), Ok(r)) => if n as usize == level {
                rest.push(r)
            } else {
                rest
            },
            _ => rest,
        }
    }
}

/// Whether each table of a level is younger than those before it.
pub open spec fn strictly_by_age(s: Seq<ReaderView>) -> bool {
    forall|i: int, j: int|
        0 <= i < j < s.len() ==> (#[trigger] s[i]).meta.created_at < (
        #[trigger] s[j]).meta.created_at
}

impl EngineView {
    /// The engine with its memtable put aside, whether it is full or not.
    pub open spec fn put_aside(self) -> EngineView {
        EngineView {
            memtable: MemTableView { entries: Seq::empty(), ..self.memtable },
            immutables: self.immutables.push(MemTableView { immutable: true, ..self.memtable }),
            ..self
        }
    }

    /// Whether the files that are tables by their names are exactly the tables of this engine.
    pub open spec fn is_listed(self, files: Seq<FileView>) -> bool {
        forall|level: usize|
            level_readers(files, self.config.use_mmap, level).to_multiset() == #[trigger] tables_at(
                fresh_levels(self.levels),
                level,
            ).to_multiset()
    }
}

/// Law: putting the memtable aside, as closing an engine does, changes nothing that is found.
pub proof fn law_closing_changes_no_value(engine: EngineView, key: Seq<u8>)
    ensures
        engine.put_aside().value_of(key) == engine.value_of(key),
{
    let after = engine.put_aside();
    let aside = MemTableView { immutable: true, ..engine.memtable };
    assert(after.immutables.drop_last() =~= engine.immutables);
    assert(after.immutables.last() == aside);
    assert(!has_key(after.memtable.entries, key));
    assert(aside.lookup(key) == engine.memtable.lookup(key));
    assert(newest_memtable(after.immutables, key) == (match aside.lookup(key) {
        Some(e) => Some(e),
        None => newest_memtable(engine.immutables, key),
    }));
}

/// Law: an engine that is opened on the files of one whose memtables were all flushed finds for
/// every key the value that the other found, in whatever order the files are listed.
///
/// The tables of a level have to differ in age, and in a table blocks at one place have to have one
/// size.
pub proof fn law_restart_keeps_values(
    engine: EngineView,
    files: Seq<FileView>,
    now: Timestamp,
    key: Seq<u8>,
)
    requires
        engine.wf(),
        engine.memtable.entries.len() == 0,
        engine.immutables.len() == 0,
        consistent(engine.levels),
        engine.is_listed(files),
        forall|level: usize| strictly_by_age(#[trigger] tables_at(engine.levels, level)),
    ensures
        ({
            let again = EngineView::initial(
                engine.config,
                loaded_files(files, engine.config.use_mmap).0,
                number_behind_files(files, engine.config.use_mmap),
                now,
            );
            again.value_of(key) == (EngineView { closed: false, ..engine }).value_of(key)
        }),
{
    let mapped = engine.config.use_mmap;
    let levels = loaded_files(files, mapped).0;
    let fresh = fresh_levels(engine.levels);
    let max = engine.config.max_levels as nat;
    lemma_loaded_again(engine, files);
    lemma_levels_above(levels, fresh, 0, max, key);
    let before = EngineView { closed: false, ..engine };
    let after = before.fresh();
    lemma_fresh_is_sound(engine.levels);
    lemma_fresh_twice(engine.levels);
    assert(after.fresh() =~= before.fresh());
    law_reading_changes_no_answer(before, after, key, key, key);
    let again = EngineView::initial(
        engine.config,
        levels,
        number_behind_files(files, mapped),
        now,
    );
    assert(!has_key(again.memtable.entries, key));
    assert(!has_key(after.memtable.entries, key));
    assert(again.found_in_memory(key) is None);
    assert(after.found_in_memory(key) is None);
}

/// Loading the files of an engine gives its tables, level by level, with nothing read.
proof fn lemma_loaded_again(engine: EngineView, files: Seq<FileView>)
    requires
        engine.is_listed(files),
        forall|level: usize| strictly_by_age(#[trigger] tables_at(engine.levels, level)),
    ensures
        forall|level: usize|
            tables_at(loaded_files(files, engine.config.use_mmap).0, level) == #[trigger] tables_at(
                fresh_levels(engine.levels),
                level,
            ),
{
    let mapped = engine.config.use_mmap;
    let levels = loaded_files(files, mapped).0;
    let fresh = fresh_levels(engine.levels);
    assert forall|level: usize| tables_at(levels, level) == #[trigger] tables_at(
        fresh,
        level,
    ) by {
        law_loaded_tables_are_by_age(files, mapped, level);
        lemma_loaded_readers(files, mapped, level);
        lemma_fresh_ages(engine.levels, level);
        lemma_one_order_by_age(tables_at(levels, level), tables_at(fresh, level));
    }
}

/// Law: an engine that is opened on the files of one whose memtables were all flushed is in
/// sequence, and its levels show what they showed, as long as the numbers do not run out.
///
/// The tables of a level have to differ in age, and in a table blocks at one place have to have one
/// size.
pub proof fn law_restart_keeps_sequence(
    engine: EngineView,
    files: Seq<FileView>,
    now: Timestamp,
    contents: Seq<Seq<EntryView>>,
)
    requires
        sound_levels(engine.levels),
        consistent(engine.levels),
        engine.stores(contents),
        engine.in_sequence(contents),
        engine.is_listed(files),
        forall|level: usize| strictly_by_age(#[trigger] tables_at(engine.levels, level)),
        number_behind_files(files, engine.config.use_mmap) < u64::MAX,
    ensures
        ({
            let again = EngineView::initial(
                engine.config,
                loaded_files(files, engine.config.use_mmap).0,
                number_behind_files(files, engine.config.use_mmap),
                now,
            );
            again.stores(contents) && again.in_sequence(contents)
        }),
{
    let mapped = engine.config.use_mmap;
    let number = number_behind_files(files, mapped);
    let levels = loaded_files(files, mapped).0;
    let fresh = fresh_levels(engine.levels);
    let again = EngineView::initial(engine.config, levels, number, now);
    lemma_loaded_again(engine, files);
    lemma_fresh_is_sound(engine.levels);
    lemma_fresh_twice(engine.levels);
    assert forall|l: int| 0 <= l < contents.len() implies shows(
        tables_at(again.levels, l as usize),
        l as nat,
        #[trigger] contents[l],
    ) && below(contents[l], number) by {
        let level = l as usize;
        let tables = tables_at(levels, level);
        assert(tables == tables_at(fresh, level));
        lemma_alike_shows(engine.levels, fresh, level, contents[l]);
        assert forall|i: int| 0 <= i < tables.len() implies below(
            (#[trigger] tables[i]).stream(0).0,
            number,
        ) by {
            let r = tables[i];
            lemma_listed(tables, level_readers(files, mapped, level), i);
            lemma_level_numbers(files, mapped, level);
            lemma_walked_whole(tables, 0, i);
            assert(engine.levels.contains_key(level));
            assert(index_consistent(engine.levels[level][i].index));
            lemma_stream_below(r, 0);
        }
        lemma_walked_below(tables, 0, number);
    }
    law_new_engine_is_in_sequence(again, contents);
}

/// Where a walk ends without an error, the walk through each table does.
proof fn lemma_walked_whole(tables: Seq<ReaderView>, from: int, i: int)
    requires
        0 <= from <= i < tables.len(),
        walked(tables, from).1 is None,
    ensures
        tables[i].stream(0).1 is None,
    decreases i - from,
{
    if from < i {
        lemma_walked_whole(tables, from + 1, i);
    }
}

/// What is walked has numbers below `n` where each table has.
proof fn lemma_walked_below(tables: Seq<ReaderView>, from: int, n: SequenceNumber)
    requires
        0 <= from,
        forall|i: int| 0 <= i < tables.len() ==> below((#[trigger] tables[i]).stream(0).0, n),
    ensures
        below(walked(tables, from).0, n),
    decreases tables.len() - from,
{
    if from < tables.len() {
        lemma_walked_below(tables, from + 1, n);
        let first = tables[from].stream(0).0;
        let rest = walked(tables, from + 1).0;
        assert(below(first, n));
        assert forall|k: int| 0 <= k < (first + rest).len() implies (#[trigger] (first
            + rest)[k]).sequence < n by {
            if k < first.len() {
                assert(first[k].sequence < n);
            } else {
                assert(rest[k - first.len()].sequence < n);
            }
        }
    }
}

/// A table of one sequence is one of another sequence with the same tables.
proof fn lemma_listed(a: Seq<ReaderView>, b: Seq<ReaderView>, i: int)
    requires
        a.to_multiset() == b.to_multiset(),
        0 <= i < a.len(),
    ensures
        b.contains(a[i]),
{
    broadcast use vstd::seq_lib::group_to_multiset_ensures;

    assert(a.contains(a[i]));
    assert(a.to_multiset().count(a[i]) > 0);
    assert(b.to_multiset().count(a[i]) > 0);
}

/// The number behind some files is not below that behind one of their tables.
proof fn lemma_level_numbers(files: Seq<FileView>, mapped: bool, level: usize)
    ensures
        forall|r: ReaderView| #[trigger]
            level_readers(files, mapped, level).contains(r) ==> r.number_behind(0)
                <= number_behind_files(files, mapped),
    decreases files.len(),
{
    if files.len() > 0 {
        lemma_level_numbers(files.drop_last(), mapped, level);
        let rest = level_readers(files.drop_last(), mapped, level);
        let all = level_readers(files, mapped, level);
        assert forall|r: ReaderView| #[trigger] all.contains(r) implies r.number_behind(0)
            <= number_behind_files(files, mapped) by {
            let k = choose|k: int| 0 <= k < all.len() && all[k] == r;
            if k < rest.len() {
                assert(rest[k] == r);
                assert(rest.contains(r));
            }
        }
    }
}

/// Forgetting what was read twice is forgetting it once.
proof fn lemma_fresh_twice(levels: Map<usize, Seq<ReaderView>>)
    ensures
        fresh_levels(fresh_levels(levels)) == fresh_levels(levels),
{
    let once = fresh_levels(levels);
    let twice = fresh_levels(once);
    assert forall|l: usize| #[trigger] once.contains_key(l) implies twice[l] == once[l] by {
        assert(twice[l] =~= once[l]);
    }
    assert(twice =~= once);
}

/// Readers of which nothing was read are sound.
proof fn lemma_fresh_is_sound(levels: Map<usize, Seq<ReaderView>>)
    ensures
        sound_levels(fresh_levels(levels)),
{
}

/// Forgetting what was read changes no age.
proof fn lemma_fresh_ages(levels: Map<usize, Seq<ReaderView>>, level: usize)
    requires
        strictly_by_age(tables_at(levels, level)),
    ensures
        strictly_by_age(tables_at(fresh_levels(levels), level)),
{
    let s = tables_at(levels, level);
    let t = tables_at(fresh_levels(levels), level);
    assert forall|i: int, j: int| 0 <= i < j < t.len() implies (#[trigger] t[i]).meta.created_at < (
    #[trigger] t[j]).meta.created_at by {
        assert(s[i].meta.created_at < s[j].meta.created_at);
    }
}

/// The tables that are loaded into a level are those of its files.
proof fn lemma_loaded_readers(files: Seq<FileView>, mapped: bool, level: usize)
    ensures
        tables_at(loaded_files(files, mapped).0, level).to_multiset() == level_readers(
            files,
            mapped,
            level,
        ).to_multiset(),
    decreases files.len(),
{
    broadcast use vstd::seq_lib::group_to_multiset_ensures;

    if files.len() > 0 {
        let f = files.last();
        let before = loaded_files(files.drop_last(), mapped);
        let s = tables_at(before.0, level);
        let rest = level_readers(files.drop_last(), mapped, level);
        lemma_loaded_readers(files.drop_last(), mapped, level);
        if let (Some(n), Ok(r)) = (table_level(f), opened(f.path, f.bytes, mapped)) {
            if n as usize == level {
                lemma_placed_keeps_all(s, r);
                assert(s.push(r).to_multiset() =~= s.to_multiset().insert(r));
                assert(rest.push(r).to_multiset() =~= rest.to_multiset().insert(r));
            }
        }
    }
}

/// Placing a table by its age loses none.
proof fn lemma_placed_keeps_all(s: Seq<ReaderView>, r: ReaderView)
    ensures
        placed_by_time(s, r).to_multiset() == s.push(r).to_multiset(),
    decreases s.len(),
{
    broadcast use vstd::seq_lib::group_to_multiset_ensures;

    if s.len() > 0 && s.last().meta.created_at > r.meta.created_at {
        let t = s.drop_last();
        let x = s.last();
        lemma_placed_keeps_all(t, r);
        assert(placed_by_time(t, r).push(x).to_multiset() =~= placed_by_time(
            t,
            r,
        ).to_multiset().insert(x));
        assert(t.push(r).to_multiset() =~= t.to_multiset().insert(r));
        assert(t.push(x) =~= s);
        assert(t.push(x).to_multiset() =~= t.to_multiset().insert(x));
        assert(s.push(r).to_multiset() =~= s.to_multiset().insert(r));
        assert(placed_by_time(s, r).to_multiset() =~= s.push(r).to_multiset());
    }
}

/// Tables that differ in age have one order by age.
proof fn lemma_one_order_by_age(a: Seq<ReaderView>, b: Seq<ReaderView>)
    requires
        by_age(a),
        strictly_by_age(b),
        a.to_multiset() == b.to_multiset(),
    ensures
        a == b,
    decreases a.len(),
{
    broadcast use vstd::seq_lib::group_to_multiset_ensures;

    a.to_multiset_ensures();
    b.to_multiset_ensures();
    if a.len() == 0 {
        assert(a =~= b);
    } else {
        let n = a.len() - 1;
        assert(a.contains(a[n]) && b.contains(b[n]));
        assert(b.to_multiset().count(a[n]) > 0 && a.to_multiset().count(b[n]) > 0);
        assert(b.contains(a[n]) && a.contains(b[n]));
        let x = choose|x: int| 0 <= x < a.len() && a[x] == b[n];
        let y = choose|y: int| 0 <= y < b.len() && b[y] == a[n];
        if x < n {
            assert(a[x].meta.created_at <= a[n].meta.created_at);
        }
        if y < n {
            assert(b[y].meta.created_at < b[n].meta.created_at);
        }
        assert(a[n] == b[n]);
        assert(a.remove(n) =~= a.drop_last());
        assert(b.remove(n) =~= b.drop_last());
        assert(a.remove(n).to_multiset() =~= a.to_multiset().remove(a[n]));
        assert(b.remove(n).to_multiset() =~= b.to_multiset().remove(b[n]));
        let s = a.drop_last();
        let t = b.drop_last();
        assert(by_age(s)) by {
            assert forall|i: int, j: int| 0 <= i < j < s.len() implies (
            #[trigger] s[i]).meta.created_at <= (#[trigger] s[j]).meta.created_at by {
                assert(a[i].meta.created_at <= a[j].meta.created_at);
            }
        }
        assert(strictly_by_age(t)) by {
            assert forall|i: int, j: int| 0 <= i < j < t.len() implies (
            #[trigger] t[i]).meta.created_at < (#[trigger] t[j]).meta.created_at by {
                assert(b[i].meta.created_at < b[j].meta.created_at);
            }
        }
        lemma_one_order_by_age(s, t);
        assert(a =~= s.push(a[n]));
        assert(b =~= t.push(b[n]));
    }
}

/// Law: one more file adds its table behind those of its level, where it is that of a table and can
/// be opened; the files of an engine are listed where they are exactly its tables.
pub proof fn law_listed_files_are_the_tables(
    engine: EngineView,
    files: Seq<FileView>,
    f: FileView,
    mapped: bool,
    level: usize,
)
    ensures
        ({
            let before = level_readers(files, mapped, level);
            let after = level_readers(files.push(f), mapped, level);
            match (table_level(f), opened(f.path, f.bytes, mapped)) {
                (Some(n), Ok(r)) => after == (if n as usize == level {
                    before.push(r)
                } else {
                    before
                }),
                _ => after == before,
            }
        }),
        level_readers(Seq::empty(), mapped, level).len() == 0,
        (forall|l: usize|
            level_readers(files, engine.config.use_mmap, l).to_multiset() == #[trigger] tables_at(
                fresh_levels(engine.levels),
                l,
            ).to_multiset()) ==> engine.is_listed(files),
{
    assert(files.push(f).drop_last() =~= files);
}

/// Law: tables go from the oldest to the youngest, no two of one age, exactly where each was made
/// before all behind it.
pub proof fn law_ages_go_up(s: Seq<ReaderView>)
    ensures
        strictly_by_age(s) <==> forall|i: int, j: int|
            0 <= i < j < s.len() ==> (#[trigger] s[i]).meta.created_at < (
            #[trigger] s[j]).meta.created_at,
        by_age(s) <==> forall|i: int, j: int|
            0 <= i < j < s.len() ==> (#[trigger] s[i]).meta.created_at <= (
            #[trigger] s[j]).meta.created_at,
{
}

/// Law: putting the memtable aside loses none of its entries: they wait behind all others.
pub proof fn law_closing_keeps_entries(engine: EngineView)
    ensures
        engine.put_aside().immutables.len() == engine.immutables.len() + 1,
        engine.put_aside().immutables.drop_last() == engine.immutables,
        engine.put_aside().immutables.last().entries == engine.memtable.entries,
        engine.put_aside().memtable.entries.len() == 0,
        engine.put_aside().levels == engine.levels,
        engine.put_aside().config == engine.config,
{
    assert(engine.put_aside().immutables.drop_last() =~= engine.immutables);
}

} // verus!
