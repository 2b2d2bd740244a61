//! Opening and closing an engine, and what it tells about itself.
use crate::clock::current_timestamp;
use crate::config::Config;
use crate::error::{ErrorView, Result, StorageError};
use crate::levels::{by_age, law_placing_keeps_age, placed_by_time, sound_levels, tables_at, LevelMap};
use crate::memtable::{key_sizes, largest, smallest, value_sizes, MemTable, MemTableView, MemtableStats};
use crate::names::{has_table_extension, is_table_name, level_of_name, parse_level_from_filename, table_file_name, table_name};
use crate::sorted::keyed;
use crate::sstable::builder::SSTableBuilder;
use crate::sstable::reader::{larger, opened, ReaderView, SSTableReader};
use crate::storage::compact::data_bytes;
use crate::storage::{memtable_views, EngineView, StorageEngine};
use crate::{entry_views, Entry, SequenceNumber, Timestamp};
use std::collections::HashMap;
use std::path::PathBuf;
use vstd::prelude::*;

verus! {

/// A file in the directory of the tables: its path, its name and its bytes.
pub struct SSTableFile {
    pub path: PathBuf,
    pub name: String,
    pub bytes: Vec<u8>,
}

/// An [`SSTableFile`].
pub struct FileView {
    pub path: PathBuf,
    pub name: Seq<char>,
    pub bytes: Seq<u8>,
}

impl View for SSTableFile {
    type V = FileView;

    open spec fn view(&self) -> FileView {
        FileView { path: self.path, name: self.name@, bytes: self.bytes@ }
    }
}

/// The views of a sequence of files.
pub open spec fn file_views(files: Seq<SSTableFile>) -> Seq<FileView> {
    files.map_values(|f: SSTableFile| f@)
}

/// A table file that could not be opened.
pub struct LoadFailure {
    pub path: PathBuf,
    pub error: StorageError,
}

/// The failures as pairs of a path and an error.
pub open spec fn failure_views(failures: Seq<LoadFailure>) -> Seq<(PathBuf, ErrorView)> {
    failures.map_values(|f: LoadFailure| (f.path, f.error@))
}

/// A table that is to be written to a file: the name of the file, and the entries.
pub struct FlushJob {
    pub name: String,
    pub entries: Vec<Entry>,
}

/// Figures about a level.
#[derive(Debug, Clone, Copy, PartialEq, Eq, Structural)]
pub struct LevelStats {
    pub table_count: usize,
    pub total_size: u64,
    pub total_entries: u64,
}

/// Figures about an engine.
#[derive(Debug, Clone)]
pub struct StorageStats {
    pub memtable_stats: MemtableStats,
    pub immutable_memtable_count: usize,
    pub sstable_stats: HashMap<usize, LevelStats>,
    pub seqence_number: SequenceNumber,
    pub is_closed: bool,
}

/// Tables and failures of files that were loaded.
pub type Loaded = (Map<usize, Seq<ReaderView>>, Seq<(PathBuf, ErrorView)>);

/// The level of a table file, if its name is that of one.
pub open spec fn table_level(f: FileView) -> Option<nat> {
    if is_table_name(f.name) {
        level_of_name(f.name)
    } else {
        None
    }
}

/// What was loaded, with one more file: a table is put in its level by its age, one that cannot be
/// opened is noted, and any other file is passed over.
pub open spec fn with_file(loaded: Loaded, f: FileView, mapped: bool) -> Loaded {
    match table_level(f) {
        None => loaded,
        Some(n) => {
            let level = n as usize;
            match opened(f.path, f.bytes, mapped) {
                Ok(r) => (
                    loaded.0.insert(level, placed_by_time(tables_at(loaded.0, level), r)),
                    loaded.1,
                ),
                Err(e) => (loaded.0, loaded.1.push((f.path, e))),
            }
        },
    }
}

/// What is loaded of some files, one after the other.
pub open spec fn loaded_files(files: Seq<FileView>, mapped: bool) -> Loaded
    decreases files.len(),
{
    if files.len() == 0 {
        (Map::empty(), Seq::empty())
    } else {
        with_file(loaded_files(files.drop_last(), mapped), files.last(), mapped)
    }
}

/// A number behind those of all entries of the tables among some files that can be read.
pub open spec fn number_behind_files(files: Seq<FileView>, mapped: bool) -> SequenceNumber
    decreases files.len(),
{
    if files.len() == 0 {
        0
    } else {
        larger(
            match (table_level(files.last()), opened(files.last().path, files.last().bytes, mapped)) {
                (Some(_), Ok(r)) => r.number_behind(0),
                _ => 0,
            },
            number_behind_files(files.drop_last(), mapped),
        )
    }
}

/// Law: after loading, the tables of every level stand from the oldest to the youngest, and nothing
/// has been read of any of them.
pub proof fn law_loaded_tables_are_by_age(files: Seq<FileView>, mapped: bool, level: usize)
    ensures
        by_age(tables_at(loaded_files(files, mapped).0, level)),
        forall|i: int|
            0 <= i < tables_at(loaded_files(files, mapped).0, level).len() ==> (
            #[trigger] tables_at(loaded_files(files, mapped).0, level)[i]).cache
                == Map::<u64, Seq<u8>>::empty(),
    decreases files.len(),
{
    if files.len() > 0 {
        let before = loaded_files(files.drop_last(), mapped);
        let f = files.last();
        law_loaded_tables_are_by_age(files.drop_last(), mapped, level);
        if let Some(n) = table_level(f) {
            if let Ok(r) = opened(f.path, f.bytes, mapped) {
                let s = tables_at(before.0, level);
                law_placing_keeps_age(s, r);
                let p = placed_by_time(s, r);
                assert forall|i: int| 0 <= i < p.len() implies (#[trigger] p[i]).cache == Map::<
                    u64,
                    Seq<u8>,
                >::empty() by {
                    if p[i] != r {
                        let k = choose|k: int| 0 <= k < s.len() && s[k] == p[i];
                        assert(s[k].cache == Map::<u64, Seq<u8>>::empty());
                    }
                }
            }
        }
    }
}

/// The sum of the numbers of entries of tables, as far as 64 bits hold it.
pub open spec fn entry_total(tables: Seq<ReaderView>) -> u64
    decreases tables.len(),
{
    if tables.len() == 0 {
        0
    } else {
        entry_total(tables.drop_last()).wrapping_add(tables.last().meta.entry_count)
    }
}

/// The figures about a level.
pub open spec fn level_stats(tables: Seq<ReaderView>) -> LevelStats {
    LevelStats {
        table_count: tables.len() as usize,
        total_size: data_bytes(tables),
        total_entries: entry_total(tables),
    }
}

impl EngineView {
    /// The settings of the tables that are written.
    pub open spec fn table_settings(self) -> SSTableBuilder {
        SSTableBuilder {
            compression: self.config.compression,
            compression_level: self.config.compression_level,
            bloom_false_positive_rate: self.config.bloom_false_positive_rate,
        }
    }

    /// A new engine with these tables, whose first write gets `number`.
    pub open spec fn initial(
        config: Config,
        levels: Map<usize, Seq<ReaderView>>,
        number: SequenceNumber,
        now: Timestamp,
    ) -> EngineView {
        EngineView {
            config,
            memtable: MemTableView::empty(config.memtable_size_threshold, number, now),
            immutables: Seq::empty(),
            levels,
            sequence: 1,
            closed: false,
        }
    }
}

/// Loads the tables among some files.
fn load_sstables(files: Vec<SSTableFile>, mapped: bool) -> (r: (
    LevelMap,
    Vec<LoadFailure>,
    SequenceNumber,
))
    ensures
        r.2 == number_behind_files(file_views(files@), mapped),
        (r.0@, failure_views(r.1@)) == loaded_files(file_views(files@), mapped),
        sound_levels(r.0@),
{
    let ghost given = files@;
    let ghost views = file_views(given);
    let mut rest = files;
    let mut levels = LevelMap::new();
    let mut failures: Vec<LoadFailure> = Vec::new();
    let mut number: SequenceNumber = 0;
    let ghost mut done: int = 0;
    proof {
        assert(views.take(0) =~= Seq::empty());
        assert(failure_views(failures@) =~= Seq::empty());
    }
    while rest.len() > 0
        invariant
            views == file_views(given),
            0 <= done <= given.len(),
            rest@ == given.skip(done),
            (levels@, failure_views(failures@)) == loaded_files(views.take(done), mapped),
            number == number_behind_files(views.take(done), mapped),
        decreases rest@.len(),
    {
        let ghost before = loaded_files(views.take(done), mapped);
        let file = rest.remove(0);
        let ghost view = file@;
        proof {
            assert(view == views[done]);
            assert(views.take(done + 1).drop_last() =~= views.take(done));
            assert(views.take(done + 1).last() == view);
            assert(rest@ =~= given.skip(done + 1));
        }
        let level: Option<usize> = if has_table_extension(file.name.as_str()) {
            parse_level_from_filename(file.name.as_str())
        } else {
            None
        };
        match level {
            Some(level) => {
                let SSTableFile { path, name: _, bytes } = file;
                let shown = path.clone();
                match SSTableReader::open(path, bytes, mapped) {
                    Ok(reader) => {
                        let behind: SequenceNumber = reader.next_number();
                        if behind > number {
                            number = behind;
                        }
                        levels.add_by_time(level, reader);
                    },
                    Err(error) => {
                        let ghost noted = failure_views(failures@);
                        let ghost last = (view.path, error@);
                        failures.push(LoadFailure { path: shown, error });
                        assert(failure_views(failures@) =~= noted.push(last));
                    },
                }
            },
            None => {},
        }
        proof {
            done = done + 1;
        }
    }
    proof {
        assert(views.take(done) =~= views);
        let m = levels@;
        assert forall|l: usize, i: int| m.contains_key(l) && 0 <= i < m[l].len() implies (
        #[trigger] m[l][i]).sound() by {
            law_loaded_tables_are_by_age(views, mapped, l);
            assert(tables_at(m, l)[i] == m[l][i]);
        }
    }
    (levels, failures, number)
}

impl StorageEngine {
    /// Opens an engine on the files of its directory, with the present time.
    pub fn open(config: Config, files: Vec<SSTableFile>) -> (r: Result<
        (StorageEngine, Vec<LoadFailure>),
    >)
        ensures
            ({
                let (levels, failures) = loaded_files(file_views(files@), config.use_mmap);
                let number = number_behind_files(file_views(files@), config.use_mmap);
                match r {
                    Ok(opened) => {
                        &&& config.complaint() is None
                        &&& opened.0.wf()
                        &&& exists|now: Timestamp|
                            opened.0@ == #[trigger] EngineView::initial(
                                config,
                                levels,
                                number,
                                now,
                            )
                        &&& failure_views(opened.1@) == failures
                    },
                    Err(e) => config.complaint() matches Some(text) && e@ == (ErrorView::Config {
                        message: text,
                    }),
                }
            }),
    {
        let now: Timestamp = current_timestamp();
        Self::open_at(config, files, now)
    }

    /// Opens an engine on the files of its directory, at a given time.
    pub fn open_at(config: Config, files: Vec<SSTableFile>, now: Timestamp) -> (r: Result<
        (StorageEngine, Vec<LoadFailure>),
    >)
        ensures
            ({
                let (levels, failures) = loaded_files(file_views(files@), config.use_mmap);
                let number = number_behind_files(file_views(files@), config.use_mmap);
                match r {
                    Ok(opened) => {
                        &&& config.complaint() is None
                        &&& opened.0.wf()
                        &&& opened.0@ == EngineView::initial(config, levels, number, now)
                        &&& failure_views(opened.1@) == failures
                    },
                    Err(e) => config.complaint() matches Some(text) && e@ == (ErrorView::Config {
                        message: text,
                    }),
                }
            }),
    {
        match config.validate() {
            Ok(_) => {},
            Err(message) => {
                return Err(StorageError::Config { message });
            },
        }
        let (sstables, failures, number) = load_sstables(files, config.use_mmap);
        let memtable = MemTable::with_sequence_at(
            config.memtable_size_threshold,
            number,
            now,
        );
        let engine = StorageEngine {
            config,
            memtable,
            immutable_memtables: Vec::new(),
            sstables,
            sequence_counter: 1,
            closed: false,
        };
        proof {
            let levels = loaded_files(file_views(files@), config.use_mmap).0;
            assert(engine@.immutables =~= Seq::empty());
            assert(engine@ =~= EngineView::initial(config, levels, number, now));
        }
        Ok((engine, failures))
    }

    /// How a memtable is written to a file of the first level, or nothing where it is empty.
    pub fn flush_job(&self, memtable: &MemTable, seconds: u64) -> (r: Option<FlushJob>)
        requires
            memtable.wf(),
        ensures
            match r {
                Some(job) => {
                    &&& memtable@.entries.len() > 0
                    &&& job.name@ == table_name(0, seconds as nat, memtable@.sequence as nat)
                    &&& entry_views(job.entries@) == memtable@.entries
                },
                None => memtable@.entries.len() == 0,
            },
    {
        if memtable.count() == 0 {
            return None;
        }
        let name = table_file_name(0, seconds, memtable.current_sequence());
        let pairs = memtable.entries();
        let ghost s = memtable@.entries;
        let mut entries: Vec<Entry> = Vec::new();
        let mut i: usize = 0;
        while i < pairs.len()
            invariant
                i <= pairs@.len(),
                keyed(pairs@, s),
                entry_views(entries@) == s.take(i as int),
            decreases pairs@.len() - i,
        {
            let ghost before = entry_views(entries@);
            let entry = pairs[i].1.clone();
            let ghost view = entry@;
            entries.push(entry);
            assert(entry_views(entries@) =~= before.push(view));
            assert(s.take(i + 1) =~= s.take(i as int).push(s[i as int]));
            i = i + 1;
        }
        assert(s.take(i as int) =~= s);
        Some(FlushJob { name, entries })
    }

    /// The settings of the tables that are written.
    pub fn table_builder(&self) -> (r: SSTableBuilder)
        ensures
            r == self@.table_settings(),
    {
        SSTableBuilder::new().compression(self.config.compression).compression_level(
            self.config.compression_level,
        ).bloom_false_positive_rate(self.config.bloom_false_positive_rate)
    }

    /// Closes the engine, and hands out the memtables that still have to be written to files: those
    /// that wait, the oldest first, and the present one where it is not empty. An engine that is
    /// closed hands out none.
    pub fn close(&mut self) -> (r: Vec<MemTable>)
        requires
            old(self).wf(),
        ensures
            final(self).wf(),
            forall|i: int| 0 <= i < r@.len() ==> (#[trigger] r@[i]).wf(),
            if old(self)@.closed {
                r@.len() == 0 && final(self)@ == old(self)@
            } else {
                &&& final(self)@ == (EngineView {
                    closed: true,
                    immutables: Seq::empty(),
                    ..old(self)@
                })
                &&& memtable_views(r@) == (if old(self)@.memtable.entries.len() > 0 {
                    old(self)@.immutables.push(
                        MemTableView { immutable: true, ..old(self)@.memtable },
                    )
                } else {
                    old(self)@.immutables
                })
            },
    {
        let mut rest: Vec<MemTable> = Vec::new();
        if self.closed {
            return rest;
        }
        self.closed = true;
        let ghost waiting = self.immutable_memtables@;
        std::mem::swap(&mut rest, &mut self.immutable_memtables);
        assert(self@.immutables =~= Seq::empty());
        if self.memtable.count() > 0 {
            let mut last = self.memtable.clone();
            last.make_immutable();
            let ghost view = last@;
            rest.push(last);
            assert(memtable_views(rest@) =~= memtable_views(waiting).push(view));
        }
        rest
    }

    /// Figures about the engine.
    pub fn stats(&self) -> (r: StorageStats)
        requires
            self.wf(),
        ensures
            r.memtable_stats.entry_count == self@.memtable.entries.len(),
            r.memtable_stats.approximate_size == self@.memtable.size,
            r.memtable_stats.min_key_size == smallest(key_sizes(self@.memtable.entries)),
            r.memtable_stats.max_key_size == largest(key_sizes(self@.memtable.entries)),
            r.memtable_stats.min_value_size == smallest(value_sizes(self@.memtable.entries)),
            r.memtable_stats.max_value_size == largest(value_sizes(self@.memtable.entries)),
            r.memtable_stats.creation_time == self@.memtable.created_at,
            r.memtable_stats.is_immutable == self@.memtable.immutable,
            r.immutable_memtable_count == self@.immutables.len(),
            r.sstable_stats@.dom() == self@.levels.dom(),
            forall|level: usize| #[trigger]
                self@.levels.contains_key(level) ==> r.sstable_stats@[level] == level_stats(
                    self@.levels[level],
                ),
            r.seqence_number == self@.sequence,
            r.is_closed == self@.closed,
    {
        let mut sstable_stats: HashMap<usize, LevelStats> = HashMap::new();
        let levels = self.sstables.levels();
        let ghost list = levels@;
        let count: usize = levels.len();
        let mut i: usize = 0;
        assert forall|k: int| 0 <= k < list.len() implies self@.levels.contains_key(
            #[trigger] list[k],
        ) by {
            assert(list.to_set().contains(list[k]));
        }
        while i < count
            invariant
                self.wf(),
                list == levels@,
                count == list.len(),
                i <= count,
                forall|k: int| 0 <= k < list.len() ==> self@.levels.contains_key(#[trigger] list[k]),
                forall|level: usize| #[trigger]
                    sstable_stats@.contains_key(level) <==> list.take(i as int).contains(level),
                forall|level: usize| #[trigger]
                    sstable_stats@.contains_key(level) ==> sstable_stats@[level] == level_stats(
                        self@.levels[level],
                    ),
            decreases count - i,
        {
            let ghost before = sstable_stats@;
            let level: usize = levels[i];
            let stats = self.stats_of_level(level);
            sstable_stats.insert(level, stats);
            proof {
                let t = list.take(i as int);
                let u = list.take(i + 1);
                assert(u =~= t.push(level));
                assert forall|l: usize| #[trigger]
                    sstable_stats@.contains_key(l) <==> u.contains(l) by {
                    if t.contains(l) {
                        let k = choose|k: int| 0 <= k < t.len() && t[k] == l;
                        assert(u[k] == l);
                    }
                    if l == level {
                        assert(u[i as int] == l);
                    }
                    if u.contains(l) && l != level {
                        let k = choose|k: int| 0 <= k < u.len() && u[k] == l;
                        assert(t[k] == l);
                    }
                    assert(before.contains_key(l) <==> t.contains(l));
                }
            }
            i = i + 1;
        }
        proof {
            assert(list.take(i as int) =~= list);
            assert forall|level: usize| sstable_stats@.contains_key(level)
                == #[trigger] self@.levels.contains_key(level) by {
                assert(list.to_set().contains(level) <==> list.contains(level));
            }
            assert(sstable_stats@.dom() =~= self@.levels.dom());
        }
        StorageStats {
            memtable_stats: self.memtable.memory_usage(),
            immutable_memtable_count: self.immutable_memtables.len(),
            sstable_stats,
            seqence_number: self.sequence_counter,
            is_closed: self.closed,
        }
    }

    /// Figures about a level that is there.
    fn stats_of_level(&self, level: usize) -> (r: LevelStats)
        requires
            self.wf(),
            self@.levels.contains_key(level),
        ensures
            r == level_stats(self@.levels[level]),
    {
        let ghost tables = self@.levels[level];
        let count: usize = match self.sstables.table_count(level) {
            Some(n) => n,
            None => 0,
        };
        let mut total_size: u64 = 0;
        let mut total_entries: u64 = 0;
        let mut i: usize = 0;
        assert(tables.take(0) =~= Seq::empty());
        while i < count
            invariant
                self.wf(),
                self@.levels.contains_key(level),
                tables == self@.levels[level],
                count == tables.len(),
                i <= count,
                total_size == data_bytes(tables.take(i as int)),
                total_entries == entry_total(tables.take(i as int)),
            decreases count - i,
        {
            let meta = self.sstables.meta(level, i);
            total_size = total_size.wrapping_add(meta.data_size);
            total_entries = total_entries.wrapping_add(meta.entry_count);
            assert(tables.take(i + 1).drop_last() =~= tables.take(i as int));
            i = i + 1;
        }
        assert(tables.take(i as int) =~= tables);
        LevelStats { table_count: count, total_size, total_entries }
    }
}

/// Law: every file that has the name of a table is loaded into the level that its name says: none of
/// them is passed over.
pub proof fn law_named_files_are_loaded(
    f: FileView,
    level: usize,
    seconds: u64,
    sequence: u64,
)
    requires
        f.name == table_name(level as nat, seconds as nat, sequence as nat),
    ensures
        table_level(f) == Some(level as nat),
{
    crate::names::law_level_is_read_back(level, seconds, sequence);
}

/// Law: a file is that of a table exactly where its name has the extension and says a level.
pub proof fn law_other_files_are_passed_over(f: FileView)
    ensures
        table_level(f) is Some <==> f.name.len() > 4 && f.name.skip(f.name.len() - 4) == ".sst"@
            && level_of_name(f.name) is Some,
        table_level(f) is Some ==> table_level(f) == level_of_name(f.name),
{
    reveal_strlit(".sst");
    assert(".sst"@ =~= seq!['.', 's', 's', 't']);
}

/// Law: one more file adds one table to the level that its name says where it can be opened, one
/// failure with its path and the error where it cannot, and nothing where it is not that of a table.
/// What was loaded before stays.
pub proof fn law_one_more_file_is_loaded(
    files: Seq<FileView>,
    f: FileView,
    mapped: bool,
    level: usize,
)
    ensures
        ({
            let before = loaded_files(files, mapped);
            let after = loaded_files(files.push(f), mapped);
            let x = tables_at(before.0, level);
            let y = tables_at(after.0, level);
            let here = table_level(f) matches Some(n) && n as usize == level;
            match opened(f.path, f.bytes, mapped) {
                Ok(r) => {
                    &&& after.1 == before.1
                    &&& here ==> y.to_multiset() == x.to_multiset().insert(r)
                    &&& !here ==> y == x
                },
                Err(e) => {
                    &&& y == x
                    &&& table_level(f) is Some ==> after.1 == before.1.push((f.path, e))
                    &&& table_level(f) is None ==> after.1 == before.1
                },
            }
        }),
        loaded_files(Seq::empty(), mapped).0 == Map::<usize, Seq<ReaderView>>::empty(),
        loaded_files(Seq::empty(), mapped).1.len() == 0,
{
    assert(files.push(f).drop_last() =~= files);
    let before = loaded_files(files, mapped);
    if let (Some(n), Ok(r)) = (table_level(f), opened(f.path, f.bytes, mapped)) {
        let s = tables_at(before.0, n as usize);
        lemma_placed_adds_one(s, r);
    }
}

proof fn lemma_placed_adds_one(s: Seq<ReaderView>, r: ReaderView)
    ensures
        placed_by_time(s, r).to_multiset() == s.to_multiset().insert(r),
    decreases s.len(),
{
    broadcast use vstd::seq_lib::group_to_multiset_ensures;

    if s.len() == 0 || s.last().meta.created_at <= r.meta.created_at {
        assert(s.push(r).to_multiset() =~= s.to_multiset().insert(r));
    } else {
        let t = s.drop_last();
        lemma_placed_adds_one(t, r);
        assert(t.push(s.last()) =~= s);
        assert(s.to_multiset() =~= t.to_multiset().insert(s.last()));
        assert(placed_by_time(s, r).to_multiset() =~= placed_by_time(t, r).to_multiset().insert(
            s.last(),
        ));
        assert(t.to_multiset().insert(r).insert(s.last()) =~= t.to_multiset().insert(
            s.last(),
        ).insert(r));
    }
}

/// Law: the figures about a level are the number of its tables, and what their sizes and the numbers
/// of their entries add up to, as long as 64 bits hold the sums.
pub proof fn law_level_figures_add_up(tables: Seq<ReaderView>)
    requires
        tables.len() <= usize::MAX,
    ensures
        ({
            let bytes = tables.fold_left(
                0int,
                |sum: int, t: ReaderView| sum + t.meta.data_size as int,
            );
            let entries = tables.fold_left(
                0int,
                |sum: int, t: ReaderView| sum + t.meta.entry_count as int,
            );
            &&& level_stats(tables).table_count == tables.len()
            &&& bytes <= u64::MAX ==> level_stats(tables).total_size == bytes
            &&& entries <= u64::MAX ==> level_stats(tables).total_entries == entries
        }),
{
    let with_size = |sum: int, t: ReaderView| sum + t.meta.data_size as int;
    let count = |sum: int, t: ReaderView| sum + t.meta.entry_count as int;
    if tables.fold_left(0int, with_size) <= u64::MAX {
        crate::storage::compact::lemma_data_bytes_add_up(tables, with_size);
    }
    if tables.fold_left(0int, count) <= u64::MAX {
        lemma_entries_add_up(tables, count);
    }
}

proof fn lemma_entries_add_up(tables: Seq<ReaderView>, count: spec_fn(int, ReaderView) -> int)
    requires
        forall|sum: int, t: ReaderView| #[trigger] count(sum, t) == sum + t.meta.entry_count,
        tables.fold_left(0int, count) <= u64::MAX,
    ensures
        entry_total(tables) == tables.fold_left(0int, count),
        tables.fold_left(0int, count) >= 0,
    decreases tables.len(),
{
    if tables.len() > 0 {
        lemma_count_is_not_negative(tables.drop_last(), count);
        lemma_entries_add_up(tables.drop_last(), count);
    }
}

proof fn lemma_count_is_not_negative(
    tables: Seq<ReaderView>,
    count: spec_fn(int, ReaderView) -> int,
)
    requires
        forall|sum: int, t: ReaderView| #[trigger] count(sum, t) == sum + t.meta.entry_count,
    ensures
        tables.fold_left(0int, count) >= 0,
    decreases tables.len(),
{
    if tables.len() > 0 {
        lemma_count_is_not_negative(tables.drop_last(), count);
    }
}

/// Law: an engine that was just opened has the settings and the tables that it was given, nothing in
/// memory, and is open.
pub proof fn law_opened_engine_has_its_tables(
    config: Config,
    levels: Map<usize, Seq<ReaderView>>,
    number: SequenceNumber,
    now: Timestamp,
)
    ensures
        ({
            let engine = EngineView::initial(config, levels, number, now);
            &&& engine.config == config
            &&& engine.levels == levels
            &&& engine.memtable.entries.len() == 0
            &&& engine.memtable.size == 0
            &&& engine.memtable.sequence == number
            &&& engine.memtable.max_size == config.memtable_size_threshold
            &&& engine.memtable.created_at == now
            &&& !engine.memtable.immutable
            &&& engine.immutables.len() == 0
            &&& engine.sequence == 1
            &&& !engine.closed
        }),
{
}

/// Law: tables are written with the compression and the rate of the settings.
pub proof fn law_tables_are_written_as_set(engine: EngineView)
    ensures
        engine.table_settings().compression == engine.config.compression,
        engine.table_settings().compression_level == engine.config.compression_level,
        engine.table_settings().bloom_false_positive_rate
            == engine.config.bloom_false_positive_rate,
{
}

/// Law: what is seen of a file is its path, all of its name and all of its bytes; what is seen of a
/// failure is its path and its error.
pub proof fn law_files_are_seen_whole(
    file: SSTableFile,
    files: Seq<SSTableFile>,
    failures: Seq<LoadFailure>,
)
    ensures
        file@.path == file.path,
        file@.name == file.name@,
        file@.bytes == file.bytes@,
        file_views(files).len() == files.len(),
        forall|i: int| 0 <= i < files.len() ==> #[trigger] file_views(files)[i] == files[i]@,
        failure_views(failures).len() == failures.len(),
        forall|i: int|
            0 <= i < failures.len() ==> #[trigger] failure_views(failures)[i] == (
                failures[i].path,
                failures[i].error@,
            ),
{
}

/// Law: the number behind the tables among some files is that behind one of them, or zero where there
/// is none.
pub proof fn law_number_behind_files_is_that_of_one(files: Seq<FileView>, mapped: bool)
    ensures
        number_behind_files(files, mapped) == 0 || exists|i: int|
            0 <= i < files.len() && table_level(files[i]) is Some && (opened(
                (#[trigger] files[i]).path,
                files[i].bytes,
                mapped,
            ) matches Ok(r) && number_behind_files(files, mapped) == r.number_behind(0)),
    decreases files.len(),
{
    if files.len() > 0 {
        let rest = files.drop_last();
        let n = files.len() - 1;
        law_number_behind_files_is_that_of_one(rest, mapped);
        assert(files[n] == files.last());
        if number_behind_files(rest, mapped) != 0 {
            let i = choose|i: int|
                0 <= i < rest.len() && table_level(rest[i]) is Some && (opened(
                    (#[trigger] rest[i]).path,
                    rest[i].bytes,
                    mapped,
                ) matches Ok(r) && number_behind_files(rest, mapped) == r.number_behind(0));
            assert(files[i] == rest[i]);
        }
    }
}

} // verus!
