//! The storage engine.
use crate::clock::current_timestamp;
use crate::config::Config;
use crate::error::{ErrorView, Result, StorageError};
use crate::levels::{fresh_levels, sound_levels, tables_at, LevelMap};
use crate::memtable::{entry_of, MemTable, MemTableView};
use crate::order::{key_at_most, less};
use crate::sorted::{lemma_table_entry, table};
use crate::sstable::reader::ReaderView;
use crate::storage::laws::law_put_value_is_got_back;
use crate::{Entry, EntryView, SequenceNumber, Timestamp, MAX_KEY_SIZE, MAX_VALUE_SIZE};
use vstd::prelude::*;

pub mod compact;
pub mod laws;
pub mod load;
pub mod merged;
pub mod restart;
pub mod scan;
pub mod sequence;

pub use load::{FlushJob, LevelStats, LoadFailure, SSTableFile, StorageStats};

verus! {

/// A log-structured store: writes go to a table in memory, full tables wait in memory, and go to
/// sorted files from there.
pub struct StorageEngine {
    config: Config,
    memtable: MemTable,
    immutable_memtables: Vec<MemTable>,
    sstables: LevelMap,
    sequence_counter: SequenceNumber,
    closed: bool,
}

/// A [`StorageEngine`].
#[verifier::ext_equal]
pub struct EngineView {
    pub config: Config,
    pub memtable: MemTableView,
    pub immutables: Seq<MemTableView>,
    pub levels: Map<usize, Seq<ReaderView>>,
    pub sequence: SequenceNumber,
    pub closed: bool,
}

/// How a write goes on.
pub enum WriteStep {
    /// The write is done.
    Done,
    /// This table has to be written to a file before the write can be resumed.
    Flush(MemTable),
}

/// The views of a sequence of memtables.
pub open spec fn memtable_views(tables: Seq<MemTable>) -> Seq<MemTableView> {
    tables.map_values(|m: MemTable| m@)
}

/// The entry for `key` in the newest memtable that has one.
pub open spec fn newest_memtable(tables: Seq<MemTableView>, key: Seq<u8>) -> Option<EntryView>
    decreases tables.len(),
{
    if tables.len() == 0 {
        None
    } else {
        match tables.last().lookup(key) {
            Some(e) => Some(e),
            None => newest_memtable(tables.drop_last(), key),
        }
    }
}

/// The entry for `key` in the newest table that has one, or the error of a table that is searched
/// before.
pub open spec fn newest_table(tables: Seq<ReaderView>, key: Seq<u8>) -> std::result::Result<
    Option<EntryView>,
    ErrorView,
>
    decreases tables.len(),
{
    if tables.len() == 0 {
        Ok(None)
    } else {
        match tables.last().lookup(key) {
            Ok(None) => newest_table(tables.drop_last(), key),
            found => found,
        }
    }
}

/// Whether `key` lies between the keys that a table notes as its smallest and largest.
pub open spec fn covers(r: ReaderView, key: Seq<u8>) -> bool {
    key_at_most(r.meta.min_key, key) && key_at_most(key, r.meta.max_key)
}

/// The first table from `i` on that covers `key`, or the number of tables.
pub open spec fn first_covering(tables: Seq<ReaderView>, key: Seq<u8>, i: int) -> int
    decreases tables.len() - i,
{
    if i >= tables.len() || covers(tables[i], key) {
        i
    } else {
        first_covering(tables, key, i + 1)
    }
}

/// The entry for `key` in a level: the newest one in the first level, and in the others that of the
/// first table that covers the key.
pub open spec fn found_in_level(
    tables: Seq<ReaderView>,
    level: nat,
    key: Seq<u8>,
) -> std::result::Result<Option<EntryView>, ErrorView> {
    if level == 0 {
        newest_table(tables, key)
    } else {
        let i = first_covering(tables, key, 0);
        if i < tables.len() {
            tables[i].lookup(key)
        } else {
            Ok(None)
        }
    }
}

/// The entry for `key` in the first level from `level` on, and before `max`, that has one.
pub open spec fn found_on_disk(
    levels: Map<usize, Seq<ReaderView>>,
    level: nat,
    max: nat,
    key: Seq<u8>,
) -> std::result::Result<Option<EntryView>, ErrorView>
    decreases max - level,
{
    if level >= max {
        Ok(None)
    } else {
        match found_in_level(tables_at(levels, level as usize), level, key) {
            Ok(None) => found_on_disk(levels, level + 1, max, key),
            found => found,
        }
    }
}

/// Whether the sizes of all entries are within the limits.
pub open spec fn within_limits(s: Seq<EntryView>) -> bool {
    forall|i: int| 0 <= i < s.len() ==> entry_within_limits(#[trigger] s[i])
}

/// Whether the sizes of an entry are within the limits.
pub open spec fn entry_within_limits(e: EntryView) -> bool {
    &&& e.key.len() <= MAX_KEY_SIZE
    &&& e.value matches Some(v) ==> v.len() <= MAX_VALUE_SIZE
}

impl EngineView {
    /// What holds of every engine.
    pub open spec fn wf(self) -> bool {
        &&& self.config.complaint() is None
        &&& self.memory_wf()
        &&& self.immutables.len() <= self.config.max_memtables
        &&& sound_levels(self.levels)
    }

    /// What holds of the memtables of every engine.
    pub open spec fn memory_wf(self) -> bool {
        &&& self.memtable.wf()
        &&& !self.memtable.immutable
        &&& within_limits(self.memtable.entries)
        &&& forall|i: int|
            0 <= i < self.immutables.len() ==> (#[trigger] self.immutables[i]).wf()
                && within_limits(self.immutables[i].entries)
    }

    /// This engine with nothing read of its files.
    pub open spec fn fresh(self) -> EngineView {
        EngineView { levels: fresh_levels(self.levels), ..self }
    }

    /// The entry for `key` in memory.
    pub open spec fn found_in_memory(self, key: Seq<u8>) -> Option<EntryView> {
        match self.memtable.lookup(key) {
            Some(e) => Some(e),
            None => newest_memtable(self.immutables, key),
        }
    }

    /// The entry for `key`: in memory, or else in files.
    pub open spec fn found(self, key: Seq<u8>) -> std::result::Result<
        Option<EntryView>,
        ErrorView,
    > {
        match self.found_in_memory(key) {
            Some(e) => Ok(Some(e)),
            None => found_on_disk(self.levels, 0, self.config.max_levels as nat, key),
        }
    }

    /// The value for `key`, or none where there is no entry or one that marks a deletion.
    pub open spec fn value_of(self, key: Seq<u8>) -> std::result::Result<
        Option<Seq<u8>>,
        ErrorView,
    > {
        if self.closed {
            Err(ErrorView::Closed)
        } else {
            match self.found(key) {
                Ok(Some(e)) => Ok(e.value),
                Ok(None) => Ok(None),
                Err(e) => Err(e),
            }
        }
    }

    /// Why a write is refused, if it is.
    pub open spec fn refusal(self, key: Seq<u8>, value: Option<Seq<u8>>) -> Option<ErrorView> {
        if self.closed {
            Some(ErrorView::Closed)
        } else if key.len() > MAX_KEY_SIZE {
            Some(
                ErrorView::InvalidKeySize { size: key.len() as usize, max_size: MAX_KEY_SIZE },
            )
        } else {
            match value {
                Some(v) => if v.len() > MAX_VALUE_SIZE {
                    Some(
                        ErrorView::InvalidValueSize {
                            size: v.len() as usize,
                            max_size: MAX_VALUE_SIZE,
                        },
                    )
                } else {
                    None
                },
                None => None,
            }
        }
    }

    /// The number that the first write to a new memtable gets: no number that was given out comes
    /// again.
    pub open spec fn next_start(self) -> SequenceNumber {
        if self.memtable.sequence > self.sequence {
            self.memtable.sequence
        } else {
            self.sequence
        }
    }

    /// The engine after a full memtable was put aside for a new one that is made at `now`.
    pub open spec fn rotated(self, now: Timestamp) -> EngineView {
        if self.memtable.size >= self.memtable.max_size {
            EngineView {
                memtable: MemTableView::empty(
                    self.config.memtable_size_threshold,
                    self.next_start(),
                    now,
                ),
                immutables: self.immutables.push(
                    MemTableView { immutable: true, ..self.memtable },
                ),
                sequence: self.sequence.wrapping_add(1),
                ..self
            }
        } else {
            self
        }
    }

    /// Whether more memtables wait than may.
    pub open spec fn has_surplus(self) -> bool {
        self.immutables.len() > self.config.max_memtables
    }

    /// The engine without the oldest of the memtables that wait.
    pub open spec fn without_oldest(self) -> EngineView {
        EngineView { immutables: self.immutables.drop_first(), ..self }
    }

    /// Whether `after` is this engine with one more entry in its memtable.
    pub open spec fn wrote(self, after: EngineView, e: EntryView) -> bool {
        self.memtable.recorded(after.memtable, e) && after == (EngineView {
            memtable: after.memtable,
            ..self
        })
    }

    /// Whether going on with a write of `value` for `key` at `now` may give `step` and leave `after`.
    pub open spec fn goes_on(
        self,
        key: Seq<u8>,
        value: Option<Seq<u8>>,
        now: Timestamp,
        step: WriteStep,
        after: EngineView,
    ) -> bool {
        match step {
            WriteStep::Flush(m) => {
                &&& self.has_surplus()
                &&& m@ == self.immutables[0]
                &&& after == self.without_oldest()
            },
            WriteStep::Done => {
                &&& !self.has_surplus()
                &&& self.wrote(after, entry_of(key, value, now, self.memtable.sequence))
            },
        }
    }
}

/// An entry that is within the limits keeps a memtable within them.
proof fn lemma_recorded_within_limits(before: MemTableView, after: MemTableView, e: EntryView)
    requires
        before.recorded(after, e),
        within_limits(before.entries),
        entry_within_limits(e),
    ensures
        within_limits(after.entries),
{
    assert forall|i: int| 0 <= i < after.entries.len() implies entry_within_limits(
        #[trigger] after.entries[i],
    ) by {
        lemma_table_entry(after.entries, i);
        let key = after.entries[i].key;
        if key != e.key {
            assert(table(before.entries).contains_key(key));
        }
    }
}

impl View for StorageEngine {
    type V = EngineView;

    closed spec fn view(&self) -> EngineView {
        EngineView {
            config: self.config,
            memtable: self.memtable@,
            immutables: memtable_views(self.immutable_memtables@),
            levels: self.sstables@,
            sequence: self.sequence_counter,
            closed: self.closed,
        }
    }
}

impl StorageEngine {
    /// The parts are well-formed.
    pub closed spec fn parts_wf(self) -> bool {
        &&& self.memtable.wf()
        &&& forall|i: int|
            0 <= i < self.immutable_memtables@.len() ==> (
            #[trigger] self.immutable_memtables@[i]).wf()
    }

    pub open spec fn wf(self) -> bool {
        self@.wf() && self.parts_wf()
    }

    /// Whether the engine is closed.
    pub fn is_closed(&self) -> (r: bool)
        ensures
            r == self@.closed,
    {
        self.closed
    }

    /// The settings.
    pub fn config(&self) -> (r: &Config)
        ensures
            *r == self@.config,
    {
        &self.config
    }

    fn next_sequence(&mut self) -> (r: SequenceNumber)
        ensures
            r == old(self)@.sequence,
            final(self)@ == (EngineView {
                sequence: old(self)@.sequence.wrapping_add(1),
                ..old(self)@
            }),
            old(self).parts_wf() ==> final(self).parts_wf(),
    {
        let r: SequenceNumber = self.sequence_counter;
        self.sequence_counter = r.wrapping_add(1);
        r
    }

    /// Refuses a write for its sizes, or where the engine is closed.
    fn check_write(&self, key: &[u8], value: Option<&[u8]>) -> (r: Result<()>)
        ensures
            ({
                let v = match value {
                    Some(v) => Some(v@),
                    None => None,
                };
                match r {
                    Ok(_) => self@.refusal(key@, v) is None,
                    Err(e) => self@.refusal(key@, v) == Some(e@),
                }
            }),
    {
        if self.closed {
            return Err(StorageError::Closed);
        }
        if key.len() > MAX_KEY_SIZE {
            return Err(
                StorageError::InvalidKeySize { size: key.len(), max_size: MAX_KEY_SIZE },
            );
        }
        match value {
            Some(v) => {
                if v.len() > MAX_VALUE_SIZE {
                    return Err(
                        StorageError::InvalidValueSize { size: v.len(), max_size: MAX_VALUE_SIZE },
                    );
                }
            },
            None => {},
        }
        Ok(())
    }

    /// Puts a full memtable aside.
    fn check_rotate_memtable(&mut self, now: Timestamp)
        requires
            old(self).wf(),
        ensures
            final(self)@ == old(self)@.rotated(now),
            final(self).parts_wf(),
            final(self)@.memory_wf(),
    {
        if self.memtable.should_flush() {
            let ghost before = *self;
            let counter: SequenceNumber = self.next_sequence();
            let given: SequenceNumber = self.memtable.current_sequence();
            let mut full = MemTable::with_sequence_at(
                self.config.memtable_size_threshold,
                if given > counter {
                    given
                } else {
                    counter
                },
                now,
            );
            std::mem::swap(&mut self.memtable, &mut full);
            full.make_immutable();
            let ghost view = full@;
            self.immutable_memtables.push(full);
            proof {
                assert(self@.immutables =~= before@.immutables.push(view));
                assert(self@ =~= before@.rotated(now));
                assert forall|i: int| 0 <= i < self@.immutables.len() implies (
                #[trigger] self@.immutables[i]).wf() && within_limits(
                    self@.immutables[i].entries,
                ) by {
                    if i < before@.immutables.len() {
                        assert(before@.immutables[i].wf());
                    }
                }
            }
        }
    }

    /// Goes on with a write that was not refused: hands out the oldest of the memtables that wait
    /// where there are too many, or else puts the entry in.
    fn go_on(&mut self, key: &[u8], value: Option<&[u8]>, now: Timestamp) -> (r: WriteStep)
        requires
            old(self).parts_wf(),
            old(self)@.memory_wf(),
            key@.len() <= MAX_KEY_SIZE,
            value matches Some(v) ==> v@.len() <= MAX_VALUE_SIZE,
        ensures
            ({
                let v = match value {
                    Some(v) => Some(v@),
                    None => None,
                };
                old(self)@.goes_on(key@, v, now, r, final(self)@)
            }),
            r matches WriteStep::Flush(m) ==> m.wf(),
            final(self).parts_wf(),
            final(self)@.memory_wf(),
    {
        let ghost before = *self;
        if self.immutable_memtables.len() > self.config.max_memtables {
            let oldest = self.immutable_memtables.remove(0);
            proof {
                assert(before.immutable_memtables@[0].wf());
                assert(before@.immutables[0] == before.immutable_memtables@[0]@);
                assert(self@.immutables =~= before@.immutables.drop_first());
                assert(self@ =~= before@.without_oldest());
                assert forall|i: int| 0 <= i < self.immutable_memtables@.len() implies (
                #[trigger] self.immutable_memtables@[i]).wf() by {
                    assert(self.immutable_memtables@[i] == before.immutable_memtables@[i + 1]);
                }
                assert forall|i: int| 0 <= i < self@.immutables.len() implies (
                #[trigger] self@.immutables[i]).wf() && within_limits(
                    self@.immutables[i].entries,
                ) by {
                    assert(self@.immutables[i] == before@.immutables[i + 1]);
                }
            }
            return WriteStep::Flush(oldest);
        }
        let value = match value {
            Some(v) => Some(crate::copy_bytes(v)),
            None => None,
        };
        let _recorded = self.memtable.record(crate::copy_bytes(key), value, now);
        proof {
            lemma_recorded_within_limits(
                before@.memtable,
                self@.memtable,
                entry_of(key@, crate::value_view(value), now, before@.memtable.sequence),
            );
        }
        WriteStep::Done
    }

    /// Puts a value in for a key, with the present time.
    ///
    /// Where a table has to be written to a file before, it is handed out; the write is done by
    /// [`StorageEngine::resume_put`] after that.
    pub fn put(&mut self, key: &[u8], value: &[u8]) -> (r: Result<WriteStep>)
        requires
            old(self).wf(),
        ensures
            final(self).wf(),
            match r {
                Ok(step) => {
                    &&& old(self)@.refusal(key@, Some(value@)) is None
                    &&& step matches WriteStep::Flush(m) ==> m.wf()
                    &&& exists|made: Timestamp, now: Timestamp|
                        #[trigger] old(self)@.rotated(made).goes_on(
                            key@,
                            Some(value@),
                            now,
                            step,
                            final(self)@,
                        )
                },
                Err(e) => old(self)@.refusal(key@, Some(value@)) == Some(e@) && final(self)@
                    == old(self)@,
            },
            r is Ok <==> !old(self)@.closed && key@.len() <= 1024 && value@.len() <= 1_048_576,
            r matches Ok(WriteStep::Done) ==> final(self)@.value_of(key@) == Ok::<
                Option<Seq<u8>>,
                ErrorView,
            >(Some(value@)),
            r matches Ok(WriteStep::Done) ==> forall|other: Seq<u8>|
                other != key@ ==> #[trigger] final(self)@.value_of(other) == old(self)@.value_of(
                    other,
                ),
    {
        let made: Timestamp = current_timestamp();
        let now: Timestamp = current_timestamp();
        self.write_at(key, Some(value), made, now)
    }

    /// Marks a key as deleted, with the present time.
    ///
    /// Where a table has to be written to a file before, it is handed out; the write is done by
    /// [`StorageEngine::resume_delete`] after that.
    pub fn delete(&mut self, key: &[u8]) -> (r: Result<WriteStep>)
        requires
            old(self).wf(),
        ensures
            final(self).wf(),
            match r {
                Ok(step) => {
                    &&& old(self)@.refusal(key@, None) is None
                    &&& step matches WriteStep::Flush(m) ==> m.wf()
                    &&& exists|made: Timestamp, now: Timestamp|
                        #[trigger] old(self)@.rotated(made).goes_on(
                            key@,
                            None,
                            now,
                            step,
                            final(self)@,
                        )
                },
                Err(e) => old(self)@.refusal(key@, None) == Some(e@) && final(self)@ == old(self)@,
            },
            r is Ok <==> !old(self)@.closed && key@.len() <= 1024,
            r matches Ok(WriteStep::Done) ==> final(self)@.value_of(key@) == Ok::<
                Option<Seq<u8>>,
                ErrorView,
            >(None),
            r matches Ok(WriteStep::Done) ==> forall|other: Seq<u8>|
                other != key@ ==> #[trigger] final(self)@.value_of(other) == old(self)@.value_of(
                    other,
                ),
    {
        let made: Timestamp = current_timestamp();
        let now: Timestamp = current_timestamp();
        self.write_at(key, None, made, now)
    }

    /// Puts a value in for a key, or the mark of a deletion, at `now`; a new memtable is one of
    /// `made`.
    pub fn write_at(
        &mut self,
        key: &[u8],
        value: Option<&[u8]>,
        made: Timestamp,
        now: Timestamp,
    ) -> (r: Result<WriteStep>)
        requires
            old(self).wf(),
        ensures
            final(self).wf(),
            ({
                let v = match value {
                    Some(v) => Some(v@),
                    None => None,
                };
                match r {
                    Ok(step) => {
                        &&& old(self)@.refusal(key@, v) is None
                        &&& step matches WriteStep::Flush(m) ==> m.wf()
                        &&& old(self)@.rotated(made).goes_on(key@, v, now, step, final(self)@)
                    },
                    Err(e) => old(self)@.refusal(key@, v) == Some(e@) && final(self)@
                        == old(self)@,
                }
            }),
            r is Ok <==> !old(self)@.closed && key@.len() <= 1024 && (value matches Some(v)
                ==> v@.len() <= 1_048_576),
            r matches Ok(WriteStep::Done) ==> final(self)@.value_of(key@) == Ok::<
                Option<Seq<u8>>,
                ErrorView,
            >(
                match value {
                    Some(v) => Some(v@),
                    None => None,
                },
            ),
            r matches Ok(WriteStep::Done) ==> forall|other: Seq<u8>|
                other != key@ ==> #[trigger] final(self)@.value_of(other) == old(self)@.value_of(
                    other,
                ),
    {
        let ghost before = self@;
        let ghost v = match value {
            Some(v) => Some(v@),
            None => None,
        };
        self.check_write(key, value)?;
        self.check_rotate_memtable(made);
        let step = self.go_on(key, value, now);
        proof {
            if step is Done {
                law_put_value_is_got_back(before, made, now, self@, key@, v, key@);
                assert forall|other: Seq<u8>| other != key@ implies #[trigger] self@.value_of(other)
                    == before.value_of(other) by {
                    law_put_value_is_got_back(before, made, now, self@, key@, v, other);
                }
            }
        }
        Ok(step)
    }

    /// Goes on with putting a value in for a key, with the present time, after the table that was
    /// handed out was written to a file.
    pub fn resume_put(&mut self, key: &[u8], value: &[u8])
        requires
            old(self).wf(),
            key@.len() <= MAX_KEY_SIZE,
            value@.len() <= MAX_VALUE_SIZE,
        ensures
            final(self).wf(),
            exists|now: Timestamp|
                old(self)@.wrote(
                    final(self)@,
                    #[trigger] entry_of(
                        key@,
                        Some(value@),
                        now,
                        old(self)@.memtable.sequence,
                    ),
                ),
            !old(self)@.closed ==> final(self)@.value_of(key@) == Ok::<
                Option<Seq<u8>>,
                ErrorView,
            >(Some(value@)),
            forall|other: Seq<u8>|
                other != key@ ==> #[trigger] final(self)@.value_of(other) == old(self)@.value_of(
                    other,
                ),
    {
        let now: Timestamp = current_timestamp();
        let _step = self.go_on(key, Some(value), now);
    }

    /// Goes on with marking a key as deleted, with the present time, after the table that was
    /// handed out was written to a file.
    pub fn resume_delete(&mut self, key: &[u8])
        requires
            old(self).wf(),
            key@.len() <= MAX_KEY_SIZE,
        ensures
            final(self).wf(),
            exists|now: Timestamp|
                old(self)@.wrote(
                    final(self)@,
                    #[trigger] entry_of(key@, None, now, old(self)@.memtable.sequence),
                ),
            !old(self)@.closed ==> final(self)@.value_of(key@) == Ok::<
                Option<Seq<u8>>,
                ErrorView,
            >(None),
            forall|other: Seq<u8>|
                other != key@ ==> #[trigger] final(self)@.value_of(other) == old(self)@.value_of(
                    other,
                ),
    {
        let now: Timestamp = current_timestamp();
        let _step = self.go_on(key, None, now);
    }

    /// The value for a key.
    pub fn get(&mut self, key: &[u8]) -> (r: Result<Option<Vec<u8>>>)
        requires
            old(self).wf(),
        ensures
            final(self).wf(),
            final(self)@.fresh() == old(self)@.fresh(),
            match r {
                Ok(Some(v)) => old(self)@.value_of(key@) == Ok::<Option<Seq<u8>>, ErrorView>(
                    Some(v@),
                ),
                Ok(None) => old(self)@.value_of(key@) == Ok::<Option<Seq<u8>>, ErrorView>(None),
                Err(e) => old(self)@.value_of(key@) == Err::<Option<Seq<u8>>, ErrorView>(e@),
            },
    {
        if self.closed {
            return Err(StorageError::Closed);
        }
        match self.memtable.get(key) {
            Some(entry) => {
                return Ok(entry.value);
            },
            None => {},
        }
        match self.find_in_immutables(key) {
            Some(entry) => {
                return Ok(entry.value);
            },
            None => {},
        }
        match self.find_on_disk(key)? {
            Some(entry) => Ok(entry.value),
            None => Ok(None),
        }
    }

    /// The entry for a key in the newest memtable that waits and has one.
    fn find_in_immutables(&self, key: &[u8]) -> (r: Option<Entry>)
        requires
            self.wf(),
        ensures
            match r {
                Some(e) => newest_memtable(self@.immutables, key@) == Some(e@),
                None => newest_memtable(self@.immutables, key@) is None,
            },
    {
        let ghost views = self@.immutables;
        let mut i: usize = self.immutable_memtables.len();
        assert(views.take(i as int) =~= views);
        while i > 0
            invariant
                self.wf(),
                views == self@.immutables,
                i <= self.immutable_memtables@.len(),
                newest_memtable(views, key@) == newest_memtable(views.take(i as int), key@),
            decreases i,
        {
            assert(views.take(i as int).last() == self.immutable_memtables@[i - 1]@);
            assert(views.take(i as int).drop_last() =~= views.take(i - 1));
            match self.immutable_memtables[i - 1].get(key) {
                Some(entry) => {
                    return Some(entry);
                },
                None => {},
            }
            i = i - 1;
        }
        None
    }

    /// The entry for a key in the first level that has one.
    fn find_on_disk(&mut self, key: &[u8]) -> (r: Result<Option<Entry>>)
        requires
            old(self).wf(),
        ensures
            final(self).wf(),
            final(self)@.fresh() == old(self)@.fresh(),
            ({
                let found = found_on_disk(
                    old(self)@.levels,
                    0,
                    old(self)@.config.max_levels as nat,
                    key@,
                );
                match r {
                    Ok(Some(e)) => found == Ok::<Option<EntryView>, ErrorView>(Some(e@)),
                    Ok(None) => found == Ok::<Option<EntryView>, ErrorView>(None),
                    Err(e) => found == Err::<Option<EntryView>, ErrorView>(e@),
                }
            }),
    {
        let ghost levels = self@.levels;
        let max: usize = self.config.max_levels;
        let mut level: usize = 0;
        while level < max
            invariant
                self.wf(),
                self@.fresh() == old(self)@.fresh(),
                levels == old(self)@.levels,
                max == old(self)@.config.max_levels,
                level <= max,
                forall|l: usize|
                    level <= l ==> tables_at(self@.levels, l) == #[trigger] tables_at(levels, l),
                found_on_disk(levels, 0, max as nat, key@) == found_on_disk(
                    levels,
                    level as nat,
                    max as nat,
                    key@,
                ),
            decreases max - level,
        {
            match self.find_in_level(level, key)? {
                Some(entry) => {
                    return Ok(Some(entry));
                },
                None => {},
            }
            level = level + 1;
        }
        Ok(None)
    }

    /// The entry for a key in a level.
    fn find_in_level(&mut self, level: usize, key: &[u8]) -> (r: Result<Option<Entry>>)
        requires
            old(self).wf(),
        ensures
            final(self).wf(),
            final(self)@.fresh() == old(self)@.fresh(),
            forall|l: usize|
                l != level ==> tables_at(final(self)@.levels, l) == #[trigger] tables_at(
                    old(self)@.levels,
                    l,
                ),
            ({
                let found = found_in_level(
                    tables_at(old(self)@.levels, level),
                    level as nat,
                    key@,
                );
                match r {
                    Ok(Some(e)) => found == Ok::<Option<EntryView>, ErrorView>(Some(e@)),
                    Ok(None) => found == Ok::<Option<EntryView>, ErrorView>(None),
                    Err(e) => found == Err::<Option<EntryView>, ErrorView>(e@),
                }
            }),
    {
        let count: usize = match self.sstables.table_count(level) {
            Some(n) => n,
            None => 0,
        };
        if level == 0 {
            self.find_newest(count, key)
        } else {
            match self.find_sstable_for_key(level, count, key) {
                Some(i) => self.sstables.get_in(level, i, key),
                None => Ok(None),
            }
        }
    }

    /// The entry for a key in the newest table of the first level that has one.
    fn find_newest(&mut self, count: usize, key: &[u8]) -> (r: Result<Option<Entry>>)
        requires
            old(self).wf(),
            count == tables_at(old(self)@.levels, 0).len(),
        ensures
            final(self).wf(),
            final(self)@.fresh() == old(self)@.fresh(),
            forall|l: usize|
                l != 0 ==> tables_at(final(self)@.levels, l) == #[trigger] tables_at(
                    old(self)@.levels,
                    l,
                ),
            ({
                let found = newest_table(tables_at(old(self)@.levels, 0), key@);
                match r {
                    Ok(Some(e)) => found == Ok::<Option<EntryView>, ErrorView>(Some(e@)),
                    Ok(None) => found == Ok::<Option<EntryView>, ErrorView>(None),
                    Err(e) => found == Err::<Option<EntryView>, ErrorView>(e@),
                }
            }),
    {
        let ghost tables = tables_at(self@.levels, 0);
        let mut i: usize = count;
        assert(tables.take(i as int) =~= tables);
        while i > 0
            invariant
                self.wf(),
                self@.fresh() == old(self)@.fresh(),
                tables == tables_at(old(self)@.levels, 0),
                tables_at(self@.levels, 0).len() == tables.len(),
                i <= tables.len(),
                forall|l: usize|
                    l != 0 ==> tables_at(self@.levels, l) == #[trigger] tables_at(
                        old(self)@.levels,
                        l,
                    ),
                forall|j: int|
                    0 <= j < i ==> #[trigger] tables_at(self@.levels, 0)[j] == tables[j],
                newest_table(tables, key@) == newest_table(tables.take(i as int), key@),
            decreases i,
        {
            assert(tables.take(i as int).last() == tables[i - 1]);
            assert(tables.take(i as int).drop_last() =~= tables.take(i - 1));
            assert(tables_at(self@.levels, 0)[i - 1] == tables[i - 1]);
            match self.sstables.get_in(0, i - 1, key)? {
                Some(entry) => {
                    return Ok(Some(entry));
                },
                None => {},
            }
            i = i - 1;
        }
        Ok(None)
    }

    /// The first of the `count` tables of a level that covers a key.
    fn find_sstable_for_key(&self, level: usize, count: usize, key: &[u8]) -> (r: Option<usize>)
        requires
            self.wf(),
            count == tables_at(self@.levels, level).len(),
        ensures
            ({
                let i = first_covering(tables_at(self@.levels, level), key@, 0);
                match r {
                    Some(n) => n == i && i < count,
                    None => i >= count,
                }
            }),
    {
        let ghost tables = tables_at(self@.levels, level);
        let mut i: usize = 0;
        while i < count
            invariant
                self.wf(),
                tables == tables_at(self@.levels, level),
                count == tables.len(),
                i <= count,
                first_covering(tables, key@, 0) == first_covering(tables, key@, i as int),
            decreases count - i,
        {
            let meta = self.sstables.meta(level, i);
            if !less(key, meta.min_key.as_slice()) && !less(meta.max_key.as_slice(), key) {
                return Some(i);
            }
            i = i + 1;
        }
        None
    }
}

/// Law: what is seen of several memtables is each of them, in their order.
pub proof fn law_memtables_are_seen_one_by_one(tables: Seq<MemTable>)
    ensures
        memtable_views(tables).len() == tables.len(),
        forall|i: int| 0 <= i < tables.len() ==> #[trigger] memtable_views(tables)[i] == tables[i]@,
{
}

} // verus!
