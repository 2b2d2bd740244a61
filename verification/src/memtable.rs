//! The table in memory that takes all writes.
use crate::clock::current_timestamp;
use crate::error::{ErrorView, Result, StorageError};
use crate::order::{key_at_most, key_less, law_key_less_total, law_key_less_transitive};
use crate::sorted::{entries_from, entries_in, has_key, keyed, law_sorted_entries_are_determined, lemma_table_entry, lemma_table_insert, lemma_table_update, sorted, table, total_bytes, EntryTable};
use crate::{entry_views, Entry, EntryView, Key, SequenceNumber, Timestamp, Value};
use vstd::prelude::*;

verus! {

/// Figures about a memtable.
#[derive(Debug, Clone, Copy, PartialEq, Eq, Structural)]
pub struct MemtableStats {
    pub entry_count: usize,
    pub approximate_size: usize,
    pub min_key_size: usize,
    pub max_key_size: usize,
    pub min_value_size: usize,
    pub max_value_size: usize,
    pub creation_time: Timestamp,
    pub is_immutable: bool,
}

/// A table in memory, in the order of its keys.
#[derive(Debug)]
pub struct MemTable {
    data: EntryTable,
    size: usize,
    count: usize,
    created_at: Timestamp,
    sequence_counter: SequenceNumber,
    max_size: usize,
    immutable: bool,
}

/// A [`MemTable`], with its entries in the order of their keys.
#[verifier::ext_equal]
pub struct MemTableView {
    pub entries: Seq<EntryView>,
    pub size: usize,
    pub created_at: Timestamp,
    pub sequence: SequenceNumber,
    pub max_size: usize,
    pub immutable: bool,
}

/// The largest size of an entry.
pub open spec fn entry_size_limit() -> int {
    if usize::MAX <= i64::MAX {
        usize::MAX as int
    } else {
        i64::MAX as int
    }
}

/// The size of a table after `e` took the place of `previous`: that of `e` comes, that of
/// `previous` goes.
pub open spec fn size_after(size: usize, previous: Option<EntryView>, e: EntryView) -> usize {
    match previous {
        Some(p) => size.wrapping_sub(p.size() as usize).wrapping_add(e.size() as usize),
        None => size.wrapping_add(e.size() as usize),
    }
}

impl MemTableView {
    pub open spec fn wf(self) -> bool {
        &&& sorted(self.entries)
        &&& self.entries.len() <= usize::MAX
        &&& forall|i: int|
            0 <= i < self.entries.len() ==> (#[trigger] self.entries[i]).size()
                <= entry_size_limit()
    }

    /// The entry for `key`.
    pub open spec fn lookup(self, key: Seq<u8>) -> Option<EntryView> {
        if table(self.entries).contains_key(key) {
            Some(table(self.entries)[key])
        } else {
            None
        }
    }

    /// Whether `after` is this table after `e` was put in.
    pub open spec fn recorded(self, after: MemTableView, e: EntryView) -> bool {
        &&& after.wf()
        &&& table(after.entries) == table(self.entries).insert(e.key, e)
        &&& after.entries.len() == self.entries.len() + (if self.lookup(e.key) is Some {
            0nat
        } else {
            1nat
        })
        &&& after.size == size_after(self.size, self.lookup(e.key), e)
        &&& after.sequence == self.sequence.wrapping_add(1)
        &&& after.created_at == self.created_at
        &&& after.max_size == self.max_size
        &&& after.immutable == self.immutable
    }

    /// An empty table.
    pub open spec fn empty(
        max_size: usize,
        sequence: SequenceNumber,
        created_at: Timestamp,
    ) -> MemTableView {
        MemTableView {
            entries: Seq::empty(),
            size: 0,
            created_at,
            sequence,
            max_size,
            immutable: false,
        }
    }
}

/// The lengths of the keys.
pub open spec fn key_sizes(s: Seq<EntryView>) -> Seq<nat> {
    s.map_values(|e: EntryView| e.key.len())
}

/// The lengths of the values, zero where there is none.
pub open spec fn value_sizes(s: Seq<EntryView>) -> Seq<nat> {
    s.map_values(
        |e: EntryView|
            match e.value {
                Some(v) => v.len(),
                None => 0nat,
            },
    )
}

/// The smallest of some numbers, zero where there is none.
pub open spec fn smallest(s: Seq<nat>) -> nat
    decreases s.len(),
{
    if s.len() == 0 {
        0
    } else if s.len() == 1 {
        s[0]
    } else {
        let m = smallest(s.drop_last());
        if s.last() < m {
            s.last()
        } else {
            m
        }
    }
}

/// The largest of some numbers, zero where there is none.
pub open spec fn largest(s: Seq<nat>) -> nat
    decreases s.len(),
{
    if s.len() == 0 {
        0
    } else {
        let m = largest(s.drop_last());
        if s.last() > m {
            s.last()
        } else {
            m
        }
    }
}

impl View for MemTable {
    type V = MemTableView;

    closed spec fn view(&self) -> MemTableView {
        MemTableView {
            entries: self.data.seq(),
            size: self.size,
            created_at: self.created_at,
            sequence: self.sequence_counter,
            max_size: self.max_size,
            immutable: self.immutable,
        }
    }
}

/// The entries of a memtable as they were when the iterator was made.
pub struct MemTableIterator {
    entries: Vec<(Key, Entry)>,
    position: usize,
}

/// Each entry behind its key.
pub open spec fn with_keys(s: Seq<EntryView>) -> Seq<(Seq<u8>, EntryView)> {
    s.map_values(|e: EntryView| (e.key, e))
}

impl MemTableIterator {
    pub closed spec fn wf(self) -> bool {
        self.position <= self.entries@.len()
    }

    /// The entries that have not been handed out, each behind its key.
    pub closed spec fn remaining(self) -> Seq<(Seq<u8>, EntryView)> {
        self.entries@.skip(self.position as int).map_values(|p: (Key, Entry)| (p.0@, p.1@))
    }

    /// The next entry, behind its key.
    pub fn next(&mut self) -> (r: Option<(Key, Entry)>)
        requires
            old(self).wf(),
        ensures
            final(self).wf(),
            match r {
                Some(pair) => {
                    &&& old(self).remaining().len() > 0
                    &&& (pair.0@, pair.1@) == old(self).remaining()[0]
                    &&& final(self).remaining() == old(self).remaining().drop_first()
                },
                None => old(self).remaining().len() == 0 && final(self).remaining() == old(self).remaining(),
            },
    {
        if self.position < self.entries.len() {
            let pair = &self.entries[self.position];
            let key = crate::copy_bytes(pair.0.as_slice());
            let entry = pair.1.clone();
            self.position = self.position + 1;
            assert(old(self).remaining().drop_first() =~= self.remaining());
            Some((key, entry))
        } else {
            None
        }
    }
}

impl MemTable {
    /// The number of entries is that which was counted.
    pub closed spec fn counted(self) -> bool {
        self.count == self.data.seq().len()
    }

    pub open spec fn wf(self) -> bool {
        self@.wf() && self.counted()
    }

    /// An empty table that is full at `max_size`.
    pub fn new(max_size: usize) -> (r: Self)
        ensures
            r.wf(),
            exists|now: Timestamp| r@ == #[trigger] MemTableView::empty(max_size, 0, now),
    {
        let now: Timestamp = current_timestamp();
        Self::with_sequence_at(max_size, 0, now)
    }

    /// An empty table whose first entry gets the number `start_sequence`.
    pub fn with_sequence(max_size: usize, start_sequence: SequenceNumber) -> (r: Self)
        ensures
            r.wf(),
            exists|now: Timestamp|
                r@ == #[trigger] MemTableView::empty(max_size, start_sequence, now),
    {
        let now: Timestamp = current_timestamp();
        Self::with_sequence_at(max_size, start_sequence, now)
    }

    /// An empty table that was made at a given time.
    pub fn with_sequence_at(
        max_size: usize,
        start_sequence: SequenceNumber,
        created_at: Timestamp,
    ) -> (r: Self)
        ensures
            r.wf(),
            r@ == MemTableView::empty(max_size, start_sequence, created_at),
    {
        let r = Self {
            data: EntryTable::new(),
            size: 0,
            count: 0,
            created_at,
            sequence_counter: start_sequence,
            max_size,
            immutable: false,
        };
        assert(r@ =~= MemTableView::empty(max_size, start_sequence, created_at));
        r
    }

    fn next_sequence(&mut self) -> (r: SequenceNumber)
        ensures
            r == old(self)@.sequence,
            final(self)@ == (MemTableView {
                sequence: old(self)@.sequence.wrapping_add(1),
                ..old(self)@
            }),
            final(self).data == old(self).data,
            final(self).counted() == old(self).counted(),
    {
        let r: SequenceNumber = self.sequence_counter;
        self.sequence_counter = r.wrapping_add(1);
        r
    }

    /// Puts a value in for a key, with the present time.
    pub fn put(&mut self, key: Key, value: Value) -> (r: Result<()>)
        requires
            old(self).wf(),
            key@.len() + value@.len() + 16 <= entry_size_limit(),
        ensures
            final(self).wf(),
            match r {
                Ok(_) => !old(self)@.immutable && exists|now: Timestamp|
                    old(self)@.recorded(
                        final(self)@,
                        #[trigger] entry_of(key@, Some(value@), now, old(self)@.sequence),
                    ),
                Err(e) => old(self)@.immutable && e@ == ErrorView::ReadOnly && final(self)@
                    == old(self)@,
            },
    {
        let now: Timestamp = current_timestamp();
        self.record(key, Some(value), now)
    }

    /// Marks a key as deleted, with the present time.
    pub fn delete(&mut self, key: Key) -> (r: Result<()>)
        requires
            old(self).wf(),
            key@.len() + 16 <= entry_size_limit(),
        ensures
            final(self).wf(),
            match r {
                Ok(_) => !old(self)@.immutable && exists|now: Timestamp|
                    old(self)@.recorded(
                        final(self)@,
                        #[trigger] entry_of(key@, None, now, old(self)@.sequence),
                    ),
                Err(e) => old(self)@.immutable && e@ == ErrorView::ReadOnly && final(self)@
                    == old(self)@,
            },
    {
        let now: Timestamp = current_timestamp();
        self.record(key, None, now)
    }

    /// Puts a value, or the mark of a deletion, in for a key at a given time.
    pub fn record(&mut self, key: Key, value: Option<Value>, timestamp: Timestamp) -> (r: Result<
        (),
    >)
        requires
            old(self).wf(),
            entry_of(key@, crate::value_view(value), timestamp, 0).size() <= entry_size_limit(),
        ensures
            final(self).wf(),
            match r {
                Ok(_) => !old(self)@.immutable && old(self)@.recorded(
                    final(self)@,
                    entry_of(key@, crate::value_view(value), timestamp, old(self)@.sequence),
                ),
                Err(e) => old(self)@.immutable && e@ == ErrorView::ReadOnly && final(self)@
                    == old(self)@,
            },
    {
        if self.immutable {
            return Err(StorageError::ReadOnly);
        }
        let sequence: SequenceNumber = self.next_sequence();
        let entry = Entry::new(key, value, timestamp, sequence);
        let entry_size: usize = entry.size();
        let (is_new, leaves): (bool, usize) = match self.data.get(entry.key.as_slice()) {
            Some(previous) => {
                proof {
                    let i = choose|i: int|
                        0 <= i < self@.entries.len() && #[trigger] self@.entries[i].key
                            == entry@.key;
                    assert(self@.entries[i].size() <= entry_size_limit());
                }
                (false, previous.size())
            },
            None => (true, 0),
        };
        let ghost added = entry@;
        self.data.insert(entry);
        if is_new {
            self.count = self.count + 1;
        }
        self.size = self.size.wrapping_sub(leaves).wrapping_add(entry_size);
        proof {
            assert forall|k: int| 0 <= k < self@.entries.len() implies (#[trigger] self@.entries[k]).size()
                <= entry_size_limit() by {
                if self@.entries[k] != added {
                    let j = choose|j: int|
                        0 <= j < old(self)@.entries.len() && old(self)@.entries[j]
                            == self@.entries[k];
                    assert(old(self)@.entries[j].size() <= entry_size_limit());
                }
            }
        }
        Ok(())
    }

    /// The entry for `key`.
    pub fn get(&self, key: &[u8]) -> (r: Option<Entry>)
        requires
            self.wf(),
        ensures
            match r {
                Some(e) => self@.lookup(key@) == Some(e@),
                None => self@.lookup(key@) is None,
            },
    {
        match self.data.get(key) {
            Some(e) => Some(e.clone()),
            None => None,
        }
    }

    /// Whether there is an entry for `key`.
    pub fn contains_key(&self, key: &[u8]) -> (r: bool)
        requires
            self.wf(),
        ensures
            r == (self@.lookup(key@) is Some),
    {
        self.data.get(key).is_some()
    }

    /// The approximate size in bytes.
    pub fn size(&self) -> (r: usize)
        ensures
            r == self@.size,
    {
        self.size
    }

    /// The number of entries.
    pub fn count(&self) -> (r: usize)
        requires
            self.wf(),
        ensures
            r == self@.entries.len(),
    {
        self.count
    }

    /// Whether the table is full.
    pub fn should_flush(&self) -> (r: bool)
        ensures
            r == (self@.size >= self@.max_size),
    {
        self.size >= self.max_size
    }

    /// When the table was made.
    pub fn created_at(&self) -> (r: Timestamp)
        ensures
            r == self@.created_at,
    {
        self.created_at
    }

    /// Lets the table take no more writes.
    pub fn make_immutable(&mut self)
        ensures
            final(self)@ == (MemTableView { immutable: true, ..old(self)@ }),
            final(self).counted() == old(self).counted(),
    {
        self.immutable = true;
    }

    /// Whether the table takes no more writes.
    pub fn is_immutable(&self) -> (r: bool)
        ensures
            r == self@.immutable,
    {
        self.immutable
    }

    /// The number that the next entry gets.
    pub fn current_sequence(&self) -> (r: SequenceNumber)
        ensures
            r == self@.sequence,
    {
        self.sequence_counter
    }

    /// An iterator over all entries, in the order of their keys.
    pub fn iter(&self) -> (r: MemTableIterator)
        requires
            self.wf(),
        ensures
            r.wf(),
            r.remaining() == with_keys(self@.entries),
    {
        let r = MemTableIterator { entries: self.entries(), position: 0 };
        assert(r.remaining() =~= with_keys(self@.entries));
        r
    }

    /// The entries from `start` up to, not including, `end`.
    pub fn range_iter(&self, start: &[u8], end: &[u8]) -> (r: Vec<(Key, Entry)>)
        requires
            self.wf(),
            key_at_most(start@, end@),
        ensures
            keyed(r@, entries_in(self@.entries, start@, end@)),
    {
        let (lo, hi): (usize, usize) = self.data.range(start, end);
        self.data.copy_range(lo, hi)
    }

    /// The entries from `start_key` on.
    pub fn scan_from(&self, start_key: &[u8]) -> (r: Vec<(Key, Entry)>)
        requires
            self.wf(),
        ensures
            keyed(r@, entries_from(self@.entries, start_key@)),
    {
        let lo: usize = self.data.range_from(start_key);
        let hi: usize = self.data.len();
        assert(self.data.seq().subrange(lo as int, hi as int) =~= self.data.seq().skip(lo as int));
        self.data.copy_range(lo, hi)
    }

    /// All entries.
    pub fn entries(&self) -> (r: Vec<(Key, Entry)>)
        requires
            self.wf(),
        ensures
            keyed(r@, self@.entries),
    {
        let len: usize = self.data.len();
        assert(self.data.seq().subrange(0, len as int) =~= self.data.seq());
        self.data.copy_range(0, len)
    }

    /// Figures about the table.
    pub fn memory_usage(&self) -> (r: MemtableStats)
        requires
            self.wf(),
        ensures
            r.entry_count == self@.entries.len(),
            r.approximate_size == self@.size,
            r.min_key_size == smallest(key_sizes(self@.entries)),
            r.max_key_size == largest(key_sizes(self@.entries)),
            r.min_value_size == smallest(value_sizes(self@.entries)),
            r.max_value_size == largest(value_sizes(self@.entries)),
            r.creation_time == self@.created_at,
            r.is_immutable == self@.immutable,
    {
        let entries = self.data.entries();
        let ghost s = self@.entries;
        let ghost keys = key_sizes(s);
        let ghost values = value_sizes(s);
        let mut min_key_size: usize = 0;
        let mut max_key_size: usize = 0;
        let mut min_value_size: usize = 0;
        let mut max_value_size: usize = 0;
        let mut i: usize = 0;
        while i < entries.len()
            invariant
                i <= entries@.len(),
                entry_views(entries@) == s,
                keys == key_sizes(s),
                values == value_sizes(s),
                min_key_size == smallest(keys.take(i as int)),
                max_key_size == largest(keys.take(i as int)),
                min_value_size == smallest(values.take(i as int)),
                max_value_size == largest(values.take(i as int)),
            decreases entries@.len() - i,
        {
            let entry = &entries[i];
            let key_size: usize = entry.key.len();
            let value_size: usize = match &entry.value {
                Some(v) => v.len(),
                None => 0,
            };
            proof {
                assert(entry@ == s[i as int]);
                assert(keys.take(i + 1).drop_last() =~= keys.take(i as int));
                assert(values.take(i + 1).drop_last() =~= values.take(i as int));
                assert(keys.take(i + 1).last() == key_size);
                assert(values.take(i + 1).last() == value_size);
            }
            if i == 0 || key_size < min_key_size {
                min_key_size = key_size;
            }
            if key_size > max_key_size {
                max_key_size = key_size;
            }
            if i == 0 || value_size < min_value_size {
                min_value_size = value_size;
            }
            if value_size > max_value_size {
                max_value_size = value_size;
            }
            i = i + 1;
        }
        assert(keys.take(i as int) =~= keys);
        assert(values.take(i as int) =~= values);
        MemtableStats {
            entry_count: self.data.len(),
            approximate_size: self.size,
            min_key_size,
            max_key_size,
            min_value_size,
            max_value_size,
            creation_time: self.created_at,
            is_immutable: self.immutable,
        }
    }
}

impl Clone for MemTable {
    fn clone(&self) -> (r: Self)
        ensures
            r@ == self@,
            r.counted() == self.counted(),
    {
        Self {
            data: self.data.clone(),
            size: self.size,
            count: self.count,
            created_at: self.created_at,
            sequence_counter: self.sequence_counter,
            max_size: self.max_size,
            immutable: self.immutable,
        }
    }
}

/// Law: what was put for a key is what is found for it, and nothing else changes.
pub proof fn law_recorded_is_found(
    before: MemTableView,
    after: MemTableView,
    e: EntryView,
    key: Seq<u8>,
)
    requires
        before.recorded(after, e),
    ensures
        after.lookup(e.key) == Some(e),
        key != e.key ==> after.lookup(key) == before.lookup(key),
{
}

/// Law: the order of writes is that of their sequence numbers: a later write has a higher number
/// than any entry of the table, as long as the numbers do not run out.
pub proof fn law_later_writes_have_higher_numbers(
    before: MemTableView,
    after: MemTableView,
    e: EntryView,
)
    requires
        before.recorded(after, e),
        before.wf(),
        e.sequence == before.sequence,
        before.sequence < u64::MAX,
        forall|i: int|
            0 <= i < before.entries.len() ==> (#[trigger] before.entries[i]).sequence
                < before.sequence,
    ensures
        forall|i: int|
            0 <= i < after.entries.len() ==> (#[trigger] after.entries[i]).sequence
                < after.sequence,
{
    assert forall|i: int| 0 <= i < after.entries.len() implies (#[trigger] after.entries[i]).sequence
        < after.sequence by {
        let key = after.entries[i].key;
        lemma_table_entry(after.entries, i);
        if key != e.key {
            assert(table(before.entries).contains_key(key));
            let j = choose|j: int|
                0 <= j < before.entries.len() && #[trigger] before.entries[j].key == key;
            lemma_table_entry(before.entries, j);
            assert(before.entries[j].sequence < before.sequence);
        }
    }
}

/// Law: the size of a table is that of its entries: a write keeps it so, whether it makes an entry
/// larger or smaller, as long as the size can be held.
pub proof fn law_size_is_that_of_entries(before: MemTableView, after: MemTableView, e: EntryView)
    requires
        before.wf(),
        before.recorded(after, e),
        before.size == total_bytes(before.entries),
        total_bytes(after.entries) <= usize::MAX,
    ensures
        after.size == total_bytes(after.entries),
{
    let s = before.entries;
    let key = e.key;
    assert(has_key(after.entries, key)) by {
        assert(table(after.entries).contains_key(key));
    }
    let at = choose|at: int| 0 <= at < after.entries.len() && #[trigger] after.entries[at].key == key;
    lemma_table_entry(after.entries, at);
    if has_key(s, key) {
        let i = choose|i: int| 0 <= i < s.len() && #[trigger] s[i].key == key;
        lemma_table_entry(s, i);
        lemma_table_update(s, i, e);
        law_sorted_entries_are_determined(after.entries, s.update(i, e));
        lemma_total_update(s, i, e);
    } else {
        let i = lemma_place_for(s, key);
        lemma_table_insert(s, i, e);
        law_sorted_entries_are_determined(after.entries, s.insert(i, e));
        lemma_total_insert(s, i, e);
    }
}

/// A key that no entry has stands between two of them.
proof fn lemma_place_for(s: Seq<EntryView>, key: Seq<u8>) -> (i: int)
    requires
        sorted(s),
        !has_key(s, key),
    ensures
        0 <= i <= s.len(),
        forall|k: int| 0 <= k < i ==> key_less(#[trigger] s[k].key, key),
        forall|k: int| i <= k < s.len() ==> key_less(key, #[trigger] s[k].key),
    decreases s.len(),
{
    if s.len() == 0 {
        0
    } else {
        let n = s.len() - 1;
        let t = s.drop_last();
        assert(s[n].key != key);
        law_key_less_total(s[n].key, key);
        if key_less(s[n].key, key) {
            assert forall|k: int| 0 <= k < s.len() implies key_less(#[trigger] s[k].key, key) by {
                if k < n {
                    law_key_less_transitive(s[k].key, s[n].key, key);
                }
            }
            s.len() as int
        } else {
            assert forall|k: int| 0 <= k < t.len() implies #[trigger] t[k].key != key by {
                assert(s[k].key != key);
            }
            assert(sorted(t)) by {
                assert forall|a: int, b: int| 0 <= a < b < t.len() implies key_less(
                    #[trigger] t[a].key,
                    #[trigger] t[b].key,
                ) by {
                    assert(key_less(s[a].key, s[b].key));
                }
            }
            let i = lemma_place_for(t, key);
            assert forall|k: int| 0 <= k < i implies key_less(#[trigger] s[k].key, key) by {
                assert(t[k] == s[k]);
            }
            assert forall|k: int| i <= k < s.len() implies key_less(key, #[trigger] s[k].key) by {
                if k < n {
                    assert(t[k] == s[k]);
                }
            }
            i
        }
    }
}

proof fn lemma_total_update(s: Seq<EntryView>, i: int, e: EntryView)
    requires
        0 <= i < s.len(),
    ensures
        total_bytes(s.update(i, e)) == total_bytes(s) - s[i].size() + e.size(),
        total_bytes(s) >= s[i].size(),
    decreases s.len(),
{
    let t = s.drop_last();
    if i == s.len() - 1 {
        assert(s.update(i, e).drop_last() =~= t);
    } else {
        lemma_total_update(t, i, e);
        assert(s.update(i, e).drop_last() =~= t.update(i, e));
        assert(s.update(i, e).last() == s.last());
    }
}

proof fn lemma_total_insert(s: Seq<EntryView>, i: int, e: EntryView)
    requires
        0 <= i <= s.len(),
    ensures
        total_bytes(s.insert(i, e)) == total_bytes(s) + e.size(),
    decreases s.len(),
{
    if i == s.len() {
        assert(s.insert(i, e).drop_last() =~= s);
        assert(s.insert(i, e).last() == e);
    } else {
        lemma_total_insert(s.drop_last(), i, e);
        assert(s.insert(i, e).drop_last() =~= s.drop_last().insert(i, e));
        assert(s.insert(i, e).last() == s.last());
    }
}

/// An entry of these parts.
pub open spec fn entry_of(
    key: Seq<u8>,
    value: Option<Seq<u8>>,
    timestamp: Timestamp,
    sequence: SequenceNumber,
) -> EntryView {
    EntryView { key, value, timestamp, sequence }
}

/// Law: an entry has the key, the value, the time and the number that it is made of, all of them.
pub proof fn law_entry_has_its_parts(
    key: Seq<u8>,
    value: Option<Seq<u8>>,
    timestamp: Timestamp,
    sequence: SequenceNumber,
)
    ensures
        entry_of(key, value, timestamp, sequence).key == key,
        entry_of(key, value, timestamp, sequence).value == value,
        entry_of(key, value, timestamp, sequence).timestamp == timestamp,
        entry_of(key, value, timestamp, sequence).sequence == sequence,
{
}

/// Law: a search in a table finds an entry exactly where the table has one of that key, and finds
/// that one.
pub proof fn law_lookup_finds_entries(m: MemTableView, key: Seq<u8>)
    requires
        m.wf(),
    ensures
        m.lookup(key) is None <==> forall|i: int|
            0 <= i < m.entries.len() ==> (#[trigger] m.entries[i]).key != key,
        forall|i: int|
            0 <= i < m.entries.len() && (#[trigger] m.entries[i]).key == key ==> m.lookup(key)
                == Some(m.entries[i]),
{
    crate::sorted::law_table_holds_entries(m.entries, key);
    if m.lookup(key) is None {
        assert forall|i: int| 0 <= i < m.entries.len() implies (#[trigger] m.entries[i]).key
            != key by {}
    }
}

/// Law: a write changes the entry of its key alone: the table has that entry now, and for all other
/// keys what it had. The next number is one higher, and how large the table may become, when it was
/// made and whether it takes writes stay as they were.
pub proof fn law_write_changes_one_entry(before: MemTableView, after: MemTableView, e: EntryView)
    requires
        before.wf(),
        before.recorded(after, e),
    ensures
        exists|i: int| 0 <= i < after.entries.len() && #[trigger] after.entries[i] == e,
        forall|i: int|
            0 <= i < after.entries.len() ==> #[trigger] after.entries[i] == e
                || before.entries.contains(after.entries[i]),
        forall|i: int|
            0 <= i < before.entries.len() && (#[trigger] before.entries[i]).key != e.key
                ==> after.entries.contains(before.entries[i]),
        before.sequence < u64::MAX ==> after.sequence == before.sequence + 1,
        after.max_size == before.max_size,
        after.created_at == before.created_at,
        after.immutable == before.immutable,
{
    assert(table(after.entries).contains_key(e.key));
    let at = choose|at: int|
        0 <= at < after.entries.len() && #[trigger] after.entries[at].key == e.key;
    lemma_table_entry(after.entries, at);
    assert forall|i: int| 0 <= i < after.entries.len() implies #[trigger] after.entries[i] == e
        || before.entries.contains(after.entries[i]) by {
        let x = after.entries[i];
        lemma_table_entry(after.entries, i);
        if x.key != e.key {
            assert(table(before.entries).contains_key(x.key));
            let j = choose|j: int|
                0 <= j < before.entries.len() && #[trigger] before.entries[j].key == x.key;
            lemma_table_entry(before.entries, j);
            assert(before.entries[j] == x);
        }
    }
    assert forall|i: int|
        0 <= i < before.entries.len() && (#[trigger] before.entries[i]).key
            != e.key implies after.entries.contains(before.entries[i]) by {
        let x = before.entries[i];
        lemma_table_entry(before.entries, i);
        assert(table(after.entries).contains_key(x.key));
        let j = choose|j: int|
            0 <= j < after.entries.len() && #[trigger] after.entries[j].key == x.key;
        lemma_table_entry(after.entries, j);
        assert(after.entries[j] == x);
    }
}

/// Law: a table to which nothing was written has no entries and no size, takes writes, and is full
/// at the size that it was given.
pub proof fn law_new_table_is_empty(max_size: usize, sequence: SequenceNumber, created_at: Timestamp)
    ensures
        ({
            let m = MemTableView::empty(max_size, sequence, created_at);
            &&& m.entries.len() == 0
            &&& m.size == 0
            &&& !m.immutable
            &&& m.max_size == max_size
            &&& m.sequence == sequence
            &&& m.created_at == created_at
            &&& m.wf()
        }),
{
}

/// Law: the smallest of some numbers is one of them that is not above any, the largest one that is
/// not below any; both are zero where there is none.
pub proof fn law_smallest_and_largest_bound(s: Seq<nat>)
    ensures
        s.len() > 0 ==> s.contains(smallest(s)) && s.contains(largest(s)),
        forall|i: int| 0 <= i < s.len() ==> smallest(s) <= #[trigger] s[i] <= largest(s),
        s.len() == 0 ==> smallest(s) == 0 && largest(s) == 0,
    decreases s.len(),
{
    if s.len() > 0 {
        let t = s.drop_last();
        let n = s.len() - 1;
        law_smallest_and_largest_bound(t);
        assert(s[n] == s.last());
        assert forall|i: int| 0 <= i < s.len() implies smallest(s) <= #[trigger] s[i]
            <= largest(s) by {
            if i < n {
                assert(t[i] == s[i]);
            }
        }
        if s.len() > 1 {
            let a = choose|a: int| 0 <= a < t.len() && t[a] == smallest(t);
            let b = choose|b: int| 0 <= b < t.len() && t[b] == largest(t);
            assert(s[a] == smallest(t) && s[b] == largest(t));
        } else {
            assert(largest(t) == 0);
        }
        assert(s.contains(s[n]));
        assert(s.contains(smallest(s)));
        assert(s.contains(largest(s)));
    }
}

/// Law: the sizes that a table counts are the lengths of its keys and its values; a deletion counts
/// as a value of no length.
pub proof fn law_sizes_are_lengths(s: Seq<EntryView>)
    ensures
        key_sizes(s).len() == s.len(),
        value_sizes(s).len() == s.len(),
        forall|i: int| 0 <= i < s.len() ==> #[trigger] key_sizes(s)[i] == s[i].key.len(),
        forall|i: int|
            0 <= i < s.len() ==> #[trigger] value_sizes(s)[i] == (match s[i].value {
                Some(v) => v.len(),
                None => 0nat,
            }),
{
}

/// Law: a walk through a table hands out each entry behind its key.
pub proof fn law_entries_stand_behind_their_keys(s: Seq<EntryView>)
    ensures
        with_keys(s).len() == s.len(),
        forall|i: int|
            0 <= i < s.len() ==> (#[trigger] with_keys(s)[i]).0 == s[i].key && with_keys(s)[i].1
                == s[i],
{
}

/// Law: an entry may have every size that a signed number of 64 bits and a number of the machine can
/// hold.
pub proof fn law_entries_may_be_large()
    ensures
        entry_size_limit() <= usize::MAX,
        entry_size_limit() <= i64::MAX,
        entry_size_limit() == usize::MAX || entry_size_limit() == i64::MAX,
{
}

} // verus!
