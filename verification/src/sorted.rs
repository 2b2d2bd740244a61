//! Entries in the order of their keys, one for each key.
use crate::order::{key_at_most, key_in_range, key_less, law_key_less_irreflexive, law_key_less_total, law_key_less_transitive, less, same_bytes};
use crate::{entry_views, Entry, EntryView, Key};
use vstd::prelude::*;

verus! {

/// Every key comes before those of all later entries.
pub open spec fn sorted(s: Seq<EntryView>) -> bool {
    forall|i: int, j: int|
        0 <= i < j < s.len() ==> key_less(#[trigger] s[i].key, #[trigger] s[j].key)
}

/// The bytes of some entries together.
pub open spec fn total_bytes(s: Seq<EntryView>) -> nat
    decreases s.len(),
{
    if s.len() == 0 {
        0
    } else {
        total_bytes(s.drop_last()) + s.last().size()
    }
}

/// Whether some entry has this key.
pub open spec fn has_key(s: Seq<EntryView>, key: Seq<u8>) -> bool {
    exists|i: int| 0 <= i < s.len() && #[trigger] s[i].key == key
}

/// The entries by their keys.
pub open spec fn table(s: Seq<EntryView>) -> Map<Seq<u8>, EntryView> {
    Map::new(
        |key: Seq<u8>| has_key(s, key),
        |key: Seq<u8>| s[choose|i: int| 0 <= i < s.len() && #[trigger] s[i].key == key],
    )
}

/// The entries whose keys lie in the range from `start` up to, not including, `end`.
pub open spec fn entries_in(s: Seq<EntryView>, start: Seq<u8>, end: Seq<u8>) -> Seq<EntryView>
    decreases s.len(),
{
    if s.len() == 0 {
        Seq::empty()
    } else if key_in_range(s.last().key, start, end) {
        entries_in(s.drop_last(), start, end).push(s.last())
    } else {
        entries_in(s.drop_last(), start, end)
    }
}

/// The entries whose keys do not come before `start`.
pub open spec fn entries_from(s: Seq<EntryView>, start: Seq<u8>) -> Seq<EntryView>
    decreases s.len(),
{
    if s.len() == 0 {
        Seq::empty()
    } else if key_at_most(start, s.last().key) {
        entries_from(s.drop_last(), start).push(s.last())
    } else {
        entries_from(s.drop_last(), start)
    }
}

/// Whether `pairs` are the entries of `s`, each behind its key.
pub open spec fn keyed(pairs: Seq<(Key, Entry)>, s: Seq<EntryView>) -> bool {
    &&& pairs.len() == s.len()
    &&& forall|i: int|
        0 <= i < s.len() ==> (#[trigger] pairs[i]).0@ == s[i].key && pairs[i].1@ == s[i]
}

/// `m` with `e`, unless `m` has an entry of the same key whose sequence number is as high.
pub open spec fn absorb(m: Map<Seq<u8>, EntryView>, e: EntryView) -> Map<Seq<u8>, EntryView> {
    if m.contains_key(e.key) && e.sequence <= m[e.key].sequence {
        m
    } else {
        m.insert(e.key, e)
    }
}

/// `m` after it has absorbed the entries of `s` one by one.
pub open spec fn absorb_all(
    m: Map<Seq<u8>, EntryView>,
    s: Seq<EntryView>,
) -> Map<Seq<u8>, EntryView>
    decreases s.len(),
{
    if s.len() == 0 {
        m
    } else {
        absorb(absorb_all(m, s.drop_last()), s.last())
    }
}

/// Whether the entry at `i` is the one to keep for its key: no other entry of that key has a
/// higher sequence number, and no earlier one has as high a number.
pub open spec fn newest_at(s: Seq<EntryView>, i: int) -> bool {
    &&& 0 <= i < s.len()
    &&& forall|j: int|
        0 <= j < s.len() && #[trigger] s[j].key == s[i].key ==> if j < i {
            s[j].sequence < s[i].sequence
        } else {
            s[j].sequence <= s[i].sequence
        }
}

/// Law: entries absorbed one by one leave the newest of each key, the first where several are as
/// new.
pub proof fn law_newest_entry_stays(s: Seq<EntryView>, key: Seq<u8>)
    ensures
        ({
            let m = absorb_all(Map::empty(), s);
            &&& m.contains_key(key) <==> has_key(s, key)
            &&& forall|i: int| newest_at(s, i) && #[trigger] s[i].key == key ==> m[key] == s[i]
            &&& has_key(s, key) ==> exists|i: int| newest_at(s, i) && #[trigger] s[i].key == key
        }),
{
    let k = lemma_newest_index(s, key);
    assert forall|i: int| newest_at(s, i) && #[trigger] s[i].key == key implies i == k by {
        assert(has_key(s, key));
        assert(s[k].key == s[i].key);
    }
    if has_key(s, key) {
        assert(newest_at(s, k) && s[k].key == key);
    }
}

/// Where the newest entry of `key` stands.
proof fn lemma_newest_index(s: Seq<EntryView>, key: Seq<u8>) -> (k: int)
    ensures
        absorb_all(Map::empty(), s).contains_key(key) <==> has_key(s, key),
        has_key(s, key) ==> newest_at(s, k) && s[k].key == key && absorb_all(
            Map::empty(),
            s,
        )[key] == s[k],
    decreases s.len(),
{
    if s.len() == 0 {
        0
    } else {
        let t = s.drop_last();
        let n = s.len() - 1;
        let k = lemma_newest_index(t, key);
        assert(s =~= t.push(s[n]));
        lemma_has_key_push(t, s[n], key);
        if s[n].key != key {
            if has_key(t, key) {
                lemma_newest_push(t, s[n], k);
            }
            k
        } else if has_key(t, key) && s[n].sequence <= t[k].sequence {
            lemma_newest_push(t, s[n], k);
            k
        } else {
            assert forall|j: int| 0 <= j < n && #[trigger] s[j].key == key implies s[j].sequence
                < s[n].sequence by {
                assert(t[j].key == key);
                assert(t[j].key == t[k].key);
            }
            n
        }
    }
}

proof fn lemma_has_key_push(t: Seq<EntryView>, e: EntryView, key: Seq<u8>)
    ensures
        has_key(t.push(e), key) <==> (e.key == key || has_key(t, key)),
{
    let s = t.push(e);
    assert(s[t.len() as int] == e);
    if has_key(t, key) {
        let i = choose|i: int| 0 <= i < t.len() && #[trigger] t[i].key == key;
        assert(s[i].key == key);
    }
    if has_key(s, key) && e.key != key {
        let i = choose|i: int| 0 <= i < s.len() && #[trigger] s[i].key == key;
        assert(t[i].key == key);
    }
}

proof fn lemma_newest_push(t: Seq<EntryView>, e: EntryView, k: int)
    requires
        newest_at(t, k),
        e.key == t[k].key ==> e.sequence <= t[k].sequence,
    ensures
        newest_at(t.push(e), k),
{
    let s = t.push(e);
    assert forall|j: int| 0 <= j < s.len() && #[trigger] s[j].key == s[k].key implies if j < k {
        s[j].sequence < s[k].sequence
    } else {
        s[j].sequence <= s[k].sequence
    } by {
        if j < t.len() {
            assert(t[j].key == t[k].key);
        }
    }
}

/// Entries absorbed in two parts are absorbed one by one.
pub proof fn lemma_absorb_concat(
    m: Map<Seq<u8>, EntryView>,
    a: Seq<EntryView>,
    b: Seq<EntryView>,
)
    ensures
        absorb_all(m, a + b) == absorb_all(absorb_all(m, a), b),
    decreases b.len(),
{
    if b.len() == 0 {
        assert(a + b =~= a);
    } else {
        lemma_absorb_concat(m, a, b.drop_last());
        assert((a + b).drop_last() =~= a + b.drop_last());
    }
}

/// Law: entries in the order of their keys are determined by what they hold for each key.
pub proof fn law_sorted_entries_are_determined(a: Seq<EntryView>, b: Seq<EntryView>)
    requires
        sorted(a),
        sorted(b),
        table(a) == table(b),
    ensures
        a == b,
    decreases a.len(),
{
    if a.len() == 0 {
        if b.len() > 0 {
            assert(has_key(b, b[0].key));
            assert(table(b).contains_key(b[0].key));
        }
        assert(a =~= b);
    } else if b.len() == 0 {
        assert(has_key(a, a[0].key));
        assert(table(a).contains_key(a[0].key));
    } else {
        let x = a.last();
        let y = b.last();
        lemma_table_entry(a, a.len() - 1);
        lemma_table_entry(b, b.len() - 1);
        assert(table(b).contains_key(x.key));
        assert(table(a).contains_key(y.key));
        let i = choose|i: int| 0 <= i < b.len() && #[trigger] b[i].key == x.key;
        let j = choose|j: int| 0 <= j < a.len() && #[trigger] a[j].key == y.key;
        law_key_less_total(x.key, y.key);
        if i < b.len() - 1 && j < a.len() - 1 {
            assert(key_less(b[i].key, b[b.len() - 1].key));
            assert(key_less(a[j].key, a[a.len() - 1].key));
        }
        assert(x.key == y.key);
        assert(x == y);
        let c = a.drop_last();
        let d = b.drop_last();
        assert(table(c) =~= table(d)) by {
            lemma_table_drop_last(a);
            lemma_table_drop_last(b);
        }
        law_sorted_entries_are_determined(c, d);
        assert(a =~= c.push(x));
        assert(b =~= d.push(y));
    }
}

/// The entry at `i` is the one that the table has for its key.
pub proof fn lemma_table_entry(s: Seq<EntryView>, i: int)
    requires
        sorted(s),
        0 <= i < s.len(),
    ensures
        table(s).contains_key(s[i].key),
        table(s)[s[i].key] == s[i],
{
    assert(has_key(s, s[i].key));
    let k = choose|k: int| 0 <= k < s.len() && #[trigger] s[k].key == s[i].key;
    law_key_less_irreflexive(s[i].key);
    if k < i {
        assert(key_less(s[k].key, s[i].key));
    } else if i < k {
        assert(key_less(s[i].key, s[k].key));
    }
}

proof fn lemma_table_drop_last(s: Seq<EntryView>)
    requires
        sorted(s),
        s.len() > 0,
    ensures
        table(s.drop_last()) == table(s).remove(s.last().key),
{
    let t = s.drop_last();
    let n = s.len() - 1;
    assert forall|key: Seq<u8>| #[trigger]
        table(t).contains_key(key) == table(s).remove(s.last().key).contains_key(key) && (table(
            t,
        ).contains_key(key) ==> table(t)[key] == table(s)[key]) by {
        if has_key(t, key) {
            let i = choose|i: int| 0 <= i < t.len() && #[trigger] t[i].key == key;
            assert(s[i].key == key);
            lemma_table_entry(t, i);
            lemma_table_entry(s, i);
            assert(key_less(s[i].key, s[n].key));
            law_key_less_irreflexive(key);
        } else if has_key(s, key) {
            let i = choose|i: int| 0 <= i < s.len() && #[trigger] s[i].key == key;
            if i < n {
                assert(t[i].key == key);
            }
        }
    }
    assert(table(t) =~= table(s).remove(s.last().key));
}

/// In a sorted sequence the entries of a range stand together: `lo` and `hi` are where its bounds
/// would be inserted.
proof fn lemma_entries_in_subrange(
    s: Seq<EntryView>,
    n: int,
    lo: int,
    hi: int,
    start: Seq<u8>,
    end: Seq<u8>,
)
    requires
        0 <= n <= s.len(),
        0 <= lo <= hi <= s.len(),
        forall|i: int| 0 <= i < lo ==> key_less(#[trigger] s[i].key, start),
        forall|i: int| lo <= i < s.len() ==> key_at_most(start, #[trigger] s[i].key),
        forall|i: int| 0 <= i < hi ==> key_less(#[trigger] s[i].key, end),
        forall|i: int| hi <= i < s.len() ==> key_at_most(end, #[trigger] s[i].key),
    ensures
        entries_in(s.take(n), start, end) == (if n <= lo {
            Seq::empty()
        } else if n <= hi {
            s.subrange(lo, n)
        } else {
            s.subrange(lo, hi)
        }),
    decreases n,
{
    if n > 0 {
        lemma_entries_in_subrange(s, n - 1, lo, hi, start, end);
        assert(s.take(n).drop_last() =~= s.take(n - 1));
        assert(s.take(n).last() == s[n - 1]);
        law_key_less_total(s[n - 1].key, start);
        if lo < n <= hi {
            assert(s.subrange(lo, n) =~= s.subrange(lo, n - 1).push(s[n - 1]));
        } else if n == lo + 1 {
            assert(s.subrange(lo, lo) =~= Seq::empty());
        }
        if n == hi + 1 && hi > lo {
            assert(s.subrange(lo, hi) =~= s.subrange(lo, n - 1));
        }
        if n > hi && hi == lo {
            assert(s.subrange(lo, hi) =~= Seq::empty());
        }
    }
}

/// In a sorted sequence the entries from a key on are the last ones.
proof fn lemma_entries_from_skip(s: Seq<EntryView>, n: int, lo: int, start: Seq<u8>)
    requires
        0 <= n <= s.len(),
        0 <= lo <= s.len(),
        forall|i: int| 0 <= i < lo ==> key_less(#[trigger] s[i].key, start),
        forall|i: int| lo <= i < s.len() ==> key_at_most(start, #[trigger] s[i].key),
    ensures
        entries_from(s.take(n), start) == (if n <= lo {
            Seq::empty()
        } else {
            s.subrange(lo, n)
        }),
    decreases n,
{
    if n > 0 {
        lemma_entries_from_skip(s, n - 1, lo, start);
        assert(s.take(n).drop_last() =~= s.take(n - 1));
        assert(s.take(n).last() == s[n - 1]);
        if lo < n {
            assert(s.subrange(lo, n) =~= s.subrange(lo, n - 1).push(s[n - 1]));
            if n == lo + 1 {
                assert(s.subrange(lo, lo) =~= Seq::empty());
            }
        }
    }
}

/// Entries in the order of their keys, one for each key.
#[derive(Debug)]
pub struct EntryTable {
    entries: Vec<Entry>,
}

impl View for EntryTable {
    type V = Map<Seq<u8>, EntryView>;

    open spec fn view(&self) -> Map<Seq<u8>, EntryView> {
        table(self.seq())
    }
}

impl EntryTable {
    /// The entries in their order.
    pub closed spec fn seq(self) -> Seq<EntryView> {
        entry_views(self.entries@)
    }

    pub open spec fn wf(self) -> bool {
        sorted(self.seq()) && self.seq().len() <= usize::MAX
    }

    pub fn new() -> (r: Self)
        ensures
            r.wf(),
            r.seq() == Seq::<EntryView>::empty(),
            r@ == Map::<Seq<u8>, EntryView>::empty(),
    {
        let r = Self { entries: Vec::new() };
        assert(r.seq() =~= Seq::empty());
        assert(r@ =~= Map::empty());
        r
    }

    /// The number of entries.
    pub fn len(&self) -> (r: usize)
        ensures
            r == self.seq().len(),
    {
        self.entries.len()
    }

    /// The entries in their order.
    pub fn entries(&self) -> (r: &Vec<Entry>)
        ensures
            entry_views(r@) == self.seq(),
    {
        &self.entries
    }

    /// The entries in their order.
    pub fn into_entries(self) -> (r: Vec<Entry>)
        ensures
            entry_views(r@) == self.seq(),
    {
        self.entries
    }

    /// Where `key` stands, or where it would have to be inserted.
    fn find(&self, key: &[u8]) -> (r: usize)
        requires
            self.wf(),
        ensures
            r <= self.seq().len(),
            forall|i: int| 0 <= i < r ==> key_less(#[trigger] self.seq()[i].key, key@),
            forall|i: int| r <= i < self.seq().len() ==> key_at_most(
                key@,
                #[trigger] self.seq()[i].key,
            ),
    {
        let mut left: usize = 0;
        let mut right: usize = self.entries.len();
        while left < right
            invariant
                self.wf(),
                left <= right <= self.entries.len(),
                forall|i: int| 0 <= i < left ==> key_less(#[trigger] self.seq()[i].key, key@),
                forall|i: int|
                    right <= i < self.seq().len() ==> key_at_most(
                        key@,
                        #[trigger] self.seq()[i].key,
                    ),
            decreases right - left,
        {
            let mid: usize = left + (right - left) / 2;
            assert(self.entries@[mid as int]@ == self.seq()[mid as int]);
            if less(self.entries[mid].key.as_slice(), key) {
                assert forall|i: int| 0 <= i < mid + 1 implies key_less(
                    #[trigger] self.seq()[i].key,
                    key@,
                ) by {
                    if i < mid {
                        law_key_less_transitive(
                            self.seq()[i].key,
                            self.seq()[mid as int].key,
                            key@,
                        );
                    }
                }
                left = mid + 1;
            } else {
                assert forall|i: int| mid <= i < self.seq().len() implies key_at_most(
                    key@,
                    #[trigger] self.seq()[i].key,
                ) by {
                    if mid < i && key_less(self.seq()[i].key, key@) {
                        law_key_less_transitive(
                            self.seq()[mid as int].key,
                            self.seq()[i].key,
                            key@,
                        );
                    }
                }
                right = mid;
            }
        }
        left
    }

    /// The index of `key`, if there is an entry for it.
    pub fn index_of(&self, key: &[u8]) -> (r: Option<usize>)
        requires
            self.wf(),
        ensures
            match r {
                Some(i) => {
                    &&& i < self.seq().len()
                    &&& self.seq()[i as int].key == key@
                    &&& self@.contains_key(key@)
                    &&& self@[key@] == self.seq()[i as int]
                },
                None => !self@.contains_key(key@),
            },
    {
        let i: usize = self.find(key);
        if i < self.entries.len() {
            assert(self.entries@[i as int]@ == self.seq()[i as int]);
            if same_bytes(self.entries[i].key.as_slice(), key) {
                proof {
                    lemma_table_entry(self.seq(), i as int);
                }
                return Some(i);
            }
        }
        proof {
            self.lemma_absent(key@, i as int);
        }
        None
    }

    /// A key that is not where it would have to be inserted has no entry.
    proof fn lemma_absent(self, key: Seq<u8>, at: int)
        requires
            self.wf(),
            0 <= at <= self.seq().len(),
            forall|i: int| 0 <= i < at ==> key_less(#[trigger] self.seq()[i].key, key),
            forall|i: int| at <= i < self.seq().len() ==> key_at_most(
                key,
                #[trigger] self.seq()[i].key,
            ),
            at < self.seq().len() ==> self.seq()[at].key != key,
        ensures
            !self@.contains_key(key),
            forall|i: int| at <= i < self.seq().len() ==> key_less(key, #[trigger] self.seq()[i].key),
    {
        let s = self.seq();
        assert forall|i: int| at <= i < s.len() implies key_less(key, #[trigger] s[i].key) by {
            law_key_less_total(s[at].key, key);
            if at < i {
                assert(key_less(s[at].key, s[i].key));
                law_key_less_transitive(key, s[at].key, s[i].key);
            }
        }
        assert forall|i: int| 0 <= i < s.len() implies #[trigger] s[i].key != key by {
            law_key_less_irreflexive(key);
        }
    }

    /// The entry for `key`.
    pub fn get(&self, key: &[u8]) -> (r: Option<&Entry>)
        requires
            self.wf(),
        ensures
            match r {
                Some(e) => self@.contains_key(key@) && e@ == self@[key@],
                None => !self@.contains_key(key@),
            },
    {
        match self.index_of(key) {
            Some(i) => {
                assert(self.entries@[i as int]@ == self.seq()[i as int]);
                Some(&self.entries[i])
            },
            None => None,
        }
    }

    /// Puts `entry` in, in place of one of the same key.
    pub fn insert(&mut self, entry: Entry)
        requires
            old(self).wf(),
        ensures
            final(self).wf(),
            final(self)@ == old(self)@.insert(entry@.key, entry@),
            final(self).seq().len() == old(self).seq().len() + (if old(self)@.contains_key(
                entry@.key,
            ) {
                0nat
            } else {
                1nat
            }),
            forall|k: int|
                0 <= k < final(self).seq().len() ==> (#[trigger] final(self).seq()[k] == entry@
                    || old(self).seq().contains(final(self).seq()[k])),
    {
        let ghost before = self.seq();
        let i: usize = self.find(entry.key.as_slice());
        let ghost added = entry@;
        if i < self.entries.len() {
            assert(self.entries@[i as int]@ == self.seq()[i as int]);
        }
        if i < self.entries.len() && same_bytes(
            self.entries[i].key.as_slice(),
            entry.key.as_slice(),
        ) {
            self.entries.set(i, entry);
            proof {
                assert(self.seq() =~= before.update(i as int, added));
                lemma_table_entry(before, i as int);
                lemma_table_update(before, i as int, added);
            }
        } else {
            proof {
                self.lemma_absent(added.key, i as int);
            }
            self.entries.insert(i, entry);
            proof {
                let len = self.entries.len();
                assert(self.seq() =~= before.insert(i as int, added));
                lemma_table_insert(before, i as int, added);
            }
        }
        proof {
            assert forall|k: int| 0 <= k < self.seq().len() implies (#[trigger] self.seq()[k]
                == added || before.contains(self.seq()[k])) by {
                if self.seq().len() == before.len() {
                    if k != i {
                        assert(self.seq()[k] == before[k]);
                    }
                } else if k < i {
                    assert(self.seq()[k] == before[k]);
                } else if k > i {
                    assert(self.seq()[k] == before[k - 1]);
                }
            }
        }
    }

    /// Puts `entry` in unless there is one of the same key whose sequence number is as high.
    pub fn absorb(&mut self, entry: Entry)
        requires
            old(self).wf(),
        ensures
            final(self).wf(),
            final(self)@ == absorb(old(self)@, entry@),
    {
        match self.get(entry.key.as_slice()) {
            Some(existing) => {
                if entry.sequence <= existing.sequence {
                    return ;
                }
            },
            None => {},
        }
        self.insert(entry);
    }

    /// The index from which on no key comes before `start`.
    pub fn range_from(&self, start: &[u8]) -> (r: usize)
        requires
            self.wf(),
        ensures
            r <= self.seq().len(),
            self.seq().skip(r as int) == entries_from(self.seq(), start@),
    {
        let lo: usize = self.find(start);
        proof {
            let s = self.seq();
            lemma_entries_from_skip(s, s.len() as int, lo as int, start@);
            assert(s.take(s.len() as int) =~= s);
            assert(s.skip(lo as int) =~= s.subrange(lo as int, s.len() as int));
            if lo == s.len() {
                assert(s.skip(lo as int) =~= Seq::empty());
            }
        }
        lo
    }

    /// Copies of the entries between two indices, each behind a copy of its key.
    pub fn copy_range(&self, from: usize, to: usize) -> (r: Vec<(Key, Entry)>)
        requires
            from <= to <= self.seq().len(),
        ensures
            keyed(r@, self.seq().subrange(from as int, to as int)),
    {
        let mut r: Vec<(Key, Entry)> = Vec::new();
        let mut i: usize = from;
        while i < to
            invariant
                from <= i <= to <= self.entries@.len(),
                keyed(r@, self.seq().subrange(from as int, i as int)),
            decreases to - i,
        {
            let entry = self.entries[i].clone();
            assert(self.entries@[i as int]@ == self.seq()[i as int]);
            r.push((crate::copy_bytes(entry.key.as_slice()), entry));
            assert(self.seq().subrange(from as int, i + 1) =~= self.seq().subrange(
                from as int,
                i as int,
            ).push(self.seq()[i as int]));
            i = i + 1;
        }
        r
    }

    /// The indices between which the keys from `start` up to, not including, `end` stand.
    pub fn range(&self, start: &[u8], end: &[u8]) -> (r: (usize, usize))
        requires
            self.wf(),
            key_at_most(start@, end@),
        ensures
            r.0 <= r.1 <= self.seq().len(),
            self.seq().subrange(r.0 as int, r.1 as int) == entries_in(self.seq(), start@, end@),
    {
        let lo: usize = self.find(start);
        let hi: usize = self.find(end);
        proof {
            let s = self.seq();
            if hi < lo {
                assert(key_less(s[hi as int].key, start@));
                assert(key_at_most(end@, s[hi as int].key));
                law_key_less_total(end@, s[hi as int].key);
                if end@ != s[hi as int].key {
                    law_key_less_transitive(end@, s[hi as int].key, start@);
                }
            }
            lemma_entries_in_subrange(s, s.len() as int, lo as int, hi as int, start@, end@);
            assert(s.take(s.len() as int) =~= s);
            if s.len() <= lo {
                assert(s.subrange(lo as int, hi as int) =~= Seq::empty());
            }
        }
        (lo, hi)
    }
}

impl Clone for EntryTable {
    fn clone(&self) -> (r: Self)
        ensures
            r.seq() == self.seq(),
    {
        let mut entries: Vec<Entry> = Vec::new();
        let mut i: usize = 0;
        while i < self.entries.len()
            invariant
                i <= self.entries.len(),
                entries@.len() == i,
                forall|j: int| 0 <= j < i ==> (#[trigger] entries@[j])@ == self.entries@[j]@,
            decreases self.entries.len() - i,
        {
            entries.push(self.entries[i].clone());
            i = i + 1;
        }
        let r = EntryTable { entries };
        assert(r.seq() =~= self.seq());
        r
    }
}

pub proof fn lemma_table_update(s: Seq<EntryView>, i: int, e: EntryView)
    requires
        sorted(s),
        0 <= i < s.len(),
        s[i].key == e.key,
    ensures
        sorted(s.update(i, e)),
        table(s.update(i, e)) == table(s).insert(e.key, e),
{
    let t = s.update(i, e);
    assert forall|a: int, b: int| 0 <= a < b < t.len() implies key_less(
        #[trigger] t[a].key,
        #[trigger] t[b].key,
    ) by {
        assert(key_less(s[a].key, s[b].key));
    }
    assert forall|key: Seq<u8>| #[trigger]
        table(t).contains_key(key) == table(s).insert(e.key, e).contains_key(key) && (table(
            t,
        ).contains_key(key) ==> table(t)[key] == table(s).insert(e.key, e)[key]) by {
        lemma_table_entry(t, i);
        if has_key(t, key) {
            let k = choose|k: int| 0 <= k < t.len() && #[trigger] t[k].key == key;
            assert(s[k].key == key);
            lemma_table_entry(t, k);
            lemma_table_entry(s, k);
        } else if has_key(s, key) {
            let k = choose|k: int| 0 <= k < s.len() && #[trigger] s[k].key == key;
            assert(t[k].key == key);
        }
    }
    assert(table(t) =~= table(s).insert(e.key, e));
}

pub proof fn lemma_table_insert(s: Seq<EntryView>, i: int, e: EntryView)
    requires
        sorted(s),
        0 <= i <= s.len(),
        forall|k: int| 0 <= k < i ==> key_less(#[trigger] s[k].key, e.key),
        forall|k: int| i <= k < s.len() ==> key_less(e.key, #[trigger] s[k].key),
    ensures
        sorted(s.insert(i, e)),
        table(s.insert(i, e)) == table(s).insert(e.key, e),
{
    let t = s.insert(i, e);
    assert forall|a: int, b: int| 0 <= a < b < t.len() implies key_less(
        #[trigger] t[a].key,
        #[trigger] t[b].key,
    ) by {
        let a0 = if a < i { a } else { a - 1 };
        let b0 = if b < i { b } else { b - 1 };
        if a != i && b != i {
            assert(key_less(s[a0].key, s[b0].key));
        } else if a == i {
            assert(key_less(e.key, s[b0].key));
        } else {
            assert(key_less(s[a0].key, e.key));
        }
    }
    assert forall|key: Seq<u8>| #[trigger]
        table(t).contains_key(key) == table(s).insert(e.key, e).contains_key(key) && (table(
            t,
        ).contains_key(key) ==> table(t)[key] == table(s).insert(e.key, e)[key]) by {
        assert(t[i] == e);
        lemma_table_entry(t, i);
        if has_key(t, key) {
            let k = choose|k: int| 0 <= k < t.len() && #[trigger] t[k].key == key;
            lemma_table_entry(t, k);
            if k != i {
                let k0 = if k < i { k } else { k - 1 };
                assert(s[k0].key == key);
                lemma_table_entry(s, k0);
                law_key_less_irreflexive(key);
            }
        } else if has_key(s, key) {
            let k = choose|k: int| 0 <= k < s.len() && #[trigger] s[k].key == key;
            let k1 = if k < i { k } else { k + 1 };
            assert(t[k1].key == key);
        }
    }
    assert(table(t) =~= table(s).insert(e.key, e));
}

/// Law: a table holds an entry for a key exactly where one of the entries has that key, and holds
/// that one.
pub proof fn law_table_holds_entries(s: Seq<EntryView>, key: Seq<u8>)
    requires
        sorted(s),
    ensures
        table(s).contains_key(key) <==> exists|i: int| 0 <= i < s.len() && (#[trigger] s[i]).key
            == key,
        forall|i: int| 0 <= i < s.len() && (#[trigger] s[i]).key == key ==> table(s)[key] == s[i],
{
    assert forall|i: int| 0 <= i < s.len() && (#[trigger] s[i]).key == key implies table(s)[key]
        == s[i] by {
        lemma_table_entry(s, i);
    }
}

/// Law: entries in the order of their keys have each key once, and none before a smaller one.
pub proof fn law_sorted_keys_go_up(s: Seq<EntryView>)
    ensures
        sorted(s) <==> forall|i: int, j: int|
            0 <= i < j < s.len() ==> key_less((#[trigger] s[i]).key, (#[trigger] s[j]).key),
        sorted(s) ==> forall|i: int, j: int|
            0 <= i < s.len() && 0 <= j < s.len() && (#[trigger] s[i]).key == (#[trigger] s[j]).key
                ==> i == j,
{
    if sorted(s) {
        assert forall|i: int, j: int|
            0 <= i < s.len() && 0 <= j < s.len() && (#[trigger] s[i]).key == (
            #[trigger] s[j]).key implies i == j by {
            law_key_less_irreflexive(s[i].key);
            if i < j {
                assert(key_less(s[i].key, s[j].key));
            } else if j < i {
                assert(key_less(s[j].key, s[i].key));
            }
        }
    }
}

/// Law: the entries of a range are those from its start up to, not including, its end, in their
/// order; those from a key on are all others but those before it.
pub proof fn law_range_is_picked_out(s: Seq<EntryView>, start: Seq<u8>, end: Seq<u8>)
    ensures
        entries_in(s, start, end) == s.filter(
            |e: EntryView| (e.key == start || key_less(start, e.key)) && key_less(e.key, end),
        ),
        entries_from(s, start) == s.filter(
            |e: EntryView| e.key == start || key_less(start, e.key),
        ),
    decreases s.len(),
{
    reveal(Seq::filter);
    if s.len() > 0 {
        let key = s.last().key;
        law_range_is_picked_out(s.drop_last(), start, end);
        crate::order::law_range_is_half_open(key, start, end);
    }
}

/// Law: of the entries that are absorbed, one stays for each of their keys: none of that key has a
/// higher number, and none that was absorbed before it has as high a number.
pub proof fn law_highest_number_stays(s: Seq<EntryView>, key: Seq<u8>)
    ensures
        ({
            let m = absorb_all(Map::empty(), s);
            &&& m.contains_key(key) <==> exists|i: int| 0 <= i < s.len() && (#[trigger] s[i]).key
                == key
            &&& m.contains_key(key) ==> exists|i: int|
                {
                    &&& 0 <= i < s.len()
                    &&& #[trigger] s[i] == m[key]
                    &&& s[i].key == key
                    &&& forall|j: int|
                        0 <= j < s.len() && (#[trigger] s[j]).key == key ==> s[j].sequence
                            <= s[i].sequence && (j < i ==> s[j].sequence < s[i].sequence)
                }
        }),
{
    let m = absorb_all(Map::<Seq<u8>, EntryView>::empty(), s);
    let k = lemma_newest_index(s, key);
    if has_key(s, key) {
        assert(s[k] == m[key]);
        assert forall|j: int| 0 <= j < s.len() && (#[trigger] s[j]).key == key implies s[j].sequence
            <= s[k].sequence && (j < k ==> s[j].sequence < s[k].sequence) by {
            assert(s[j].key == s[k].key);
        }
    }
}

/// Law: the bytes of entries add up: those of one are its size, and those of two sequences are those
/// of each together.
pub proof fn law_bytes_add_up(a: Seq<EntryView>, b: Seq<EntryView>, e: EntryView)
    ensures
        total_bytes(a + b) == total_bytes(a) + total_bytes(b),
        total_bytes(seq![e]) == e.size(),
    decreases b.len(),
{
    reveal_with_fuel(total_bytes, 2);
    assert(seq![e].drop_last() =~= Seq::empty());
    if b.len() == 0 {
        assert(a + b =~= a);
    } else {
        law_bytes_add_up(a, b.drop_last(), e);
        assert((a + b).drop_last() =~= a + b.drop_last());
    }
}

/// Law: pairs of keys and entries are the entries, in their order, each behind its key.
pub proof fn law_pairs_are_entries(pairs: Seq<(Key, Entry)>, s: Seq<EntryView>)
    ensures
        keyed(pairs, s) <==> s == pairs.map_values(|p: (Key, Entry)| p.1@) && forall|i: int|
            0 <= i < pairs.len() ==> (#[trigger] pairs[i]).0@ == pairs[i].1@.key,
{
    let t = pairs.map_values(|p: (Key, Entry)| p.1@);
    if keyed(pairs, s) {
        assert(s =~= t);
    }
    if s == t && forall|i: int|
        0 <= i < pairs.len() ==> (#[trigger] pairs[i]).0@ == pairs[i].1@.key {
        assert(keyed(pairs, s));
    }
}

} // verus!
