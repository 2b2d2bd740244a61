//! Walking over all entries of a table.
use crate::error::{ErrorView, Result};
use crate::sstable::cache::bytes_slice;
use crate::sstable::format::read_block_entries;
use crate::sstable::reader::{lemma_fetch_sound, ReaderView, SSTableReader};
use crate::{entry_views, Entry, EntryView};
use vstd::prelude::*;

verus! {

/// Where an iterator stands: in a block that it has read, or before one that it has not.
pub struct BlockPosition {
    current_block: usize,
    current_entry: usize,
    current_block_data: Option<bytes::Bytes>,
    current_block_entries: Vec<Entry>,
}

/// Hands out the entries of a table one by one.
pub struct SSTableIterator<'a> {
    pub reader: &'a mut SSTableReader,
    pub position: BlockPosition,
}

/// Reading a block again gives what it gave.
proof fn lemma_fetch_again(view: ReaderView, i: int)
    ensures
        view.after_fetch(i).fetch(i) == view.fetch(i),
        view.after_fetch(i).index == view.index,
{
}

impl<'a> SSTableIterator<'a> {
    pub closed spec fn wf(self) -> bool {
        &&& self.reader@.index.len() <= usize::MAX
        &&& self.position.current_block_data is None ==> self.position.current_block_entries@.len() == 0
        &&& self.position.current_block_data is Some ==> {
            &&& self.position.current_entry <= self.position.current_block_entries@.len()
            &&& self.position.current_block < self.reader@.index.len()
        }
    }

    /// The entries that are still to come, and the error that ends them, if one does.
    pub closed spec fn remaining(self) -> (Seq<EntryView>, Option<ErrorView>) {
        if self.position.current_block_data is Some {
            let (more, fault) = self.reader@.stream(self.position.current_block + 1);
            (
                entry_views(self.position.current_block_entries@).skip(self.position.current_entry as int) + more,
                fault,
            )
        } else {
            self.reader@.stream(self.position.current_block as int)
        }
    }

    /// An iterator that stands before the first entry.
    pub fn new(reader: &'a mut SSTableReader) -> (r: Self)
        ensures
            r.wf(),
            r.remaining() == old(reader)@.stream(0),
            *r.reader == *old(reader),
            *final(r.reader) == *final(reader),
    {
        let block_count: usize = reader.block_count();
        Self {
            reader,
            position: BlockPosition {
                current_block: 0,
                current_entry: 0,
                current_block_data: None,
                current_block_entries: Vec::new(),
            },
        }
    }

    /// Reads the block before which the iterator stands.
    fn load_current_block(&mut self) -> (r: Result<()>)
        requires
            old(self).wf(),
            old(self).position.current_block_data is None,
            old(self).position.current_block < old(self).reader@.index.len(),
        ensures
            final(self).wf(),
            *final(final(self).reader) == *final(old(self).reader),
            final(self).reader@.fresh() == old(self).reader@.fresh(),
            old(self).reader@.sound() ==> final(self).reader@.sound(),
            final(self).position.current_block == old(self).position.current_block,
            final(self).remaining() == old(self).remaining(),
            match r {
                Ok(_) => final(self).position.current_block_data is Some,
                Err(e) => old(self).remaining() == (Seq::<EntryView>::empty(), Some(e@)),
            },
    {
        let ghost at = self.position.current_block as int;
        proof {
            lemma_fetch_again(self.reader@, at);
            if self.reader@.sound() {
                lemma_fetch_sound(self.reader@, at);
            }
        }
        let block = self.reader.read_block(self.position.current_block)?;
        let entries = read_block_entries(bytes_slice(&block))?;
        self.position.current_block_data = Some(block);
        self.position.current_block_entries = entries;
        self.position.current_entry = 0;
        proof {
            let loaded = entry_views(self.position.current_block_entries@);
            assert(loaded.skip(0) =~= loaded);
        }
        Ok(())
    }

    /// The next entry, or the error that ends the entries, over and over.
    pub fn next(&mut self) -> (r: Option<Result<Entry>>)
        requires
            old(self).wf(),
        ensures
            final(self).wf(),
            *final(final(self).reader) == *final(old(self).reader),
            final(self).reader@.fresh() == old(self).reader@.fresh(),
            old(self).reader@.sound() ==> final(self).reader@.sound(),
            ({
                let (items, fault) = old(self).remaining();
                match r {
                    Some(Ok(e)) => {
                        &&& items.len() > 0
                        &&& e@ == items[0]
                        &&& final(self).remaining() == (items.drop_first(), fault)
                    },
                    Some(Err(e)) => {
                        &&& items.len() == 0
                        &&& fault == Some(e@)
                        &&& final(self).remaining() == old(self).remaining()
                    },
                    None => {
                        &&& items.len() == 0
                        &&& fault is None
                        &&& final(self).remaining() == old(self).remaining()
                    },
                }
            }),
    {
        loop
            invariant
                self.wf(),
                self.remaining() == old(self).remaining(),
                *final(self.reader) == *final(old(self).reader),
                self.reader@.fresh() == old(self).reader@.fresh(),
                old(self).reader@.sound() ==> self.reader@.sound(),
            decreases self.reader@.index.len() - self.position.current_block,
        {
            if self.position.current_block_data.is_none() {
                if self.position.current_block >= self.reader.block_count() {
                    return None;
                }
                match self.load_current_block() {
                    Ok(_) => {},
                    Err(e) => {
                        return Some(Err(e));
                    },
                }
            }
            let ghost loaded = entry_views(self.position.current_block_entries@);
            let ghost at = self.position.current_entry as int;
            let ghost tail = self.reader@.stream(self.position.current_block + 1);
            if self.position.current_entry < self.position.current_block_entries.len() {
                let entry = self.position.current_block_entries[self.position.current_entry].clone();
                self.position.current_entry = self.position.current_entry + 1;
                proof {
                    let before = loaded.skip(at) + tail.0;
                    assert(before[0] == entry@);
                    assert(before.drop_first() =~= loaded.skip(at + 1) + tail.0);
                }
                return Some(Ok(entry));
            }
            assert(loaded.skip(at) + tail.0 =~= tail.0);
            self.position.current_block = self.position.current_block + 1;
            self.position.current_block_data = None;
            self.position.current_block_entries.clear();
        }
    }
}

} // verus!
