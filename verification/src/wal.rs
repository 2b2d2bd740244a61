//! The write-ahead log: for now, where it is kept.
use std::path::PathBuf;
use vstd::prelude::*;

verus! {

/// A write-ahead log.
pub struct WriteAheadLog {
    path: PathBuf,
}

impl WriteAheadLog {
    /// Where the log is kept.
    pub closed spec fn location(self) -> PathBuf {
        self.path
    }

    pub fn new(path: PathBuf) -> (r: Self)
        ensures
            r.location() == path,
    {
        Self { path }
    }

    /// Where the log is kept.
    pub fn path(&self) -> (r: &PathBuf)
        ensures
            *r == self.location(),
    {
        &self.path
    }
}

} // verus!
