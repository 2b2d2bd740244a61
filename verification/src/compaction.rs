//! How tables are chosen for compaction.
use vstd::prelude::*;

verus! {

/// A way to choose tables.
#[derive(Debug, Clone, Copy, PartialEq, Eq, Structural)]
pub enum CompactionStrategy {
    SizeTiered,
    Leveled,
}

/// Chooses tables by a strategy.
pub struct CompactionManager {
    strategy: CompactionStrategy,
}

impl CompactionManager {
    /// The strategy by which tables are chosen.
    pub closed spec fn chosen(self) -> CompactionStrategy {
        self.strategy
    }

    pub fn new(strategy: CompactionStrategy) -> (r: Self)
        ensures
            r.chosen() == strategy,
    {
        Self { strategy }
    }

    /// The strategy by which tables are chosen.
    pub fn strategy(&self) -> (r: CompactionStrategy)
        ensures
            r == self.chosen(),
    {
        self.strategy
    }
}

} // verus!
