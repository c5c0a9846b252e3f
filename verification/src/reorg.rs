//! High-water mark of finalized slots seen by the indexer.

use vstd::prelude::*;

verus! {

/// Tracks the highest slot number observed as finalized.
#[derive(Clone, Copy, Debug, PartialEq, Eq, Structural)]
pub struct ReorgState {
    pub last_finalized_slot: u64,
}

impl Default for ReorgState {
    /// Starts before any slot has been observed.
    fn default() -> (r: Self)
        ensures
            r.last_finalized_slot == 0,
    {
        ReorgState { last_finalized_slot: 0 }
    }
}

impl ReorgState {
    /// Records a finalized slot; the mark never moves backward.
    pub fn observe_finalized(&mut self, slot: u64)
        ensures
            final(self).last_finalized_slot == if slot > old(self).last_finalized_slot {
                slot
            } else {
                old(self).last_finalized_slot
            },
    {
        if slot > self.last_finalized_slot {
            self.last_finalized_slot = slot;
        }
    }
}

} // verus!
