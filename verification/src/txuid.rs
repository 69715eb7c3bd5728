//! Per-height transaction uid assignment: uids stay stable and gap-free
//! within a block, restarting from its height's base whenever the height
//! advances.

use vstd::prelude::*;

verus! {

/// The generator: a height base times a fixed multiplier, plus a counter
/// that resets when the height moves.
pub struct TxUidGenerator {
    pub multiplier: usize,
    pub last_height: usize,
    pub last_id: usize,
}

impl TxUidGenerator {
    /// A fresh generator at height zero.
    pub fn new(multiplier: usize) -> (r: Self)
        ensures
            r.multiplier == multiplier,
            r.last_height == 0,
            r.last_id == 0,
    {
        TxUidGenerator { multiplier, last_height: 0, last_id: 0 }
    }

    /// Advances to a new height, restarting the in-block counter; an old
    /// or repeated height changes nothing.
    pub fn maybe_update_height(&mut self, height: usize)
        ensures
            height > old(self).last_height ==> final(self).last_height == height
                && final(self).last_id == 0,
            height <= old(self).last_height ==> *final(self) == *old(self),
            final(self).multiplier == old(self).multiplier,
    {
        if height > self.last_height {
            self.last_height = height;
            self.last_id = 0;
        }
    }

    /// The next uid at the current height: the height's base plus how
    /// many uids this height has already taken.
    pub fn next(&mut self) -> (r: usize)
        requires
            old(self).last_height * old(self).multiplier + old(self).last_id + 1 <= usize::MAX,
        ensures
            r == old(self).last_height * old(self).multiplier + old(self).last_id,
            final(self).last_id == old(self).last_id + 1,
            final(self).last_height == old(self).last_height,
            final(self).multiplier == old(self).multiplier,
    {
        let result = self.last_height * self.multiplier + self.last_id;
        self.last_id += 1;
        result
    }
}

} // verus!
