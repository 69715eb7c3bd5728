//! The streaming batcher: turns a live event feed into bounded,
//! height-ordered batches.  Block appends accumulate until the batch is
//! full or the wait is over; a microblock or rollback flushes at once,
//! because it changes how the next events must be processed.

use vstd::prelude::*;

use crate::models::{BlockchainUpdate, BlockchainUpdatesWithLastHeight};

verus! {

/// Whether one more event flushes the pending batch: a block flushes only
/// a full or overdue batch, everything else flushes immediately.
pub open spec fn should_flush(
    u: BlockchainUpdate,
    size_with_u: int,
    max_batch_size: int,
    waited_out: bool,
) -> bool {
    match u {
        BlockchainUpdate::Block(_) => size_with_u >= max_batch_size || waited_out,
        BlockchainUpdate::Microblock(_) => true,
        BlockchainUpdate::Rollback(_) => true,
    }
}

/// The pending state of the batcher between flushes.
pub struct BatchAccumulator {
    pub pending: Vec<BlockchainUpdate>,
    pub last_height: u32,
}

impl BatchAccumulator {
    /// An empty batcher, positioned at the height the stream starts from.
    pub fn new(from_height: u32) -> (b: Self)
        ensures
            b.pending@ == Seq::<BlockchainUpdate>::empty(),
            b.last_height == from_height,
    {
        let b = BatchAccumulator { pending: Vec::new(), last_height: from_height };
        proof {
            assert(b.pending@ =~= Seq::<BlockchainUpdate>::empty());
        }
        b
    }

    /// Accepts one decoded event at `height`.  The event always joins the
    /// pending batch; the batch is handed back whole exactly when the
    /// flush policy says so.  `waited_out` reports whether the caller's
    /// wait clock has run out since the last flush; the caller resets
    /// that clock whenever a batch comes back.
    pub fn accept(
        &mut self,
        update: BlockchainUpdate,
        height: u32,
        max_batch_size: usize,
        waited_out: bool,
    ) -> (flushed: Option<BlockchainUpdatesWithLastHeight>)
        ensures
            final(self).last_height == height,
            (flushed is Some) == should_flush(
                update,
                old(self).pending@.len() as int + 1,
                max_batch_size as int,
                waited_out,
            ),
            match flushed {
                Some(batch) => {
                    &&& batch.last_height == height
                    &&& batch.updates@ == old(self).pending@.push(update)
                    &&& final(self).pending@ == Seq::<BlockchainUpdate>::empty()
                },
                None => final(self).pending@ == old(self).pending@.push(update),
            },
    {
        let flush = match &update {
            BlockchainUpdate::Block(_) => {
                max_batch_size == 0 || self.pending.len() >= max_batch_size - 1 || waited_out
            },
            BlockchainUpdate::Microblock(_) => true,
            BlockchainUpdate::Rollback(_) => true,
        };
        self.pending.push(update);
        self.last_height = height;
        if flush {
            let mut drained: Vec<BlockchainUpdate> = Vec::new();
            core::mem::swap(&mut drained, &mut self.pending);
            proof {
                assert(self.pending@ =~= Seq::<BlockchainUpdate>::empty());
            }
            Some(BlockchainUpdatesWithLastHeight { last_height: height, updates: drained })
        } else {
            None
        }
    }
}

} // verus!
