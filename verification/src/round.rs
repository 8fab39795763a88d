//! The round tracker: fixed-length epochs over an external block clock.

use vstd::prelude::*;

verus! {

/// The live round: one discrete, fixed-length epoch of blocks. Exactly one
/// instance exists per ledger; `index` only ever grows.
#[derive(Clone, Copy, PartialEq, Eq, Structural, Debug)]
pub struct Round {
    /// Number of the round that is currently running.
    pub index: u64,
    /// Block at which the current round began.
    pub first_block: u64,
    /// How many blocks a round lasts.
    pub length: u64,
}

impl Round {
    /// A round is over once `length` blocks have passed since its first block.
    pub open spec fn spec_should_advance(self, current_block: u64) -> bool {
        current_block >= self.first_block + self.length
    }

    /// Round-boundary detection: true exactly when the tick at
    /// `current_block` falls outside the current round.
    pub fn should_advance(&self, current_block: u64) -> (r: bool)
        ensures
            r == self.spec_should_advance(current_block),
    {
        current_block >= self.first_block && current_block - self.first_block >= self.length
    }

    /// Moves to the next round, starting it at `current_block`. Calling this
    /// without a true `should_advance` verdict is a caller error, which the
    /// precondition rules out rather than defends against; the index bound
    /// is a machine limit no real block chain approaches.
    pub fn advance(&mut self, current_block: u64)
        requires
            old(self).spec_should_advance(current_block),
            old(self).index < u64::MAX,
        ensures
            final(self).index == old(self).index + 1,
            final(self).first_block == current_block,
            final(self).length == old(self).length,
    {
        self.index = self.index + 1;
        self.first_block = current_block;
    }
}

} // verus!
