//! The per-pair stake time series: a bounded queue of `(round, value)`
//! checkpoints with merge-at-round updates and an explicit compaction
//! policy.

use vstd::prelude::*;
use crate::errors::Error;

verus! {

/// One entry of a stake time series: the cumulative stake value a pair held
/// as of `round`. Values are absolute, not deltas, so an entry keeps its
/// meaning even when older entries are compacted away.
#[derive(Clone, Copy, PartialEq, Eq, Structural, Debug)]
pub struct Checkpoint {
    pub round: u64,
    pub value: u64,
}

/// A well-formed checkpoint queue holds at most `max` entries, ordered by
/// strictly increasing round.
pub open spec fn checkpoints_wf(s: Seq<Checkpoint>, max: nat) -> bool {
    &&& s.len() <= max
    &&& forall|i: int, j: int| 0 <= i < j < s.len() ==> s[i].round < s[j].round
}

/// The value of the most recent checkpoint; an empty history counts as zero.
pub open spec fn spec_latest(s: Seq<Checkpoint>) -> int {
    if s.len() == 0 {
        0
    } else {
        s.last().value as int
    }
}

/// Compaction policy for a full queue: the two oldest entries collapse into
/// one. Since every entry carries the absolute cumulative value as of its
/// round, dropping the oldest entry loses only the ability to answer
/// as-of-round queries for rounds before the next entry; all later history
/// and the latest value are untouched.
pub open spec fn spec_compact(s: Seq<Checkpoint>, max: nat) -> Seq<Checkpoint> {
    if s.len() < max {
        s
    } else {
        s.subrange(1, s.len() as int)
    }
}

/// Recording a new cumulative value at `round`: if the latest checkpoint is
/// already for `round`, it is rewritten in place (no slot consumed);
/// otherwise a new checkpoint is appended, compacting first when the queue
/// is full.
pub open spec fn spec_record(s: Seq<Checkpoint>, round: u64, new_value: u64, max: nat) -> Seq<
    Checkpoint,
> {
    if s.len() > 0 && s.last().round == round {
        s.update(s.len() - 1, Checkpoint { round, value: new_value })
    } else {
        spec_compact(s, max).push(Checkpoint { round, value: new_value })
    }
}

/// Recording preserves well-formedness, ends on a checkpoint for `round`
/// holding exactly `new_value`, and never leaves the queue empty.
pub proof fn lemma_record_wf(s: Seq<Checkpoint>, round: u64, new_value: u64, max: nat)
    requires
        checkpoints_wf(s, max),
        max >= 1,
        s.len() > 0 ==> s.last().round <= round,
    ensures
        checkpoints_wf(spec_record(s, round, new_value, max), max),
        spec_record(s, round, new_value, max).len() >= 1,
        spec_record(s, round, new_value, max).last() == (Checkpoint { round, value: new_value }),
        spec_latest(spec_record(s, round, new_value, max)) == new_value,
        forall|i: int|
            0 <= i < spec_record(s, round, new_value, max).len() ==> spec_record(
                s,
                round,
                new_value,
                max,
            )[i].round <= round,
{
    let r = spec_record(s, round, new_value, max);
    if s.len() > 0 && s.last().round == round {
        assert(forall|i: int, j: int| 0 <= i < j < r.len() ==> r[i].round < r[j].round);
        assert(forall|i: int| 0 <= i < r.len() - 1 ==> r[i].round < round);
    } else {
        let c = spec_compact(s, max);
        assert(forall|i: int, j: int| 0 <= i < j < c.len() ==> c[i].round < c[j].round);
        assert(forall|i: int| 0 <= i < c.len() ==> c[i].round < round);
    }
}

/// The stake value as of `round`: the value of the last checkpoint at or
/// before it, absent when the history begins after `round` or is empty.
pub open spec fn spec_value_at(s: Seq<Checkpoint>, round: u64) -> Option<u64>
    decreases s.len(),
{
    if s.len() == 0 {
        None
    } else if s.last().round <= round {
        Some(s.last().value)
    } else {
        spec_value_at(s.drop_last(), round)
    }
}

/// The bounded stake time series of one (staker, creator) pair: its stake
/// value by round, and through the last entry its current value.
#[derive(Clone, PartialEq, Eq, Debug)]
pub struct StakeState {
    pub checkpoints: Vec<Checkpoint>,
}

impl View for StakeState {
    type V = Seq<Checkpoint>;

    open spec fn view(&self) -> Seq<Checkpoint> {
        self.checkpoints@
    }
}

impl StakeState {
    /// A fresh, empty time series; the first stake creates its first entry.
    pub fn new() -> (s: StakeState)
        ensures
            s@ == Seq::<Checkpoint>::empty(),
    {
        StakeState { checkpoints: Vec::new() }
    }

    /// The value of the most recent checkpoint, or `None` when no checkpoint
    /// exists (the caller reports this as `NotStakedForCreator`).
    pub fn latest_staked_value(&self) -> (r: Option<u64>)
        ensures
            self@.len() == 0 ==> r is None,
            self@.len() > 0 ==> r == Some(self@.last().value),
            r is Some ==> r->Some_0 == spec_latest(self@),
    {
        if self.checkpoints.len() == 0 {
            None
        } else {
            Some(self.checkpoints[self.checkpoints.len() - 1].value)
        }
    }

    /// The stake value this pair held as of `round`: the value of the last
    /// checkpoint at or before `round`, or `None` when the history starts
    /// after `round` (or was compacted past it, or is empty).
    pub fn staked_value_at_round(&self, round: u64) -> (r: Option<u64>)
        ensures
            r == spec_value_at(self@, round),
    {
        let mut i: usize = self.checkpoints.len();
        proof {
            assert(self.checkpoints@.subrange(0, i as int) =~= self.checkpoints@);
        }
        while i > 0
            invariant
                i <= self.checkpoints@.len(),
                spec_value_at(self@, round) == spec_value_at(
                    self.checkpoints@.subrange(0, i as int),
                    round,
                ),
            decreases i,
        {
            let c = self.checkpoints[i - 1];
            proof {
                assert(self.checkpoints@.subrange(0, i as int).last() == c);
                assert(self.checkpoints@.subrange(0, i as int).drop_last()
                    =~= self.checkpoints@.subrange(0, i as int - 1));
            }
            if c.round <= round {
                return Some(c.value);
            }
            i -= 1;
        }
        None
    }

    /// Applies the record transition: merge at the last slot when it already
    /// belongs to `round`, otherwise append, compacting a full queue first.
    pub(crate) fn record(&mut self, round: u64, new_value: u64, max_chunks: usize)
        requires
            checkpoints_wf(old(self)@, max_chunks as nat),
            max_chunks >= 1,
            old(self)@.len() > 0 ==> old(self)@.last().round <= round,
        ensures
            final(self)@ == spec_record(old(self)@, round, new_value, max_chunks as nat),
    {
        let n = self.checkpoints.len();
        if n > 0 && self.checkpoints[n - 1].round == round {
            self.checkpoints[n - 1] = Checkpoint { round, value: new_value };
        } else {
            if n == max_chunks {
                self.checkpoints.remove(0);
                proof {
                    assert(self.checkpoints@ =~= spec_compact(old(self)@, max_chunks as nat));
                }
            }
            self.checkpoints.push(Checkpoint { round, value: new_value });
        }
    }

    /// Adds `amount` on top of the latest value, recorded under `round`.
    /// Fails with `Overflow`, touching nothing, when the sum does not fit.
    ///
    /// `round` may not lie before the last recorded round: the caller feeds
    /// the current round from a monotonically non-decreasing time source.
    pub fn stake(&mut self, round: u64, amount: u64, max_chunks: usize) -> (r: Result<(), Error>)
        requires
            checkpoints_wf(old(self)@, max_chunks as nat),
            max_chunks >= 1,
            old(self)@.len() > 0 ==> old(self)@.last().round <= round,
        ensures
            spec_latest(old(self)@) + amount <= u64::MAX ==> r == Ok::<(), Error>(())
                && final(self)@ == spec_record(
                old(self)@,
                round,
                (spec_latest(old(self)@) + amount) as u64,
                max_chunks as nat,
            ),
            spec_latest(old(self)@) + amount > u64::MAX ==> r == Err::<(), Error>(
                Error::Overflow,
            ) && final(self)@ == old(self)@,
    {
        let latest: u64 = match self.latest_staked_value() {
            Some(v) => v,
            None => 0,
        };
        match latest.checked_add(amount) {
            Some(new_value) => {
                self.record(round, new_value, max_chunks);
                Ok(())
            },
            None => Err(Error::Overflow),
        }
    }

    /// Takes `amount` off the latest value, recorded under `round` with the
    /// same merge-at-round semantics as `stake`. Fails with `Underflow`,
    /// touching nothing, when `amount` exceeds the latest recorded value.
    pub fn unstake(&mut self, round: u64, amount: u64, max_chunks: usize) -> (r: Result<(), Error>)
        requires
            checkpoints_wf(old(self)@, max_chunks as nat),
            max_chunks >= 1,
            old(self)@.len() > 0,
            old(self)@.last().round <= round,
        ensures
            amount <= spec_latest(old(self)@) ==> r == Ok::<(), Error>(()) && final(self)@
                == spec_record(
                old(self)@,
                round,
                (spec_latest(old(self)@) - amount) as u64,
                max_chunks as nat,
            ),
            amount > spec_latest(old(self)@) ==> r == Err::<(), Error>(Error::Underflow)
                && final(self)@ == old(self)@,
    {
        let latest: u64 = self.checkpoints[self.checkpoints.len() - 1].value;
        if amount > latest {
            return Err(Error::Underflow);
        }
        self.record(round, latest - amount, max_chunks);
        Ok(())
    }
}

} // verus!
