//! The ledger: the whole accounting core in one structure, with the
//! cross-entity invariant, exact contracts for every operation, and the
//! round-boundary snapshot transition.

use vstd::prelude::*;
use crate::errors::Error;
use crate::round::Round;
use crate::stake_state::{Checkpoint, StakeState, checkpoints_wf, spec_latest, spec_record};
use crate::accounts::{
    CreatorInfo, PositionEntry, StakerInfo, creators_unique, has_creator, creator_index,
    lemma_creator_index, stakers_unique, has_staker, staker_index, lemma_staker_index,
    positions_unique, has_position, position_index, lemma_position_index, positions_sum,
    pair_value, col_sum, col_count, creators_sum, stakers_total_sum, pairs_sum, staker_wf,
    position_latest_fn, col_value_fn, col_open_fn, creator_staked_fn, staker_total_fn,
    staker_positions_fn, lemma_pair_value_update, lemma_pair_value_push,
    lemma_position_terms_nonneg,
};
use crate::sums::{
    sum_by, lemma_sum_by_update, lemma_sum_by_push, lemma_sum_by_remove, lemma_sum_by_nonneg,
    lemma_sum_by_bound, lemma_sum_by_congruence, lemma_sum_by_all_zero,
};

verus! {

/// One slot of the per-round history of the global stake aggregate. Written
/// once when its round begins and immutable from that point on.
#[derive(Clone, Copy, PartialEq, Eq, Structural, Debug)]
pub struct SnapshotEntry {
    /// The round this snapshot belongs to.
    pub round: u64,
    /// The value of `total_staked` observed when that round began.
    pub total: u64,
}

/// Snapshots are ordered by strictly increasing round and never run ahead of
/// the current round.
pub open spec fn snapshots_wf(s: Seq<SnapshotEntry>, round_index: u64) -> bool {
    &&& forall|i: int, j: int| 0 <= i < j < s.len() ==> s[i].round < s[j].round
    &&& forall|i: int| 0 <= i < s.len() ==> (#[trigger] s[i]).round <= round_index
}

pub open spec fn has_snapshot(s: Seq<SnapshotEntry>, round: u64) -> bool {
    exists|i: int| 0 <= i < s.len() && s[i].round == round
}

pub open spec fn snapshot_index(s: Seq<SnapshotEntry>, round: u64) -> int {
    choose|i: int| 0 <= i < s.len() && s[i].round == round
}

/// With strictly increasing rounds, `snapshot_index` is the one index
/// holding `round`.
pub proof fn lemma_snapshot_index(s: Seq<SnapshotEntry>, round_index: u64, round: u64)
    requires
        snapshots_wf(s, round_index),
        has_snapshot(s, round),
    ensures
        0 <= snapshot_index(s, round) < s.len(),
        s[snapshot_index(s, round)].round == round,
        forall|j: int| 0 <= j < s.len() && s[j].round == round ==> j == snapshot_index(s, round),
{
    let i = snapshot_index(s, round);
    assert(0 <= i < s.len() && s[i].round == round);
    assert forall|j: int| 0 <= j < s.len() && s[j].round == round implies j == i by {
        if j < i {
            assert(s[j].round < s[i].round);
        } else if i < j {
            assert(s[i].round < s[j].round);
        }
    }
}

/// The round-aware stake accounting core: per-account aggregate records,
/// per-pair checkpoint histories, the global aggregate, the live round and
/// its snapshot history, plus the configuration they are validated against.
pub struct Ledger {
    /// Smallest amount a single stake call may add, and the floor under
    /// which a partial withdrawal may not drag a remaining position.
    pub min_stake: u64,
    /// Deposit the external custodian reserves when a creator registers.
    pub creator_registration_deposit: u64,
    /// Capacity of each pair's checkpoint queue.
    pub max_unlocking_chunks: usize,
    /// The live round.
    pub round: Round,
    /// Global aggregate: the sum of all creators' `staked_amount`.
    pub total_staked: u64,
    /// One record per registered creator.
    pub creators: Vec<CreatorInfo>,
    /// One record per account that ever staked; never removed.
    pub stakers: Vec<StakerInfo>,
    /// Append-only history: `total_staked` as observed at the start of each
    /// round reached so far.
    pub staked_per_round: Vec<SnapshotEntry>,
}

impl Ledger {
    /// The well-formedness invariant tying all entities together. It holds
    /// after construction and is preserved by every operation:
    /// ids and position keys are unique; every staker's `total` and `active`
    /// equal the sum of its latest position values; every creator's
    /// `staked_amount` and `stakers_count` equal the column sum and the open
    /// position count over all stakers; positions against unregistered
    /// creators hold nothing; and `total_staked` equals the creator-side and
    /// the staker-side global sums.
    pub open spec fn wf(self) -> bool {
        &&& self.max_unlocking_chunks >= 1
        &&& self.round.length >= 1
        &&& creators_unique(self.creators@)
        &&& stakers_unique(self.stakers@)
        &&& forall|i: int|
            0 <= i < self.stakers@.len() ==> staker_wf(
                #[trigger] self.stakers@[i],
                self.max_unlocking_chunks as nat,
                self.round.index,
            )
        &&& forall|i: int|
            0 <= i < self.creators@.len() ==> (#[trigger] self.creators@[i]).staked_amount
                == col_sum(self.stakers@, self.creators@[i].id)
        &&& forall|i: int|
            0 <= i < self.creators@.len() ==> (#[trigger] self.creators@[i]).stakers_count
                == col_count(self.stakers@, self.creators@[i].id)
        &&& forall|c: u64|
            !has_creator(self.creators@, c) ==> #[trigger] col_sum(self.stakers@, c) == 0
        &&& self.total_staked == creators_sum(self.creators@)
        &&& self.total_staked == stakers_total_sum(self.stakers@)
        &&& snapshots_wf(self.staked_per_round@, self.round.index)
    }

    // -----------------------------------------------------------------------
    // Observations: how contracts speak about the state
    // -----------------------------------------------------------------------

    /// The record of a registered creator, if any.
    pub open spec fn creator_record(self, id: u64) -> Option<CreatorInfo> {
        if has_creator(self.creators@, id) {
            Some(self.creators@[creator_index(self.creators@, id)])
        } else {
            None
        }
    }

    /// The record of a known staker, if any.
    pub open spec fn staker_record(self, id: u64) -> Option<StakerInfo> {
        if has_staker(self.stakers@, id) {
            Some(self.stakers@[staker_index(self.stakers@, id)])
        } else {
            None
        }
    }

    /// The checkpoint history of one (staker, creator) pair; empty when the
    /// staker or the position does not exist.
    pub open spec fn pair_checkpoints(self, staker: u64, creator: u64) -> Seq<Checkpoint> {
        match self.staker_record(staker) {
            Some(st) => if has_position(st.stake_per_creator@, creator) {
                st.stake_per_creator@[position_index(st.stake_per_creator@, creator)].state@
            } else {
                Seq::<Checkpoint>::empty()
            },
            None => Seq::<Checkpoint>::empty(),
        }
    }

    /// The current stake of one (staker, creator) pair; zero when no
    /// position exists.
    pub open spec fn pair_latest(self, staker: u64, creator: u64) -> int {
        spec_latest(self.pair_checkpoints(staker, creator))
    }

    /// The `total` counter of a staker, zero when no record exists.
    pub open spec fn staker_total(self, id: u64) -> int {
        match self.staker_record(id) {
            Some(st) => st.total as int,
            None => 0,
        }
    }

    /// The snapshot taken when `round` began, if that round was reached.
    pub open spec fn snapshot_at(self, round: u64) -> Option<u64> {
        if has_snapshot(self.staked_per_round@, round) {
            Some(self.staked_per_round@[snapshot_index(self.staked_per_round@, round)].total)
        } else {
            None
        }
    }

    /// The configuration is never changed by an operation.
    pub open spec fn same_config(pre: Ledger, post: Ledger) -> bool {
        &&& post.min_stake == pre.min_stake
        &&& post.creator_registration_deposit == pre.creator_registration_deposit
        &&& post.max_unlocking_chunks == pre.max_unlocking_chunks
    }

    // -----------------------------------------------------------------------
    // Construction
    // -----------------------------------------------------------------------

    /// A fresh ledger with no creators, no stakers and nothing staked,
    /// starting in round one at `first_block`.
    pub fn new(
        min_stake: u64,
        creator_registration_deposit: u64,
        max_unlocking_chunks: usize,
        round_length: u64,
        first_block: u64,
    ) -> (l: Ledger)
        requires
            max_unlocking_chunks >= 1,
            round_length >= 1,
        ensures
            l.wf(),
            l.min_stake == min_stake,
            l.creator_registration_deposit == creator_registration_deposit,
            l.max_unlocking_chunks == max_unlocking_chunks,
            l.round == (Round { index: 1, first_block, length: round_length }),
            l.total_staked == 0,
            l.creators@ =~= Seq::<CreatorInfo>::empty(),
            l.stakers@ =~= Seq::<StakerInfo>::empty(),
            l.staked_per_round@ =~= Seq::<SnapshotEntry>::empty(),
    {
        Ledger {
            min_stake,
            creator_registration_deposit,
            max_unlocking_chunks,
            round: Round { index: 1, first_block, length: round_length },
            total_staked: 0,
            creators: Vec::new(),
            stakers: Vec::new(),
            staked_per_round: Vec::new(),
        }
    }

    // -----------------------------------------------------------------------
    // Lookup helpers
    // -----------------------------------------------------------------------

    /// Index of the creator record with this id, if registered.
    fn find_creator(v: &Vec<CreatorInfo>, id: u64) -> (r: Option<usize>)
        ensures
            r is Some ==> 0 <= r->Some_0 < v@.len() && v@[r->Some_0 as int].id == id,
            r is None ==> !has_creator(v@, id),
    {
        let n = v.len();
        let mut i: usize = 0;
        while i < n
            invariant
                n == v@.len(),
                0 <= i <= n,
                forall|j: int| 0 <= j < i ==> v@[j].id != id,
            decreases n - i,
        {
            if v[i].id == id {
                return Some(i);
            }
            i += 1;
        }
        None
    }

    /// Index of the staker record with this id, if known.
    fn find_staker(v: &Vec<StakerInfo>, id: u64) -> (r: Option<usize>)
        ensures
            r is Some ==> 0 <= r->Some_0 < v@.len() && v@[r->Some_0 as int].id == id,
            r is None ==> !has_staker(v@, id),
    {
        let n = v.len();
        let mut i: usize = 0;
        while i < n
            invariant
                n == v@.len(),
                0 <= i <= n,
                forall|j: int| 0 <= j < i ==> v@[j].id != id,
            decreases n - i,
        {
            if v[i].id == id {
                return Some(i);
            }
            i += 1;
        }
        None
    }

    /// Index of the position a staker holds against this creator, if any.
    fn find_position(v: &Vec<PositionEntry>, creator: u64) -> (r: Option<usize>)
        ensures
            r is Some ==> 0 <= r->Some_0 < v@.len() && v@[r->Some_0 as int].creator == creator,
            r is None ==> !has_position(v@, creator),
    {
        let n = v.len();
        let mut i: usize = 0;
        while i < n
            invariant
                n == v@.len(),
                0 <= i <= n,
                forall|j: int| 0 <= j < i ==> v@[j].creator != creator,
            decreases n - i,
        {
            if v[i].creator == creator {
                return Some(i);
            }
            i += 1;
        }
        None
    }

    // -----------------------------------------------------------------------
    // Queries
    // -----------------------------------------------------------------------

    /// Whether this account is a registered creator.
    pub fn is_creator(&self, who: u64) -> (r: bool)
        ensures
            r == has_creator(self.creators@, who),
    {
        match Self::find_creator(&self.creators, who) {
            Some(_) => true,
            None => false,
        }
    }

    /// The current stake one staker holds against one creator: the latest
    /// checkpoint of the pair's history, or `None` when the staker holds no
    /// position for this creator.
    pub fn staked_value(&self, staker: u64, creator: u64) -> (r: Option<u64>)
        requires
            self.wf(),
        ensures
            r is Some <==> self.pair_checkpoints(staker, creator).len() > 0,
            r is Some ==> r->Some_0 == self.pair_latest(staker, creator),
            r is None ==> self.pair_latest(staker, creator) == 0,
    {
        let si = match Self::find_staker(&self.stakers, staker) {
            Some(i) => i,
            None => {
                return None;
            },
        };
        proof {
            lemma_staker_index(self.stakers@, staker);
        }
        let st = &self.stakers[si];
        let pi = match Self::find_position(&st.stake_per_creator, creator) {
            Some(i) => i,
            None => {
                return None;
            },
        };
        proof {
            lemma_position_index(st.stake_per_creator@, creator);
        }
        st.stake_per_creator[pi].state.latest_staked_value()
    }

    /// The stake one staker held against one creator as of `round`: the
    /// last checkpoint of the pair's history at or before that round, or
    /// `None` when the pair has no history reaching back that far.
    pub fn staked_value_at_round(&self, staker: u64, creator: u64, round: u64) -> (r: Option<u64>)
        requires
            self.wf(),
        ensures
            r == crate::stake_state::spec_value_at(self.pair_checkpoints(staker, creator), round),
    {
        let si = match Self::find_staker(&self.stakers, staker) {
            Some(i) => i,
            None => {
                return None;
            },
        };
        proof {
            lemma_staker_index(self.stakers@, staker);
        }
        let st = &self.stakers[si];
        let pi = match Self::find_position(&st.stake_per_creator, creator) {
            Some(i) => i,
            None => {
                return None;
            },
        };
        proof {
            lemma_position_index(st.stake_per_creator@, creator);
        }
        st.stake_per_creator[pi].state.staked_value_at_round(round)
    }

    /// The snapshot of `total_staked` taken when `round` began, or `None`
    /// when that round was never reached (or lies before snapshotting began).
    pub fn staked_per_round(&self, round: u64) -> (r: Option<u64>)
        requires
            self.wf(),
        ensures
            r == self.snapshot_at(round),
    {
        let n = self.staked_per_round.len();
        let mut i: usize = 0;
        while i < n
            invariant
                self.wf(),
                n == self.staked_per_round@.len(),
                0 <= i <= n,
                forall|j: int| 0 <= j < i ==> self.staked_per_round@[j].round != round,
            decreases n - i,
        {
            if self.staked_per_round[i].round == round {
                proof {
                    lemma_snapshot_index(self.staked_per_round@, self.round.index, round);
                }
                return Some(self.staked_per_round[i].total);
            }
            i += 1;
        }
        None
    }

    // -----------------------------------------------------------------------
    // Creator registration
    // -----------------------------------------------------------------------

    /// Registers `creator`, recording the configured registration deposit
    /// (reserved by the external custodian around this call). Fails with
    /// `CreatorAlreadyRegistered` when a record already exists.
    pub fn register_creator(&mut self, creator: u64) -> (r: Result<(), Error>)
        requires
            old(self).wf(),
        ensures
            final(self).wf(),
            has_creator(old(self).creators@, creator) ==> r == Err::<(), Error>(
                Error::CreatorAlreadyRegistered,
            ) && *final(self) == *old(self),
            !has_creator(old(self).creators@, creator) ==> r == Ok::<(), Error>(())
                && final(self).creators@ == old(self).creators@.push(
                CreatorInfo {
                    id: creator,
                    registration_deposit: old(self).creator_registration_deposit,
                    staked_amount: 0,
                    stakers_count: 0,
                },
            ),
            final(self).stakers@ == old(self).stakers@,
            final(self).total_staked == old(self).total_staked,
            final(self).round == old(self).round,
            final(self).staked_per_round@ == old(self).staked_per_round@,
            Self::same_config(*old(self), *final(self)),
            forall|c2: u64|
                c2 != creator ==> final(self).creator_record(c2) == old(self).creator_record(c2),
            !has_creator(old(self).creators@, creator) ==> final(self).creator_record(creator)
                == Some(
                CreatorInfo {
                    id: creator,
                    registration_deposit: old(self).creator_registration_deposit,
                    staked_amount: 0,
                    stakers_count: 0,
                },
            ),
    {
        if let Some(_) = Self::find_creator(&self.creators, creator) {
            proof {
                assert(has_creator(self.creators@, creator));
            }
            return Err(Error::CreatorAlreadyRegistered);
        }
        let ghost l0 = *self;
        let info = CreatorInfo {
            id: creator,
            registration_deposit: self.creator_registration_deposit,
            staked_amount: 0,
            stakers_count: 0,
        };
        self.creators.push(info);
        proof {
            let s1 = l0.creators@;
            let s2 = self.creators@;
            assert(s2 == s1.push(info));
            // uniqueness: the new id was absent
            assert forall|i: int, j: int| 0 <= i < j < s2.len() implies s2[i].id != s2[j].id by {
                if j == s1.len() {
                    assert(s2[i] == s1[i]);
                } else {
                    assert(s1[i].id != s1[j].id);
                }
            }
            // the new record's aggregates match its (empty) column
            assert(col_sum(l0.stakers@, creator) == 0);
            assert forall|j: int| 0 <= j < l0.stakers@.len() implies #[trigger] col_open_fn(
                creator,
            )(l0.stakers@[j]) == 0 by {
                assert(col_value_fn(creator)(l0.stakers@[j]) == pair_value(
                    l0.stakers@[j].stake_per_creator@,
                    creator,
                ));
                assert forall|k: int| 0 <= k < l0.stakers@.len() implies #[trigger] col_value_fn(
                    creator,
                )(l0.stakers@[k]) >= 0 by {
                    assert(col_value_fn(creator)(l0.stakers@[k]) == pair_value(
                        l0.stakers@[k].stake_per_creator@,
                        creator,
                    ));
                }
                lemma_sum_by_bound(l0.stakers@, j, col_value_fn(creator));
                lemma_sum_by_nonneg(l0.stakers@, col_value_fn(creator));
                assert(pair_value(l0.stakers@[j].stake_per_creator@, creator) == 0);
            }
            lemma_sum_by_all_zero(l0.stakers@, col_open_fn(creator));
            assert(col_count(l0.stakers@, creator) == 0);
            // global sum gains a zero term
            lemma_sum_by_push(s1, info, creator_staked_fn());
            assert(creators_sum(s2) == creators_sum(s1));
            // every pre-existing record still matches its column
            assert forall|i: int| 0 <= i < s2.len() implies (#[trigger] s2[i]).staked_amount
                == col_sum(self.stakers@, s2[i].id) && s2[i].stakers_count == col_count(
                self.stakers@,
                s2[i].id,
            ) by {
                if i < s1.len() {
                    assert(s2[i] == s1[i]);
                } else {
                    assert(s2[i] == info);
                }
            }
            // unregistered creators still hold nothing
            assert forall|c: u64| !has_creator(s2, c) implies #[trigger] col_sum(
                self.stakers@,
                c,
            ) == 0 by {
                if has_creator(s1, c) {
                    lemma_creator_index(s1, c);
                    let i = creator_index(s1, c);
                    assert(s2[i].id == c);
                    assert(has_creator(s2, c));
                }
            }
            // the new record is found at the new index
            lemma_creator_index(s2, creator);
            assert(s2[s1.len() as int].id == creator);
            assert(has_creator(s2, creator));
            assert(self.creator_record(creator) == Some(info));
            // other records are untouched
            assert forall|c2: u64| c2 != creator implies self.creator_record(c2)
                == l0.creator_record(c2) by {
                if has_creator(s1, c2) {
                    lemma_creator_index(s1, c2);
                    let i = creator_index(s1, c2);
                    assert(s2[i].id == c2);
                    assert(has_creator(s2, c2));
                    lemma_creator_index(s2, c2);
                    assert(creator_index(s2, c2) == i);
                } else {
                    if has_creator(s2, c2) {
                        let i = creator_index(s2, c2);
                        lemma_creator_index(s2, c2);
                        assert(i < s1.len());
                        assert(s1[i].id == c2);
                    }
                }
            }
        }
        Ok(())
    }

    /// Unregisters `creator` and returns the deposit the external custodian
    /// should release. Fails with `CreatorDNE` when no record exists and
    /// with `CreatorStakeNotZero` while any position against the creator is
    /// still open: every staker must have withdrawn first, so no stake is
    /// ever left pointing at a removed record.
    pub fn unregister_creator(&mut self, creator: u64) -> (r: Result<u64, Error>)
        requires
            old(self).wf(),
        ensures
            final(self).wf(),
            !has_creator(old(self).creators@, creator) ==> r == Err::<u64, Error>(Error::CreatorDNE)
                && *final(self) == *old(self),
            has_creator(old(self).creators@, creator) && old(self).creator_record(
                creator,
            )->Some_0.staked_amount != 0 ==> r == Err::<u64, Error>(Error::CreatorStakeNotZero)
                && *final(self) == *old(self),
            has_creator(old(self).creators@, creator) && old(self).creator_record(
                creator,
            )->Some_0.staked_amount == 0 ==> {
                &&& r == Ok::<u64, Error>(
                    old(self).creator_record(creator)->Some_0.registration_deposit,
                )
                &&& final(self).creators@ == old(self).creators@.remove(
                    creator_index(old(self).creators@, creator),
                )
                &&& final(self).creator_record(creator) is None
                &&& forall|c2: u64|
                    c2 != creator ==> final(self).creator_record(c2) == old(self).creator_record(
                        c2,
                    )
            },
            final(self).stakers@ == old(self).stakers@,
            final(self).total_staked == old(self).total_staked,
            final(self).round == old(self).round,
            final(self).staked_per_round@ == old(self).staked_per_round@,
            Self::same_config(*old(self), *final(self)),
    {
        let ci = match Self::find_creator(&self.creators, creator) {
            Some(i) => i,
            None => {
                return Err(Error::CreatorDNE);
            },
        };
        proof {
            lemma_creator_index(self.creators@, creator);
            assert(creator_index(self.creators@, creator) == ci);
        }
        let info = self.creators[ci];
        if info.staked_amount != 0 {
            return Err(Error::CreatorStakeNotZero);
        }
        let ghost l0 = *self;
        self.creators.remove(ci);
        proof {
            let s1 = l0.creators@;
            let s2 = self.creators@;
            assert(s2 == s1.remove(ci as int));
            // indices shift down past the removed slot
            assert(forall|j: int| 0 <= j < ci ==> s2[j] == s1[j]);
            assert(forall|j: int| ci <= j < s2.len() ==> s2[j] == s1[j + 1]);
            assert forall|i: int, j: int| 0 <= i < j < s2.len() implies s2[i].id != s2[j].id by {
                let i1: int = if i < ci { i } else { i + 1 };
                let j1: int = if j < ci { j } else { j + 1 };
                assert(s1[i1].id != s1[j1].id);
            }
            lemma_sum_by_remove(s1, ci as int, creator_staked_fn());
            assert(creators_sum(s2) == creators_sum(s1));
            assert forall|i: int| 0 <= i < s2.len() implies (#[trigger] s2[i]).staked_amount
                == col_sum(self.stakers@, s2[i].id) && s2[i].stakers_count == col_count(
                self.stakers@,
                s2[i].id,
            ) by {
                let i1: int = if i < ci { i } else { i + 1 };
                assert(s2[i] == s1[i1]);
            }
            // the removed creator's column was empty, and stays accounted
            assert forall|c: u64| !has_creator(s2, c) implies #[trigger] col_sum(
                self.stakers@,
                c,
            ) == 0 by {
                if c == creator {
                    assert(s1[ci as int].staked_amount == col_sum(l0.stakers@, creator));
                } else {
                    if has_creator(s1, c) {
                        let k = creator_index(s1, c);
                        lemma_creator_index(s1, c);
                        assert(k != ci);
                        let k2: int = if k < ci { k } else { k - 1 };
                        assert(s2[k2].id == c);
                        assert(has_creator(s2, c));
                    }
                }
            }
            // the removed record is gone...
            if has_creator(s2, creator) {
                let k = creator_index(s2, creator);
                assert(0 <= k < s2.len() && s2[k].id == creator);
                let k1: int = if k < ci { k } else { k + 1 };
                assert(s1[k1].id == creator);
                lemma_creator_index(s1, creator);
                assert(false);
            }
            // ...and the others are untouched
            assert forall|c2: u64| c2 != creator implies self.creator_record(c2)
                == l0.creator_record(c2) by {
                if has_creator(s1, c2) {
                    lemma_creator_index(s1, c2);
                    let k = creator_index(s1, c2);
                    assert(k != ci);
                    let k2: int = if k < ci { k } else { k - 1 };
                    assert(s2[k2].id == c2);
                    assert(has_creator(s2, c2));
                    lemma_creator_index(s2, c2);
                    assert(creator_index(s2, c2) == k2);
                    assert(s2[k2] == s1[k]);
                } else {
                    if has_creator(s2, c2) {
                        let k = creator_index(s2, c2);
                        lemma_creator_index(s2, c2);
                        let k1: int = if k < ci { k } else { k + 1 };
                        assert(s1[k1].id == c2);
                    }
                }
            }
        }
        Ok(info.registration_deposit)
    }

    // -----------------------------------------------------------------------
    // Staking
    // -----------------------------------------------------------------------

    /// Exactly when `stake` succeeds, and which error it reports otherwise,
    /// in the order the checks are made.
    pub open spec fn stake_outcome(self, creator: u64, amount: u64, can_cover: bool) -> Result<
        (),
        Error,
    > {
        if amount < self.min_stake {
            Err(Error::StakeTooLow)
        } else if !can_cover {
            Err(Error::InsufficientBalance)
        } else if !has_creator(self.creators@, creator) {
            Err(Error::CreatorDNE)
        } else if self.total_staked + amount > u64::MAX {
            Err(Error::Overflow)
        } else {
            Ok(())
        }
    }

    /// What a successful `stake` call does to the state: `amount` flows into
    /// the global aggregate, the creator's column, the staker's counters and
    /// the pair's checkpoint history, and nothing else moves.
    pub open spec fn stake_applied(
        pre: Ledger,
        post: Ledger,
        staker: u64,
        creator: u64,
        amount: u64,
    ) -> bool {
        let opened = pre.pair_latest(staker, creator) == 0 && amount > 0;
        let pre_creator = pre.creator_record(creator)->Some_0;
        &&& Self::same_config(pre, post)
        &&& post.round == pre.round
        &&& post.staked_per_round@ == pre.staked_per_round@
        &&& post.total_staked == pre.total_staked + amount
        &&& has_creator(pre.creators@, creator)
        &&& post.creator_record(creator) == Some(
            CreatorInfo {
                id: creator,
                registration_deposit: pre_creator.registration_deposit,
                staked_amount: (pre_creator.staked_amount + amount) as u64,
                stakers_count: (pre_creator.stakers_count + if opened {
                    1int
                } else {
                    0int
                }) as u64,
            },
        )
        &&& forall|c2: u64| c2 != creator ==> post.creator_record(c2) == pre.creator_record(c2)
        &&& has_staker(post.stakers@, staker)
        &&& post.staker_total(staker) == pre.staker_total(staker) + amount
        &&& post.staker_record(staker)->Some_0.active == post.staker_record(staker)->Some_0.total
        &&& forall|a2: u64| a2 != staker ==> post.staker_record(a2) == pre.staker_record(a2)
        &&& post.pair_checkpoints(staker, creator) == spec_record(
            pre.pair_checkpoints(staker, creator),
            pre.round.index,
            (pre.pair_latest(staker, creator) + amount) as u64,
            pre.max_unlocking_chunks as nat,
        )
        &&& forall|a2: u64, c2: u64|
            !(a2 == staker && c2 == creator) ==> post.pair_checkpoints(a2, c2)
                == pre.pair_checkpoints(a2, c2)
    }

    /// Stakes `amount` for `staker` against `creator` in the current round.
    ///
    /// `can_cover` is the external balance custodian's verdict on whether
    /// the staker's free balance covers `amount`; the custodian reserves the
    /// funds around this call. All checks precede the first write: a failed
    /// call returns its error with the state untouched, and a successful
    /// call commits everywhere at once.
    ///
    /// A stake that lifts a fresh or fully-drained pair above zero counts
    /// the staker into the creator's open-position count, so the count stays
    /// exact even when a drained position is staked again.
    #[verifier::rlimit(100)]
    pub fn stake(&mut self, staker: u64, creator: u64, amount: u64, can_cover: bool) -> (r:
        Result<(), Error>)
        requires
            old(self).wf(),
        ensures
            final(self).wf(),
            r == old(self).stake_outcome(creator, amount, can_cover),
            r is Err ==> *final(self) == *old(self),
            r is Ok ==> Self::stake_applied(*old(self), *final(self), staker, creator, amount),
    {
        if amount < self.min_stake {
            return Err(Error::StakeTooLow);
        }
        if !can_cover {
            return Err(Error::InsufficientBalance);
        }
        let ci = match Self::find_creator(&self.creators, creator) {
            Some(i) => i,
            None => {
                return Err(Error::CreatorDNE);
            },
        };
        let new_total = match self.total_staked.checked_add(amount) {
            Some(t) => t,
            None => {
                return Err(Error::Overflow);
            },
        };
        let ghost l0 = *old(self);
        let ghost s1 = l0.stakers@;
        let ghost max = l0.max_unlocking_chunks as nat;
        proof {
            lemma_creator_index(l0.creators@, creator);
            assert(creator_index(l0.creators@, creator) == ci);
        }
        let round_idx = self.round.index;
        let maxc = self.max_unlocking_chunks;
        let opened: bool;

        match Self::find_staker(&self.stakers, staker) {
            Some(si) => {
                proof {
                    lemma_staker_index(s1, staker);
                    assert(staker_index(s1, staker) == si);
                }
                let mut st = self.stakers.remove(si);
                let ghost st1 = st;
                let ghost ps1 = st1.stake_per_creator@;
                proof {
                    assert(staker_wf(st1, max, round_idx));
                    assert forall|j: int|
                        0 <= j < s1.len() implies #[trigger] staker_total_fn()(s1[j]) >= 0 by {
                        assert(staker_total_fn()(s1[j]) == s1[j].total as int);
                    }
                    lemma_sum_by_bound(s1, si as int, staker_total_fn());
                    assert(staker_total_fn()(s1[si as int]) == st1.total as int);
                    assert(st1.total + amount <= u64::MAX);
                }
                match Self::find_position(&st.stake_per_creator, creator) {
                    Some(pi) => {
                        proof {
                            lemma_position_index(ps1, creator);
                            assert(position_index(ps1, creator) == pi);
                        }
                        let mut e = st.stake_per_creator.remove(pi);
                        let latest_old: u64 = match e.state.latest_staked_value() {
                            Some(v) => v,
                            None => 0,
                        };
                        opened = latest_old == 0 && amount > 0;
                        proof {
                            // the pair's value is bounded by the staker's
                            // total, which is bounded by the global sum
                            lemma_position_terms_nonneg(ps1);
                            lemma_sum_by_bound(ps1, pi as int, position_latest_fn());
                            assert(position_latest_fn()(ps1[pi as int]) == spec_latest(
                                ps1[pi as int].state@,
                            ));
                            assert(latest_old + amount <= u64::MAX);
                        }
                        e.state.record(round_idx, latest_old + amount, maxc);
                        st.stake_per_creator.insert(pi, e);
                        st.total = st.total + amount;
                        st.active = st.active + amount;
                        self.stakers.insert(si, st);
                        proof {
                            let ps2 = self.stakers@[si as int].stake_per_creator@;
                            let st2 = self.stakers@[si as int];
                            let v: u64 = (latest_old + amount) as u64;
                            assert(ps2 =~= ps1.update(pi as int, ps2[pi as int]));
                            assert(ps2[pi as int].creator == creator);
                            assert(ps2[pi as int].state@ == spec_record(
                                ps1[pi as int].state@,
                                round_idx,
                                v,
                                max,
                            ));
                            lemma_pair_value_update(ps1, ps2, pi as int, creator);
                            crate::stake_state::lemma_record_wf(
                                ps1[pi as int].state@,
                                round_idx,
                                v,
                                max,
                            );
                            // the staker record is well-formed again
                            assert forall|j: int|
                                0 <= j < ps2.len() implies checkpoints_wf(
                                (#[trigger] ps2[j]).state@,
                                max,
                            ) && ps2[j].state@.len() >= 1 && ps2[j].state@.last().round
                                <= round_idx by {
                                if j != pi {
                                    assert(ps2[j] == ps1[j]);
                                }
                            }
                            lemma_sum_by_update(ps1, ps2, pi as int, position_latest_fn());
                            assert(position_latest_fn()(ps1[pi as int]) == spec_latest(
                                ps1[pi as int].state@,
                            ));
                            assert(position_latest_fn()(ps2[pi as int]) == spec_latest(
                                ps2[pi as int].state@,
                            ));
                            assert(positions_sum(ps2) == positions_sum(ps1) + amount);
                            assert(staker_wf(st2, max, round_idx));
                            // pair values move only at (staker, creator)
                            assert(pair_value(ps1, creator) == latest_old);
                            assert(pair_value(ps2, creator) == latest_old + amount);
                            assert(self.stakers@ =~= s1.update(si as int, st2));
                            lemma_staker_records_update(s1, self.stakers@, si as int);
                            lemma_col_aggregates_update(s1, self.stakers@, si as int);
                        }
                    },
                    None => {
                        opened = amount > 0;
                        let mut state = StakeState::new();
                        state.record(round_idx, amount, maxc);
                        st.stake_per_creator.push(PositionEntry { creator, state });
                        st.total = st.total + amount;
                        st.active = st.active + amount;
                        self.stakers.insert(si, st);
                        proof {
                            let st2 = self.stakers@[si as int];
                            let ps2 = st2.stake_per_creator@;
                            assert(ps2 =~= ps1.push(ps2.last()));
                            assert(ps2.last().creator == creator);
                            assert(ps2.last().state@ == spec_record(
                                Seq::<Checkpoint>::empty(),
                                round_idx,
                                amount,
                                max,
                            ));
                            lemma_pair_value_push(ps1, ps2.last());
                            crate::stake_state::lemma_record_wf(
                                Seq::<Checkpoint>::empty(),
                                round_idx,
                                amount,
                                max,
                            );
                            assert forall|j: int|
                                0 <= j < ps2.len() implies checkpoints_wf(
                                (#[trigger] ps2[j]).state@,
                                max,
                            ) && ps2[j].state@.len() >= 1 && ps2[j].state@.last().round
                                <= round_idx by {
                                if j != ps1.len() {
                                    assert(ps2[j] == ps1[j]);
                                }
                            }
                            lemma_sum_by_push(ps1, ps2.last(), position_latest_fn());
                            assert(position_latest_fn()(ps2.last()) == spec_latest(
                                ps2.last().state@,
                            ));
                            assert(positions_sum(ps2) == positions_sum(ps1) + amount);
                            assert(staker_wf(st2, max, round_idx));
                            assert(pair_value(ps1, creator) == 0);
                            assert(pair_value(ps2, creator) == amount);
                            assert(self.stakers@ =~= s1.update(si as int, st2));
                            lemma_staker_records_update(s1, self.stakers@, si as int);
                            lemma_col_aggregates_update(s1, self.stakers@, si as int);
                        }
                    },
                }
            },
            None => {
                opened = amount > 0;
                let mut state = StakeState::new();
                state.record(round_idx, amount, maxc);
                let mut ps: Vec<PositionEntry> = Vec::new();
                ps.push(PositionEntry { creator, state });
                let newst = StakerInfo {
                    id: staker,
                    total: amount,
                    active: amount,
                    stake_per_creator: ps,
                };
                self.stakers.push(newst);
                proof {
                    let st2 = self.stakers@.last();
                    let ps2 = st2.stake_per_creator@;
                    assert(ps2 =~= Seq::<PositionEntry>::empty().push(ps2.last()));
                    assert(ps2.last().creator == creator);
                    assert(ps2.last().state@ == spec_record(
                        Seq::<Checkpoint>::empty(),
                        round_idx,
                        amount,
                        max,
                    ));
                    lemma_pair_value_push(Seq::<PositionEntry>::empty(), ps2.last());
                    crate::stake_state::lemma_record_wf(
                        Seq::<Checkpoint>::empty(),
                        round_idx,
                        amount,
                        max,
                    );
                    assert forall|j: int|
                        0 <= j < ps2.len() implies checkpoints_wf((#[trigger] ps2[j]).state@, max)
                        && ps2[j].state@.len() >= 1 && ps2[j].state@.last().round <= round_idx by {
                        assert(ps2[j] == ps2.last());
                    }
                    lemma_sum_by_push(
                        Seq::<PositionEntry>::empty(),
                        ps2.last(),
                        position_latest_fn(),
                    );
                    assert(position_latest_fn()(ps2.last()) == spec_latest(ps2.last().state@));
                    assert(positions_sum(ps2) == amount);
                    assert(staker_wf(st2, max, round_idx));
                    assert(pair_value(ps2, creator) == amount);
                    lemma_staker_records_push(s1, st2);
                    lemma_col_aggregates_push(s1, st2);
                    assert forall|c2: u64|
                        c2 != creator implies pair_value(ps2, c2) == 0 by {}
                }
            },
        }

        // the staker phase in one summary, shared by all three paths
        let ghost s2 = self.stakers@;
        let ghost sidx = staker_index(s2, staker);
        let ghost st2 = s2[sidx];
        proof {
            assert(stakers_unique(s2));
            assert(has_staker(s2, staker));
            lemma_staker_index(s2, staker);
            assert(st2.id == staker);
            assert(st2.total == l0.staker_total(staker) + amount);
            assert(st2.active == st2.total);
            assert(forall|i: int| 0 <= i < s2.len() ==> staker_wf(#[trigger] s2[i], max, round_idx))
                by {
                assert forall|i: int|
                    0 <= i < s2.len() implies staker_wf(#[trigger] s2[i], max, round_idx) by {
                    if i != sidx {
                        if has_staker(s1, staker) {
                            assert(s2[i] == s1[i]);
                        } else {
                            assert(s2[i] == s1[i]);
                        }
                    }
                }
            }
            assert(forall|c2: u64|
                c2 != creator ==> #[trigger] col_sum(s2, c2) == col_sum(s1, c2) && col_count(
                    s2,
                    c2,
                ) == col_count(s1, c2));
            assert(col_sum(s2, creator) == col_sum(s1, creator) + amount);
            assert(col_count(s2, creator) == col_count(s1, creator) + (if opened {
                1int
            } else {
                0int
            }));
            assert(stakers_total_sum(s2) == stakers_total_sum(s1) + amount);
        }
        // creator phase
        let mut cinfo = self.creators[ci];
        proof {
            // the creator's column is bounded by the global sum of columns
            assert forall|j: int|
                0 <= j < l0.creators@.len() implies #[trigger] creator_staked_fn()(l0.creators@[j])
                >= 0 by {
                assert(creator_staked_fn()(l0.creators@[j]) == l0.creators@[j].staked_amount as int);
            }
            lemma_sum_by_bound(l0.creators@, ci as int, creator_staked_fn());
            assert(creator_staked_fn()(l0.creators@[ci as int])
                == l0.creators@[ci as int].staked_amount as int);
        }
        cinfo.staked_amount = cinfo.staked_amount + amount;
        if opened {
            proof {
                // an open position holds at least one unit, so the open
                // count is bounded by the column sum
                assert forall|j: int|
                    0 <= j < s1.len() implies #[trigger] col_open_fn(creator)(s1[j])
                    <= col_value_fn(creator)(s1[j]) by {
                    assert(col_open_fn(creator)(s1[j]) == if pair_value(
                        s1[j].stake_per_creator@,
                        creator,
                    ) > 0 {
                        1int
                    } else {
                        0int
                    });
                    assert(col_value_fn(creator)(s1[j]) == pair_value(
                        s1[j].stake_per_creator@,
                        creator,
                    ));
                    assert(pair_value(s1[j].stake_per_creator@, creator) >= 0);
                }
                crate::sums::lemma_sum_by_pairwise_le(
                    s1,
                    col_open_fn(creator),
                    col_value_fn(creator),
                );
                assert(col_count(s1, creator) <= col_sum(s1, creator));
                assert(cinfo.stakers_count + 1 <= u64::MAX);
            }
            cinfo.stakers_count = cinfo.stakers_count + 1;
        }
        self.creators[ci] = cinfo;
        self.total_staked = new_total;
        proof {
            lemma_creator_records_update(l0.creators@, self.creators@, ci as int);
            lemma_sum_by_update(l0.creators@, self.creators@, ci as int, creator_staked_fn());
            assert(creator_staked_fn()(l0.creators@[ci as int])
                == l0.creators@[ci as int].staked_amount as int);
            assert(creator_staked_fn()(self.creators@[ci as int])
                == self.creators@[ci as int].staked_amount as int);
            // well-formedness of the committed state
            assert forall|i: int|
                0 <= i < self.creators@.len() implies (#[trigger] self.creators@[i]).staked_amount
                == col_sum(s2, self.creators@[i].id) && self.creators@[i].stakers_count
                == col_count(s2, self.creators@[i].id) by {
                if i == ci {
                    assert(self.creators@[i].id == creator);
                } else {
                    assert(self.creators@[i] == l0.creators@[i]);
                    assert(l0.creators@[i].id != creator) by {
                        if l0.creators@[i].id == creator {
                            lemma_creator_index(l0.creators@, creator);
                        }
                    }
                }
            }
            assert forall|c: u64| !has_creator(self.creators@, c) implies #[trigger] col_sum(
                s2,
                c,
            ) == 0 by {
                assert(c != creator);
                assert(!has_creator(l0.creators@, c));
            }
            assert(self.wf());
            // the committed state is exactly the stake transition
            assert(l0.pair_checkpoints(staker, creator) == (if has_staker(s1, staker)
                && has_position(s1[staker_index(s1, staker)].stake_per_creator@, creator) {
                s1[staker_index(s1, staker)].stake_per_creator@[position_index(
                    s1[staker_index(s1, staker)].stake_per_creator@,
                    creator,
                )].state@
            } else {
                Seq::<Checkpoint>::empty()
            }));
            assert(self.pair_checkpoints(staker, creator) == spec_record(
                l0.pair_checkpoints(staker, creator),
                round_idx,
                (l0.pair_latest(staker, creator) + amount) as u64,
                max,
            )) by {
                lemma_position_index(st2.stake_per_creator@, creator);
            }
            assert forall|a2: u64, c2: u64|
                !(a2 == staker && c2 == creator) implies self.pair_checkpoints(a2, c2)
                == l0.pair_checkpoints(a2, c2) by {
                if a2 == staker {
                    if has_staker(s1, staker) {
                        let st1 = s1[staker_index(s1, staker)];
                        assert(st2.stake_per_creator@ == self.staker_record(
                            staker,
                        )->Some_0.stake_per_creator@);
                        if has_position(st1.stake_per_creator@, c2) {
                            assert(st2.stake_per_creator@[position_index(
                                st2.stake_per_creator@,
                                c2,
                            )] == st1.stake_per_creator@[position_index(
                                st1.stake_per_creator@,
                                c2,
                            )]);
                        }
                    } else {
                        assert(!has_position(st2.stake_per_creator@, c2)) by {
                            if has_position(st2.stake_per_creator@, c2) {
                                lemma_position_index(st2.stake_per_creator@, c2);
                            }
                        }
                    }
                } else {
                    if has_staker(s1, a2) {
                        assert(s2[staker_index(s2, a2)] == s1[staker_index(s1, a2)]);
                    }
                }
            }
            assert forall|a2: u64| a2 != staker implies self.staker_record(a2) == l0.staker_record(
                a2,
            ) by {
                if has_staker(s1, a2) {
                    assert(s2[staker_index(s2, a2)] == s1[staker_index(s1, a2)]);
                }
            }
            assert(Self::stake_applied(l0, *self, staker, creator, amount));
        }
        Ok(())
    }

    // -----------------------------------------------------------------------
    // Unstaking
    // -----------------------------------------------------------------------

    /// Exactly when `unstake` succeeds, and which error it reports
    /// otherwise, in the order the checks are made.
    pub open spec fn unstake_outcome(self, staker: u64, creator: u64, amount: u64) -> Result<
        (),
        Error,
    > {
        if amount == 0 {
            Err(Error::UnstakingWithNoValue)
        } else if !has_staker(self.stakers@, staker) {
            Err(Error::StakerDNE)
        } else if !has_creator(self.creators@, creator) {
            Err(Error::CreatorDNE)
        } else if self.pair_checkpoints(staker, creator).len() == 0 {
            Err(Error::NotStakedForCreator)
        } else if amount > self.pair_latest(staker, creator) {
            Err(Error::Underflow)
        } else if self.pair_latest(staker, creator) - amount < self.min_stake {
            Err(Error::RemainingStakeTooLow)
        } else {
            Ok(())
        }
    }

    /// Exactly when `unstake_all` succeeds (returning the withdrawn value),
    /// and which error it reports otherwise. The implicit amount is the
    /// pair's entire current value, so a position already at zero reports
    /// `UnstakingWithNoValue`.
    pub open spec fn unstake_all_outcome(self, staker: u64, creator: u64) -> Result<u64, Error> {
        if !has_staker(self.stakers@, staker) {
            Err(Error::StakerDNE)
        } else if !has_creator(self.creators@, creator) {
            Err(Error::CreatorDNE)
        } else if self.pair_checkpoints(staker, creator).len() == 0 {
            Err(Error::NotStakedForCreator)
        } else if self.pair_latest(staker, creator) == 0 {
            Err(Error::UnstakingWithNoValue)
        } else {
            Ok(self.pair_latest(staker, creator) as u64)
        }
    }

    /// What a successful withdrawal (`unstake` or `unstake_all`) does to the
    /// state: `amount` flows out of the global aggregate, the creator's
    /// column, the staker's counters and the pair's checkpoint history, and
    /// nothing else moves. A withdrawal down to zero closes the position and
    /// releases one slot of the creator's open-position count.
    pub open spec fn withdraw_applied(
        pre: Ledger,
        post: Ledger,
        staker: u64,
        creator: u64,
        amount: u64,
    ) -> bool {
        let closes = pre.pair_latest(staker, creator) == amount;
        let pre_creator = pre.creator_record(creator)->Some_0;
        &&& Self::same_config(pre, post)
        &&& post.round == pre.round
        &&& post.staked_per_round@ == pre.staked_per_round@
        &&& post.total_staked == pre.total_staked - amount
        &&& has_creator(pre.creators@, creator)
        &&& post.creator_record(creator) == Some(
            CreatorInfo {
                id: creator,
                registration_deposit: pre_creator.registration_deposit,
                staked_amount: (pre_creator.staked_amount - amount) as u64,
                stakers_count: (pre_creator.stakers_count - if closes {
                    1int
                } else {
                    0int
                }) as u64,
            },
        )
        &&& forall|c2: u64| c2 != creator ==> post.creator_record(c2) == pre.creator_record(c2)
        &&& has_staker(post.stakers@, staker)
        &&& post.staker_total(staker) == pre.staker_total(staker) - amount
        &&& post.staker_record(staker)->Some_0.active == post.staker_record(staker)->Some_0.total
        &&& forall|a2: u64| a2 != staker ==> post.staker_record(a2) == pre.staker_record(a2)
        &&& post.pair_checkpoints(staker, creator) == spec_record(
            pre.pair_checkpoints(staker, creator),
            pre.round.index,
            (pre.pair_latest(staker, creator) - amount) as u64,
            pre.max_unlocking_chunks as nat,
        )
        &&& forall|a2: u64, c2: u64|
            !(a2 == staker && c2 == creator) ==> post.pair_checkpoints(a2, c2)
                == pre.pair_checkpoints(a2, c2)
    }

    /// The committed part of a withdrawal, once every check has passed:
    /// takes `amount` off the position at `pi` of the staker at `si`, off
    /// that staker's counters, off the creator record at `ci` and off the
    /// global aggregate, closing the position when it reaches zero.
    #[verifier::rlimit(100)]
    fn apply_withdraw(&mut self, si: usize, ci: usize, pi: usize, amount: u64)
        requires
            old(self).wf(),
            ci < old(self).creators@.len(),
            si < old(self).stakers@.len(),
            pi < old(self).stakers@[si as int].stake_per_creator@.len(),
            old(self).stakers@[si as int].stake_per_creator@[pi as int].creator == old(
                self,
            ).creators@[ci as int].id,
            1 <= amount <= spec_latest(
                old(self).stakers@[si as int].stake_per_creator@[pi as int].state@,
            ),
        ensures
            final(self).wf(),
            Self::withdraw_applied(
                *old(self),
                *final(self),
                old(self).stakers@[si as int].id,
                old(self).creators@[ci as int].id,
                amount,
            ),
    {
        let ghost l0 = *old(self);
        let ghost s1 = l0.stakers@;
        let ghost max = l0.max_unlocking_chunks as nat;
        let ghost staker = s1[si as int].id;
        let ghost creator = l0.creators@[ci as int].id;
        let ghost st1 = s1[si as int];
        let ghost ps1 = st1.stake_per_creator@;
        proof {
            assert(has_staker(s1, staker));
            lemma_staker_index(s1, staker);
            assert(staker_index(s1, staker) == si);
            assert(has_creator(l0.creators@, creator));
            lemma_creator_index(l0.creators@, creator);
            assert(creator_index(l0.creators@, creator) == ci);
            assert(staker_wf(st1, max, self.round.index));
            assert(has_position(ps1, creator));
            lemma_position_index(ps1, creator);
            assert(position_index(ps1, creator) == pi);
        }
        let round_idx = self.round.index;
        let maxc = self.max_unlocking_chunks;
        let mut st = self.stakers.remove(si);
        let mut e = st.stake_per_creator.remove(pi);
        let latest_old: u64 = match e.state.latest_staked_value() {
            Some(v) => v,
            None => 0,
        };
        let remaining = latest_old - amount;
        let closes = remaining == 0;
        e.state.record(round_idx, remaining, maxc);
        st.stake_per_creator.insert(pi, e);
        proof {
            // the staker's counters carry at least the pair's value
            lemma_position_terms_nonneg(ps1);
            lemma_sum_by_bound(ps1, pi as int, position_latest_fn());
            assert(position_latest_fn()(ps1[pi as int]) == spec_latest(ps1[pi as int].state@));
            assert(st.total >= amount);
        }
        st.total = st.total - amount;
        st.active = st.active - amount;
        self.stakers.insert(si, st);
        proof {
            let ps2 = self.stakers@[si as int].stake_per_creator@;
            let st2 = self.stakers@[si as int];
            assert(ps2 =~= ps1.update(pi as int, ps2[pi as int]));
            assert(ps2[pi as int].creator == creator);
            assert(ps2[pi as int].state@ == spec_record(
                ps1[pi as int].state@,
                round_idx,
                remaining,
                max,
            ));
            lemma_pair_value_update(ps1, ps2, pi as int, creator);
            crate::stake_state::lemma_record_wf(ps1[pi as int].state@, round_idx, remaining, max);
            assert forall|j: int|
                0 <= j < ps2.len() implies checkpoints_wf((#[trigger] ps2[j]).state@, max)
                && ps2[j].state@.len() >= 1 && ps2[j].state@.last().round <= round_idx by {
                if j != pi {
                    assert(ps2[j] == ps1[j]);
                }
            }
            lemma_sum_by_update(ps1, ps2, pi as int, position_latest_fn());
            assert(position_latest_fn()(ps1[pi as int]) == spec_latest(ps1[pi as int].state@));
            assert(position_latest_fn()(ps2[pi as int]) == spec_latest(ps2[pi as int].state@));
            assert(positions_sum(ps2) == positions_sum(ps1) - amount);
            assert(staker_wf(st2, max, round_idx));
            assert(pair_value(ps1, creator) == latest_old);
            assert(pair_value(ps2, creator) == remaining);
            assert(self.stakers@ =~= s1.update(si as int, st2));
            lemma_staker_records_update(s1, self.stakers@, si as int);
            lemma_col_aggregates_update(s1, self.stakers@, si as int);
        }
        let ghost s2 = self.stakers@;
        let ghost st2 = s2[si as int];
        let mut cinfo = self.creators[ci];
        proof {
            // the creator's column carries at least the pair's value
            assert forall|j: int|
                0 <= j < s1.len() implies #[trigger] col_value_fn(creator)(s1[j]) >= 0 by {
                assert(col_value_fn(creator)(s1[j]) == pair_value(
                    s1[j].stake_per_creator@,
                    creator,
                ));
            }
            lemma_sum_by_bound(s1, si as int, col_value_fn(creator));
            assert(col_value_fn(creator)(s1[si as int]) == pair_value(ps1, creator));
            assert(cinfo.staked_amount >= amount);
        }
        cinfo.staked_amount = cinfo.staked_amount - amount;
        if closes {
            proof {
                // a closing withdrawal frees exactly one open slot
                assert forall|j: int|
                    0 <= j < s1.len() implies #[trigger] col_open_fn(creator)(s1[j]) >= 0 by {
                    assert(col_open_fn(creator)(s1[j]) == if pair_value(
                        s1[j].stake_per_creator@,
                        creator,
                    ) > 0 {
                        1int
                    } else {
                        0int
                    });
                }
                lemma_sum_by_bound(s1, si as int, col_open_fn(creator));
                assert(col_open_fn(creator)(s1[si as int]) == 1int);
                assert(cinfo.stakers_count >= 1);
            }
            cinfo.stakers_count = cinfo.stakers_count - 1;
        }
        self.creators[ci] = cinfo;
        proof {
            // the global aggregate carries at least the creator's column
            assert forall|j: int|
                0 <= j < l0.creators@.len() implies #[trigger] creator_staked_fn()(l0.creators@[j])
                >= 0 by {
                assert(creator_staked_fn()(l0.creators@[j]) == l0.creators@[j].staked_amount as int);
            }
            lemma_sum_by_bound(l0.creators@, ci as int, creator_staked_fn());
            assert(creator_staked_fn()(l0.creators@[ci as int])
                == l0.creators@[ci as int].staked_amount as int);
            assert(self.total_staked >= amount);
        }
        self.total_staked = self.total_staked - amount;
        proof {
            lemma_creator_records_update(l0.creators@, self.creators@, ci as int);
            lemma_sum_by_update(l0.creators@, self.creators@, ci as int, creator_staked_fn());
            assert(creator_staked_fn()(l0.creators@[ci as int])
                == l0.creators@[ci as int].staked_amount as int);
            assert(creator_staked_fn()(self.creators@[ci as int])
                == self.creators@[ci as int].staked_amount as int);
            // well-formedness of the committed state
            assert forall|i: int|
                0 <= i < self.creators@.len() implies (#[trigger] self.creators@[i]).staked_amount
                == col_sum(s2, self.creators@[i].id) && self.creators@[i].stakers_count
                == col_count(s2, self.creators@[i].id) by {
                if i == ci {
                    assert(self.creators@[i].id == creator);
                } else {
                    assert(self.creators@[i] == l0.creators@[i]);
                    assert(l0.creators@[i].id != creator) by {
                        if l0.creators@[i].id == creator {
                            lemma_creator_index(l0.creators@, creator);
                        }
                    }
                    assert(col_sum(s2, l0.creators@[i].id) == col_sum(s1, l0.creators@[i].id));
                    assert(col_count(s2, l0.creators@[i].id) == col_count(s1, l0.creators@[i].id));
                }
            }
            assert forall|i: int|
                0 <= i < s2.len() implies staker_wf(#[trigger] s2[i], max, round_idx) by {
                if i != si {
                    assert(s2[i] == s1[i]);
                }
            }
            assert forall|c: u64| !has_creator(self.creators@, c) implies #[trigger] col_sum(
                s2,
                c,
            ) == 0 by {
                assert(c != creator);
                assert(!has_creator(l0.creators@, c));
                assert(col_sum(s2, c) == col_sum(s1, c));
            }
            assert(self.wf());
            // the committed state is exactly the withdraw transition
            assert(l0.pair_checkpoints(staker, creator) == ps1[pi as int].state@);
            assert(l0.pair_latest(staker, creator) == latest_old);
            assert(self.pair_checkpoints(staker, creator) == spec_record(
                l0.pair_checkpoints(staker, creator),
                round_idx,
                remaining,
                max,
            )) by {
                lemma_position_index(st2.stake_per_creator@, creator);
            }
            assert forall|a2: u64, c2: u64|
                !(a2 == staker && c2 == creator) implies self.pair_checkpoints(a2, c2)
                == l0.pair_checkpoints(a2, c2) by {
                if a2 == staker {
                    if has_position(ps1, c2) {
                        assert(st2.stake_per_creator@[position_index(st2.stake_per_creator@, c2)]
                            == ps1[position_index(ps1, c2)]);
                    }
                } else {
                    if has_staker(s1, a2) {
                        assert(s2[staker_index(s2, a2)] == s1[staker_index(s1, a2)]);
                    }
                }
            }
            assert forall|a2: u64| a2 != staker implies self.staker_record(a2) == l0.staker_record(
                a2,
            ) by {
                if has_staker(s1, a2) {
                    assert(s2[staker_index(s2, a2)] == s1[staker_index(s1, a2)]);
                }
            }
            assert(Self::withdraw_applied(l0, *self, staker, creator, amount));
        }
    }

    /// Withdraws `amount` from the position `staker` holds against
    /// `creator`, in the current round. The remaining position must stay at
    /// or above the minimum stake: a full exit goes through `unstake_all`.
    /// All checks precede the first write: a failed call returns its error
    /// with the state untouched.
    pub fn unstake(&mut self, staker: u64, creator: u64, amount: u64) -> (r: Result<(), Error>)
        requires
            old(self).wf(),
        ensures
            final(self).wf(),
            r == old(self).unstake_outcome(staker, creator, amount),
            r is Err ==> *final(self) == *old(self),
            r is Ok ==> Self::withdraw_applied(*old(self), *final(self), staker, creator, amount),
    {
        if amount == 0 {
            return Err(Error::UnstakingWithNoValue);
        }
        let si = match Self::find_staker(&self.stakers, staker) {
            Some(i) => i,
            None => {
                return Err(Error::StakerDNE);
            },
        };
        let ci = match Self::find_creator(&self.creators, creator) {
            Some(i) => i,
            None => {
                return Err(Error::CreatorDNE);
            },
        };
        proof {
            lemma_staker_index(self.stakers@, staker);
            assert(staker_index(self.stakers@, staker) == si);
            lemma_creator_index(self.creators@, creator);
        }
        let pi = match Self::find_position(&self.stakers[si].stake_per_creator, creator) {
            Some(i) => i,
            None => {
                return Err(Error::NotStakedForCreator);
            },
        };
        proof {
            lemma_position_index(self.stakers@[si as int].stake_per_creator@, creator);
            assert(position_index(self.stakers@[si as int].stake_per_creator@, creator) == pi);
        }
        let latest: u64 = match self.stakers[si].stake_per_creator[pi].state.latest_staked_value() {
            Some(v) => v,
            None => 0,
        };
        proof {
            assert(self.pair_latest(staker, creator) == latest);
        }
        if amount > latest {
            return Err(Error::Underflow);
        }
        if latest - amount < self.min_stake {
            return Err(Error::RemainingStakeTooLow);
        }
        self.apply_withdraw(si, ci, pi, amount);
        Ok(())
    }

    /// Withdraws the entire current position of `staker` against `creator`
    /// in one step, bypassing the minimum-stake floor — the only path to an
    /// exact-zero remaining position. Returns the withdrawn value for the
    /// external custodian to release.
    pub fn unstake_all(&mut self, staker: u64, creator: u64) -> (r: Result<u64, Error>)
        requires
            old(self).wf(),
        ensures
            final(self).wf(),
            r == old(self).unstake_all_outcome(staker, creator),
            r is Err ==> *final(self) == *old(self),
            r is Ok ==> Self::withdraw_applied(
                *old(self),
                *final(self),
                staker,
                creator,
                r->Ok_0,
            ),
    {
        let si = match Self::find_staker(&self.stakers, staker) {
            Some(i) => i,
            None => {
                return Err(Error::StakerDNE);
            },
        };
        let ci = match Self::find_creator(&self.creators, creator) {
            Some(i) => i,
            None => {
                return Err(Error::CreatorDNE);
            },
        };
        proof {
            lemma_staker_index(self.stakers@, staker);
            assert(staker_index(self.stakers@, staker) == si);
            lemma_creator_index(self.creators@, creator);
        }
        let pi = match Self::find_position(&self.stakers[si].stake_per_creator, creator) {
            Some(i) => i,
            None => {
                return Err(Error::NotStakedForCreator);
            },
        };
        proof {
            lemma_position_index(self.stakers@[si as int].stake_per_creator@, creator);
            assert(position_index(self.stakers@[si as int].stake_per_creator@, creator) == pi);
        }
        let latest: u64 = match self.stakers[si].stake_per_creator[pi].state.latest_staked_value() {
            Some(v) => v,
            None => 0,
        };
        proof {
            assert(self.pair_latest(staker, creator) == latest);
        }
        if latest == 0 {
            return Err(Error::UnstakingWithNoValue);
        }
        self.apply_withdraw(si, ci, pi, latest);
        Ok(latest)
    }

    // -----------------------------------------------------------------------
    // Round transition
    // -----------------------------------------------------------------------

    /// Handles one tick of the external time source. When the tick falls
    /// outside the current round, the round index advances by one, the new
    /// round starts at `current_block`, and — in the same step, so no caller
    /// ever sees one without the other — the value of `total_staked` at this
    /// instant is snapshotted under the new round's index. Earlier snapshots
    /// are never touched. A tick inside the current round changes nothing.
    ///
    /// The round index stops one short of the largest representable value;
    /// the caller's chain would end long before that.
    pub fn try_advance_round(&mut self, current_block: u64) -> (advanced: bool)
        requires
            old(self).wf(),
            old(self).round.index < u64::MAX,
        ensures
            final(self).wf(),
            advanced == old(self).round.spec_should_advance(current_block),
            !advanced ==> *final(self) == *old(self),
            advanced ==> {
                &&& final(self).round == (Round {
                    index: (old(self).round.index + 1) as u64,
                    first_block: current_block,
                    length: old(self).round.length,
                })
                &&& final(self).staked_per_round@ == old(self).staked_per_round@.push(
                    SnapshotEntry {
                        round: (old(self).round.index + 1) as u64,
                        total: old(self).total_staked,
                    },
                )
                &&& final(self).snapshot_at((old(self).round.index + 1) as u64) == Some(
                    old(self).total_staked,
                )
                &&& forall|k: u64|
                    k != (old(self).round.index + 1) as u64 ==> final(self).snapshot_at(k) == old(
                        self,
                    ).snapshot_at(k)
            },
            final(self).creators@ == old(self).creators@,
            final(self).stakers@ == old(self).stakers@,
            final(self).total_staked == old(self).total_staked,
            Self::same_config(*old(self), *final(self)),
    {
        if !self.round.should_advance(current_block) {
            return false;
        }
        let ghost l0 = *old(self);
        let ghost h1 = l0.staked_per_round@;
        let new_index = self.round.index + 1;
        let entry = SnapshotEntry { round: new_index, total: self.total_staked };
        self.staked_per_round.push(entry);
        self.round.advance(current_block);
        proof {
            let h2 = self.staked_per_round@;
            assert(h2 == h1.push(entry));
            // the history stays sorted: every old slot lies below the new one
            assert forall|i: int, j: int| 0 <= i < j < h2.len() implies h2[i].round
                < h2[j].round by {
                if j == h1.len() {
                    assert(h2[i] == h1[i]);
                } else {
                    assert(h1[i].round < h1[j].round);
                }
            }
            assert forall|i: int| 0 <= i < h2.len() implies (#[trigger] h2[i]).round
                <= new_index by {
                if i < h1.len() {
                    assert(h2[i] == h1[i]);
                }
            }
            // staker records stay well-formed under a larger round index
            assert forall|i: int|
                0 <= i < self.stakers@.len() implies staker_wf(
                #[trigger] self.stakers@[i],
                self.max_unlocking_chunks as nat,
                new_index,
            ) by {
                assert(staker_wf(self.stakers@[i], self.max_unlocking_chunks as nat, l0.round.index));
            }
            assert(self.wf());
            // the new slot is found, the old ones are untouched
            assert(h2[h1.len() as int].round == new_index);
            assert(has_snapshot(h2, new_index));
            lemma_snapshot_index(h2, new_index, new_index);
            assert(snapshot_index(h2, new_index) == h1.len());
            assert forall|k: u64| k != new_index implies self.snapshot_at(k) == l0.snapshot_at(
                k,
            ) by {
                if has_snapshot(h1, k) {
                    lemma_snapshot_index(h1, l0.round.index, k);
                    let i = snapshot_index(h1, k);
                    assert(h2[i].round == k);
                    assert(has_snapshot(h2, k));
                    lemma_snapshot_index(h2, new_index, k);
                    assert(snapshot_index(h2, k) == i);
                } else {
                    if has_snapshot(h2, k) {
                        let i = snapshot_index(h2, k);
                        lemma_snapshot_index(h2, new_index, k);
                        assert(i < h1.len());
                        assert(h1[i].round == k);
                    }
                }
            }
        }
        true
    }

    // -----------------------------------------------------------------------
    // Reconciliation
    // -----------------------------------------------------------------------

    /// Recomputes the global aggregate by summation over all creator
    /// records and compares it against the maintained counter. On any
    /// well-formed ledger this returns true; it exists so that tests and
    /// audits can catch invariant drift in states built by hand.
    pub fn reconcile_total_staked(&self) -> (ok: bool)
        ensures
            ok == (creators_sum(self.creators@) == self.total_staked as int),
            self.wf() ==> ok,
    {
        let ghost s = self.creators@;
        proof {
            assert forall|j: int| 0 <= j < s.len() implies #[trigger] creator_staked_fn()(s[j])
                >= 0 by {
                assert(creator_staked_fn()(s[j]) == s[j].staked_amount as int);
            }
        }
        let n = self.creators.len();
        let mut acc: u64 = 0;
        let mut i: usize = 0;
        while i < n
            invariant
                0 <= i <= n,
                n == s.len(),
                s == self.creators@,
                forall|j: int| 0 <= j < s.len() ==> #[trigger] creator_staked_fn()(s[j]) >= 0,
                acc as int == crate::sums::sum_by(s.subrange(0, i as int), creator_staked_fn()),
            decreases n - i,
        {
            let term = self.creators[i].staked_amount;
            proof {
                assert(creator_staked_fn()(s[i as int]) == term as int);
                assert(s.subrange(0, i as int + 1) =~= s.subrange(0, i as int).push(s[i as int]));
                lemma_sum_by_push(s.subrange(0, i as int), s[i as int], creator_staked_fn());
            }
            match acc.checked_add(term) {
                Some(a) => {
                    acc = a;
                },
                None => {
                    proof {
                        crate::sums::lemma_sum_by_prefix_le(s, i as int + 1, creator_staked_fn());
                        assert(creators_sum(s) > u64::MAX);
                    }
                    return false;
                },
            }
            i += 1;
        }
        proof {
            assert(s.subrange(0, n as int) =~= s);
        }
        acc == self.total_staked
    }
}

/// How every column aggregate reacts when one staker record changes in
/// place: each moves by the change of that staker's own term.
proof fn lemma_col_aggregates_update(s1: Seq<StakerInfo>, s2: Seq<StakerInfo>, si: int)
    requires
        s2.len() == s1.len(),
        0 <= si < s1.len(),
        forall|j: int| 0 <= j < s1.len() && j != si ==> s1[j] == s2[j],
    ensures
        forall|c: u64|
            #[trigger] col_sum(s2, c) == col_sum(s1, c) - pair_value(s1[si].stake_per_creator@, c)
                + pair_value(s2[si].stake_per_creator@, c),
        forall|c: u64|
            #[trigger] col_count(s2, c) == col_count(s1, c) - (if pair_value(
                s1[si].stake_per_creator@,
                c,
            ) > 0 {
                1int
            } else {
                0int
            }) + (if pair_value(s2[si].stake_per_creator@, c) > 0 {
                1int
            } else {
                0int
            }),
        stakers_total_sum(s2) == stakers_total_sum(s1) - s1[si].total + s2[si].total,
        pairs_sum(s2) == pairs_sum(s1) - positions_sum(s1[si].stake_per_creator@) + positions_sum(
            s2[si].stake_per_creator@,
        ),
{
    assert forall|c: u64| #[trigger] col_sum(s2, c) == col_sum(s1, c) - pair_value(
        s1[si].stake_per_creator@,
        c,
    ) + pair_value(s2[si].stake_per_creator@, c) by {
        lemma_sum_by_update(s1, s2, si, col_value_fn(c));
        assert(col_value_fn(c)(s1[si]) == pair_value(s1[si].stake_per_creator@, c));
        assert(col_value_fn(c)(s2[si]) == pair_value(s2[si].stake_per_creator@, c));
    }
    assert forall|c: u64| #[trigger] col_count(s2, c) == col_count(s1, c) - (if pair_value(
        s1[si].stake_per_creator@,
        c,
    ) > 0 {
        1int
    } else {
        0int
    }) + (if pair_value(s2[si].stake_per_creator@, c) > 0 {
        1int
    } else {
        0int
    }) by {
        lemma_sum_by_update(s1, s2, si, col_open_fn(c));
        assert(col_open_fn(c)(s1[si]) == if pair_value(s1[si].stake_per_creator@, c) > 0 {
            1int
        } else {
            0int
        });
        assert(col_open_fn(c)(s2[si]) == if pair_value(s2[si].stake_per_creator@, c) > 0 {
            1int
        } else {
            0int
        });
    }
    lemma_sum_by_update(s1, s2, si, staker_total_fn());
    assert(staker_total_fn()(s1[si]) == s1[si].total as int);
    assert(staker_total_fn()(s2[si]) == s2[si].total as int);
    lemma_sum_by_update(s1, s2, si, staker_positions_fn());
    assert(staker_positions_fn()(s1[si]) == positions_sum(s1[si].stake_per_creator@));
    assert(staker_positions_fn()(s2[si]) == positions_sum(s2[si].stake_per_creator@));
}

/// How every column aggregate reacts when a staker record is appended:
/// each moves by the new record's own term.
proof fn lemma_col_aggregates_push(s1: Seq<StakerInfo>, x: StakerInfo)
    ensures
        forall|c: u64|
            #[trigger] col_sum(s1.push(x), c) == col_sum(s1, c) + pair_value(
                x.stake_per_creator@,
                c,
            ),
        forall|c: u64|
            #[trigger] col_count(s1.push(x), c) == col_count(s1, c) + (if pair_value(
                x.stake_per_creator@,
                c,
            ) > 0 {
                1int
            } else {
                0int
            }),
        stakers_total_sum(s1.push(x)) == stakers_total_sum(s1) + x.total,
        pairs_sum(s1.push(x)) == pairs_sum(s1) + positions_sum(x.stake_per_creator@),
{
    assert forall|c: u64| #[trigger] col_sum(s1.push(x), c) == col_sum(s1, c) + pair_value(
        x.stake_per_creator@,
        c,
    ) by {
        lemma_sum_by_push(s1, x, col_value_fn(c));
        assert(col_value_fn(c)(x) == pair_value(x.stake_per_creator@, c));
    }
    assert forall|c: u64| #[trigger] col_count(s1.push(x), c) == col_count(s1, c) + (
    if pair_value(x.stake_per_creator@, c) > 0 {
        1int
    } else {
        0int
    }) by {
        lemma_sum_by_push(s1, x, col_open_fn(c));
        assert(col_open_fn(c)(x) == if pair_value(x.stake_per_creator@, c) > 0 {
            1int
        } else {
            0int
        });
    }
    lemma_sum_by_push(s1, x, staker_total_fn());
    assert(staker_total_fn()(x) == x.total as int);
    lemma_sum_by_push(s1, x, staker_positions_fn());
    assert(staker_positions_fn()(x) == positions_sum(x.stake_per_creator@));
}

/// Changing one creator record in place, keeping its id, moves no other
/// record and no lookup index.
proof fn lemma_creator_records_update(s1: Seq<CreatorInfo>, s2: Seq<CreatorInfo>, i: int)
    requires
        creators_unique(s1),
        0 <= i < s1.len(),
        s2.len() == s1.len(),
        s2[i].id == s1[i].id,
        forall|j: int| 0 <= j < s1.len() && j != i ==> s2[j] == s1[j],
    ensures
        creators_unique(s2),
        has_creator(s1, s1[i].id),
        has_creator(s2, s1[i].id),
        creator_index(s1, s1[i].id) == i,
        creator_index(s2, s1[i].id) == i,
        forall|c2: u64| c2 != s1[i].id ==> has_creator(s2, c2) == has_creator(s1, c2),
        forall|c2: u64|
            c2 != s1[i].id && has_creator(s1, c2) ==> s2[creator_index(s2, c2)]
                == s1[creator_index(s1, c2)],
{
    assert forall|a: int, b: int| 0 <= a < b < s2.len() implies s2[a].id != s2[b].id by {
        assert(s1[a].id != s1[b].id);
    }
    assert(s1[i].id == s1[i].id);
    assert(has_creator(s1, s1[i].id));
    assert(has_creator(s2, s1[i].id));
    lemma_creator_index(s1, s1[i].id);
    lemma_creator_index(s2, s1[i].id);
    assert forall|c2: u64|
        c2 != s1[i].id implies (has_creator(s2, c2) == has_creator(s1, c2)) && (has_creator(
        s1,
        c2,
    ) ==> s2[creator_index(s2, c2)] == s1[creator_index(s1, c2)]) by {
        if has_creator(s1, c2) {
            lemma_creator_index(s1, c2);
            let k = creator_index(s1, c2);
            assert(k != i);
            assert(s2[k].id == c2);
            assert(has_creator(s2, c2));
            lemma_creator_index(s2, c2);
            assert(creator_index(s2, c2) == k);
        } else {
            if has_creator(s2, c2) {
                let k = creator_index(s2, c2);
                lemma_creator_index(s2, c2);
                assert(k != i);
                assert(s1[k].id == c2);
            }
        }
    }
}

/// Changing one staker record in place, keeping its id, moves no other
/// record and no lookup index.
proof fn lemma_staker_records_update(s1: Seq<StakerInfo>, s2: Seq<StakerInfo>, i: int)
    requires
        stakers_unique(s1),
        0 <= i < s1.len(),
        s2.len() == s1.len(),
        s2[i].id == s1[i].id,
        forall|j: int| 0 <= j < s1.len() && j != i ==> s2[j] == s1[j],
    ensures
        stakers_unique(s2),
        has_staker(s1, s1[i].id),
        has_staker(s2, s1[i].id),
        staker_index(s1, s1[i].id) == i,
        staker_index(s2, s1[i].id) == i,
        forall|a2: u64| a2 != s1[i].id ==> has_staker(s2, a2) == has_staker(s1, a2),
        forall|a2: u64|
            a2 != s1[i].id && has_staker(s1, a2) ==> s2[staker_index(s2, a2)] == s1[staker_index(
                s1,
                a2,
            )],
{
    assert forall|a: int, b: int| 0 <= a < b < s2.len() implies s2[a].id != s2[b].id by {
        assert(s1[a].id != s1[b].id);
    }
    assert(has_staker(s1, s1[i].id));
    assert(has_staker(s2, s1[i].id));
    lemma_staker_index(s1, s1[i].id);
    lemma_staker_index(s2, s1[i].id);
    assert forall|a2: u64|
        a2 != s1[i].id implies (has_staker(s2, a2) == has_staker(s1, a2)) && (has_staker(s1, a2)
            ==> s2[staker_index(s2, a2)] == s1[staker_index(s1, a2)]) by {
        if has_staker(s1, a2) {
            lemma_staker_index(s1, a2);
            let k = staker_index(s1, a2);
            assert(k != i);
            assert(s2[k].id == a2);
            assert(has_staker(s2, a2));
            lemma_staker_index(s2, a2);
            assert(staker_index(s2, a2) == k);
        } else {
            if has_staker(s2, a2) {
                let k = staker_index(s2, a2);
                lemma_staker_index(s2, a2);
                assert(k != i);
                assert(s1[k].id == a2);
            }
        }
    }
}

/// Appending a staker record with a fresh id moves no existing record and
/// no lookup index.
proof fn lemma_staker_records_push(s1: Seq<StakerInfo>, x: StakerInfo)
    requires
        stakers_unique(s1),
        !has_staker(s1, x.id),
    ensures
        stakers_unique(s1.push(x)),
        has_staker(s1.push(x), x.id),
        staker_index(s1.push(x), x.id) == s1.len(),
        forall|a2: u64| a2 != x.id ==> has_staker(s1.push(x), a2) == has_staker(s1, a2),
        forall|a2: u64|
            a2 != x.id && has_staker(s1, a2) ==> s1.push(x)[staker_index(s1.push(x), a2)]
                == s1[staker_index(s1, a2)],
{
    let s2 = s1.push(x);
    assert forall|a: int, b: int| 0 <= a < b < s2.len() implies s2[a].id != s2[b].id by {
        if b == s1.len() {
            assert(s2[a] == s1[a]);
            if s1[a].id == x.id {
                assert(has_staker(s1, x.id));
            }
        } else {
            assert(s1[a].id != s1[b].id);
        }
    }
    assert(s2[s1.len() as int].id == x.id);
    assert(has_staker(s2, x.id));
    lemma_staker_index(s2, x.id);
    assert forall|a2: u64|
        a2 != x.id implies (has_staker(s2, a2) == has_staker(s1, a2)) && (has_staker(s1, a2)
            ==> s2[staker_index(s2, a2)] == s1[staker_index(s1, a2)]) by {
        if has_staker(s1, a2) {
            lemma_staker_index(s1, a2);
            let k = staker_index(s1, a2);
            assert(s2[k].id == a2);
            assert(has_staker(s2, a2));
            lemma_staker_index(s2, a2);
            assert(staker_index(s2, a2) == k);
        } else {
            if has_staker(s2, a2) {
                let k = staker_index(s2, a2);
                lemma_staker_index(s2, a2);
                assert(k < s1.len());
                assert(s1[k].id == a2);
            }
        }
    }
}

} // verus!
