//! The laws of the library: properties that tie several operations or the
//! whole state together, each proved from the operations' contracts alone.

use vstd::prelude::*;
use crate::ledger::{Ledger, SnapshotEntry, has_snapshot, snapshot_index, lemma_snapshot_index};
use crate::stake_state::{Checkpoint, spec_record, spec_latest, checkpoints_wf, lemma_record_wf};
use crate::accounts::{
    creators_sum, pairs_sum, stakers_total_sum, staker_total_fn, staker_positions_fn, has_staker,
    lemma_staker_index, staker_index, staker_wf, has_position, position_index,
    lemma_position_index, has_creator,
    creator_index, lemma_creator_index, col_sum, col_count, col_value_fn, col_open_fn, pair_value,
    positions_sum, position_latest_fn, lemma_position_terms_nonneg, creator_staked_fn,
};
use crate::sums::{lemma_sum_by_congruence, lemma_sum_by_bound, lemma_sum_by_pairwise_le};

verus! {

/// In every well-formed ledger state the global aggregate agrees with both
/// of its summation views: `total_staked` equals the sum of `staked_amount`
/// over all creator records, and equals the sum of the latest stake value
/// over all (staker, creator) pairs. Since every operation takes a
/// well-formed ledger to a well-formed ledger, this holds in every
/// reachable state.
pub proof fn lemma_total_staked_consistent(l: Ledger)
    requires
        l.wf(),
    ensures
        l.total_staked as int == creators_sum(l.creators@),
        l.total_staked as int == pairs_sum(l.stakers@),
{
    let s = l.stakers@;
    assert forall|j: int| 0 <= j < s.len() implies #[trigger] staker_positions_fn()(s[j])
        == staker_total_fn()(s[j]) by {
        assert(staker_wf(s[j], l.max_unlocking_chunks as nat, l.round.index));
        assert(staker_positions_fn()(s[j]) == crate::accounts::positions_sum(
            s[j].stake_per_creator@,
        ));
        assert(staker_total_fn()(s[j]) == s[j].total as int);
    }
    lemma_sum_by_congruence(s, s, staker_positions_fn(), staker_total_fn());
    assert(pairs_sum(s) == stakers_total_sum(s));
}

/// In every well-formed ledger state, every staker record keeps
/// `0 <= active <= total`; in this surface, where no separate unlocking
/// delay is modelled, the two counters are in fact equal.
pub proof fn lemma_staker_counters_bounded(l: Ledger, id: u64)
    requires
        l.wf(),
        has_staker(l.stakers@, id),
    ensures
        0 <= l.staker_record(id)->Some_0.active,
        l.staker_record(id)->Some_0.active <= l.staker_record(id)->Some_0.total,
        l.staker_record(id)->Some_0.active == l.staker_record(id)->Some_0.total,
{
    lemma_staker_index(l.stakers@, id);
    assert(staker_wf(
        l.stakers@[staker_index(l.stakers@, id)],
        l.max_unlocking_chunks as nat,
        l.round.index,
    ));
}

/// No single pair ever holds more than the global aggregate: the latest
/// stake value of any (staker, creator) pair is bounded by `total_staked`.
pub proof fn lemma_pair_latest_le_total(l: Ledger, staker: u64, creator: u64)
    requires
        l.wf(),
    ensures
        0 <= l.pair_latest(staker, creator) <= l.total_staked,
{
    let s = l.stakers@;
    if has_staker(s, staker) {
        lemma_staker_index(s, staker);
        let si = staker_index(s, staker);
        let st = s[si];
        assert(staker_wf(st, l.max_unlocking_chunks as nat, l.round.index));
        let ps = st.stake_per_creator@;
        if has_position(ps, creator) {
            lemma_position_index(ps, creator);
            let pi = position_index(ps, creator);
            lemma_position_terms_nonneg(ps);
            lemma_sum_by_bound(ps, pi, position_latest_fn());
            assert(position_latest_fn()(ps[pi]) == spec_latest(ps[pi].state@));
            assert forall|j: int| 0 <= j < s.len() implies #[trigger] staker_total_fn()(s[j])
                >= 0 by {
                assert(staker_total_fn()(s[j]) == s[j].total as int);
            }
            lemma_sum_by_bound(s, si, staker_total_fn());
            assert(staker_total_fn()(st) == st.total as int);
        }
    }
}

/// No creator's column ever holds more than the global aggregate, and a
/// creator's open-position count never exceeds its column: every open
/// position holds at least one unit.
pub proof fn lemma_creator_bounds(l: Ledger, creator: u64)
    requires
        l.wf(),
        has_creator(l.creators@, creator),
    ensures
        l.creator_record(creator)->Some_0.staked_amount <= l.total_staked,
        l.creator_record(creator)->Some_0.stakers_count <= l.creator_record(
            creator,
        )->Some_0.staked_amount,
{
    lemma_creator_index(l.creators@, creator);
    let ci = creator_index(l.creators@, creator);
    assert forall|j: int|
        0 <= j < l.creators@.len() implies #[trigger] creator_staked_fn()(l.creators@[j]) >= 0 by {
        assert(creator_staked_fn()(l.creators@[j]) == l.creators@[j].staked_amount as int);
    }
    lemma_sum_by_bound(l.creators@, ci, creator_staked_fn());
    assert(creator_staked_fn()(l.creators@[ci]) == l.creators@[ci].staked_amount as int);
    let s = l.stakers@;
    assert forall|j: int| 0 <= j < s.len() implies #[trigger] col_open_fn(creator)(s[j])
        <= col_value_fn(creator)(s[j]) by {
        assert(col_open_fn(creator)(s[j]) == if pair_value(s[j].stake_per_creator@, creator) > 0 {
            1int
        } else {
            0int
        });
        assert(col_value_fn(creator)(s[j]) == pair_value(s[j].stake_per_creator@, creator));
        assert(pair_value(s[j].stake_per_creator@, creator) >= 0);
    }
    lemma_sum_by_pairwise_le(s, col_open_fn(creator), col_value_fn(creator));
    assert(col_count(s, creator) <= col_sum(s, creator));
}

/// The counters of one staker are bounded by the global aggregate.
pub proof fn lemma_staker_total_le_total(l: Ledger, staker: u64)
    requires
        l.wf(),
    ensures
        0 <= l.staker_total(staker) <= l.total_staked,
{
    let s = l.stakers@;
    if has_staker(s, staker) {
        lemma_staker_index(s, staker);
        let si = staker_index(s, staker);
        assert forall|j: int| 0 <= j < s.len() implies #[trigger] staker_total_fn()(s[j]) >= 0 by {
            assert(staker_total_fn()(s[j]) == s[j].total as int);
        }
        lemma_sum_by_bound(s, si, staker_total_fn());
        assert(staker_total_fn()(s[si]) == s[si].total as int);
    }
}

/// A stake immediately followed by an unstake of the same amount, against
/// the same creator and inside the same round, restores the pair's latest
/// stake value and leaves its checkpoint count unchanged: both operations
/// merge into the round's existing checkpoint instead of consuming a slot.
/// The global aggregate, the creator's column and the staker's counters all
/// return to their starting values as well.
///
/// The pair must already hold a checkpoint for the current round; the first
/// operation of a fresh round appends a new slot instead, which the
/// unstake's merge does not take back.
pub proof fn lemma_stake_unstake_round_trip(
    l0: Ledger,
    l1: Ledger,
    l2: Ledger,
    staker: u64,
    creator: u64,
    amount: u64,
)
    requires
        l0.wf(),
        Ledger::stake_applied(l0, l1, staker, creator, amount),
        Ledger::withdraw_applied(l1, l2, staker, creator, amount),
        l0.pair_checkpoints(staker, creator).len() > 0,
        l0.pair_checkpoints(staker, creator).last().round == l0.round.index,
        1 <= amount,
        l0.total_staked + amount <= u64::MAX,
    ensures
        l2.pair_checkpoints(staker, creator) == l0.pair_checkpoints(staker, creator),
        l2.pair_latest(staker, creator) == l0.pair_latest(staker, creator),
        l2.pair_checkpoints(staker, creator).len() == l0.pair_checkpoints(staker, creator).len(),
        l2.total_staked == l0.total_staked,
        l2.creator_record(creator)->Some_0.staked_amount == l0.creator_record(
            creator,
        )->Some_0.staked_amount,
        l2.creator_record(creator)->Some_0.stakers_count == l0.creator_record(
            creator,
        )->Some_0.stakers_count,
        l2.staker_total(staker) == l0.staker_total(staker),
{
    lemma_pair_latest_le_total(l0, staker, creator);
    lemma_creator_bounds(l0, creator);
    lemma_staker_total_le_total(l0, staker);
    let s0 = l0.pair_checkpoints(staker, creator);
    let r = l0.round.index;
    let v0 = l0.pair_latest(staker, creator);
    let max = l0.max_unlocking_chunks as nat;
    let k = s0.len() - 1;
    let s1 = l1.pair_checkpoints(staker, creator);
    assert(s1 == spec_record(s0, r, (v0 + amount) as u64, max));
    assert(s1 == s0.update(k, Checkpoint { round: r, value: (v0 + amount) as u64 }));
    assert(l1.pair_latest(staker, creator) == v0 + amount);
    assert(l1.round == l0.round);
    assert(l1.max_unlocking_chunks == l0.max_unlocking_chunks);
    let s2 = l2.pair_checkpoints(staker, creator);
    assert(s2 == spec_record(s1, r, ((v0 + amount) - amount) as u64, max));
    assert(s1.last().round == r);
    assert(s2 == s1.update(k, Checkpoint { round: r, value: v0 as u64 }));
    assert(s2 =~= s0) by {
        assert(s0[k] == (Checkpoint { round: r, value: v0 as u64 }));
    }
    assert(spec_latest(s2) == v0);
}

/// A stake immediately followed by an unstake of the same amount in the
/// same round always restores the pair's latest stake value, the global
/// aggregate, the creator's column and the staker's counters — whether or
/// not the stake had to open a fresh checkpoint for the round.
pub proof fn lemma_stake_unstake_restores_value(
    l0: Ledger,
    l1: Ledger,
    l2: Ledger,
    staker: u64,
    creator: u64,
    amount: u64,
)
    requires
        l0.wf(),
        Ledger::stake_applied(l0, l1, staker, creator, amount),
        Ledger::withdraw_applied(l1, l2, staker, creator, amount),
        l0.total_staked + amount <= u64::MAX,
    ensures
        l2.pair_latest(staker, creator) == l0.pair_latest(staker, creator),
        l2.total_staked == l0.total_staked,
        l2.creator_record(creator)->Some_0.staked_amount == l0.creator_record(
            creator,
        )->Some_0.staked_amount,
        l2.staker_total(staker) == l0.staker_total(staker),
{
    lemma_pair_latest_le_total(l0, staker, creator);
    lemma_creator_bounds(l0, creator);
    lemma_staker_total_le_total(l0, staker);
    let s0 = l0.pair_checkpoints(staker, creator);
    let r = l0.round.index;
    let v0 = l0.pair_latest(staker, creator);
    let max = l0.max_unlocking_chunks as nat;
    let s1 = l1.pair_checkpoints(staker, creator);
    assert(s1 == spec_record(s0, r, (v0 + amount) as u64, max));
    assert(checkpoints_wf(s0, max) && (s0.len() > 0 ==> s0.last().round <= r)) by {
        if has_staker(l0.stakers@, staker) {
            lemma_staker_index(l0.stakers@, staker);
            let st = l0.stakers@[staker_index(l0.stakers@, staker)];
            assert(staker_wf(st, max, r));
            if has_position(st.stake_per_creator@, creator) {
                lemma_position_index(st.stake_per_creator@, creator);
            }
        }
    }
    lemma_record_wf(s0, r, (v0 + amount) as u64, max);
    assert(l1.pair_latest(staker, creator) == v0 + amount);
    let s2 = l2.pair_checkpoints(staker, creator);
    assert(s2 == spec_record(s1, r, v0 as u64, max));
    assert(s1.len() > 0 && s1.last().round == r);
    assert(s2 == s1.update(s1.len() - 1, Checkpoint { round: r, value: v0 as u64 }));
    assert(spec_latest(s2) == v0);
}

/// The per-round snapshot history is append-only: an advance that pushes a
/// new slot records a round that had no slot before, and every round
/// already recorded keeps exactly the value it had. Together with the
/// staking operations, which never touch the history at all, no written
/// slot is ever rewritten.
pub proof fn lemma_snapshots_append_only(pre: Ledger, post: Ledger, entry: SnapshotEntry)
    requires
        pre.wf(),
        post.staked_per_round@ == pre.staked_per_round@.push(entry),
        entry.round > pre.round.index,
    ensures
        !has_snapshot(pre.staked_per_round@, entry.round),
        pre.snapshot_at(entry.round) is None,
        post.snapshot_at(entry.round) == Some(entry.total),
        forall|k: u64| k != entry.round ==> post.snapshot_at(k) == pre.snapshot_at(k),
{
    let h1 = pre.staked_per_round@;
    let h2 = post.staked_per_round@;
    if has_snapshot(h1, entry.round) {
        lemma_snapshot_index(h1, pre.round.index, entry.round);
    }
    assert forall|i: int, j: int| 0 <= i < j < h2.len() implies h2[i].round < h2[j].round by {
        if j == h1.len() {
            assert(h2[i] == h1[i]);
        } else {
            assert(h1[i].round < h1[j].round);
        }
    }
    assert forall|i: int| 0 <= i < h2.len() implies (#[trigger] h2[i]).round <= entry.round by {
        if i < h1.len() {
            assert(h2[i] == h1[i]);
        }
    }
    assert(h2[h1.len() as int].round == entry.round);
    assert(has_snapshot(h2, entry.round));
    lemma_snapshot_index(h2, entry.round, entry.round);
    assert(snapshot_index(h2, entry.round) == h1.len());
    assert forall|k: u64| k != entry.round implies post.snapshot_at(k) == pre.snapshot_at(k) by {
        if has_snapshot(h1, k) {
            lemma_snapshot_index(h1, pre.round.index, k);
            let i = snapshot_index(h1, k);
            assert(h2[i].round == k);
            assert(has_snapshot(h2, k));
            lemma_snapshot_index(h2, entry.round, k);
            assert(snapshot_index(h2, k) == i);
        } else {
            if has_snapshot(h2, k) {
                let i = snapshot_index(h2, k);
                lemma_snapshot_index(h2, entry.round, k);
                assert(i < h1.len());
                assert(h1[i].round == k);
            }
        }
    }
}

} // verus!
