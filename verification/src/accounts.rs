//! The per-account records — creators and stakers — together with the
//! keyed-lookup and column-projection machinery their invariants are
//! stated with.

use vstd::prelude::*;
use crate::stake_state::{StakeState, Checkpoint, spec_latest, checkpoints_wf};
use crate::sums::sum_by;

verus! {

/// Aggregate record of one registered creator.
#[derive(Clone, Copy, PartialEq, Eq, Structural, Debug)]
pub struct CreatorInfo {
    /// The creator's account id.
    pub id: u64,
    /// The deposit reserved (by the external custodian) at registration.
    pub registration_deposit: u64,
    /// Sum of the latest stake value of every staker's position against this
    /// creator.
    pub staked_amount: u64,
    /// Number of stakers currently holding an open (non-zero) position
    /// against this creator.
    pub stakers_count: u64,
}

/// One staker's position against one creator.
#[derive(Clone, PartialEq, Eq, Debug)]
pub struct PositionEntry {
    /// The creator the stake is held against.
    pub creator: u64,
    /// The bounded stake time series for this (staker, creator) pair.
    pub state: StakeState,
}

/// Aggregate record of one staker. Created lazily on its first stake and
/// never removed, even when every position has been withdrawn.
#[derive(Clone, PartialEq, Eq, Debug)]
pub struct StakerInfo {
    /// The staker's account id.
    pub id: u64,
    /// Sum of the latest stake value across all of this staker's positions.
    pub total: u64,
    /// The part of `total` not waiting on any unlock delay. No such delay is
    /// modelled here, so `active` always equals `total`.
    pub active: u64,
    /// This staker's positions, at most one per creator.
    pub stake_per_creator: Vec<PositionEntry>,
}

// ---------------------------------------------------------------------------
// Lookup by key
// ---------------------------------------------------------------------------

/// At most one position per creator.
pub open spec fn positions_unique(ps: Seq<PositionEntry>) -> bool {
    forall|i: int, j: int| 0 <= i < j < ps.len() ==> ps[i].creator != ps[j].creator
}

pub open spec fn has_position(ps: Seq<PositionEntry>, creator: u64) -> bool {
    exists|i: int| 0 <= i < ps.len() && ps[i].creator == creator
}

pub open spec fn position_index(ps: Seq<PositionEntry>, creator: u64) -> int {
    choose|i: int| 0 <= i < ps.len() && ps[i].creator == creator
}

/// With unique keys, `position_index` is the one index holding `creator`.
pub proof fn lemma_position_index(ps: Seq<PositionEntry>, creator: u64)
    requires
        positions_unique(ps),
        has_position(ps, creator),
    ensures
        0 <= position_index(ps, creator) < ps.len(),
        ps[position_index(ps, creator)].creator == creator,
        forall|j: int|
            0 <= j < ps.len() && ps[j].creator == creator ==> j == position_index(ps, creator),
{
    let i = position_index(ps, creator);
    assert(0 <= i < ps.len() && ps[i].creator == creator);
}

/// At most one record per creator id.
pub open spec fn creators_unique(s: Seq<CreatorInfo>) -> bool {
    forall|i: int, j: int| 0 <= i < j < s.len() ==> s[i].id != s[j].id
}

pub open spec fn has_creator(s: Seq<CreatorInfo>, id: u64) -> bool {
    exists|i: int| 0 <= i < s.len() && s[i].id == id
}

pub open spec fn creator_index(s: Seq<CreatorInfo>, id: u64) -> int {
    choose|i: int| 0 <= i < s.len() && s[i].id == id
}

/// With unique ids, `creator_index` is the one index holding `id`.
pub proof fn lemma_creator_index(s: Seq<CreatorInfo>, id: u64)
    requires
        creators_unique(s),
        has_creator(s, id),
    ensures
        0 <= creator_index(s, id) < s.len(),
        s[creator_index(s, id)].id == id,
        forall|j: int| 0 <= j < s.len() && s[j].id == id ==> j == creator_index(s, id),
{
    let i = creator_index(s, id);
    assert(0 <= i < s.len() && s[i].id == id);
}

/// At most one record per staker id.
pub open spec fn stakers_unique(s: Seq<StakerInfo>) -> bool {
    forall|i: int, j: int| 0 <= i < j < s.len() ==> s[i].id != s[j].id
}

pub open spec fn has_staker(s: Seq<StakerInfo>, id: u64) -> bool {
    exists|i: int| 0 <= i < s.len() && s[i].id == id
}

pub open spec fn staker_index(s: Seq<StakerInfo>, id: u64) -> int {
    choose|i: int| 0 <= i < s.len() && s[i].id == id
}

/// With unique ids, `staker_index` is the one index holding `id`.
pub proof fn lemma_staker_index(s: Seq<StakerInfo>, id: u64)
    requires
        stakers_unique(s),
        has_staker(s, id),
    ensures
        0 <= staker_index(s, id) < s.len(),
        s[staker_index(s, id)].id == id,
        forall|j: int| 0 <= j < s.len() && s[j].id == id ==> j == staker_index(s, id),
{
    let i = staker_index(s, id);
    assert(0 <= i < s.len() && s[i].id == id);
}

// ---------------------------------------------------------------------------
// Projections and aggregates
// ---------------------------------------------------------------------------

/// The latest stake value of one position entry.
pub open spec fn position_latest_fn() -> spec_fn(PositionEntry) -> int {
    |e: PositionEntry| spec_latest(e.state@)
}

/// Sum of the latest stake value over a staker's positions; what
/// `StakerInfo.total` accounts for.
pub open spec fn positions_sum(ps: Seq<PositionEntry>) -> int {
    sum_by(ps, position_latest_fn())
}

/// The latest value a staker holds against `creator`, zero when it holds no
/// position for it.
pub open spec fn pair_value(ps: Seq<PositionEntry>, creator: u64) -> int {
    if has_position(ps, creator) {
        spec_latest(ps[position_index(ps, creator)].state@)
    } else {
        0
    }
}

/// `pair_value` of one staker's positions, as a term for column sums.
pub open spec fn col_value_fn(creator: u64) -> spec_fn(StakerInfo) -> int {
    |st: StakerInfo| pair_value(st.stake_per_creator@, creator)
}

/// Sum over all stakers of the value held against `creator`; what
/// `CreatorInfo.staked_amount` accounts for.
pub open spec fn col_sum(s: Seq<StakerInfo>, creator: u64) -> int {
    sum_by(s, col_value_fn(creator))
}

/// One when a staker holds an open (non-zero) position against `creator`.
pub open spec fn col_open_fn(creator: u64) -> spec_fn(StakerInfo) -> int {
    |st: StakerInfo| if pair_value(st.stake_per_creator@, creator) > 0 {
        1int
    } else {
        0int
    }
}

/// Number of stakers with an open position against `creator`; what
/// `CreatorInfo.stakers_count` accounts for.
pub open spec fn col_count(s: Seq<StakerInfo>, creator: u64) -> int {
    sum_by(s, col_open_fn(creator))
}

/// The `staked_amount` of one creator record, as a term for the global sum.
pub open spec fn creator_staked_fn() -> spec_fn(CreatorInfo) -> int {
    |ci: CreatorInfo| ci.staked_amount as int
}

/// Sum of `staked_amount` over all creator records; what `TotalStaked`
/// accounts for.
pub open spec fn creators_sum(s: Seq<CreatorInfo>) -> int {
    sum_by(s, creator_staked_fn())
}

/// The `total` of one staker record, as a term for the global sum.
pub open spec fn staker_total_fn() -> spec_fn(StakerInfo) -> int {
    |st: StakerInfo| st.total as int
}

/// Sum of `total` over all staker records.
pub open spec fn stakers_total_sum(s: Seq<StakerInfo>) -> int {
    sum_by(s, staker_total_fn())
}

/// The positions sum of one staker record, as a term for the global sum.
pub open spec fn staker_positions_fn() -> spec_fn(StakerInfo) -> int {
    |st: StakerInfo| positions_sum(st.stake_per_creator@)
}

/// Sum of the latest stake value over every (staker, creator) pair in the
/// ledger.
pub open spec fn pairs_sum(s: Seq<StakerInfo>) -> int {
    sum_by(s, staker_positions_fn())
}

// ---------------------------------------------------------------------------
// Per-record well-formedness
// ---------------------------------------------------------------------------

/// A staker record is well-formed for a given checkpoint capacity and
/// current round: position keys are unique, every position has at least one
/// checkpoint, all checkpoint histories are well-formed and never run ahead
/// of the current round, and the two counters both equal the sum of the
/// latest position values.
pub open spec fn staker_wf(st: StakerInfo, max: nat, round_index: u64) -> bool {
    &&& positions_unique(st.stake_per_creator@)
    &&& forall|j: int|
        0 <= j < st.stake_per_creator@.len() ==> checkpoints_wf(
            #[trigger] st.stake_per_creator@[j].state@,
            max,
        )
    &&& forall|j: int|
        0 <= j < st.stake_per_creator@.len() ==> (#[trigger] st.stake_per_creator@[j].state@).len()
            >= 1
    &&& forall|j: int|
        0 <= j < st.stake_per_creator@.len() ==> (#[trigger] st.stake_per_creator@[j].state@).last().round
            <= round_index
    &&& st.total == positions_sum(st.stake_per_creator@)
    &&& st.active == st.total
}

/// Every term of a positions sum is non-negative (a latest value is a `u64`
/// or an empty history's zero).
pub proof fn lemma_position_terms_nonneg(ps: Seq<PositionEntry>)
    ensures
        forall|j: int| 0 <= j < ps.len() ==> #[trigger] position_latest_fn()(ps[j]) >= 0,
{
    assert forall|j: int| 0 <= j < ps.len() implies #[trigger] position_latest_fn()(ps[j])
        >= 0 by {
        assert(position_latest_fn()(ps[j]) == spec_latest(ps[j].state@));
    }
}

// ---------------------------------------------------------------------------
// How projections react to position updates
// ---------------------------------------------------------------------------

/// Rewriting the one position a staker holds against `creator` moves
/// `pair_value` for `creator` to the new latest value and leaves the value
/// against every other creator alone.
pub proof fn lemma_pair_value_update(
    ps1: Seq<PositionEntry>,
    ps2: Seq<PositionEntry>,
    k: int,
    creator: u64,
)
    requires
        positions_unique(ps1),
        0 <= k < ps1.len(),
        ps1[k].creator == creator,
        ps2.len() == ps1.len(),
        ps2[k].creator == creator,
        forall|j: int| 0 <= j < ps1.len() && j != k ==> ps1[j] == ps2[j],
    ensures
        positions_unique(ps2),
        position_index(ps1, creator) == k,
        position_index(ps2, creator) == k,
        pair_value(ps1, creator) == spec_latest(ps1[k].state@),
        pair_value(ps2, creator) == spec_latest(ps2[k].state@),
        forall|c2: u64| c2 != creator ==> pair_value(ps2, c2) == pair_value(ps1, c2),
        forall|c2: u64| c2 != creator ==> has_position(ps2, c2) == has_position(ps1, c2),
        forall|c2: u64|
            c2 != creator && has_position(ps1, c2) ==> ps2[position_index(ps2, c2)]
                == ps1[position_index(ps1, c2)],
{
    assert forall|i: int, j: int| 0 <= i < j < ps2.len() implies ps2[i].creator
        != ps2[j].creator by {
        assert(ps1[i].creator != ps1[j].creator);
    }
    lemma_position_index(ps1, creator);
    lemma_position_index(ps2, creator);
    assert(position_index(ps1, creator) == k);
    assert(position_index(ps2, creator) == k);
    assert forall|c2: u64|
        c2 != creator implies (has_position(ps2, c2) == has_position(ps1, c2)) && (has_position(
        ps1,
        c2,
    ) ==> ps2[position_index(ps2, c2)] == ps1[position_index(ps1, c2)]) && pair_value(ps2, c2)
        == pair_value(ps1, c2) by {
        if has_position(ps1, c2) {
            let i = position_index(ps1, c2);
            lemma_position_index(ps1, c2);
            assert(i != k);
            assert(ps2[i].creator == c2);
            assert(has_position(ps2, c2));
            lemma_position_index(ps2, c2);
            assert(position_index(ps2, c2) == i) by {
                let i2 = position_index(ps2, c2);
                if i2 != i {
                    assert(ps2[i2].creator == c2);
                    assert(i2 != k);
                    assert(ps1[i2].creator == c2);
                    lemma_position_index(ps1, c2);
                }
            }
            assert(ps2[i] == ps1[i]);
        } else {
            if has_position(ps2, c2) {
                let i = position_index(ps2, c2);
                lemma_position_index(ps2, c2);
                assert(i != k);
                assert(ps1[i].creator == c2);
                assert(has_position(ps1, c2));
            }
        }
    }
}

/// Appending a position for a creator the staker held nothing against sets
/// `pair_value` for that creator to the new latest value and leaves the
/// value against every other creator alone.
pub proof fn lemma_pair_value_push(ps: Seq<PositionEntry>, e: PositionEntry)
    requires
        positions_unique(ps),
        !has_position(ps, e.creator),
    ensures
        positions_unique(ps.push(e)),
        position_index(ps.push(e), e.creator) == ps.len(),
        pair_value(ps, e.creator) == 0,
        pair_value(ps.push(e), e.creator) == spec_latest(e.state@),
        forall|c2: u64| c2 != e.creator ==> pair_value(ps.push(e), c2) == pair_value(ps, c2),
        forall|c2: u64|
            c2 != e.creator ==> has_position(ps.push(e), c2) == has_position(ps, c2),
        forall|c2: u64|
            c2 != e.creator && has_position(ps, c2) ==> ps.push(e)[position_index(
                ps.push(e),
                c2,
            )] == ps[position_index(ps, c2)],
{
    let ps2 = ps.push(e);
    assert forall|i: int, j: int| 0 <= i < j < ps2.len() implies ps2[i].creator
        != ps2[j].creator by {
        if j == ps.len() {
            assert(ps2[j].creator == e.creator);
            assert(ps2[i] == ps[i]);
        } else {
            assert(ps[i].creator != ps[j].creator);
        }
    }
    assert(ps2[ps.len() as int].creator == e.creator);
    assert(has_position(ps2, e.creator));
    lemma_position_index(ps2, e.creator);
    assert(position_index(ps2, e.creator) == ps.len());
    assert forall|c2: u64|
        c2 != e.creator implies (has_position(ps2, c2) == has_position(ps, c2)) && (has_position(
        ps,
        c2,
    ) ==> ps2[position_index(ps2, c2)] == ps[position_index(ps, c2)]) && pair_value(ps2, c2)
        == pair_value(ps, c2) by {
        if has_position(ps, c2) {
            let i = position_index(ps, c2);
            lemma_position_index(ps, c2);
            assert(ps2[i].creator == c2);
            assert(has_position(ps2, c2));
            lemma_position_index(ps2, c2);
            let i2 = position_index(ps2, c2);
            assert(i2 < ps.len());
            assert(ps[i2].creator == c2);
            if i2 != i {
                lemma_position_index(ps, c2);
            }
            assert(position_index(ps2, c2) == position_index(ps, c2));
            assert(ps2[i2] == ps[i2]);
        } else {
            if has_position(ps2, c2) {
                let i = position_index(ps2, c2);
                lemma_position_index(ps2, c2);
                assert(i < ps.len());
                assert(ps[i].creator == c2);
            }
        }
    }
}

} // verus!
