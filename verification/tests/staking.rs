use creator_staking::errors::Error;
use creator_staking::ledger::Ledger;

const CREATOR: u64 = 7;
const STAKER: u64 = 1;
const OTHER_STAKER: u64 = 2;
const DEPOSIT: u64 = 10;
const MIN_STAKE: u64 = 50;

/// A ledger with `MinStake = 50`, a registration deposit of 10, four
/// checkpoint slots per pair and ten-block rounds starting at block 0,
/// with one creator already registered.
fn setup() -> Ledger {
    let mut l = Ledger::new(MIN_STAKE, DEPOSIT, 4, 10, 0);
    assert_eq!(l.register_creator(CREATOR), Ok(()));
    l
}

fn creator_info(l: &Ledger, id: u64) -> (u64, u64, u64) {
    let c = l.creators.iter().find(|c| c.id == id).expect("creator record");
    (c.staked_amount, c.stakers_count, c.registration_deposit)
}

fn staker_counters(l: &Ledger, id: u64) -> (u64, u64) {
    let s = l.stakers.iter().find(|s| s.id == id).expect("staker record");
    (s.total, s.active)
}

fn checkpoints(l: &Ledger, staker: u64, creator: u64) -> Vec<(u64, u64)> {
    let s = l.stakers.iter().find(|s| s.id == staker).expect("staker record");
    let p = s
        .stake_per_creator
        .iter()
        .find(|p| p.creator == creator)
        .expect("position");
    p.state.checkpoints.iter().map(|c| (c.round, c.value)).collect()
}

#[test]
fn register_creator_records_deposit_and_rejects_duplicates() {
    let mut l = setup();
    assert_eq!(creator_info(&l, CREATOR), (0, 0, DEPOSIT));
    assert!(l.is_creator(CREATOR));
    assert!(!l.is_creator(99));
    assert_eq!(l.register_creator(CREATOR), Err(Error::CreatorAlreadyRegistered));
}

#[test]
fn unregister_requires_empty_column_and_returns_deposit() {
    let mut l = setup();
    assert_eq!(l.unregister_creator(99), Err(Error::CreatorDNE));
    assert_eq!(l.stake(STAKER, CREATOR, 100, true), Ok(()));
    assert_eq!(l.unregister_creator(CREATOR), Err(Error::CreatorStakeNotZero));
    assert_eq!(l.unstake_all(STAKER, CREATOR), Ok(100));
    assert_eq!(l.unregister_creator(CREATOR), Ok(DEPOSIT));
    assert!(!l.is_creator(CREATOR));
    assert_eq!(l.total_staked, 0);
}

#[test]
fn stake_below_minimum_fails_even_with_funds() {
    let mut l = setup();
    // the balance custodian would approve, the floor still wins
    assert_eq!(l.stake(STAKER, CREATOR, 49, true), Err(Error::StakeTooLow));
    assert_eq!(l.total_staked, 0);
    assert!(l.stakers.is_empty());
}

#[test]
fn stake_without_funds_fails_after_the_floor_check() {
    let mut l = setup();
    assert_eq!(l.stake(STAKER, CREATOR, 100, false), Err(Error::InsufficientBalance));
    assert_eq!(l.stake(STAKER, 99, 100, true), Err(Error::CreatorDNE));
    assert_eq!(l.total_staked, 0);
}

#[test]
fn unstake_keeps_the_minimum_stake_floor() {
    let mut l = setup();
    assert_eq!(l.stake(STAKER, CREATOR, 100, true), Ok(()));
    // remaining 49 would fall under the floor
    assert_eq!(l.unstake(STAKER, CREATOR, 51), Err(Error::RemainingStakeTooLow));
    // remaining exactly the floor is fine
    assert_eq!(l.unstake(STAKER, CREATOR, 50), Ok(()));
    assert_eq!(l.staked_value(STAKER, CREATOR), Some(50));
    // a full exit bypasses the floor entirely
    assert_eq!(l.unstake_all(STAKER, CREATOR), Ok(50));
    assert_eq!(l.staked_value(STAKER, CREATOR), Some(0));
    assert_eq!(l.total_staked, 0);
}

#[test]
fn unstake_error_cases() {
    let mut l = setup();
    assert_eq!(l.stake(STAKER, CREATOR, 100, true), Ok(()));
    assert_eq!(l.unstake(STAKER, CREATOR, 0), Err(Error::UnstakingWithNoValue));
    assert_eq!(l.unstake(OTHER_STAKER, CREATOR, 10), Err(Error::StakerDNE));
    assert_eq!(l.unstake(STAKER, 99, 10), Err(Error::CreatorDNE));
    assert_eq!(l.unstake(STAKER, CREATOR, 101), Err(Error::Underflow));
    // a second creator the staker never staked against
    assert_eq!(l.register_creator(8), Ok(()));
    assert_eq!(l.unstake(STAKER, 8, 10), Err(Error::NotStakedForCreator));
    assert_eq!(l.unstake_all(STAKER, 8), Err(Error::NotStakedForCreator));
    // a drained position reports a valueless withdrawal
    assert_eq!(l.unstake_all(STAKER, CREATOR), Ok(100));
    assert_eq!(l.unstake_all(STAKER, CREATOR), Err(Error::UnstakingWithNoValue));
}

#[test]
fn stake_overflow_on_the_global_aggregate_fails() {
    let mut l = setup();
    assert_eq!(l.stake(STAKER, CREATOR, u64::MAX, true), Ok(()));
    assert_eq!(l.total_staked, u64::MAX);
    assert_eq!(l.stake(OTHER_STAKER, CREATOR, 50, true), Err(Error::Overflow));
    // the failed call left everything untouched
    assert_eq!(l.total_staked, u64::MAX);
    assert_eq!(creator_info(&l, CREATOR).0, u64::MAX);
}

#[test]
fn full_stake_lifecycle_scenario() {
    let mut l = setup();
    // staker stakes 100 in round 1
    assert_eq!(l.stake(STAKER, CREATOR, 100, true), Ok(()));
    assert_eq!(l.staked_value(STAKER, CREATOR), Some(100));
    assert_eq!(checkpoints(&l, STAKER, CREATOR), vec![(1, 100)]);
    assert_eq!(creator_info(&l, CREATOR), (100, 1, DEPOSIT));
    assert_eq!(l.total_staked, 100);
    // 50 more in the same round merges into the same checkpoint
    assert_eq!(l.stake(STAKER, CREATOR, 50, true), Ok(()));
    assert_eq!(checkpoints(&l, STAKER, CREATOR), vec![(1, 150)]);
    assert_eq!(staker_counters(&l, STAKER), (150, 150));
    // round 2 begins
    assert!(l.try_advance_round(10));
    assert_eq!(l.round.index, 2);
    // unstaking 100 leaves exactly the floor, in a second checkpoint
    assert_eq!(l.unstake(STAKER, CREATOR, 100), Ok(()));
    assert_eq!(checkpoints(&l, STAKER, CREATOR), vec![(1, 150), (2, 50)]);
    assert_eq!(creator_info(&l, CREATOR).0, 50);
    // the full exit drives the round-2 checkpoint to zero
    assert_eq!(l.unstake_all(STAKER, CREATOR), Ok(50));
    assert_eq!(checkpoints(&l, STAKER, CREATOR), vec![(1, 150), (2, 0)]);
    assert_eq!(creator_info(&l, CREATOR), (0, 0, DEPOSIT));
    assert_eq!(l.total_staked, 0);
    assert_eq!(staker_counters(&l, STAKER), (0, 0));
    // the staker record itself stays
    assert!(l.stakers.iter().any(|s| s.id == STAKER));
}

#[test]
fn stake_then_unstake_same_round_merges_in_place() {
    let mut l = setup();
    assert_eq!(l.stake(STAKER, CREATOR, 100, true), Ok(()));
    let before = checkpoints(&l, STAKER, CREATOR);
    // the round already has a checkpoint, so both calls merge in place
    assert_eq!(l.stake(STAKER, CREATOR, 70, true), Ok(()));
    assert_eq!(l.unstake(STAKER, CREATOR, 70), Ok(()));
    assert_eq!(checkpoints(&l, STAKER, CREATOR), before);
    assert_eq!(l.staked_value(STAKER, CREATOR), Some(100));
    assert_eq!(l.total_staked, 100);
    assert_eq!(creator_info(&l, CREATOR), (100, 1, DEPOSIT));
}

#[test]
fn reopening_a_drained_position_counts_the_staker_again() {
    let mut l = setup();
    assert_eq!(l.stake(STAKER, CREATOR, 100, true), Ok(()));
    assert_eq!(l.unstake_all(STAKER, CREATOR), Ok(100));
    assert_eq!(creator_info(&l, CREATOR).1, 0);
    assert_eq!(l.stake(STAKER, CREATOR, 60, true), Ok(()));
    assert_eq!(creator_info(&l, CREATOR), (60, 1, DEPOSIT));
    assert_eq!(l.unstake_all(STAKER, CREATOR), Ok(60));
    assert_eq!(creator_info(&l, CREATOR).1, 0);
}

#[test]
fn two_stakers_one_creator_aggregates_add_up() {
    let mut l = setup();
    assert_eq!(l.stake(STAKER, CREATOR, 100, true), Ok(()));
    assert_eq!(l.stake(OTHER_STAKER, CREATOR, 200, true), Ok(()));
    assert_eq!(creator_info(&l, CREATOR), (300, 2, DEPOSIT));
    assert_eq!(l.total_staked, 300);
    assert_eq!(staker_counters(&l, STAKER), (100, 100));
    assert_eq!(staker_counters(&l, OTHER_STAKER), (200, 200));
    assert_eq!(l.unstake_all(STAKER, CREATOR), Ok(100));
    assert_eq!(creator_info(&l, CREATOR), (200, 1, DEPOSIT));
    assert_eq!(l.total_staked, 200);
    assert!(l.reconcile_total_staked());
}

#[test]
fn reconciliation_catches_a_corrupted_aggregate() {
    let mut l = setup();
    assert_eq!(l.stake(STAKER, CREATOR, 100, true), Ok(()));
    assert!(l.reconcile_total_staked());
    // break the counter by hand; the summation routine must notice
    l.total_staked = 99;
    assert!(!l.reconcile_total_staked());
}

#[test]
fn with_a_zero_floor_a_partial_exit_can_close_the_position() {
    // MinStake = 0: unstaking down to zero is legal and closes the position
    let mut l = Ledger::new(0, DEPOSIT, 4, 10, 0);
    assert_eq!(l.register_creator(CREATOR), Ok(()));
    assert_eq!(l.stake(STAKER, CREATOR, 80, true), Ok(()));
    assert_eq!(creator_info(&l, CREATOR).1, 1);
    assert_eq!(l.unstake(STAKER, CREATOR, 80), Ok(()));
    assert_eq!(l.staked_value(STAKER, CREATOR), Some(0));
    assert_eq!(creator_info(&l, CREATOR), (0, 0, DEPOSIT));
    assert_eq!(l.total_staked, 0);
}

#[test]
fn staker_counters_stay_equal_and_bounded() {
    let mut l = setup();
    assert_eq!(l.register_creator(8), Ok(()));
    assert_eq!(l.stake(STAKER, CREATOR, 100, true), Ok(()));
    assert_eq!(l.stake(STAKER, 8, 70, true), Ok(()));
    let (total, active) = staker_counters(&l, STAKER);
    assert_eq!(total, 170);
    assert_eq!(active, total);
    assert_eq!(l.unstake(STAKER, 8, 20), Ok(()));
    let (total, active) = staker_counters(&l, STAKER);
    assert_eq!(total, 150);
    assert_eq!(active, total);
}
