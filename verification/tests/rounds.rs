use creator_staking::errors::Error;
use creator_staking::ledger::Ledger;
use creator_staking::round::Round;
use creator_staking::stake_state::StakeState;

#[test]
fn should_advance_flips_exactly_at_the_round_boundary() {
    let round = Round { index: 1, first_block: 0, length: 10 };
    assert!(!round.should_advance(0));
    assert!(!round.should_advance(9));
    assert!(round.should_advance(10));
    assert!(round.should_advance(11));
    let later = Round { index: 5, first_block: 40, length: 10 };
    assert!(!later.should_advance(49));
    assert!(later.should_advance(50));
}

#[test]
fn should_advance_never_triggers_when_the_boundary_is_unreachable() {
    let round = Round { index: 1, first_block: u64::MAX - 5, length: 10 };
    assert!(!round.should_advance(u64::MAX));
}

#[test]
fn tick_inside_the_round_is_a_no_op() {
    let mut l = Ledger::new(50, 10, 4, 10, 0);
    assert_eq!(l.register_creator(7), Ok(()));
    assert_eq!(l.stake(1, 7, 100, true), Ok(()));
    assert!(!l.try_advance_round(9));
    assert_eq!(l.round.index, 1);
    assert_eq!(l.round.first_block, 0);
    assert!(l.staked_per_round.is_empty());
}

#[test]
fn tick_at_the_boundary_advances_and_snapshots() {
    let mut l = Ledger::new(50, 10, 4, 10, 0);
    assert_eq!(l.register_creator(7), Ok(()));
    assert_eq!(l.stake(1, 7, 100, true), Ok(()));
    assert!(l.try_advance_round(10));
    assert_eq!(l.round.index, 2);
    assert_eq!(l.round.first_block, 10);
    assert_eq!(l.round.length, 10);
    // the new round's slot holds the aggregate observed at the advance
    assert_eq!(l.staked_per_round(2), Some(100));
    assert_eq!(l.staked_per_round(1), None);
    assert_eq!(l.staked_per_round(3), None);
}

#[test]
fn snapshots_are_never_rewritten() {
    let mut l = Ledger::new(50, 10, 4, 10, 0);
    assert_eq!(l.register_creator(7), Ok(()));
    assert_eq!(l.stake(1, 7, 100, true), Ok(()));
    assert!(l.try_advance_round(10));
    assert_eq!(l.staked_per_round(2), Some(100));
    // later staking changes the aggregate but not the written slot
    assert_eq!(l.stake(1, 7, 50, true), Ok(()));
    assert_eq!(l.total_staked, 150);
    assert_eq!(l.staked_per_round(2), Some(100));
    // later rounds add new slots and leave the old one alone
    assert!(l.try_advance_round(20));
    assert!(l.try_advance_round(30));
    assert_eq!(l.staked_per_round(2), Some(100));
    assert_eq!(l.staked_per_round(3), Some(150));
    assert_eq!(l.staked_per_round(4), Some(150));
}

#[test]
fn checkpoints_track_rounds_across_advances() {
    let mut l = Ledger::new(50, 10, 4, 10, 0);
    assert_eq!(l.register_creator(7), Ok(()));
    assert_eq!(l.stake(1, 7, 100, true), Ok(()));
    assert!(l.try_advance_round(10));
    assert_eq!(l.stake(1, 7, 60, true), Ok(()));
    assert!(l.try_advance_round(20));
    assert_eq!(l.unstake(1, 7, 100), Ok(()));
    // one checkpoint per touched round, each with the cumulative value
    assert_eq!(l.staked_value_at_round(1, 7, 1), Some(100));
    assert_eq!(l.staked_value_at_round(1, 7, 2), Some(160));
    assert_eq!(l.staked_value_at_round(1, 7, 3), Some(60));
    assert_eq!(l.staked_value_at_round(1, 7, 9), Some(60));
    assert_eq!(l.staked_value_at_round(1, 7, 0), None);
}

#[test]
fn full_queue_collapses_the_two_oldest_checkpoints() {
    // two checkpoint slots per pair
    let mut l = Ledger::new(50, 10, 2, 10, 0);
    assert_eq!(l.register_creator(7), Ok(()));
    assert_eq!(l.stake(1, 7, 100, true), Ok(()));
    assert!(l.try_advance_round(10));
    assert_eq!(l.stake(1, 7, 50, true), Ok(()));
    // the queue is full; a third round's stake drops the oldest entry
    assert!(l.try_advance_round(20));
    assert_eq!(l.stake(1, 7, 50, true), Ok(()));
    let s = l.stakers.iter().find(|s| s.id == 1).unwrap();
    let p = s.stake_per_creator.iter().find(|p| p.creator == 7).unwrap();
    let chks: Vec<(u64, u64)> = p.state.checkpoints.iter().map(|c| (c.round, c.value)).collect();
    assert_eq!(chks, vec![(2, 150), (3, 200)]);
    // history before the surviving entries is gone; the rest still answers
    assert_eq!(p.state.staked_value_at_round(1), None);
    assert_eq!(p.state.staked_value_at_round(2), Some(150));
    assert_eq!(p.state.staked_value_at_round(3), Some(200));
    // the live aggregates never flinched
    assert_eq!(l.total_staked, 200);
    assert_eq!(l.staked_value(1, 7), Some(200));
}

#[test]
fn stake_state_reports_its_latest_value() {
    let mut s = StakeState::new();
    assert_eq!(s.latest_staked_value(), None);
    assert_eq!(s.stake(1, 100, 4), Ok(()));
    assert_eq!(s.latest_staked_value(), Some(100));
    assert_eq!(s.stake(1, 50, 4), Ok(()));
    assert_eq!(s.latest_staked_value(), Some(150));
    assert_eq!(s.checkpoints.len(), 1);
    assert_eq!(s.stake(2, 10, 4), Ok(()));
    assert_eq!(s.latest_staked_value(), Some(160));
    assert_eq!(s.checkpoints.len(), 2);
}

#[test]
fn stake_state_arithmetic_failures_change_nothing() {
    let mut s = StakeState::new();
    assert_eq!(s.stake(1, u64::MAX, 4), Ok(()));
    assert_eq!(s.stake(1, 1, 4), Err(Error::Overflow));
    assert_eq!(s.latest_staked_value(), Some(u64::MAX));
    assert_eq!(s.checkpoints.len(), 1);
    let mut t = StakeState::new();
    assert_eq!(t.stake(1, 100, 4), Ok(()));
    assert_eq!(t.unstake(1, 101, 4), Err(Error::Underflow));
    assert_eq!(t.latest_staked_value(), Some(100));
    assert_eq!(t.unstake(2, 40, 4), Ok(()));
    assert_eq!(t.latest_staked_value(), Some(60));
    assert_eq!(t.checkpoints.len(), 2);
}
