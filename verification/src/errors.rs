//! The error surface of the staking core.

use vstd::prelude::*;

verus! {

/// Everything that can go wrong in a staking operation.
///
/// Two families share this enum. Validation errors (`StakerDNE` through
/// `UnstakingWithNoValue`) are detected before any field is written, so a
/// failed call leaves every entity untouched. Arithmetic errors (`Overflow`,
/// `Underflow`) guard the solvency-relevant sums: an operation that would
/// overflow or underflow one of them fails outright instead of clamping.
#[derive(Clone, Copy, PartialEq, Eq, Structural, Debug)]
pub enum Error {
    /// No `StakerInfo` record exists for the calling account.
    StakerDNE,
    /// No `CreatorInfo` record exists for the target account.
    CreatorDNE,
    /// The account is already registered as a creator.
    CreatorAlreadyRegistered,
    /// A creator may only unregister once every position against it has been
    /// withdrawn, so that no stake is left pointing at a removed record.
    CreatorStakeNotZero,
    /// The staker holds no stake position for this creator.
    NotStakedForCreator,
    /// The staked amount is below the configured minimum stake.
    StakeTooLow,
    /// A partial withdrawal may not leave a remaining position below the
    /// minimum stake; a full exit goes through `unstake_all` instead.
    RemainingStakeTooLow,
    /// The balance custodian reported that the staker cannot cover the amount.
    InsufficientBalance,
    /// A withdrawal of zero value, or from a position already at zero.
    UnstakingWithNoValue,
    /// A balance-affecting sum would exceed the representable range.
    Overflow,
    /// A balance-affecting subtraction would drop below zero.
    Underflow,
}

} // verus!
