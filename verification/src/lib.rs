//! A round-aware stake/unstake accounting core.
//!
//! Any account can lock value against a designated "creator" account. Time is
//! split into fixed-length rounds; the aggregate staked value is snapshotted
//! once per round so a separate reward engine can later split inflation
//! between stakers and creators in proportion to the stake held during that
//! round.
//!
//! The surrounding environment is expected to supply authenticated caller
//! identities, a monotonically non-decreasing block height, balance custody
//! (reserving and releasing real funds) and durable persistence. This crate
//! holds only the accounting: per-account aggregate records, per-pair bounded
//! checkpoint histories, the round tracker, and the cross-entity numeric
//! invariants that tie them together, all machine-checked.

pub mod errors;
pub mod round;
pub mod sums;
pub mod stake_state;
pub mod accounts;
pub mod ledger;
pub mod laws;

pub use errors::Error;
pub use round::Round;
pub use stake_state::StakeState;
pub use ledger::Ledger;
