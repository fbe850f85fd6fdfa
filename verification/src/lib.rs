//! A proportional staking-reward ledger.
//!
//! Users deposit a fungible asset, accrue rewards proportional to their share
//! of the total stake over elapsed time, and may withdraw principal or claim
//! accrued rewards at any time.  The execution environment that supplies
//! caller identity, the clock and the asset transfers is injected: every
//! operation takes the caller and the current time as plain values and
//! returns the amount the host must transfer.

pub mod laws;
pub mod ledger;

pub use ledger::RewardLedger;
pub use ledger::StakingContract;
