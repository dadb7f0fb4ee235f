//! A verified staking ledger.
//!
//! The ledger keeps a balance for every account that has ever staked, plus a
//! running total. Callers deposit to stake, withdraw to unstake, and the
//! owner may fan an airdrop out to every recorded account. All arithmetic
//! saturates. The ledger itself is pure: host concerns (caller identity,
//! attached deposits, performing transfers) enter and leave as plain values.

pub mod account;
pub mod laws;
pub mod ledger;

pub use account::AccountId;
pub use ledger::StakeError;
pub use ledger::StakingContract;
pub use ledger::Transfer;
