//! Reward-accrual and distribution engine of an NFT-staking ledger.
//!
//! Holders deposit non-fungible tokens into per-holder clusters of at most
//! five items; reward accrues continuously at a rate determined by cluster
//! composition, and holders periodically convert accrued-but-unreleased
//! reward into whole reward units, each satisfied by transferring a specific
//! reward-bearing NFT out of a finite inventory.

pub mod accrual;
pub mod contract;
pub mod decimal;
pub mod error;
pub mod querier;
pub mod selection;
pub mod staking;
pub mod state;
