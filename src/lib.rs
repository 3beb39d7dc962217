//! Vote-escrow governance ledger: locking curve, account ledger, proposal
//! lifecycle, vote accounting, incentive apportioning and transfer
//! reconciliation, with their contracts proved by Verus.

pub mod errors;
pub mod utils;
pub mod curve;
pub mod strmap;
pub mod idmap;
pub mod auction;
pub mod farm;
pub mod proposal;
pub mod incentive;
pub mod account;
pub mod ledger;
pub mod management;
pub mod views;
pub mod legacy;
