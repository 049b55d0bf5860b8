//! Accounting core of a cross-chain restaking protocol: the collateral
//! ledger with its liens, the stake and reward ledger with its unbonding
//! queue, and the replicated validator set fed by channel packets.

pub mod crdt;
pub mod error;
pub mod ibc;
pub mod keys;
pub mod ledger;
pub mod listing;
pub mod msg;
pub mod proxy;
pub mod ratio;
pub mod staking;
pub mod state;
pub mod store;
pub mod usage;
pub mod vault;
pub mod version;
