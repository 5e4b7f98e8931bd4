//! The sidechain side of the BIP300/301 two-way peg: the rules by which a `beth` node turns
//! Bitcoin deposits into sidechain credits, sidechain withdrawals into Bitcoin payouts, and ties
//! each of its blocks to the Bitcoin mainchain.
//!
//! - [`enforcer`]: what is asked of the enforcer node that watches the mainchain, and what follows
//!   from its replies.
//! - [`mainchain`]: which part of the mainchain a block speaks of.
//! - [`consensus`]: what a block must satisfy beyond the standard Ethereum checks.
//! - [`evm`]: the system calls that a block makes before its transactions.
//! - [`deposit_vault`]: the call that credits deposits.
//! - [`withdrawal_bundle`]: the queue of withdrawal requests, and the bundles that pay them.
//! - [`payload`]: what a block producer adds to a block.
//! - [`chainspec`] and [`config`]: which chain the node runs, and as what.
//!
//! Whatever touches the network, a database or the EVM is done by the caller: functions here take
//! such a step as an argument, or say that it is to be done next.

pub mod bags;
pub mod chainspec;
pub mod config;
pub mod consensus;
pub mod deposit_vault;
pub mod enforcer;
pub mod evm;
pub mod hash;
pub mod mainchain;
pub mod order;
pub mod payload;
pub mod text;
pub mod withdrawal_bundle;
pub mod words;
