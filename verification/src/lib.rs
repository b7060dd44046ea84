//! A pooled-staking accounting engine.
//!
//! Many independent delegators jointly bond tokens to a staking backend
//! through a single pool. The engine tracks each delegator's proportional
//! claim on bonded principal and pending rewards through points, batches
//! unbonding requests by unlock era, and unwinds positions over the
//! backend's bonding-duration delay window.

use vstd::prelude::*;

pub mod builder;
pub mod convert;
pub mod engine;
pub mod laws;
pub mod pools;
pub mod staking;
pub mod sums;
pub mod table;

verus! {

/// An account, for delegators, pools and role holders alike.
pub type AccountId = u32;

/// The ledger's native balance type.
pub type Balance = u64;

/// The staking backend's discrete time unit.
pub type EraIndex = u32;

/// The wide integer all internal point/balance ratio arithmetic runs in,
/// so that intermediate products of balances and points do not overflow.
pub type WideUint = u128;

/// Bonded account of the pool that `builder::ExtBuilder` creates.
pub const PRIMARY_ACCOUNT: AccountId = 1708226889;

/// Reward account of the pool that `builder::ExtBuilder` creates.
pub const REWARDS_ACCOUNT: AccountId = 1842460259;

} // verus!
