//! A staking / restaking accounting ledger.
//!
//! The ledger tracks which accounts hold which fungible assets, how that
//! value is delegated to validators and sovereign chains under optional
//! caps, how revoked delegations are time-locked in an epoch-bucketed
//! unbond queue, and — for the liquid-staking side — a yield-ordered
//! directory of downstream stake contracts swept by a resumable,
//! budget-limited reward-claim operation.
//!
//! Token transfers, cross-contract calls and other host interactions are
//! left to the surrounding environment: every function here computes on
//! plain values and returns the amounts, recipients and remote actions
//! that the environment should carry out.

pub mod buffers;
pub mod common_actions;
pub mod common_storage;
pub mod config;
pub mod delegation;
pub mod errors;
pub mod gravity;
pub mod identity;
pub mod liquid_staking;
pub mod sovereign;
pub mod token_whitelist;
pub mod unbond;
pub mod unique_payments;
pub mod validator;
