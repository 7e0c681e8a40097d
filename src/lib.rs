//! An integer-only settlement engine: a constant-product market maker with
//! multi-hop routing, and a staking ledger with time-accrued rewards.
//!
//! Every amount is an `i128` scaled by 10^18. Every operation either yields
//! the exact result or fails with a typed error and leaves the state as it was.

pub mod error;
pub mod fixed_point;
pub mod forge;
pub mod pool;
pub mod router;
pub mod staking;
