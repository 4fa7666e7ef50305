//! Settles a group of signed money balances into point-to-point payments:
//! a partition finder splits the balances into as many independent zero-sum
//! groups as possible, and settlement strategies turn each group into an
//! ordered list of transactions.

pub mod balancing;
pub mod bits;
pub mod debt;
pub mod optimality;
pub mod options;
pub mod partitionings;
pub mod transactions;
pub mod worklist;
