//! A yield-aggregating vault: share accounting over pooled deposits and
//! the routing of that capital to the best-yielding liquidity pool.

pub mod entries;
pub mod order;
pub mod registry;
pub mod shares;
pub mod vault;
