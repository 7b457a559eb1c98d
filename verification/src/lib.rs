//! Verified core of the RDR proxy network function: the browsing workload
//! model, the user setups, the random seed lookup and the per-round tally
//! of browsing outcomes.

pub mod hosts;
pub mod json;
pub mod order;
pub mod workload;
pub mod users;
pub mod seed;
pub mod schedule;
