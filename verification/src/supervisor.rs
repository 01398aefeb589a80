//! Decisions of the supervisor, which keeps the tablets balanced and in order.

pub mod gc;
pub mod gc_laws;
pub mod manifests;
pub mod merge_laws;
pub mod plan_laws;
pub mod queue;
pub mod rebalance;
pub mod transfer;
pub mod transfer_laws;
