//! Tablets hold onto a key range. They are homed to a single shard, so rebalancing is done by
//! transferring the key range to a new tablet and disposing of the old tablet.

pub mod active_tablet;
pub mod data_tablet;
pub mod decision_laws;
pub mod hydrating_tablet;
pub mod journaled_lsm;
pub mod layout_laws;
pub mod leftovers;
pub mod lsm_tablet;
pub mod meta_tablet;
pub mod outcome;
pub mod outcome_laws;
pub mod outcome_message;
pub mod pending;
pub mod prepare_laws;
pub mod protected;
pub mod read_laws;
pub mod read_only_lsm;
pub mod scan_locks;
pub mod shard_meta_tablet;
pub mod state_laws;
pub mod tablet_inner;
pub mod waiters;
