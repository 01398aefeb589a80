//! The verified core of a sharded, transactional key-value store.

pub mod limit_laws;
pub mod meta;
pub mod meta_synced;
pub mod node;
pub mod obsidian;
pub mod range;
pub mod replica;
pub mod router;
pub mod router_laws;
pub mod rtest;
pub mod sequencer;
pub mod shard;
pub mod shards;
pub mod storage;
pub mod supervisor;
pub mod sync_laws;
pub mod tablet;
pub mod types;
pub mod util;
pub mod view_laws;
