//! Replicas hold a shard. Of the replicas of a shard one is elected the leader, which serves writes
//! and reads. The others follow the shard's journal.

pub mod recovery;
pub mod shard_journal;

use vstd::prelude::*;

use crate::types::data::JournalSeq;
use crate::types::error::InternalError;
use crate::types::TabletId;

verus! {

/// What a replica is in its shard.
#[derive(Clone, Copy, Debug, PartialEq, Eq, Structural)]
pub enum ReplicaState {
    /// It leads since a position in the shard's journal.
    Leader(JournalSeq),
    Follower,
}

impl ReplicaState {
    /// Whether requests to a tablet are served here. Only the leader serves them.
    pub fn if_leader(self, tablet_id: TabletId) -> (r: Result<(), InternalError>)
        ensures
            r == if self is Leader {
                Ok::<(), InternalError>(())
            } else {
                Err(InternalError::NotLeader(tablet_id))
            },
    {
        match self {
            ReplicaState::Leader(_) => Ok(()),
            ReplicaState::Follower => Err(InternalError::NotLeader(tablet_id)),
        }
    }
}

} // verus!
