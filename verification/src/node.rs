//! Nodes represent a single process, and can be assigned shards to serve.
//!
//! Most shards are assigned by the supervisor via the metadata. This cannot work for the shard of
//! the metadata itself: it is assigned to a handful of the nodes with the lowest numbers, and the
//! supervisor is run by whichever is elected as its leader.

use vstd::prelude::*;

use crate::meta::{MetaKey, MetaSnapshot, NodeId, SyncType};
use crate::replica::ReplicaState;
use crate::types::data::JournalSeq;
use crate::types::ShardId;
use crate::util::ordmap::OrdMap;

verus! {

/// How many nodes take part in the shard of the metadata.
pub const META_REPLICAS: usize = 3;

/// Why a node cannot do what is asked.
#[derive(Clone, Copy, Debug, PartialEq, Eq, Structural)]
pub enum NodeError {
    /// The node takes no part in the shard.
    NotOwned(NodeId, ShardId),
    /// The node does not run the metadata.
    NoMeta(NodeId),
    /// The node does not run the supervisor.
    NoSupervisor(NodeId),
    /// The metadata do not describe the shard.
    UnknownShard(ShardId),
}

/// A change to the shards that a node takes part in.
#[derive(Clone, Copy, Debug, PartialEq, Eq, Structural)]
pub enum ReplicaChange {
    Join(ShardId),
    Leave(ShardId),
}

/// What to do about the metadata and the supervisor.
#[derive(Clone, Copy, Debug, PartialEq, Eq, Structural)]
pub enum MetaStep {
    Start,
    Stop,
    Keep,
}

/// A node.
pub struct Node {
    pub node_id: NodeId,
    /// The shards that the node takes part in.
    pub replicas: OrdMap<ShardId, ()>,
    /// Whether the node runs the metadata and the supervisor.
    pub hosts_meta: bool,
}

/// Whether a node is among the first of the nodes, in order.
pub open spec fn among_first(node_ids: Seq<NodeId>, id: NodeId) -> bool {
    exists|i: int| 0 <= i < META_REPLICAS && i < node_ids.len() && #[trigger] node_ids[i] == id
}

/// The shards that a node takes part in once a shard's metadata is new. The shard of the metadata
/// is left alone.
pub open spec fn after_shard(
    node: NodeId,
    replicas: Map<ShardId, ()>,
    snapshot: MetaSnapshot,
    id: ShardId,
) -> Result<Map<ShardId, ()>, NodeError> {
    if id == ShardId::meta() {
        Ok(replicas)
    } else if !snapshot.shards@.contains_key(id) {
        Err(NodeError::UnknownShard(id))
    } else if snapshot.shards@[id]@.contains(node) {
        Ok(replicas.insert(id, ()))
    } else {
        Ok(replicas.remove(id))
    }
}

/// The shards that a node takes part in once the metadata of shards is new, up to the first that
/// fails.
pub open spec fn after_shards(
    node: NodeId,
    replicas: Map<ShardId, ()>,
    snapshot: MetaSnapshot,
    ids: Seq<ShardId>,
) -> (Map<ShardId, ()>, Option<NodeError>)
    decreases ids.len(),
{
    if ids.len() == 0 {
        (replicas, None)
    } else {
        let (prior, e) = after_shards(node, replicas, snapshot, ids.drop_last());
        match e {
            Some(e) => (prior, Some(e)),
            None => match after_shard(node, prior, snapshot, ids.last()) {
                Ok(next) => (next, None),
                Err(e) => (prior, Some(e)),
            },
        }
    }
}

proof fn lemma_after_shards(
    node: NodeId,
    replicas: Map<ShardId, ()>,
    snapshot: MetaSnapshot,
    ids: Seq<ShardId>,
    n: int,
)
    requires
        0 <= n <= ids.len(),
        after_shards(node, replicas, snapshot, ids.take(n)).1 is Some,
    ensures
        after_shards(node, replicas, snapshot, ids) == after_shards(
            node,
            replicas,
            snapshot,
            ids.take(n),
        ),
        changes_for(node, replicas, snapshot, ids) == changes_for(
            node,
            replicas,
            snapshot,
            ids.take(n),
        ),
    decreases ids.len(),
{
    if n == ids.len() {
        assert(ids.take(n) =~= ids);
    } else {
        assert(ids.drop_last().take(n) =~= ids.take(n));
        lemma_after_shards(node, replicas, snapshot, ids.drop_last(), n);
    }
}

/// What changes where a node takes part in a shard or does not any more.
pub open spec fn change_at(before: bool, after: bool, id: ShardId) -> Option<ReplicaChange> {
    if after && !before {
        Some(ReplicaChange::Join(id))
    } else if before && !after {
        Some(ReplicaChange::Leave(id))
    } else {
        None
    }
}

/// What changes once the metadata of shards is new, shard by shard, up to the first that fails.
pub open spec fn changes_for(
    node: NodeId,
    replicas: Map<ShardId, ()>,
    snapshot: MetaSnapshot,
    ids: Seq<ShardId>,
) -> Seq<ReplicaChange>
    decreases ids.len(),
{
    if ids.len() == 0 {
        Seq::empty()
    } else {
        let (rest, id) = (ids.drop_last(), ids.last());
        let changes = changes_for(node, replicas, snapshot, rest);
        let (now, e) = after_shards(node, replicas, snapshot, rest);
        if e is Some {
            changes
        } else {
            match after_shard(node, now, snapshot, id) {
                Ok(next) => match change_at(now.contains_key(id), next.contains_key(id), id) {
                    Some(change) => changes.push(change),
                    None => changes,
                },
                Err(_) => changes,
            }
        }
    }
}

/// The shards among pieces of the metadata.
pub open spec fn shards_among(keys: Seq<MetaKey>) -> Seq<ShardId>
    decreases keys.len(),
{
    if keys.len() == 0 {
        Seq::empty()
    } else {
        match keys.last() {
            MetaKey::Shard(id) => shards_among(keys.drop_last()).push(id),
            _ => shards_among(keys.drop_last()),
        }
    }
}

/// The shards whose metadata is new.
pub open spec fn new_shards(sync: SyncType, snapshot: MetaSnapshot) -> Seq<ShardId> {
    match sync {
        SyncType::Initial => snapshot.shards.keys(),
        SyncType::Tx(keys) => shards_among(keys@),
    }
}

/// Where a node takes in all of the metadata, it ends up in exactly the shards that are assigned
/// to it, next to the shard of the metadata.
pub proof fn law_initial_sync_follows_assignment(
    node: NodeId,
    replicas: Map<ShardId, ()>,
    snapshot: MetaSnapshot,
    n: int,
    id: ShardId,
)
    requires
        snapshot.wf(),
        0 <= n <= snapshot.shards.keys().len(),
    ensures
        after_shards(node, replicas, snapshot, snapshot.shards.keys().take(n)).1 is None,
        ({
            let after = after_shards(
                node,
                replicas,
                snapshot,
                snapshot.shards.keys().take(n),
            ).0;
            if id != ShardId::meta() && snapshot.shards.keys().take(n).contains(id) {
                after.contains_key(id) == snapshot.shards@[id]@.contains(node)
            } else {
                after.contains_key(id) == replicas.contains_key(id)
            }
        }),
    decreases n,
{
    let ids = snapshot.shards.keys().take(n);
    if n > 0 {
        let front = snapshot.shards.keys().take(n - 1);
        assert(ids.drop_last() =~= front);
        law_initial_sync_follows_assignment(node, replicas, snapshot, n - 1, id);
        snapshot.shards.lemma_entry(n - 1);
        assert(ids.last() == snapshot.shards.keys()[n - 1]);
        if ids.contains(id) {
            let i = ids.index_of(id);
            if i < n - 1 {
                assert(front[i] == id);
                assert(snapshot.shards.keys()[i].0 < snapshot.shards.keys()[n - 1].0);
            }
        }
        if front.contains(id) {
            assert(ids[front.index_of(id)] == id);
        }
        if id == ids.last() {
            assert(ids[n - 1] == id);
        }
    }
}

fn contains_node(ids: &Vec<NodeId>, id: NodeId) -> (r: bool)
    ensures
        r == ids@.contains(id),
{
    let mut i: usize = 0;
    while i < ids.len()
        invariant
            i <= ids@.len(),
            forall|j: int| 0 <= j < i ==> #[trigger] ids@[j] != id,
        decreases ids@.len() - i,
    {
        if ids[i] == id {
            return true;
        }
        i += 1;
    }
    false
}

/// What each replica is in its shard, from where it became the leader.
pub open spec fn states_of(replicas: Seq<(ShardId, Option<JournalSeq>)>) -> Seq<
    (ShardId, ReplicaState),
> {
    Seq::new(
        replicas.len(),
        |i: int|
            (
                replicas[i].0,
                match replicas[i].1 {
                    Some(seq) => ReplicaState::Leader(seq),
                    None => ReplicaState::Follower,
                },
            ),
    )
}

/// What each replica is in its shard, from where it became the leader.
pub fn replica_states(replicas: &Vec<(ShardId, Option<JournalSeq>)>) -> (r: Vec<
    (ShardId, ReplicaState),
>)
    ensures
        r@ == states_of(replicas@),
{
    let mut r: Vec<(ShardId, ReplicaState)> = Vec::new();
    let mut i: usize = 0;
    while i < replicas.len()
        invariant
            i <= replicas@.len(),
            r@ == states_of(replicas@).take(i as int),
        decreases replicas@.len() - i,
    {
        let (shard_id, became_leader_at) = replicas[i];
        let state = match became_leader_at {
            Some(seq) => ReplicaState::Leader(seq),
            None => ReplicaState::Follower,
        };
        r.push((shard_id, state));
        i += 1;
        assert(r@ =~= states_of(replicas@).take(i as int));
    }
    assert(r@ =~= states_of(replicas@));
    r
}

/// Whether the shard of the metadata is led here.
pub open spec fn leads_meta(states: Seq<(ShardId, ReplicaState)>) -> bool {
    exists|i: int|
        0 <= i < states.len() && (#[trigger] states[i]).0 == ShardId::meta() && states[i].1 is Leader
}

impl Node {
    pub open spec fn wf(self) -> bool {
        self.replicas.wf()
    }

    pub fn new(node_id: NodeId) -> (r: Self)
        ensures
            r.wf(),
            r.node_id == node_id,
            r.replicas@ == Map::<ShardId, ()>::empty(),
            !r.hosts_meta,
    {
        Node { node_id, replicas: OrdMap::new(), hosts_meta: false }
    }

    pub fn id(&self) -> (r: NodeId)
        ensures
            r == self.node_id,
    {
        self.node_id
    }

    /// Whether the node takes part in a shard.
    pub fn shard(&self, shard_id: ShardId) -> (r: Result<(), NodeError>)
        requires
            self.wf(),
        ensures
            r == if self.replicas@.contains_key(shard_id) {
                Ok::<(), NodeError>(())
            } else {
                Err(NodeError::NotOwned(self.node_id, shard_id))
            },
    {
        if self.replicas.contains_key(&shard_id) {
            Ok(())
        } else {
            Err(NodeError::NotOwned(self.node_id, shard_id))
        }
    }

    /// Whether the node runs the metadata.
    pub fn meta(&self) -> (r: Result<(), NodeError>)
        ensures
            r == if self.hosts_meta {
                Ok::<(), NodeError>(())
            } else {
                Err(NodeError::NoMeta(self.node_id))
            },
    {
        if self.hosts_meta {
            Ok(())
        } else {
            Err(NodeError::NoMeta(self.node_id))
        }
    }

    /// Whether the node runs the supervisor.
    pub fn supervisor(&self) -> (r: Result<(), NodeError>)
        ensures
            r == if self.hosts_meta {
                Ok::<(), NodeError>(())
            } else {
                Err(NodeError::NoSupervisor(self.node_id))
            },
    {
        if self.hosts_meta {
            Ok(())
        } else {
            Err(NodeError::NoSupervisor(self.node_id))
        }
    }

    /// Takes part in a shard. Says whether that is new.
    pub fn ensure_replica(&mut self, shard_id: ShardId) -> (r: bool)
        requires
            old(self).wf(),
        ensures
            final(self).wf(),
            *final(self) == (Node { replicas: final(self).replicas, ..*old(self) }),
            final(self).replicas@ == old(self).replicas@.insert(shard_id, ()),
            r == !old(self).replicas@.contains_key(shard_id),
    {
        if self.replicas.contains_key(&shard_id) {
            assert(self.replicas@ =~= self.replicas@.insert(shard_id, ()));
            return false;
        }
        self.replicas.insert(shard_id, ());
        true
    }

    /// Takes no part in a shard any more. Says whether that is new.
    pub fn remove_replica(&mut self, shard_id: ShardId) -> (r: bool)
        requires
            old(self).wf(),
        ensures
            final(self).wf(),
            *final(self) == (Node { replicas: final(self).replicas, ..*old(self) }),
            final(self).replicas@ == old(self).replicas@.remove(shard_id),
            r == old(self).replicas@.contains_key(shard_id),
    {
        self.replicas.remove(&shard_id).is_some()
    }

    /// Takes in the metadata of a shard. Says what changes.
    pub fn shard_metadata_changed(&mut self, snapshot: &MetaSnapshot, shard_id: ShardId) -> (r:
        Result<Option<ReplicaChange>, NodeError>)
        requires
            old(self).wf(),
            snapshot.wf(),
        ensures
            final(self).wf(),
            match after_shard(old(self).node_id, old(self).replicas@, *snapshot, shard_id) {
                Ok(replicas) => {
                    &&& *final(self) == (Node { replicas: final(self).replicas, ..*old(self) })
                    &&& final(self).replicas@ == replicas
                    &&& r matches Ok(change)
                    &&& change == change_at(
                        old(self).replicas@.contains_key(shard_id),
                        replicas.contains_key(shard_id),
                        shard_id,
                    )
                },
                Err(e) => r == Err::<Option<ReplicaChange>, NodeError>(e) && *final(self) == *old(
                    self,
                ),
            },
    {
        // Which nodes take part in this shard does not depend on the metadata.
        if shard_id == ShardId::meta() {
            return Ok(None);
        }
        let assigned = match snapshot.shards.get(&shard_id) {
            Some(assigned) => assigned,
            None => {
                return Err(NodeError::UnknownShard(shard_id));
            },
        };
        if contains_node(assigned, self.node_id) {
            if self.ensure_replica(shard_id) {
                return Ok(Some(ReplicaChange::Join(shard_id)));
            }
        } else if self.remove_replica(shard_id) {
            return Ok(Some(ReplicaChange::Leave(shard_id)));
        }
        Ok(None)
    }

    /// Takes in what of the metadata is new. Returns what changes, up to the first failure.
    pub fn try_sync_meta(&mut self, sync_type: &SyncType, snapshot: &MetaSnapshot) -> (r: (
        Vec<ReplicaChange>,
        Result<(), NodeError>,
    ))
        requires
            old(self).wf(),
            snapshot.wf(),
        ensures
            final(self).wf(),
            *final(self) == (Node { replicas: final(self).replicas, ..*old(self) }),
            ({
                let after = after_shards(
                    old(self).node_id,
                    old(self).replicas@,
                    *snapshot,
                    new_shards(*sync_type, *snapshot),
                );
                &&& final(self).replicas@ == after.0
                &&& r.1 == match after.1 {
                    Some(e) => Err::<(), NodeError>(e),
                    None => Ok(()),
                }
            }),
            r.0@ == changes_for(
                old(self).node_id,
                old(self).replicas@,
                *snapshot,
                new_shards(*sync_type, *snapshot),
            ),
            after_changes(old(self).replicas@, r.0@) == final(self).replicas@,
    {
        let ids = match sync_type {
            SyncType::Initial => shard_keys(snapshot),
            SyncType::Tx(keys) => shard_ids_among(keys),
        };
        let mut changes: Vec<ReplicaChange> = Vec::new();
        let mut i: usize = 0;
        assert(ids@.take(0) =~= Seq::empty());
        while i < ids.len()
            invariant
                i <= ids@.len(),
                self.wf(),
                snapshot.wf(),
                *self == (Node { replicas: self.replicas, ..*old(self) }),
                ids@ == new_shards(*sync_type, *snapshot),
                after_shards(
                    old(self).node_id,
                    old(self).replicas@,
                    *snapshot,
                    ids@.take(i as int),
                ) == (self.replicas@, None::<NodeError>),
                changes@ == changes_for(
                    old(self).node_id,
                    old(self).replicas@,
                    *snapshot,
                    ids@.take(i as int),
                ),
                after_changes(old(self).replicas@, changes@) == self.replicas@,
            decreases ids@.len() - i,
        {
            proof {
                assert(ids@.take(i + 1).drop_last() =~= ids@.take(i as int));
                assert(ids@.take(i + 1).last() == ids@[i as int]);
            }
            let ghost now = self.replicas@;
            let ghost made = changes@;
            match self.shard_metadata_changed(snapshot, ids[i]) {
                Ok(change) => match change {
                    Some(change) => {
                        changes.push(change);
                        assert(changes@.drop_last() =~= made);
                    },
                    None => {
                        assert(self.replicas@ =~= now);
                    },
                },
                Err(e) => {
                    proof {
                        lemma_after_shards(
                            old(self).node_id,
                            old(self).replicas@,
                            *snapshot,
                            ids@,
                            i + 1,
                        );
                    }
                    return (changes, Err(e));
                },
            }
            i += 1;
        }
        assert(ids@.take(i as int) =~= ids@);
        (changes, Ok(()))
    }

    /// Takes part in the shard of the metadata where the node is among the first of the nodes,
    /// which are given in order. Says what changes.
    pub fn watch_nodes(&mut self, node_ids: &Vec<NodeId>) -> (r: Option<ReplicaChange>)
        requires
            old(self).wf(),
        ensures
            final(self).wf(),
            *final(self) == (Node { replicas: final(self).replicas, ..*old(self) }),
            final(self).replicas@ == if among_first(node_ids@, old(self).node_id) {
                old(self).replicas@.insert(ShardId::meta(), ())
            } else {
                old(self).replicas@.remove(ShardId::meta())
            },
            r == if among_first(node_ids@, old(self).node_id) == old(self).replicas@.contains_key(
                ShardId::meta(),
            ) {
                None
            } else if among_first(node_ids@, old(self).node_id) {
                Some(ReplicaChange::Join(ShardId::meta()))
            } else {
                Some(ReplicaChange::Leave(ShardId::meta()))
            },
    {
        let mut joins = false;
        let mut i: usize = 0;
        while i < META_REPLICAS && i < node_ids.len()
            invariant
                i <= META_REPLICAS,
                i <= node_ids@.len(),
                *self == *old(self),
                joins == (exists|j: int| 0 <= j < i && #[trigger] node_ids@[j] == self.node_id),
            decreases META_REPLICAS - i,
        {
            if node_ids[i] == self.node_id {
                joins = true;
            }
            i += 1;
        }
        assert(joins == among_first(node_ids@, self.node_id));
        if joins {
            if self.ensure_replica(ShardId::meta()) {
                return Some(ReplicaChange::Join(ShardId::meta()));
            }
        } else if self.remove_replica(ShardId::meta()) {
            return Some(ReplicaChange::Leave(ShardId::meta()));
        }
        None
    }

    /// Runs the metadata and the supervisor where the shard of the metadata is led here, and stops
    /// them otherwise. They are started only once the shard's tablet can be had: `reachable` says
    /// whether it can.
    pub fn follow_leadership(&mut self, states: &Vec<(ShardId, ReplicaState)>, reachable: bool) -> (r:
        MetaStep)
        ensures
            *final(self) == (Node { hosts_meta: final(self).hosts_meta, ..*old(self) }),
            final(self).hosts_meta == (leads_meta(states@) && (old(self).hosts_meta || reachable)),
            r == if !leads_meta(states@) {
                MetaStep::Stop
            } else if !old(self).hosts_meta && reachable {
                MetaStep::Start
            } else {
                MetaStep::Keep
            },
    {
        let mut leads = false;
        let mut i: usize = 0;
        while i < states.len()
            invariant
                i <= states@.len(),
                *self == *old(self),
                leads == (exists|j: int|
                    0 <= j < i && (#[trigger] states@[j]).0 == ShardId::meta()
                        && states@[j].1 is Leader),
            decreases states@.len() - i,
        {
            if states[i].0 == ShardId::meta() {
                if let ReplicaState::Leader(_) = states[i].1 {
                    leads = true;
                }
            }
            i += 1;
        }
        if !leads {
            self.hosts_meta = false;
            return MetaStep::Stop;
        }
        if !self.hosts_meta && reachable {
            self.hosts_meta = true;
            return MetaStep::Start;
        }
        MetaStep::Keep
    }
}

/// The shards that a node takes part in after changes.
pub open spec fn after_changes(replicas: Map<ShardId, ()>, changes: Seq<ReplicaChange>) -> Map<
    ShardId,
    (),
>
    decreases changes.len(),
{
    if changes.len() == 0 {
        replicas
    } else {
        let prior = after_changes(replicas, changes.drop_last());
        match changes.last() {
            ReplicaChange::Join(id) => prior.insert(id, ()),
            ReplicaChange::Leave(id) => prior.remove(id),
        }
    }
}

fn shard_keys(snapshot: &MetaSnapshot) -> (r: Vec<ShardId>)
    ensures
        r@ == snapshot.shards.keys(),
{
    let mut r: Vec<ShardId> = Vec::new();
    let mut i: usize = 0;
    while i < snapshot.shards.entries.len()
        invariant
            i <= snapshot.shards.entries@.len(),
            r@ == snapshot.shards.keys().take(i as int),
        decreases snapshot.shards.entries@.len() - i,
    {
        r.push(snapshot.shards.entries[i].0);
        i += 1;
        assert(r@ =~= snapshot.shards.keys().take(i as int));
    }
    assert(r@ =~= snapshot.shards.keys());
    r
}

fn shard_ids_among(keys: &Vec<MetaKey>) -> (r: Vec<ShardId>)
    ensures
        r@ == shards_among(keys@),
{
    let mut r: Vec<ShardId> = Vec::new();
    let mut i: usize = 0;
    assert(keys@.take(0) =~= Seq::empty());
    while i < keys.len()
        invariant
            i <= keys@.len(),
            r@ == shards_among(keys@.take(i as int)),
        decreases keys@.len() - i,
    {
        proof {
            assert(keys@.take(i + 1).drop_last() =~= keys@.take(i as int));
            assert(keys@.take(i + 1).last() == keys@[i as int]);
        }
        if let MetaKey::Shard(id) = keys[i] {
            r.push(id);
        }
        i += 1;
    }
    assert(keys@.take(i as int) =~= keys@);
    r
}

} // verus!
