//! The cluster's metadata: what tablets and transfers there are, and in what state.

use vstd::prelude::*;

use crate::range::Range;
use crate::types::{ColoGroupId, KeyspaceId, ShardId, TabletId};
use crate::util::ordmap::{OrdKey, OrdMap};

verus! {

/// A transfer of data between tablets.
#[derive(Clone, Copy, Debug, PartialEq, Eq, Structural)]
pub struct TransferId(pub u128);

/// A node of the cluster.
#[derive(Clone, Copy, Debug, PartialEq, Eq, Structural)]
pub struct NodeId(pub u64);

/// What a tablet is good for.
#[derive(Clone, Copy, Debug, PartialEq, Eq, Structural)]
pub enum TabletState {
    /// It copies the data of other tablets.
    Hydrating,
    /// It serves reads and writes.
    Active,
    /// It serves reads only.
    Frozen,
    /// It serves nothing.
    Defunct,
}

/// What a state permits and promises.
#[derive(Clone, Copy, Debug, PartialEq, Eq, Structural)]
pub struct TabletStateProperties {
    pub hydrating: bool,
    pub readable: bool,
    pub writable: bool,
    /// All of the data is there.
    pub complete: bool,
}

impl TabletState {
    pub open spec fn properties_spec(self) -> TabletStateProperties {
        TabletStateProperties {
            hydrating: self is Hydrating,
            readable: self is Active || self is Frozen,
            writable: self is Active,
            complete: self is Active || self is Frozen,
        }
    }

    #[verifier::when_used_as_spec(properties_spec)]
    pub fn properties(self) -> (r: TabletStateProperties)
        ensures
            r == self.properties_spec(),
    {
        match self {
            TabletState::Hydrating => TabletStateProperties {
                hydrating: true,
                readable: false,
                writable: false,
                complete: false,
            },
            TabletState::Active => TabletStateProperties {
                hydrating: false,
                readable: true,
                writable: true,
                complete: true,
            },
            TabletState::Frozen => TabletStateProperties {
                hydrating: false,
                readable: true,
                writable: false,
                complete: true,
            },
            TabletState::Defunct => TabletStateProperties {
                hydrating: false,
                readable: false,
                writable: false,
                complete: false,
            },
        }
    }
}

/// How far a transfer is.
#[derive(Clone, Copy, Debug, PartialEq, Eq, Structural)]
pub enum TransferState {
    /// The destinations copy what the sources have, while the sources take writes.
    Copy,
    /// The sources take no writes, so that the destinations can copy the rest.
    Catchup,
    /// The destinations have all of the data too.
    Synced,
    /// The sources serve nothing any more.
    Handoff,
    /// The destinations serve in place of the sources.
    Complete,
    /// The sources serve as before.
    Aborted,
}

impl TransferState {
    /// Which state may follow which.
    pub open spec fn leads_to(self, next: TransferState) -> bool {
        match self {
            TransferState::Copy => next is Catchup,
            TransferState::Catchup => next is Synced || next is Aborted,
            TransferState::Synced => next is Handoff,
            TransferState::Handoff => next is Complete,
            TransferState::Complete => false,
            TransferState::Aborted => false,
        }
    }

    pub fn can_transition(self, next: TransferState) -> (r: bool)
        ensures
            r == self.leads_to(next),
    {
        match (self, next) {
            (TransferState::Copy, TransferState::Catchup) => true,
            (TransferState::Catchup, TransferState::Synced) => true,
            (TransferState::Catchup, TransferState::Aborted) => true,
            (TransferState::Synced, TransferState::Handoff) => true,
            (TransferState::Handoff, TransferState::Complete) => true,
            _ => false,
        }
    }

    pub open spec fn tablet_states_spec(self) -> (TabletState, TabletState) {
        match self {
            TransferState::Copy => (TabletState::Active, TabletState::Hydrating),
            TransferState::Catchup => (TabletState::Frozen, TabletState::Hydrating),
            TransferState::Synced => (TabletState::Frozen, TabletState::Frozen),
            TransferState::Handoff => (TabletState::Defunct, TabletState::Frozen),
            TransferState::Complete => (TabletState::Defunct, TabletState::Active),
            TransferState::Aborted => (TabletState::Active, TabletState::Defunct),
        }
    }

    /// The states of the sources and of the destinations.
    #[verifier::when_used_as_spec(tablet_states_spec)]
    pub fn tablet_states(self) -> (r: (TabletState, TabletState))
        ensures
            r == self.tablet_states_spec(),
    {
        match self {
            TransferState::Copy => (TabletState::Active, TabletState::Hydrating),
            TransferState::Catchup => (TabletState::Frozen, TabletState::Hydrating),
            TransferState::Synced => (TabletState::Frozen, TabletState::Frozen),
            TransferState::Handoff => (TabletState::Defunct, TabletState::Frozen),
            TransferState::Complete => (TabletState::Defunct, TabletState::Active),
            TransferState::Aborted => (TabletState::Active, TabletState::Defunct),
        }
    }
}

/// A state, or the way from one state to the next.
#[derive(Clone, Copy, Debug, PartialEq, Eq, Structural)]
pub enum MetaState<T> {
    Stable(T),
    Transitioning(T, T),
}

/// At each point of a transfer, whichever of the old and the new state each side is in: one side
/// has all of the data; no destination takes writes while a source serves reads; and no source
/// takes writes while a destination serves reads.
pub proof fn law_transfer_is_safe(
    curr: TransferState,
    next: TransferState,
    src: TabletState,
    dst: TabletState,
)
    requires
        curr.leads_to(next) || curr == next,
        src == curr.tablet_states().0 || src == next.tablet_states().0,
        dst == curr.tablet_states().1 || dst == next.tablet_states().1,
    ensures
        src.properties().complete || dst.properties().complete,
        !(dst.properties().writable && src.properties().readable),
        !(src.properties().writable && dst.properties().readable),
{
}

/// What is known of a tablet.
#[derive(Debug)]
pub struct TabletMetadata {
    pub colo_group_id: ColoGroupId,
    pub range: Range<Vec<u8>>,
    pub state: MetaState<TabletState>,
    /// The transfer that the tablet takes part in.
    pub transfer_id: Option<TransferId>,
}

/// What is known of a tablet, with keys as sequences.
pub struct TabletMetadataView {
    pub colo_group_id: ColoGroupId,
    pub range: Range<Seq<u8>>,
    pub state: MetaState<TabletState>,
    pub transfer_id: Option<TransferId>,
}

impl View for TabletMetadata {
    type V = TabletMetadataView;

    open spec fn view(&self) -> TabletMetadataView {
        TabletMetadataView {
            colo_group_id: self.colo_group_id,
            range: self.range@,
            state: self.state,
            transfer_id: self.transfer_id,
        }
    }
}

impl Clone for TabletMetadata {
    fn clone(&self) -> (r: Self)
        ensures
            r@ == self@,
    {
        TabletMetadata {
            colo_group_id: self.colo_group_id,
            range: self.range.clone(),
            state: self.state,
            transfer_id: self.transfer_id,
        }
    }
}

/// What is known of a transfer.
#[derive(Debug)]
pub struct TransferMetadata {
    pub state: MetaState<TransferState>,
    pub srcs: Vec<TabletId>,
    pub dsts: Vec<TabletId>,
    /// When the state was entered, in nanoseconds.
    pub timestamp: u64,
}

/// What is known of a transfer, with lists as sequences.
pub struct TransferMetadataView {
    pub state: MetaState<TransferState>,
    pub srcs: Seq<TabletId>,
    pub dsts: Seq<TabletId>,
    pub timestamp: u64,
}

impl View for TransferMetadata {
    type V = TransferMetadataView;

    open spec fn view(&self) -> TransferMetadataView {
        TransferMetadataView {
            state: self.state,
            srcs: self.srcs@,
            dsts: self.dsts@,
            timestamp: self.timestamp,
        }
    }
}

/// The same tablets in a list of their own.
pub fn copy_ids(ids: &Vec<TabletId>) -> (r: Vec<TabletId>)
    ensures
        r@ == ids@,
{
    let mut r: Vec<TabletId> = Vec::new();
    let mut i: usize = 0;
    while i < ids.len()
        invariant
            i <= ids@.len(),
            r@ == ids@.take(i as int),
        decreases ids@.len() - i,
    {
        r.push(ids[i]);
        i += 1;
        assert(r@ =~= ids@.take(i as int));
    }
    assert(r@ =~= ids@);
    r
}

impl Clone for TransferMetadata {
    fn clone(&self) -> (r: Self)
        ensures
            r@ == self@,
    {
        TransferMetadata {
            state: self.state,
            srcs: copy_ids(&self.srcs),
            dsts: copy_ids(&self.dsts),
            timestamp: self.timestamp,
        }
    }
}

/// What a write to the metadata sets.
#[derive(Debug)]
pub enum MetaPut {
    Tablet(TabletId, TabletMetadata),
    Transfer(TransferId, TransferMetadata),
}

/// What a write to the metadata sets, with keys and lists as sequences.
pub enum MetaPutView {
    Tablet(TabletId, TabletMetadataView),
    Transfer(TransferId, TransferMetadataView),
}

impl View for MetaPut {
    type V = MetaPutView;

    open spec fn view(&self) -> MetaPutView {
        match self {
            MetaPut::Tablet(id, m) => MetaPutView::Tablet(*id, m@),
            MetaPut::Transfer(id, m) => MetaPutView::Transfer(*id, m@),
        }
    }
}

/// The views of a sequence of puts.
pub open spec fn put_views(s: Seq<MetaPut>) -> Seq<MetaPutView> {
    Seq::new(s.len(), |i: int| s[i]@)
}

impl View for TransferId {
    type V = TransferId;

    open spec fn view(&self) -> TransferId {
        *self
    }
}

impl OrdKey for TransferId {
    open spec fn precedes(a: TransferId, b: TransferId) -> bool {
        a.0 < b.0
    }

    fn is_before(&self, other: &Self) -> (r: bool) {
        self.0 < other.0
    }

    proof fn lemma_irreflexive(a: TransferId) {
    }

    proof fn lemma_transitive(a: TransferId, b: TransferId, c: TransferId) {
    }

    proof fn lemma_total(a: TransferId, b: TransferId) {
    }
}

impl View for NodeId {
    type V = NodeId;

    open spec fn view(&self) -> NodeId {
        *self
    }
}

impl OrdKey for NodeId {
    open spec fn precedes(a: NodeId, b: NodeId) -> bool {
        a.0 < b.0
    }

    fn is_before(&self, other: &Self) -> (r: bool) {
        self.0 < other.0
    }

    proof fn lemma_irreflexive(a: NodeId) {
    }

    proof fn lemma_transitive(a: NodeId, b: NodeId, c: NodeId) {
    }

    proof fn lemma_total(a: NodeId, b: NodeId) {
    }
}

impl View for ShardId {
    type V = ShardId;

    open spec fn view(&self) -> ShardId {
        *self
    }
}

impl OrdKey for ShardId {
    open spec fn precedes(a: ShardId, b: ShardId) -> bool {
        a.0 < b.0
    }

    fn is_before(&self, other: &Self) -> (r: bool) {
        self.0 < other.0
    }

    proof fn lemma_irreflexive(a: ShardId) {
    }

    proof fn lemma_transitive(a: ShardId, b: ShardId, c: ShardId) {
    }

    proof fn lemma_total(a: ShardId, b: ShardId) {
    }
}

/// A piece of the metadata.
#[derive(Clone, Copy, Debug, PartialEq, Eq, Structural)]
pub enum MetaKey {
    Node(NodeId),
    Shard(ShardId),
    Tablet(TabletId),
    Transfer(TransferId),
    Keyspace(KeyspaceId),
}

/// What of the metadata is new.
#[derive(Debug)]
pub enum SyncType {
    /// All of it.
    Initial,
    /// What a transaction wrote.
    Tx(Vec<MetaKey>),
}

/// The metadata at a point in time.
#[derive(Debug)]
pub struct MetaSnapshot {
    pub nodes: OrdMap<NodeId, ()>,
    /// The nodes that each shard is assigned to.
    pub shards: OrdMap<ShardId, Vec<NodeId>>,
    pub tablets: OrdMap<TabletId, TabletMetadata>,
    pub transfers: OrdMap<TransferId, TransferMetadata>,
    pub keyspaces: OrdMap<KeyspaceId, ()>,
}

impl MetaSnapshot {
    pub open spec fn wf(self) -> bool {
        self.nodes.wf() && self.shards.wf() && self.tablets.wf() && self.transfers.wf()
            && self.keyspaces.wf()
    }

    pub fn new() -> (r: Self)
        ensures
            r.wf(),
            r.nodes@ == Map::<NodeId, ()>::empty(),
            r.shards@ == Map::<ShardId, Vec<NodeId>>::empty(),
            r.tablets@ == Map::<TabletId, TabletMetadata>::empty(),
            r.transfers@ == Map::<TransferId, TransferMetadata>::empty(),
            r.keyspaces@ == Map::<KeyspaceId, ()>::empty(),
    {
        MetaSnapshot {
            nodes: OrdMap::new(),
            shards: OrdMap::new(),
            tablets: OrdMap::new(),
            transfers: OrdMap::new(),
            keyspaces: OrdMap::new(),
        }
    }
}

} // verus!
