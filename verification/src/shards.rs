//! Which node to ask for a shard.

use vstd::prelude::*;

use crate::meta::{MetaKey, MetaSnapshot, NodeId, SyncType};
use crate::types::data::JournalSeq;
use crate::types::ShardId;
use crate::util::ordmap::OrdMap;

verus! {

/// Why a shard cannot be asked.
#[derive(Clone, Copy, Debug, PartialEq, Eq, Structural)]
pub enum ShardsError {
    /// Nothing is known of the shard.
    NotRouted(ShardId),
    /// The shard's leader is not known.
    LeaderUnknown(ShardId),
    /// The metadata do not describe the shard.
    UnknownShard(ShardId),
}

/// What is known of the nodes of a shard.
#[derive(Debug)]
pub struct ShardRouting {
    /// The node that is probably the leader, and the position in the journal at which it became
    /// so, by which the newest information is recognised. The node may have disappeared already,
    /// or may lead no more.
    pub leader: Option<(NodeId, JournalSeq)>,
    pub participants: Vec<NodeId>,
}

/// What is known of the nodes of a shard, with lists as sequences.
#[verifier::ext_equal]
pub struct ShardRoutingView {
    pub leader: Option<(NodeId, JournalSeq)>,
    pub participants: Seq<NodeId>,
}

impl View for ShardRouting {
    type V = ShardRoutingView;

    open spec fn view(&self) -> ShardRoutingView {
        ShardRoutingView { leader: self.leader, participants: self.participants@ }
    }
}

/// The leader, once a node is said to have become it at a position: whoever became it last.
pub open spec fn newest_leader(
    known: Option<(NodeId, JournalSeq)>,
    node: NodeId,
    seq: JournalSeq,
) -> Option<(NodeId, JournalSeq)> {
    match known {
        Some((_, other)) => if seq.0 > other.0 {
            Some((node, seq))
        } else {
            known
        },
        None => Some((node, seq)),
    }
}

/// News of two leaders lead to the same, whichever comes first, where they are of different
/// positions.
pub proof fn law_news_commute(
    known: Option<(NodeId, JournalSeq)>,
    a: NodeId,
    at_a: JournalSeq,
    b: NodeId,
    at_b: JournalSeq,
)
    requires
        at_a != at_b,
    ensures
        newest_leader(newest_leader(known, a, at_a), b, at_b) == newest_leader(
            newest_leader(known, b, at_b),
            a,
            at_a,
        ),
{
}

/// What is known of shards.
pub type Routing = Map<ShardId, ShardRoutingView>;

/// What is known of a shard, which is nothing at first.
pub open spec fn routing_of(m: Routing, id: ShardId) -> ShardRoutingView {
    if m.contains_key(id) {
        m[id]
    } else {
        ShardRoutingView { leader: None, participants: Seq::empty() }
    }
}

/// What is known once a node is said to lead shards.
pub open spec fn with_news(m: Routing, node: NodeId, news: Seq<(ShardId, JournalSeq)>) -> Routing
    decreases news.len(),
{
    if news.len() == 0 {
        m
    } else {
        let prior = with_news(m, node, news.drop_last());
        let (id, seq) = news.last();
        let known = routing_of(prior, id);
        prior.insert(
            id,
            ShardRoutingView { leader: newest_leader(known.leader, node, seq), ..known },
        )
    }
}

/// What is known of the shards and to which nodes one listens.
#[verifier::ext_equal]
pub struct ShardsView {
    pub routing: Routing,
    pub listening: Map<NodeId, ()>,
}

/// What is known once a piece of the metadata is new.
pub open spec fn after_key(v: ShardsView, snapshot: MetaSnapshot, key: MetaKey) -> Result<
    ShardsView,
    ShardsError,
> {
    match key {
        MetaKey::Shard(id) => if snapshot.shards@.contains_key(id) {
            Ok(
                ShardsView {
                    routing: v.routing.insert(
                        id,
                        ShardRoutingView {
                            participants: snapshot.shards@[id]@,
                            ..routing_of(v.routing, id)
                        },
                    ),
                    ..v
                },
            )
        } else {
            Err(ShardsError::UnknownShard(id))
        },
        MetaKey::Node(id) => Ok(
            ShardsView {
                listening: if snapshot.nodes@.contains_key(id) {
                    v.listening.insert(id, ())
                } else {
                    v.listening.remove(id)
                },
                ..v
            },
        ),
        _ => Ok(v),
    }
}

/// What is known once pieces of the metadata are new, up to the first that fails.
pub open spec fn after_keys(v: ShardsView, snapshot: MetaSnapshot, keys: Seq<MetaKey>) -> (
    ShardsView,
    Option<ShardsError>,
)
    decreases keys.len(),
{
    if keys.len() == 0 {
        (v, None)
    } else {
        let (prior, e) = after_keys(v, snapshot, keys.drop_last());
        match e {
            Some(e) => (prior, Some(e)),
            None => match after_key(prior, snapshot, keys.last()) {
                Ok(next) => (next, None),
                Err(e) => (prior, Some(e)),
            },
        }
    }
}

proof fn lemma_after_keys(v: ShardsView, snapshot: MetaSnapshot, keys: Seq<MetaKey>, n: int)
    requires
        0 <= n <= keys.len(),
        after_keys(v, snapshot, keys.take(n)).1 is Some,
    ensures
        after_keys(v, snapshot, keys) == after_keys(v, snapshot, keys.take(n)),
        listened(v, snapshot, keys) == listened(v, snapshot, keys.take(n)),
    decreases keys.len(),
{
    if n == keys.len() {
        assert(keys.take(n) =~= keys);
    } else {
        assert(keys.drop_last().take(n) =~= keys.take(n));
        lemma_after_keys(v, snapshot, keys.drop_last(), n);
    }
}

/// The pieces of the metadata that are new: at first all shards and then all nodes.
pub open spec fn new_keys(sync: SyncType, snapshot: MetaSnapshot) -> Seq<MetaKey> {
    match sync {
        SyncType::Initial => snapshot.shards.keys().map_values(|id: ShardId| MetaKey::Shard(id))
            + snapshot.nodes.keys().map_values(|id: NodeId| MetaKey::Node(id)),
        SyncType::Tx(keys) => keys@,
    }
}

/// Knows which node to ask for each shard.
pub struct Shards {
    pub routing: OrdMap<ShardId, ShardRouting>,
    /// The nodes to which one listens for what they lead.
    pub leader_subscriptions: OrdMap<NodeId, ()>,
}

/// What is known of shards, with lists as sequences.
pub open spec fn routing_view(m: Map<ShardId, ShardRouting>) -> Routing {
    m.map_values(|r: ShardRouting| r@)
}

impl View for Shards {
    type V = ShardsView;

    open spec fn view(&self) -> ShardsView {
        ShardsView {
            routing: routing_view(self.routing@),
            listening: self.leader_subscriptions@,
        }
    }
}

fn copy_nodes(ids: &Vec<NodeId>) -> (r: Vec<NodeId>)
    ensures
        r@ == ids@,
{
    let mut r: Vec<NodeId> = Vec::new();
    let mut i: usize = 0;
    while i < ids.len()
        invariant
            i <= ids@.len(),
            r@ == ids@.take(i as int),
        decreases ids@.len() - i,
    {
        r.push(ids[i]);
        i += 1;
        assert(r@ =~= ids@.take(i as int));
    }
    assert(r@ =~= ids@);
    r
}

impl Shards {
    pub open spec fn wf(self) -> bool {
        self.routing.wf() && self.leader_subscriptions.wf()
    }

    pub fn new() -> (r: Self)
        ensures
            r.wf(),
            r@ == (ShardsView { routing: Map::empty(), listening: Map::empty() }),
    {
        let r = Shards { routing: OrdMap::new(), leader_subscriptions: OrdMap::new() };
        assert(r@.routing =~= Map::empty());
        r
    }

    /// The node to ask for a shard: its leader.
    pub fn shard(&self, shard_id: ShardId) -> (r: Result<NodeId, ShardsError>)
        requires
            self.wf(),
        ensures
            r == if !self@.routing.contains_key(shard_id) {
                Err::<NodeId, ShardsError>(ShardsError::NotRouted(shard_id))
            } else {
                match self@.routing[shard_id].leader {
                    Some((node, _)) => Ok(node),
                    None => Err(ShardsError::LeaderUnknown(shard_id)),
                }
            },
    {
        match self.routing.get(&shard_id) {
            None => Err(ShardsError::NotRouted(shard_id)),
            Some(routing) => match routing.leader {
                Some((node_id, _)) => Ok(node_id),
                None => Err(ShardsError::LeaderUnknown(shard_id)),
            },
        }
    }

    fn take_routing(&mut self, shard_id: ShardId) -> (r: ShardRouting)
        requires
            old(self).wf(),
        ensures
            final(self).wf(),
            final(self).leader_subscriptions == old(self).leader_subscriptions,
            final(self).routing@ == old(self).routing@.remove(shard_id),
            r@ == routing_of(old(self)@.routing, shard_id),
    {
        match self.routing.remove(&shard_id) {
            Some(routing) => routing,
            None => {
                let none: Vec<NodeId> = Vec::new();
                assert(none@ =~= Seq::empty());
                ShardRouting { leader: None, participants: none }
            },
        }
    }

    fn put_routing(&mut self, shard_id: ShardId, routing: ShardRouting, Ghost(start): Ghost<Shards>)
        requires
            old(self).wf(),
            old(self).routing@ == start.routing@.remove(shard_id),
        ensures
            final(self).wf(),
            final(self).leader_subscriptions == old(self).leader_subscriptions,
            final(self)@.routing == start@.routing.insert(shard_id, routing@),
    {
        self.routing.insert(shard_id, routing);
        assert(self@.routing =~= start@.routing.insert(shard_id, routing@));
    }

    /// Takes in what a node is said to lead.
    pub fn leader_news(&mut self, node_id: NodeId, news: &Vec<(ShardId, JournalSeq)>)
        requires
            old(self).wf(),
        ensures
            final(self).wf(),
            final(self)@.listening == old(self)@.listening,
            final(self)@.routing == with_news(old(self)@.routing, node_id, news@),
    {
        let mut i: usize = 0;
        assert(news@.take(0) =~= Seq::empty());
        while i < news.len()
            invariant
                i <= news@.len(),
                self.wf(),
                self@.listening == old(self)@.listening,
                self@.routing == with_news(old(self)@.routing, node_id, news@.take(i as int)),
            decreases news@.len() - i,
        {
            let (shard_id, seq) = news[i];
            proof {
                assert(news@.take(i + 1).drop_last() =~= news@.take(i as int));
                assert(news@.take(i + 1).last() == news@[i as int]);
            }
            let ghost now = *self;
            let mut routing = self.take_routing(shard_id);
            match routing.leader {
                Some((_, other_seq)) => {
                    if seq.0 > other_seq.0 {
                        routing.leader = Some((node_id, seq));
                    }
                },
                None => {
                    routing.leader = Some((node_id, seq));
                },
            }
            self.put_routing(shard_id, routing, Ghost(now));
            i += 1;
        }
        assert(news@.take(i as int) =~= news@);
    }

    /// Takes in a piece of the metadata that is new. Says whether to start to listen to a node.
    fn sync_key(&mut self, snapshot: &MetaSnapshot, key: MetaKey) -> (r: Result<bool, ShardsError>)
        requires
            old(self).wf(),
            snapshot.wf(),
        ensures
            final(self).wf(),
            match after_key(old(self)@, *snapshot, key) {
                Ok(v) => final(self)@ == v && r is Ok,
                Err(e) => *final(self) == *old(self) && r == Err::<bool, ShardsError>(e),
            },
            r is Ok ==> r->Ok_0 == (key matches MetaKey::Node(id) && snapshot.nodes@.contains_key(
                id,
            ) && !old(self)@.listening.contains_key(id)),
    {
        let ghost start = *self;
        match key {
            MetaKey::Shard(shard_id) => match snapshot.shards.get(&shard_id) {
                Some(assigned) => {
                    let mut routing = self.take_routing(shard_id);
                    routing.participants = copy_nodes(assigned);
                    self.put_routing(shard_id, routing, Ghost(start));
                    Ok(false)
                },
                None => Err(ShardsError::UnknownShard(shard_id)),
            },
            MetaKey::Node(node_id) => {
                if snapshot.nodes.contains_key(&node_id) {
                    if self.leader_subscriptions.contains_key(&node_id) {
                        assert(self@.listening =~= start@.listening.insert(node_id, ()));
                        return Ok(false);
                    }
                    self.leader_subscriptions.insert(node_id, ());
                    Ok(true)
                } else {
                    self.leader_subscriptions.remove(&node_id);
                    Ok(false)
                }
            },
            _ => Ok(false),
        }
    }

    fn sync_keys(&mut self, snapshot: &MetaSnapshot, keys: &Vec<MetaKey>) -> (r: (
        Vec<NodeId>,
        Result<(), ShardsError>,
    ))
        requires
            old(self).wf(),
            snapshot.wf(),
        ensures
            final(self).wf(),
            final(self)@ == after_keys(old(self)@, *snapshot, keys@).0,
            r.0@ == listened(old(self)@, *snapshot, keys@),
            match after_keys(old(self)@, *snapshot, keys@).1 {
                Some(e) => r.1 == Err::<(), ShardsError>(e),
                None => r.1 is Ok,
            },
    {
        let mut subscribe: Vec<NodeId> = Vec::new();
        let mut i: usize = 0;
        assert(keys@.take(0) =~= Seq::empty());
        while i < keys.len()
            invariant
                i <= keys@.len(),
                self.wf(),
                snapshot.wf(),
                after_keys(old(self)@, *snapshot, keys@.take(i as int)) == (
                    self@,
                    None::<ShardsError>,
                ),
                subscribe@ == listened(old(self)@, *snapshot, keys@.take(i as int)),
            decreases keys@.len() - i,
        {
            proof {
                assert(keys@.take(i + 1).drop_last() =~= keys@.take(i as int));
                assert(keys@.take(i + 1).last() == keys@[i as int]);
            }
            let key = keys[i];
            match self.sync_key(snapshot, key) {
                Ok(started) => {
                    if started {
                        if let MetaKey::Node(node_id) = key {
                            subscribe.push(node_id);
                        }
                    }
                },
                Err(e) => {
                    proof {
                        lemma_after_keys(old(self)@, *snapshot, keys@, i + 1);
                    }
                    return (subscribe, Err(e));
                },
            }
            i += 1;
        }
        assert(keys@.take(i as int) =~= keys@);
        (subscribe, Ok(()))
    }

    /// Takes in what of the metadata is new, up to the first piece that fails. Returns the nodes to
    /// start to listen to, which there may be even where it fails.
    pub fn try_sync_meta(&mut self, sync_type: &SyncType, snapshot: &MetaSnapshot) -> (r: (
        Vec<NodeId>,
        Result<(), ShardsError>,
    ))
        requires
            old(self).wf(),
            snapshot.wf(),
        ensures
            final(self).wf(),
            final(self)@ == after_keys(old(self)@, *snapshot, new_keys(*sync_type, *snapshot)).0,
            r.0@ == listened(old(self)@, *snapshot, new_keys(*sync_type, *snapshot)),
            match after_keys(old(self)@, *snapshot, new_keys(*sync_type, *snapshot)).1 {
                Some(e) => r.1 == Err::<(), ShardsError>(e),
                None => r.1 is Ok,
            },
    {
        match sync_type {
            SyncType::Tx(keys) => self.sync_keys(snapshot, keys),
            SyncType::Initial => {
                let keys = all_keys(snapshot);
                self.sync_keys(snapshot, &keys)
            },
        }
    }
}

fn all_keys(snapshot: &MetaSnapshot) -> (r: Vec<MetaKey>)
    ensures
        r@ == new_keys(SyncType::Initial, *snapshot),
{
    let mut keys: Vec<MetaKey> = Vec::new();
    let ghost first = snapshot.shards.keys().map_values(|id: ShardId| MetaKey::Shard(id));
    let ghost rest = snapshot.nodes.keys().map_values(|id: NodeId| MetaKey::Node(id));
    let mut i: usize = 0;
    while i < snapshot.shards.entries.len()
        invariant
            i <= snapshot.shards.entries@.len(),
            first == snapshot.shards.keys().map_values(|id: ShardId| MetaKey::Shard(id)),
            keys@ == first.take(i as int),
        decreases snapshot.shards.entries@.len() - i,
    {
        keys.push(MetaKey::Shard(snapshot.shards.entries[i].0));
        i += 1;
        assert(keys@ =~= first.take(i as int));
    }
    assert(first.take(i as int) =~= first);
    let mut j: usize = 0;
    assert(first + rest.take(0) =~= first);
    while j < snapshot.nodes.entries.len()
        invariant
            j <= snapshot.nodes.entries@.len(),
            rest == snapshot.nodes.keys().map_values(|id: NodeId| MetaKey::Node(id)),
            keys@ == first + rest.take(j as int),
        decreases snapshot.nodes.entries@.len() - j,
    {
        keys.push(MetaKey::Node(snapshot.nodes.entries[j].0));
        j += 1;
        assert(keys@ =~= first + rest.take(j as int));
    }
    assert(rest.take(j as int) =~= rest);
    keys
}

/// The nodes to start to listen to once pieces of the metadata are new, up to the first that fails.
pub open spec fn listened(v: ShardsView, snapshot: MetaSnapshot, keys: Seq<MetaKey>) -> Seq<NodeId>
    decreases keys.len(),
{
    if keys.len() == 0 {
        Seq::empty()
    } else {
        let prior = listened(v, snapshot, keys.drop_last());
        let (now, e) = after_keys(v, snapshot, keys.drop_last());
        match keys.last() {
            MetaKey::Node(id) => if e is None && snapshot.nodes@.contains_key(id)
                && !now.listening.contains_key(id) {
                prior.push(id)
            } else {
                prior
            },
            _ => prior,
        }
    }
}

/// A node is listened to after a sync if and only if it was before, or it is one that the sync says
/// to start to listen to, unless the sync took it out; so none that is listened to was ever passed
/// over, whether the sync failed or not.
pub proof fn law_no_subscription_is_lost(
    v: ShardsView,
    snapshot: MetaSnapshot,
    keys: Seq<MetaKey>,
    id: NodeId,
)
    ensures
        after_keys(v, snapshot, keys).0.listening.contains_key(id) ==> v.listening.contains_key(id)
            || listened(v, snapshot, keys).contains(id),
        listened(v, snapshot, keys).contains(id) ==> !v.listening.contains_key(id)
            && snapshot.nodes@.contains_key(id) && after_keys(
            v,
            snapshot,
            keys,
        ).0.listening.contains_key(id),
        v.listening.contains_key(id) && snapshot.nodes@.contains_key(id) ==> after_keys(
            v,
            snapshot,
            keys,
        ).0.listening.contains_key(id),
        listened(v, snapshot, keys).no_duplicates(),
    decreases keys.len(),
{
    if keys.len() > 0 {
        let rest = keys.drop_last();
        law_no_subscription_is_lost(v, snapshot, rest, id);
        let before = listened(v, snapshot, rest);
        let after = listened(v, snapshot, keys);
        if after != before {
            let new = keys.last()->Node_0;
            law_no_subscription_is_lost(v, snapshot, rest, new);
            assert(after == before.push(new));
            assert(!before.contains(new));
            assert(after[before.len() as int] == new);
            assert forall|x: NodeId| #[trigger] after.contains(x) <==> before.contains(x) || x
                == new by {
                if before.contains(x) {
                    let i = choose|i: int| 0 <= i < before.len() && before[i] == x;
                    assert(after[i] == x);
                }
            }
        }
    }
}

} // verus!
