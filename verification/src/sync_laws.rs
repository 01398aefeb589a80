//! What is known of the cluster follows the metadata.

use vstd::prelude::*;

use crate::meta::{MetaKey, MetaSnapshot, NodeId, SyncType};
use crate::meta_synced::{
    all_owned, first_corrupted, of_group, owned_at, with_page, Owned, TabletRanges,
};
use crate::node::{
    after_changes, after_shards, among_first, changes_for, leads_meta, new_shards, shards_among,
    NodeError, ReplicaChange,
};
use crate::range::Bound;
use crate::replica::ReplicaState;
use crate::shards::{
    after_keys, new_keys, newest_leader, routing_of, with_news, Routing, ShardsError, ShardsView,
};
use crate::types::data::JournalSeq;
use crate::types::{ColoGroupId, ShardId, TabletId};
use crate::util::select::{lemma_picks_push, picks};

verus! {

/// What all tablets own is each range of each tablet, of the group that stands at its place.
pub proof fn law_all_owned(tablets: Seq<TabletRanges>, x: Owned)
    ensures
        all_owned(tablets).contains(x) <==> exists|i: int, j: int|
            0 <= i < tablets.len() && 0 <= j < tablets[i].ranges@.len() && x.tablet
                == tablets[i].tablet_id && x.range == (#[trigger] tablets[i].ranges@[j])@ && x.group
                == tablets[i].colo_group_ids@[j],
    decreases tablets.len(),
{
    if tablets.len() > 0 {
        let rest = tablets.drop_last();
        let n = rest.len() as int;
        law_all_owned(rest, x);
        let (a, b) = (all_owned(rest), tablets[n].owned());
        let c = all_owned(tablets);
        assert(c == a + b);
        if c.contains(x) {
            let i = c.index_of(x);
            if i < a.len() {
                assert(a[i] == x);
                let (i, j) = choose|i: int, j: int|
                    0 <= i < rest.len() && 0 <= j < rest[i].ranges@.len() && x.tablet
                        == rest[i].tablet_id && x.range == (#[trigger] rest[i].ranges@[j])@
                        && x.group == rest[i].colo_group_ids@[j];
                assert(tablets[i] == rest[i]);
                assert(x.range == tablets[i].ranges@[j]@);
            } else {
                let j = i - a.len();
                assert(b[j] == x);
                assert(x.range == tablets[n].ranges@[j]@);
            }
        }
        if exists|i: int, j: int|
            0 <= i < tablets.len() && 0 <= j < tablets[i].ranges@.len() && x.tablet
                == tablets[i].tablet_id && x.range == (#[trigger] tablets[i].ranges@[j])@ && x.group
                == tablets[i].colo_group_ids@[j] {
            let (i, j) = choose|i: int, j: int|
                0 <= i < tablets.len() && 0 <= j < tablets[i].ranges@.len() && x.tablet
                    == tablets[i].tablet_id && x.range == (#[trigger] tablets[i].ranges@[j])@
                    && x.group == tablets[i].colo_group_ids@[j];
            if i < n {
                assert(rest[i] == tablets[i]);
                assert(x.range == rest[i].ranges@[j]@);
                assert(a.contains(x));
                assert(c[a.index_of(x)] == x);
            } else {
                assert(b[j] == x);
                assert(c[a.len() + j] == x);
            }
        }
    }
}

/// Tablets can be routed to exactly where each has as many ranges as groups. Else the first that has
/// not is named.
pub proof fn law_first_corrupted(tablets: Seq<TabletRanges>)
    ensures
        first_corrupted(tablets) is None <==> forall|i: int|
            0 <= i < tablets.len() ==> (#[trigger] tablets[i]).colo_group_ids@.len()
                == tablets[i].ranges@.len(),
        first_corrupted(tablets) matches Some(t) ==> exists|i: int|
            {
                &&& 0 <= i < tablets.len()
                &&& (#[trigger] tablets[i]).tablet_id == t
                &&& tablets[i].colo_group_ids@.len() != tablets[i].ranges@.len()
                &&& forall|j: int|
                    0 <= j < i ==> (#[trigger] tablets[j]).colo_group_ids@.len()
                        == tablets[j].ranges@.len()
            },
    decreases tablets.len(),
{
    if tablets.len() > 0 {
        let rest = tablets.drop_last();
        let n = rest.len() as int;
        law_first_corrupted(rest);
        match first_corrupted(rest) {
            Some(t) => {
                let i = choose|i: int|
                    {
                        &&& 0 <= i < rest.len()
                        &&& (#[trigger] rest[i]).tablet_id == t
                        &&& rest[i].colo_group_ids@.len() != rest[i].ranges@.len()
                        &&& forall|j: int|
                            0 <= j < i ==> (#[trigger] rest[j]).colo_group_ids@.len()
                                == rest[j].ranges@.len()
                    };
                assert(tablets[i] == rest[i]);
                assert forall|j: int| 0 <= j < i implies (#[trigger] tablets[j]).colo_group_ids@.len()
                    == tablets[j].ranges@.len() by {
                    assert(rest[j] == tablets[j]);
                }
            },
            None => {
                assert forall|j: int| 0 <= j < n implies (#[trigger] tablets[j]).colo_group_ids@.len()
                    == tablets[j].ranges@.len() by {
                    assert(rest[j] == tablets[j]);
                }
                assert(tablets[n] == tablets.last());
            },
        }
    }
}

/// What is owned of a group is exactly what is of that group, in order.
pub proof fn law_of_group(s: Seq<Owned>, g: u32) -> (idx: Seq<int>)
    ensures
        picks(idx, s.len()),
        forall|i: int| 0 <= i < s.len() ==> (idx.contains(i) <==> (#[trigger] s[i]).group == g),
        of_group(s, g).len() == idx.len(),
        forall|j: int| 0 <= j < idx.len() ==> #[trigger] of_group(s, g)[j] == s[idx[j]],
    decreases s.len(),
{
    if s.len() == 0 {
        Seq::empty()
    } else {
        let rest = s.drop_last();
        let n = rest.len();
        let idx = law_of_group(rest, g);
        lemma_picks_push(idx, n);
        let all = if s[n as int].group == g {
            idx.push(n as int)
        } else {
            idx
        };
        assert forall|i: int| 0 <= i < s.len() implies (all.contains(i) <==> (#[trigger] s[i]).group
            == g) by {
            if i < n {
                assert(rest[i] == s[i]);
            }
        }
        assert forall|j: int| 0 <= j < all.len() implies #[trigger] of_group(s, g)[j]
            == s[all[j]] by {
            if j < idx.len() {
                assert(of_group(s, g)[j] == of_group(rest, g)[j]);
                assert(rest[idx[j]] == s[idx[j]]);
            }
        }
        all
    }
}

/// A page of a snapshot puts each of its entries, the last of a key last, and touches no other key.
pub proof fn law_page_is_taken_in(
    m: Map<Seq<u8>, Seq<u8>>,
    page: Seq<(Vec<u8>, Vec<u8>)>,
    k: Seq<u8>,
)
    ensures
        forall|i: int|
            0 <= i < page.len() && (#[trigger] page[i]).0@ == k && (forall|j: int|
                i < j < page.len() ==> (#[trigger] page[j]).0@ != k) ==> with_page(
                m,
                page,
            ).contains_key(k) && with_page(m, page)[k] == page[i].1@,
        (forall|j: int| 0 <= j < page.len() ==> (#[trigger] page[j]).0@ != k) ==> with_page(
            m,
            page,
        ).contains_key(k) == m.contains_key(k) && (m.contains_key(k) ==> with_page(m, page)[k]
            == m[k]),
    decreases page.len(),
{
    if page.len() > 0 {
        let rest = page.drop_last();
        let n = rest.len() as int;
        law_page_is_taken_in(m, rest, k);
        assert(page[n] == page.last());
        assert forall|i: int| 0 <= i < n implies #[trigger] rest[i] == page[i] by {}
        assert forall|i: int|
            0 <= i < page.len() && (#[trigger] page[i]).0@ == k && (forall|j: int|
                i < j < page.len() ==> (#[trigger] page[j]).0@ != k) implies with_page(
            m,
            page,
        ).contains_key(k) && with_page(m, page)[k] == page[i].1@ by {
            if i < n {
                assert(page[n].0@ != k);
                assert(rest[i].0@ == k);
                assert forall|j: int| i < j < rest.len() implies (#[trigger] rest[j]).0@ != k by {
                    assert(page[j] == rest[j]);
                }
            }
        }
        if forall|j: int| 0 <= j < page.len() ==> (#[trigger] page[j]).0@ != k {
            assert forall|j: int| 0 <= j < rest.len() implies (#[trigger] rest[j]).0@ != k by {
                assert(page[j] == rest[j]);
            }
        }
    }
}

/// The leader is whoever became it at the highest position that is known. News of a position that is
/// known already change nothing.
pub proof fn law_highest_position_leads(
    known: Option<(NodeId, JournalSeq)>,
    node: NodeId,
    seq: JournalSeq,
)
    ensures
        newest_leader(known, node, seq) matches Some((n, s)) && s.0 >= seq.0 && (known
            matches Some((k, at)) ==> if seq.0 > at.0 {
            n == node && s == seq
        } else {
            n == k && s == at
        }) && (known is None ==> n == node && s == seq),
{
}

/// News of what a node leads change who leads a shard only where they are newer than what is known,
/// and then name that node. They change nothing else, and nothing of shards that they do not name.
pub proof fn law_news_are_taken_in(
    m: Routing,
    node: NodeId,
    news: Seq<(ShardId, JournalSeq)>,
    id: ShardId,
)
    ensures
        ({
            let before = routing_of(m, id);
            let after = routing_of(with_news(m, node, news), id);
            &&& after.participants == before.participants
            &&& with_news(m, node, news).contains_key(id) <==> m.contains_key(id) || exists|i: int|
                0 <= i < news.len() && (#[trigger] news[i]).0 == id
            &&& forall|i: int|
                0 <= i < news.len() && (#[trigger] news[i]).0 == id ==> (after.leader matches Some(
                    (_, s),
                ) && s.0 >= news[i].1.0)
            &&& before.leader matches Some((_, at)) ==> (after.leader matches Some((_, s)) && s.0
                >= at.0)
            &&& after.leader == before.leader || (after.leader matches Some((n, s)) && n == node
                && exists|i: int|
                0 <= i < news.len() && (#[trigger] news[i]).0 == id && news[i].1 == s && (
                before.leader matches Some((_, at)) ==> s.0 > at.0))
        }),
    decreases news.len(),
{
    if news.len() > 0 {
        let rest = news.drop_last();
        let l = rest.len() as int;
        law_news_are_taken_in(m, node, rest, id);
        assert forall|i: int| 0 <= i < l implies #[trigger] rest[i] == news[i] by {}
        assert(news[l] == news.last());
        let before = routing_of(m, id);
        let mid = routing_of(with_news(m, node, rest), id);
        let after = routing_of(with_news(m, node, news), id);
        if exists|i: int| 0 <= i < rest.len() && (#[trigger] rest[i]).0 == id {
            let i = choose|i: int| 0 <= i < rest.len() && (#[trigger] rest[i]).0 == id;
            assert(news[i].0 == id);
        }
        if exists|i: int| 0 <= i < news.len() && (#[trigger] news[i]).0 == id {
            let i = choose|i: int| 0 <= i < news.len() && (#[trigger] news[i]).0 == id;
            if i < l {
                assert(rest[i].0 == id);
            }
        }
        assert forall|i: int| 0 <= i < news.len() && (#[trigger] news[i]).0 == id implies (
        after.leader matches Some((_, s)) && s.0 >= news[i].1.0) by {
            if i < l {
                assert(rest[i].0 == id);
            }
        }
        if mid.leader != before.leader {
            let s = (mid.leader->0).1;
            let i = choose|i: int|
                0 <= i < rest.len() && (#[trigger] rest[i]).0 == id && rest[i].1 == s && (
                before.leader matches Some((_, at)) ==> s.0 > at.0);
            assert(news[i].0 == id && news[i].1 == s);
        }
        if after.leader != mid.leader {
            assert(news[l].0 == id);
            assert(after.leader == Some((node, news[l].1)));
        }
    }
}

/// Syncing takes the participants of each shard that is new from the metadata, and forgets no
/// leader. It fails exactly at a shard that the metadata do not describe. A node that is gone from
/// the metadata is not listened to any more.
pub proof fn law_sync_follows_metadata(
    v: ShardsView,
    snapshot: MetaSnapshot,
    keys: Seq<MetaKey>,
    id: ShardId,
    node: NodeId,
)
    ensures
        ({
            let (after, e) = after_keys(v, snapshot, keys);
            &&& routing_of(after.routing, id).leader == routing_of(v.routing, id).leader
            &&& e is None <==> forall|i: int|
                0 <= i < keys.len() ==> (#[trigger] keys[i] matches MetaKey::Shard(s)
                    ==> snapshot.shards@.contains_key(s))
            &&& e matches Some(e) ==> (e matches ShardsError::UnknownShard(s) && keys.contains(
                MetaKey::Shard(s),
            ) && !snapshot.shards@.contains_key(s))
            &&& e is None && keys.contains(MetaKey::Shard(id)) ==> after.routing.contains_key(id)
                && after.routing[id].participants == snapshot.shards@[id]@
            &&& !keys.contains(MetaKey::Shard(id)) ==> (after.routing.contains_key(id)
                <==> v.routing.contains_key(id)) && routing_of(after.routing, id) == routing_of(
                v.routing,
                id,
            )
            &&& e is None && keys.contains(MetaKey::Node(node)) ==> (after.listening.contains_key(
                node,
            ) <==> snapshot.nodes@.contains_key(node))
            &&& !keys.contains(MetaKey::Node(node)) ==> (after.listening.contains_key(node)
                <==> v.listening.contains_key(node))
        }),
    decreases keys.len(),
{
    if keys.len() > 0 {
        let rest = keys.drop_last();
        let n = rest.len() as int;
        law_sync_follows_metadata(v, snapshot, rest, id, node);
        assert(keys[n] == keys.last());
        assert forall|i: int| 0 <= i < n implies #[trigger] rest[i] == keys[i] by {}
        assert forall|x: MetaKey| #[trigger]
            keys.contains(x) <==> rest.contains(x) || x == keys[n] by {
            if rest.contains(x) {
                assert(keys[rest.index_of(x)] == x);
            }
            if keys.contains(x) {
                let i = keys.index_of(x);
                if i < n {
                    assert(rest[i] == x);
                }
            }
        }
        let (prior, e) = after_keys(v, snapshot, rest);
        if e is None {
            assert forall|i: int| 0 <= i < n implies (#[trigger] keys[i] matches MetaKey::Shard(s)
                ==> snapshot.shards@.contains_key(s)) by {
                assert(rest[i] == keys[i]);
            }
        } else {
            let i = choose|i: int|
                0 <= i < rest.len() && !(#[trigger] rest[i] matches MetaKey::Shard(s)
                    ==> snapshot.shards@.contains_key(s));
            assert(keys[i] == rest[i]);
        }
    }
}

/// At first all shards and all nodes that the metadata describe are new, and nothing else. Later it
/// is what a transaction wrote.
pub proof fn law_new_keys(sync: SyncType, snapshot: MetaSnapshot, key: MetaKey)
    requires
        snapshot.wf(),
    ensures
        match sync {
            SyncType::Initial => new_keys(sync, snapshot).contains(key) <==> match key {
                MetaKey::Shard(id) => snapshot.shards@.contains_key(id),
                MetaKey::Node(id) => snapshot.nodes@.contains_key(id),
                _ => false,
            },
            SyncType::Tx(keys) => new_keys(sync, snapshot) == keys@,
        },
{
    if sync is Initial {
        let (a, b) = (snapshot.shards.keys(), snapshot.nodes.keys());
        let (x, y) = (
            a.map_values(|id: ShardId| MetaKey::Shard(id)),
            b.map_values(|id: NodeId| MetaKey::Node(id)),
        );
        let all = new_keys(sync, snapshot);
        assert(all == x + y);
        if all.contains(key) {
            let i = all.index_of(key);
            if i < x.len() {
                assert(key == MetaKey::Shard(a[i]));
                snapshot.shards.lemma_entry(i);
            } else {
                assert(key == MetaKey::Node(b[i - x.len()]));
                snapshot.nodes.lemma_entry(i - x.len());
            }
        }
        match key {
            MetaKey::Shard(id) => {
                if snapshot.shards@.contains_key(id) {
                    snapshot.shards.lemma_key(id);
                    let i = choose|i: int|
                        0 <= i < snapshot.shards.entries@.len() && (
                        #[trigger] snapshot.shards.entries@[i]).0@ == id;
                    assert(all[i] == key);
                }
            },
            MetaKey::Node(id) => {
                if snapshot.nodes@.contains_key(id) {
                    snapshot.nodes.lemma_key(id);
                    let i = choose|i: int|
                        0 <= i < snapshot.nodes.entries@.len() && (
                        #[trigger] snapshot.nodes.entries@[i]).0@ == id;
                    assert(all[x.len() + i] == key);
                }
            },
            _ => {},
        }
    }
}

/// The metadata are served by the nodes with the lowest numbers, three of them where there are as
/// many.
pub proof fn law_meta_replicas(node_ids: Seq<NodeId>, id: NodeId)
    ensures
        among_first(node_ids, id) <==> node_ids.take(
            if node_ids.len() < 3 {
                node_ids.len() as int
            } else {
                3
            },
        ).contains(id),
{
    let n = if node_ids.len() < 3 {
        node_ids.len() as int
    } else {
        3
    };
    let s = node_ids.take(n);
    if among_first(node_ids, id) {
        let i = choose|i: int| 0 <= i < 3 && i < node_ids.len() && #[trigger] node_ids[i] == id;
        assert(s[i] == id);
    }
    if s.contains(id) {
        let i = s.index_of(id);
        assert(node_ids[i] == id);
    }
}

/// A node ends up in exactly those of the shards that are new which are assigned to it, and all else
/// stays, the shard of the metadata too. It fails exactly at a shard that the metadata do not
/// describe.
pub proof fn law_node_follows_assignment(
    node: NodeId,
    replicas: Map<ShardId, ()>,
    snapshot: MetaSnapshot,
    ids: Seq<ShardId>,
    id: ShardId,
)
    ensures
        ({
            let (after, e) = after_shards(node, replicas, snapshot, ids);
            &&& e is None <==> forall|i: int|
                0 <= i < ids.len() && (#[trigger] ids[i]).0 != 0 ==> snapshot.shards@.contains_key(
                    ids[i],
                )
            &&& e matches Some(e) ==> (e matches NodeError::UnknownShard(s) && ids.contains(s)
                && !snapshot.shards@.contains_key(s))
            &&& e is None && id.0 != 0 && ids.contains(id) ==> (after.contains_key(id)
                <==> snapshot.shards@[id]@.contains(node))
            &&& id.0 == 0 || !ids.contains(id) ==> (after.contains_key(id) <==> replicas.contains_key(
                id,
            ))
        }),
    decreases ids.len(),
{
    if ids.len() > 0 {
        let rest = ids.drop_last();
        let n = rest.len() as int;
        law_node_follows_assignment(node, replicas, snapshot, rest, id);
        assert(ids[n] == ids.last());
        assert forall|x: ShardId| #[trigger] ids.contains(x) <==> rest.contains(x) || x == ids[n] by {
            if rest.contains(x) {
                assert(ids[rest.index_of(x)] == x);
            }
            if ids.contains(x) {
                let i = ids.index_of(x);
                if i < n {
                    assert(rest[i] == x);
                }
            }
        }
        let (prior, e) = after_shards(node, replicas, snapshot, rest);
        if e is None {
            assert forall|i: int| 0 <= i < n && (#[trigger] ids[i]).0 != 0 implies
                snapshot.shards@.contains_key(ids[i]) by {
                assert(rest[i] == ids[i]);
            }
        } else {
            let i = choose|i: int|
                0 <= i < rest.len() && (#[trigger] rest[i]).0 != 0 && !snapshot.shards@.contains_key(
                    rest[i],
                );
            assert(ids[i] == rest[i]);
        }
    }
}

/// A node joins only shards that are new and assigned to it, and leaves only shards that are new and
/// not assigned to it. Where each shard is new once, it joins none that it is in and leaves none that
/// it is not in, and it does join or leave wherever the assignment says so.
pub proof fn law_changes_are_due(
    node: NodeId,
    replicas: Map<ShardId, ()>,
    snapshot: MetaSnapshot,
    ids: Seq<ShardId>,
    id: ShardId,
)
    requires
        ids.no_duplicates(),
        forall|i: int|
            0 <= i < ids.len() && (#[trigger] ids[i]).0 != 0 ==> snapshot.shards@.contains_key(
                ids[i],
            ),
    ensures
        changes_for(node, replicas, snapshot, ids).contains(ReplicaChange::Join(id))
            <==> ids.contains(id) && id.0 != 0 && snapshot.shards@[id]@.contains(node)
            && !replicas.contains_key(id),
        changes_for(node, replicas, snapshot, ids).contains(ReplicaChange::Leave(id))
            <==> ids.contains(id) && id.0 != 0 && !snapshot.shards@[id]@.contains(node)
            && replicas.contains_key(id),
    decreases ids.len(),
{
    if ids.len() > 0 {
        let rest = ids.drop_last();
        let n = rest.len() as int;
        assert forall|i: int| 0 <= i < rest.len() && (#[trigger] rest[i]).0 != 0 implies
            snapshot.shards@.contains_key(rest[i]) by {
            assert(ids[i] == rest[i]);
        }
        law_changes_are_due(node, replicas, snapshot, rest, id);
        law_node_follows_assignment(node, replicas, snapshot, rest, ids[n]);
        assert(!rest.contains(ids[n])) by {
            if rest.contains(ids[n]) {
                assert(ids[rest.index_of(ids[n])] == ids[n]);
            }
        }
        if rest.contains(id) {
            assert(ids[rest.index_of(id)] == id);
        }
        if ids.contains(id) && id != ids[n] {
            assert(rest[ids.index_of(id)] == id);
        }
        let (now, e) = after_shards(node, replicas, snapshot, rest);
        let before = changes_for(node, replicas, snapshot, rest);
        let all = changes_for(node, replicas, snapshot, ids);
        assert(ids[n] == ids.last());
        assert(e is None);
        assert forall|c: ReplicaChange|
            all.len() > before.len() implies (#[trigger] all.contains(c) <==> before.contains(c) || c
            == all.last()) by {
            assert(all == before.push(all.last()));
            if before.contains(c) {
                assert(all[before.index_of(c)] == c);
            }
            assert(all[before.len() as int] == all.last());
            if all.contains(c) {
                let i = all.index_of(c);
                if i < before.len() {
                    assert(before[i] == c);
                }
            }
        }
        if before.contains(ReplicaChange::Join(id)) || before.contains(ReplicaChange::Leave(id)) {
            assert(rest.contains(id));
        }
    }
}

/// The shards among pieces of the metadata come in the order of the pieces, and none is left out. At
/// first all shards are new.
pub proof fn law_shards_among(keys: Seq<MetaKey>) -> (idx: Seq<int>)
    ensures
        picks(idx, keys.len()),
        forall|i: int| 0 <= i < keys.len() ==> (idx.contains(i) <==> #[trigger] keys[i] is Shard),
        shards_among(keys).len() == idx.len(),
        forall|j: int|
            0 <= j < idx.len() ==> keys[idx[j]] == MetaKey::Shard(#[trigger] shards_among(keys)[j]),
        forall|snapshot: MetaSnapshot|
            #[trigger] new_shards(SyncType::Initial, snapshot) == snapshot.shards.keys(),
    decreases keys.len(),
{
    if keys.len() == 0 {
        Seq::empty()
    } else {
        let rest = keys.drop_last();
        let n = rest.len();
        let idx = law_shards_among(rest);
        lemma_picks_push(idx, n);
        let all = if keys[n as int] is Shard {
            idx.push(n as int)
        } else {
            idx
        };
        assert forall|i: int| 0 <= i < keys.len() implies (all.contains(i) <==> #[trigger] keys[i]
            is Shard) by {
            if i < n {
                assert(rest[i] == keys[i]);
            }
        }
        assert forall|j: int| 0 <= j < all.len() implies keys[all[j]] == MetaKey::Shard(
            #[trigger] shards_among(keys)[j],
        ) by {
            if j < idx.len() {
                assert(shards_among(keys)[j] == shards_among(rest)[j]);
                assert(rest[idx[j]] == keys[idx[j]]);
            }
        }
        all
    }
}

/// The metadata is led here where some replica says so: the one of the shard of the metadata, as its
/// leader. Each further replica can only add that.
pub proof fn law_meta_is_led(states: Seq<(ShardId, ReplicaState)>, id: ShardId, state: ReplicaState)
    ensures
        !leads_meta(Seq::<(ShardId, ReplicaState)>::empty()),
        leads_meta(states.push((id, state))) == (leads_meta(states) || (id == ShardId::meta()
            && state is Leader)),
{
    let all = states.push((id, state));
    let n = states.len() as int;
    assert(all[n] == (id, state));
    if leads_meta(states) {
        let i = choose|i: int|
            0 <= i < states.len() && (#[trigger] states[i]).0 == ShardId::meta() && states[i].1
                is Leader;
        assert(all[i] == states[i]);
    }
    if leads_meta(all) {
        let i = choose|i: int|
            0 <= i < all.len() && (#[trigger] all[i]).0 == ShardId::meta() && all[i].1 is Leader;
        if i < n {
            assert(states[i] == all[i]);
        }
    }
}

/// A tablet owns what any of its ranges covers. Each further range adds what it covers, for its own
/// tablet and group only.
pub proof fn law_owned_grows(
    s: Seq<Owned>,
    x: Owned,
    tablet: TabletId,
    group: ColoGroupId,
    b: Bound<Seq<u8>>,
)
    ensures
        !owned_at(Seq::<Owned>::empty(), tablet, group, b),
        owned_at(s.push(x), tablet, group, b) == (owned_at(s, tablet, group, b) || (x.tablet
            == tablet && x.group == group.0 && x.range.covers(b))),
{
    let all = s.push(x);
    let n = s.len() as int;
    assert(all[n] == x);
    if owned_at(s, tablet, group, b) {
        let i = choose|i: int|
            0 <= i < s.len() && (#[trigger] s[i]).tablet == tablet && s[i].group == group.0
                && s[i].range.covers(b);
        assert(all[i] == s[i]);
    }
    if owned_at(all, tablet, group, b) {
        let i = choose|i: int|
            0 <= i < all.len() && (#[trigger] all[i]).tablet == tablet && all[i].group == group.0
                && all[i].range.covers(b);
        if i < n {
            assert(s[i] == all[i]);
        }
    }
}

/// Whether a change is about a shard.
pub open spec fn changes_shard(change: ReplicaChange, id: ShardId) -> bool {
    match change {
        ReplicaChange::Join(x) => x == id,
        ReplicaChange::Leave(x) => x == id,
    }
}

/// After some changes there is a replica of a shard where the last change about it was to join, or
/// where there was one before and no change is about it.
pub proof fn law_replicas_after_changes(
    replicas: Map<ShardId, ()>,
    changes: Seq<ReplicaChange>,
    id: ShardId,
    i: int,
)
    ensures
        0 <= i < changes.len() && changes_shard(changes[i], id) && (forall|j: int|
            i < j < changes.len() ==> !changes_shard(#[trigger] changes[j], id)) ==> after_changes(
            replicas,
            changes,
        ).contains_key(id) == (changes[i] is Join),
        (forall|j: int| 0 <= j < changes.len() ==> !changes_shard(#[trigger] changes[j], id))
            ==> after_changes(replicas, changes).contains_key(id) == replicas.contains_key(id),
    decreases changes.len(),
{
    if changes.len() > 0 {
        let rest = changes.drop_last();
        let n = rest.len() as int;
        law_replicas_after_changes(replicas, rest, id, i);
        if 0 <= i < n {
            assert(rest[i] == changes[i]);
        }
        assert forall|j: int| 0 <= j < n implies #[trigger] rest[j] == changes[j] by {}
        if forall|j: int| 0 <= j < changes.len() ==> !changes_shard(#[trigger] changes[j], id) {
            assert(!changes_shard(changes[n], id));
        }
        if i < n && (forall|j: int|
            i < j < changes.len() ==> !changes_shard(#[trigger] changes[j], id)) && 0 <= i {
            assert(!changes_shard(changes[n], id));
        }
    }
}

} // verus!
