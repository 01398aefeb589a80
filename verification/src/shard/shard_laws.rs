//! What a shard makes of the metadata.

use vstd::prelude::*;

use super::journal_live_runs::{mentions, stale};
use super::{
    as_made, bound_views, can_follow, can_make, contiguous, creating, data_ids, first_blocking,
    first_make_error, has_followed, inner_bounds, keyspaces_due, metadata_for, ranges_of, refusal,
    remembers, shard_steps, steps_for, tx_steps, wanted_splits, ShardError,
    ShardTabletMetadataView, SyncStep, TabletTransferView,
};
use crate::meta::{MetaKey, MetaSnapshot, MetaState, SyncType, TabletState};
use crate::range::{Bound, Range};
use crate::supervisor::manifests::RunId;
use crate::tablet::data_tablet::{can_become, DataState, DataTablet};
use crate::types::data::JournalSeq;
use crate::types::error::InternalError;
use crate::types::{KeyspaceId, ShardId, TabletId};
use crate::util::select::{lemma_picks_push, picks};

verus! {

/// The ranges of tablets are had exactly where the metadata describe them all, each at its place.
/// Else the first that they do not describe is named.
pub proof fn law_ranges_of(snapshot: MetaSnapshot, ids: Seq<TabletId>)
    ensures
        match ranges_of(snapshot, ids) {
            Ok(ranges) => {
                &&& ranges.len() == ids.len()
                &&& forall|i: int|
                    0 <= i < ids.len() ==> snapshot.tablets@.contains_key(#[trigger] ids[i])
                        && ranges[i] == snapshot.tablets@[ids[i]].range@
            },
            Err(e) => e matches ShardError::UnknownTablet(t) && exists|i: int|
                {
                    &&& 0 <= i < ids.len()
                    &&& #[trigger] ids[i] == t
                    &&& !snapshot.tablets@.contains_key(t)
                    &&& forall|j: int|
                        0 <= j < i ==> snapshot.tablets@.contains_key(#[trigger] ids[j])
                },
        },
    decreases ids.len(),
{
    if ids.len() > 0 {
        let rest = ids.drop_last();
        let n = rest.len() as int;
        law_ranges_of(snapshot, rest);
        assert(ids[n] == ids.last());
        assert forall|i: int| 0 <= i < n implies #[trigger] rest[i] == ids[i] by {}
        match ranges_of(snapshot, rest) {
            Ok(ranges) => {
                assert forall|i: int| 0 <= i < n implies snapshot.tablets@.contains_key(
                    #[trigger] ids[i],
                ) && ranges[i] == snapshot.tablets@[ids[i]].range@ by {
                    assert(rest[i] == ids[i]);
                }
            },
            Err(e) => {
                let t = e->UnknownTablet_0;
                let i = choose|i: int|
                    {
                        &&& 0 <= i < rest.len()
                        &&& #[trigger] rest[i] == t
                        &&& !snapshot.tablets@.contains_key(t)
                        &&& forall|j: int|
                            0 <= j < i ==> snapshot.tablets@.contains_key(#[trigger] rest[j])
                    };
                assert(ids[i] == t);
                assert forall|j: int| 0 <= j < i implies snapshot.tablets@.contains_key(
                    #[trigger] ids[j],
                ) by {
                    assert(rest[j] == ids[j]);
                }
            },
        }
    }
}

/// What a shard is told of a tablet is what the metadata say: its group and range, the state that it
/// is in or on the way to, and of its transfer the tablets to copy from, where it copies, or the
/// bounds between the destinations, where it is copied.
pub proof fn law_metadata_is_told(snapshot: MetaSnapshot, id: TabletId, m: ShardTabletMetadataView)
    requires
        metadata_for(snapshot, id) == Ok::<ShardTabletMetadataView, ShardError>(m),
    ensures
        snapshot.tablets@.contains_key(id),
        ({
            let known = snapshot.tablets@[id];
            &&& m.colo_group_id == known.colo_group_id
            &&& m.range == known.range@
            &&& match known.state {
                MetaState::Stable(s) => m.state == s,
                MetaState::Transitioning(_, to) => m.state == to,
            }
            &&& m.transfer is None <==> known.transfer_id is None
            &&& m.transfer matches Some(TabletTransferView::Dst(srcs)) ==> {
                let t = snapshot.transfers@[known.transfer_id->0];
                snapshot.transfers@.contains_key(known.transfer_id->0) && t.dsts@.contains(id)
                    && srcs == t.srcs@
            }
            &&& m.transfer matches Some(TabletTransferView::Src(splits)) ==> {
                let t = snapshot.transfers@[known.transfer_id->0];
                &&& snapshot.transfers@.contains_key(known.transfer_id->0)
                &&& t.srcs@.contains(id)
                &&& !t.dsts@.contains(id)
                &&& t.dsts@.len() > 0 ==> splits.len() == t.dsts@.len() - 1
                &&& t.dsts@.len() == 0 ==> splits.len() == 0
                &&& forall|i: int|
                    0 <= i < splits.len() ==> #[trigger] splits[i]
                        == snapshot.tablets@[t.dsts@[i]].range@.upper && splits[i]
                        == snapshot.tablets@[t.dsts@[i + 1]].range@.lower
            }
        }),
{
    let known = snapshot.tablets@[id];
    if let Some(TabletTransferView::Src(splits)) = m.transfer {
        let t = snapshot.transfers@[known.transfer_id->0];
        law_ranges_of(snapshot, t.dsts@);
        let ranges = ranges_of(snapshot, t.dsts@)->Ok_0;
        assert forall|i: int| 0 <= i < splits.len() implies #[trigger] splits[i]
            == snapshot.tablets@[t.dsts@[i]].range@.upper && splits[i]
            == snapshot.tablets@[t.dsts@[i + 1]].range@.lower by {
            assert(ranges[i] == snapshot.tablets@[t.dsts@[i]].range@);
            assert(ranges[i + 1] == snapshot.tablets@[t.dsts@[i + 1]].range@);
            assert(ranges[i + 1 - 1].upper == ranges[i + 1].lower);
        }
    }
}

/// What a shard cannot be told of a tablet is told why: the metadata do not describe the tablet, its
/// transfer or a destination, the tablet has no part in the transfer, or the destinations leave a gap.
pub proof fn law_metadata_is_refused(snapshot: MetaSnapshot, id: TabletId, e: ShardError)
    requires
        metadata_for(snapshot, id) == Err::<ShardTabletMetadataView, ShardError>(e),
    ensures
        match e {
            ShardError::UnknownTablet(t) => !snapshot.tablets@.contains_key(t),
            ShardError::UnknownTransfer(t) => snapshot.tablets@[id].transfer_id == Some(t)
                && !snapshot.transfers@.contains_key(t),
            ShardError::NotInTransfer(t, x) => t == id && snapshot.tablets@[id].transfer_id == Some(
                x,
            ) && !snapshot.transfers@[x].srcs@.contains(id) && !snapshot.transfers@[x].dsts@.contains(
                id,
            ),
            ShardError::NotContiguous => snapshot.tablets@[id].transfer_id matches Some(x) && {
                let dsts = snapshot.transfers@[x].dsts@;
                exists|i: int|
                    0 < i < dsts.len() && snapshot.tablets@[dsts[i - 1]].range@.upper
                        != snapshot.tablets@[#[trigger] dsts[i]].range@.lower
            },
            _ => false,
        },
{
    if snapshot.tablets@.contains_key(id) {
        if let Some(x) = snapshot.tablets@[id].transfer_id {
            let dsts = snapshot.transfers@[x].dsts@;
            law_ranges_of(snapshot, dsts);
            if let Ok(ranges) = ranges_of(snapshot, dsts) {
                if e is NotContiguous {
                    let i = choose|i: int|
                        #![trigger ranges[i]]
                        0 < i < ranges.len() && ranges[i - 1].upper != ranges[i].lower;
                    assert(snapshot.tablets@[dsts[i - 1]].range@ == ranges[i - 1]);
                    assert(snapshot.tablets@[dsts[i]].range@ == ranges[i]);
                }
            }
        }
    }
}

/// The bounds between ranges that follow one another are those where one ends and the next starts.
pub proof fn law_inner_bounds(ranges: Seq<Range<Seq<u8>>>, i: int)
    requires
        ranges.len() > 0,
        contiguous(ranges),
        0 <= i < ranges.len() - 1,
    ensures
        inner_bounds(ranges).len() == ranges.len() - 1,
        inner_bounds(ranges)[i] == ranges[i].upper,
        inner_bounds(ranges)[i] == ranges[i + 1].lower,
{
    assert(ranges[i + 1 - 1].upper == ranges[i + 1].lower);
}

/// A tablet that copies can only stop copying or go; one that serves can only be frozen; one that is
/// frozen can serve again or go; and one that is gone stays so. Each can stay what it is.
pub proof fn law_tablet_course(from: TabletState, to: TabletState)
    ensures
        can_become(from, to) <==> from == to || match (from, to) {
            (TabletState::Hydrating, TabletState::Frozen) => true,
            (TabletState::Hydrating, TabletState::Defunct) => true,
            (TabletState::Active, TabletState::Frozen) => true,
            (TabletState::Frozen, TabletState::Active) => true,
            (TabletState::Frozen, TabletState::Defunct) => true,
            _ => false,
        },
{
}

/// A source keeps its data apart at the bounds between the destinations, and any other tablet
/// nowhere.
pub proof fn law_wanted_splits(m: ShardTabletMetadataView, b: Bound<Seq<u8>>)
    ensures
        wanted_splits(m).contains(b) <==> (m.transfer matches Some(TabletTransferView::Src(splits))
            && splits.contains(b)),
{
}

/// A keyspace comes due in a tablet exactly where the tablet stops copying and the keyspace was
/// created in the meantime, or comes with one that was.
pub proof fn law_keyspaces_due(before: DataTablet, to: TabletState, x: KeyspaceId)
    requires
        before.wf(),
    ensures
        keyspaces_due(before, to).contains(x) <==> to == TabletState::Frozen && (before.state
            matches DataState::Hydrating(h) && exists|id: KeyspaceId| #[trigger]
            h.extra_keyspaces@.contains_key(id) && (x == id || id.pending_spec() == Some(x)
                || id.precond_spec() == Some(x))),
{
    if let DataState::Hydrating(h) = before.state {
        let ids = h.extra_keyspaces.keys();
        crate::tablet::state_laws::law_all_keyspaces_come_along(ids, x);
        if exists|i: int|
            0 <= i < ids.len() && (x == #[trigger] ids[i] || ids[i].pending_spec() == Some(x)
                || ids[i].precond_spec() == Some(x)) {
            let i = choose|i: int|
                0 <= i < ids.len() && (x == #[trigger] ids[i] || ids[i].pending_spec() == Some(x)
                    || ids[i].precond_spec() == Some(x));
            h.extra_keyspaces.lemma_entry(i);
            assert(h.extra_keyspaces@.contains_key(ids[i]));
        }
        if exists|id: KeyspaceId| #[trigger]
            h.extra_keyspaces@.contains_key(id) && (x == id || id.pending_spec() == Some(x)
                || id.precond_spec() == Some(x)) {
            let id = choose|id: KeyspaceId| #[trigger]
                h.extra_keyspaces@.contains_key(id) && (x == id || id.pending_spec() == Some(x)
                    || id.precond_spec() == Some(x));
            h.extra_keyspaces.lemma_key(id);
            let i = choose|i: int|
                0 <= i < h.extra_keyspaces.entries@.len() && (
                #[trigger] h.extra_keyspaces.entries@[i]).0@ == id;
            assert(ids[i] == id);
        }
    }
}

/// A tablet that does not go where it should names itself: that it cannot start to copy again, that
/// copying failed, or the state that it is in.
pub proof fn law_refusal(t: DataTablet, to: TabletState)
    ensures
        refusal(t, to) == if to == TabletState::Hydrating {
            ShardError::CannotHydrate(t.tablet_id)
        } else if to == TabletState::Frozen && t.state is Hydrating {
            ShardError::Tablet(InternalError::HydrationFailed(t.tablet_id))
        } else {
            ShardError::Tablet(InternalError::WrongState(t.tablet_id, t.kind()))
        },
        t.state is Hydrating <==> t.kind() == TabletState::Hydrating,
        t.state is Active <==> t.kind() == TabletState::Active,
        t.state is Frozen <==> t.kind() == TabletState::Frozen,
{
}

/// A frozen tablet of the group stands in the way of a keyspace, the first of them by name. Up to it
/// the keyspace is created in exactly the active tablets of the group, in order.
pub proof fn law_keyspace_creation(tablets: Seq<(TabletId, DataTablet)>, id: KeyspaceId) -> (r: (
    int,
    Seq<int>,
))
    ensures
        ({
            let (n, idx) = r;
            &&& 0 <= n <= tablets.len()
            &&& forall|i: int|
                0 <= i < n ==> !((#[trigger] tablets[i]).1.colo_group_id == id.0
                    && tablets[i].1.state is Frozen)
            &&& n < tablets.len() ==> tablets[n].1.colo_group_id == id.0 && tablets[n].1.state
                is Frozen
            &&& first_blocking(tablets, id) == if n < tablets.len() {
                Some(tablets[n].0)
            } else {
                None
            }
            &&& picks(idx, tablets.len())
            &&& forall|i: int|
                0 <= i < tablets.len() ==> (idx.contains(i) <==> i < n && (
                #[trigger] tablets[i]).1.colo_group_id == id.0 && tablets[i].1.state is Active)
            &&& creating(tablets, id).len() == idx.len()
            &&& forall|j: int|
                0 <= j < idx.len() ==> #[trigger] creating(tablets, id)[j] == tablets[idx[j]].0
        }),
    decreases tablets.len(),
{
    if tablets.len() == 0 {
        (0, Seq::empty())
    } else {
        let rest = tablets.drop_last();
        let l = rest.len();
        let (n, idx) = law_keyspace_creation(rest, id);
        lemma_picks_push(idx, l);
        assert forall|i: int| 0 <= i < l implies #[trigger] rest[i] == tablets[i] by {}
        let last = tablets[l as int].1;
        let m = if n < l {
            n
        } else if last.colo_group_id == id.0 && last.state is Frozen {
            l as int
        } else {
            l as int + 1
        };
        let all = if n == l && last.colo_group_id == id.0 && last.state is Active {
            idx.push(l as int)
        } else {
            idx
        };
        assert forall|i: int| 0 <= i < m implies !((#[trigger] tablets[i]).1.colo_group_id == id.0
            && tablets[i].1.state is Frozen) by {
            if i < l {
                assert(rest[i] == tablets[i]);
            }
        }
        assert forall|i: int| 0 <= i < tablets.len() implies (all.contains(i) <==> i < m && (
        #[trigger] tablets[i]).1.colo_group_id == id.0 && tablets[i].1.state is Active) by {
            if i < l {
                assert(rest[i] == tablets[i]);
            }
        }
        assert forall|j: int| 0 <= j < all.len() implies #[trigger] creating(tablets, id)[j]
            == tablets[all[j]].0 by {
            if j < idx.len() {
                assert(creating(tablets, id)[j] == creating(rest, id)[j]);
                assert(rest[idx[j]] == tablets[idx[j]]);
            }
        }
        (m, all)
    }
}

/// Of a list of tablets a shard takes the steps for its own, all of them and in order.
pub proof fn law_shard_steps(shard: ShardId, ids: Seq<TabletId>) -> (idx: Seq<int>)
    ensures
        picks(idx, ids.len()),
        forall|i: int| 0 <= i < ids.len() ==> (idx.contains(i) <==> (#[trigger] ids[i]).0 == shard),
        shard_steps(shard, ids).len() == idx.len(),
        forall|j: int|
            0 <= j < idx.len() ==> #[trigger] shard_steps(shard, ids)[j] == SyncStep::Tablet(
                ids[idx[j]],
            ),
    decreases ids.len(),
{
    if ids.len() == 0 {
        Seq::empty()
    } else {
        let rest = ids.drop_last();
        let n = rest.len();
        let idx = law_shard_steps(shard, rest);
        lemma_picks_push(idx, n);
        let all = if ids[n as int].0 == shard {
            idx.push(n as int)
        } else {
            idx
        };
        assert forall|i: int| 0 <= i < ids.len() implies (all.contains(i) <==> (#[trigger] ids[i]).0
            == shard) by {
            if i < n {
                assert(rest[i] == ids[i]);
            }
        }
        assert forall|j: int| 0 <= j < all.len() implies #[trigger] shard_steps(shard, ids)[j]
            == SyncStep::Tablet(ids[all[j]]) by {
            if j < idx.len() {
                assert(shard_steps(shard, ids)[j] == shard_steps(shard, rest)[j]);
                assert(rest[idx[j]] == ids[idx[j]]);
            }
        }
        all
    }
}

/// Of what a transaction wrote a shard takes the steps for its own tablets and for all keyspaces, in
/// order.
pub proof fn law_tx_steps(shard: ShardId, keys: Seq<MetaKey>) -> (idx: Seq<int>)
    ensures
        picks(idx, keys.len()),
        forall|i: int|
            0 <= i < keys.len() ==> (idx.contains(i) <==> match #[trigger] keys[i] {
                MetaKey::Tablet(id) => id.0 == shard,
                MetaKey::Keyspace(_) => true,
                _ => false,
            }),
        tx_steps(shard, keys).len() == idx.len(),
        forall|j: int|
            0 <= j < idx.len() ==> match #[trigger] tx_steps(shard, keys)[j] {
                SyncStep::Tablet(id) => keys[idx[j]] == MetaKey::Tablet(id),
                SyncStep::Keyspace(id) => keys[idx[j]] == MetaKey::Keyspace(id),
            },
    decreases keys.len(),
{
    if keys.len() == 0 {
        Seq::empty()
    } else {
        let rest = keys.drop_last();
        let n = rest.len();
        let idx = law_tx_steps(shard, rest);
        lemma_picks_push(idx, n);
        let wanted = match keys[n as int] {
            MetaKey::Tablet(id) => id.0 == shard,
            MetaKey::Keyspace(_) => true,
            _ => false,
        };
        let all = if wanted {
            idx.push(n as int)
        } else {
            idx
        };
        assert forall|i: int| 0 <= i < keys.len() implies (all.contains(i) <==> match
            #[trigger] keys[i] {
            MetaKey::Tablet(id) => id.0 == shard,
            MetaKey::Keyspace(_) => true,
            _ => false,
        }) by {
            if i < n {
                assert(rest[i] == keys[i]);
            }
        }
        assert forall|j: int| 0 <= j < all.len() implies match #[trigger] tx_steps(shard, keys)[j] {
            SyncStep::Tablet(id) => keys[all[j]] == MetaKey::Tablet(id),
            SyncStep::Keyspace(id) => keys[all[j]] == MetaKey::Keyspace(id),
        } by {
            if j < idx.len() {
                assert(tx_steps(shard, keys)[j] == tx_steps(shard, rest)[j]);
                assert(rest[idx[j]] == keys[idx[j]]);
            }
        }
        all
    }
}

/// At first a shard takes the steps for each of its tablets and then for each keyspace, all of them.
pub proof fn law_initial_steps(shard: ShardId, snapshot: MetaSnapshot, step: SyncStep)
    requires
        snapshot.wf(),
    ensures
        steps_for(shard, SyncType::Initial, snapshot).contains(step) <==> match step {
            SyncStep::Tablet(id) => id.0 == shard && snapshot.tablets@.contains_key(id),
            SyncStep::Keyspace(id) => snapshot.keyspaces@.contains_key(id),
        },
        forall|i: int, j: int|
            0 <= i < j < steps_for(shard, SyncType::Initial, snapshot).len() && #[trigger] steps_for(
                shard,
                SyncType::Initial,
                snapshot,
            )[j] is Tablet ==> #[trigger] steps_for(shard, SyncType::Initial, snapshot)[i] is Tablet,
{
    let (ids, spaces) = (snapshot.tablets.keys(), snapshot.keyspaces.keys());
    let a = shard_steps(shard, ids);
    let b = spaces.map_values(|id: KeyspaceId| SyncStep::Keyspace(id));
    let all = steps_for(shard, SyncType::Initial, snapshot);
    assert(all == a + b);
    let idx = law_shard_steps(shard, ids);
    if all.contains(step) {
        let i = all.index_of(step);
        if i < a.len() {
            assert(a[i] == SyncStep::Tablet(ids[idx[i]]));
            assert(idx.contains(idx[i]));
            snapshot.tablets.lemma_entry(idx[i]);
        } else {
            assert(step == SyncStep::Keyspace(spaces[i - a.len()]));
            snapshot.keyspaces.lemma_entry(i - a.len());
        }
    }
    match step {
        SyncStep::Tablet(id) => {
            if id.0 == shard && snapshot.tablets@.contains_key(id) {
                snapshot.tablets.lemma_key(id);
                let i = choose|i: int|
                    0 <= i < snapshot.tablets.entries@.len() && (
                    #[trigger] snapshot.tablets.entries@[i]).0@ == id;
                assert(ids[i] == id);
                assert(idx.contains(i));
                let j = idx.index_of(i);
                assert(a[j] == step);
                assert(all[j] == step);
            }
        },
        SyncStep::Keyspace(id) => {
            if snapshot.keyspaces@.contains_key(id) {
                snapshot.keyspaces.lemma_key(id);
                let i = choose|i: int|
                    0 <= i < snapshot.keyspaces.entries@.len() && (
                    #[trigger] snapshot.keyspaces.entries@[i]).0@ == id;
                assert(all[a.len() + i] == step);
            }
        },
    }
    assert forall|i: int, j: int| 0 <= i < j < all.len() && #[trigger] all[j]
        is Tablet implies #[trigger] all[i] is Tablet by {
        assert(j < a.len());
        assert(a[i] == all[i]);
    }
}

/// Tablets can be made exactly where a shard can be told of each, and of each that copies from where.
/// Else the first that cannot says why.
pub proof fn law_first_make_error(snapshot: MetaSnapshot, ids: Seq<TabletId>)
    ensures
        first_make_error(snapshot, ids) is None <==> forall|i: int|
            0 <= i < ids.len() ==> (metadata_for(snapshot, #[trigger] ids[i]) matches Ok(m) && (
            m.state == TabletState::Hydrating ==> m.transfer is Some && m.transfer->0 is Dst)),
        first_make_error(snapshot, ids) matches Some(e) ==> exists|i: int|
            0 <= i < ids.len() && match metadata_for(snapshot, #[trigger] ids[i]) {
                Err(e2) => e == e2,
                Ok(m) => e == ShardError::NoSources(ids[i]) && m.state == TabletState::Hydrating
                    && !(m.transfer is Some && m.transfer->0 is Dst),
            },
    decreases ids.len(),
{
    if ids.len() > 0 {
        let rest = ids.drop_last();
        let n = rest.len() as int;
        law_first_make_error(snapshot, rest);
        assert(ids[n] == ids.last());
        match first_make_error(snapshot, rest) {
            Some(e) => {
                let i = choose|i: int|
                    0 <= i < rest.len() && match metadata_for(snapshot, #[trigger] rest[i]) {
                        Err(e2) => e == e2,
                        Ok(m) => e == ShardError::NoSources(rest[i]) && m.state
                            == TabletState::Hydrating && !(m.transfer is Some && m.transfer->0
                            is Dst),
                    };
                assert(ids[i] == rest[i]);
            },
            None => {
                assert forall|i: int| 0 <= i < n implies (metadata_for(
                    snapshot,
                    #[trigger] ids[i],
                ) matches Ok(m) && (m.state == TabletState::Hydrating ==> m.transfer is Some
                    && m.transfer->0 is Dst)) by {
                    assert(rest[i] == ids[i]);
                }
            },
        }
    }
}

/// All tablets of a shard are data tablets, but for that of its own metadata and, in the shard of the
/// cluster's metadata, that of those.
pub proof fn law_data_ids(shard: ShardId, ids: Seq<TabletId>) -> (idx: Seq<int>)
    ensures
        picks(idx, ids.len()),
        forall|i: int|
            0 <= i < ids.len() ==> (idx.contains(i) <==> !(#[trigger] ids[i] == TabletId(
                shard,
                u64::MAX,
            ) || (shard.0 == 0 && ids[i] == TabletId(ShardId(0), 0)))),
        data_ids(shard, ids).len() == idx.len(),
        forall|j: int| 0 <= j < idx.len() ==> #[trigger] data_ids(shard, ids)[j] == ids[idx[j]],
    decreases ids.len(),
{
    if ids.len() == 0 {
        Seq::empty()
    } else {
        let rest = ids.drop_last();
        let n = rest.len();
        let idx = law_data_ids(shard, rest);
        lemma_picks_push(idx, n);
        let own = ids[n as int] == TabletId(shard, u64::MAX) || (shard.0 == 0 && ids[n as int]
            == TabletId(ShardId(0), 0));
        let all = if own {
            idx
        } else {
            idx.push(n as int)
        };
        assert forall|i: int| 0 <= i < ids.len() implies (all.contains(i) <==> !(#[trigger] ids[i]
            == TabletId(shard, u64::MAX) || (shard.0 == 0 && ids[i] == TabletId(
            ShardId(0),
            0,
        )))) by {
            if i < n {
                assert(rest[i] == ids[i]);
            }
        }
        assert forall|j: int| 0 <= j < all.len() implies #[trigger] data_ids(shard, ids)[j]
            == ids[all[j]] by {
            if j < idx.len() {
                assert(data_ids(shard, ids)[j] == data_ids(shard, rest)[j]);
                assert(rest[idx[j]] == ids[idx[j]]);
            }
        }
        all
    }
}

/// A run is mentioned as often as it occurs.
pub proof fn law_mentions(s: Seq<(JournalSeq, RunId)>, id: RunId)
    ensures
        mentions(s, id) == s.filter(|m: (JournalSeq, RunId)| m.1 == id).len(),
    decreases s.len(),
{
    reveal(Seq::filter);
    if s.len() > 0 {
        law_mentions(s.drop_last(), id);
    }
}

/// A trim forgets exactly the mentions at the front that stand before the position.
pub proof fn law_trim_forgets(s: Seq<(JournalSeq, RunId)>, seq: JournalSeq)
    ensures
        stale(s, seq) <= s.len(),
        forall|i: int| 0 <= i < stale(s, seq) ==> (#[trigger] s[i]).0.0 < seq.0,
        stale(s, seq) < s.len() ==> s[stale(s, seq) as int].0.0 >= seq.0,
    decreases s.len(),
{
    if s.len() > 0 && s[0].0.0 < seq.0 {
        let rest = s.skip(1);
        law_trim_forgets(rest, seq);
        assert forall|i: int| 0 <= i < stale(s, seq) implies (#[trigger] s[i]).0.0 < seq.0 by {
            if i > 0 {
                assert(rest[i - 1] == s[i]);
            }
        }
        if stale(s, seq) < s.len() {
            assert(rest[stale(rest, seq) as int] == s[stale(s, seq) as int]);
        }
    }
}

/// A tablet is made with the number, the group, the range and the state that the metadata gives it.
/// An active one starts without splits, and one that hydrates at the first step, from the sources
/// of the transfer.
pub proof fn law_tablet_is_made(t: DataTablet, id: TabletId, m: ShardTabletMetadataView)
    requires
        as_made(t, id, m),
    ensures
        t.tablet_id == id,
        t.colo_group_id == m.colo_group_id,
        t.range@ == m.range,
        t.state is Active <==> m.state is Active,
        t.state is Hydrating <==> m.state is Hydrating,
        t.state is Frozen <==> m.state is Frozen,
        t.state matches DataState::Active(splits) ==> splits@.len() == 0,
        t.state matches DataState::Hydrating(h) ==> {
            &&& m.transfer == Some(TabletTransferView::Dst(h.srcs@))
            &&& h.tablet_id == id
            &&& h.colo_group_id == m.colo_group_id
            &&& h.range@ == m.range
            &&& h.state is Started
            &&& h.rounds_with_completed == 0
            &&& h.extra_keyspaces@.dom() == Set::<KeyspaceId>::empty()
        },
{
}

/// A tablet is made only to be active or to hydrate.
pub proof fn law_tablet_can_be_made(m: ShardTabletMetadataView)
    ensures
        can_make(m) <==> match m.state {
            TabletState::Active => true,
            TabletState::Hydrating => true,
            TabletState::Frozen => false,
            TabletState::Defunct => false,
        },
{
}

/// A tablet that follows the metadata is in the state that it gives, and keeps its number, group and
/// range. An active one has the splits that are wanted of it, and one that still hydrates goes on
/// with what it did.
pub proof fn law_tablet_follows(
    before: DataTablet,
    after: DataTablet,
    m: ShardTabletMetadataView,
)
    requires
        has_followed(before, after, m),
    ensures
        after.tablet_id == before.tablet_id,
        after.colo_group_id == before.colo_group_id,
        after.range == before.range,
        after.state is Active <==> m.state is Active,
        after.state is Hydrating <==> m.state is Hydrating,
        after.state is Frozen <==> m.state is Frozen,
        after.state is Defunct <==> m.state is Defunct,
        after.state is Hydrating ==> after.state == before.state,
        after.state matches DataState::Active(splits) ==> splits@.len() == wanted_splits(m).len()
            && forall|i: int|
            0 <= i < splits@.len() ==> (#[trigger] splits@[i])@ == wanted_splits(m)[i],
{
    if let DataState::Active(splits) = after.state {
        assert forall|i: int| 0 <= i < splits@.len() implies (#[trigger] splits@[i])@
            == wanted_splits(m)[i] by {
            assert(bound_views(splits@)[i] == splits@[i]@);
        }
    }
}

/// A tablet that hydrates is frozen only once it has all data.
pub proof fn law_freezes_once_hydrated(t: DataTablet)
    ensures
        t.state is Hydrating ==> !can_follow(t, TabletState::Frozen, false),
        t.state is Hydrating ==> can_follow(t, TabletState::Frozen, true),
        t.state is Active ==> can_follow(t, TabletState::Frozen, false),
{
}

/// A keyspace that has to exist is remembered by a tablet that hydrates, beside those that it
/// remembers already. Nothing else of it changes, and nothing of any other tablet.
pub proof fn law_keyspace_is_remembered(
    before: DataTablet,
    after: DataTablet,
    id: KeyspaceId,
    other: KeyspaceId,
)
    requires
        remembers(before, after, id),
    ensures
        after.tablet_id == before.tablet_id,
        after.colo_group_id == before.colo_group_id,
        after.range == before.range,
        !(before.state is Hydrating) ==> after.state == before.state,
        before.state matches DataState::Hydrating(h) ==> (after.state matches DataState::Hydrating(g)
            && (g.extra_keyspaces@.contains_key(other) <==> h.extra_keyspaces@.contains_key(other)
            || other == id) && g.srcs == h.srcs && g.state == h.state && g.range == h.range
            && g.rounds_with_completed == h.rounds_with_completed),
{
}

} // verus!
