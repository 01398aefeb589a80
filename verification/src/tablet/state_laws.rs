//! What tablets take on in each state, and which keyspaces they have.

use vstd::prelude::*;

use super::active_tablet::PrepareType;
use super::data_tablet::TabletRequest;
use super::hydrating_tablet::{all_keyspaces_of, copies_whole};
use super::leftovers::{is_leftover, scanned_keyspaces, Leftover};
use super::lsm_tablet::{first_obstacle, is_overlap, keyspaces_among, scan_choice, LsmTablet};
use super::meta_tablet::meta_allows;
use super::shard_meta_tablet::{told, TabletKeys};
use super::tablet_inner::keyspaces_of;
use crate::meta::{MetaKey, TabletState};
use crate::range::bound::group_bound_order;
use crate::range::range_set::covers;
use crate::range::{Bound, Range};
use crate::types::data::{KeyView, RevisionValue, Stored, Txid, TXID_LEN};
use crate::types::error::InternalError;
use crate::types::{law_tablet_encoding, ColoGroupId, Direction, KeyspaceId, ShardId, TabletId};
use crate::util::ordmap::OrdMap;
use crate::util::select::{lemma_picks_push, picks};

verus! {

/// An active tablet takes reads and writes, a frozen one reads, one that copies what copying needs,
/// and a defunct one nothing. All but the last tell the runs that they hold.
pub proof fn law_requests_by_state(request: TabletRequest, state: TabletState)
    ensures
        request.allowed(state) <==> match request {
            TabletRequest::GetMulti | TabletRequest::GetLatestMulti | TabletRequest::LatestSnapshot
            | TabletRequest::ScanPage | TabletRequest::HistoryPage => state
                == TabletState::Active || state == TabletState::Frozen,
            TabletRequest::WaitMostlyHydrated | TabletRequest::Catchup => state
                == TabletState::Hydrating,
            TabletRequest::Manifest => state != TabletState::Defunct,
            TabletRequest::Write | TabletRequest::Prepare | TabletRequest::CleanupCommitted
            | TabletRequest::FindSplit | TabletRequest::Flush => state == TabletState::Active,
        },
{
}

/// The tablet of the metadata takes what an active tablet does, but for what belongs to transactions
/// across tablets and to transfers.
pub proof fn law_meta_requests(request: TabletRequest)
    ensures
        meta_allows(request) ==> request.allowed(TabletState::Active),
        request.allowed(TabletState::Active) && !meta_allows(request) <==> request
            == TabletRequest::Prepare || request == TabletRequest::CleanupCommitted || request
            == TabletRequest::FindSplit || request == TabletRequest::Flush,
{
}

/// A keyspace of values comes with one for undecided mutations and one for preconditions, and any
/// other keyspace comes alone.
pub proof fn law_keyspaces_come_along(id: KeyspaceId, x: KeyspaceId)
    ensures
        keyspaces_of(id).contains(x) <==> x == id || id.pending_spec() == Some(x)
            || id.precond_spec() == Some(x),
        keyspaces_of(id).len() == if id.userland() {
            3nat
        } else {
            1
        },
        keyspaces_of(id)[0] == id,
        keyspaces_of(id).no_duplicates(),
{
    let s = keyspaces_of(id);
    if id.userland() {
        assert(s[0] == id && id.pending_spec() == Some(s[1]) && id.precond_spec() == Some(s[2]));
    } else {
        assert(s[0] == id);
    }
}

/// The keyspaces that come with several are those that come with each of them.
pub proof fn law_all_keyspaces_come_along(ids: Seq<KeyspaceId>, x: KeyspaceId)
    ensures
        all_keyspaces_of(ids).contains(x) <==> exists|i: int|
            0 <= i < ids.len() && (x == #[trigger] ids[i] || ids[i].pending_spec() == Some(x)
                || ids[i].precond_spec() == Some(x)),
    decreases ids.len(),
{
    if ids.len() > 0 {
        let rest = ids.drop_last();
        let n = rest.len() as int;
        law_all_keyspaces_come_along(rest, x);
        law_keyspaces_come_along(ids[n], x);
        let (a, b) = (all_keyspaces_of(rest), keyspaces_of(ids[n]));
        lemma_add_contains(a, b, x);
        if exists|i: int|
            0 <= i < rest.len() && (x == #[trigger] rest[i] || rest[i].pending_spec() == Some(x)
                || rest[i].precond_spec() == Some(x)) {
            let i = choose|i: int|
                0 <= i < rest.len() && (x == #[trigger] rest[i] || rest[i].pending_spec() == Some(x)
                    || rest[i].precond_spec() == Some(x));
            assert(ids[i] == rest[i]);
        }
        if exists|i: int|
            0 <= i < ids.len() && (x == #[trigger] ids[i] || ids[i].pending_spec() == Some(x)
                || ids[i].precond_spec() == Some(x)) {
            let i = choose|i: int|
                0 <= i < ids.len() && (x == #[trigger] ids[i] || ids[i].pending_spec() == Some(x)
                    || ids[i].precond_spec() == Some(x));
            if i < n {
                assert(rest[i] == ids[i]);
            }
        }
    }
}

proof fn lemma_add_contains(a: Seq<KeyspaceId>, b: Seq<KeyspaceId>, x: KeyspaceId)
    ensures
        (a + b).contains(x) <==> a.contains(x) || b.contains(x),
{
    let c = a + b;
    if a.contains(x) {
        assert(c[a.index_of(x)] == x);
    }
    if b.contains(x) {
        assert(c[a.len() + b.index_of(x)] == x);
    }
    if c.contains(x) {
        let i = c.index_of(x);
        if i < a.len() {
            assert(a[i] == x);
        } else {
            assert(b[i - a.len()] == x);
        }
    }
}

/// The keyspaces that are scanned for what transactions left are those of undecided mutations, or
/// those of preconditions, in the order in which they come.
pub proof fn law_scanned_keyspaces(ids: Seq<KeyspaceId>, kind: PrepareType) -> (idx: Seq<int>)
    ensures
        picks(idx, ids.len()),
        forall|i: int|
            0 <= i < ids.len() ==> (idx.contains(i) <==> match kind {
                PrepareType::Mutation => exists|v: KeyspaceId|
                    #[trigger] v.pending_spec() == Some(ids[i]),
                PrepareType::Precondition => exists|v: KeyspaceId|
                    #[trigger] v.precond_spec() == Some(ids[i]),
            }),
        scanned_keyspaces(ids, kind).len() == idx.len(),
        forall|j: int|
            0 <= j < idx.len() ==> #[trigger] scanned_keyspaces(ids, kind)[j] == ids[idx[j]],
    decreases ids.len(),
{
    if ids.len() == 0 {
        Seq::empty()
    } else {
        let rest = ids.drop_last();
        let n = rest.len();
        let idx = law_scanned_keyspaces(rest, kind);
        lemma_picks_push(idx, n);
        crate::types::law_data_keyspace(ids[n as int]);
        assert forall|v: KeyspaceId| #[trigger] v.pending_spec() == Some(
            ids[n as int],
        ) implies ids[n as int].holds_pending() by {
            crate::types::law_keyspace_kinds(v, v);
        }
        assert forall|v: KeyspaceId| #[trigger] v.precond_spec() == Some(
            ids[n as int],
        ) implies ids[n as int].holds_preconds() by {
            crate::types::law_keyspace_kinds(v, v);
        }
        let wanted = match kind {
            PrepareType::Mutation => ids[n as int].holds_pending(),
            PrepareType::Precondition => ids[n as int].holds_preconds(),
        };
        assert(ids[n as int].holds_pending() ==> ids[n as int].data_spec().pending_spec() == Some(
            ids[n as int],
        ));
        assert(ids[n as int].holds_preconds() ==> ids[n as int].data_spec().precond_spec() == Some(
            ids[n as int],
        ));
        assert forall|i: int| 0 <= i < n implies rest[i] == ids[i] by {}
        let all = if wanted {
            idx.push(n as int)
        } else {
            idx
        };
        assert forall|j: int| 0 <= j < all.len() implies #[trigger] scanned_keyspaces(ids, kind)[j]
            == ids[all[j]] by {
            if j < idx.len() {
                assert(scanned_keyspaces(rest, kind)[j] == rest[idx[j]]);
            }
        }
        assert forall|i: int| 0 <= i < ids.len() implies (all.contains(i) <==> match kind {
            PrepareType::Mutation => exists|v: KeyspaceId|
                #[trigger] v.pending_spec() == Some(ids[i]),
            PrepareType::Precondition => exists|v: KeyspaceId|
                #[trigger] v.precond_spec() == Some(ids[i]),
        }) by {
            if i < n {
                assert(rest[i] == ids[i]);
            }
        }
        all
    }
}

/// The keyspaces among pieces of the metadata come in the order of the pieces, and none is left out.
pub proof fn law_keyspaces_among(keys: Seq<MetaKey>) -> (idx: Seq<int>)
    ensures
        picks(idx, keys.len()),
        forall|i: int| 0 <= i < keys.len() ==> (idx.contains(i) <==> #[trigger] keys[i] is Keyspace),
        keyspaces_among(keys).len() == idx.len(),
        forall|j: int|
            0 <= j < idx.len() ==> keys[idx[j]] == MetaKey::Keyspace(
                #[trigger] keyspaces_among(keys)[j],
            ),
    decreases keys.len(),
{
    if keys.len() == 0 {
        Seq::empty()
    } else {
        let rest = keys.drop_last();
        let n = rest.len();
        let idx = law_keyspaces_among(rest);
        lemma_picks_push(idx, n);
        assert forall|i: int| 0 <= i < n implies #[trigger] rest[i] == keys[i] by {}
        let all = if keys[n as int] is Keyspace {
            idx.push(n as int)
        } else {
            idx
        };
        assert forall|i: int| 0 <= i < keys.len() implies (all.contains(i) <==> #[trigger] keys[i]
            is Keyspace) by {
            if i < n {
                assert(rest[i] == keys[i]);
            }
        }
        assert forall|j: int| 0 <= j < all.len() implies keys[all[j]] == MetaKey::Keyspace(
            #[trigger] keyspaces_among(keys)[j],
        ) by {
            if j < idx.len() {
                assert(keyspaces_among(keys)[j] == keyspaces_among(rest)[j]);
                assert(rest[idx[j]] == keys[idx[j]]);
            }
        }
        all
    }
}

/// A run is copied or left out as a whole exactly where it lies within the tablet's range, or the
/// two share nothing.
pub proof fn law_whole_runs(range: Range<Seq<u8>>, run: Range<Seq<u8>>)
    ensures
        run.lower.before(run.upper) ==> (copies_whole(range, run) <==> (forall|b: Bound<Seq<u8>>|
            #[trigger] run.covers(b) ==> range.covers(b)) || (forall|b: Bound<Seq<u8>>|
            #[trigger] run.covers(b) ==> !range.covers(b))),
{
    broadcast use group_bound_order;

    if run.lower.before(run.upper) {
        assert(run.covers(run.lower));
        let m = range.meet(run);
        assert(m.covers(m.lower) <==> !m.vacant());
        if m.vacant() {
            assert forall|b: Bound<Seq<u8>>| #[trigger] run.covers(b) implies !range.covers(b) by {
                crate::range::span::law_range_meet(range, run, b, Seq::empty());
                crate::range::span::law_vacant_range(m, b, Seq::empty());
            }
        } else {
            crate::range::span::law_range_meet(range, run, m.lower, Seq::empty());
            assert(run.covers(m.lower) && range.covers(m.lower));
            if forall|b: Bound<Seq<u8>>| #[trigger] run.covers(b) ==> range.covers(b) {
                assert(range.covers(run.lower));
                if range.upper.before(run.upper) {
                    assert(run.covers(range.upper));
                    assert(range.covers(range.upper));
                }
            }
        }
    }
}

/// A write that takes part in transactions is kept back exactly where one of its keys holds no
/// values, or has an undecided mutation. The first such says why.
pub proof fn law_first_obstacle(keys: Seq<KeyView>, pending: Seq<Stored>)
    requires
        keys.len() <= pending.len(),
    ensures
        first_obstacle(keys, pending) is None <==> forall|i: int|
            0 <= i < keys.len() ==> (#[trigger] keys[i]).0.userland() && !(pending[i]
                matches Some((_, RevisionValue::Regular(_)))),
        first_obstacle(keys, pending) matches Some(e) ==> exists|i: int|
            {
                &&& 0 <= i < keys.len()
                &&& if (#[trigger] keys[i]).0.userland() {
                    pending[i] matches Some((_, RevisionValue::Regular(b))) && e
                        == InternalError::Conflict(Txid::of(b@.take(TXID_LEN as int)))
                } else {
                    e == InternalError::NotData(keys[i].0)
                }
                &&& forall|j: int|
                    0 <= j < i ==> (#[trigger] keys[j]).0.userland() && !(pending[j] matches Some(
                        (_, RevisionValue::Regular(_)),
                    ))
            },
    decreases keys.len(),
{
    if keys.len() > 0 {
        let rest = keys.drop_last();
        let n = rest.len() as int;
        law_first_obstacle(rest, pending);
        match first_obstacle(rest, pending) {
            Some(e) => {
                let i = choose|i: int|
                    {
                        &&& 0 <= i < rest.len()
                        &&& if (#[trigger] rest[i]).0.userland() {
                            pending[i] matches Some((_, RevisionValue::Regular(b))) && e
                                == InternalError::Conflict(Txid::of(b@.take(TXID_LEN as int)))
                        } else {
                            e == InternalError::NotData(rest[i].0)
                        }
                        &&& forall|j: int|
                            0 <= j < i ==> (#[trigger] rest[j]).0.userland() && !(pending[j]
                                matches Some((_, RevisionValue::Regular(_))))
                    };
                assert(keys[i] == rest[i]);
                assert forall|j: int| 0 <= j < i implies (#[trigger] keys[j]).0.userland() && !(
                pending[j] matches Some((_, RevisionValue::Regular(_)))) by {
                    assert(rest[j] == keys[j]);
                }
            },
            None => {
                assert forall|j: int| 0 <= j < n implies (#[trigger] keys[j]).0.userland() && !(
                pending[j] matches Some((_, RevisionValue::Regular(_)))) by {
                    assert(rest[j] == keys[j]);
                }
                assert(keys[n] == keys.last());
            },
        }
    }
}

/// What is scanned is owned and was asked for, starts where the range does in the direction of the
/// scan, and ends where the range does or where something is not owned. Nothing is scanned exactly
/// where nothing of the range is owned, or not what comes first.
pub proof fn law_scan_choice(
    tablet_id: TabletId,
    owned: Seq<Range<Seq<u8>>>,
    range: Range<Seq<u8>>,
    direction: Direction,
    t: Seq<Range<Seq<u8>>>,
)
    requires
        is_overlap(owned, range, t),
    ensures
        match scan_choice(tablet_id, range, direction, t) {
            Ok(scan) => {
                &&& scan.lower.before(scan.upper)
                &&& forall|b: Bound<Seq<u8>>| #[trigger]
                    scan.covers(b) ==> covers(owned, b) && range.covers(b)
                &&& match direction {
                    Direction::Asc => scan.lower == range.lower && !(covers(owned, scan.upper)
                        && range.covers(scan.upper)),
                    Direction::Desc => scan.upper == range.upper,
                }
            },
            Err(e) => if forall|b: Bound<Seq<u8>>| #[trigger]
                range.covers(b) ==> !covers(owned, b) {
                e == InternalError::Misroute(tablet_id)
            } else {
                e == InternalError::NotNext(tablet_id)
            },
        },
{
    broadcast use group_bound_order;

    if t.len() > 0 {
        let scan = match direction {
            Direction::Asc => t[0],
            Direction::Desc => t.last(),
        };
        assert(t[0].lower.before(t[0].upper) && t.last().lower.before(t.last().upper));
        assert forall|b: Bound<Seq<u8>>| #[trigger] scan.covers(b) implies covers(owned, b)
            && range.covers(b) by {
            assert(covers(t, b)) by {
                if direction == Direction::Asc {
                    assert(t[0].covers(b));
                } else {
                    assert(t[t.len() - 1].covers(b));
                }
            }
        }
        assert(scan.covers(scan.lower));
        assert(range.covers(scan.lower) && covers(owned, scan.lower));
        if direction == Direction::Asc && covers(t, scan.upper) {
            let i = choose|i: int| 0 <= i < t.len() && (#[trigger] t[i]).covers(scan.upper);
            if i > 0 {
                assert(t[0].upper.before(t[i].lower));
            }
        }
    } else {
        assert forall|b: Bound<Seq<u8>>| #[trigger] range.covers(b) implies !covers(owned, b) by {
            assert(!covers(t, b));
        }
    }
}

/// The metadata of a tablet are taken by one tablet only, that which their keys start with, where no
/// tablet owns ranges of that group. All else goes by the ranges, but for the cluster's metadata,
/// which their tablet takes.
pub proof fn law_keys_taken(a: LsmTablet, b: LsmTablet, group: ColoGroupId, key: Seq<u8>)
    ensures
        group.0 != 0 && group.0 != 0xffff_fffe ==> (a.key_error(group, key) is None
            <==> a.owned_ranges@.contains_key(group.0) && a.owned_ranges@[group.0].has(key)),
        group.0 == 0xffff_fffe && !a.owned_ranges@.contains_key(group.0)
            && !b.owned_ranges@.contains_key(group.0) && a.key_error(group, key) is None
            && b.key_error(group, key) is None ==> a.tablet_id == b.tablet_id,
        group.0 == 0xffff_fffe && key.len() >= 12 && a.tablet_id.encoded(key.take(12))
            ==> a.key_error(group, key) is None,
        group.0 == 0 && a.tablet_id == TabletId(ShardId(0), 0) ==> a.key_error(group, key) is None,
{
    if group.0 == 0xffff_fffe && key.len() >= 12 {
        let k = key.take(12);
        if a.tablet_id.encoded(k) && b.tablet_id.encoded(k) {
            law_tablet_encoding(a.tablet_id, k, b.tablet_id, k);
        }
    }
}

/// What a transaction left is told with the transaction, the keyspace, the key and the kind that it
/// has.
pub proof fn law_leftover(
    l: Leftover,
    txid: Txid,
    keyspace_id: KeyspaceId,
    key: Seq<u8>,
    prepare_type: PrepareType,
)
    ensures
        is_leftover(l, txid, keyspace_id, key, prepare_type) <==> {
            &&& l.txid == txid
            &&& l.keyspace_id == keyspace_id
            &&& l.key@ == key
            &&& l.prepare_type == prepare_type
        },
{
}

/// The keys to clean up at a tablet are its preconditions first, and then its mutations.
pub proof fn law_keys_told(m: OrdMap<TabletId, TabletKeys>, t: TabletId, k: KeyView)
    ensures
        !m@.contains_key(t) ==> !told(m, t, k, true) && !told(m, t, k, false),
        m@.contains_key(t) ==> told(m, t, k, true) == m@[t].0@.contains_key(k) && told(
            m,
            t,
            k,
            false,
        ) == m@[t].1@.contains_key(k),
{
}

} // verus!
