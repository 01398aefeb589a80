//! What is said of values says all that they hold.

use vstd::prelude::*;

use crate::meta::{put_views, MetaPut, MetaPutView, TabletMetadata, TransferMetadata};
use crate::meta_synced::{kv_view, routed, routes, Owned};
use crate::node::states_of;
use crate::range::range_set::views;
use crate::range::{Bound, Range};
use crate::replica::ReplicaState;
use crate::shard::{
    bound_views, range_views, ShardTabletMetadata, TabletTransfer, TabletTransferView,
};
use crate::shards::{routing_view, ShardRouting, Shards};
use crate::tablet::active_tablet::ResolvePending;
use crate::tablet::lsm_tablet::plan_range;
use crate::tablet::outcome::{outcome_result, OutcomeView, TxOutcomeRecord};
use crate::tablet::pending::{pending_result, DecodeError, PendingMutation, PrecondLocks};
use crate::tablet::tablet_inner::{
    cursor_view, read_result, records_result, write_keys, ScanPlan,
};
use crate::types::data::{
    muts_view, record_views, stored_view, JournalSeq, KeyView, Mutation, MutationView, Muts,
    Precondition, Record, Revision, RevisionValue, Stored, Txid,
};
use crate::types::error::InternalError;
use crate::types::{ShardId, TabletId};

verus! {

/// A record is its keyspace, key, timestamp and value.
pub proof fn law_record(r: Record)
    ensures
        r@.key == (r.key.0, r.key.1@),
        r@.ts == r.ts,
        r@.value == r.value@,
{
}

/// A revision is its keyspace, key and timestamp, and its value, which a delete has none of.
pub proof fn law_revision(r: Revision)
    ensures
        r@.key == (r.key.0, r.key.1@),
        r@.ts == r.ts,
        match r.value {
            RevisionValue::Regular(v) => r@.value == Some(v@),
            RevisionValue::Tombstone => r@.value is None,
        },
{
}

/// A mutation puts its value or deletes.
pub proof fn law_mutation(m: Mutation)
    ensures
        match m {
            Mutation::Put(v) => m@ == MutationView::Put(v@),
            Mutation::Delete => m@ == MutationView::Delete,
        },
{
}

/// What is stored at a key is nothing, or a value or a delete at its timestamp.
pub proof fn law_stored(s: Stored)
    ensures
        match s {
            None => stored_view(s) is None,
            Some((ts, RevisionValue::Regular(v))) => stored_view(s) == Some((ts, Some(v@))),
            Some((ts, RevisionValue::Tombstone)) => stored_view(s) == Some(
                (ts, None::<Seq<u8>>),
            ),
        },
{
}

/// A precondition is about its own key and point in time.
pub proof fn law_precondition_parts(p: Precondition)
    ensures
        match p {
            Precondition::NotChangedSince(keyspace_id, key, ts) => p.key_view() == (
                keyspace_id,
                key@,
            ) && p.since() == ts,
        },
{
}

/// Records are said one by one and in order.
pub proof fn law_records(s: Seq<Record>)
    ensures
        record_views(s).len() == s.len(),
        forall|i: int| 0 <= i < s.len() ==> #[trigger] record_views(s)[i] == s[i]@,
{
}

/// Mutations are said for each key, and for no other.
pub proof fn law_mutations(m: Map<KeyView, Mutation>, k: KeyView)
    ensures
        muts_view(m).contains_key(k) <==> m.contains_key(k),
        m.contains_key(k) ==> muts_view(m)[k] == m[k]@,
{
}

/// What is read is said as it is: a record, none, or the error.
pub proof fn law_read_results(
    r: Result<Option<Record>, InternalError>,
    s: Result<Vec<Record>, InternalError>,
)
    ensures
        match r {
            Ok(Some(rec)) => read_result(r) == Ok::<_, InternalError>(Some(rec@)),
            Ok(None) => read_result(r) matches Ok(None),
            Err(e) => read_result(r) matches Err(f) && f == e,
        },
        match s {
            Ok(records) => records_result(s) matches Ok(v) && v.len() == records@.len() && forall|
                i: int,
            |
                0 <= i < v.len() ==> #[trigger] v[i] == records@[i]@,
            Err(e) => records_result(s) matches Err(f) && f == e,
        },
{
}

/// Where a scan goes on and what it scans is said as it is.
pub proof fn law_scan_results(c: Option<Range<Vec<u8>>>, p: Result<ScanPlan, InternalError>)
    ensures
        match c {
            Some(r) => cursor_view(c) == Some(r@),
            None => cursor_view(c) is None,
        },
        match p {
            Ok(plan) => plan_range(p) matches Ok(r) && r == plan.scan_range@,
            Err(e) => plan_range(p) matches Err(f) && f == e,
        },
{
}

/// A write is about the keys of its preconditions and of its mutations, and about no other.
pub proof fn law_write_keys(preconds: Seq<Precondition>, muts: Muts, k: KeyView)
    ensures
        write_keys(preconds, muts).contains(k) <==> muts@.contains_key(k) || exists|i: int|
            0 <= i < preconds.len() && (#[trigger] preconds[i]).key_view() == k,
        write_keys(preconds, muts).len() == preconds.len() + muts.keys().len(),
        forall|i: int|
            0 <= i < preconds.len() ==> #[trigger] write_keys(preconds, muts)[i]
                == preconds[i].key_view(),
{
    let a = preconds.map_values(|p: Precondition| p.key_view());
    let b = muts.keys();
    let all = write_keys(preconds, muts);
    assert(all == a + b);
    if all.contains(k) {
        let i = choose|i: int| 0 <= i < all.len() && all[i] == k;
        if i < a.len() {
            assert(preconds[i].key_view() == k);
        } else {
            assert(b[i - a.len()] == k);
        }
    }
    if muts@.contains_key(k) {
        let j = choose|j: int| 0 <= j < b.len() && b[j] == k;
        assert(all[a.len() + j] == k);
    }
    if exists|i: int| 0 <= i < preconds.len() && (#[trigger] preconds[i]).key_view() == k {
        let i = choose|i: int| 0 <= i < preconds.len() && (#[trigger] preconds[i]).key_view() == k;
        assert(a[i] == k);
        assert(all[i] == k);
    }
}

/// A mutation that is not decided is its transaction and what it does. What could not be decoded is
/// the error.
pub proof fn law_pending(p: PendingMutation, r: Result<PendingMutation, DecodeError>)
    ensures
        p@.txid == p.txid,
        p@.m == p.m@,
        match r {
            Ok(q) => pending_result(r) == Ok::<_, DecodeError>(q@),
            Err(e) => pending_result(r) matches Err(f) && f == e,
        },
{
}

/// Locks are those of their transactions.
pub proof fn law_locks(locks: PrecondLocks, t: Txid)
    ensures
        locks@.contains(t) <==> locks.txids@.contains_key(t),
{
}

/// What resolving a mutation writes is said as it is.
pub proof fn law_resolve(r: ResolvePending)
    ensures
        r@.ts == r.ts,
        r@.pending_keyspace_id == r.pending_keyspace_id,
        match r.promoted {
            Some(m) => r@.promoted == Some(m@),
            None => r@.promoted is None,
        },
{
}

/// The outcome of a transaction is that it was aborted, or its timestamp and keys. What could not be
/// decoded is the error.
pub proof fn law_outcome(o: TxOutcomeRecord, r: Result<TxOutcomeRecord, DecodeError>)
    ensures
        match o {
            TxOutcomeRecord::Aborted => o@ == OutcomeView::Aborted,
            TxOutcomeRecord::Committed { ts, precond_keys, mut_keys } => o@
                matches OutcomeView::Committed { ts: t, precond_keys: p, mut_keys: m } && t == ts
                && p == precond_keys@.dom() && m == mut_keys@.dom(),
        },
        match r {
            Ok(x) => outcome_result(r) == Ok::<_, DecodeError>(x@),
            Err(e) => outcome_result(r) matches Err(f) && f == e,
        },
{
}

/// What is known of tablets and transfers is said as it is, and what is written of them for each in
/// order.
pub proof fn law_metadata(t: TabletMetadata, x: TransferMetadata, s: Seq<MetaPut>, i: int)
    ensures
        t@.colo_group_id == t.colo_group_id,
        t@.range == t.range@,
        t@.state == t.state,
        t@.transfer_id == t.transfer_id,
        x@.state == x.state,
        x@.srcs == x.srcs@,
        x@.dsts == x.dsts@,
        x@.timestamp == x.timestamp,
        put_views(s).len() == s.len(),
        0 <= i < s.len() ==> match s[i] {
            MetaPut::Tablet(id, m) => put_views(s)[i] == MetaPutView::Tablet(id, m@),
            MetaPut::Transfer(id, m) => put_views(s)[i] == MetaPutView::Transfer(id, m@),
        },
{
}

/// What a shard knows of a tablet is said as it is.
pub proof fn law_shard_metadata(m: ShardTabletMetadata, t: TabletTransfer)
    ensures
        m@.colo_group_id == m.colo_group_id,
        m@.range == m.range@,
        m@.state == m.state,
        m@.transfer is Some <==> m.transfer is Some,
        m.transfer matches Some(x) ==> m@.transfer == Some(x@),
        match t {
            TabletTransfer::Src { splits } => t@ matches TabletTransferView::Src(v) && v.len()
                == splits@.len() && forall|i: int|
                0 <= i < v.len() ==> #[trigger] v[i] == splits@[i]@,
            TabletTransfer::Dst { srcs } => t@ == TabletTransferView::Dst(srcs@),
        },
{
}

/// What is known of the nodes of shards is said for each shard.
pub proof fn law_routing(s: Shards, r: ShardRouting, id: ShardId)
    ensures
        r@.leader == r.leader,
        r@.participants == r.participants@,
        s@.listening == s.leader_subscriptions@,
        s@.routing.contains_key(id) <==> s.routing@.contains_key(id),
        s.routing@.contains_key(id) ==> s@.routing[id] == s.routing@[id]@,
{
    assert(s@.routing == routing_view(s.routing@));
}

/// Bounds and ranges are said one by one and in order.
pub proof fn law_ranges(s: Seq<Range<Vec<u8>>>, b: Seq<Bound<Vec<u8>>>, i: int)
    ensures
        range_views(s).len() == s.len(),
        views(s).len() == s.len(),
        bound_views(b).len() == b.len(),
        0 <= i < s.len() ==> range_views(s)[i] == (Range { lower: s[i].lower@, upper: s[i].upper@ })
            && views(s)[i] == range_views(s)[i],
        0 <= i < b.len() ==> match b[i] {
            Bound::BeforeAll => bound_views(b)[i] is BeforeAll,
            Bound::Before(k) => bound_views(b)[i] == Bound::Before(k@),
            Bound::After(k) => bound_views(b)[i] == Bound::After(k@),
            Bound::AfterPrefix(k) => bound_views(b)[i] == Bound::AfterPrefix(k@),
            Bound::AfterAll => bound_views(b)[i] is AfterAll,
        },
{
}

/// A replica that leads says so and from where on, and the others that they follow.
pub proof fn law_states(replicas: Seq<(ShardId, Option<JournalSeq>)>, i: int)
    ensures
        states_of(replicas).len() == replicas.len(),
        0 <= i < replicas.len() ==> states_of(replicas)[i].0 == replicas[i].0 && match replicas[i].1 {
            Some(seq) => states_of(replicas)[i].1 == ReplicaState::Leader(seq),
            None => states_of(replicas)[i].1 == ReplicaState::Follower,
        },
{
}

/// Keys and values are said for each key, and for no other.
pub proof fn law_key_values(m: Map<Seq<u8>, Vec<u8>>, k: Seq<u8>)
    ensures
        kv_view(m).contains_key(k) <==> m.contains_key(k),
        m.contains_key(k) ==> kv_view(m)[k] == m[k]@,
{
}

/// A group is routed by its ranges in the order of their lower bounds: each tablet stands at the
/// place of its range, and between two of them stands the lower bound of the second. Returns for
/// each place the range that it is of.
pub proof fn law_routed(entry: (Vec<Bound<Vec<u8>>>, Vec<TabletId>), s: Seq<Owned>) -> (p: Seq<
    usize,
>)
    requires
        routed(entry, s),
    ensures
        p.len() == s.len(),
        entry.1@.len() == s.len(),
        entry.0@.len() == s.len() - 1,
        p.no_duplicates(),
        forall|i: int|
            0 <= i < s.len() ==> (#[trigger] p[i]) < s.len() && entry.1@[i] == s[p[i] as int].tablet,
        forall|i: int|
            0 < i < s.len() ==> entry.0@[i - 1]@ == s[(#[trigger] p[i]) as int].range.lower,
        forall|i: int, j: int|
            0 <= i < j < s.len() ==> !s[(#[trigger] p[j]) as int].range.lower.before(
                s[(#[trigger] p[i]) as int].range.lower,
            ),
{
    broadcast use crate::range::bound::group_bound_order;
    let p = choose|p: Seq<usize>| #[trigger] routes(entry, s, p);
    assert forall|i: int| 0 < i < s.len() implies entry.0@[i - 1]@ == s[(
    #[trigger] p[i]) as int].range.lower by {
        let j = i - 1;
        assert(entry.0@[j]@ == s[p[j + 1] as int].range.lower);
    }
    p
}

} // verus!
