//! Transactions that span tablets: what is left at keys when they are prepared, and how it is
//! cleaned up once they are decided.

use vstd::prelude::*;

use super::pending::{
    law_locks_roundtrip, law_pending_roundtrip, txids_bytes, txids_of, PendingMutation, PendingView,
    PrecondLocks,
};
use super::tablet_inner::{has_pending, pending_txid, read_of, write_keys};
use crate::range::bound::HasPrefix;
use crate::types::data::{
    law_txid_roundtrip, muts_view, stored_view, Key, KeyView, Mutation, MutationView, Muts,
    Precondition, RecordView, RevisionValue, Stored, Timestamp, TxOutcome, Txid, TXID_LEN,
};
use crate::types::error::InternalError;
use crate::types::KeyspaceId;
use crate::util::ordmap::{ascending, law_ascending_unique, OrdKey, OrdMap};

verus! {

/// The most bytes of locks that a key holds.
pub const MAX_PRECOND_VALUE_LEN: usize = 256;

/// What a transaction left at a key.
#[derive(Clone, Copy, Debug, PartialEq, Eq, Structural)]
pub enum PrepareType {
    Precondition,
    Mutation,
}

/// Whether a list has the transactions of a set, in ascending order.
pub open spec fn lists(s: Seq<Txid>, set: Set<Txid>) -> bool {
    ascending::<Txid>(s) && s.to_set() == set
}

/// The transactions of a set in ascending order.
pub open spec fn in_order(set: Set<Txid>) -> Seq<Txid> {
    choose|s: Seq<Txid>| lists(s, set)
}

/// The encoding of a set of locks.
pub open spec fn locks_bytes(set: Set<Txid>) -> Seq<u8> {
    txids_bytes(in_order(set))
}

pub proof fn lemma_in_order(locks: PrecondLocks)
    requires
        locks.wf(),
    ensures
        in_order(locks@) == locks.txids.keys(),
        lists(in_order(locks@), locks@),
{
    let s = locks.txids.keys();
    assert forall|t: Txid| #[trigger] s.to_set().contains(t) == locks@.contains(t) by {
        if s.contains(t) {
            let i = choose|i: int| 0 <= i < s.len() && s[i] == t;
            locks.txids.lemma_entry(i);
        }
        if locks@.contains(t) {
            locks.txids.lemma_key(t);
            let i = choose|i: int|
                0 <= i < locks.txids.entries@.len() && (#[trigger] locks.txids.entries@[i]).0@ == t;
            assert(s[i] == t);
        }
    }
    assert(s.to_set() =~= locks@);
    assert(lists(s, locks@));
    lemma_order_unique(s, locks@);
}

proof fn lemma_order_unique(s: Seq<Txid>, set: Set<Txid>)
    requires
        lists(s, set),
    ensures
        in_order(set) == s,
{
    let t = in_order(set);
    assert(lists(t, set));
    assert forall|x: Txid| s.contains(x) <==> #[trigger] t.contains(x) by {
        assert(s.to_set().contains(x) == t.to_set().contains(x));
    }
    law_ascending_unique::<Txid>(s, t);
}

/// The bytes of the locks at a key.
pub open spec fn lock_value(stored: Option<(Timestamp, Option<Seq<u8>>)>) -> Seq<u8> {
    match stored {
        Some((_, Some(b))) => b,
        _ => Seq::empty(),
    }
}

/// The locks at a key once a transaction depends on it.
pub open spec fn locks_with(
    txid: Txid,
    keyspace_id: KeyspaceId,
    stored: Option<(Timestamp, Option<Seq<u8>>)>,
) -> Result<Seq<u8>, InternalError> {
    let b = lock_value(stored);
    if !keyspace_id.userland() {
        Err(InternalError::NotData(keyspace_id))
    } else if b.len() % TXID_LEN as nat != 0 {
        Err(InternalError::Decode(super::pending::DecodeError::LocksLength))
    } else {
        let locks = locks_bytes(txids_of(b).to_set().insert(txid));
        if locks.len() > MAX_PRECOND_VALUE_LEN {
            Err(InternalError::TooMuchContention)
        } else {
            Ok(locks)
        }
    }
}

fn lock_key(txid: Txid, keyspace_id: KeyspaceId, stored: &Stored) -> (r: Result<
    (KeyspaceId, Vec<u8>),
    InternalError,
>)
    ensures
        match locks_with(txid, keyspace_id, stored_view(*stored)) {
            Ok(b) => r matches Ok((id, v)) && Some(id) == keyspace_id.precond_spec() && v@ == b,
            Err(e) => r matches Err(e2) && e2 == e,
        },
{
    let precond_keyspace_id = match keyspace_id.precond() {
        Some(id) => id,
        None => {
            return Err(InternalError::NotData(keyspace_id));
        },
    };
    let none: Vec<u8> = Vec::new();
    let value: &Vec<u8> = match stored {
        Some((_, RevisionValue::Regular(v))) => v,
        _ => &none,
    };
    assert(value@ =~= lock_value(stored_view(*stored)));
    let mut locks = match PrecondLocks::decode(value.as_slice()) {
        Ok(locks) => locks,
        Err(e) => {
            return Err(InternalError::Decode(e));
        },
    };
    let ghost before = locks@;
    locks.txids.insert(txid, ());
    let new_value = locks.encode();
    proof {
        assert(locks@ =~= before.insert(txid));
        lemma_in_order(locks);
    }
    if new_value.len() > MAX_PRECOND_VALUE_LEN {
        return Err(InternalError::TooMuchContention);
    }
    Ok((precond_keyspace_id, new_value))
}

/// What preparing a transaction writes at the keys that it depends on.
pub open spec fn prepared_locks(
    txid: Txid,
    preconds: Seq<Precondition>,
    locks: Seq<Stored>,
) -> Result<Map<KeyView, MutationView>, InternalError>
    decreases preconds.len(),
{
    if preconds.len() == 0 {
        Ok(Map::empty())
    } else {
        let n = preconds.len() - 1;
        let k = preconds[n].key_view();
        match prepared_locks(txid, preconds.drop_last(), locks) {
            Err(e) => Err(e),
            Ok(m) => match locks_with(txid, k.0, stored_view(locks[n])) {
                Err(e) => Err(e),
                Ok(b) => Ok(m.insert((k.0.precond_spec()->0, k.1), MutationView::Put(b))),
            },
        }
    }
}

proof fn lemma_locks_err(
    txid: Txid,
    preconds: Seq<Precondition>,
    locks: Seq<Stored>,
    n: int,
)
    requires
        0 <= n <= preconds.len(),
        prepared_locks(txid, preconds.take(n), locks) is Err,
    ensures
        prepared_locks(txid, preconds, locks) == prepared_locks(txid, preconds.take(n), locks),
    decreases preconds.len(),
{
    if n == preconds.len() {
        assert(preconds.take(n) =~= preconds);
    } else {
        assert(preconds.drop_last().take(n) =~= preconds.take(n));
        lemma_locks_err(txid, preconds.drop_last(), locks, n);
    }
}

/// What preparing a transaction writes, with its mutations.
pub open spec fn prepared_muts(
    txid: Txid,
    base: Map<KeyView, MutationView>,
    muts: Seq<(KeyView, MutationView)>,
) -> Result<Map<KeyView, MutationView>, InternalError>
    decreases muts.len(),
{
    if muts.len() == 0 {
        Ok(base)
    } else {
        let (k, m) = muts.last();
        match prepared_muts(txid, base, muts.drop_last()) {
            Err(e) => Err(e),
            Ok(done) => match k.0.pending_spec() {
                None => Err(InternalError::NotData(k.0)),
                Some(id) => Ok(
                    done.insert((id, k.1), MutationView::Put(PendingView { txid, m }.bytes())),
                ),
            },
        }
    }
}

proof fn lemma_muts_err(
    txid: Txid,
    base: Map<KeyView, MutationView>,
    muts: Seq<(KeyView, MutationView)>,
    n: int,
)
    requires
        0 <= n <= muts.len(),
        prepared_muts(txid, base, muts.take(n)) is Err,
    ensures
        prepared_muts(txid, base, muts) == prepared_muts(txid, base, muts.take(n)),
    decreases muts.len(),
{
    if n == muts.len() {
        assert(muts.take(n) =~= muts);
    } else {
        assert(muts.drop_last().take(n) =~= muts.take(n));
        lemma_muts_err(txid, base, muts.drop_last(), n);
    }
}

/// The mutations in the order of their keys.
pub open spec fn mut_list(muts: Muts) -> Seq<(KeyView, MutationView)> {
    muts.entries@.map_values(|e: (Key, Mutation)| (e.0@, e.1@))
}

/// What preparing a transaction writes: a lock for each key that it depends on, and for each key
/// that it changes the mutation that takes effect if it commits.
pub open spec fn prepared(
    txid: Txid,
    preconds: Seq<Precondition>,
    muts: Muts,
    locks: Seq<Stored>,
) -> Result<Map<KeyView, MutationView>, InternalError> {
    match prepared_locks(txid, preconds, locks) {
        Err(e) => Err(e),
        Ok(base) => prepared_muts(txid, base, mut_list(muts)),
    }
}

proof fn lemma_insert_view(m: Map<KeyView, Mutation>, k: KeyView, x: Mutation)
    ensures
        muts_view(m.insert(k, x)) == muts_view(m).insert(k, x@),
{
    assert(muts_view(m.insert(k, x)) =~= muts_view(m).insert(k, x@));
}

/// Decides what preparing a transaction writes, from the locks that are stored at each key that it
/// depends on.
pub fn prepare(
    txid: Txid,
    preconds: &Vec<Precondition>,
    muts: &Muts,
    locks: &Vec<Stored>,
) -> (r: Result<Muts, InternalError>)
    requires
        locks@.len() == preconds@.len(),
    ensures
        match prepared(txid, preconds@, *muts, locks@) {
            Ok(m) => r matches Ok(out) && out.wf() && muts_view(out@) == m,
            Err(e) => r matches Err(e2) && e2 == e,
        },
{
    let mut out: Muts = OrdMap::new();
    let mut i: usize = 0;
    proof {
        assert(preconds@.take(0) =~= Seq::empty());
        assert(muts_view(out@) =~= Map::empty());
    }
    while i < preconds.len()
        invariant
            i <= preconds@.len(),
            locks@.len() == preconds@.len(),
            out.wf(),
            prepared_locks(txid, preconds@.take(i as int), locks@) == Ok::<
                Map<KeyView, MutationView>,
                InternalError,
            >(muts_view(out@)),
        decreases preconds@.len() - i,
    {
        proof {
            assert(preconds@.take(i + 1).drop_last() =~= preconds@.take(i as int));
            assert(preconds@.take(i + 1)[i as int] == preconds@[i as int]);
        }
        match lock_key(txid, preconds[i].keyspace_id(), &locks[i]) {
            Ok((id, value)) => {
                let key = (id, preconds[i].key().copied());
                let m = Mutation::Put(value);
                proof {
                    lemma_insert_view(out@, key@, m);
                }
                out.insert(key, m);
            },
            Err(e) => {
                proof {
                    lemma_locks_err(txid, preconds@, locks@, i + 1);
                }
                return Err(e);
            },
        }
        i += 1;
    }
    let ghost base = muts_view(out@);
    let ghost list = mut_list(*muts);
    assert(preconds@.take(i as int) =~= preconds@);
    let mut i: usize = 0;
    assert(list.take(0) =~= Seq::empty());
    while i < muts.entries.len()
        invariant
            i <= muts.entries@.len(),
            list == mut_list(*muts),
            out.wf(),
            prepared_locks(txid, preconds@, locks@) == Ok::<
                Map<KeyView, MutationView>,
                InternalError,
            >(base),
            prepared_muts(txid, base, list.take(i as int)) == Ok::<
                Map<KeyView, MutationView>,
                InternalError,
            >(muts_view(out@)),
        decreases muts.entries@.len() - i,
    {
        let key = &muts.entries[i].0;
        proof {
            assert(list.take(i + 1).drop_last() =~= list.take(i as int));
            assert(list.take(i + 1).last() == list[i as int]);
        }
        match key.0.pending() {
            Some(id) => {
                let pending = PendingMutation { txid, m: muts.entries[i].1.copied() };
                let m = Mutation::Put(pending.encode());
                let k = (id, key.1.copied());
                proof {
                    lemma_insert_view(out@, k@, m);
                }
                out.insert(k, m);
            },
            None => {
                proof {
                    lemma_muts_err(txid, base, list, i + 1);
                }
                return Err(InternalError::NotData(key.0));
            },
        }
        i += 1;
    }
    assert(list.take(i as int) =~= list);
    Ok(out)
}

/// What is left to resolve once a transaction was prepared: its keys, with what was left at each.
pub fn prepared_keys(preconds: &Vec<Precondition>, muts: &Muts) -> (r: Vec<(Key, PrepareType)>)
    ensures
        r@.len() == preconds@.len() + muts.entries@.len(),
        forall|i: int|
            0 <= i < r@.len() ==> (#[trigger] r@[i]).0@ == write_keys(preconds@, *muts)[i],
        forall|i: int|
            0 <= i < r@.len() ==> (#[trigger] r@[i]).1 == if i < preconds@.len() {
                PrepareType::Precondition
            } else {
                PrepareType::Mutation
            },
{
    let mut r: Vec<(Key, PrepareType)> = Vec::new();
    let ghost keys = write_keys(preconds@, *muts);
    let mut i: usize = 0;
    while i < preconds.len()
        invariant
            i <= preconds@.len(),
            r@.len() == i,
            keys == write_keys(preconds@, *muts),
            forall|j: int| 0 <= j < i ==> (#[trigger] r@[j]).0@ == keys[j],
            forall|j: int| 0 <= j < i ==> (#[trigger] r@[j]).1 == PrepareType::Precondition,
        decreases preconds@.len() - i,
    {
        let key = (preconds[i].keyspace_id(), preconds[i].key().copied());
        assert(key@ == keys[i as int]);
        r.push((key, PrepareType::Precondition));
        i += 1;
    }
    let mut i: usize = 0;
    while i < muts.entries.len()
        invariant
            i <= muts.entries@.len(),
            r@.len() == preconds@.len() + i,
            keys == write_keys(preconds@, *muts),
            forall|j: int| 0 <= j < r@.len() ==> (#[trigger] r@[j]).0@ == keys[j],
            forall|j: int|
                0 <= j < r@.len() ==> (#[trigger] r@[j]).1 == if j < preconds@.len() {
                    PrepareType::Precondition
                } else {
                    PrepareType::Mutation
                },
        decreases muts.entries@.len() - i,
    {
        let k = &muts.entries[i].0;
        let key = (k.0, k.1.copied());
        assert(keys[preconds@.len() + i] == muts.keys()[i as int]);
        r.push((key, PrepareType::Mutation));
        i += 1;
    }
    r
}

/// What is done at a key that a decided transaction changes: at `ts`, first the mutation is made
/// where the transaction was committed, then what is pending is deleted.
pub struct ResolvePending {
    pub ts: Timestamp,
    pub pending_keyspace_id: KeyspaceId,
    pub promoted: Option<Mutation>,
}

/// What resolving a pending mutation is.
pub struct ResolveView {
    pub ts: Timestamp,
    pub pending_keyspace_id: KeyspaceId,
    pub promoted: Option<MutationView>,
}

impl View for ResolvePending {
    type V = ResolveView;

    open spec fn view(&self) -> ResolveView {
        ResolveView {
            ts: self.ts,
            pending_keyspace_id: self.pending_keyspace_id,
            promoted: match self.promoted {
                Some(m) => Some(m@),
                None => None,
            },
        }
    }
}

/// What is done at a key that a decided transaction changes, if anything is left there of it.
pub open spec fn resolution(
    txid: Txid,
    outcome: TxOutcome,
    keyspace_id: KeyspaceId,
    stored: Option<(Timestamp, Option<Seq<u8>>)>,
) -> Result<Option<ResolveView>, InternalError> {
    match keyspace_id.pending_spec() {
        None => Err(InternalError::NotData(keyspace_id)),
        Some(id) => match stored {
            Some((pending_ts, Some(b))) => match PendingView::of(b) {
                Err(e) => Err(InternalError::Decode(e)),
                Ok(p) => if p.txid != txid {
                    Ok(None)
                } else {
                    match outcome {
                        TxOutcome::Committed(ts) => if ts.0 <= pending_ts.0 {
                            Err(InternalError::CommitBeforePrepare)
                        } else {
                            Ok(
                                Some(
                                    ResolveView {
                                        ts,
                                        pending_keyspace_id: id,
                                        promoted: Some(p.m),
                                    },
                                ),
                            )
                        },
                        TxOutcome::Aborted => Ok(
                            Some(
                                ResolveView {
                                    ts: Timestamp((pending_ts.0 + 1) as u64),
                                    pending_keyspace_id: id,
                                    promoted: None,
                                },
                            ),
                        ),
                    }
                },
            },
            _ => Ok(None),
        },
    }
}

/// Decides what is done at a key that a decided transaction changes, from what is pending there.
pub fn cleanup_pending_key(
    txid: Txid,
    outcome: TxOutcome,
    keyspace_id: KeyspaceId,
    stored: &Stored,
) -> (r: Result<Option<ResolvePending>, InternalError>)
    requires
        stored matches Some((ts, _)) ==> ts.0 < u64::MAX,
    ensures
        match resolution(txid, outcome, keyspace_id, stored_view(*stored)) {
            Ok(Some(v)) => r matches Ok(Some(x)) && x@ == v,
            Ok(None) => r matches Ok(None),
            Err(e) => r matches Err(e2) && e2 == e,
        },
{
    let pending_keyspace_id = match keyspace_id.pending() {
        Some(id) => id,
        None => {
            return Err(InternalError::NotData(keyspace_id));
        },
    };
    match stored {
        Some((pending_ts, RevisionValue::Regular(b))) => {
            let pending = match PendingMutation::decode(b.as_slice()) {
                Ok(p) => p,
                Err(e) => {
                    return Err(InternalError::Decode(e));
                },
            };
            if pending.txid != txid {
                return Ok(None);
            }
            match outcome {
                TxOutcome::Committed(ts) => {
                    if ts.0 <= pending_ts.0 {
                        return Err(InternalError::CommitBeforePrepare);
                    }
                    Ok(Some(ResolvePending { ts, pending_keyspace_id, promoted: Some(pending.m) }))
                },
                TxOutcome::Aborted => Ok(
                    Some(
                        ResolvePending {
                            ts: pending_ts.plus_one(),
                            pending_keyspace_id,
                            promoted: None,
                        },
                    ),
                ),
            }
        },
        _ => Ok(None),
    }
}

/// What is written at a key that a decided transaction depends on: the locks of the others, a
/// moment after the lock was taken.
pub open spec fn released(
    txid: Txid,
    keyspace_id: KeyspaceId,
    stored: Option<(Timestamp, Option<Seq<u8>>)>,
) -> Result<Option<(Timestamp, MutationView)>, InternalError> {
    if !keyspace_id.userland() {
        Err(InternalError::NotData(keyspace_id))
    } else {
        match stored {
            Some((ts, Some(b))) => if b.len() % TXID_LEN as nat != 0 {
                Err(InternalError::Decode(super::pending::DecodeError::LocksLength))
            } else {
                let locks = txids_of(b).to_set();
                if !locks.contains(txid) {
                    Ok(None)
                } else {
                    let rest = locks.remove(txid);
                    Ok(
                        Some(
                            (
                                Timestamp((ts.0 + 1) as u64),
                                if rest == Set::<Txid>::empty() {
                                    MutationView::Delete
                                } else {
                                    MutationView::Put(locks_bytes(rest))
                                },
                            ),
                        ),
                    )
                }
            },
            _ => Ok(None),
        }
    }
}

/// Decides what is written at a key that a decided transaction depends on, from the locks there.
pub fn cleanup_precond_key(txid: Txid, keyspace_id: KeyspaceId, stored: &Stored) -> (r: Result<
    Option<(Timestamp, Mutation)>,
    InternalError,
>)
    requires
        stored matches Some((ts, _)) ==> ts.0 < u64::MAX,
    ensures
        match released(txid, keyspace_id, stored_view(*stored)) {
            Ok(Some((ts, m))) => r matches Ok(Some((ts2, m2))) && ts2 == ts && m2@ == m,
            Ok(None) => r matches Ok(None),
            Err(e) => r matches Err(e2) && e2 == e,
        },
{
    if keyspace_id.precond().is_none() {
        return Err(InternalError::NotData(keyspace_id));
    }
    match stored {
        Some((ts, RevisionValue::Regular(b))) => {
            let mut locks = match PrecondLocks::decode(b.as_slice()) {
                Ok(locks) => locks,
                Err(e) => {
                    return Err(InternalError::Decode(e));
                },
            };
            let ghost before = locks@;
            match locks.txids.remove(&txid) {
                Some(_) => {},
                None => {
                    return Ok(None);
                },
            }
            let m = if locks.txids.is_empty() {
                Mutation::Delete
            } else {
                Mutation::Put(locks.encode())
            };
            proof {
                assert(locks@ =~= before.remove(txid));
                lemma_in_order(locks);
                if locks@ =~= Set::<Txid>::empty() {
                    assert(locks.txids@ =~= Map::<Txid, ()>::empty());
                }
            }
            Ok(Some((ts.plus_one(), m)))
        },
        _ => Ok(None),
    }
}

/// What to clean up at a key, once the outcome of the transaction that was prepared there is known.
/// Commits are cleaned up by the shard that owns the transaction, and an outcome that is gone was
/// cleaned up already.
pub fn resolve_prepared(
    outcome: Result<TxOutcome, InternalError>,
    prepare_type: PrepareType,
) -> (r: Result<Option<PrepareType>, InternalError>)
    ensures
        r == match outcome {
            Ok(TxOutcome::Aborted) => Ok(Some(prepare_type)),
            Ok(TxOutcome::Committed(_)) => Ok(None),
            Err(InternalError::TxOutcomeMissing) => Ok(None),
            Err(e) => Err(e),
        },
{
    match outcome {
        Ok(TxOutcome::Aborted) => Ok(Some(prepare_type)),
        Ok(TxOutcome::Committed(_)) => Ok(None),
        Err(InternalError::TxOutcomeMissing) => Ok(None),
        Err(e) => Err(e),
    }
}

/// What a prepared transaction leaves at a key that it changes keeps others from reading the key
/// and from writing it.
pub proof fn law_prepared_conflicts(
    txid: Txid,
    k: KeyView,
    m: MutationView,
    ts: Timestamp,
    stored: Option<(Timestamp, Option<Seq<u8>>)>,
)
    requires
        k.0.userland(),
    ensures
        ({
            let pending = Some((ts, Some(PendingView { txid, m }.bytes())));
            &&& read_of(k, stored, pending) == Err::<
                Option<RecordView>,
                InternalError,
            >(InternalError::Conflict(txid))
            &&& forall|s: Stored| #[trigger]
                stored_view(s) == pending ==> has_pending(k, s) && pending_txid(s) == txid
        }),
{
    law_pending_roundtrip(PendingView { txid, m });
    law_txid_roundtrip(txid, txid.bytes());
    let b = PendingView { txid, m }.bytes();
    assert(b.take(TXID_LEN as int) =~= txid.bytes());
}

/// A mutation that was prepared takes effect when its transaction commits later than it was
/// prepared, and does not when the transaction is aborted.
pub proof fn law_commit_promotes(
    txid: Txid,
    keyspace_id: KeyspaceId,
    m: MutationView,
    prepared_at: Timestamp,
    commit: Timestamp,
)
    requires
        keyspace_id.userland(),
        prepared_at.0 < commit.0,
    ensures
        ({
            let pending = Some((prepared_at, Some(PendingView { txid, m }.bytes())));
            &&& resolution(txid, TxOutcome::Committed(commit), keyspace_id, pending) matches Ok(
                Some(v),
            ) && v.promoted == Some(m) && v.ts == commit
            &&& resolution(txid, TxOutcome::Aborted, keyspace_id, pending) matches Ok(Some(v))
                && v.promoted is None && v.ts.0 == prepared_at.0 + 1
        }),
{
    law_pending_roundtrip(PendingView { txid, m });
}

/// Cleaning up after a transaction leaves what other transactions have left.
pub proof fn law_cleanup_spares_others(
    txid: Txid,
    other: PendingView,
    outcome: TxOutcome,
    keyspace_id: KeyspaceId,
    ts: Timestamp,
)
    requires
        keyspace_id.userland(),
        other.txid != txid,
    ensures
        resolution(txid, outcome, keyspace_id, Some((ts, Some(other.bytes())))) == Ok::<
            Option<ResolveView>,
            InternalError,
        >(None),
{
    law_pending_roundtrip(other);
}

/// Releasing a lock that was taken leaves the locks as they were: none if there were none.
pub proof fn law_lock_released(
    txid: Txid,
    keyspace_id: KeyspaceId,
    before: Option<(Timestamp, Option<Seq<u8>>)>,
    ts: Timestamp,
)
    requires
        locks_with(txid, keyspace_id, before) is Ok,
        !txids_of(lock_value(before)).contains(txid),
    ensures
        ({
            let others = txids_of(lock_value(before)).to_set();
            let locked = locks_with(txid, keyspace_id, before)->Ok_0;
            released(txid, keyspace_id, Some((ts, Some(locked)))) == Ok::<
                Option<(Timestamp, MutationView)>,
                InternalError,
            >(
                Some(
                    (
                        Timestamp((ts.0 + 1) as u64),
                        if others == Set::<Txid>::empty() {
                            MutationView::Delete
                        } else {
                            MutationView::Put(locks_bytes(others))
                        },
                    ),
                ),
            )
        }),
{
    let others = txids_of(lock_value(before)).to_set();
    let set = others.insert(txid);
    let s = in_order(set);
    lemma_finite_order(txids_of(lock_value(before)).push(txid));
    assert(txids_of(lock_value(before)).push(txid).to_set() =~= set) by {
        let base = txids_of(lock_value(before));
        assert forall|x: Txid| #[trigger]
            base.push(txid).to_set().contains(x) == set.contains(x) by {
            if base.contains(x) {
                let i = choose|i: int| 0 <= i < base.len() && base[i] == x;
                assert(base.push(txid)[i] == x);
            }
            assert(base.push(txid)[base.len() as int] == txid);
            if base.push(txid).contains(x) {
                let i = choose|i: int| 0 <= i < base.push(txid).len() && base.push(txid)[i] == x;
                if i < base.len() {
                    assert(base[i] == x);
                }
            }
        }
    }
    assert(lists(s, set));
    law_locks_roundtrip(s);
    assert(txids_of(txids_bytes(s)).to_set() == set);
    assert(set.contains(txid));
    assert(set.remove(txid) =~= others);
    assert(txids_bytes(s).len() % TXID_LEN as nat == 0) by {
        assert(txids_bytes(s).len() == s.len() * TXID_LEN);
    }
}

/// The transactions of any list can be put in ascending order.
pub proof fn lemma_finite_order(list: Seq<Txid>)
    ensures
        lists(in_order(list.to_set()), list.to_set()),
    decreases list.len(),
{
    if list.len() == 0 {
        let s = Seq::<Txid>::empty();
        assert(s.to_set() =~= list.to_set());
        assert(lists(s, list.to_set()));
    } else {
        let t = list.last();
        let rest = list.drop_last();
        lemma_finite_order(rest);
        let s = in_order(rest.to_set());
        assert(list.to_set() =~= rest.to_set().insert(t)) by {
            assert forall|x: Txid| #[trigger]
                list.to_set().contains(x) == rest.to_set().insert(t).contains(x) by {
                if list.contains(x) {
                    let i = choose|i: int| 0 <= i < list.len() && list[i] == x;
                    if i < rest.len() {
                        assert(rest[i] == x);
                    }
                }
                if rest.contains(x) {
                    let i = choose|i: int| 0 <= i < rest.len() && rest[i] == x;
                    assert(list[i] == x);
                }
                assert(list[list.len() - 1] == t);
            }
        }
        lemma_insert_in_order(s, t, 0);
    }
}

/// A transaction can be put in its place in an ascending list.
proof fn lemma_insert_in_order(s: Seq<Txid>, t: Txid, from: int)
    requires
        ascending::<Txid>(s),
        0 <= from <= s.len(),
        forall|i: int|
            0 <= i < from ==> <Txid as OrdKey>::precedes(#[trigger] s[i], t),
    ensures
        lists(in_order(s.to_set().insert(t)), s.to_set().insert(t)),
    decreases s.len() - from,
{
    let set = s.to_set().insert(t);
    if from < s.len() && s[from] == t {
        assert(s.to_set() =~= set) by {
            assert(s.contains(t));
        }
        assert(lists(s, set));
    } else if from < s.len() && <Txid as OrdKey>::precedes(s[from], t) {
        lemma_insert_in_order(s, t, from + 1);
    } else {
        let r = s.insert(from, t);
        assert(ascending::<Txid>(r)) by {
            assert forall|i: int, j: int| 0 <= i < j < r.len() implies <Txid as OrdKey>::precedes(
                #[trigger] r[i],
                #[trigger] r[j],
            ) by {
                let i2 = if i < from {
                    i
                } else {
                    i - 1
                };
                let j2 = if j < from {
                    j
                } else {
                    j - 1
                };
                if i != from {
                    assert(r[i] == s[i2]);
                }
                if j != from {
                    assert(r[j] == s[j2]);
                }
                if i == from && from < j2 {
                    assert(<Txid as OrdKey>::precedes(s[from], s[j2]));
                }
            }
        }
        assert(r.to_set() =~= set) by {
            assert forall|x: Txid| #[trigger] r.to_set().contains(x) == set.contains(x) by {
                assert(r[from] == t);
                if s.contains(x) {
                    let i = choose|i: int| 0 <= i < s.len() && s[i] == x;
                    let i2 = if i < from {
                        i
                    } else {
                        i + 1
                    };
                    assert(r[i2] == x);
                }
                if r.contains(x) {
                    let i = choose|i: int| 0 <= i < r.len() && r[i] == x;
                    if i != from {
                        let i2 = if i < from {
                            i
                        } else {
                            i - 1
                        };
                        assert(s[i2] == x);
                    }
                }
            }
        }
        assert(lists(r, set));
    }
}

} // verus!
