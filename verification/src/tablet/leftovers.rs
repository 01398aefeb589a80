//! What transactions left behind, found again by scanning.

use vstd::prelude::*;

use super::active_tablet::{
    in_order, lemma_in_order, lists, locks_bytes, released, resolution, PrepareType, ResolveView,
};
use super::outcome::{OutcomeView, TxOutcomeRecord};
use super::pending::{txids_of, DecodeError, PendingMutation, PendingView, PrecondLocks};
use crate::range::HasPrefix;
use crate::types::data::{MutationView, Record, Timestamp, TxOutcome, Txid, TXID_LEN};
use crate::types::error::InternalError;
use crate::types::{law_data_keyspace, KeyspaceId};

verus! {

/// Something that a transaction left at a key, which is one of a keyspace of values.
#[derive(Debug)]
pub struct Leftover {
    pub txid: Txid,
    pub keyspace_id: KeyspaceId,
    pub key: Vec<u8>,
    pub prepare_type: PrepareType,
}

/// Whether something is what a transaction left at a key.
pub open spec fn is_leftover(
    l: Leftover,
    txid: Txid,
    keyspace_id: KeyspaceId,
    key: Seq<u8>,
    prepare_type: PrepareType,
) -> bool {
    l.txid == txid && l.keyspace_id == keyspace_id && l.key@ == key && l.prepare_type
        == prepare_type
}

/// The keyspaces to scan for pending mutations or for locks, in the order in which they come.
pub open spec fn scanned_keyspaces(ids: Seq<KeyspaceId>, kind: PrepareType) -> Seq<KeyspaceId>
    decreases ids.len(),
{
    if ids.len() == 0 {
        Seq::empty()
    } else {
        let wanted = match kind {
            PrepareType::Mutation => ids.last().holds_pending(),
            PrepareType::Precondition => ids.last().holds_preconds(),
        };
        if wanted {
            scanned_keyspaces(ids.drop_last(), kind).push(ids.last())
        } else {
            scanned_keyspaces(ids.drop_last(), kind)
        }
    }
}

/// The keyspaces to scan for pending mutations or for locks.
pub fn keyspaces_to_scan(ids: &Vec<KeyspaceId>, kind: PrepareType) -> (r: Vec<KeyspaceId>)
    ensures
        r@ == scanned_keyspaces(ids@, kind),
{
    let mut r: Vec<KeyspaceId> = Vec::new();
    let mut i: usize = 0;
    assert(ids@.take(0) =~= Seq::empty());
    while i < ids.len()
        invariant
            i <= ids@.len(),
            r@ == scanned_keyspaces(ids@.take(i as int), kind),
        decreases ids@.len() - i,
    {
        proof {
            assert(ids@.take(i + 1).drop_last() =~= ids@.take(i as int));
            assert(ids@.take(i + 1).last() == ids@[i as int]);
        }
        let wanted = match kind {
            PrepareType::Mutation => ids[i].is_pending(),
            PrepareType::Precondition => ids[i].is_precond(),
        };
        if wanted {
            r.push(ids[i]);
        }
        i += 1;
    }
    assert(ids@.take(i as int) =~= ids@);
    r
}

/// What a record of a keyspace of pending mutations says was left, at the key of the values that
/// the mutation is for.
pub fn pending_leftover(keyspace_id: KeyspaceId, record: &Record) -> (r: Result<
    Leftover,
    DecodeError,
>)
    ensures
        match PendingView::of(record.value@) {
            Ok(p) => r matches Ok(l) && is_leftover(
                l,
                p.txid,
                keyspace_id.data(),
                record.key.1@,
                PrepareType::Mutation,
            ),
            Err(e) => r matches Err(e2) && e2 == e,
        },
{
    match PendingMutation::decode(record.value.as_slice()) {
        Ok(pending) => Ok(
            Leftover {
                txid: pending.txid,
                keyspace_id: keyspace_id.data(),
                key: record.key.1.copied(),
                prepare_type: PrepareType::Mutation,
            },
        ),
        Err(e) => Err(e),
    }
}

/// What a record of a keyspace of locks says was left, at the key of the values that the locks are
/// for: each transaction once, in order.
pub fn lock_leftovers(keyspace_id: KeyspaceId, record: &Record) -> (r: Result<
    Vec<Leftover>,
    DecodeError,
>)
    ensures
        match r {
            Ok(list) => {
                let txids = in_order(txids_of(record.value@).to_set());
                &&& record.value@.len() % TXID_LEN as nat == 0
                &&& lists(txids, txids_of(record.value@).to_set())
                &&& list@.len() == txids.len()
                &&& forall|i: int|
                    0 <= i < list@.len() ==> is_leftover(
                        #[trigger] list@[i],
                        txids[i],
                        keyspace_id.data(),
                        record.key.1@,
                        PrepareType::Precondition,
                    )
            },
            Err(e) => record.value@.len() % TXID_LEN as nat != 0 && e == DecodeError::LocksLength,
        },
{
    let locks = match PrecondLocks::decode(record.value.as_slice()) {
        Ok(locks) => locks,
        Err(e) => {
            return Err(e);
        },
    };
    let data = keyspace_id.data();
    let mut list: Vec<Leftover> = Vec::new();
    let mut i: usize = 0;
    while i < locks.txids.entries.len()
        invariant
            i <= locks.txids.entries@.len(),
            list@.len() == i,
            forall|j: int|
                0 <= j < i ==> is_leftover(
                    #[trigger] list@[j],
                    locks.txids.keys()[j],
                    data,
                    record.key.1@,
                    PrepareType::Precondition,
                ),
        decreases locks.txids.entries@.len() - i,
    {
        list.push(
            Leftover {
                txid: locks.txids.entries[i].0,
                keyspace_id: data,
                key: record.key.1.copied(),
                prepare_type: PrepareType::Precondition,
            },
        );
        i += 1;
    }
    proof {
        lemma_in_order(locks);
    }
    Ok(list)
}

/// What is found of a pending mutation can be resolved: once its transaction is aborted, or is
/// committed later than it was prepared, the record that was found is deleted.
pub proof fn law_pending_leftover_is_resolved(
    scanned: KeyspaceId,
    ts: Timestamp,
    value: Seq<u8>,
    committed: Timestamp,
)
    requires
        scanned.holds_pending(),
        PendingView::of(value) is Ok,
    ensures
        ({
            let p = PendingView::of(value)->Ok_0;
            let stored = Some((ts, Some(value)));
            &&& resolution(p.txid, TxOutcome::Aborted, scanned.data(), stored) == Ok::<
                Option<ResolveView>,
                InternalError,
            >(
                Some(
                    ResolveView {
                        ts: Timestamp((ts.0 + 1) as u64),
                        pending_keyspace_id: scanned,
                        promoted: None,
                    },
                ),
            )
            &&& committed.0 > ts.0 ==> resolution(
                p.txid,
                TxOutcome::Committed(committed),
                scanned.data(),
                stored,
            ) == Ok::<Option<ResolveView>, InternalError>(
                Some(
                    ResolveView {
                        ts: committed,
                        pending_keyspace_id: scanned,
                        promoted: Some(p.m),
                    },
                ),
            )
        }),
{
    law_data_keyspace(scanned);
}

/// What is found of a lock can be released: the locks of the others are written to the keyspace
/// that was scanned, or the record is deleted where there are none.
pub proof fn law_lock_leftover_is_released(
    scanned: KeyspaceId,
    ts: Timestamp,
    value: Seq<u8>,
    txid: Txid,
)
    requires
        scanned.holds_preconds(),
        value.len() % TXID_LEN as nat == 0,
        txids_of(value).contains(txid),
    ensures
        scanned.data().precond() == Some(scanned),
        ({
            let rest = txids_of(value).to_set().remove(txid);
            released(txid, scanned.data(), Some((ts, Some(value)))) == Ok::<
                Option<(Timestamp, MutationView)>,
                InternalError,
            >(
                Some(
                    (
                        Timestamp((ts.0 + 1) as u64),
                        if rest == Set::<Txid>::empty() {
                            MutationView::Delete
                        } else {
                            MutationView::Put(locks_bytes(rest))
                        },
                    ),
                ),
            )
        }),
{
    law_data_keyspace(scanned);
}

/// The committed transaction that a record of an outcome is about, if it is about one.
pub fn committed_leftover(record: &Record) -> (r: Result<
    Option<(Txid, TxOutcomeRecord)>,
    DecodeError,
>)
    ensures
        if record.key.1@.len() != TXID_LEN {
            r matches Err(e) && e == DecodeError::TxidLength
        } else {
            match OutcomeView::of(record.value@) {
                Ok(o) => match o {
                    OutcomeView::Committed { .. } => r matches Ok(Some((t, rec))) && t == Txid::of(
                        record.key.1@,
                    ) && rec.wf() && rec@ == o,
                    OutcomeView::Aborted => r matches Ok(None),
                },
                Err(e) => r matches Err(e2) && e2 == e,
            }
        },
{
    let txid = match Txid::decode(record.key.1.as_slice()) {
        Some(txid) => txid,
        None => {
            return Err(DecodeError::TxidLength);
        },
    };
    match TxOutcomeRecord::decode(record.value.as_slice()) {
        Ok(outcome) => match outcome {
            TxOutcomeRecord::Committed { .. } => Ok(Some((txid, outcome))),
            TxOutcomeRecord::Aborted => Ok(None),
        },
        Err(e) => Err(e),
    }
}

} // verus!
