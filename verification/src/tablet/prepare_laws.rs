//! What holds of every transaction that is prepared, and of what becomes of it.

use vstd::prelude::*;

use super::active_tablet::{
    in_order, lemma_finite_order, lists, lock_value, locks_bytes, locks_with, mut_list, prepared,
    prepared_locks, prepared_muts, released, resolution, ResolveView,
};
use super::pending::{
    law_locks_roundtrip, law_pending_roundtrip, txids_of, DecodeError, PendingView,
};
use super::tablet_inner::read_of;
use crate::types::data::{
    stored_view, Key, KeyView, Mutation, MutationView, Muts, Precondition, RevisionValue, Stored,
    Timestamp, TxOutcome, Txid, TXID_LEN,
};
use crate::types::error::InternalError;
use crate::types::{law_keyspace_kinds, KeyspaceId};

verus! {

/// Whether what is prepared at a key is a mutation of a transaction: bytes that read back as just
/// that.
pub open spec fn holds_mutation(
    out: Map<KeyView, MutationView>,
    txid: Txid,
    k: KeyView,
    m: Mutation,
) -> bool {
    &&& k.0.pending_spec() matches Some(id) && out.contains_key((id, k.1)) && (out[(id, k.1)]
        matches MutationView::Put(b) && PendingView::of(b) == Ok::<PendingView, DecodeError>(
        PendingView {
            txid,
            m: match m {
                Mutation::Put(v) => MutationView::Put(v@),
                Mutation::Delete => MutationView::Delete,
            },
        },
    ))
}

/// Whether what is prepared at a key is a lock of a transaction beside those that were there.
pub open spec fn holds_lock(
    out: Map<KeyView, MutationView>,
    txid: Txid,
    k: KeyView,
    before: Stored,
) -> bool {
    &&& k.0.precond_spec() matches Some(id) && out.contains_key((id, k.1)) && (out[(id, k.1)]
        matches MutationView::Put(b) && adds_lock(b, txid, before))
}

/// Whether locks are those that were there before and that of a transaction.
pub open spec fn adds_lock(b: Seq<u8>, txid: Txid, before: Stored) -> bool {
    &&& b.len() % 20 == 0
    &&& b.len() <= 256
    &&& txids_of(b).no_duplicates()
    &&& forall|t: Txid|
        #![trigger txids_of(b).contains(t)]
        txids_of(b).contains(t) <==> t == txid || (before matches Some(
            (_, RevisionValue::Regular(old)),
        ) && txids_of(old@).contains(t))
}

proof fn lemma_locks_bytes(list: Seq<Txid>)
    ensures
        txids_of(locks_bytes(list.to_set())).no_duplicates(),
        txids_of(locks_bytes(list.to_set())).to_set() == list.to_set(),
        locks_bytes(list.to_set()).len() == list.to_set().len() * TXID_LEN,
        locks_bytes(list.to_set()).len() % TXID_LEN as nat == 0,
{
    let set = list.to_set();
    lemma_finite_order(list);
    let s = in_order(set);
    assert(lists(s, set));
    law_locks_roundtrip(s);
    assert(s.no_duplicates()) by {
        assert forall|i: int, j: int| 0 <= i < s.len() && 0 <= j < s.len() && i != j implies s[i]
            != s[j] by {
            if i < j {
                assert(<Txid as crate::util::ordmap::OrdKey>::precedes(s[i], s[j]));
            } else {
                assert(<Txid as crate::util::ordmap::OrdKey>::precedes(s[j], s[i]));
            }
        }
    }
    s.unique_seq_to_set();
}

proof fn lemma_push_set(list: Seq<Txid>, txid: Txid)
    ensures
        list.push(txid).to_set() == list.to_set().insert(txid),
{
    assert forall|x: Txid| #[trigger]
        list.push(txid).to_set().contains(x) == list.to_set().insert(txid).contains(x) by {
        if list.contains(x) {
            assert(list.push(txid)[list.index_of(x)] == x);
        }
        assert(list.push(txid)[list.len() as int] == txid);
        if list.push(txid).contains(x) {
            let i = list.push(txid).index_of(x);
            if i < list.len() {
                assert(list[i] == x);
            }
        }
    }
    assert(list.push(txid).to_set() =~= list.to_set().insert(txid));
}

/// Taking a lock adds the transaction to those that hold one, and is refused only at a key that does
/// not hold values, where the locks cannot be read, and where there would be too many.
pub proof fn law_lock_is_added(txid: Txid, keyspace_id: KeyspaceId, before: Stored)
    ensures
        match locks_with(txid, keyspace_id, stored_view(before)) {
            Ok(b) => keyspace_id.userland() && adds_lock(b, txid, before),
            Err(e) => {
                let old = match before {
                    Some((_, RevisionValue::Regular(old))) => old@,
                    _ => Seq::<u8>::empty(),
                };
                if !keyspace_id.userland() {
                    e == InternalError::NotData(keyspace_id)
                } else if old.len() % 20 != 0 {
                    e == InternalError::Decode(DecodeError::LocksLength)
                } else {
                    &&& e == InternalError::TooMuchContention
                    &&& txids_of(old).to_set().insert(txid).len() * 20 > 256
                }
            },
        },
{
    let old = match before {
        Some((_, RevisionValue::Regular(old))) => old@,
        _ => Seq::<u8>::empty(),
    };
    assert(lock_value(stored_view(before)) == old);
    let list = txids_of(old);
    lemma_push_set(list, txid);
    lemma_locks_bytes(list.push(txid));
    if let Ok(b) = locks_with(txid, keyspace_id, stored_view(before)) {
        assert forall|t: Txid|
            #![trigger txids_of(b).contains(t)]
            txids_of(b).contains(t) <==> t == txid || (before matches Some(
                (_, RevisionValue::Regular(old)),
            ) && txids_of(old@).contains(t)) by {
            assert(txids_of(b).to_set().contains(t) == list.to_set().insert(txid).contains(t));
        }
    }
}

proof fn lemma_prepared_locks(
    txid: Txid,
    preconds: Seq<Precondition>,
    locks: Seq<Stored>,
    i: int,
)
    requires
        locks.len() >= preconds.len(),
        prepared_locks(txid, preconds, locks) is Ok,
        0 <= i < preconds.len(),
        forall|j: int|
            i < j < preconds.len() ==> (#[trigger] preconds[j]).key_view()
                != preconds[i].key_view(),
    ensures
        preconds[i].key_view().0.userland(),
        holds_lock(
            prepared_locks(txid, preconds, locks)->Ok_0,
            txid,
            preconds[i].key_view(),
            locks[i],
        ),
    decreases preconds.len(),
{
    let rest = preconds.drop_last();
    let n = rest.len() as int;
    let k = preconds[n].key_view();
    law_lock_is_added(txid, k.0, locks[n]);
    if i < n {
        assert forall|j: int| i < j < rest.len() implies (#[trigger] rest[j]).key_view()
            != rest[i].key_view() by {
            assert(preconds[j] == rest[j]);
        }
        lemma_prepared_locks(txid, rest, locks, i);
        assert(rest[i] == preconds[i]);
        let own = preconds[i].key_view();
        assert(preconds[n].key_view() != own);
        law_keyspace_kinds(own.0, k.0);
        if own.0 == k.0 {
            assert(own.1 != k.1);
        }
    }
}

proof fn lemma_locks_only(
    txid: Txid,
    preconds: Seq<Precondition>,
    locks: Seq<Stored>,
    at: KeyView,
)
    requires
        prepared_locks(txid, preconds, locks) is Ok,
        (prepared_locks(txid, preconds, locks)->Ok_0).contains_key(at),
    ensures
        at.0.holds_preconds(),
        exists|i: int|
            0 <= i < preconds.len() && (#[trigger] preconds[i]).key_view().0.precond_spec() == Some(
                at.0,
            ) && preconds[i].key_view().1 == at.1,
    decreases preconds.len(),
{
    if preconds.len() > 0 {
        let rest = preconds.drop_last();
        let n = rest.len() as int;
        let k = preconds[n].key_view();
        if (prepared_locks(txid, rest, locks)->Ok_0).contains_key(at) {
            lemma_locks_only(txid, rest, locks, at);
            let i = choose|i: int|
                0 <= i < rest.len() && (#[trigger] rest[i]).key_view().0.precond_spec() == Some(
                    at.0,
                ) && rest[i].key_view().1 == at.1;
            assert(preconds[i] == rest[i]);
        } else {
            assert(preconds[n].key_view().0.precond_spec() == Some(at.0));
            law_keyspace_kinds(k.0, k.0);
        }
    }
}

proof fn lemma_prepared_muts(
    txid: Txid,
    base: Map<KeyView, MutationView>,
    muts: Seq<(KeyView, MutationView)>,
    i: int,
)
    requires
        prepared_muts(txid, base, muts) is Ok,
        0 <= i < muts.len(),
        forall|j: int| i < j < muts.len() ==> (#[trigger] muts[j]).0 != muts[i].0,
    ensures
        muts[i].0.0.userland(),
        ({
            let out = prepared_muts(txid, base, muts)->Ok_0;
            let (k, m) = muts[i];
            let at = (k.0.pending_spec()->0, k.1);
            out.contains_key(at) && out[at] == MutationView::Put(PendingView { txid, m }.bytes())
        }),
    decreases muts.len(),
{
    let rest = muts.drop_last();
    let n = rest.len() as int;
    if i < n {
        assert forall|j: int| i < j < rest.len() implies (#[trigger] rest[j]).0 != rest[i].0 by {
            assert(muts[j] == rest[j]);
        }
        lemma_prepared_muts(txid, base, rest, i);
        assert(rest[i] == muts[i]);
        let (own, k) = (muts[i].0, muts[n].0);
        assert(muts[n].0 != own);
        law_keyspace_kinds(own.0, k.0);
        if own.0 == k.0 {
            assert(own.1 != k.1);
        }
    }
}

proof fn lemma_muts_only(
    txid: Txid,
    base: Map<KeyView, MutationView>,
    muts: Seq<(KeyView, MutationView)>,
    at: KeyView,
)
    requires
        prepared_muts(txid, base, muts) is Ok,
    ensures
        ({
            let out = prepared_muts(txid, base, muts)->Ok_0;
            let own = exists|i: int|
                0 <= i < muts.len() && (#[trigger] muts[i]).0.0.pending_spec() == Some(at.0)
                    && muts[i].0.1 == at.1;
            &&& !own ==> (out.contains_key(at) <==> base.contains_key(at))
            &&& !own && out.contains_key(at) ==> out[at] == base[at]
            &&& own ==> at.0.holds_pending()
        }),
    decreases muts.len(),
{
    if muts.len() > 0 {
        let rest = muts.drop_last();
        let n = rest.len() as int;
        lemma_muts_only(txid, base, rest, at);
        if exists|i: int|
            0 <= i < rest.len() && (#[trigger] rest[i]).0.0.pending_spec() == Some(at.0)
                && rest[i].0.1 == at.1 {
            let i = choose|i: int|
                0 <= i < rest.len() && (#[trigger] rest[i]).0.0.pending_spec() == Some(at.0)
                    && rest[i].0.1 == at.1;
            assert(muts[i] == rest[i]);
        } else if exists|i: int|
            0 <= i < muts.len() && (#[trigger] muts[i]).0.0.pending_spec() == Some(at.0)
                && muts[i].0.1 == at.1 {
            law_keyspace_kinds(muts[n].0.0, muts[n].0.0);
        } else {
            assert(!(muts[n].0.0.pending_spec() == Some(at.0) && muts[n].0.1 == at.1));
        }
    }
}

/// Each mutation of a prepared transaction, whether it puts or deletes, is left at its key for the
/// outcome of the transaction to make or to drop.
pub proof fn law_prepare_leaves_each_mutation(
    txid: Txid,
    preconds: Seq<Precondition>,
    muts: Muts,
    locks: Seq<Stored>,
)
    requires
        muts.wf(),
        locks.len() == preconds.len(),
        prepared(txid, preconds, muts, locks) is Ok,
    ensures
        forall|k: KeyView| #[trigger]
            muts@.contains_key(k) ==> holds_mutation(
                prepared(txid, preconds, muts, locks)->Ok_0,
                txid,
                k,
                muts@[k],
            ),
{
    let list = mut_list(muts);
    let base = prepared_locks(txid, preconds, locks)->Ok_0;
    assert forall|k: KeyView| #[trigger] muts@.contains_key(k) implies holds_mutation(
        prepared(txid, preconds, muts, locks)->Ok_0,
        txid,
        k,
        muts@[k],
    ) by {
        muts.lemma_key(k);
        let i = choose|i: int|
            0 <= i < muts.entries@.len() && (#[trigger] muts.entries@[i]).0@ == k;
        muts.lemma_entry(i);
        assert(list[i] == (k, muts@[k]@));
        assert forall|j: int| i < j < list.len() implies (#[trigger] list[j]).0 != list[i].0 by {
            assert(muts.keys()[i] == k);
            assert(muts.keys()[j] == list[j].0);
            assert(<Key as crate::util::ordmap::OrdKey>::precedes(muts.keys()[i], muts.keys()[j]));
            <Key as crate::util::ordmap::OrdKey>::lemma_irreflexive(k);
        }
        lemma_prepared_muts(txid, base, list, i);
        law_pending_roundtrip(PendingView { txid, m: muts@[k]@ });
    }
}

/// Each key that a prepared transaction depends on is locked by it, beside those that held a lock
/// there. Where a key is named more than once, the last of the locks read for it stands.
pub proof fn law_prepare_locks_each_key(
    txid: Txid,
    preconds: Seq<Precondition>,
    muts: Muts,
    locks: Seq<Stored>,
    i: int,
)
    requires
        locks.len() == preconds.len(),
        prepared(txid, preconds, muts, locks) is Ok,
        0 <= i < preconds.len(),
        forall|j: int|
            i < j < preconds.len() ==> (#[trigger] preconds[j]).key_view()
                != preconds[i].key_view(),
    ensures
        preconds[i] matches Precondition::NotChangedSince(id, key, _) && holds_lock(
            prepared(txid, preconds, muts, locks)->Ok_0,
            txid,
            (id, key@),
            locks[i],
        ),
{
    lemma_prepared_locks(txid, preconds, locks, i);
    let k = preconds[i].key_view();
    let base = prepared_locks(txid, preconds, locks)->Ok_0;
    let at = (k.0.precond_spec()->0, k.1);
    lemma_muts_only(txid, base, mut_list(muts), at);
    law_keyspace_kinds(k.0, k.0);
}

/// A prepared transaction leaves something only at the keys that it changes, in the keyspaces of
/// undecided mutations, and at those that it depends on, in the keyspaces of preconditions.
pub proof fn law_prepare_leaves_nothing_else(
    txid: Txid,
    preconds: Seq<Precondition>,
    muts: Muts,
    locks: Seq<Stored>,
    at: KeyView,
)
    requires
        muts.wf(),
        prepared(txid, preconds, muts, locks) is Ok,
        (prepared(txid, preconds, muts, locks)->Ok_0).contains_key(at),
    ensures
        at.0.holds_pending() && muts@.contains_key((at.0.data_spec(), at.1)) || (
        at.0.holds_preconds() && exists|i: int|
            0 <= i < preconds.len() && (#[trigger] preconds[i]).key_view() == (
                at.0.data_spec(),
                at.1,
            )),
{
    let list = mut_list(muts);
    let base = prepared_locks(txid, preconds, locks)->Ok_0;
    lemma_muts_only(txid, base, list, at);
    if exists|i: int|
        0 <= i < list.len() && (#[trigger] list[i]).0.0.pending_spec() == Some(at.0) && list[i].0.1
            == at.1 {
        let i = choose|i: int|
            0 <= i < list.len() && (#[trigger] list[i]).0.0.pending_spec() == Some(at.0)
                && list[i].0.1 == at.1;
        muts.lemma_entry(i);
        assert(list[i].0 == muts.entries@[i].0@);
        crate::types::law_data_keyspace(list[i].0.0);
        assert(list[i].0 == (at.0.data_spec(), at.1));
    } else {
        lemma_locks_only(txid, preconds, locks, at);
        let i = choose|i: int|
            0 <= i < preconds.len() && (#[trigger] preconds[i]).key_view().0.precond_spec() == Some(
                at.0,
            ) && preconds[i].key_view().1 == at.1;
        crate::types::law_data_keyspace(preconds[i].key_view().0);
        assert(preconds[i].key_view() == (at.0.data_spec(), at.1));
    }
}

/// A transaction can be prepared exactly where all its keys hold values and each lock can be taken.
pub proof fn law_prepare_succeeds(
    txid: Txid,
    preconds: Seq<Precondition>,
    muts: Muts,
    locks: Seq<Stored>,
)
    ensures
        prepared(txid, preconds, muts, locks) is Ok <==> {
            &&& forall|i: int|
                0 <= i < preconds.len() ==> locks_with(
                    txid,
                    (#[trigger] preconds[i]).key_view().0,
                    stored_view(locks[i]),
                ) is Ok
            &&& forall|i: int|
                0 <= i < muts.entries@.len() ==> (#[trigger] muts.entries@[i]).0.0.userland()
        },
{
    lemma_locks_succeed(txid, preconds, locks);
    let list = mut_list(muts);
    if prepared_locks(txid, preconds, locks) is Ok {
        lemma_muts_succeed(txid, prepared_locks(txid, preconds, locks)->Ok_0, list);
    }
    assert forall|i: int| 0 <= i < list.len() implies (#[trigger] list[i]).0.0
        == muts.entries@[i].0.0 by {}
    assert forall|i: int| 0 <= i < muts.entries@.len() implies (#[trigger] muts.entries@[i]).0.0
        == list[i].0.0 by {}
}

proof fn lemma_locks_succeed(txid: Txid, preconds: Seq<Precondition>, locks: Seq<Stored>)
    ensures
        prepared_locks(txid, preconds, locks) is Ok <==> forall|i: int|
            0 <= i < preconds.len() ==> locks_with(
                txid,
                (#[trigger] preconds[i]).key_view().0,
                stored_view(locks[i]),
            ) is Ok,
    decreases preconds.len(),
{
    if preconds.len() > 0 {
        let rest = preconds.drop_last();
        lemma_locks_succeed(txid, rest, locks);
        assert forall|i: int| 0 <= i < rest.len() implies #[trigger] rest[i] == preconds[i] by {}
        if prepared_locks(txid, preconds, locks) is Ok {
            assert forall|i: int| 0 <= i < preconds.len() implies locks_with(
                txid,
                (#[trigger] preconds[i]).key_view().0,
                stored_view(locks[i]),
            ) is Ok by {
                if i < rest.len() {
                    assert(rest[i] == preconds[i]);
                }
            }
        } else if prepared_locks(txid, rest, locks) is Err {
            let i = choose|i: int|
                0 <= i < rest.len() && !(locks_with(
                    txid,
                    (#[trigger] rest[i]).key_view().0,
                    stored_view(locks[i]),
                ) is Ok);
            assert(preconds[i] == rest[i]);
        } else {
            assert(preconds[preconds.len() - 1] == preconds.last());
        }
    }
}

proof fn lemma_muts_succeed(
    txid: Txid,
    base: Map<KeyView, MutationView>,
    muts: Seq<(KeyView, MutationView)>,
)
    ensures
        prepared_muts(txid, base, muts) is Ok <==> forall|i: int|
            0 <= i < muts.len() ==> (#[trigger] muts[i]).0.0.userland(),
    decreases muts.len(),
{
    if muts.len() > 0 {
        let rest = muts.drop_last();
        lemma_muts_succeed(txid, base, rest);
        if prepared_muts(txid, base, muts) is Ok {
            assert forall|i: int| 0 <= i < muts.len() implies (
            #[trigger] muts[i]).0.0.userland() by {
                if i < rest.len() {
                    assert(rest[i] == muts[i]);
                }
            }
        } else if prepared_muts(txid, base, rest) is Err {
            let i = choose|i: int| 0 <= i < rest.len() && !(#[trigger] rest[i]).0.0.userland();
            assert(muts[i] == rest[i]);
        } else {
            assert(muts[muts.len() - 1] == muts.last());
        }
    }
}

/// What is left pending at a key keeps others from reading it until the outcome is known. Then a
/// commit makes just the mutation that was prepared, at the time of the commit, and an abort makes
/// none.
pub proof fn law_prepared_then_resolved(
    txid: Txid,
    preconds: Seq<Precondition>,
    muts: Muts,
    locks: Seq<Stored>,
    k: KeyView,
    prepared_at: Timestamp,
    commit: Timestamp,
    stored: Stored,
)
    requires
        muts.wf(),
        locks.len() == preconds.len(),
        prepared(txid, preconds, muts, locks) is Ok,
        muts@.contains_key(k),
        prepared_at.0 < commit.0,
    ensures
        ({
            let out = prepared(txid, preconds, muts, locks)->Ok_0;
            let b = out[(k.0.pending_spec()->0, k.1)]->Put_0;
            let pending = Some((prepared_at, Some(b)));
            &&& read_of(k, stored_view(stored), pending) == Err::<
                Option<crate::types::data::RecordView>,
                InternalError,
            >(InternalError::Conflict(txid))
            &&& resolution(txid, TxOutcome::Committed(commit), k.0, pending) matches Ok(Some(v))
                && v.ts == commit && Some(v.pending_keyspace_id) == k.0.pending_spec()
                && v.promoted == Some(
                match muts@[k] {
                    Mutation::Put(v) => MutationView::Put(v@),
                    Mutation::Delete => MutationView::Delete,
                },
            )
            &&& resolution(txid, TxOutcome::Aborted, k.0, pending) matches Ok(Some(v)) && v.ts.0
                == prepared_at.0 + 1 && Some(v.pending_keyspace_id) == k.0.pending_spec()
                && v.promoted is None
        }),
{
    law_prepare_leaves_each_mutation(txid, preconds, muts, locks);
    assert(holds_mutation(prepared(txid, preconds, muts, locks)->Ok_0, txid, k, muts@[k]));
}

/// Cleaning up a key does something only where a mutation of that very transaction is pending, and
/// refuses a commit that is not later than the mutation was prepared.
pub proof fn law_resolution(
    txid: Txid,
    outcome: TxOutcome,
    keyspace_id: KeyspaceId,
    stored: Stored,
)
    requires
        keyspace_id.userland(),
        stored matches Some((ts, _)) ==> ts.0 < u64::MAX,
    ensures
        match stored {
            Some((at, RevisionValue::Regular(b))) => match PendingView::of(b@) {
                Err(e) => resolution(txid, outcome, keyspace_id, stored_view(stored)) == Err::<
                    Option<ResolveView>,
                    InternalError,
                >(InternalError::Decode(e)),
                Ok(p) => match resolution(txid, outcome, keyspace_id, stored_view(stored)) {
                    Err(e) => {
                        &&& p.txid == txid
                        &&& outcome matches TxOutcome::Committed(ts) && ts.0 <= at.0
                        &&& e == InternalError::CommitBeforePrepare
                    },
                    Ok(None) => p.txid != txid,
                    Ok(Some(v)) => {
                        &&& p.txid == txid
                        &&& v.ts.0 > at.0
                        &&& match outcome {
                            TxOutcome::Committed(ts) => v.ts == ts && v.promoted == Some(p.m),
                            TxOutcome::Aborted => v.ts.0 == at.0 + 1 && v.promoted is None,
                        }
                    },
                },
            },
            _ => resolution(txid, outcome, keyspace_id, stored_view(stored)) == Ok::<
                Option<ResolveView>,
                InternalError,
            >(None),
        },
{
}

/// Releasing a lock takes the transaction out of those that hold one and leaves the others, a moment
/// after the lock was taken. Where no other is left, so is nothing.
pub proof fn law_release_takes_one_out(txid: Txid, keyspace_id: KeyspaceId, stored: Stored)
    requires
        keyspace_id.userland(),
        stored matches Some((ts, _)) ==> ts.0 < u64::MAX,
        stored matches Some((_, RevisionValue::Regular(b))) ==> b@.len() % 20 == 0,
    ensures
        released(txid, keyspace_id, stored_view(stored)) is Ok,
        released(txid, keyspace_id, stored_view(stored)) matches Ok(None) <==> !(stored
            matches Some((_, RevisionValue::Regular(b))) && txids_of(b@).contains(txid)),
        released(txid, keyspace_id, stored_view(stored)) matches Ok(Some((ts, m))) ==> {
            &&& ts.0 == (stored->0).0.0 + 1
            &&& stored matches Some((_, RevisionValue::Regular(b))) && match m {
                MutationView::Put(rest) => {
                    &&& rest.len() % 20 == 0
                    &&& rest.len() > 0
                    &&& txids_of(rest).no_duplicates()
                    &&& forall|t: Txid|
                        #![trigger txids_of(rest).contains(t)]
                        txids_of(rest).contains(t) <==> t != txid && txids_of(b@).contains(t)
                },
                MutationView::Delete => forall|t: Txid|
                    #![trigger txids_of(b@).contains(t)]
                    txids_of(b@).contains(t) ==> t == txid,
            }
        },
{
    if let Some((at, RevisionValue::Regular(b))) = stored {
        let list = txids_of(b@);
        assert(list.to_set().contains(txid) == list.contains(txid));
        if list.contains(txid) {
            let rest = list.to_set().remove(txid);
            let others = list.filter(|t: Txid| t != txid);
            assert forall|t: Txid| #[trigger] others.contains(t) <==> t != txid && list.contains(
                t,
            ) by {
                lemma_filter_contains(list, txid, t);
            }
            assert(others.to_set() =~= rest);
            lemma_locks_bytes(others);
            let out = locks_bytes(rest);
            if rest == Set::<Txid>::empty() {
                assert forall|t: Txid|
                    #![trigger txids_of(b@).contains(t)]
                    txids_of(b@).contains(t) implies t == txid by {
                    if t != txid {
                        assert(rest.contains(t));
                    }
                }
            } else {
                assert forall|t: Txid|
                    #![trigger txids_of(out).contains(t)]
                    txids_of(out).contains(t) <==> t != txid && list.contains(t) by {
                    assert(txids_of(out).to_set().contains(t) == rest.contains(t));
                }
                assert(out.len() > 0) by {
                    if out.len() == 0 {
                        assert(txids_of(out) =~= Seq::empty());
                        assert(rest =~= Set::<Txid>::empty());
                    }
                }
            }
        }
    }
}

proof fn lemma_filter_contains(list: Seq<Txid>, txid: Txid, t: Txid)
    ensures
        list.filter(|x: Txid| x != txid).contains(t) <==> t != txid && list.contains(t),
    decreases list.len(),
{
    reveal(Seq::filter);
    if list.len() > 0 {
        let rest = list.drop_last();
        lemma_filter_contains(rest, txid, t);
        let f = rest.filter(|x: Txid| x != txid);
        let g = list.filter(|x: Txid| x != txid);
        if list.contains(t) {
            let i = list.index_of(t);
            if i < rest.len() {
                assert(rest[i] == t);
            }
        }
        if rest.contains(t) {
            assert(list[rest.index_of(t)] == t);
        }
        assert(list[list.len() - 1] == list.last());
        if list.last() != txid {
            assert(g == f.push(list.last()));
            assert(g[f.len() as int] == list.last());
            if f.contains(t) {
                assert(g[f.index_of(t)] == t);
            }
            if g.contains(t) {
                let i = g.index_of(t);
                if i < f.len() {
                    assert(f[i] == t);
                }
            }
        }
    }
}

} // verus!
