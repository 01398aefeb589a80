//! Tablets that keep the outcomes of transactions.
//!
//! Each shard has one. It owns the keys of the shards' metadata that begin with its own shard, and
//! its range never moves to another tablet. It takes no ordinary writes.

use vstd::prelude::*;

use super::data_tablet::TabletRequest;
use super::outcome::{OutcomeView, TxOutcomeRecord};
use super::outcome_laws::law_outcome_roundtrip;
use super::pending::DecodeError;
use super::tablet_inner::{owns, TabletInner};
use crate::range::span::law_prefix_range;
use crate::range::{Bound, Range};
use crate::router::{RouteError, StaticRouter};
use crate::types::data::{
    copy_key, law_txid_roundtrip, stored_view, Key, KeySet, KeyView, RevisionValue, Stored,
    Timestamp, TxOutcome, Txid,
};
use crate::types::error::InternalError;
use crate::types::{ColoGroupId, KeyspaceId, ShardId, TabletId, SHARD_ID_LEN};
use crate::util::bytes::{
    be_bytes, be_value, lemma_be_value_injective, lemma_byte_range, lemma_value_of_bytes,
};
use crate::util::ordmap::OrdMap;

verus! {

/// What is done to record an outcome.
pub enum OutcomeWrite {
    /// Nothing: the transaction was decided before.
    Existing(TxOutcome),
    /// The record is put at the key, those who wait are told, and if the transaction was committed
    /// its keys are cleaned up.
    Put { key: Vec<u8>, value: Vec<u8>, outcome: TxOutcome },
}

/// The outcome without the keys.
pub open spec fn outcome_of(rec: OutcomeView) -> TxOutcome {
    match rec {
        OutcomeView::Committed { ts, precond_keys, mut_keys } => TxOutcome::Committed(ts),
        OutcomeView::Aborted => TxOutcome::Aborted,
    }
}

/// The outcome that is recorded already, if any.
pub open spec fn recorded(stored: Option<(Timestamp, Option<Seq<u8>>)>) -> Option<
    Result<TxOutcome, DecodeError>,
> {
    match stored {
        Some((_, Some(b))) => match OutcomeView::of(b) {
            Ok(rec) => Some(Ok(outcome_of(rec))),
            Err(e) => Some(Err(e)),
        },
        _ => None,
    }
}

fn check_recorded(stored: &Stored) -> (r: Option<Result<TxOutcome, DecodeError>>)
    ensures
        r == recorded(stored_view(*stored)),
{
    match stored {
        Some((_, RevisionValue::Regular(b))) => match TxOutcomeRecord::decode(b.as_slice()) {
            Ok(rec) => Some(Ok(rec.tx_outcome())),
            Err(e) => Some(Err(e)),
        },
        _ => None,
    }
}

/// What someone who asks for an outcome is told.
#[derive(Clone, Copy, Debug, PartialEq, Eq, Structural)]
pub enum WaitStep {
    Done(TxOutcome),
    /// Nothing was recorded yet: wait, then ask again.
    Wait,
}

/// The tablet of the outcomes of a shard's transactions.
pub struct ShardMetaTablet {
    pub inner: TabletInner,
}

impl ShardMetaTablet {
    /// Whether the tablet is the one of a shard: it owns the shards' metadata that begin with it.
    pub open spec fn of_shard(self, shard_id: ShardId) -> bool {
        &&& self.inner.tablet_id == TabletId::shard_meta(shard_id)
        &&& self.inner.colo_group_id == ColoGroupId::shard_meta()
        &&& self.inner.range@.lower matches Bound::Before(b) && shard_id.encoded(b)
        &&& self.inner.range@.upper matches Bound::AfterPrefix(b) && shard_id.encoded(b)
    }

    /// The tablet of a shard.
    pub fn new(shard_id: ShardId) -> (r: Self)
        ensures
            r.of_shard(shard_id),
    {
        let pfx = shard_id.encode_fixed();
        ShardMetaTablet {
            inner: TabletInner::new(
                TabletId::shard_meta(shard_id),
                ColoGroupId::shard_meta(),
                Range::prefix(pfx),
            ),
        }
    }

    /// Whether the tablet takes a request. Outcomes are recorded in other ways than by writes, and
    /// the tablet takes part in no transfers.
    pub fn check_request(&self, request: TabletRequest) -> (r: Result<(), InternalError>)
        ensures
            r == if request.reads() || request is Manifest {
                Ok::<(), InternalError>(())
            } else {
                Err(InternalError::NotAllowed)
            },
    {
        match request {
            TabletRequest::GetMulti
            | TabletRequest::GetLatestMulti
            | TabletRequest::LatestSnapshot
            | TabletRequest::ScanPage
            | TabletRequest::HistoryPage
            | TabletRequest::Manifest => Ok(()),
            TabletRequest::Write
            | TabletRequest::Prepare
            | TabletRequest::CleanupCommitted
            | TabletRequest::WaitMostlyHydrated
            | TabletRequest::Catchup
            | TabletRequest::FindSplit
            | TabletRequest::Flush => Err(InternalError::NotAllowed),
        }
    }

    /// When outcomes are recorded: before anything else that happens to their keys.
    pub fn record_ts() -> (r: Timestamp)
        ensures
            r == Timestamp::zero(),
    {
        Timestamp::zero()
    }

    /// The key to delete, and when, once every key of a committed transaction is cleaned up.
    pub fn forget(txid: Txid) -> (r: (Timestamp, Key))
        ensures
            r.0.0 == Timestamp::zero().0 + 1,
            r.1@ == (KeyspaceId::tx_outcomes(), txid.bytes()),
    {
        (Timestamp::zero().plus_one(), (KeyspaceId::tx_outcomes(), txid.encode_fixed()))
    }

    pub open spec fn owns_outcome(self, txid: Txid) -> bool {
        owns(
            self.inner.colo_group_id,
            self.inner.range@,
            (KeyspaceId::tx_outcomes(), txid.bytes()),
        )
    }

    /// Decides how an outcome is recorded, from what is stored for the transaction. The first
    /// outcome stands.
    pub fn try_write_tx_outcome(
        &self,
        txid: Txid,
        record: &TxOutcomeRecord,
        stored: &Stored,
    ) -> (r: Result<OutcomeWrite, InternalError>)
        requires
            record.wf(),
        ensures
            if !self.owns_outcome(txid) {
                r matches Err(e) && e == InternalError::NotOwned(ColoGroupId::shard_meta())
            } else {
                match recorded(stored_view(*stored)) {
                    Some(Ok(o)) => r matches Ok(OutcomeWrite::Existing(o2)) && o2 == o,
                    Some(Err(e)) => r matches Err(e2) && e2 == InternalError::Decode(e),
                    None => r matches Ok(OutcomeWrite::Put { key, value, outcome }) && key@
                        == txid.bytes() && record@.encoded(value@) && outcome == outcome_of(
                        record@,
                    ),
                }
            },
    {
        let key = txid.encode_fixed();
        if let Err(e) = self.inner.check_key(KeyspaceId::tx_outcomes().0, &key) {
            return Err(e);
        }
        match check_recorded(stored) {
            Some(Ok(o)) => Ok(OutcomeWrite::Existing(o)),
            Some(Err(e)) => Err(InternalError::Decode(e)),
            None => Ok(
                OutcomeWrite::Put { key, value: record.encode(), outcome: record.tx_outcome() },
            ),
        }
    }

    /// Commits a transaction, unless it was decided before.
    pub fn try_commit(
        &self,
        txid: Txid,
        ts: Timestamp,
        precond_keys: KeySet,
        mut_keys: KeySet,
        stored: &Stored,
    ) -> (r: Result<OutcomeWrite, InternalError>)
        requires
            precond_keys.wf(),
            mut_keys.wf(),
        ensures
            ({
                let rec = OutcomeView::Committed {
                    ts,
                    precond_keys: precond_keys@.dom(),
                    mut_keys: mut_keys@.dom(),
                };
                if !self.owns_outcome(txid) {
                    r matches Err(e) && e == InternalError::NotOwned(ColoGroupId::shard_meta())
                } else {
                    match recorded(stored_view(*stored)) {
                        Some(Ok(o)) => r matches Ok(OutcomeWrite::Existing(o2)) && o2 == o,
                        Some(Err(e)) => r matches Err(e2) && e2 == InternalError::Decode(e),
                        None => r matches Ok(OutcomeWrite::Put { key, value, outcome }) && key@
                            == txid.bytes() && rec.encoded(value@) && outcome
                            == TxOutcome::Committed(ts),
                    }
                }
            }),
    {
        let record = TxOutcomeRecord::Committed { ts, precond_keys, mut_keys };
        self.try_write_tx_outcome(txid, &record, stored)
    }

    /// Aborts a transaction, unless it was decided before.
    pub fn try_abort(&self, txid: Txid, stored: &Stored) -> (r: Result<OutcomeWrite, InternalError>)
        ensures
            if !self.owns_outcome(txid) {
                r matches Err(e) && e == InternalError::NotOwned(ColoGroupId::shard_meta())
            } else {
                match recorded(stored_view(*stored)) {
                    Some(Ok(o)) => r matches Ok(OutcomeWrite::Existing(o2)) && o2 == o,
                    Some(Err(e)) => r matches Err(e2) && e2 == InternalError::Decode(e),
                    None => r matches Ok(OutcomeWrite::Put { key, value, outcome }) && key@
                        == txid.bytes() && value@ == seq![0u8] && outcome == TxOutcome::Aborted,
                }
            },
    {
        self.try_write_tx_outcome(txid, &TxOutcomeRecord::Aborted, stored)
    }

    /// Decides what someone who asks for an outcome is told, from what is stored for the
    /// transaction. A record that was deleted was cleaned up, with all that the transaction left.
    pub fn wait(&self, txid: Txid, stored: &Stored) -> (r: Result<WaitStep, InternalError>)
        ensures
            r == if !self.owns_outcome(txid) {
                Err(InternalError::NotOwned(ColoGroupId::shard_meta()))
            } else {
                match stored_view(*stored) {
                    None => Ok(WaitStep::Wait),
                    Some((_, None)) => Err(InternalError::TxOutcomeMissing),
                    _ => match recorded(stored_view(*stored)) {
                        Some(Ok(o)) => Ok(WaitStep::Done(o)),
                        Some(Err(e)) => Err(InternalError::Decode(e)),
                        None => Ok(WaitStep::Wait),
                    },
                }
            },
    {
        let key = txid.encode_fixed();
        if let Err(e) = self.inner.check_key(KeyspaceId::tx_outcomes().0, &key) {
            return Err(e);
        }
        match check_recorded(stored) {
            Some(Ok(o)) => Ok(WaitStep::Done(o)),
            Some(Err(e)) => Err(InternalError::Decode(e)),
            None => match stored {
                None => Ok(WaitStep::Wait),
                Some(_) => Err(InternalError::TxOutcomeMissing),
            },
        }
    }
}

/// An outcome that was recorded stands: whoever tries to decide the transaction again, or asks for
/// its outcome, is told that one.
pub proof fn law_first_outcome_stands(rec: OutcomeView, b: Seq<u8>, ts: Timestamp)
    requires
        rec.encoded(b),
    ensures
        recorded(Some((ts, Some(b)))) == Some(Ok::<TxOutcome, DecodeError>(outcome_of(rec))),
{
    law_outcome_roundtrip(rec, b);
}

/// The keys that a tablet is told to clean up: those that a transaction depends on, and those that
/// it changes.
pub type TabletKeys = (KeySet, KeySet);

/// The first key that belongs to no tablet.
pub open spec fn first_unrouted(router: StaticRouter, keys: Seq<KeyView>) -> Option<RouteError>
    decreases keys.len(),
{
    if keys.len() == 0 {
        None
    } else {
        match first_unrouted(router, keys.drop_last()) {
            Some(e) => Some(e),
            None => match router.route(keys.last().0.0, keys.last().1) {
                Ok(_) => None,
                Err(e) => Some(e),
            },
        }
    }
}

proof fn lemma_first_unrouted(router: StaticRouter, keys: Seq<KeyView>, n: int)
    requires
        0 <= n <= keys.len(),
        first_unrouted(router, keys.take(n)) is Some,
    ensures
        first_unrouted(router, keys) == first_unrouted(router, keys.take(n)),
    decreases keys.len(),
{
    if n == keys.len() {
        assert(keys.take(n) =~= keys);
    } else {
        assert(keys.drop_last().take(n) =~= keys.take(n));
        lemma_first_unrouted(router, keys.drop_last(), n);
    }
}

/// Whether a tablet is told to clean up a key.
pub open spec fn told(m: OrdMap<TabletId, TabletKeys>, t: TabletId, k: KeyView, precond: bool) -> bool {
    m@.contains_key(t) && if precond {
        m@[t].0@.contains_key(k)
    } else {
        m@[t].1@.contains_key(k)
    }
}

pub open spec fn parts_wf(m: OrdMap<TabletId, TabletKeys>) -> bool {
    &&& m.wf()
    &&& forall|t: TabletId| #[trigger] m@.contains_key(t) ==> m@[t].0.wf() && m@[t].1.wf()
}

/// Adds the keys of a set to those of the tablets that they belong to.
fn add_keys(
    router: &StaticRouter,
    keys: &KeySet,
    precond: bool,
    by_tablet: &mut OrdMap<TabletId, TabletKeys>,
) -> (r: Result<(), RouteError>)
    requires
        router.wf(),
        keys.wf(),
        parts_wf(*old(by_tablet)),
        forall|t: TabletId, k: KeyView| !told(*old(by_tablet), t, k, precond),
    ensures
        match first_unrouted(*router, keys.keys()) {
            Some(e) => r == Err::<(), RouteError>(e),
            None => r is Ok,
        },
        parts_wf(*final(by_tablet)),
        r is Ok ==> forall|t: TabletId, k: KeyView| #[trigger]
            told(*final(by_tablet), t, k, precond) == (keys@.contains_key(k) && router.route(
                k.0.0,
                k.1,
            ) == Ok::<TabletId, RouteError>(t)),
        r is Ok ==> forall|t: TabletId, k: KeyView, b: bool|
            b != precond ==> #[trigger] told(*final(by_tablet), t, k, b) == told(
                *old(by_tablet),
                t,
                k,
                b,
            ),
        r is Ok ==> forall|t: TabletId| #[trigger]
            final(by_tablet)@.contains_key(t) == (old(by_tablet)@.contains_key(t) || exists|
                k: KeyView,
            | #[trigger] told(*final(by_tablet), t, k, precond)),
{
    let ghost ks = keys.keys();
    let ghost start = *by_tablet;
    let mut i: usize = 0;
    assert(ks.take(0) =~= Seq::empty());
    while i < keys.entries.len()
        invariant
            i <= keys.entries@.len(),
            router.wf(),
            keys.wf(),
            ks == keys.keys(),
            parts_wf(*by_tablet),
            first_unrouted(*router, ks.take(i as int)) is None,
            forall|t: TabletId, k: KeyView| #[trigger]
                told(*by_tablet, t, k, precond) == (ks.take(i as int).contains(k) && router.route(
                    k.0.0,
                    k.1,
                ) == Ok::<TabletId, RouteError>(t)),
            forall|t: TabletId, k: KeyView, b: bool|
                b != precond ==> #[trigger] told(*by_tablet, t, k, b) == told(start, t, k, b),
            forall|t: TabletId| #[trigger]
                by_tablet@.contains_key(t) == (start@.contains_key(t) || exists|k: KeyView|
                    #[trigger] told(*by_tablet, t, k, precond)),
        decreases keys.entries@.len() - i,
    {
        let key = &keys.entries[i].0;
        proof {
            assert(ks.take(i + 1).drop_last() =~= ks.take(i as int));
            assert(ks.take(i + 1).last() == key@);
        }
        let t = match router.tablet_id_for_key(key.0.0, key.1.as_slice()) {
            Ok(t) => t,
            Err(e) => {
                proof {
                    lemma_first_unrouted(*router, ks, i + 1);
                }
                return Err(e);
            },
        };
        let ghost before = *by_tablet;
        let (mut preconds, mut muts) = match by_tablet.remove(&t) {
            Some(parts) => parts,
            None => (OrdMap::new(), OrdMap::new()),
        };
        let ghost had = (preconds@, muts@);
        if precond {
            preconds.insert(copy_key(key), ());
        } else {
            muts.insert(copy_key(key), ());
        }
        let ghost now = (preconds, muts);
        by_tablet.insert(t, (preconds, muts));
        proof {
            assert(by_tablet@[t] == now);
            assert forall|u: TabletId, k: KeyView| #[trigger]
                told(*by_tablet, u, k, precond) == (told(before, u, k, precond) || (u == t && k
                    == key@)) by {
                if u != t {
                    assert(by_tablet@.contains_key(u) == before@.contains_key(u));
                }
            }
            assert forall|u: TabletId, k: KeyView, b: bool| b != precond implies #[trigger] told(
                *by_tablet,
                u,
                k,
                b,
            ) == told(before, u, k, b) by {
                if u != t {
                    assert(by_tablet@.contains_key(u) == before@.contains_key(u));
                }
            }
            let (s0, s1) = (ks.take(i as int), ks.take(i + 1));
            assert(s1 =~= s0.push(key@));
            assert forall|k: KeyView| #[trigger] s1.contains(k) == (s0.contains(k) || k == key@) by {
                if s0.contains(k) {
                    let j = choose|j: int| 0 <= j < s0.len() && s0[j] == k;
                    assert(s1[j] == k);
                }
                assert(s1[i as int] == key@);
                if s1.contains(k) {
                    let j = choose|j: int| 0 <= j < s1.len() && s1[j] == k;
                    if j < i {
                        assert(s0[j] == k);
                    }
                }
            }
            assert(told(*by_tablet, t, key@, precond));
            assert forall|u: TabletId| #[trigger]
                by_tablet@.contains_key(u) == (start@.contains_key(u) || exists|k: KeyView|
                    #[trigger] told(*by_tablet, u, k, precond)) by {
                if u != t {
                    assert(by_tablet@.contains_key(u) == before@.contains_key(u));
                    if exists|k: KeyView| #[trigger] told(before, u, k, precond) {
                        let k = choose|k: KeyView| #[trigger] told(before, u, k, precond);
                        assert(told(*by_tablet, u, k, precond));
                    }
                }
            }
        }
        i += 1;
    }
    proof {
        assert(ks.take(i as int) =~= ks);
        assert forall|k: KeyView| ks.contains(k) == #[trigger] keys@.contains_key(k) by {}
    }
    Ok(())
}

/// Decides which tablets clean up which keys of a committed transaction: each key in the tablet
/// that it belongs to.
pub fn cleanup_by_tablet(
    router: &StaticRouter,
    precond_keys: &KeySet,
    mut_keys: &KeySet,
) -> (r: Result<OrdMap<TabletId, TabletKeys>, InternalError>)
    requires
        router.wf(),
        precond_keys.wf(),
        mut_keys.wf(),
    ensures
        match first_unrouted(*router, precond_keys.keys() + mut_keys.keys()) {
            Some(e) => r matches Err(e2) && e2 == InternalError::Route(e),
            None => r is Ok,
        },
        r matches Ok(m) ==> {
            &&& parts_wf(m)
            &&& forall|t: TabletId, k: KeyView| #[trigger]
                told(m, t, k, true) == (precond_keys@.contains_key(k) && router.route(k.0.0, k.1)
                    == Ok::<TabletId, RouteError>(t))
            &&& forall|t: TabletId, k: KeyView| #[trigger]
                told(m, t, k, false) == (mut_keys@.contains_key(k) && router.route(k.0.0, k.1)
                    == Ok::<TabletId, RouteError>(t))
            &&& forall|t: TabletId| #[trigger]
                m@.contains_key(t) ==> exists|k: KeyView|
                    #![auto]
                    told(m, t, k, true) || told(m, t, k, false)
        },
{
    let mut by_tablet: OrdMap<TabletId, TabletKeys> = OrdMap::new();
    let ghost both = precond_keys.keys() + mut_keys.keys();
    proof {
        lemma_unrouted_join(*router, precond_keys.keys(), mut_keys.keys());
    }
    if let Err(e) = add_keys(router, precond_keys, true, &mut by_tablet) {
        return Err(InternalError::Route(e));
    }
    let ghost half = by_tablet;
    if let Err(e) = add_keys(router, mut_keys, false, &mut by_tablet) {
        return Err(InternalError::Route(e));
    }
    proof {
        assert forall|t: TabletId| #[trigger] by_tablet@.contains_key(t) implies exists|k: KeyView|
            #![auto]
            told(by_tablet, t, k, true) || told(by_tablet, t, k, false) by {
            if half@.contains_key(t) {
                let k = choose|k: KeyView| #[trigger] told(half, t, k, true);
                assert(told(by_tablet, t, k, true));
            }
        }
    }
    Ok(by_tablet)
}

proof fn lemma_unrouted_join(router: StaticRouter, a: Seq<KeyView>, b: Seq<KeyView>)
    ensures
        first_unrouted(router, a + b) == match first_unrouted(router, a) {
            Some(e) => Some(e),
            None => first_unrouted(router, b),
        },
    decreases b.len(),
{
    if b.len() == 0 {
        assert(a + b =~= a);
    } else {
        assert((a + b).drop_last() =~= a + b.drop_last());
        lemma_unrouted_join(router, a, b.drop_last());
    }
}

/// The tablet of a shard owns the outcomes of exactly the transactions that the shard is the owner
/// of.
pub proof fn law_owns_outcome(tablet: ShardMetaTablet, shard_id: ShardId, txid: Txid)
    requires
        tablet.of_shard(shard_id),
    ensures
        tablet.owns_outcome(txid) == (txid.owner == shard_id),
{
    let pfx = tablet.inner.range@.lower->Before_0;
    let other = tablet.inner.range@.upper->AfterPrefix_0;
    lemma_be_value_injective(pfx, other);
    law_prefix_range(pfx, txid.bytes());
    law_txid_roundtrip(txid, txid.bytes());
    let owner = txid.bytes().take(SHARD_ID_LEN as int);
    assert(be_value(owner) == txid.owner.0) by {
        lemma_byte_range();
        lemma_value_of_bytes(txid.owner.0 as nat, 4);
        assert(owner =~= be_bytes(txid.owner.0 as nat, 4));
    }
    if txid.owner == shard_id {
        lemma_be_value_injective(pfx, owner);
    }
}

} // verus!
