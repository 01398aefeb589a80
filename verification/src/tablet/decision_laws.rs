//! What is told of decided transactions, and to whom.

use vstd::prelude::*;

use super::outcome::OutcomeView;
use super::outcome_laws::law_outcome_roundtrip;
use super::outcome_message::{outcome_in, MessageError, OutcomeMessage, OutcomeType};
use super::pending::DecodeError;
use super::shard_meta_tablet::{first_unrouted, recorded};
use crate::router::{RouteError, StaticRouter};
use crate::types::data::{stored_view, Key, KeyView, RevisionValue, Stored, Timestamp, TxOutcome};
use crate::util::bytes::{be_bytes, lemma_byte_range, lemma_bytes_of_value};

verus! {

/// An outcome that was recorded is told as it was decided, with the time of a commit. Nothing is
/// told where nothing is recorded, nor where the record was deleted.
pub proof fn law_recorded_is_told(stored: Stored, rec: OutcomeView)
    ensures
        recorded(stored_view(stored)) is None <==> !(stored matches Some(
            (_, RevisionValue::Regular(_)),
        )),
        stored matches Some((_, RevisionValue::Regular(b))) ==> (rec.encoded(b@) ==> recorded(
            stored_view(stored),
        ) == Some(
            Ok::<TxOutcome, DecodeError>(
                match rec {
                    OutcomeView::Committed { ts, .. } => TxOutcome::Committed(ts),
                    OutcomeView::Aborted => TxOutcome::Aborted,
                },
            ),
        )),
        stored matches Some((_, RevisionValue::Regular(b))) ==> (OutcomeView::of(b@) matches Err(e)
            ==> recorded(stored_view(stored)) == Some(Err::<TxOutcome, DecodeError>(e))),
{
    if let Some((_, RevisionValue::Regular(b))) = stored {
        if rec.encoded(b@) {
            law_outcome_roundtrip(rec, b@);
        }
    }
}

/// An abort is a single byte, and a commit starts with another, then has its time in eight bytes, the
/// least significant first.
pub proof fn law_outcome_kinds(b: Seq<u8>)
    ensures
        OutcomeView::of(b) matches Ok(OutcomeView::Aborted) <==> b == seq![0u8],
        OutcomeView::of(b) matches Ok(OutcomeView::Committed { ts, .. }) ==> b.len() > 9 && b[0] == 1
            && b.subrange(1, 9).reverse() == be_bytes(ts.0 as nat, 8),
{
    if b.len() == 1 && b[0] == 0 {
        assert(b =~= seq![0u8]);
    }
    if let Ok(OutcomeView::Committed { ts, .. }) = OutcomeView::of(b) {
        lemma_byte_range();
        lemma_bytes_of_value(b.subrange(1, 9).reverse());
        if b.len() == 9 {
            assert(b.skip(9) =~= Seq::empty());
        }
    }
}

/// Whether a key is in a list.
pub open spec fn in_list(list: Seq<Key>, k: KeyView) -> bool {
    exists|i: int| 0 <= i < list.len() && (#[trigger] list[i]).0 == k.0 && list[i].1@ == k.1
}

/// A message tells the outcome with its keys, those that the transaction depends on and those that
/// it changes, each from their own list. Where parts are missing it is told which.
pub proof fn law_message_outcome(m: OutcomeMessage)
    ensures
        match m.outcome_type {
            None => outcome_in(m) == Err::<OutcomeView, MessageError>(
                MessageError::MissingOutcomeType,
            ),
            Some(OutcomeType::Aborted) => outcome_in(m) == Ok::<OutcomeView, MessageError>(
                OutcomeView::Aborted,
            ),
            Some(OutcomeType::Committed { ts, precond_keys, mut_keys }) => match outcome_in(m) {
                Ok(OutcomeView::Committed { ts: at, precond_keys: p, mut_keys: c }) => {
                    &&& at == Timestamp(ts)
                    &&& precond_keys matches Some(list) && forall|k: KeyView| #[trigger]
                        p.contains(k) <==> in_list(list@, k)
                    &&& mut_keys matches Some(list) && forall|k: KeyView| #[trigger]
                        c.contains(k) <==> in_list(list@, k)
                },
                Ok(OutcomeView::Aborted) => false,
                Err(e) => if mut_keys is None {
                    e == MessageError::MissingMutKeys
                } else {
                    precond_keys is None && e == MessageError::MissingPrecondKeys
                },
            },
        },
{
    if let Some(OutcomeType::Committed { ts, precond_keys, mut_keys }) = m.outcome_type {
        if let Some(list) = precond_keys {
            lemma_keys_in(list@);
        }
        if let Some(list) = mut_keys {
            lemma_keys_in(list@);
        }
    }
}

proof fn lemma_keys_in(list: Seq<Key>)
    ensures
        forall|k: KeyView| #[trigger]
            super::outcome_message::keys_in(list).contains(k) <==> in_list(list, k),
{
    let views = list.map_values(|k: Key| k@);
    assert forall|k: KeyView| #[trigger]
        super::outcome_message::keys_in(list).contains(k) <==> in_list(list, k) by {
        if views.contains(k) {
            let i = views.index_of(k);
            assert(list[i]@ == k);
            assert(list[i].0 == k.0 && list[i].1@ == k.1);
        }
        if in_list(list, k) {
            let i = choose|i: int|
                0 <= i < list.len() && (#[trigger] list[i]).0 == k.0 && list[i].1@ == k.1;
            assert(views[i] == k);
        }
    }
}

/// Keys can be cleaned up exactly where each of them belongs to a tablet. Else the first that does
/// not says why.
pub proof fn law_first_unrouted(router: StaticRouter, keys: Seq<KeyView>)
    ensures
        first_unrouted(router, keys) is None <==> forall|i: int|
            0 <= i < keys.len() ==> router.route((#[trigger] keys[i]).0.0, keys[i].1) is Ok,
        first_unrouted(router, keys) matches Some(e) ==> exists|i: int|
            {
                &&& 0 <= i < keys.len()
                &&& router.route((#[trigger] keys[i]).0.0, keys[i].1) == Err::<
                    crate::types::TabletId,
                    RouteError,
                >(e)
                &&& forall|j: int|
                    0 <= j < i ==> router.route((#[trigger] keys[j]).0.0, keys[j].1) is Ok
            },
    decreases keys.len(),
{
    if keys.len() > 0 {
        let rest = keys.drop_last();
        let n = rest.len() as int;
        law_first_unrouted(router, rest);
        match first_unrouted(router, rest) {
            Some(e) => {
                let i = choose|i: int|
                    {
                        &&& 0 <= i < rest.len()
                        &&& router.route((#[trigger] rest[i]).0.0, rest[i].1) == Err::<
                            crate::types::TabletId,
                            RouteError,
                        >(e)
                        &&& forall|j: int|
                            0 <= j < i ==> router.route((#[trigger] rest[j]).0.0, rest[j].1) is Ok
                    };
                assert(keys[i] == rest[i]);
                assert forall|j: int| 0 <= j < i implies router.route(
                    (#[trigger] keys[j]).0.0,
                    keys[j].1,
                ) is Ok by {
                    assert(rest[j] == keys[j]);
                }
            },
            None => {
                assert forall|j: int| 0 <= j < n implies router.route(
                    (#[trigger] keys[j]).0.0,
                    keys[j].1,
                ) is Ok by {
                    assert(rest[j] == keys[j]);
                }
                assert(keys[n] == keys.last());
            },
        }
    }
}

} // verus!
