//! Outcomes as messages, in which every part can be missing.

use vstd::prelude::*;

use super::outcome::{OutcomeView, TxOutcomeRecord};
use crate::types::data::{copy_key, key_set, Key, KeySet, KeyView, Timestamp};

verus! {

/// How a transaction ended, as it stands in a message.
#[derive(Debug)]
pub enum OutcomeType {
    Committed { ts: u64, precond_keys: Option<Vec<Key>>, mut_keys: Option<Vec<Key>> },
    Aborted,
}

/// A message about an outcome.
#[derive(Debug)]
pub struct OutcomeMessage {
    pub outcome_type: Option<OutcomeType>,
}

/// What is missing in a message.
#[derive(Clone, Copy, Debug, PartialEq, Eq, Structural)]
pub enum MessageError {
    MissingOutcomeType,
    MissingPrecondKeys,
    MissingMutKeys,
}

/// The keys of a list.
pub open spec fn keys_in(list: Seq<Key>) -> Set<KeyView> {
    list.map_values(|k: Key| k@).to_set()
}

/// The outcome that a message is about. What keys the transaction changed is asked for first.
pub open spec fn outcome_in(m: OutcomeMessage) -> Result<OutcomeView, MessageError> {
    match m.outcome_type {
        None => Err(MessageError::MissingOutcomeType),
        Some(OutcomeType::Aborted) => Ok(OutcomeView::Aborted),
        Some(OutcomeType::Committed { ts, precond_keys, mut_keys }) => match mut_keys {
            None => Err(MessageError::MissingMutKeys),
            Some(muts) => match precond_keys {
                None => Err(MessageError::MissingPrecondKeys),
                Some(preconds) => Ok(
                    OutcomeView::Committed {
                        ts: Timestamp(ts),
                        precond_keys: keys_in(preconds@),
                        mut_keys: keys_in(muts@),
                    },
                ),
            },
        },
    }
}

fn key_list(keys: &KeySet) -> (r: Vec<Key>)
    requires
        keys.wf(),
    ensures
        r@.map_values(|k: Key| k@) == keys.keys(),
        keys_in(r@) == keys@.dom(),
{
    let mut r: Vec<Key> = Vec::new();
    let mut i: usize = 0;
    while i < keys.entries.len()
        invariant
            i <= keys.entries@.len(),
            r@.map_values(|k: Key| k@) == keys.keys().take(i as int),
        decreases keys.entries@.len() - i,
    {
        let ghost before = r@;
        let key = copy_key(&keys.entries[i].0);
        r.push(key);
        i += 1;
        proof {
            assert(r@.map_values(|k: Key| k@) =~= before.map_values(|k: Key| k@).push(key@));
            assert(keys.keys().take(i as int) =~= keys.keys().take(i - 1).push(key@));
        }
    }
    proof {
        assert(keys.keys().take(i as int) =~= keys.keys());
        assert forall|k: KeyView| keys_in(r@).contains(k) == keys@.dom().contains(k) by {
            assert(keys_in(r@).contains(k) <==> keys.keys().contains(k));
        }
        assert(keys_in(r@) =~= keys@.dom());
    }
    r
}

/// The message about an outcome.
pub fn to_message(record: &TxOutcomeRecord) -> (r: OutcomeMessage)
    requires
        record.wf(),
    ensures
        outcome_in(r) == Ok::<OutcomeView, MessageError>(record@),
        match *record {
            TxOutcomeRecord::Committed { ts, precond_keys, mut_keys } => {
                &&& r.outcome_type matches Some(
                    OutcomeType::Committed { precond_keys: p, mut_keys: m, .. },
                )
                &&& p matches Some(list) && list@.map_values(|k: Key| k@) == precond_keys.keys()
                &&& m matches Some(list) && list@.map_values(|k: Key| k@) == mut_keys.keys()
            },
            TxOutcomeRecord::Aborted => r.outcome_type == Some(OutcomeType::Aborted),
        },
{
    OutcomeMessage {
        outcome_type: Some(
            match record {
                TxOutcomeRecord::Committed { ts, precond_keys, mut_keys } => OutcomeType::Committed {
                    ts: ts.0,
                    precond_keys: Some(key_list(precond_keys)),
                    mut_keys: Some(key_list(mut_keys)),
                },
                TxOutcomeRecord::Aborted => OutcomeType::Aborted,
            },
        ),
    }
}

fn set_of(list: &Vec<Key>) -> (r: KeySet)
    ensures
        r.wf(),
        r@.dom() == keys_in(list@),
{
    let r = key_set(list);
    proof {
        let views = list@.map_values(|k: Key| k@);
        assert forall|k: KeyView| r@.dom().contains(k) == views.to_set().contains(k) by {
            if views.contains(k) {
                let i = views.index_of(k);
                assert(list@[i]@ == k);
            }
            if r@.contains_key(k) {
                let i = choose|i: int| 0 <= i < list@.len() && (#[trigger] list@[i])@ == k;
                assert(views[i] == k);
            }
        }
        assert(r@.dom() =~= keys_in(list@));
    }
    r
}

/// The outcome that a message is about.
pub fn from_message(message: &OutcomeMessage) -> (r: Result<TxOutcomeRecord, MessageError>)
    ensures
        match outcome_in(*message) {
            Ok(o) => r matches Ok(rec) && rec.wf() && rec@ == o,
            Err(e) => r matches Err(e2) && e2 == e,
        },
{
    match &message.outcome_type {
        Some(OutcomeType::Committed { ts, precond_keys, mut_keys }) => {
            let mut_keys = match mut_keys {
                Some(keys) => set_of(keys),
                None => {
                    return Err(MessageError::MissingMutKeys);
                },
            };
            let precond_keys = match precond_keys {
                Some(keys) => set_of(keys),
                None => {
                    return Err(MessageError::MissingPrecondKeys);
                },
            };
            Ok(TxOutcomeRecord::Committed { ts: Timestamp(*ts), precond_keys, mut_keys })
        },
        Some(OutcomeType::Aborted) => Ok(TxOutcomeRecord::Aborted),
        None => Err(MessageError::MissingOutcomeType),
    }
}

} // verus!
