//! A store whose writes go to a journal first.

use vstd::prelude::*;

use super::read_only_lsm::ReadOnlyLsm;
use crate::supervisor::manifests::RunEntry;
use crate::types::data::{
    copy_key, JournalSeq, KeyView, Mutation, MutationView, Muts, RevisionValue, Timestamp,
};
use crate::types::KeyspaceId;

verus! {

/// A key and what is written to it.
#[derive(Debug)]
pub struct WrittenKey {
    pub keyspace_id: KeyspaceId,
    pub key: Vec<u8>,
    pub value: RevisionValue,
}

/// What a key is given by a write: nothing for a key that is deleted.
pub open spec fn value_of(m: MutationView) -> Option<Seq<u8>> {
    match m {
        MutationView::Put(v) => Some(v),
        MutationView::Delete => None,
    }
}

/// An entry of the journal of a tablet.
#[derive(Debug)]
pub enum TabletJournalEntry {
    NoOp,
    /// Keys that were written at a point in time.
    Write(Timestamp, Vec<WrittenKey>),
    /// The runs that the tablet holds, which have at least all writes before a position.
    Manifest(JournalSeq, Vec<RunEntry>),
}

/// Whether a list of written keys says what a write does, key by key and in the order of the keys.
pub open spec fn records_write(list: Seq<WrittenKey>, muts: Muts) -> bool {
    &&& list.len() == muts.entries@.len()
    &&& forall|i: int|
        0 <= i < list.len() ==> {
            let w = #[trigger] list[i];
            &&& (w.keyspace_id, w.key@) == muts.entries@[i].0@
            &&& w.value@ == value_of(muts.entries@[i].1@)
        }
}

/// What the journal gets for a write.
pub fn journal_write(ts: Timestamp, muts: &Muts) -> (r: TabletJournalEntry)
    requires
        muts.wf(),
    ensures
        r matches TabletJournalEntry::Write(t, list) && t == ts && records_write(list@, *muts),
{
    let mut list: Vec<WrittenKey> = Vec::new();
    let mut i: usize = 0;
    while i < muts.entries.len()
        invariant
            i <= muts.entries@.len(),
            list@.len() == i,
            forall|j: int|
                0 <= j < list@.len() ==> {
                    let w = #[trigger] list@[j];
                    &&& (w.keyspace_id, w.key@) == muts.entries@[j].0@
                    &&& w.value@ == value_of(muts.entries@[j].1@)
                },
        decreases muts.entries@.len() - i,
    {
        let (key, mutation) = &muts.entries[i];
        let value = match mutation.copied() {
            Mutation::Put(v) => RevisionValue::Regular(v),
            Mutation::Delete => RevisionValue::Tombstone,
        };
        let k = copy_key(key);
        list.push(WrittenKey { keyspace_id: k.0, key: k.1, value });
        i += 1;
    }
    TabletJournalEntry::Write(ts, list)
}

/// Every key that a write changes stands in its journal entry, with what it is given.
pub proof fn law_journal_has_write(list: Seq<WrittenKey>, muts: Muts, k: KeyView)
    requires
        muts.wf(),
        records_write(list, muts),
    ensures
        muts@.contains_key(k) <==> exists|i: int|
            0 <= i < list.len() && ((#[trigger] list[i]).keyspace_id, list[i].key@) == k,
        forall|i: int|
            0 <= i < list.len() ==> (#[trigger] list[i]).value@ == value_of(
                muts@[(list[i].keyspace_id, list[i].key@)]@,
            ),
{
    if muts@.contains_key(k) {
        muts.lemma_key(k);
        let i = choose|i: int|
            0 <= i < muts.entries@.len() && (#[trigger] muts.entries@[i]).0@ == k;
        assert((list[i].keyspace_id, list[i].key@) == k);
    }
    assert forall|i: int| 0 <= i < list.len() implies (#[trigger] list[i]).value@ == value_of(
        muts@[(list[i].keyspace_id, list[i].key@)]@,
    ) && muts@.contains_key((list[i].keyspace_id, list[i].key@)) by {
        muts.lemma_entry(i);
    }
}

/// A store, and the journal to which its writes go first.
pub struct JournaledLsm<L, J> {
    pub lsm: L,
    pub journal: J,
}

impl<L, J> JournaledLsm<L, J> {
    pub fn new(lsm: L, journal: J) -> (r: Self)
        ensures
            r.lsm == lsm,
            r.journal == journal,
    {
        JournaledLsm { lsm, journal }
    }

    /// The same store without the means to write. All writes have to be flushed before: whoever
    /// copies a store that is read only goes by the runs it has.
    pub fn make_read_only(self) -> (r: ReadOnlyLsm<L>)
        ensures
            r.lsm == self.lsm,
    {
        ReadOnlyLsm::new(self.lsm)
    }
}

} // verus!
