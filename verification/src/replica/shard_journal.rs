//! The journal of a shard, taken apart by tablets.

use vstd::prelude::*;

use crate::types::data::JournalSeq;
use crate::types::TabletId;
use crate::util::ordmap::OrdMap;

verus! {

/// An entry of the journal of a shard.
#[derive(Debug)]
pub struct ShardEntry<E> {
    pub tablet_id: TabletId,
    pub entry: E,
}

/// The journal of a shard, taken apart by tablets.
pub struct ShardJournal<E> {
    pub tablet_journals: OrdMap<TabletId, Vec<(JournalSeq, E)>>,
}

impl<E> ShardJournal<E> {
    /// The entries of a tablet.
    pub open spec fn entries(self, tablet_id: TabletId) -> Seq<(JournalSeq, E)> {
        if self.tablet_journals@.contains_key(tablet_id) {
            self.tablet_journals@[tablet_id]@
        } else {
            Seq::empty()
        }
    }

    pub fn new() -> (r: Self)
        ensures
            r.tablet_journals.wf(),
            forall|id: TabletId| #[trigger] r.entries(id) == Seq::<(JournalSeq, E)>::empty(),
    {
        ShardJournal { tablet_journals: OrdMap::new() }
    }

    /// The journal of a tablet, which is empty where the shard's journal had nothing for it yet.
    pub fn tablet_journal<'a>(&'a mut self, tablet_id: TabletId) -> (r: &'a Vec<(JournalSeq, E)>)
        requires
            old(self).tablet_journals.wf(),
        ensures
            final(self).tablet_journals.wf(),
            final(self).tablet_journals@.contains_key(tablet_id),
            r@ == old(self).entries(tablet_id),
            forall|id: TabletId| #[trigger] final(self).entries(id) == old(self).entries(id),
    {
        if !self.tablet_journals.contains_key(&tablet_id) {
            self.tablet_journals.insert(tablet_id, Vec::new());
        }
        match self.tablet_journals.get(&tablet_id) {
            Some(entries) => entries,
            None => {
                proof {
                    assert(false);
                }
                &self.tablet_journals.entries[0].1
            },
        }
    }

    /// Adds an entry to the journal of its tablet.
    pub fn process_entry(&mut self, seq: JournalSeq, shard_entry: ShardEntry<E>)
        requires
            old(self).tablet_journals.wf(),
        ensures
            final(self).tablet_journals.wf(),
            forall|id: TabletId| #[trigger]
                final(self).entries(id) == if id == shard_entry.tablet_id {
                    old(self).entries(id).push((seq, shard_entry.entry))
                } else {
                    old(self).entries(id)
                },
    {
        let ghost start = self.tablet_journals@;
        let id = shard_entry.tablet_id;
        let mut entries: Vec<(JournalSeq, E)> = match self.tablet_journals.remove(&id) {
            Some(entries) => entries,
            None => Vec::new(),
        };
        assert(entries@ =~= old(self).entries(id));
        entries.push((seq, shard_entry.entry));
        self.tablet_journals.insert(id, entries);
    }
}

/// The entries of a tablet are those that were noted for it, and none where nothing was.
pub proof fn law_tablet_entries<E>(journal: ShardJournal<E>, id: TabletId)
    ensures
        journal.tablet_journals@.contains_key(id) ==> journal.entries(id)
            == journal.tablet_journals@[id]@,
        !journal.tablet_journals@.contains_key(id) ==> journal.entries(id).len() == 0,
{
}

} // verus!
