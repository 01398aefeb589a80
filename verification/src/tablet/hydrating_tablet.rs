//! Tablets that copy the data of other tablets.

use vstd::prelude::*;

use super::tablet_inner::keyspaces_of;
use crate::range::span::{law_range_meet, law_vacant_range};
use crate::range::Range;
use crate::types::error::InternalError;
use crate::types::{ColoGroupId, KeyspaceId, TabletId};
use crate::util::ordmap::OrdMap;

verus! {

/// How many rounds have to find nothing that overlaps in part before most of the data is there.
pub const ROUNDS_UNTIL_MOSTLY: u64 = 3;

/// How far a tablet is with copying.
#[derive(Clone, Copy, Debug, PartialEq, Eq, Structural)]
pub enum HydrationState {
    /// Hydration has been started but there might still be no data.
    Started,
    /// Most of the data is there, but the sources still receive writes, so even if everything
    /// known is there it might not be everything.
    Mostly,
    /// The sources are frozen, one more round will have everything.
    Catchup,
    /// The round after the catchup finished.
    Done,
}

/// A tablet that copies the data of other tablets.
pub struct HydratingTablet {
    pub tablet_id: TabletId,
    pub colo_group_id: ColoGroupId,
    pub range: Range<Vec<u8>>,
    /// The tablets whose data is copied.
    pub srcs: Vec<TabletId>,
    pub state: HydrationState,
    /// How many rounds found no run that overlaps in part.
    pub rounds_with_completed: u64,
    /// The keyspaces that were created in the meantime. Most of them come with the data, but the
    /// sources are not asked any more once the data is there.
    pub extra_keyspaces: OrdMap<KeyspaceId, ()>,
}

/// Whether a run can be copied or left out as a whole.
pub open spec fn copies_whole(range: Range<Seq<u8>>, run: Range<Seq<u8>>) -> bool {
    range.encloses(run) || range.meet(run).vacant()
}

/// Whether all runs can be copied or left out as a whole.
pub open spec fn all_whole(range: Range<Seq<u8>>, runs: Seq<Range<Vec<u8>>>) -> bool {
    forall|i: int| 0 <= i < runs.len() ==> copies_whole(range, (#[trigger] runs[i])@)
}

/// The keyspaces that come with keyspaces, one after the other.
pub open spec fn all_keyspaces_of(ids: Seq<KeyspaceId>) -> Seq<KeyspaceId>
    decreases ids.len(),
{
    if ids.len() == 0 {
        Seq::empty()
    } else {
        all_keyspaces_of(ids.drop_last()) + keyspaces_of(ids.last())
    }
}

impl HydratingTablet {
    pub fn new(
        tablet_id: TabletId,
        colo_group_id: ColoGroupId,
        range: Range<Vec<u8>>,
        srcs: Vec<TabletId>,
    ) -> (r: Self)
        ensures
            r.tablet_id == tablet_id,
            r.colo_group_id == colo_group_id,
            r.range == range,
            r.srcs == srcs,
            r.state == HydrationState::Started,
            r.rounds_with_completed == 0,
            r.extra_keyspaces.wf(),
            r.extra_keyspaces@ == Map::<KeyspaceId, ()>::empty(),
    {
        HydratingTablet {
            tablet_id,
            colo_group_id,
            range,
            srcs,
            state: HydrationState::Started,
            rounds_with_completed: 0,
            extra_keyspaces: OrdMap::new(),
        }
    }

    /// Remembers a keyspace, to be created once the data is there.
    pub fn create_keyspace(&mut self, keyspace_id: KeyspaceId) -> (r: Result<(), InternalError>)
        requires
            old(self).extra_keyspaces.wf(),
        ensures
            final(self).extra_keyspaces.wf(),
            *final(self) == (HydratingTablet {
                extra_keyspaces: final(self).extra_keyspaces,
                ..*old(self)
            }),
            if keyspace_id.0 == old(self).colo_group_id {
                r == Ok::<(), InternalError>(()) && final(self).extra_keyspaces@ == old(
                    self,
                ).extra_keyspaces@.insert(keyspace_id, ())
            } else {
                r == Err::<(), InternalError>(InternalError::WrongGroup(keyspace_id))
                    && *final(self) == *old(self)
            },
    {
        if keyspace_id.0 != self.colo_group_id {
            return Err(InternalError::WrongGroup(keyspace_id));
        }
        self.extra_keyspaces.insert(keyspace_id, ());
        Ok(())
    }

    /// The keyspaces to create once the data is there.
    pub fn finish(&self) -> (r: Vec<KeyspaceId>)
        requires
            self.extra_keyspaces.wf(),
        ensures
            r@ == all_keyspaces_of(self.extra_keyspaces.keys()),
    {
        let ghost ids = self.extra_keyspaces.keys();
        let mut out: Vec<KeyspaceId> = Vec::new();
        let mut i: usize = 0;
        assert(ids.take(0) =~= Seq::empty());
        while i < self.extra_keyspaces.entries.len()
            invariant
                i <= self.extra_keyspaces.entries@.len(),
                ids == self.extra_keyspaces.keys(),
                out@ == all_keyspaces_of(ids.take(i as int)),
            decreases self.extra_keyspaces.entries@.len() - i,
        {
            let id = self.extra_keyspaces.entries[i].0;
            let ghost before = out@;
            out.push(id);
            if let Some(pending) = id.pending() {
                out.push(pending);
            }
            if let Some(precond) = id.precond() {
                out.push(precond);
            }
            proof {
                assert(out@ =~= before + keyspaces_of(id));
                assert(ids.take(i + 1).drop_last() =~= ids.take(i as int));
                assert(ids.take(i + 1).last() == id);
            }
            i += 1;
        }
        assert(ids.take(i as int) =~= ids);
        out
    }

    /// Whether the wait for most of the data is over.
    pub fn wait_mostly_hydrated(&self) -> (r: Result<bool, InternalError>)
        ensures
            r == match self.state {
                HydrationState::Started => Ok::<bool, InternalError>(false),
                HydrationState::Mostly => Ok(true),
                other => Err(InternalError::WrongHydration(other)),
            },
    {
        match self.state {
            HydrationState::Started => Ok(false),
            HydrationState::Mostly => Ok(true),
            other => Err(InternalError::WrongHydration(other)),
        }
    }

    /// Says that the sources are frozen, and whether the wait for the rest of the data is over.
    pub fn catchup(&mut self) -> (r: Result<bool, InternalError>)
        ensures
            *final(self) == (HydratingTablet { state: final(self).state, ..*old(self) }),
            final(self).state == if old(self).state == HydrationState::Mostly {
                HydrationState::Catchup
            } else {
                old(self).state
            },
            r == match old(self).state {
                HydrationState::Started => Err::<bool, InternalError>(
                    InternalError::WrongHydration(HydrationState::Started),
                ),
                HydrationState::Mostly => Ok(false),
                HydrationState::Catchup => Ok(false),
                HydrationState::Done => Ok(true),
            },
    {
        match self.state {
            HydrationState::Started => Err(InternalError::WrongHydration(HydrationState::Started)),
            HydrationState::Mostly => {
                self.state = HydrationState::Catchup;
                Ok(false)
            },
            HydrationState::Catchup => Ok(false),
            HydrationState::Done => Ok(true),
        }
    }

    /// Whether all runs of a source can be copied or left out as a whole. Compaction at the source
    /// will eventually split those that cannot.
    pub fn runs_complete(&self, runs: &Vec<Range<Vec<u8>>>) -> (r: bool)
        ensures
            r == all_whole(self.range@, runs@),
    {
        let mut complete = true;
        let mut i: usize = 0;
        while i < runs.len()
            invariant
                i <= runs@.len(),
                complete == all_whole(self.range@, runs@.take(i as int)),
            decreases runs@.len() - i,
        {
            let whole = self.range.contains_range(&runs[i]) || !self.range.intersects(&runs[i]);
            proof {
                let s = runs@.take(i as int);
                let t = runs@.take(i + 1);
                assert(forall|j: int| 0 <= j < i ==> s[j] == t[j]);
                assert(t[i as int] == runs@[i as int]);
                if all_whole(self.range@, t) {
                    assert(copies_whole(self.range@, t[i as int]@));
                    assert forall|j: int| 0 <= j < s.len() implies copies_whole(
                        self.range@,
                        (#[trigger] s[j])@,
                    ) by {
                        assert(copies_whole(self.range@, t[j]@));
                    }
                }
                if all_whole(self.range@, s) && whole {
                    assert forall|j: int| 0 <= j < t.len() implies copies_whole(
                        self.range@,
                        (#[trigger] t[j])@,
                    ) by {
                        if j < i {
                            assert(copies_whole(self.range@, s[j]@));
                        }
                    }
                }
            }
            if !whole {
                complete = false;
            }
            i += 1;
        }
        assert(runs@.take(i as int) =~= runs@);
        complete
    }

    /// Whether the sources were frozen when a round starts, so that it can be the last.
    pub fn start_round(&self) -> (r: bool)
        ensures
            r == (self.state == HydrationState::Catchup),
    {
        match self.state {
            HydrationState::Catchup => true,
            _ => false,
        }
    }

    /// Ends a round in which all runs of all sources were, or were not, copied or left out as a
    /// whole. Says whether it was the last.
    pub fn end_round(&mut self, done_after_round: bool, complete: bool) -> (r: bool)
        requires
            old(self).rounds_with_completed < u64::MAX,
        ensures
            r == (done_after_round && complete),
            *final(self) == (HydratingTablet {
                state: final(self).state,
                rounds_with_completed: final(self).rounds_with_completed,
                ..*old(self)
            }),
            final(self).rounds_with_completed == if complete && !r {
                old(self).rounds_with_completed + 1
            } else {
                old(self).rounds_with_completed as int
            },
            final(self).state == if r {
                HydrationState::Done
            } else if complete && old(self).rounds_with_completed + 1 == ROUNDS_UNTIL_MOSTLY
                && old(self).state == HydrationState::Started {
                HydrationState::Mostly
            } else {
                old(self).state
            },
    {
        if done_after_round && complete {
            self.state = HydrationState::Done;
            return true;
        }
        if complete {
            self.rounds_with_completed = self.rounds_with_completed + 1;
            if self.rounds_with_completed == ROUNDS_UNTIL_MOSTLY {
                if let HydrationState::Started = self.state {
                    self.state = HydrationState::Mostly;
                }
            }
        }
        false
    }
}

/// Where all runs can be copied or left out as a whole, each key of the tablet that lies in a run
/// lies in a run that is copied.
pub proof fn law_whole_runs_cover(range: Range<Seq<u8>>, run: Range<Seq<u8>>, k: Seq<u8>)
    requires
        copies_whole(range, run),
        range.has(k),
        run.has(k),
    ensures
        range.encloses(run),
{
    law_range_meet(range, run, range.lower, k);
    if range.meet(run).vacant() {
        law_vacant_range(range.meet(run), range.lower, k);
    }
}

} // verus!
