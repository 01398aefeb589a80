//! Tablets of the data of users, which are made, transferred and disposed of.

use vstd::prelude::*;

use super::hydrating_tablet::{all_keyspaces_of, HydratingTablet};
use super::tablet_inner::{keyspaces_of, TabletInner};
use crate::meta::{TabletState, TransferState};
use crate::range::{Bound, Range};
use crate::types::error::InternalError;
use crate::types::{ColoGroupId, KeyspaceId, TabletId};

verus! {

/// What is asked of a tablet.
#[derive(Clone, Copy, Debug, PartialEq, Eq, Structural)]
pub enum TabletRequest {
    GetMulti,
    GetLatestMulti,
    LatestSnapshot,
    ScanPage,
    HistoryPage,
    Write,
    Prepare,
    CleanupCommitted,
    Manifest,
    WaitMostlyHydrated,
    Catchup,
    FindSplit,
    Flush,
}

impl TabletRequest {
    /// Whether a request only reads data.
    pub open spec fn reads(self) -> bool {
        self is GetMulti || self is GetLatestMulti || self is LatestSnapshot || self is ScanPage
            || self is HistoryPage
    }

    /// Whether a request is about how far a tablet is with copying.
    pub open spec fn hydrates(self) -> bool {
        self is WaitMostlyHydrated || self is Catchup
    }

    /// Whether a tablet takes a request in a state: reads where it is readable, requests about
    /// copying where it copies, the question for its runs where it has data, and the others where
    /// it is writable.
    pub open spec fn allowed(self, state: TabletState) -> bool {
        if self.reads() {
            state.properties().readable
        } else if self.hydrates() {
            state.properties().hydrating
        } else if self is Manifest {
            state.properties().readable || state.properties().hydrating
        } else {
            state.properties().writable
        }
    }

    /// Whether a tablet takes a request in a state.
    pub fn is_allowed(self, state: TabletState) -> (r: bool)
        ensures
            r == self.allowed(state),
    {
        let properties = state.properties();
        match self {
            TabletRequest::GetMulti
            | TabletRequest::GetLatestMulti
            | TabletRequest::LatestSnapshot
            | TabletRequest::ScanPage
            | TabletRequest::HistoryPage => properties.readable,
            TabletRequest::WaitMostlyHydrated | TabletRequest::Catchup => properties.hydrating,
            TabletRequest::Manifest => properties.readable || properties.hydrating,
            TabletRequest::Write
            | TabletRequest::Prepare
            | TabletRequest::CleanupCommitted
            | TabletRequest::FindSplit
            | TabletRequest::Flush => properties.writable,
        }
    }
}

/// What a tablet holds in each of its states.
pub enum DataState {
    Defunct,
    Hydrating(HydratingTablet),
    /// With the bounds at which the data is kept apart, for tablets that copy it.
    Active(Vec<Bound<Vec<u8>>>),
    Frozen,
}

/// Whether a tablet can go from one state to another.
pub open spec fn can_become(from: TabletState, to: TabletState) -> bool {
    match to {
        TabletState::Hydrating => from is Hydrating,
        TabletState::Active => from is Active || from is Frozen,
        TabletState::Frozen => !(from is Defunct),
        TabletState::Defunct => !(from is Active),
    }
}

/// Each step of a transfer, and each step that aborts one, asks of the sources and of the
/// destinations for a state that they can go to.
pub proof fn law_transfer_steps_are_possible(curr: TransferState, next: TransferState)
    requires
        curr.leads_to(next),
    ensures
        can_become(curr.tablet_states().0, next.tablet_states().0),
        can_become(curr.tablet_states().1, next.tablet_states().1),
{
}

/// A tablet that is defunct stays so.
pub proof fn law_defunct_is_final(to: TabletState)
    ensures
        can_become(TabletState::Defunct, to) ==> to == TabletState::Defunct,
{
}

/// A tablet of the data of users.
pub struct DataTablet {
    pub tablet_id: TabletId,
    pub colo_group_id: ColoGroupId,
    pub range: Range<Vec<u8>>,
    pub state: DataState,
}

impl DataTablet {
    pub open spec fn wf(self) -> bool {
        self.state matches DataState::Hydrating(h) ==> h.extra_keyspaces.wf() && h.colo_group_id
            == self.colo_group_id
    }

    /// Whether two tablets are the same but for their state.
    pub open spec fn same_but_state(self, other: DataTablet) -> bool {
        self.tablet_id == other.tablet_id && self.colo_group_id == other.colo_group_id
            && self.range == other.range
    }

    pub open spec fn kind_spec(&self) -> TabletState {
        match self.state {
            DataState::Defunct => TabletState::Defunct,
            DataState::Hydrating(_) => TabletState::Hydrating,
            DataState::Active(_) => TabletState::Active,
            DataState::Frozen => TabletState::Frozen,
        }
    }

    /// The state that the tablet is in.
    #[verifier::when_used_as_spec(kind_spec)]
    pub fn kind(&self) -> (r: TabletState)
        ensures
            r == self.kind_spec(),
    {
        match &self.state {
            DataState::Defunct => TabletState::Defunct,
            DataState::Hydrating(_) => TabletState::Hydrating,
            DataState::Active(_) => TabletState::Active,
            DataState::Frozen => TabletState::Frozen,
        }
    }

    pub open spec fn name_spec(state: TabletState) -> &'static str {
        match state {
            TabletState::Defunct => "DEFUNCT",
            TabletState::Hydrating => "HYDRATING",
            TabletState::Active => "ACTIVE",
            TabletState::Frozen => "FROZEN",
        }
    }

    /// The name of the state that the tablet is in.
    pub fn name(&self) -> (r: &'static str)
        ensures
            r == Self::name_spec(self.kind()),
    {
        match &self.state {
            DataState::Defunct => "DEFUNCT",
            DataState::Hydrating(_) => "HYDRATING",
            DataState::Active(_) => "ACTIVE",
            DataState::Frozen => "FROZEN",
        }
    }

    /// A tablet that copies the data of other tablets.
    pub fn new_hydrating(
        tablet_id: TabletId,
        colo_group_id: ColoGroupId,
        range: Range<Vec<u8>>,
        srcs: Vec<TabletId>,
    ) -> (r: Self)
        ensures
            r.wf(),
            r.tablet_id == tablet_id,
            r.colo_group_id == colo_group_id,
            r.range@ == range@,
            r.state matches DataState::Hydrating(h) && h.tablet_id == tablet_id && h.colo_group_id
                == colo_group_id && h.range@ == range@ && h.srcs == srcs && h.state is Started
                && h.rounds_with_completed == 0 && h.extra_keyspaces@ == Map::<KeyspaceId, ()>::empty(),
    {
        let copied = range.clone();
        DataTablet {
            tablet_id,
            colo_group_id,
            range,
            state: DataState::Hydrating(
                HydratingTablet::new(tablet_id, colo_group_id, copied, srcs),
            ),
        }
    }

    /// A tablet that serves reads and writes.
    pub fn new_active(
        tablet_id: TabletId,
        colo_group_id: ColoGroupId,
        range: Range<Vec<u8>>,
    ) -> (r: Self)
        ensures
            r.wf(),
            r.tablet_id == tablet_id,
            r.colo_group_id == colo_group_id,
            r.range == range,
            r.state matches DataState::Active(splits) && splits@.len() == 0,
    {
        DataTablet { tablet_id, colo_group_id, range, state: DataState::Active(Vec::new()) }
    }

    /// Sets the bounds at which the data is kept apart. Only a tablet that takes writes heeds them.
    pub fn set_splits(&mut self, splits: Vec<Bound<Vec<u8>>>)
        requires
            old(self).wf(),
        ensures
            final(self).wf(),
            final(self).same_but_state(*old(self)),
            final(self).state == if old(self).state is Active {
                DataState::Active(splits)
            } else {
                old(self).state
            },
    {
        if let TabletState::Active = self.kind() {
            self.state = DataState::Active(splits);
        }
    }

    /// Stops the writes. A tablet that copies has to have ended with copying: it goes defunct
    /// where that failed, and otherwise gets keyspaces to create.
    pub fn transition_frozen(&mut self, hydrated: bool) -> (r: Result<
        Vec<KeyspaceId>,
        InternalError,
    >)
        requires
            old(self).wf(),
        ensures
            final(self).wf(),
            final(self).same_but_state(*old(self)),
            match old(self).state {
                DataState::Hydrating(h) => if hydrated {
                    &&& final(self).state is Frozen
                    &&& r matches Ok(ids)
                    &&& ids@ == all_keyspaces_of(h.extra_keyspaces.keys())
                } else {
                    final(self).state is Defunct && r == Err::<Vec<KeyspaceId>, InternalError>(
                        InternalError::HydrationFailed(old(self).tablet_id),
                    )
                },
                DataState::Active(_) | DataState::Frozen => {
                    &&& final(self).state is Frozen
                    &&& r matches Ok(ids)
                    &&& ids@.len() == 0
                },
                DataState::Defunct => final(self).state is Defunct && r == Err::<
                    Vec<KeyspaceId>,
                    InternalError,
                >(InternalError::WrongState(old(self).tablet_id, TabletState::Defunct)),
            },
    {
        let r = match &self.state {
            DataState::Hydrating(hydrating) => if hydrated {
                Ok(hydrating.finish())
            } else {
                Err(InternalError::HydrationFailed(self.tablet_id))
            },
            DataState::Frozen | DataState::Active(_) => Ok(Vec::new()),
            DataState::Defunct => Err(
                InternalError::WrongState(self.tablet_id, TabletState::Defunct),
            ),
        };
        self.state = if r.is_ok() {
            DataState::Frozen
        } else {
            DataState::Defunct
        };
        r
    }

    /// Stops all service. A tablet that takes writes has to be frozen first.
    pub fn transition_defunct(&mut self) -> (r: Result<(), InternalError>)
        requires
            old(self).wf(),
        ensures
            final(self).wf(),
            final(self).same_but_state(*old(self)),
            if old(self).state is Active {
                final(self).state == old(self).state && r == Err::<(), InternalError>(
                    InternalError::WrongState(old(self).tablet_id, TabletState::Active),
                )
            } else {
                final(self).state is Defunct && r == Ok::<(), InternalError>(())
            },
    {
        if let TabletState::Active = self.kind() {
            return Err(InternalError::WrongState(self.tablet_id, TabletState::Active));
        }
        self.state = DataState::Defunct;
        Ok(())
    }

    /// Starts to take writes. A tablet that copies has to be frozen first.
    pub fn transition_active(&mut self) -> (r: Result<(), InternalError>)
        requires
            old(self).wf(),
        ensures
            final(self).wf(),
            final(self).same_but_state(*old(self)),
            match old(self).state {
                DataState::Frozen => {
                    &&& r == Ok::<(), InternalError>(())
                    &&& final(self).state matches DataState::Active(splits)
                    &&& splits@.len() == 0
                },
                DataState::Active(_) => r == Ok::<(), InternalError>(()) && final(self).state
                    == old(self).state,
                _ => final(self).state == old(self).state && r == Err::<(), InternalError>(
                    InternalError::WrongState(old(self).tablet_id, old(self).kind()),
                ),
            },
    {
        match self.kind() {
            TabletState::Frozen => {
                self.state = DataState::Active(Vec::new());
                Ok(())
            },
            TabletState::Active => Ok(()),
            other => Err(InternalError::WrongState(self.tablet_id, other)),
        }
    }

    pub fn is_hydrating(&self) -> (r: bool)
        ensures
            r == (self.state is Hydrating),
    {
        match &self.state {
            DataState::Hydrating(_) => true,
            _ => false,
        }
    }

    /// Whether the tablet takes a request in the state that it is in.
    pub fn check_request(&self, request: TabletRequest) -> (r: Result<(), InternalError>)
        ensures
            r == if request.allowed(self.kind()) {
                Ok::<(), InternalError>(())
            } else {
                Err(InternalError::WrongState(self.tablet_id, self.kind()))
            },
    {
        let state = self.kind();
        if request.is_allowed(state) {
            Ok(())
        } else {
            Err(InternalError::WrongState(self.tablet_id, state))
        }
    }

    /// The keyspaces to create for a keyspace: none yet where the tablet copies, and none ever
    /// where it is defunct.
    pub fn create_keyspace(&mut self, keyspace_id: KeyspaceId) -> (r: Result<
        Vec<KeyspaceId>,
        InternalError,
    >)
        requires
            old(self).wf(),
        ensures
            final(self).wf(),
            final(self).same_but_state(*old(self)),
            final(self).kind() == old(self).kind(),
            match old(self).state {
                DataState::Defunct => {
                    &&& *final(self) == *old(self)
                    &&& r matches Ok(ids)
                    &&& ids@.len() == 0
                },
                DataState::Frozen => *final(self) == *old(self) && r == Err::<
                    Vec<KeyspaceId>,
                    InternalError,
                >(InternalError::WrongState(old(self).tablet_id, TabletState::Frozen)),
                DataState::Active(_) => *final(self) == *old(self) && match r {
                    Ok(ids) => keyspace_id.0 == old(self).colo_group_id && ids@ == keyspaces_of(
                        keyspace_id,
                    ),
                    Err(e) => keyspace_id.0 != old(self).colo_group_id && e
                        == InternalError::WrongGroup(keyspace_id),
                },
                DataState::Hydrating(h) => match r {
                    Ok(ids) => {
                        &&& keyspace_id.0 == old(self).colo_group_id
                        &&& ids@.len() == 0
                        &&& final(self).state matches DataState::Hydrating(g)
                        &&& g.extra_keyspaces@ == h.extra_keyspaces@.insert(keyspace_id, ())
                        &&& g == (HydratingTablet { extra_keyspaces: g.extra_keyspaces, ..h })
                    },
                    Err(e) => *final(self) == *old(self) && keyspace_id.0 != old(
                        self,
                    ).colo_group_id && e == InternalError::WrongGroup(keyspace_id),
                },
            },
    {
        match &mut self.state {
            DataState::Defunct => Ok(Vec::new()),
            DataState::Hydrating(hydrating) => match hydrating.create_keyspace(keyspace_id) {
                Ok(()) => Ok(Vec::new()),
                Err(e) => Err(e),
            },
            DataState::Active(_) => {
                let inner = TabletInner::new(
                    self.tablet_id,
                    self.colo_group_id,
                    self.range.clone(),
                );
                inner.create_keyspace(keyspace_id)
            },
            DataState::Frozen => Err(
                InternalError::WrongState(self.tablet_id, TabletState::Frozen),
            ),
        }
    }
}

} // verus!
