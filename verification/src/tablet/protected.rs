//! What a tablet may be used for, according to the state that it is in.

use std::collections::HashMap;

use vstd::prelude::*;

use crate::meta::{TabletState, TabletStateProperties};
use crate::types::error::InternalError;
use crate::types::TabletId;

verus! {

broadcast use vstd::std_specs::hash::group_hash_axioms;

/// A value that seldom changes, with the number of its users. Who changes it can wait until nobody
/// uses the value that was there before.
pub struct InfrequentlyChanged<T> {
    pub item: T,
    /// Counts the values.
    pub version: u64,
    /// How many use a value, by its number. Values that nobody uses are not in it.
    pub guards: HashMap<u64, u64>,
}

impl<T> InfrequentlyChanged<T> {
    pub open spec fn wf(self) -> bool {
        &&& forall|v: u64| #[trigger]
            self.guards@.contains_key(v) ==> v <= self.version && self.guards@[v] > 0
    }

    /// How many use a value.
    pub open spec fn users(self, version: u64) -> nat {
        if self.guards@.contains_key(version) {
            self.guards@[version] as nat
        } else {
            0
        }
    }

    pub fn new(init: T) -> (r: Self)
        ensures
            r.wf(),
            r.item == init,
            r.version == 0,
            forall|v: u64| r.users(v) == 0,
    {
        InfrequentlyChanged { item: init, version: 0, guards: HashMap::new() }
    }

    fn count(&self, version: u64) -> (r: u64)
        ensures
            r == self.users(version),
    {
        match self.guards.get(&version) {
            Some(n) => *n,
            None => 0,
        }
    }

    /// Starts to use the value, until the guard with the returned number is dropped.
    pub fn load(&mut self) -> (r: u64)
        requires
            old(self).wf(),
            old(self).users(old(self).version) < u64::MAX,
        ensures
            final(self).wf(),
            r == old(self).version,
            final(self).item == old(self).item,
            final(self).version == old(self).version,
            forall|v: u64|
                final(self).users(v) == if v == r {
                    old(self).users(v) + 1
                } else {
                    old(self).users(v)
                },
    {
        let n: u64 = self.count(self.version);
        self.guards.insert(self.version, n + 1);
        self.version
    }

    /// Stops to use a value. Says whether it was the last use of a value that was changed, so that
    /// who waits for that is woken.
    pub fn drop_guard(&mut self, version: u64) -> (r: bool)
        requires
            old(self).wf(),
            old(self).users(version) > 0,
        ensures
            final(self).wf(),
            final(self).item == old(self).item,
            final(self).version == old(self).version,
            forall|v: u64|
                final(self).users(v) == if v == version {
                    old(self).users(v) - 1
                } else {
                    old(self).users(v) as int
                },
            r == (version != old(self).version && old(self).users(version) == 1),
    {
        let n: u64 = self.count(version);
        if n == 1 {
            self.guards.remove(&version);
            version != self.version
        } else {
            self.guards.insert(version, n - 1);
            false
        }
    }

    /// Changes the value. Returns the number of the value that was there before.
    pub fn store(&mut self, item: T) -> (r: u64)
        requires
            old(self).wf(),
            old(self).version < u64::MAX,
        ensures
            final(self).wf(),
            final(self).item == item,
            r == old(self).version,
            final(self).version == old(self).version + 1,
            forall|v: u64| final(self).users(v) == old(self).users(v),
    {
        let prev: u64 = self.version;
        self.item = item;
        self.version = prev + 1;
        prev
    }

    /// Whether nobody uses a value.
    pub fn is_drained(&self, version: u64) -> (r: bool)
        ensures
            r == (self.users(version) == 0),
    {
        self.count(version) == 0
    }
}

/// Guards what a tablet may be used for.
pub struct ProtectedLsm {
    pub tablet_id: TabletId,
    pub state: InfrequentlyChanged<TabletStateProperties>,
}

impl ProtectedLsm {
    pub open spec fn wf(self) -> bool {
        self.state.wf()
    }

    /// Whether a call only starts to use the state.
    pub open spec fn loaded(self, old: ProtectedLsm) -> bool {
        &&& self.wf()
        &&& self.tablet_id == old.tablet_id
        &&& self.state.item == old.state.item
        &&& self.state.version == old.state.version
        &&& forall|v: u64|
            self.state.users(v) == if v == old.state.version {
                old.state.users(v) + 1
            } else {
                old.state.users(v)
            }
    }

    pub fn new(tablet_id: TabletId, initial: TabletState) -> (r: Self)
        ensures
            r.wf(),
            r.tablet_id == tablet_id,
            r.state.item == initial.properties(),
            r.state.version == 0,
            forall|v: u64| r.state.users(v) == 0,
    {
        ProtectedLsm { tablet_id, state: InfrequentlyChanged::new(initial.properties()) }
    }

    /// Changes the state. Returns the number of the state before, which uses may still rest on.
    pub fn set_state(&mut self, state: TabletState) -> (r: u64)
        requires
            old(self).wf(),
            old(self).state.version < u64::MAX,
        ensures
            final(self).wf(),
            final(self).tablet_id == old(self).tablet_id,
            final(self).state.item == state.properties(),
            r == old(self).state.version,
            final(self).state.version == r + 1,
            forall|v: u64| final(self).state.users(v) == old(self).state.users(v),
    {
        self.state.store(state.properties())
    }

    /// Starts a read, where the tablet serves reads.
    pub fn read(&mut self) -> (r: Result<u64, InternalError>)
        requires
            old(self).wf(),
            old(self).state.users(old(self).state.version) < u64::MAX,
        ensures
            if old(self).state.item.readable {
                r == Ok::<u64, InternalError>(old(self).state.version) && final(self).loaded(
                    *old(self),
                )
            } else {
                r == Err::<u64, InternalError>(
                    InternalError::TabletNotReadable(old(self).tablet_id),
                ) && *final(self) == *old(self)
            },
    {
        if !self.state.item.readable {
            return Err(InternalError::TabletNotReadable(self.tablet_id));
        }
        Ok(self.state.load())
    }

    /// Starts a write, where the tablet serves reads and writes.
    pub fn read_write(&mut self) -> (r: Result<u64, InternalError>)
        requires
            old(self).wf(),
            old(self).state.users(old(self).state.version) < u64::MAX,
        ensures
            if old(self).state.item.readable && old(self).state.item.writable {
                r == Ok::<u64, InternalError>(old(self).state.version) && final(self).loaded(
                    *old(self),
                )
            } else {
                r == Err::<u64, InternalError>(
                    InternalError::TabletNotWriteable(old(self).tablet_id),
                ) && *final(self) == *old(self)
            },
    {
        if self.state.item.readable && self.state.item.writable {
            return Ok(self.state.load());
        }
        Err(InternalError::TabletNotWriteable(self.tablet_id))
    }

    /// Starts to take over copied data, where the tablet copies.
    pub fn load(&mut self) -> (r: Result<u64, InternalError>)
        requires
            old(self).wf(),
            old(self).state.users(old(self).state.version) < u64::MAX,
        ensures
            if old(self).state.item.hydrating {
                r == Ok::<u64, InternalError>(old(self).state.version) && final(self).loaded(
                    *old(self),
                )
            } else {
                r == Err::<u64, InternalError>(
                    InternalError::TabletNotHydrating(old(self).tablet_id),
                ) && *final(self) == *old(self)
            },
    {
        if self.state.item.hydrating {
            return Ok(self.state.load());
        }
        Err(InternalError::TabletNotHydrating(self.tablet_id))
    }
}

} // verus!
