//! A store that takes no writes.

use vstd::prelude::*;

use super::journaled_lsm::JournaledLsm;

verus! {

/// A store without the means to write.
pub struct ReadOnlyLsm<L> {
    pub lsm: L,
}

impl<L> ReadOnlyLsm<L> {
    pub fn new(lsm: L) -> (r: Self)
        ensures
            r.lsm == lsm,
    {
        ReadOnlyLsm { lsm }
    }

    /// The same store, with a journal to which its writes go first.
    pub fn make_writeable<J>(self, journal: J) -> (r: JournaledLsm<L, J>)
        ensures
            r.lsm == self.lsm,
            r.journal == journal,
    {
        JournaledLsm::new(self.lsm, journal)
    }
}

} // verus!
