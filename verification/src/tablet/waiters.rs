//! Who waits for the outcome of a transaction.

use std::collections::VecDeque;

use vstd::prelude::*;

use crate::types::data::Txid;
use crate::util::ordmap::OrdMap;

verus! {

/// How long, in nanoseconds, a transaction is waited for before it is aborted.
pub const WAIT_ABORT_TIMEOUT_NANOS: u64 = 1_000_000_000;

/// The transactions that are waited for, and when the first wait for each began.
pub struct Waiters {
    pub by_txid: OrdMap<Txid, ()>,
    pub by_oldest_waiter: VecDeque<(u64, Txid)>,
}

impl Waiters {
    pub open spec fn wf(self) -> bool {
        self.by_txid.wf()
    }

    /// Whether anyone waits for a transaction.
    pub open spec fn waited(self, txid: Txid) -> bool {
        self.by_txid@.contains_key(txid)
    }

    pub fn new() -> (r: Self)
        ensures
            r.wf(),
            forall|t: Txid| !#[trigger] r.waited(t),
            r.by_oldest_waiter@.len() == 0,
    {
        Waiters { by_txid: OrdMap::new(), by_oldest_waiter: VecDeque::new() }
    }

    /// Waits for a transaction from `now` on. The first who waits lines it up for being aborted,
    /// and is told so.
    pub fn wait(&mut self, now: u64, txid: Txid) -> (new: bool)
        requires
            old(self).wf(),
        ensures
            final(self).wf(),
            new == !old(self).waited(txid),
            forall|t: Txid| #[trigger]
                final(self).waited(t) == (old(self).waited(t) || t == txid),
            final(self).by_oldest_waiter@ == if new {
                old(self).by_oldest_waiter@.push((now, txid))
            } else {
                old(self).by_oldest_waiter@
            },
    {
        let new = !self.by_txid.contains_key(&txid);
        if new {
            self.by_txid.insert(txid, ());
            self.by_oldest_waiter.push_back((now, txid));
        }
        new
    }

    /// Ends the waits for a transaction. Says whether there were any.
    pub fn notify(&mut self, txid: Txid) -> (r: bool)
        requires
            old(self).wf(),
        ensures
            final(self).wf(),
            r == old(self).waited(txid),
            forall|t: Txid| #[trigger]
                final(self).waited(t) == (old(self).waited(t) && t != txid),
            final(self).by_oldest_waiter@ == old(self).by_oldest_waiter@,
    {
        self.by_txid.remove(&txid).is_some()
    }

    /// The transaction that is next in line for being aborted, and since when it was waited for.
    pub fn pop_oldest(&mut self) -> (r: Option<(u64, Txid)>)
        ensures
            final(self).by_txid == old(self).by_txid,
            match r {
                Some(first) => old(self).by_oldest_waiter@.len() > 0 && first
                    == old(self).by_oldest_waiter@[0] && final(self).by_oldest_waiter@
                    == old(self).by_oldest_waiter@.drop_first(),
                None => old(self).by_oldest_waiter@.len() == 0 && final(self).by_oldest_waiter@
                    == old(self).by_oldest_waiter@,
            },
    {
        let ghost before = self.by_oldest_waiter@;
        let r = self.by_oldest_waiter.pop_front();
        proof {
            if r is Some {
                assert(self.by_oldest_waiter@ =~= before.drop_first());
            }
        }
        r
    }
}

/// How long, in nanoseconds, is left before a transaction is aborted that was waited for since
/// `since`.
pub fn remaining_wait(since: u64, now: u64) -> (r: u64)
    ensures
        r == if now <= since {
            WAIT_ABORT_TIMEOUT_NANOS as int
        } else if now - since >= WAIT_ABORT_TIMEOUT_NANOS {
            0
        } else {
            WAIT_ABORT_TIMEOUT_NANOS - (now - since)
        },
{
    let elapsed: u64 = if now <= since {
        0
    } else {
        now - since
    };
    if elapsed >= WAIT_ABORT_TIMEOUT_NANOS {
        0
    } else {
        WAIT_ABORT_TIMEOUT_NANOS - elapsed
    }
}

} // verus!
