//! Lets the cleanup of a pending record wait for the scans that are going on.
//!
//! Cleaning up a pending record makes a real record of it, in two steps: the real record is added,
//! then the pending record is removed. A scan that looks at the real records first and at the
//! pending records last could miss both. So between the two steps a cleanup is started, which waits
//! for all scans that were started before it: each scan then sees at least one of the pair.

use vstd::prelude::*;

use crate::util::ordmap::OrdMap;

verus! {

/// The scans that are going on, and the cleanups that wait for some of them.
pub struct ScanLocks {
    /// Numbers the operations in the order in which they start.
    pub next_seq: usize,
    pub scans: OrdMap<usize, ()>,
    pub cleanups: OrdMap<usize, ()>,
}

/// A cleanup that was started.
#[derive(Clone, Copy, Debug, PartialEq, Eq, Structural)]
pub struct Cleanup {
    pub seq: usize,
    /// Whether it has to wait until it is woken.
    pub waits: bool,
}

/// Something that happens to the locks.
pub enum ScanLocksStep {
    /// A scan starts.
    Scan(usize),
    /// A cleanup starts.
    Cleanup(Cleanup),
    /// A scan ends, and cleanups are woken.
    EndScan(usize, Seq<usize>),
    /// A cleanup ends.
    EndCleanup(usize),
}

/// What a step does to the locks.
pub open spec fn stepped(a: ScanLocks, step: ScanLocksStep, b: ScanLocks) -> bool {
    &&& a.wf() && b.wf()
    &&& match step {
        ScanLocksStep::Scan(seq) => {
            &&& seq == a.next_seq
            &&& b.next_seq == a.next_seq + 1
            &&& b.scans@ == a.scans@.insert(seq, ())
            &&& b.cleanups@ == a.cleanups@
        },
        ScanLocksStep::Cleanup(cleanup) => {
            &&& cleanup.seq == a.next_seq
            &&& cleanup.waits == (a.scans@ != Map::<usize, ()>::empty())
            &&& b.next_seq == a.next_seq + 1
            &&& b.scans@ == a.scans@
            &&& b.cleanups@ == if cleanup.waits {
                a.cleanups@.insert(cleanup.seq, ())
            } else {
                a.cleanups@
            }
        },
        ScanLocksStep::EndScan(seq, woken) => {
            &&& b.next_seq == a.next_seq
            &&& b.scans@ == a.scans@.remove(seq)
            &&& forall|c: usize| #[trigger]
                a.cleanups@.contains_key(c) ==> woken.contains(c) == !b.has_scan_before(c)
            &&& forall|c: usize| #[trigger] woken.contains(c) ==> !b.has_scan_before(c)
            &&& forall|c: usize| #[trigger]
                b.cleanups@.contains_key(c) <==> a.cleanups@.contains_key(c) && b.has_scan_before(c)
        },
        ScanLocksStep::EndCleanup(seq) => {
            &&& b.next_seq == a.next_seq
            &&& b.scans@ == a.scans@
            &&& b.cleanups@ == a.cleanups@.remove(seq)
        },
    }
}

impl ScanLocks {
    /// Every cleanup that waits does so for a scan that was started before it.
    pub open spec fn wf(self) -> bool {
        &&& self.scans.wf()
        &&& self.cleanups.wf()
        &&& forall|s: usize| #[trigger] self.scans@.contains_key(s) ==> s < self.next_seq
        &&& forall|c: usize| #[trigger]
            self.cleanups@.contains_key(c) ==> c < self.next_seq && self.has_scan_before(c)
                && !self.scans@.contains_key(c)
    }

    /// Whether a scan is going on that was started before some operation.
    pub open spec fn has_scan_before(self, seq: usize) -> bool {
        exists|s: usize| #[trigger] self.scans@.contains_key(s) && s < seq
    }

    pub fn new() -> (r: Self)
        ensures
            r.wf(),
            r.next_seq == 0,
            r.scans@ == Map::<usize, ()>::empty(),
            r.cleanups@ == Map::<usize, ()>::empty(),
    {
        ScanLocks { next_seq: 0, scans: OrdMap::new(), cleanups: OrdMap::new() }
    }

    /// Starts a scan.
    pub fn scan(&mut self) -> (r: usize)
        requires
            old(self).wf(),
            old(self).next_seq < usize::MAX,
        ensures
            stepped(*old(self), ScanLocksStep::Scan(r), *final(self)),
            final(self).wf(),
            r == old(self).next_seq,
            final(self).next_seq == old(self).next_seq + 1,
            final(self).scans@ == old(self).scans@.insert(r, ()),
            final(self).cleanups == old(self).cleanups,
    {
        let seq: usize = self.next_seq;
        self.next_seq = seq + 1;
        self.scans.insert(seq, ());
        proof {
            assert forall|c: usize| #[trigger] self.cleanups@.contains_key(c) implies c
                < self.next_seq && self.has_scan_before(c) && !self.scans@.contains_key(c) by {
                assert(old(self).has_scan_before(c));
                let s = choose|s: usize| #[trigger]
                    old(self).scans@.contains_key(s) && s < c;
                assert(self.scans@.contains_key(s));
            }
        }
        seq
    }

    /// Starts a cleanup, which waits where any scan is going on.
    pub fn cleanup(&mut self) -> (r: Cleanup)
        requires
            old(self).wf(),
            old(self).next_seq < usize::MAX,
        ensures
            stepped(*old(self), ScanLocksStep::Cleanup(r), *final(self)),
            final(self).wf(),
            r.seq == old(self).next_seq,
            r.waits == (old(self).scans@ != Map::<usize, ()>::empty()),
            r.waits == old(self).has_scan_before(r.seq),
            final(self).next_seq == old(self).next_seq + 1,
            final(self).scans == old(self).scans,
            final(self).cleanups@ == if r.waits {
                old(self).cleanups@.insert(r.seq, ())
            } else {
                old(self).cleanups@
            },
    {
        let seq: usize = self.next_seq;
        self.next_seq = seq + 1;
        if self.scans.is_empty() {
            return Cleanup { seq, waits: false };
        }
        proof {
            assert(self.scans.entries@.len() > 0) by {
                if self.scans.entries@.len() == 0 {
                    assert(self.scans@ =~= Map::<usize, ()>::empty());
                }
            }
            self.scans.lemma_entry(0);
            assert(old(self).has_scan_before(seq));
        }
        self.cleanups.insert(seq, ());
        proof {
            assert forall|c: usize| #[trigger] self.cleanups@.contains_key(c) implies c
                < self.next_seq && self.has_scan_before(c) && !self.scans@.contains_key(c) by {
                assert(old(self).has_scan_before(c));
                let s = choose|s: usize| #[trigger]
                    old(self).scans@.contains_key(s) && s < c;
                assert(self.scans@.contains_key(s));
            }
        }
        Cleanup { seq, waits: true }
    }

    /// Ends a scan. Says which cleanups are woken: those that wait for no scan any more.
    pub fn end_scan(&mut self, seq: usize) -> (r: Vec<usize>)
        requires
            old(self).wf(),
        ensures
            stepped(*old(self), ScanLocksStep::EndScan(seq, r@), *final(self)),
            final(self).wf(),
            final(self).next_seq == old(self).next_seq,
            final(self).scans@ == old(self).scans@.remove(seq),
            forall|c: usize|
                #![trigger r@.contains(c)]
                #![trigger old(self).cleanups@.contains_key(c)]
                r@.contains(c) <==> old(self).cleanups@.contains_key(c)
                    && !final(self).has_scan_before(c),
            forall|c: usize| #[trigger]
                final(self).cleanups@.contains_key(c) <==> old(self).cleanups@.contains_key(c)
                    && final(self).has_scan_before(c),
            forall|i: int, j: int| 0 <= i < j < r@.len() ==> #[trigger] r@[i] < #[trigger] r@[j],
    {
        self.scans.remove(&seq);
        let ghost scans = self.scans;
        let ghost start = self.cleanups@;
        let lowest: usize = if self.scans.entries.len() > 0 {
            self.scans.entries[0].0
        } else {
            usize::MAX
        };
        proof {
            assert forall|c: usize| #[trigger] start.contains_key(c) implies self.has_scan_before(c)
                == (lowest < c) by {
                if scans.entries@.len() > 0 {
                    scans.lemma_entry(0);
                }
                if self.has_scan_before(c) {
                    let s = choose|s: usize| #[trigger] self.scans@.contains_key(s) && s < c;
                    scans.lemma_key(s);
                    let j = choose|j: int|
                        0 <= j < scans.entries@.len() && (#[trigger] scans.entries@[j]).0@ == s;
                    if j > 0 {
                        assert(scans.keys()[0] < scans.keys()[j]);
                    }
                }
            }
            assert forall|s: usize| #[trigger] self.scans@.contains_key(s) implies s
                < self.next_seq by {
                assert(old(self).scans@.contains_key(s));
            }
            assert(!start.contains_key(lowest)) by {
                if start.contains_key(lowest) {
                    if scans.entries@.len() > 0 {
                        scans.lemma_entry(0);
                        assert(old(self).scans@.contains_key(lowest));
                        assert(old(self).cleanups@.contains_key(lowest));
                    }
                }
            }
        }
        let mut woken: Vec<usize> = Vec::new();
        while self.cleanups.entries.len() > 0 && self.cleanups.entries[0].0 < lowest
            invariant
                self.scans == scans,
                self.next_seq == old(self).next_seq,
                self.cleanups.wf(),
                forall|c: usize|
                    start.contains_key(c) <==> #[trigger] self.cleanups@.contains_key(c)
                        || woken@.contains(c),
                forall|i: int, j: int|
                    0 <= i < j < woken@.len() ==> #[trigger] woken@[i] < #[trigger] woken@[j],
                forall|i: int| 0 <= i < woken@.len() ==> #[trigger] woken@[i] < lowest,
                forall|i: int, c: usize|
                    0 <= i < woken@.len() && #[trigger] self.cleanups@.contains_key(c)
                        ==> #[trigger] woken@[i] < c,
            decreases self.cleanups.entries@.len(),
        {
            let c: usize = self.cleanups.entries[0].0;
            let ghost before = self.cleanups;
            proof {
                before.lemma_entry(0);
            }
            self.cleanups.remove(&c);
            let ghost was = woken@;
            woken.push(c);
            proof {
                lemma_first_removed(before, self.cleanups, c);
                assert forall|d: usize|
                    start.contains_key(d) <==> #[trigger] self.cleanups@.contains_key(d)
                        || woken@.contains(d) by {
                    assert(start.contains_key(d) <==> before@.contains_key(d) || was.contains(d));
                    if was.contains(d) {
                        let i = was.index_of(d);
                        assert(woken@[i] == d);
                    }
                    if d == c {
                        assert(woken@[was.len() as int] == c);
                    }
                    if woken@.contains(d) {
                        let i = woken@.index_of(d);
                        if i < was.len() {
                            assert(was[i] == d);
                        }
                    }
                }
            }
        }
        proof {
            assert forall|c: usize| #[trigger] self.cleanups@.contains_key(c) implies lowest
                <= c by {
                self.cleanups.lemma_key(c);
                let j = choose|j: int|
                    0 <= j < self.cleanups.entries@.len() && (
                    #[trigger] self.cleanups.entries@[j]).0@ == c;
                if j > 0 {
                    assert(self.cleanups.keys()[0] < self.cleanups.keys()[j]);
                }
            }
            assert forall|c: usize|
                #![trigger woken@.contains(c)]
                #![trigger start.contains_key(c)]
                woken@.contains(c) <==> start.contains_key(c) && !self.has_scan_before(c) by {
                assert(start.contains_key(c) <==> self.cleanups@.contains_key(c)
                    || woken@.contains(c));
            }
            assert forall|c: usize| #[trigger]
                self.cleanups@.contains_key(c) <==> start.contains_key(c) && self.has_scan_before(
                    c,
                ) by {
                assert(start.contains_key(c) <==> self.cleanups@.contains_key(c)
                    || woken@.contains(c));
            }
            assert forall|c: usize| #[trigger] self.cleanups@.contains_key(c) implies c
                < self.next_seq && !self.scans@.contains_key(c) by {
                assert(old(self).cleanups@.contains_key(c));
            }
        }
        woken
    }

    /// Ends a cleanup, whether it was woken or given up.
    pub fn end_cleanup(&mut self, seq: usize)
        requires
            old(self).wf(),
        ensures
            stepped(*old(self), ScanLocksStep::EndCleanup(seq), *final(self)),
            final(self).wf(),
            final(self).next_seq == old(self).next_seq,
            final(self).scans == old(self).scans,
            final(self).cleanups@ == old(self).cleanups@.remove(seq),
    {
        self.cleanups.remove(&seq);
        proof {
            assert forall|c: usize| #[trigger] self.cleanups@.contains_key(c) implies c
                < self.next_seq && self.has_scan_before(c) && !self.scans@.contains_key(c) by {
                assert(old(self).has_scan_before(c));
                let s = choose|s: usize| #[trigger]
                    old(self).scans@.contains_key(s) && s < c;
                assert(self.scans@.contains_key(s));
            }
        }
    }
}

/// A scan sees at least one of the pair, whenever it goes on.
///
/// The real record was added before the cleanup was started, so a scan that looked too early for it
/// was started before the cleanup. A scan goes on until it looked at the pending records. `now` is
/// when the cleanup does not wait any more, just before the pending record is removed.
pub proof fn law_scan_sees_one(
    now: ScanLocks,
    scan: usize,
    cleanup: usize,
    saw_real: bool,
    looked_at_pending: bool,
)
    requires
        !now.has_scan_before(cleanup),
        !saw_real ==> scan < cleanup,
        !looked_at_pending ==> now.scans@.contains_key(scan),
    ensures
        saw_real || looked_at_pending,
{
}

/// Whether a cleanup is woken by one of the steps from one up to another.
pub open spec fn woken_between(steps: Seq<ScanLocksStep>, from: int, to: int, seq: usize) -> bool {
    exists|m: int|
        from <= m < to && (#[trigger] steps[m] matches ScanLocksStep::EndScan(_, woken)
            && woken.contains(seq))
}

/// A cleanup, whatever happens to the locks: it waits if and only if a scan goes on when it starts;
/// it is woken only once every scan that went on then has ended; and once they have, in whichever
/// order, it has been woken, whatever scans were started later, unless it was ended before.
pub proof fn law_cleanup_waits_for_scans(
    states: Seq<ScanLocks>,
    steps: Seq<ScanLocksStep>,
    c: int,
    cleanup: Cleanup,
    n: int,
)
    requires
        states.len() == steps.len() + 1,
        forall|m: int|
            0 <= m < steps.len() ==> stepped(#[trigger] states[m], steps[m], states[m + 1]),
        0 <= c < n < states.len(),
        steps[c] == ScanLocksStep::Cleanup(cleanup),
    ensures
        cleanup.waits == exists|s: usize| #[trigger] states[c].scans@.contains_key(s),
        n < steps.len() ==> (steps[n] matches ScanLocksStep::EndScan(_, woken) ==> woken.contains(
            cleanup.seq,
        ) ==> forall|s: usize| #[trigger]
            states[c].scans@.contains_key(s) ==> !states[n + 1].scans@.contains_key(s)),
        cleanup.waits && (forall|m: int|
            c < m < n ==> #[trigger] steps[m] != ScanLocksStep::EndCleanup(cleanup.seq)) && (forall|
            s: usize,
        | #[trigger] states[c].scans@.contains_key(s) ==> !states[n].scans@.contains_key(s))
            ==> woken_between(steps, c + 1, n, cleanup.seq),
{
    assert(stepped(states[c], steps[c], states[c + 1]));
    if cleanup.waits {
        if forall|s: usize| !states[c].scans@.contains_key(s) {
            assert(states[c].scans@ =~= Map::<usize, ()>::empty());
        }
    }
    lemma_cleanup_so_far(states, steps, c, cleanup, n);
    if n < steps.len() {
        assert(stepped(states[n], steps[n], states[n + 1]));
        if let ScanLocksStep::EndScan(_, woken) = steps[n] {
            if woken.contains(cleanup.seq) {
                assert(!states[n + 1].has_scan_before(cleanup.seq));
            }
        }
    }
    if states[n].cleanups@.contains_key(cleanup.seq) {
        assert(states[n].wf()) by {
            assert(stepped(states[n - 1], steps[n - 1], states[n]));
        }
        assert(states[n].has_scan_before(cleanup.seq));
        let s = choose|s: usize| #[trigger]
            states[n].scans@.contains_key(s) && s < cleanup.seq;
        assert(states[c].scans@.contains_key(s));
    }
}

proof fn lemma_cleanup_so_far(
    states: Seq<ScanLocks>,
    steps: Seq<ScanLocksStep>,
    c: int,
    cleanup: Cleanup,
    n: int,
)
    requires
        states.len() == steps.len() + 1,
        forall|m: int|
            0 <= m < steps.len() ==> stepped(#[trigger] states[m], steps[m], states[m + 1]),
        0 <= c < n < states.len(),
        steps[c] == ScanLocksStep::Cleanup(cleanup),
    ensures
        states[n].next_seq > cleanup.seq,
        forall|s: usize| #[trigger]
            states[n].scans@.contains_key(s) && s < cleanup.seq ==> states[c].scans@.contains_key(s),
        cleanup.waits && (forall|m: int|
            c < m < n ==> #[trigger] steps[m] != ScanLocksStep::EndCleanup(cleanup.seq)) ==> (
        states[n].cleanups@.contains_key(cleanup.seq) || woken_between(
            steps,
            c + 1,
            n,
            cleanup.seq,
        )),
    decreases n,
{
    assert(stepped(states[n - 1], steps[n - 1], states[n]));
    if n - 1 > c {
        lemma_cleanup_so_far(states, steps, c, cleanup, n - 1);
        if cleanup.waits && forall|m: int|
            c < m < n ==> #[trigger] steps[m] != ScanLocksStep::EndCleanup(cleanup.seq) {
            assert(steps[n - 1] != ScanLocksStep::EndCleanup(cleanup.seq));
            if woken_between(steps, c + 1, n - 1, cleanup.seq) {
                let m = choose|m: int|
                    c + 1 <= m < n - 1 && (#[trigger] steps[m] matches ScanLocksStep::EndScan(
                        _,
                        woken,
                    ) && woken.contains(cleanup.seq));
                assert(c + 1 <= m < n && (steps[m] matches ScanLocksStep::EndScan(_, woken)
                    && woken.contains(cleanup.seq)));
            } else if !states[n].cleanups@.contains_key(cleanup.seq) {
                assert(states[n - 1].cleanups@.contains_key(cleanup.seq));
                assert(steps[n - 1] matches ScanLocksStep::EndScan(_, woken) && woken.contains(
                    cleanup.seq,
                ));
            }
        }
    }
}

proof fn lemma_first_removed(a: OrdMap<usize, ()>, b: OrdMap<usize, ()>, k: usize)
    requires
        a.wf(),
        b.wf(),
        a.entries@.len() > 0,
        a.entries@[0].0 == k,
        b@ == a@.remove(k),
    ensures
        forall|c: usize| #[trigger] b@.contains_key(c) ==> k < c,
{
    assert forall|c: usize| #[trigger] b@.contains_key(c) implies k < c by {
        a.lemma_key(c);
        let j = choose|j: int|
            0 <= j < a.entries@.len() && (#[trigger] a.entries@[j]).0@ == c;
        if j > 0 {
            assert(a.keys()[0] < a.keys()[j]);
        }
    }
}

} // verus!
