//! Timestamps of writes, and up to when reads are safe.

use vstd::prelude::*;

use crate::types::data::Timestamp;
use crate::types::error::InternalError;
use crate::util::ordmap::OrdMap;
use crate::util::select::{lemma_picks_push, picks};

verus! {

/// How far ahead, in nanoseconds, a read may be to be waited for at all.
pub const MAX_AHEAD_NANOS: u64 = 100_000_000;

/// How far ahead, in nanoseconds, a read may be to be made safe at once where no write is going on.
pub const MAX_SKEW_NANOS: u64 = 10_000_000;

/// Gives timestamps to writes, and knows up to when no write can come any more.
pub struct Sequencer {
    /// Last assigned timestamp. All new timestamps are higher than this.
    pub last_ts: Timestamp,
    /// All writes that could have this timestamp or lower assigned are already completed and
    /// visible.
    pub safe_read_ts: Timestamp,
    /// The writes that are going on.
    pub pending: OrdMap<Timestamp, ()>,
    /// The reads that wait.
    pub waiters: Vec<Timestamp>,
}

/// Something that happens to a sequencer.
pub enum SequencerStep {
    /// A write is given a timestamp.
    Start(Timestamp),
    /// A write ends.
    Finish(Timestamp),
    /// A read asks whether it may go ahead.
    Read,
}

/// What a step does to what is known of writes and reads.
pub open spec fn stepped(a: Sequencer, step: SequencerStep, b: Sequencer) -> bool {
    &&& a.wf() && b.wf()
    &&& a.safe_read_ts.0 <= b.safe_read_ts.0
    &&& match step {
        SequencerStep::Start(ts) => ts.0 > a.last_ts.0 && b.last_ts == ts && b.pending@
            == a.pending@.insert(ts, ()),
        SequencerStep::Finish(ts) => a.writing(ts) && b.last_ts == a.last_ts && b.pending@
            == a.pending@.remove(ts),
        SequencerStep::Read => a.last_ts.0 <= b.last_ts.0 && b.pending@ == a.pending@,
    }
}

/// What a read has to do before it goes ahead.
#[derive(Clone, Copy, Debug, PartialEq, Eq, Structural)]
pub enum ReadStep {
    /// Nothing: it is safe.
    Ready,
    /// Wait until it is woken.
    Wait,
    /// Wait so many nanoseconds, then ask again.
    Sleep(u64),
}

/// The reads that still wait once reads up to a point in time are safe, in the order in which they
/// came.
pub open spec fn still_waiting(waiters: Seq<Timestamp>, safe: Timestamp) -> Seq<Timestamp>
    decreases waiters.len(),
{
    if waiters.len() == 0 {
        Seq::empty()
    } else if waiters.last().0 > safe.0 {
        still_waiting(waiters.drop_last(), safe).push(waiters.last())
    } else {
        still_waiting(waiters.drop_last(), safe)
    }
}

/// The reads that are woken once reads up to a point in time are safe.
pub open spec fn woken(waiters: Seq<Timestamp>, safe: Timestamp) -> Seq<Timestamp>
    decreases waiters.len(),
{
    if waiters.len() == 0 {
        Seq::empty()
    } else if waiters.last().0 <= safe.0 {
        woken(waiters.drop_last(), safe).push(waiters.last())
    } else {
        woken(waiters.drop_last(), safe)
    }
}

impl Sequencer {
    /// Reads are safe up to just before the first write that is going on, or up to the last write
    /// where none is. The reads that wait are not safe yet, and will be once the writes that were
    /// given a timestamp have ended.
    pub open spec fn wf(self) -> bool {
        &&& self.pending.wf()
        &&& forall|i: int|
            0 <= i < self.pending.entries@.len() ==> 0 < (#[trigger] self.pending.entries@[i]).0.0
                <= self.last_ts.0
        &&& if self.pending.entries@.len() == 0 {
            self.safe_read_ts == self.last_ts
        } else {
            self.safe_read_ts.0 == self.pending.entries@[0].0.0 - 1
        }
        &&& forall|i: int|
            0 <= i < self.waiters@.len() ==> self.safe_read_ts.0 < (
            #[trigger] self.waiters@[i]).0 <= self.last_ts.0
    }

    /// Whether a write is going on.
    pub open spec fn writing(self, ts: Timestamp) -> bool {
        self.pending@.contains_key(ts)
    }

    pub fn new() -> (r: Self)
        ensures
            r.wf(),
            r.last_ts == Timestamp::zero(),
            r.safe_read_ts == Timestamp::zero(),
            r.pending@ == Map::<Timestamp, ()>::empty(),
            r.waiters@.len() == 0,
    {
        Sequencer {
            last_ts: Timestamp::zero(),
            safe_read_ts: Timestamp::zero(),
            pending: OrdMap::new(),
            waiters: Vec::new(),
        }
    }

    fn wake_waiters(&mut self) -> (r: Vec<Timestamp>)
        ensures
            r@ == woken(old(self).waiters@, old(self).safe_read_ts),
            forall|i: int|
                0 <= i < final(self).waiters@.len() ==> old(self).safe_read_ts.0 < (
                #[trigger] final(self).waiters@[i]).0 && old(self).waiters@.contains(
                    final(self).waiters@[i],
                ),
            *final(self) == (Sequencer { waiters: final(self).waiters, ..*old(self) }),
            final(self).waiters@ == still_waiting(old(self).waiters@, old(self).safe_read_ts),
    {
        let mut out: Vec<Timestamp> = Vec::new();
        let mut rest: Vec<Timestamp> = Vec::new();
        let mut i: usize = 0;
        assert(self.waiters@.take(0) =~= Seq::empty());
        while i < self.waiters.len()
            invariant
                i <= self.waiters@.len(),
                *self == *old(self),
                out@ == woken(self.waiters@.take(i as int), self.safe_read_ts),
                rest@ == still_waiting(self.waiters@.take(i as int), self.safe_read_ts),
            decreases self.waiters@.len() - i,
        {
            let ts = self.waiters[i];
            proof {
                assert(self.waiters@.take(i + 1).drop_last() =~= self.waiters@.take(i as int));
                assert(self.waiters@.take(i + 1).last() == ts);
            }
            if ts.0 <= self.safe_read_ts.0 {
                out.push(ts);
            } else {
                rest.push(ts);
            }
            i += 1;
        }
        assert(self.waiters@.take(i as int) =~= self.waiters@);
        proof {
            lemma_still_waiting(self.waiters@, self.safe_read_ts);
        }
        self.waiters = rest;
        out
    }

    /// Gives a write its timestamp: the present, but later than any before. Says which reads are
    /// woken.
    pub fn start_write(&mut self, now: Timestamp) -> (r: (Timestamp, Vec<Timestamp>))
        requires
            old(self).wf(),
            old(self).last_ts.0 < u64::MAX,
        ensures
            stepped(*old(self), SequencerStep::Start(r.0), *final(self)),
            final(self).wf(),
            r.0.0 == if now.0 > old(self).last_ts.0 {
                now.0 as int
            } else {
                old(self).last_ts.0 + 1
            },
            final(self).last_ts == r.0,
            !old(self).writing(r.0),
            final(self).pending@ == old(self).pending@.insert(r.0, ()),
            r.0.0 > final(self).safe_read_ts.0,
            final(self).safe_read_ts.0 >= old(self).safe_read_ts.0,
            final(self).safe_read_ts.0 == if old(self).pending.entries@.len() == 0 {
                r.0.0 - 1
            } else {
                old(self).safe_read_ts.0 as int
            },
            if old(self).pending.entries@.len() == 0 {
                &&& r.1@ == woken(old(self).waiters@, final(self).safe_read_ts)
                &&& final(self).waiters@ == still_waiting(
                    old(self).waiters@,
                    final(self).safe_read_ts,
                )
            } else {
                r.1@.len() == 0 && final(self).waiters == old(self).waiters
            },
    {
        let ts = Timestamp::now_after(now, self.last_ts);
        proof {
            if old(self).writing(ts) {
                old(self).pending.lemma_key(ts);
            }
        }
        self.last_ts = ts;
        let mut out: Vec<Timestamp> = Vec::new();
        if self.pending.entries.len() == 0 {
            self.safe_read_ts = ts.minus_one();
            out = self.wake_waiters();
        }
        let ghost before = self.pending;
        self.pending.insert(ts, ());
        proof {
            lemma_inserted_last(before, self.pending, ts);
        }
        (ts, out)
    }

    /// Ends a write. Says which reads are woken.
    pub fn finish_write(&mut self, ts: Timestamp) -> (r: Vec<Timestamp>)
        requires
            old(self).wf(),
            old(self).writing(ts),
        ensures
            stepped(*old(self), SequencerStep::Finish(ts), *final(self)),
            final(self).wf(),
            final(self).last_ts == old(self).last_ts,
            final(self).pending@ == old(self).pending@.remove(ts),
            final(self).safe_read_ts.0 >= old(self).safe_read_ts.0,
            r@ == woken(old(self).waiters@, final(self).safe_read_ts),
            final(self).waiters@ == still_waiting(old(self).waiters@, final(self).safe_read_ts),
    {
        let ghost before = self.pending;
        self.pending.remove(&ts);
        proof {
            lemma_removed_order(before, self.pending, ts);
        }
        if self.pending.entries.len() > 0 {
            self.safe_read_ts = self.pending.entries[0].0.minus_one();
        } else {
            self.safe_read_ts = self.last_ts;
        }
        self.wake_waiters()
    }

    pub fn safe_read_ts(&self) -> (r: Timestamp)
        ensures
            r == self.safe_read_ts,
    {
        self.safe_read_ts
    }

    /// Decides what a read has to do before it goes ahead.
    pub fn wait_for_safe_read(&mut self, ts: Timestamp, now: Timestamp) -> (r: Result<
        ReadStep,
        InternalError,
    >)
        requires
            old(self).wf(),
        ensures
            stepped(*old(self), SequencerStep::Read, *final(self)),
            final(self).wf(),
            final(self).pending == old(self).pending,
            ({
                let n = old(self).pending.entries@.len();
                let ahead = if ts.0 > now.0 {
                    ts.0 - now.0
                } else {
                    0
                };
                if ahead > MAX_AHEAD_NANOS {
                    r == Err::<ReadStep, InternalError>(InternalError::FutureTimestamp)
                        && *final(self) == *old(self)
                } else if ts.0 <= old(self).safe_read_ts.0 {
                    r == Ok::<ReadStep, InternalError>(ReadStep::Ready) && *final(self)
                        == *old(self)
                } else if n > 0 && old(self).pending.entries@[n - 1].0.0 >= ts.0 {
                    &&& r == Ok::<ReadStep, InternalError>(ReadStep::Wait)
                    &&& final(self).waiters@ == old(self).waiters@.push(ts)
                    &&& final(self).last_ts == old(self).last_ts
                    &&& final(self).safe_read_ts == old(self).safe_read_ts
                } else if n == 0 && ahead < MAX_SKEW_NANOS {
                    &&& r == Ok::<ReadStep, InternalError>(ReadStep::Ready)
                    &&& final(self).last_ts == ts
                    &&& final(self).safe_read_ts == ts
                    &&& final(self).waiters == old(self).waiters
                } else {
                    r == Ok::<ReadStep, InternalError>(ReadStep::Sleep(ahead as u64))
                        && *final(self) == *old(self)
                }
            }),
            r == Ok::<ReadStep, InternalError>(ReadStep::Ready) ==> ts.0
                <= final(self).safe_read_ts.0,
    {
        let ahead: u64 = ts.saturating_nanos_since(now);
        if ahead > MAX_AHEAD_NANOS {
            return Err(InternalError::FutureTimestamp);
        }
        if ts.0 <= self.safe_read_ts.0 {
            return Ok(ReadStep::Ready);
        }
        let n: usize = self.pending.entries.len();
        if n > 0 {
            if self.pending.entries[n - 1].0.0 >= ts.0 {
                self.waiters.push(ts);
                return Ok(ReadStep::Wait);
            }
        } else if ahead < MAX_SKEW_NANOS {
            self.safe_read_ts = ts;
            self.last_ts = ts;
            return Ok(ReadStep::Ready);
        }
        Ok(ReadStep::Sleep(ahead))
    }
}

proof fn lemma_still_waiting(waiters: Seq<Timestamp>, safe: Timestamp)
    ensures
        forall|i: int|
            0 <= i < still_waiting(waiters, safe).len() ==> safe.0 < (#[trigger] still_waiting(
                waiters,
                safe,
            )[i]).0 && waiters.contains(still_waiting(waiters, safe)[i]),
    decreases waiters.len(),
{
    let rest = still_waiting(waiters, safe);
    if waiters.len() > 0 {
        let prior = waiters.drop_last();
        lemma_still_waiting(prior, safe);
        assert forall|i: int| 0 <= i < rest.len() implies safe.0 < (#[trigger] rest[i]).0
            && waiters.contains(rest[i]) by {
            if i < still_waiting(prior, safe).len() {
                assert(rest[i] == still_waiting(prior, safe)[i]);
                let j = choose|j: int| 0 <= j < prior.len() && prior[j] == rest[i];
                assert(waiters[j] == rest[i]);
            } else {
                assert(waiters[waiters.len() - 1] == rest[i]);
            }
        }
    }
}

proof fn lemma_inserted_last(
    a: OrdMap<Timestamp, ()>,
    b: OrdMap<Timestamp, ()>,
    ts: Timestamp,
)
    requires
        a.wf(),
        b.wf(),
        b@ == a@.insert(ts, ()),
        forall|i: int| 0 <= i < a.entries@.len() ==> (#[trigger] a.entries@[i]).0.0 < ts.0,
    ensures
        b.entries@.len() > 0,
        b.entries@[0].0 == if a.entries@.len() == 0 {
            ts
        } else {
            a.entries@[0].0
        },
        forall|i: int|
            0 <= i < b.entries@.len() ==> (#[trigger] b.entries@[i]).0 == ts || exists|j: int|
                0 <= j < a.entries@.len() && b.entries@[i].0 == (#[trigger] a.entries@[j]).0,
{
    assert(b@.contains_key(ts));
    b.lemma_key(ts);
    assert forall|i: int| 0 <= i < b.entries@.len() implies (#[trigger] b.entries@[i]).0 == ts
        || exists|j: int|
        0 <= j < a.entries@.len() && b.entries@[i].0 == (#[trigger] a.entries@[j]).0 by {
        b.lemma_entry(i);
        if b.entries@[i].0 != ts {
            a.lemma_key(b.entries@[i].0);
        }
    }
    let least = if a.entries@.len() == 0 {
        ts
    } else {
        a.entries@[0].0
    };
    if a.entries@.len() > 0 {
        a.lemma_entry(0);
    }
    b.lemma_key(least);
    let i = choose|i: int| 0 <= i < b.entries@.len() && (#[trigger] b.entries@[i]).0@ == least;
    if i > 0 {
        assert(b.keys()[0].0 < b.keys()[i].0);
        assert(b.entries@[0].0.0 < least.0);
        if b.entries@[0].0 != ts {
            let j = choose|j: int|
                0 <= j < a.entries@.len() && b.entries@[0].0 == (#[trigger] a.entries@[j]).0;
            if j > 0 {
                assert(a.keys()[0].0 < a.keys()[j].0);
            }
        }
    }
}

proof fn lemma_removed_order(
    a: OrdMap<Timestamp, ()>,
    b: OrdMap<Timestamp, ()>,
    ts: Timestamp,
)
    requires
        a.wf(),
        b.wf(),
        a@.contains_key(ts),
        b@ == a@.remove(ts),
    ensures
        a.entries@.len() > 0,
        forall|i: int|
            0 <= i < b.entries@.len() ==> exists|j: int|
                0 <= j < a.entries@.len() && (#[trigger] b.entries@[i]).0
                    == (#[trigger] a.entries@[j]).0,
        forall|i: int|
            0 <= i < b.entries@.len() ==> a.entries@[0].0.0 <= (#[trigger] b.entries@[i]).0.0,
{
    a.lemma_key(ts);
    assert forall|i: int| 0 <= i < b.entries@.len() implies (exists|j: int|
        0 <= j < a.entries@.len() && (#[trigger] b.entries@[i]).0 == (#[trigger] a.entries@[j]).0)
        && a.entries@[0].0.0 <= b.entries@[i].0.0 by {
        b.lemma_entry(i);
        a.lemma_key(b.entries@[i].0);
        let j = choose|j: int|
            0 <= j < a.entries@.len() && (#[trigger] a.entries@[j]).0@ == b.entries@[i].0;
        if j > 0 {
            assert(a.keys()[0].0 < a.keys()[j].0);
        }
    }
}

/// Where reads up to a point in time are safe, every write that is going on is later, and so is
/// every write that is given a timestamp above the last.
pub proof fn law_safe_reads_see_all(s: Sequencer, ts: Timestamp)
    requires
        s.wf(),
    ensures
        s.safe_read_ts.0 <= s.last_ts.0,
        s.writing(ts) ==> ts.0 > s.safe_read_ts.0,
        ts.0 > s.last_ts.0 ==> ts.0 > s.safe_read_ts.0,
{
    if s.writing(ts) {
        s.pending.lemma_key(ts);
        let j = choose|j: int|
            0 <= j < s.pending.entries@.len() && (#[trigger] s.pending.entries@[j]).0@ == ts;
        if j > 0 {
            assert(s.pending.keys()[0].0 < s.pending.keys()[j].0);
        }
    }
    if s.pending.entries@.len() > 0 {
        assert(s.pending.entries@[0].0.0 <= s.last_ts.0);
    }
}

/// Where no write is going on, no read waits.
pub proof fn law_no_read_is_forgotten(s: Sequencer)
    requires
        s.wf(),
        s.pending@ == Map::<Timestamp, ()>::empty(),
    ensures
        s.waiters@.len() == 0,
{
    if s.pending.entries@.len() > 0 {
        s.pending.lemma_entry(0);
    }
    if s.waiters@.len() > 0 {
        assert(s.safe_read_ts.0 < s.waiters@[0].0 <= s.last_ts.0);
    }
}

/// Of a sequencer, whatever happens to it: the timestamp up to which reads are safe never goes
/// back; each write is given a timestamp above all that were given before and above all up to which
/// reads were safe before; while a write goes on, reads are safe only up to below its timestamp;
/// and where no write is going on, reads are safe up to every timestamp that was given.
pub proof fn law_timestamps_in_order(
    states: Seq<Sequencer>,
    steps: Seq<SequencerStep>,
    i: int,
    j: int,
)
    requires
        states.len() == steps.len() + 1,
        forall|n: int|
            0 <= n < steps.len() ==> stepped(#[trigger] states[n], steps[n], states[n + 1]),
        0 <= i <= j < states.len(),
    ensures
        states[i].safe_read_ts.0 <= states[j].safe_read_ts.0,
        states[i].last_ts.0 <= states[j].last_ts.0,
        j < steps.len() ==> (steps[j] matches SequencerStep::Start(ts) ==> ts.0
            > states[i].safe_read_ts.0 && ts.0 > states[i].last_ts.0),
        i < j ==> (steps[i] matches SequencerStep::Start(given) ==> {
            &&& given.0 <= states[j].last_ts.0
            &&& j < steps.len() ==> (steps[j] matches SequencerStep::Start(ts) ==> ts.0 > given.0)
            &&& (forall|n: int| i < n < j ==> #[trigger] steps[n] != SequencerStep::Finish(given))
                ==> states[j].writing(given) && states[j].safe_read_ts.0 < given.0
            &&& states[j].pending@ == Map::<Timestamp, ()>::empty() ==> states[j].safe_read_ts.0
                >= given.0
        }),
    decreases j,
{
    if i < j {
        law_timestamps_in_order(states, steps, i, j - 1);
        assert(stepped(states[j - 1], steps[j - 1], states[j]));
        if let SequencerStep::Start(given) = steps[i] {
            assert(stepped(states[i], steps[i], states[i + 1]));
            if forall|n: int| i < n < j ==> #[trigger] steps[n] != SequencerStep::Finish(given) {
                if i < j - 1 {
                    assert(steps[j - 1] != SequencerStep::Finish(given));
                }
                assert(states[j].writing(given));
                law_safe_reads_see_all(states[j], given);
            }
        }
        if states[j].pending@ == Map::<Timestamp, ()>::empty() {
            if states[j].pending.entries@.len() > 0 {
                states[j].pending.lemma_entry(0);
            }
        }
    }
    if j < steps.len() {
        assert(stepped(states[j], steps[j], states[j + 1]));
        law_safe_reads_see_all(states[j], states[j].last_ts);
    }
}

/// Once reads up to a point in time are safe, exactly those that waited for that or less are woken
/// and exactly the others still wait, all of them in the order in which they came.
pub proof fn law_safe_reads_are_woken(waiters: Seq<Timestamp>, safe: Timestamp) -> (parts: (
    Seq<int>,
    Seq<int>,
))
    ensures
        picks(parts.0, waiters.len()),
        picks(parts.1, waiters.len()),
        forall|i: int|
            0 <= i < waiters.len() ==> (parts.0.contains(i) <==> (#[trigger] waiters[i]).0
                <= safe.0),
        forall|i: int|
            0 <= i < waiters.len() ==> (parts.1.contains(i) <==> (#[trigger] waiters[i]).0 > safe.0),
        woken(waiters, safe).len() == parts.0.len(),
        still_waiting(waiters, safe).len() == parts.1.len(),
        forall|j: int|
            0 <= j < parts.0.len() ==> #[trigger] woken(waiters, safe)[j] == waiters[parts.0[j]],
        forall|j: int|
            0 <= j < parts.1.len() ==> #[trigger] still_waiting(waiters, safe)[j]
                == waiters[parts.1[j]],
    decreases waiters.len(),
{
    if waiters.len() == 0 {
        (Seq::empty(), Seq::empty())
    } else {
        let rest = waiters.drop_last();
        let n = rest.len();
        let (a, b) = law_safe_reads_are_woken(rest, safe);
        lemma_picks_push(a, n);
        lemma_picks_push(b, n);
        assert forall|i: int| 0 <= i < n implies #[trigger] rest[i] == waiters[i] by {}
        let (c, d) = if waiters[n as int].0 <= safe.0 {
            (a.push(n as int), b)
        } else {
            (a, b.push(n as int))
        };
        assert forall|i: int| 0 <= i < waiters.len() implies (c.contains(i) <==> (
        #[trigger] waiters[i]).0 <= safe.0) && (d.contains(i) <==> waiters[i].0 > safe.0) by {
            if i < n {
                assert(rest[i] == waiters[i]);
            }
        }
        assert forall|j: int| 0 <= j < c.len() implies #[trigger] woken(waiters, safe)[j]
            == waiters[c[j]] by {
            if j < a.len() {
                assert(woken(rest, safe)[j] == rest[a[j]]);
            }
        }
        assert forall|j: int| 0 <= j < d.len() implies #[trigger] still_waiting(waiters, safe)[j]
            == waiters[d[j]] by {
            if j < b.len() {
                assert(still_waiting(rest, safe)[j] == rest[b[j]]);
            }
        }
        (c, d)
    }
}

} // verus!
