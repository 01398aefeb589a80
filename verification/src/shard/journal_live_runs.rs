//! The runs that a journal still mentions.

use std::collections::VecDeque;

use vstd::prelude::*;

use crate::supervisor::manifests::RunId;
use crate::types::data::JournalSeq;
use crate::util::ordmap::{OrdKey, OrdMap};

verus! {

impl View for RunId {
    type V = RunId;

    open spec fn view(&self) -> RunId {
        *self
    }
}

impl OrdKey for RunId {
    open spec fn precedes(a: RunId, b: RunId) -> bool {
        a.0 < b.0
    }

    fn is_before(&self, other: &Self) -> (r: bool) {
        self.0 < other.0
    }

    proof fn lemma_irreflexive(a: RunId) {
    }

    proof fn lemma_transitive(a: RunId, b: RunId, c: RunId) {
    }

    proof fn lemma_total(a: RunId, b: RunId) {
    }
}

/// How often a run is mentioned.
pub open spec fn mentions(s: Seq<(JournalSeq, RunId)>, id: RunId) -> nat
    decreases s.len(),
{
    if s.len() == 0 {
        0
    } else if s.last().1 == id {
        mentions(s.drop_last(), id) + 1
    } else {
        mentions(s.drop_last(), id)
    }
}

/// How many mentions at the front stand before a position.
pub open spec fn stale(s: Seq<(JournalSeq, RunId)>, seq: JournalSeq) -> nat
    decreases s.len(),
{
    if s.len() == 0 || s[0].0.0 >= seq.0 {
        0
    } else {
        stale(s.skip(1), seq) + 1
    }
}

/// The runs that a journal mentions from some position on.
pub struct JournalLiveRuns {
    /// The mentions, in the order of the journal.
    pub by_seq: VecDeque<(JournalSeq, RunId)>,
    /// How often each run is mentioned.
    pub counts: OrdMap<RunId, usize>,
}

proof fn lemma_mentions_front(s: Seq<(JournalSeq, RunId)>, id: RunId)
    requires
        s.len() > 0,
    ensures
        mentions(s, id) == mentions(s.skip(1), id) + if s[0].1 == id {
            1nat
        } else {
            0nat
        },
    decreases s.len(),
{
    if s.len() == 1 {
        assert(s.skip(1) =~= Seq::empty());
        assert(s.drop_last() =~= Seq::empty());
        assert(mentions(s.drop_last(), id) == 0);
    } else {
        lemma_mentions_front(s.drop_last(), id);
        assert(s.drop_last().skip(1) =~= s.skip(1).drop_last());
        assert(s.skip(1).last() == s.last());
    }
}

proof fn lemma_mentions_at_most(s: Seq<(JournalSeq, RunId)>, id: RunId)
    ensures
        mentions(s, id) <= s.len(),
    decreases s.len(),
{
    if s.len() > 0 {
        lemma_mentions_at_most(s.drop_last(), id);
    }
}

proof fn lemma_mentioned(s: Seq<(JournalSeq, RunId)>, id: RunId)
    ensures
        mentions(s, id) > 0 <==> exists|i: int| 0 <= i < s.len() && (#[trigger] s[i]).1 == id,
    decreases s.len(),
{
    if s.len() > 0 {
        lemma_mentioned(s.drop_last(), id);
        if s.last().1 == id {
            assert(s[s.len() - 1].1 == id);
        }
        if mentions(s.drop_last(), id) > 0 {
            let i = choose|i: int|
                0 <= i < s.drop_last().len() && (#[trigger] s.drop_last()[i]).1 == id;
            assert(s[i].1 == id);
        }
        if exists|i: int| 0 <= i < s.len() && (#[trigger] s[i]).1 == id {
            let i = choose|i: int| 0 <= i < s.len() && (#[trigger] s[i]).1 == id;
            if i < s.len() - 1 {
                assert(s.drop_last()[i].1 == id);
            }
        }
    }
}

impl JournalLiveRuns {
    /// Each run is counted as often as it is mentioned.
    pub open spec fn wf(self) -> bool {
        &&& self.counts.wf()
        &&& forall|id: RunId|
            #![trigger self.counts@.contains_key(id)]
            #![trigger mentions(self.by_seq@, id)]
            self.counts@.contains_key(id) <==> mentions(self.by_seq@, id) > 0
        &&& forall|id: RunId| #[trigger]
            self.counts@.contains_key(id) ==> self.counts@[id] == mentions(self.by_seq@, id)
    }

    pub fn new() -> (r: Self)
        ensures
            r.wf(),
            r.by_seq@.len() == 0,
    {
        JournalLiveRuns { by_seq: VecDeque::new(), counts: OrdMap::new() }
    }

    /// Forgets what is mentioned before a position.
    pub fn trim(&mut self, seq: JournalSeq)
        requires
            old(self).wf(),
        ensures
            final(self).wf(),
            final(self).by_seq@ == old(self).by_seq@.skip(stale(old(self).by_seq@, seq) as int),
    {
        let ghost start = self.by_seq@;
        assert(start.skip(0) =~= start);
        while self.by_seq.len() > 0 && self.by_seq[0].0.0 < seq.0
            invariant
                self.wf(),
                self.by_seq@.len() <= start.len(),
                self.by_seq@ == start.skip(start.len() - self.by_seq@.len()),
                stale(start, seq) == stale(self.by_seq@, seq) + start.len() - self.by_seq@.len(),
            decreases self.by_seq@.len(),
        {
            let ghost now = self.by_seq@;
            if let Some((_, run_id)) = self.by_seq.pop_front() {
                proof {
                    assert(self.by_seq@ =~= now.skip(1));
                    assert(self.by_seq@ =~= start.skip(start.len() - self.by_seq@.len()));
                    assert forall|id: RunId| mentions(now, id) == #[trigger] mentions(
                        self.by_seq@,
                        id,
                    ) + if run_id == id {
                        1nat
                    } else {
                        0nat
                    } by {
                        lemma_mentions_front(now, id);
                    }
                    lemma_mentions_front(now, run_id);
                    assert(mentions(now, run_id) > 0);
                    assert(self.counts@.contains_key(run_id));
                }
                if let Some(n) = self.counts.remove(&run_id) {
                    if n > 1 {
                        self.counts.insert(run_id, n - 1);
                    }
                }
            }
        }
    }

    /// Notes a mention at the end of the journal.
    pub fn insert(&mut self, seq: JournalSeq, run_id: RunId)
        requires
            old(self).wf(),
            old(self).by_seq@.len() < usize::MAX,
        ensures
            final(self).wf(),
            final(self).by_seq@ == old(self).by_seq@.push((seq, run_id)),
    {
        let ghost before = self.by_seq@;
        let n: usize = match self.counts.get(&run_id) {
            Some(n) => *n,
            None => 0,
        };
        proof {
            lemma_mentions_at_most(before, run_id);
        }
        self.counts.insert(run_id, n + 1);
        self.by_seq.push_back((seq, run_id));
        proof {
            assert(self.by_seq@.drop_last() =~= before);
            assert forall|id: RunId| #[trigger]
                mentions(self.by_seq@, id) == mentions(before, id) + if run_id == id {
                    1nat
                } else {
                    0nat
                } by {}
        }
    }

    /// The runs that are mentioned, each once.
    pub fn run_ids(&self) -> (r: Vec<RunId>)
        requires
            self.wf(),
        ensures
            r@ == self.counts.keys(),
            forall|id: RunId| #[trigger]
                r@.contains(id) <==> exists|i: int|
                    0 <= i < self.by_seq@.len() && (#[trigger] self.by_seq@[i]).1 == id,
    {
        let mut r: Vec<RunId> = Vec::new();
        let mut i: usize = 0;
        while i < self.counts.entries.len()
            invariant
                i <= self.counts.entries@.len(),
                r@ == self.counts.keys().take(i as int),
            decreases self.counts.entries@.len() - i,
        {
            r.push(self.counts.entries[i].0);
            i += 1;
            assert(r@ =~= self.counts.keys().take(i as int));
        }
        assert(r@ =~= self.counts.keys());
        proof {
            assert forall|id: RunId| #[trigger]
                r@.contains(id) <==> exists|i: int|
                    0 <= i < self.by_seq@.len() && (#[trigger] self.by_seq@[i]).1 == id by {
                lemma_mentioned(self.by_seq@, id);
                assert(self.counts@.contains_key(id) <==> mentions(self.by_seq@, id) > 0);
            }
        }
        r
    }
}

/// A run that is mentioned at a position or after it outlives a trim to that position.
pub proof fn law_trim_keeps_live(s: Seq<(JournalSeq, RunId)>, seq: JournalSeq, i: int)
    requires
        0 <= i < s.len(),
        s[i].0.0 >= seq.0,
    ensures
        stale(s, seq) <= i,
        exists|j: int|
            0 <= j < s.skip(stale(s, seq) as int).len() && (#[trigger] s.skip(
                stale(s, seq) as int,
            )[j]).1 == s[i].1,
    decreases s.len(),
{
    if s[0].0.0 < seq.0 {
        law_trim_keeps_live(s.skip(1), seq, i - 1);
    }
    assert(s.skip(stale(s, seq) as int)[i - stale(s, seq)].1 == s[i].1);
}

} // verus!
