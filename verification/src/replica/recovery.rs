//! Recovering the tablets of a shard from its journal.

use vstd::prelude::*;

use super::shard_journal::ShardEntry;
use crate::range::HasPrefix;
use crate::supervisor::manifests::RunEntry;
use crate::tablet::journaled_lsm::{records_write, TabletJournalEntry, WrittenKey};
use crate::types::data::{
    stored_view, JournalSeq, Mutation, MutationView, Muts, RevisionValue, Stored, Timestamp,
};

use crate::types::TabletId;
use crate::util::bytes::same_bytes;
use crate::util::ordmap::OrdMap;

verus! {

/// A write that the journal has.
#[derive(Debug)]
pub struct JournaledWrite {
    pub seq: JournalSeq,
    pub ts: Timestamp,
    pub keys: Vec<WrittenKey>,
}

/// What of a tablet is recovered: the runs that it held last, and the writes that these may lack.
#[derive(Debug)]
pub struct TabletRecovery {
    pub writes: Vec<JournaledWrite>,
    pub manifest: Option<Vec<RunEntry>>,
}

/// The writes from a position on.
pub open spec fn writes_from(writes: Seq<JournaledWrite>, seq: JournalSeq) -> Seq<JournaledWrite> {
    writes.filter(|w: JournaledWrite| w.seq.0 >= seq.0)
}

proof fn lemma_filter_suffix(writes: Seq<JournaledWrite>, seq: JournalSeq, n: int)
    requires
        0 <= n <= writes.len(),
        forall|i: int| 0 <= i < n ==> (#[trigger] writes[i]).seq.0 < seq.0,
        forall|i: int| n <= i < writes.len() ==> (#[trigger] writes[i]).seq.0 >= seq.0,
    ensures
        writes_from(writes, seq) == writes.skip(n),
    decreases writes.len(),
{
    reveal(Seq::filter);
    if writes.len() > 0 {
        if n == writes.len() {
            lemma_filter_suffix(writes.drop_last(), seq, n - 1);
            assert(writes.drop_last().skip(n - 1) =~= Seq::empty());
            assert(writes.skip(n) =~= Seq::empty());
        } else {
            lemma_filter_suffix(writes.drop_last(), seq, n);
            assert(writes.drop_last().skip(n).push(writes.last()) =~= writes.skip(n));
        }
    } else {
        assert(writes.skip(n) =~= writes);
    }
}

/// Runs that have all writes before a position leave exactly the writes from that position on to
/// be replayed.
pub proof fn law_runs_lose_no_write(writes: Seq<JournaledWrite>, seq: JournalSeq, w: JournaledWrite)
    ensures
        writes_from(writes, seq).contains(w) <==> writes.contains(w) && w.seq.0 >= seq.0,
    decreases writes.len(),
{
    reveal(Seq::filter);
    if writes.len() > 0 {
        let front = writes.drop_last();
        let kept = writes_from(front, seq);
        law_runs_lose_no_write(front, seq, w);
        if writes.contains(w) {
            let i = writes.index_of(w);
            if i < front.len() {
                assert(front[i] == w);
            }
        }
        if front.contains(w) {
            assert(writes[front.index_of(w)] == w);
        }
        if writes.last().seq.0 >= seq.0 {
            assert(writes_from(writes, seq) == kept.push(writes.last()));
            if kept.contains(w) {
                assert(kept.push(writes.last())[kept.index_of(w)] == w);
            }
            if w == writes.last() {
                assert(kept.push(writes.last())[kept.len() as int] == w);
                assert(writes[writes.len() - 1] == w);
            }
            if writes_from(writes, seq).contains(w) {
                let i = writes_from(writes, seq).index_of(w);
                if i < kept.len() {
                    assert(kept[i] == w);
                }
            }
        }
    }
}

impl TabletRecovery {
    /// The writes stand in the order of the journal.
    pub open spec fn wf(self) -> bool {
        forall|i: int, j: int|
            0 <= i < j < self.writes@.len() ==> (#[trigger] self.writes@[i]).seq.0 < (
            #[trigger] self.writes@[j]).seq.0
    }

    /// Whether a position comes after all writes so far.
    pub open spec fn before(self, seq: JournalSeq) -> bool {
        forall|i: int| 0 <= i < self.writes@.len() ==> (#[trigger] self.writes@[i]).seq.0 < seq.0
    }

    pub fn empty() -> (r: Self)
        ensures
            r.wf(),
            r.writes@.len() == 0,
            r.manifest is None,
    {
        TabletRecovery { writes: Vec::new(), manifest: None }
    }

    pub fn from_manifest(manifest: Vec<RunEntry>) -> (r: Self)
        ensures
            r.wf(),
            r.writes@.len() == 0,
            r.manifest == Some(manifest),
    {
        TabletRecovery { writes: Vec::new(), manifest: Some(manifest) }
    }

    /// Takes an entry of the journal into account. Runs stand for the writes before the position
    /// that they have at least all writes before.
    pub fn process(&mut self, seqno: JournalSeq, entry: TabletJournalEntry)
        requires
            old(self).wf(),
            entry is Write ==> old(self).before(seqno),
        ensures
            final(self).wf(),
            match entry {
                TabletJournalEntry::NoOp => *final(self) == *old(self),
                TabletJournalEntry::Write(ts, keys) => final(self).manifest == old(self).manifest
                    && final(self).writes@ == old(self).writes@.push(
                    (JournaledWrite { seq: seqno, ts, keys }),
                ),
                TabletJournalEntry::Manifest(included, manifest) => final(self).manifest == Some(
                    manifest,
                ) && final(self).writes@ == writes_from(old(self).writes@, included),
            },
            forall|next: JournalSeq|
                next.0 > seqno.0 && old(self).before(next) ==> #[trigger] final(self).before(next),
    {
        match entry {
            TabletJournalEntry::NoOp => {},
            TabletJournalEntry::Write(ts, keys) => {
                self.writes.push(JournaledWrite { seq: seqno, ts, keys });
            },
            TabletJournalEntry::Manifest(included, manifest) => {
                let mut n: usize = 0;
                while n < self.writes.len() && self.writes[n].seq.0 < included.0
                    invariant
                        n <= self.writes@.len(),
                        *self == *old(self),
                        forall|i: int|
                            0 <= i < n ==> (#[trigger] self.writes@[i]).seq.0 < included.0,
                    decreases self.writes@.len() - n,
                {
                    n += 1;
                }
                proof {
                    assert forall|i: int| n <= i < self.writes@.len() implies (
                    #[trigger] self.writes@[i]).seq.0 >= included.0 by {
                        if i > n {
                            assert(self.writes@[n as int].seq.0 < self.writes@[i].seq.0);
                        }
                    }
                    lemma_filter_suffix(self.writes@, included, n as int);
                }
                let rest = self.writes.split_off(n);
                assert(rest@ =~= old(self).writes@.skip(n as int));
                self.writes = rest;
                self.manifest = Some(manifest);
            },
        }
    }
}

/// Why a tablet cannot be recovered.
#[derive(Clone, Copy, Debug, PartialEq, Eq, Structural)]
pub enum RecoveryError {
    /// The runs have another value for a key at the time of a write.
    DuplicateRevision(Timestamp),
}

/// What writes a value.
pub open spec fn mutation_of(value: Option<Seq<u8>>) -> MutationView {
    match value {
        Some(v) => MutationView::Put(v),
        None => MutationView::Delete,
    }
}

/// What is still to be written of a key, from what the runs have for it at that time: nothing
/// where they have the value already, since they may have more writes than they have to.
pub open spec fn replayed(
    ts: Timestamp,
    value: Option<Seq<u8>>,
    existing: Option<(Timestamp, Option<Seq<u8>>)>,
) -> Result<Option<MutationView>, RecoveryError> {
    match existing {
        Some((existing_ts, existing_value)) => if existing_ts == ts {
            if existing_value == value {
                Ok(None)
            } else {
                Err(RecoveryError::DuplicateRevision(ts))
            }
        } else {
            Ok(Some(mutation_of(value)))
        },
        None => Ok(Some(mutation_of(value))),
    }
}

/// A write that was replayed is not replayed again.
pub proof fn law_replay_once(ts: Timestamp, value: Option<Seq<u8>>)
    ensures
        replayed(ts, value, Some((ts, value))) == Ok::<Option<MutationView>, RecoveryError>(None),
{
}

/// Replaying a write stores what the journal has: it puts the value, or deletes the key where the
/// journal has none. Nothing is replayed exactly where the runs have that same value at that time,
/// and another value there is an error.
pub proof fn law_replay_stores_journaled(ts: Timestamp, key: WrittenKey, existing: Stored)
    ensures
        match replayed(ts, key.value@, stored_view(existing)) {
            Ok(Some(m)) => {
                &&& !(existing matches Some((at, _)) && at == ts)
                &&& match key.value {
                    RevisionValue::Regular(v) => m == MutationView::Put(v@),
                    RevisionValue::Tombstone => m == MutationView::Delete,
                }
            },
            Ok(None) => existing matches Some((at, value)) && at == ts && match (value, key.value) {
                (RevisionValue::Regular(x), RevisionValue::Regular(y)) => x@ == y@,
                (RevisionValue::Tombstone, RevisionValue::Tombstone) => true,
                _ => false,
            },
            Err(RecoveryError::DuplicateRevision(t)) => t == ts && (existing matches Some((at, value))
                && at == ts && !match (value, key.value) {
                (RevisionValue::Regular(x), RevisionValue::Regular(y)) => x@ == y@,
                (RevisionValue::Tombstone, RevisionValue::Tombstone) => true,
                _ => false,
            }),
        },
{
}

/// A write that went to the journal is made again as it was, key by key, where the runs lack it.
pub proof fn law_replay_repeats_write(
    ts: Timestamp,
    list: Seq<WrittenKey>,
    muts: Muts,
    existing: Stored,
    i: int,
)
    requires
        records_write(list, muts),
        0 <= i < list.len(),
        existing matches Some((at, _)) ==> at != ts,
    ensures
        list[i].keyspace_id == muts.entries@[i].0.0,
        list[i].key@ == muts.entries@[i].0.1@,
        replayed(ts, list[i].value@, stored_view(existing)) == Ok::<
            Option<MutationView>,
            RecoveryError,
        >(
            Some(
                match muts.entries@[i].1 {
                    Mutation::Put(v) => MutationView::Put(v@),
                    Mutation::Delete => MutationView::Delete,
                },
            ),
        ),
{
    assert((list[i].keyspace_id, list[i].key@) == muts.entries@[i].0@);
}

fn same_value(a: &RevisionValue, b: &RevisionValue) -> (r: bool)
    ensures
        r == (a@ == b@),
{
    match (a, b) {
        (RevisionValue::Regular(x), RevisionValue::Regular(y)) => same_bytes(x, y),
        (RevisionValue::Tombstone, RevisionValue::Tombstone) => true,
        _ => false,
    }
}

/// Decides what is still to be written of a key, from what the runs have for it at that time.
pub fn replay_key(ts: Timestamp, key: &WrittenKey, existing: &Stored) -> (r: Result<
    Option<Mutation>,
    RecoveryError,
>)
    ensures
        match replayed(ts, key.value@, stored_view(*existing)) {
            Ok(None) => r matches Ok(None),
            Ok(Some(m)) => r matches Ok(Some(m2)) && m2@ == m,
            Err(e) => r matches Err(e2) && e2 == e,
        },
        r matches Ok(Some(m)) ==> match (key.value, m) {
            (RevisionValue::Regular(v), Mutation::Put(w)) => v@ == w@,
            (RevisionValue::Tombstone, Mutation::Delete) => true,
            _ => false,
        },
{
    if let Some((existing_ts, existing_value)) = existing {
        if *existing_ts == ts {
            if !same_value(&key.value, existing_value) {
                return Err(RecoveryError::DuplicateRevision(ts));
            }
            return Ok(None);
        }
    }
    Ok(
        Some(
            match &key.value {
                RevisionValue::Regular(value) => Mutation::Put(value.copied()),
                RevisionValue::Tombstone => Mutation::Delete,
            },
        ),
    )
}

/// What of a shard's tablets is recovered.
pub struct ShardRecovery {
    pub tablets: OrdMap<TabletId, TabletRecovery>,
}

fn copy_runs(runs: &Vec<RunEntry>) -> (r: Vec<RunEntry>)
    ensures
        r@ == runs@,
{
    let mut r: Vec<RunEntry> = Vec::new();
    let mut i: usize = 0;
    while i < runs.len()
        invariant
            i <= runs@.len(),
            r@ == runs@.take(i as int),
        decreases runs@.len() - i,
    {
        r.push(runs[i]);
        i += 1;
        assert(r@ =~= runs@.take(i as int));
    }
    assert(r@ =~= runs@);
    r
}

impl ShardRecovery {
    pub open spec fn wf(self) -> bool {
        &&& self.tablets.wf()
        &&& forall|id: TabletId| #[trigger]
            self.tablets@.contains_key(id) ==> self.tablets@[id].wf()
    }

    /// Whether a position comes after all writes so far.
    pub open spec fn before(self, seq: JournalSeq) -> bool {
        forall|id: TabletId| #[trigger]
            self.tablets@.contains_key(id) ==> self.tablets@[id].before(seq)
    }

    pub fn empty() -> (r: Self)
        ensures
            r.wf(),
            r.tablets@ == Map::<TabletId, TabletRecovery>::empty(),
    {
        ShardRecovery { tablets: OrdMap::new() }
    }

    /// The tablets with the runs that each of them held.
    pub fn from_manifests(manifests: &OrdMap<TabletId, Vec<RunEntry>>) -> (r: Self)
        requires
            manifests.wf(),
        ensures
            r.wf(),
            forall|id: TabletId| #[trigger]
                r.tablets@.contains_key(id) <==> manifests@.contains_key(id),
            forall|id: TabletId| #[trigger]
                r.tablets@.contains_key(id) ==> r.tablets@[id].writes@.len() == 0 && (
                r.tablets@[id].manifest matches Some(m) && m@ == manifests@[id]@),
    {
        let mut tablets: OrdMap<TabletId, TabletRecovery> = OrdMap::new();
        let mut i: usize = 0;
        while i < manifests.entries.len()
            invariant
                i <= manifests.entries@.len(),
                manifests.wf(),
                tablets.wf(),
                forall|id: TabletId| #[trigger]
                    tablets@.contains_key(id) <==> manifests.keys().take(i as int).contains(id),
                forall|id: TabletId| #[trigger]
                    tablets@.contains_key(id) ==> tablets@[id].wf() && tablets@[id].writes@.len()
                        == 0 && (tablets@[id].manifest matches Some(m) && m@ == manifests@[id]@),
            decreases manifests.entries@.len() - i,
        {
            let id = manifests.entries[i].0;
            let ghost before = tablets@;
            tablets.insert(
                id,
                TabletRecovery::from_manifest(copy_runs(&manifests.entries[i].1)),
            );
            proof {
                manifests.lemma_entry(i as int);
                let s = manifests.keys().take(i as int);
                let t = manifests.keys().take(i + 1);
                assert(t =~= s.push(id));
                assert forall|k: TabletId| #[trigger]
                    tablets@.contains_key(k) <==> t.contains(k) by {
                    assert(before.contains_key(k) <==> s.contains(k));
                    if s.contains(k) {
                        assert(t[s.index_of(k)] == k);
                    }
                    if k == id {
                        assert(t[i as int] == k);
                    }
                    if t.contains(k) && k != id {
                        assert(s[t.index_of(k)] == k);
                    }
                }
            }
            i += 1;
        }
        proof {
            assert(manifests.keys().take(i as int) =~= manifests.keys());
        }
        ShardRecovery { tablets }
    }

    /// Takes an entry of the shard's journal into account.
    pub fn process(&mut self, seqno: JournalSeq, entry: ShardEntry<TabletJournalEntry>)
        requires
            old(self).wf(),
            entry.entry is Write && old(self).tablets@.contains_key(entry.tablet_id) ==> old(
                self,
            ).tablets@[entry.tablet_id].before(seqno),
        ensures
            final(self).wf(),
            final(self).tablets@ == old(self).tablets@.insert(
                entry.tablet_id,
                final(self).tablets@[entry.tablet_id],
            ),
            ({
                let known = old(self).tablets@.contains_key(entry.tablet_id);
                let writes = if known {
                    old(self).tablets@[entry.tablet_id].writes@
                } else {
                    Seq::empty()
                };
                let after = final(self).tablets@[entry.tablet_id];
                match entry.entry {
                    TabletJournalEntry::NoOp => after.writes@ == writes && (if known {
                        after.manifest == old(self).tablets@[entry.tablet_id].manifest
                    } else {
                        after.manifest is None
                    }),
                    TabletJournalEntry::Write(ts, keys) => after.writes@ == writes.push(
                        (JournaledWrite { seq: seqno, ts, keys }),
                    ) && (if known {
                        after.manifest == old(self).tablets@[entry.tablet_id].manifest
                    } else {
                        after.manifest is None
                    }),
                    TabletJournalEntry::Manifest(included, manifest) => after.manifest == Some(
                        manifest,
                    ) && after.writes@ == writes_from(writes, included),
                }
            }),
            forall|next: JournalSeq|
                next.0 > seqno.0 && old(self).before(next) ==> #[trigger] final(self).before(next),
    {
        let id = entry.tablet_id;
        let ghost start = self.tablets@;
        let mut tablet = match self.tablets.remove(&id) {
            Some(tablet) => tablet,
            None => TabletRecovery::empty(),
        };
        let ghost was = tablet;
        tablet.process(seqno, entry.entry);
        self.tablets.insert(id, tablet);
        proof {
            assert(self.tablets@ =~= start.insert(id, tablet));
            if !start.contains_key(id) {
                assert(was.writes@ =~= Seq::empty());
            }
            assert forall|next: JournalSeq| next.0 > seqno.0 && old(self).before(
                next,
            ) implies #[trigger] self.before(next) by {
                assert forall|k: TabletId| #[trigger]
                    self.tablets@.contains_key(k) implies self.tablets@[k].before(next) by {
                    if k != id {
                        assert(start.contains_key(k));
                    } else if start.contains_key(id) {
                        assert(was.before(next));
                    }
                }
            }
        }
    }
}

} // verus!
