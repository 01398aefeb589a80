//! The garbage collector for runs in storage.
//!
//! As stores receive writes, they compact revisions into runs. This creates many unreachable runs,
//! which contain data that is often redundant with the runs that are still used. The collector
//! finds and removes unreachable runs by repeatedly moving through phases: it gathers all runs that
//! exist in storage into a set of candidates, waits, removes from the set the runs that are still
//! live, and deletes the runs that are left.

use vstd::prelude::*;

use super::manifests::RunId;
use crate::meta::{MetaSnapshot, MetaState, TabletMetadata, TabletState};
use crate::range::span::law_prefix_range;
use crate::range::{Bound, Range};
use crate::types::data::{Key, Precondition, Timestamp};
use crate::types::{KeyspaceId, ShardId, TabletId};
use crate::util::bytes::{
    append_bytes, be_bytes, be_value, lemma_byte_range, lemma_bytes_of_value, lemma_value_of_bytes,
    u128_be,
};

verus! {

/// How long, in nanoseconds, a run has to be gathered before it can be deleted: fifteen minutes.
pub const GC_PRUNE_WAIT_NANOS: u64 = 900_000_000_000;

/// How long the encoding of a run is.
pub const RUN_ID_LEN: usize = 16;

/// How many parts the candidates are kept in, each with a phase of its own. A candidate belongs to
/// the part that the first byte of its encoding names.
pub const GC_PARTS: usize = 256;

/// What the collector is doing.
#[derive(Clone, Copy, Debug, PartialEq, Eq, Structural)]
pub enum GcPhase {
    /// Gather the candidates, that is, all of the runs that exist in storage.
    Gather,
    /// Pause between gathering and pruning. This is the minimum amount of time that a run has to be
    /// considered dead to be deleted.
    Wait { start: Timestamp },
    /// Remove the runs that are still live from the candidates, leaving only dead runs.
    Prune,
    /// Delete the dead runs from storage.
    Sweep,
}

/// Why the collector cannot do what is asked.
#[derive(Clone, Copy, Debug, PartialEq, Eq, Structural)]
pub enum GcError {
    /// Candidates are only added while they are gathered.
    NotGathering,
    /// Candidates are only removed while they are pruned or swept.
    NotRemoving,
    /// The phase does not follow on the phase that a part is in.
    CannotTransition(GcPhase, GcPhase),
    /// The key of a candidate is not the encoding of a run.
    NotARun,
    /// A message names no phase.
    MissingPhase,
}

/// A phase as it stands in a message, where a wait starts at a time in microseconds.
#[derive(Clone, Copy, Debug, PartialEq, Eq, Structural)]
pub enum PhaseType {
    Gather,
    Wait { start: u64 },
    Prune,
    Sweep,
}

/// A message about a phase.
#[derive(Clone, Copy, Debug, PartialEq, Eq, Structural)]
pub struct PhaseMessage {
    pub phase: Option<PhaseType>,
}

impl GcPhase {
    /// Whether a phase follows on this one.
    pub open spec fn leads_to(self, to: GcPhase) -> bool {
        match self {
            GcPhase::Gather => to is Wait,
            GcPhase::Wait { .. } => to is Prune,
            GcPhase::Prune => to is Sweep,
            GcPhase::Sweep => to is Gather,
        }
    }

    pub fn can_transition(&self, to: &GcPhase) -> (r: bool)
        ensures
            r == self.leads_to(*to),
    {
        match (self, to) {
            (GcPhase::Gather, GcPhase::Wait { .. }) => true,
            (GcPhase::Wait { .. }, GcPhase::Prune) => true,
            (GcPhase::Prune, GcPhase::Sweep) => true,
            (GcPhase::Sweep, GcPhase::Gather) => true,
            _ => false,
        }
    }

    /// The phase that follows, which a wait enters at the present.
    pub open spec fn following(self, now: Timestamp) -> GcPhase {
        match self {
            GcPhase::Gather => GcPhase::Wait { start: now },
            GcPhase::Wait { .. } => GcPhase::Prune,
            GcPhase::Prune => GcPhase::Sweep,
            GcPhase::Sweep => GcPhase::Gather,
        }
    }

    pub fn next(&self, now: Timestamp) -> (r: GcPhase)
        ensures
            r == self.following(now),
            self.leads_to(r),
    {
        match self {
            GcPhase::Gather => GcPhase::Wait { start: now },
            GcPhase::Wait { .. } => GcPhase::Prune,
            GcPhase::Prune => GcPhase::Sweep,
            GcPhase::Sweep => GcPhase::Gather,
        }
    }

    /// How long, in nanoseconds, is still to be waited in this phase. The start of a wait counts in
    /// whole microseconds.
    pub open spec fn wait_left(self, now: Timestamp) -> int {
        match self {
            GcPhase::Wait { start } => {
                let left = start.0 / 1_000 * 1_000 + GC_PRUNE_WAIT_NANOS - now.0;
                if left < 0 {
                    0
                } else if left > u64::MAX {
                    u64::MAX as int
                } else {
                    left
                }
            },
            _ => 0,
        }
    }

    pub fn remaining_wait(&self, now: Timestamp) -> (r: u64)
        ensures
            r == self.wait_left(now),
    {
        match self {
            GcPhase::Wait { start } => {
                let start: u64 = start.as_micros() * 1_000;
                if start >= now.0 {
                    (start - now.0).saturating_add(GC_PRUNE_WAIT_NANOS)
                } else if now.0 - start >= GC_PRUNE_WAIT_NANOS {
                    0
                } else {
                    GC_PRUNE_WAIT_NANOS - (now.0 - start)
                }
            },
            _ => 0,
        }
    }

    /// The message about a phase.
    pub open spec fn message(self) -> PhaseMessage {
        PhaseMessage {
            phase: Some(
                match self {
                    GcPhase::Gather => PhaseType::Gather,
                    GcPhase::Wait { start } => PhaseType::Wait { start: start.0 / 1_000 },
                    GcPhase::Prune => PhaseType::Prune,
                    GcPhase::Sweep => PhaseType::Sweep,
                },
            ),
        }
    }

    pub fn to_message(&self) -> (r: PhaseMessage)
        ensures
            r == self.message(),
    {
        let phase = match self {
            GcPhase::Gather => PhaseType::Gather,
            GcPhase::Wait { start } => PhaseType::Wait { start: start.as_micros() },
            GcPhase::Prune => PhaseType::Prune,
            GcPhase::Sweep => PhaseType::Sweep,
        };
        PhaseMessage { phase: Some(phase) }
    }

    /// The phase that a message is about.
    pub fn from_message(message: PhaseMessage) -> (r: Result<GcPhase, GcError>)
        requires
            message.phase matches Some(PhaseType::Wait { start }) ==> start * 1_000 <= u64::MAX,
        ensures
            r == match message.phase {
                None => Err::<GcPhase, GcError>(GcError::MissingPhase),
                Some(PhaseType::Gather) => Ok(GcPhase::Gather),
                Some(PhaseType::Wait { start }) => Ok(
                    GcPhase::Wait { start: Timestamp((start * 1_000) as u64) },
                ),
                Some(PhaseType::Prune) => Ok(GcPhase::Prune),
                Some(PhaseType::Sweep) => Ok(GcPhase::Sweep),
            },
    {
        match message.phase {
            None => Err(GcError::MissingPhase),
            Some(PhaseType::Gather) => Ok(GcPhase::Gather),
            Some(PhaseType::Wait { start }) => Ok(
                GcPhase::Wait { start: Timestamp::from_micros(start) },
            ),
            Some(PhaseType::Prune) => Ok(GcPhase::Prune),
            Some(PhaseType::Sweep) => Ok(GcPhase::Sweep),
        }
    }
}

/// A message about a phase tells it again, but for the part of a microsecond at which a wait
/// started, and with it how long is still to be waited.
pub proof fn law_phase_message(phase: GcPhase, now: Timestamp)
    ensures
        match phase {
            GcPhase::Wait { start } => {
                &&& phase.message().phase matches Some(PhaseType::Wait { start: micros })
                &&& micros * 1_000 <= start.0
                &&& start.0 < micros * 1_000 + 1_000
                &&& (GcPhase::Wait { start: Timestamp((micros * 1_000) as u64) }).wait_left(now)
                    == phase.wait_left(now)
            },
            GcPhase::Gather => phase.message().phase == Some(PhaseType::Gather),
            GcPhase::Prune => phase.message().phase == Some(PhaseType::Prune),
            GcPhase::Sweep => phase.message().phase == Some(PhaseType::Sweep),
        },
{
}

/// The phases come round in a fixed order: four steps lead back to the phase that they started
/// from, and no fewer do.
pub proof fn law_phases_come_round(a: GcPhase, b: GcPhase, c: GcPhase, d: GcPhase, e: GcPhase)
    requires
        a.leads_to(b),
        b.leads_to(c),
        c.leads_to(d),
        d.leads_to(e),
    ensures
        a is Gather ==> b is Wait && c is Prune && d is Sweep && e is Gather,
        a is Wait ==> b is Prune && c is Sweep && d is Gather && e is Wait,
        a is Prune ==> b is Sweep && c is Gather && d is Wait && e is Prune,
        a is Sweep ==> b is Gather && c is Wait && d is Prune && e is Sweep,
{
}

/// Calls `uuid::Uuid::from_slice`, and `uuid::Uuid::as_u128` on the result: sixteen bytes give the
/// number that they stand for in big-endian order, and bytes of any other length give nothing.
#[verifier::external_body]
fn uuid_of_bytes(b: &[u8]) -> (r: Option<u128>)
    ensures
        match r {
            Some(n) => b@.len() == 16 && n as nat == be_value(b@),
            None => b@.len() != 16,
        },
{
    match uuid::Uuid::from_slice(b) {
        Ok(id) => Some(id.as_u128()),
        Err(_) => None,
    }
}

impl RunId {
    /// The encoding of a run.
    pub open spec fn bytes(self) -> Seq<u8> {
        be_bytes(self.0 as nat, 16)
    }

    /// The part of the candidates that the run belongs to.
    pub open spec fn part(self) -> u8 {
        self.bytes()[0]
    }

    pub fn encode_fixed(&self) -> (r: Vec<u8>)
        ensures
            r@ == self.bytes(),
            r@.len() == RUN_ID_LEN,
    {
        let b = u128_be(self.0);
        let mut out: Vec<u8> = Vec::new();
        append_bytes(&mut out, &b);
        proof {
            lemma_bytes_of_value(b@);
            assert(out@ =~= b@);
        }
        out
    }

    /// The run that bytes are the encoding of, if they have the right length.
    pub fn decode(b: &[u8]) -> (r: Option<RunId>)
        ensures
            match r {
                Some(id) => b@.len() == RUN_ID_LEN && id.bytes() == b@,
                None => b@.len() != RUN_ID_LEN,
            },
    {
        match uuid_of_bytes(b) {
            Some(n) => {
                proof {
                    lemma_bytes_of_value(b@);
                }
                Some(RunId(n))
            },
            None => None,
        }
    }
}

/// A run is read back from its encoding.
pub proof fn law_run_roundtrip(a: RunId, b: RunId)
    ensures
        a.bytes().len() == RUN_ID_LEN,
        a.bytes() == b.bytes() ==> a == b,
{
    lemma_byte_range();
    lemma_value_of_bytes(a.0 as nat, 16);
    lemma_value_of_bytes(b.0 as nat, 16);
}

/// What the collector keeps.
#[derive(Clone, Copy, Debug, PartialEq, Eq, Structural)]
pub enum GcStorageKey {
    /// The phase that a part of the candidates is in.
    Phase(u8),
    Candidate(RunId),
}

impl GcStorageKey {
    /// The keyspace and the key under which it is kept.
    pub open spec fn encoded(self) -> (KeyspaceId, Seq<u8>) {
        match self {
            GcStorageKey::Phase(part) => (KeyspaceId::gc_phase(), seq![part]),
            GcStorageKey::Candidate(run_id) => (KeyspaceId::gc_candidate(), run_id.bytes()),
        }
    }

    pub fn encode(&self) -> (r: Key)
        ensures
            (r.0, r.1@) == self.encoded(),
    {
        match self {
            GcStorageKey::Phase(part) => {
                let key: Vec<u8> = vec![*part];
                assert(key@ =~= seq![*part]);
                (KeyspaceId::gc_phase(), key)
            },
            GcStorageKey::Candidate(run_id) => (
                KeyspaceId::gc_candidate(),
                run_id.encode_fixed(),
            ),
        }
    }
}

/// Different things are kept under different keys.
pub proof fn law_gc_keys_differ(a: GcStorageKey, b: GcStorageKey)
    requires
        a.encoded() == b.encoded(),
    ensures
        a == b,
{
    match (a, b) {
        (GcStorageKey::Phase(p), GcStorageKey::Phase(q)) => {
            assert(seq![p][0] == seq![q][0]);
        },
        (GcStorageKey::Candidate(x), GcStorageKey::Candidate(y)) => {
            law_run_roundtrip(x, y);
        },
        _ => {},
    }
}

/// A change to what the collector keeps.
#[derive(Clone, Copy, Debug, PartialEq, Eq, Structural)]
pub enum GcChange {
    SetPhase(u8, GcPhase),
    Add(RunId),
    Remove(RunId),
}

/// A write of the collector, which fails where a phase has changed in the meantime.
#[derive(Debug)]
pub struct GcWrite {
    pub preconds: Vec<Precondition>,
    pub changes: Vec<GcChange>,
}

/// Whether a precondition is that the phase of a part has not changed since a point in time.
pub open spec fn guards_phase(p: Precondition, part: u8, since: Timestamp) -> bool {
    p.key_view() == GcStorageKey::Phase(part).encoded() && p.since() == since
}

fn phase_guard(part: u8, since: Timestamp) -> (r: Precondition)
    ensures
        guards_phase(r, part, since),
{
    let key = GcStorageKey::Phase(part).encode();
    Precondition::NotChangedSince(key.0, key.1, since)
}

/// The candidates once changes were made, one after the other.
pub open spec fn candidates_after(before: Set<RunId>, changes: Seq<GcChange>) -> Set<RunId>
    decreases changes.len(),
{
    if changes.len() == 0 {
        before
    } else {
        let rest = candidates_after(before, changes.drop_last());
        match changes.last() {
            GcChange::Add(run_id) => rest.insert(run_id),
            GcChange::Remove(run_id) => rest.remove(run_id),
            GcChange::SetPhase(..) => rest,
        }
    }
}

/// What is swept is what was gathered and not found live. A run that was removed from the
/// candidates and not added again, which it can only be once runs are gathered anew, is no
/// candidate; and a run that was added and not removed is one.
pub proof fn law_only_dead_runs_are_swept(
    before: Set<RunId>,
    changes: Seq<GcChange>,
    i: int,
    run_id: RunId,
)
    requires
        0 <= i < changes.len(),
    ensures
        changes[i] == GcChange::Remove(run_id) && (forall|j: int|
            i < j < changes.len() ==> #[trigger] changes[j] != GcChange::Add(run_id))
            ==> !candidates_after(before, changes).contains(run_id),
        changes[i] == GcChange::Add(run_id) && (forall|j: int|
            i < j < changes.len() ==> #[trigger] changes[j] != GcChange::Remove(run_id))
            ==> candidates_after(before, changes).contains(run_id),
    decreases changes.len(),
{
    let rest = changes.drop_last();
    if i < rest.len() {
        law_only_dead_runs_are_swept(before, rest, i, run_id);
        assert forall|j: int| i < j < rest.len() implies #[trigger] rest[j] == changes[j] by {}
        assert(changes.last() == changes[changes.len() - 1]);
    }
}

/// The phase of a part of the candidates: what is kept, or the first phase, which is then to be
/// written.
pub fn get_or_init_phase(part: u8, stored: Option<GcPhase>, snapshot_ts: Timestamp) -> (r: (
    GcPhase,
    Option<GcWrite>,
))
    ensures
        match stored {
            Some(phase) => r.0 == phase && r.1 is None,
            None => r.0 is Gather && (r.1 matches Some(w) && w.preconds@.len() == 1
                && guards_phase(w.preconds@[0], part, snapshot_ts) && w.changes@ == seq![
                GcChange::SetPhase(part, GcPhase::Gather),
            ]),
        },
{
    match stored {
        Some(phase) => (phase, None),
        None => {
            let changes = vec![GcChange::SetPhase(part, GcPhase::Gather)];
            assert(changes@ =~= seq![GcChange::SetPhase(part, GcPhase::Gather)]);
            (
                GcPhase::Gather,
                Some(GcWrite { preconds: vec![phase_guard(part, snapshot_ts)], changes }),
            )
        },
    }
}

/// The write that makes a change within a phase. The phase is written along, so that writes of one
/// part get in each other's way.
fn transact(part: u8, phase: GcPhase, snapshot_ts: Timestamp, change: GcChange) -> (r: GcWrite)
    ensures
        r.preconds@.len() == 1,
        guards_phase(r.preconds@[0], part, snapshot_ts),
        r.changes@ == seq![change, GcChange::SetPhase(part, phase)],
{
    let changes = vec![change, GcChange::SetPhase(part, phase)];
    assert(changes@ =~= seq![change, GcChange::SetPhase(part, phase)]);
    GcWrite { preconds: vec![phase_guard(part, snapshot_ts)], changes }
}

/// The part of the candidates that a run belongs to.
pub fn part_of(run_id: RunId) -> (r: u8)
    ensures
        r == run_id.part(),
{
    let b = run_id.encode_fixed();
    b[0]
}

/// The write that adds a candidate, from the phase of the candidate's part.
pub fn insert_candidate(run_id: RunId, phase: GcPhase, snapshot_ts: Timestamp) -> (r: Result<
    GcWrite,
    GcError,
>)
    ensures
        match r {
            Ok(w) => phase is Gather && w.preconds@.len() == 1 && guards_phase(
                w.preconds@[0],
                run_id.part(),
                snapshot_ts,
            ) && w.changes@ == seq![
                GcChange::Add(run_id),
                GcChange::SetPhase(run_id.part(), phase),
            ],
            Err(e) => !(phase is Gather) && e == GcError::NotGathering,
        },
{
    match phase {
        GcPhase::Gather => Ok(
            transact(part_of(run_id), phase, snapshot_ts, GcChange::Add(run_id)),
        ),
        _ => Err(GcError::NotGathering),
    }
}

/// The write that removes a candidate, from the phase of the candidate's part.
pub fn remove_candidate(run_id: RunId, phase: GcPhase, snapshot_ts: Timestamp) -> (r: Result<
    GcWrite,
    GcError,
>)
    ensures
        match r {
            Ok(w) => (phase is Prune || phase is Sweep) && w.preconds@.len() == 1 && guards_phase(
                w.preconds@[0],
                run_id.part(),
                snapshot_ts,
            ) && w.changes@ == seq![
                GcChange::Remove(run_id),
                GcChange::SetPhase(run_id.part(), phase),
            ],
            Err(e) => !(phase is Prune || phase is Sweep) && e == GcError::NotRemoving,
        },
{
    match phase {
        GcPhase::Prune | GcPhase::Sweep => Ok(
            transact(part_of(run_id), phase, snapshot_ts, GcChange::Remove(run_id)),
        ),
        _ => Err(GcError::NotRemoving),
    }
}

/// The first part whose phase the target phase does not follow on.
pub open spec fn first_stuck(phases: Seq<(Timestamp, GcPhase)>, target: GcPhase) -> Option<GcPhase>
    decreases phases.len(),
{
    if phases.len() == 0 {
        None
    } else {
        match first_stuck(phases.drop_last(), target) {
            Some(p) => Some(p),
            None => if phases.last().1.leads_to(target) {
                None
            } else {
                Some(phases.last().1)
            },
        }
    }
}

proof fn lemma_first_stuck(phases: Seq<(Timestamp, GcPhase)>, target: GcPhase, n: int)
    requires
        0 <= n <= phases.len(),
        first_stuck(phases.take(n), target) is Some,
    ensures
        first_stuck(phases, target) == first_stuck(phases.take(n), target),
    decreases phases.len(),
{
    if n == phases.len() {
        assert(phases.take(n) =~= phases);
    } else {
        assert(phases.drop_last().take(n) =~= phases.take(n));
        lemma_first_stuck(phases.drop_last(), target, n);
    }
}

/// The write that takes all parts to a phase, from the phase of each and when it was read.
pub fn transition(phases: &Vec<(Timestamp, GcPhase)>, target: GcPhase) -> (r: Result<
    GcWrite,
    GcError,
>)
    requires
        phases@.len() == GC_PARTS,
    ensures
        match first_stuck(phases@, target) {
            Some(from) => r matches Err(e) && e == GcError::CannotTransition(from, target),
            None => {
                &&& r matches Ok(w)
                &&& w.preconds@.len() == GC_PARTS
                &&& w.changes@.len() == GC_PARTS
                &&& forall|i: int|
                    0 <= i < GC_PARTS ==> guards_phase(
                        #[trigger] w.preconds@[i],
                        i as u8,
                        phases@[i].0,
                    )
                &&& forall|i: int|
                    0 <= i < GC_PARTS ==> #[trigger] w.changes@[i] == GcChange::SetPhase(
                        i as u8,
                        target,
                    )
            },
        },
{
    let mut preconds: Vec<Precondition> = Vec::new();
    let mut changes: Vec<GcChange> = Vec::new();
    let mut i: usize = 0;
    assert(phases@.take(0) =~= Seq::empty());
    while i < phases.len()
        invariant
            i <= phases@.len(),
            phases@.len() == GC_PARTS,
            first_stuck(phases@.take(i as int), target) is None,
            preconds@.len() == i,
            changes@.len() == i,
            forall|j: int|
                0 <= j < i ==> guards_phase(#[trigger] preconds@[j], j as u8, phases@[j].0),
            forall|j: int|
                0 <= j < i ==> #[trigger] changes@[j] == GcChange::SetPhase(j as u8, target),
        decreases phases@.len() - i,
    {
        proof {
            assert(phases@.take(i + 1).drop_last() =~= phases@.take(i as int));
            assert(phases@.take(i + 1).last() == phases@[i as int]);
        }
        let (snapshot_ts, phase) = phases[i];
        if !phase.can_transition(&target) {
            proof {
                lemma_first_stuck(phases@, target, i + 1);
            }
            return Err(GcError::CannotTransition(phase, target));
        }
        let part: u8 = i as u8;
        preconds.push(phase_guard(part, snapshot_ts));
        changes.push(GcChange::SetPhase(part, target));
        i += 1;
    }
    assert(phases@.take(i as int) =~= phases@);
    Ok(GcWrite { preconds, changes })
}

/// Where to go on listing the candidates.
#[derive(Debug)]
pub enum ListCandidatesCursor {
    /// At the start of a part.
    Start(u8),
    /// Within a part.
    Continue(u8, Range<Vec<u8>>),
}

impl ListCandidatesCursor {
    /// The part, and the range of keys that is left of it.
    pub fn range(&self) -> (r: (u8, Range<Vec<u8>>))
        ensures
            match *self {
                ListCandidatesCursor::Start(part) => r.0 == part && r.1@ == (Range {
                    lower: Bound::Before(seq![part]),
                    upper: Bound::AfterPrefix(seq![part]),
                }),
                ListCandidatesCursor::Continue(part, range) => r.0 == part && r.1@ == range@,
            },
    {
        match self {
            ListCandidatesCursor::Start(part) => {
                let pfx: Vec<u8> = vec![*part];
                assert(pfx@ =~= seq![*part]);
                (*part, Range::prefix(pfx))
            },
            ListCandidatesCursor::Continue(part, range) => (*part, range.clone()),
        }
    }
}

/// A run belongs to a part exactly when its encoding lies in the range of the part.
pub proof fn law_part_is_prefix(run_id: RunId, part: u8)
    ensures
        (run_id.part() == part) == (Range {
            lower: Bound::Before(seq![part]),
            upper: Bound::AfterPrefix(seq![part]),
        }).has(run_id.bytes()),
{
    law_run_roundtrip(run_id, run_id);
    law_prefix_range(seq![part], run_id.bytes());
    assert(run_id.bytes().take(1) =~= seq![run_id.bytes()[0]]);
    assert(seq![part][0] == part);
    if run_id.bytes().take(1) == seq![part] {
        assert(run_id.bytes().take(1)[0] == part);
    }
}

/// The candidates of a page of keys.
pub open spec fn run_ids_of(keys: Seq<Vec<u8>>, ids: Seq<RunId>) -> bool {
    &&& ids.len() == keys.len()
    &&& forall|i: int| 0 <= i < keys.len() ==> (#[trigger] ids[i]).bytes() == keys[i]@
}

/// The candidates of a page of keys, and where to go on.
pub fn finish_page(part: u8, keys: &Vec<Vec<u8>>, rest: Option<Range<Vec<u8>>>) -> (r: Result<
    (Vec<RunId>, Option<ListCandidatesCursor>),
    GcError,
>)
    ensures
        match r {
            Ok((ids, next)) => {
                &&& run_ids_of(keys@, ids@)
                &&& next == match rest {
                    Some(range) => Some(ListCandidatesCursor::Continue(part, range)),
                    None => None,
                }
            },
            Err(e) => e == GcError::NotARun,
        },
        r is Ok <==> forall|i: int| 0 <= i < keys@.len() ==> (#[trigger] keys@[i])@.len()
            == RUN_ID_LEN,
{
    let mut ids: Vec<RunId> = Vec::new();
    let mut i: usize = 0;
    while i < keys.len()
        invariant
            i <= keys@.len(),
            ids@.len() == i,
            forall|j: int| 0 <= j < i ==> (#[trigger] ids@[j]).bytes() == keys@[j]@,
            forall|j: int| 0 <= j < i ==> (#[trigger] keys@[j])@.len() == RUN_ID_LEN,
        decreases keys@.len() - i,
    {
        match RunId::decode(&keys[i]) {
            Some(id) => {
                ids.push(id);
            },
            None => {
                assert(keys@[i as int]@.len() != RUN_ID_LEN);
                return Err(GcError::NotARun);
            },
        }
        i += 1;
    }
    let next = match rest {
        Some(range) => Some(ListCandidatesCursor::Continue(part, range)),
        None => None,
    };
    Ok((ids, next))
}

/// Whether a tablet can hold live runs: it is active or frozen, or about to leave such a state.
pub open spec fn holds_runs(state: MetaState<TabletState>) -> bool {
    let current = match state {
        MetaState::Stable(s) => s,
        MetaState::Transitioning(s, _) => s,
    };
    current is Active || current is Frozen
}

/// The tablets that can hold live runs, in order.
pub open spec fn holding(tablets: Seq<(TabletId, TabletMetadata)>) -> Seq<TabletId>
    decreases tablets.len(),
{
    if tablets.len() == 0 {
        Seq::empty()
    } else if holds_runs(tablets.last().1.state) {
        holding(tablets.drop_last()).push(tablets.last().0)
    } else {
        holding(tablets.drop_last())
    }
}

/// The tablets that can hold live runs, in order.
pub fn active_frozen_tablet_ids(snapshot: &MetaSnapshot) -> (r: Vec<TabletId>)
    ensures
        r@ == holding(snapshot.tablets.entries@),
{
    let ghost all = snapshot.tablets.entries@;
    let mut r: Vec<TabletId> = Vec::new();
    let mut i: usize = 0;
    assert(all.take(0) =~= Seq::empty());
    while i < snapshot.tablets.entries.len()
        invariant
            i <= snapshot.tablets.entries@.len(),
            all == snapshot.tablets.entries@,
            r@ == holding(all.take(i as int)),
        decreases snapshot.tablets.entries@.len() - i,
    {
        proof {
            assert(all.take(i + 1).drop_last() =~= all.take(i as int));
            assert(all.take(i + 1).last() == all[i as int]);
        }
        let current = match snapshot.tablets.entries[i].1.state {
            MetaState::Stable(state) => state,
            MetaState::Transitioning(state, _) => state,
        };
        match current {
            TabletState::Active | TabletState::Frozen => {
                r.push(snapshot.tablets.entries[i].0);
            },
            _ => {},
        }
        i += 1;
    }
    assert(all.take(i as int) =~= all);
    r
}

/// Whether a tablet was seen before the runs of shards were asked for: it was there, and its shard
/// was asked.
pub open spec fn was_seen(starting: Seq<TabletId>, asked: Seq<ShardId>, id: TabletId) -> bool {
    starting.contains(id) && asked.contains(id.0)
}

/// The shards to ask again.
pub open spec fn to_recheck(
    starting: Seq<TabletId>,
    asked: Seq<ShardId>,
    ending: Seq<TabletId>,
    shard: ShardId,
) -> bool {
    exists|i: int|
        0 <= i < ending.len() && (#[trigger] ending[i]).0 == shard && !was_seen(
            starting,
            asked,
            ending[i],
        )
}

fn contains_tablet(ids: &Vec<TabletId>, id: TabletId) -> (r: bool)
    ensures
        r == ids@.contains(id),
{
    let mut i: usize = 0;
    while i < ids.len()
        invariant
            i <= ids@.len(),
            forall|j: int| 0 <= j < i ==> #[trigger] ids@[j] != id,
        decreases ids@.len() - i,
    {
        if ids[i] == id {
            return true;
        }
        i += 1;
    }
    false
}

fn contains_shard(ids: &Vec<ShardId>, id: ShardId) -> (r: bool)
    ensures
        r == ids@.contains(id),
{
    let mut i: usize = 0;
    while i < ids.len()
        invariant
            i <= ids@.len(),
            forall|j: int| 0 <= j < i ==> #[trigger] ids@[j] != id,
        decreases ids@.len() - i,
    {
        if ids[i] == id {
            return true;
        }
        i += 1;
    }
    false
}

/// The shards to ask again for their live runs, each once. If a range moved from one tablet to
/// another while the shards were asked, neither the source nor the destination may have been seen.
/// So the shards of all tablets are asked again that were not there before.
pub fn shards_to_recheck(
    starting: &Vec<TabletId>,
    asked: &Vec<ShardId>,
    ending: &Vec<TabletId>,
) -> (r: Vec<ShardId>)
    ensures
        r@.no_duplicates(),
        forall|s: ShardId| #[trigger]
            r@.contains(s) <==> to_recheck(starting@, asked@, ending@, s),
{
    let mut r: Vec<ShardId> = Vec::new();
    let mut i: usize = 0;
    assert(ending@.take(0) =~= Seq::empty());
    while i < ending.len()
        invariant
            i <= ending@.len(),
            r@.no_duplicates(),
            forall|s: ShardId| #[trigger]
                r@.contains(s) <==> to_recheck(
                    starting@,
                    asked@,
                    ending@.take(i as int),
                    s,
                ),
        decreases ending@.len() - i,
    {
        let id = ending[i];
        let ghost before = r@;
        let ghost s0 = ending@.take(i as int);
        let ghost s1 = ending@.take(i + 1);
        let seen = contains_tablet(starting, id) && contains_shard(asked, id.0);
        if !seen && !contains_shard(&r, id.0) {
            r.push(id.0);
        }
        proof {
            assert(s1.len() == s0.len() + 1);
            assert(s1[i as int] == id);
            assert forall|s: ShardId| #[trigger]
                r@.contains(s) <==> to_recheck(starting@, asked@, s1, s) by {
                assert(before.contains(s) <==> to_recheck(starting@, asked@, s0, s));
                if to_recheck(starting@, asked@, s0, s) {
                    let j = choose|j: int|
                        0 <= j < s0.len() && (#[trigger] s0[j]).0 == s && !was_seen(
                            starting@,
                            asked@,
                            s0[j],
                        );
                    assert(s1[j] == s0[j]);
                }
                if to_recheck(starting@, asked@, s1, s) {
                    let j = choose|j: int|
                        0 <= j < s1.len() && (#[trigger] s1[j]).0 == s && !was_seen(
                            starting@,
                            asked@,
                            s1[j],
                        );
                    if j < i {
                        assert(s0[j] == s1[j]);
                    }
                }
                if before.contains(s) {
                    assert(r@[before.index_of(s)] == s);
                }
                if r@.len() > before.len() {
                    assert(r@[before.len() as int] == id.0);
                    if r@.contains(s) && s != id.0 {
                        let j = r@.index_of(s);
                        assert(before[j] == s);
                    }
                }
            }
        }
        i += 1;
    }
    assert(ending@.take(i as int) =~= ending@);
    r
}

/// Where no shard has to be asked again, each tablet that can hold live runs in the end was there
/// before its shard was asked.
pub proof fn law_nothing_moved_unseen(
    starting: Seq<TabletId>,
    asked: Seq<ShardId>,
    ending: Seq<TabletId>,
    i: int,
)
    requires
        forall|s: ShardId| !#[trigger] to_recheck(starting, asked, ending, s),
        0 <= i < ending.len(),
    ensures
        was_seen(starting, asked, ending[i]),
{
    assert(!to_recheck(starting, asked, ending, ending[i].0));
}

} // verus!
