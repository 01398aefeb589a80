//! No run is deleted that may still be used, and no two tablets are taken for equal that are not.

use vstd::prelude::*;

use super::gc::{
    candidates_after, first_stuck, guards_phase, holding, run_ids_of, to_recheck, GcChange, GcPhase,
};
use super::manifests::{
    all_runs, difference, first_duplicate, first_missing, has_run, law_no_difference_means_equal,
    right_error, ManifestError, RunEntry, RunId,
};
use crate::meta::{MetaState, TabletMetadata, TabletState};
use crate::types::data::{Precondition, Timestamp};
use crate::types::{KeyspaceId, ShardId, TabletId};
use crate::util::select::{lemma_picks_push, picks};

verus! {

/// A run that was gathered is not deleted before a quarter of an hour has passed since the wait
/// began, less a microsecond, and is not kept longer: the wait that is left ends just then.
pub proof fn law_wait_is_long_enough(start: Timestamp, now: Timestamp)
    ensures
        ({
            let phase = GcPhase::Wait { start };
            let left = phase.wait_left(now);
            &&& 0 <= left <= u64::MAX
            &&& left == 0 ==> now.0 > start.0 + 900_000_000_000 - 1_000
            &&& 0 < left < u64::MAX ==> start.0 + 900_000_000_000 - 1_000 < now.0 + left <= start.0
                + 900_000_000_000
        }),
        GcPhase::Gather.wait_left(now) == 0,
        GcPhase::Prune.wait_left(now) == 0,
        GcPhase::Sweep.wait_left(now) == 0,
{
}

/// The phase that follows is one that is led to, and a wait begins at the present.
pub proof fn law_following_phase(phase: GcPhase, now: Timestamp, to: GcPhase)
    ensures
        phase.leads_to(phase.following(now)),
        phase.following(now) matches GcPhase::Wait { start } ==> start == now,
        phase.leads_to(to) ==> (to is Wait <==> phase.following(now) is Wait) && (to is Gather
            <==> phase.following(now) is Gather) && (to is Prune <==> phase.following(now)
            is Prune),
{
}

/// A run that no change is about stays a candidate, or stays none.
pub proof fn law_untouched_candidates(before: Set<RunId>, changes: Seq<GcChange>, run_id: RunId)
    requires
        forall|i: int|
            0 <= i < changes.len() ==> #[trigger] changes[i] != GcChange::Add(run_id) && changes[i]
                != GcChange::Remove(run_id),
    ensures
        candidates_after(before, changes).contains(run_id) == before.contains(run_id),
    decreases changes.len(),
{
    if changes.len() > 0 {
        let rest = changes.drop_last();
        assert forall|i: int| 0 <= i < rest.len() implies #[trigger] rest[i] != GcChange::Add(
            run_id,
        ) && rest[i] != GcChange::Remove(run_id) by {
            assert(changes[i] == rest[i]);
        }
        law_untouched_candidates(before, rest, run_id);
        assert(changes[changes.len() - 1] == changes.last());
    }
}

/// All parts go to a phase together, and only where it follows on the phase of each of them. Else the
/// first on which it does not is named.
pub proof fn law_first_stuck(phases: Seq<(Timestamp, GcPhase)>, target: GcPhase)
    ensures
        first_stuck(phases, target) is None <==> forall|i: int|
            0 <= i < phases.len() ==> (#[trigger] phases[i]).1.leads_to(target),
        first_stuck(phases, target) matches Some(p) ==> exists|i: int|
            {
                &&& 0 <= i < phases.len()
                &&& (#[trigger] phases[i]).1 == p
                &&& !p.leads_to(target)
                &&& forall|j: int| 0 <= j < i ==> (#[trigger] phases[j]).1.leads_to(target)
            },
    decreases phases.len(),
{
    if phases.len() > 0 {
        let rest = phases.drop_last();
        let n = rest.len() as int;
        law_first_stuck(rest, target);
        match first_stuck(rest, target) {
            Some(p) => {
                let i = choose|i: int|
                    {
                        &&& 0 <= i < rest.len()
                        &&& (#[trigger] rest[i]).1 == p
                        &&& !p.leads_to(target)
                        &&& forall|j: int| 0 <= j < i ==> (#[trigger] rest[j]).1.leads_to(target)
                    };
                assert(phases[i] == rest[i]);
                assert forall|j: int| 0 <= j < i implies (#[trigger] phases[j]).1.leads_to(
                    target,
                ) by {
                    assert(rest[j] == phases[j]);
                }
            },
            None => {
                assert forall|j: int| 0 <= j < n implies (#[trigger] phases[j]).1.leads_to(
                    target,
                ) by {
                    assert(rest[j] == phases[j]);
                }
                assert(phases[n] == phases.last());
            },
        }
    }
}

/// The tablets that are asked for their runs are exactly those that are active or frozen, or on their
/// way from there, in order.
pub proof fn law_holding_tablets(tablets: Seq<(TabletId, TabletMetadata)>) -> (idx: Seq<int>)
    ensures
        picks(idx, tablets.len()),
        forall|i: int|
            0 <= i < tablets.len() ==> (idx.contains(i) <==> match (#[trigger] tablets[i]).1.state {
                MetaState::Stable(s) => s == TabletState::Active || s == TabletState::Frozen,
                MetaState::Transitioning(s, _) => s == TabletState::Active || s
                    == TabletState::Frozen,
            }),
        holding(tablets).len() == idx.len(),
        forall|j: int| 0 <= j < idx.len() ==> #[trigger] holding(tablets)[j] == tablets[idx[j]].0,
    decreases tablets.len(),
{
    if tablets.len() == 0 {
        Seq::empty()
    } else {
        let rest = tablets.drop_last();
        let n = rest.len();
        let idx = law_holding_tablets(rest);
        lemma_picks_push(idx, n);
        let held = match tablets[n as int].1.state {
            MetaState::Stable(s) => s == TabletState::Active || s == TabletState::Frozen,
            MetaState::Transitioning(s, _) => s == TabletState::Active || s == TabletState::Frozen,
        };
        let all = if held {
            idx.push(n as int)
        } else {
            idx
        };
        assert forall|i: int| 0 <= i < tablets.len() implies (all.contains(i) <==> match (
        #[trigger] tablets[i]).1.state {
            MetaState::Stable(s) => s == TabletState::Active || s == TabletState::Frozen,
            MetaState::Transitioning(s, _) => s == TabletState::Active || s == TabletState::Frozen,
        }) by {
            if i < n {
                assert(rest[i] == tablets[i]);
            }
        }
        assert forall|j: int| 0 <= j < all.len() implies #[trigger] holding(tablets)[j]
            == tablets[all[j]].0 by {
            if j < idx.len() {
                assert(holding(tablets)[j] == holding(rest)[j]);
                assert(rest[idx[j]] == tablets[idx[j]]);
            }
        }
        all
    }
}

/// A shard is asked again exactly where one of its tablets is there in the end that was not there at
/// the start, or where the shard had not been asked.
pub proof fn law_recheck(
    starting: Seq<TabletId>,
    asked: Seq<ShardId>,
    ending: Seq<TabletId>,
    shard: ShardId,
)
    ensures
        to_recheck(starting, asked, ending, shard) <==> exists|i: int|
            0 <= i < ending.len() && (#[trigger] ending[i]).0 == shard && !(starting.contains(
                ending[i],
            ) && asked.contains(shard)),
{
    if to_recheck(starting, asked, ending, shard) {
        let i = choose|i: int|
            0 <= i < ending.len() && (#[trigger] ending[i]).0 == shard
                && !super::gc::was_seen(starting, asked, ending[i]);
        assert(!(starting.contains(ending[i]) && asked.contains(shard)));
    }
    if exists|i: int|
        0 <= i < ending.len() && (#[trigger] ending[i]).0 == shard && !(starting.contains(ending[i])
            && asked.contains(shard)) {
        let i = choose|i: int|
            0 <= i < ending.len() && (#[trigger] ending[i]).0 == shard && !(starting.contains(
                ending[i],
            ) && asked.contains(shard));
        assert(!super::gc::was_seen(starting, asked, ending[i]));
    }
}

/// The runs of manifests are those of the first followed by those of the others.
pub proof fn law_all_runs(first: Vec<RunEntry>, others: Seq<Vec<RunEntry>>)
    ensures
        all_runs(seq![first] + others) == first@ + all_runs(others),
        all_runs(Seq::empty()) == Seq::<RunEntry>::empty(),
    decreases others.len(),
{
    let s = seq![first] + others;
    if others.len() == 0 {
        assert(s.drop_last() =~= Seq::empty());
        assert(s.last() == first);
        assert(all_runs(s.drop_last()) =~= Seq::empty());
        assert(all_runs(s) =~= first@);
        assert(first@ + all_runs(others) =~= first@);
    } else {
        law_all_runs(first, others.drop_last());
        assert(s.drop_last() =~= seq![first] + others.drop_last());
        assert(s.last() == others.last());
        assert(all_runs(s) =~= first@ + all_runs(others));
    }
}

/// Whether no run occurs twice.
pub open spec fn each_once(s: Seq<RunEntry>) -> bool {
    forall|i: int, j: int|
        0 <= i < j < s.len() ==> (#[trigger] s[i]).run_id != (#[trigger] s[j]).run_id
}

proof fn lemma_first_duplicate_exact(s: Seq<RunEntry>)
    ensures
        first_duplicate(s) is None <==> each_once(s),
        first_duplicate(s) matches Some(id) ==> exists|i: int, j: int|
            0 <= i < j < s.len() && (#[trigger] s[i]).run_id == id && (#[trigger] s[j]).run_id == id,
    decreases s.len(),
{
    if s.len() > 0 {
        let rest = s.drop_last();
        let n = rest.len() as int;
        lemma_first_duplicate_exact(rest);
        assert forall|i: int| 0 <= i < n implies #[trigger] rest[i] == s[i] by {}
        match first_duplicate(rest) {
            Some(id) => {
                let (i, j) = choose|i: int, j: int|
                    0 <= i < j < rest.len() && (#[trigger] rest[i]).run_id == id && (
                    #[trigger] rest[j]).run_id == id;
                assert(s[i].run_id == id && s[j].run_id == id);
            },
            None => {
                assert forall|i: int, j: int| 0 <= i < j < n implies (#[trigger] s[i]).run_id != (
                #[trigger] s[j]).run_id by {
                    assert(rest[i].run_id != rest[j].run_id);
                }
                if has_run(rest, s[n].run_id) {
                    let i = choose|i: int|
                        0 <= i < rest.len() && (#[trigger] rest[i]).run_id == s[n].run_id;
                    assert(s[i].run_id == s[n].run_id);
                } else {
                    assert forall|i: int| 0 <= i < n implies (#[trigger] s[i]).run_id
                        != s[n].run_id by {
                        assert(rest[i].run_id == s[i].run_id);
                    }
                }
            },
        }
    }
}

proof fn lemma_right_error_exact(left: Seq<RunEntry>, right: Seq<RunEntry>)
    ensures
        right_error(left, right) is None <==> each_once(right) && forall|j: int|
            0 <= j < right.len() ==> left.contains(#[trigger] right[j]),
        right_error(left, right) matches Some(e) ==> match e {
            ManifestError::RightDuplicate(id) => exists|i: int, j: int|
                0 <= i < j < right.len() && (#[trigger] right[i]).run_id == id && (
                #[trigger] right[j]).run_id == id,
            ManifestError::LeftMissing(id) => exists|j: int|
                0 <= j < right.len() && (#[trigger] right[j]).run_id == id && !left.contains(
                    right[j],
                ),
            _ => false,
        },
    decreases right.len(),
{
    if right.len() > 0 {
        let rest = right.drop_last();
        let n = rest.len() as int;
        lemma_right_error_exact(left, rest);
        assert forall|i: int| 0 <= i < n implies #[trigger] rest[i] == right[i] by {}
        match right_error(left, rest) {
            Some(ManifestError::RightDuplicate(id)) => {
                let (i, j) = choose|i: int, j: int|
                    0 <= i < j < rest.len() && (#[trigger] rest[i]).run_id == id && (
                    #[trigger] rest[j]).run_id == id;
                assert(right[i].run_id == id && right[j].run_id == id);
            },
            Some(ManifestError::LeftMissing(id)) => {
                let j = choose|j: int|
                    0 <= j < rest.len() && (#[trigger] rest[j]).run_id == id && !left.contains(
                        rest[j],
                    );
                assert(right[j] == rest[j]);
            },
            Some(_) => {},
            None => {
                assert forall|j: int| 0 <= j < n implies left.contains(#[trigger] right[j]) by {
                    assert(left.contains(rest[j]));
                }
                assert forall|i: int, j: int| 0 <= i < j < n implies (#[trigger] right[i]).run_id
                    != (#[trigger] right[j]).run_id by {
                    assert(rest[i].run_id != rest[j].run_id);
                }
                if has_run(rest, right[n].run_id) {
                    let i = choose|i: int|
                        0 <= i < rest.len() && (#[trigger] rest[i]).run_id == right[n].run_id;
                    assert(right[i].run_id == right[n].run_id);
                } else {
                    assert forall|i: int| 0 <= i < n implies (#[trigger] right[i]).run_id
                        != right[n].run_id by {
                        assert(rest[i].run_id == right[i].run_id);
                    }
                    assert(right.last() == right[n]);
                }
            },
        }
    }
}

proof fn lemma_first_missing_exact(left: Seq<RunEntry>, right: Seq<RunEntry>)
    ensures
        first_missing(left, right) is None <==> forall|i: int|
            0 <= i < left.len() ==> has_run(right, (#[trigger] left[i]).run_id),
        first_missing(left, right) matches Some(id) ==> exists|i: int|
            0 <= i < left.len() && (#[trigger] left[i]).run_id == id && !has_run(right, id),
    decreases left.len(),
{
    if left.len() > 0 {
        let rest = left.drop_last();
        let n = rest.len() as int;
        lemma_first_missing_exact(rest, right);
        match first_missing(rest, right) {
            Some(id) => {
                let i = choose|i: int|
                    0 <= i < rest.len() && (#[trigger] rest[i]).run_id == id && !has_run(right, id);
                assert(left[i] == rest[i]);
            },
            None => {
                assert forall|i: int| 0 <= i < n implies has_run(
                    right,
                    (#[trigger] left[i]).run_id,
                ) by {
                    assert(rest[i] == left[i]);
                }
                assert(left[n] == left.last());
            },
        }
    }
}

/// Two groups of runs are taken for equal exactly where neither holds a run twice, and both hold the
/// same runs in the same places.
pub proof fn law_equal_manifests(left: Seq<RunEntry>, right: Seq<RunEntry>)
    ensures
        difference(left, right) is None <==> {
            &&& each_once(left)
            &&& each_once(right)
            &&& forall|run: RunEntry| left.contains(run) <==> #[trigger] right.contains(run)
        },
{
    lemma_first_duplicate_exact(left);
    lemma_right_error_exact(left, right);
    lemma_first_missing_exact(left, right);
    if difference(left, right) is None {
        assert forall|run: RunEntry| left.contains(run) <==> #[trigger] right.contains(run) by {
            law_no_difference_means_equal(left, right, run);
        }
    }
    if each_once(left) && each_once(right) && forall|run: RunEntry|
        left.contains(run) <==> #[trigger] right.contains(run) {
        assert forall|j: int| 0 <= j < right.len() implies left.contains(#[trigger] right[j]) by {
            assert(right.contains(right[j]));
        }
        assert forall|i: int| 0 <= i < left.len() implies has_run(
            right,
            (#[trigger] left[i]).run_id,
        ) by {
            assert(left.contains(left[i]));
            assert(right.contains(left[i]));
            let j = right.index_of(left[i]);
            assert(right[j].run_id == left[i].run_id);
        }
    }
}

/// The difference that is told is one: a run that a side holds twice, or one that a side holds and
/// the other does not hold there.
pub proof fn law_difference_is_real(left: Seq<RunEntry>, right: Seq<RunEntry>, e: ManifestError)
    requires
        difference(left, right) == Some(e),
    ensures
        match e {
            ManifestError::LeftDuplicate(id) => exists|i: int, j: int|
                0 <= i < j < left.len() && (#[trigger] left[i]).run_id == id && (
                #[trigger] left[j]).run_id == id,
            ManifestError::RightDuplicate(id) => exists|i: int, j: int|
                0 <= i < j < right.len() && (#[trigger] right[i]).run_id == id && (
                #[trigger] right[j]).run_id == id,
            ManifestError::LeftMissing(id) => exists|j: int|
                0 <= j < right.len() && (#[trigger] right[j]).run_id == id && !left.contains(
                    right[j],
                ),
            ManifestError::RightMissing(id) => exists|i: int|
                0 <= i < left.len() && (#[trigger] left[i]).run_id == id && forall|j: int|
                    0 <= j < right.len() ==> (#[trigger] right[j]).run_id != id,
        },
{
    lemma_first_duplicate_exact(left);
    lemma_right_error_exact(left, right);
    lemma_first_missing_exact(left, right);
    if let ManifestError::RightMissing(id) = e {
        let i = choose|i: int|
            0 <= i < left.len() && (#[trigger] left[i]).run_id == id && !has_run(right, id);
        assert(left[i].run_id == id);
        assert forall|j: int| 0 <= j < right.len() implies (#[trigger] right[j]).run_id != id by {}
    }
}

/// The phase of a part is guarded by its own key, in the keyspace of phases, as it was at a point in
/// time.
pub proof fn law_phase_is_guarded(p: Precondition, part: u8, since: Timestamp)
    ensures
        guards_phase(p, part, since) <==> (p matches Precondition::NotChangedSince(
            keyspace_id,
            key,
            at,
        ) && keyspace_id == KeyspaceId::gc_phase() && key@ == seq![part] && at == since),
{
}

/// The candidates of a page are the runs whose numbers are its keys, one by one.
pub proof fn law_page_of_candidates(keys: Seq<Vec<u8>>, ids: Seq<RunId>)
    requires
        run_ids_of(keys, ids),
    ensures
        ids.len() == keys.len(),
        forall|i: int| 0 <= i < keys.len() ==> (#[trigger] ids[i]).bytes() == keys[i]@,
{
}

} // verus!
