//! Comparing what tablets hold.

use std::collections::HashMap;

use vstd::prelude::*;

use crate::types::KeyspaceId;

verus! {

/// A sorted run of data.
#[derive(Clone, Copy, Debug, PartialEq, Eq, PartialOrd, Ord, Hash, Structural)]
pub struct RunId(pub u128);

/// A run that a tablet holds, with where it holds it.
#[derive(Clone, Copy, Debug, PartialEq, Eq, Structural)]
pub struct RunEntry {
    pub keyspace_id: KeyspaceId,
    pub level: usize,
    pub run_id: RunId,
}

/// How the runs of two groups of tablets differ.
#[derive(Clone, Copy, Debug, PartialEq, Eq, Structural)]
pub enum ManifestError {
    LeftDuplicate(RunId),
    RightDuplicate(RunId),
    LeftMissing(RunId),
    RightMissing(RunId),
}

/// The runs of all manifests, one manifest after the other.
pub open spec fn all_runs(manifests: Seq<Vec<RunEntry>>) -> Seq<RunEntry>
    decreases manifests.len(),
{
    if manifests.len() == 0 {
        Seq::empty()
    } else {
        all_runs(manifests.drop_last()) + manifests.last()@
    }
}

/// Whether a run occurs.
pub open spec fn has_run(s: Seq<RunEntry>, id: RunId) -> bool {
    exists|i: int| 0 <= i < s.len() && (#[trigger] s[i]).run_id == id
}

/// The first run that occurs a second time.
pub open spec fn first_duplicate(s: Seq<RunEntry>) -> Option<RunId>
    decreases s.len(),
{
    if s.len() == 0 {
        None
    } else {
        match first_duplicate(s.drop_last()) {
            Some(id) => Some(id),
            None => if has_run(s.drop_last(), s.last().run_id) {
                Some(s.last().run_id)
            } else {
                None
            },
        }
    }
}

/// What stands against the first run on the right against which anything does: that it occurs a
/// second time, or that the left does not hold it in the same place.
pub open spec fn right_error(left: Seq<RunEntry>, right: Seq<RunEntry>) -> Option<ManifestError>
    decreases right.len(),
{
    if right.len() == 0 {
        None
    } else {
        match right_error(left, right.drop_last()) {
            Some(e) => Some(e),
            None => if has_run(right.drop_last(), right.last().run_id) {
                Some(ManifestError::RightDuplicate(right.last().run_id))
            } else if !left.contains(right.last()) {
                Some(ManifestError::LeftMissing(right.last().run_id))
            } else {
                None
            },
        }
    }
}

/// The first run on the left that the right does not hold.
pub open spec fn first_missing(left: Seq<RunEntry>, right: Seq<RunEntry>) -> Option<RunId>
    decreases left.len(),
{
    if left.len() == 0 {
        None
    } else {
        match first_missing(left.drop_last(), right) {
            Some(id) => Some(id),
            None => if !has_run(right, left.last().run_id) {
                Some(left.last().run_id)
            } else {
                None
            },
        }
    }
}

/// How two groups of runs differ, if they do.
pub open spec fn difference(left: Seq<RunEntry>, right: Seq<RunEntry>) -> Option<ManifestError> {
    match first_duplicate(left) {
        Some(id) => Some(ManifestError::LeftDuplicate(id)),
        None => match right_error(left, right) {
            Some(e) => Some(e),
            None => match first_missing(left, right) {
                Some(id) => Some(ManifestError::RightMissing(id)),
                None => None,
            },
        },
    }
}

fn flatten(manifests: &Vec<Vec<RunEntry>>) -> (r: Vec<RunEntry>)
    ensures
        r@ == all_runs(manifests@),
{
    let mut r: Vec<RunEntry> = Vec::new();
    let mut i: usize = 0;
    assert(manifests@.take(0) =~= Seq::empty());
    while i < manifests.len()
        invariant
            i <= manifests@.len(),
            r@ == all_runs(manifests@.take(i as int)),
        decreases manifests@.len() - i,
    {
        let runs = &manifests[i];
        let ghost before = r@;
        let mut j: usize = 0;
        assert(before =~= before + runs@.take(0));
        while j < runs.len()
            invariant
                j <= runs@.len(),
                r@ == before + runs@.take(j as int),
            decreases runs@.len() - j,
        {
            r.push(runs[j]);
            j += 1;
            assert(r@ =~= before + runs@.take(j as int));
        }
        proof {
            assert(runs@.take(j as int) =~= runs@);
            assert(manifests@.take(i + 1).drop_last() =~= manifests@.take(i as int));
            assert(manifests@.take(i + 1).last() == manifests@[i as int]);
        }
        i += 1;
    }
    assert(manifests@.take(i as int) =~= manifests@);
    r
}

/// Whether a map leads from each run to where it is held, and from nothing else.
spec fn maps_runs(m: Map<u128, RunEntry>, s: Seq<RunEntry>) -> bool {
    &&& forall|k: u128| #[trigger]
        m.contains_key(k) ==> s.contains(m[k]) && m[k].run_id.0 == k
    &&& forall|i: int| 0 <= i < s.len() ==> m.contains_key((#[trigger] s[i]).run_id.0)
        && m[s[i].run_id.0] == s[i]
}

proof fn lemma_first_duplicate(s: Seq<RunEntry>, i: int)
    requires
        0 <= i < s.len(),
        first_duplicate(s.take(i)) is None,
        has_run(s.take(i), s[i].run_id),
    ensures
        first_duplicate(s) == Some(s[i].run_id),
    decreases s.len(),
{
    if i < s.len() - 1 {
        assert(s.drop_last().take(i) =~= s.take(i));
        lemma_first_duplicate(s.drop_last(), i);
    } else {
        assert(s.drop_last() =~= s.take(i));
    }
}

proof fn lemma_right_error(left: Seq<RunEntry>, right: Seq<RunEntry>, i: int)
    requires
        0 <= i < right.len(),
        right_error(left, right.take(i)) is None,
        has_run(right.take(i), right[i].run_id) || !left.contains(right[i]),
    ensures
        right_error(left, right) == if has_run(right.take(i), right[i].run_id) {
            Some(ManifestError::RightDuplicate(right[i].run_id))
        } else {
            Some(ManifestError::LeftMissing(right[i].run_id))
        },
    decreases right.len(),
{
    if i < right.len() - 1 {
        assert(right.drop_last().take(i) =~= right.take(i));
        lemma_right_error(left, right.drop_last(), i);
    } else {
        assert(right.drop_last() =~= right.take(i));
    }
}

proof fn lemma_first_missing(left: Seq<RunEntry>, right: Seq<RunEntry>, i: int)
    requires
        0 <= i < left.len(),
        first_missing(left.take(i), right) is None,
        !has_run(right, left[i].run_id),
    ensures
        first_missing(left, right) == Some(left[i].run_id),
    decreases left.len(),
{
    if i < left.len() - 1 {
        assert(left.drop_last().take(i) =~= left.take(i));
        lemma_first_missing(left.drop_last(), right, i);
    } else {
        assert(left.drop_last() =~= left.take(i));
    }
}

proof fn lemma_push_runs(m: Map<u128, RunEntry>, s: Seq<RunEntry>, i: int)
    requires
        0 <= i < s.len(),
        maps_runs(m, s.take(i)),
        !m.contains_key(s[i].run_id.0),
    ensures
        maps_runs(m.insert(s[i].run_id.0, s[i]), s.take(i + 1)),
        !has_run(s.take(i), s[i].run_id),
{
    let n = m.insert(s[i].run_id.0, s[i]);
    let t = s.take(i + 1);
    assert forall|k: u128| #[trigger] n.contains_key(k) implies t.contains(n[k]) && n[k].run_id.0
        == k by {
        if k == s[i].run_id.0 {
            assert(t[i] == s[i]);
        } else {
            let j = choose|j: int| 0 <= j < s.take(i).len() && s.take(i)[j] == m[k];
            assert(t[j] == m[k]);
        }
    }
    assert forall|j: int| 0 <= j < t.len() implies n.contains_key((#[trigger] t[j]).run_id.0)
        && n[t[j].run_id.0] == t[j] by {
        if j < i {
            assert(s.take(i)[j] == t[j]);
        }
    }
    if has_run(s.take(i), s[i].run_id) {
        let j = choose|j: int| 0 <= j < s.take(i).len() && (#[trigger] s.take(i)[j]).run_id
            == s[i].run_id;
        assert(m.contains_key(s.take(i)[j].run_id.0));
    }
}

/// Whether two groups of manifests hold the same runs in the same places.
pub fn check_manifests_equal(a: &Vec<Vec<RunEntry>>, b: &Vec<Vec<RunEntry>>) -> (r: Result<
    (),
    ManifestError,
>)
    ensures
        r == match difference(all_runs(a@), all_runs(b@)) {
            Some(e) => Err(e),
            None => Ok::<(), ManifestError>(()),
        },
{
    let left = flatten(a);
    let right = flatten(b);
    let mut a_runs: HashMap<u128, RunEntry> = HashMap::new();
    let mut i: usize = 0;
    assert(left@.take(0) =~= Seq::empty());
    while i < left.len()
        invariant
            i <= left@.len(),
            left@ == all_runs(a@),
            right@ == all_runs(b@),
            first_duplicate(left@.take(i as int)) is None,
            maps_runs(a_runs@, left@.take(i as int)),
        decreases left@.len() - i,
    {
        let run = left[i];
        if a_runs.contains_key(&run.run_id.0) {
            proof {
                let e = a_runs@[run.run_id.0];
                let j = choose|j: int|
                    0 <= j < left@.take(i as int).len() && left@.take(i as int)[j] == e;
                assert(left@.take(i as int)[j].run_id == run.run_id);
                lemma_first_duplicate(left@, i as int);
            }
            return Err(ManifestError::LeftDuplicate(run.run_id));
        }
        proof {
            lemma_push_runs(a_runs@, left@, i as int);
            assert(left@.take(i + 1).drop_last() =~= left@.take(i as int));
        }
        a_runs.insert(run.run_id.0, run);
        i += 1;
    }
    assert(left@.take(i as int) =~= left@);
    let mut found: HashMap<u128, RunEntry> = HashMap::new();
    let mut i: usize = 0;
    assert(right@.take(0) =~= Seq::empty());
    while i < right.len()
        invariant
            i <= right@.len(),
            left@ == all_runs(a@),
            right@ == all_runs(b@),
            first_duplicate(left@) is None,
            maps_runs(a_runs@, left@),
            right_error(left@, right@.take(i as int)) is None,
            maps_runs(found@, right@.take(i as int)),
        decreases right@.len() - i,
    {
        let run = right[i];
        if found.contains_key(&run.run_id.0) {
            proof {
                let e = found@[run.run_id.0];
                let j = choose|j: int|
                    0 <= j < right@.take(i as int).len() && right@.take(i as int)[j] == e;
                assert(right@.take(i as int)[j].run_id == run.run_id);
                lemma_right_error(left@, right@, i as int);
            }
            return Err(ManifestError::RightDuplicate(run.run_id));
        }
        proof {
            lemma_push_runs(found@, right@, i as int);
            assert(right@.take(i + 1).drop_last() =~= right@.take(i as int));
            if left@.contains(run) {
                let j = choose|j: int| 0 <= j < left@.len() && left@[j] == run;
                assert(a_runs@.contains_key(left@[j].run_id.0));
            }
        }
        let same = match a_runs.get(&run.run_id.0) {
            Some(other) => other.keyspace_id == run.keyspace_id && other.level == run.level,
            None => false,
        };
        assert(same == left@.contains(run)) by {
            if same {
                assert(a_runs@.contains_key(run.run_id.0));
                assert(a_runs@[run.run_id.0] == run);
            }
        }
        if !same {
            proof {
                lemma_right_error(left@, right@, i as int);
            }
            return Err(ManifestError::LeftMissing(run.run_id));
        }
        found.insert(run.run_id.0, run);
        i += 1;
    }
    assert(right@.take(i as int) =~= right@);
    let mut i: usize = 0;
    assert(left@.take(0) =~= Seq::empty());
    while i < left.len()
        invariant
            i <= left@.len(),
            left@ == all_runs(a@),
            right@ == all_runs(b@),
            first_duplicate(left@) is None,
            right_error(left@, right@) is None,
            maps_runs(found@, right@),
            first_missing(left@.take(i as int), right@) is None,
        decreases left@.len() - i,
    {
        let run = left[i];
        let there = found.contains_key(&run.run_id.0);
        proof {
            assert(there == has_run(right@, run.run_id)) by {
                if there {
                    let e = found@[run.run_id.0];
                    let j = choose|j: int| 0 <= j < right@.len() && right@[j] == e;
                    assert(right@[j].run_id == run.run_id);
                }
                if has_run(right@, run.run_id) {
                    let j = choose|j: int|
                        0 <= j < right@.len() && (#[trigger] right@[j]).run_id == run.run_id;
                    assert(found@.contains_key(right@[j].run_id.0));
                }
            }
            assert(left@.take(i + 1).drop_last() =~= left@.take(i as int));
        }
        if !there {
            proof {
                lemma_first_missing(left@, right@, i as int);
            }
            return Err(ManifestError::RightMissing(run.run_id));
        }
        i += 1;
    }
    assert(left@.take(i as int) =~= left@);
    Ok(())
}

proof fn lemma_no_duplicate(s: Seq<RunEntry>, i: int, j: int)
    requires
        first_duplicate(s) is None,
        0 <= i < j < s.len(),
    ensures
        s[i].run_id != s[j].run_id,
    decreases s.len(),
{
    if j < s.len() - 1 {
        lemma_no_duplicate(s.drop_last(), i, j);
    } else {
        assert(s.drop_last()[i] == s[i]);
    }
}

proof fn lemma_right_held(left: Seq<RunEntry>, right: Seq<RunEntry>, j: int)
    requires
        right_error(left, right) is None,
        0 <= j < right.len(),
    ensures
        left.contains(right[j]),
    decreases right.len(),
{
    if j < right.len() - 1 {
        lemma_right_held(left, right.drop_last(), j);
    }
}

proof fn lemma_none_missing(left: Seq<RunEntry>, right: Seq<RunEntry>, i: int)
    requires
        first_missing(left, right) is None,
        0 <= i < left.len(),
    ensures
        has_run(right, left[i].run_id),
    decreases left.len(),
{
    if i < left.len() - 1 {
        lemma_none_missing(left.drop_last(), right, i);
    }
}

/// Groups of runs between which there is no difference hold exactly the same runs, each in the same
/// place.
pub proof fn law_no_difference_means_equal(
    left: Seq<RunEntry>,
    right: Seq<RunEntry>,
    run: RunEntry,
)
    requires
        difference(left, right) is None,
    ensures
        left.contains(run) <==> right.contains(run),
{
    if right.contains(run) {
        let j = choose|j: int| 0 <= j < right.len() && right[j] == run;
        lemma_right_held(left, right, j);
    }
    if left.contains(run) {
        let i = choose|i: int| 0 <= i < left.len() && left[i] == run;
        lemma_none_missing(left, right, i);
        let j = choose|j: int| 0 <= j < right.len() && (#[trigger] right[j]).run_id == run.run_id;
        lemma_right_held(left, right, j);
        let k = choose|k: int| 0 <= k < left.len() && left[k] == right[j];
        if k < i {
            lemma_no_duplicate(left, k, i);
        } else if i < k {
            lemma_no_duplicate(left, i, k);
        }
        assert(right[j] == run);
    }
}

} // verus!
