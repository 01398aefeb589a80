//! Choosing some of the elements of a sequence.

use vstd::prelude::*;

verus! {

/// Whether indices below `n` stand in ascending order, none twice.
pub open spec fn picks(idx: Seq<int>, n: nat) -> bool {
    &&& forall|j: int| 0 <= j < idx.len() ==> 0 <= #[trigger] idx[j] < n
    &&& forall|j: int, l: int| 0 <= j < l < idx.len() ==> #[trigger] idx[j] < #[trigger] idx[l]
}

/// A choice can go on with the next index, or without it.
pub proof fn lemma_picks_push(idx: Seq<int>, n: nat)
    requires
        picks(idx, n),
    ensures
        picks(idx, n + 1),
        picks(idx.push(n as int), n + 1),
        !idx.contains(n as int),
        forall|i: int| i != n ==> (#[trigger] idx.push(n as int).contains(i) == idx.contains(i)),
        idx.push(n as int).contains(n as int),
{
    let more = idx.push(n as int);
    assert(more[idx.len() as int] == n);
    assert forall|i: int| i != n implies #[trigger] more.contains(i) == idx.contains(i) by {
        if idx.contains(i) {
            assert(more[idx.index_of(i)] == i);
        }
        if more.contains(i) {
            assert(idx[more.index_of(i)] == i);
        }
    }
}

} // verus!
