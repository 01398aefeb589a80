//! Planning of transfers that keep shards and tablets balanced.

use std::collections::HashMap;

use vstd::prelude::*;

use super::queue::{
    ascending, ascending_by_size, is_largest, is_smallest, shard_le, ShardSizes,
};
use crate::range::bound::group_bound_order;
use crate::range::{Bound, Range};
use crate::types::{ColoGroupId, ShardId, TabletId};
use crate::util::sort::{in_order, permutation, sort_indices, Ranking};

verus! {

/// A transfer that is worth starting.
#[derive(Clone, Copy, Debug, PartialEq, Eq, Structural)]
pub enum TransferPlan {
    /// Joins two tablets into one on a shard.
    Merge(TabletId, TabletId, ShardId),
    /// Splits a tablet in two, one on each of two shards.
    Split(TabletId, ShardId, ShardId),
    /// Moves a tablet to a shard.
    Move(TabletId, ShardId),
}

/// What a plan is made by.
#[derive(Clone, Copy, Debug)]
pub struct RebalanceOptions {
    /// The target size for each range.
    pub range_target_size: u64,
    /// The total storage capacity, in bytes, of each shard.
    pub shard_capacity: u64,
    /// Ranges are merged only where a colo group has more than this many per shard.
    pub merge_min_ranges_per_shard: usize,
    /// Ranges are merged only where a colo group has more than this many.
    pub merge_min_ranges: usize,
    /// Ranges are moved off a shard only where it is at least this full.
    pub min_shard_size_for_move: u64,
}

impl RebalanceOptions {
    pub open spec fn merge_size(self) -> int {
        self.range_target_size as int / 2
    }

    /// Two adjacent ranges that are together smaller than this can be merged.
    pub fn range_merge_size(&self) -> (r: u64)
        ensures
            r == self.merge_size(),
    {
        self.range_target_size / 2
    }

    pub open spec fn split_size(self) -> int {
        self.range_target_size * 2
    }

    /// A range of this size or more can be split.
    pub fn range_split_size(&self) -> (r: u64)
        requires
            self.split_size() <= u64::MAX,
        ensures
            r == self.split_size(),
    {
        self.range_target_size * 2
    }

    pub open spec fn imbalance(self) -> int {
        self.range_target_size * 3
    }

    /// How much larger than another a shard has to be for a range to move between them.
    pub fn move_min_imbalance(&self) -> (r: u64)
        requires
            self.imbalance() <= u64::MAX,
        ensures
            r == self.imbalance(),
    {
        self.range_target_size * 3
    }
}

impl Default for RebalanceOptions {
    fn default() -> (r: Self)
        ensures
            r.range_target_size == 5_000_000_000,
            r.shard_capacity == 1_000_000_000_000,
            r.min_shard_size_for_move == 700_000_000_000,
            r.merge_min_ranges_per_shard == 8,
            r.merge_min_ranges == 1024,
    {
        RebalanceOptions {
            range_target_size: 5_000_000_000,
            shard_capacity: 1_000_000_000_000,
            min_shard_size_for_move: 700_000_000_000,
            merge_min_ranges_per_shard: 8,
            merge_min_ranges: 1024,
        }
    }
}

/// An active tablet, with what a plan depends on.
#[derive(Debug)]
pub struct TabletStats {
    pub tablet_id: TabletId,
    pub colo_group_id: ColoGroupId,
    pub range: Range<Vec<u8>>,
    pub size: u64,
}

impl TabletStats {
    /// The number of the shard that the tablet is on.
    pub open spec fn shard(&self) -> u32 {
        self.tablet_id.0.0
    }
}

/// The sizes of tablets.
pub open spec fn sizes_of(tablets: Seq<TabletStats>) -> Seq<u64> {
    Seq::new(tablets.len(), |i: int| tablets[i].size)
}

/// The picked indices by ascending size. There is one such order.
pub open spec fn order_of(sizes: Seq<u64>, picked: Seq<bool>) -> Seq<usize> {
    choose|order: Seq<usize>| ascending(sizes, picked, order)
}

proof fn lemma_order_prefix(
    sizes: Seq<u64>,
    picked: Seq<bool>,
    a: Seq<usize>,
    b: Seq<usize>,
    k: int,
)
    requires
        ascending(sizes, picked, a),
        ascending(sizes, picked, b),
        0 <= k < a.len(),
    ensures
        k < b.len(),
        forall|j: int| 0 <= j <= k ==> a[j] == b[j],
    decreases k,
{
    if k > 0 {
        lemma_order_prefix(sizes, picked, a, b, k - 1);
    }
    assert(b.contains(a[k]));
    let l = choose|l: int| 0 <= l < b.len() && b[l] == a[k];
    if l < k {
        assert(a[l] == b[l]);
        assert(false);
    }
    if b[k] != a[k] {
        assert(a.contains(b[k]));
        let m = choose|m: int| 0 <= m < a.len() && a[m] == b[k];
        if m < k {
            assert(a[m] == b[m]);
            assert(false);
        }
        let (x, y) = (a[k], a[m]);
        let (z, w) = (b[k], b[l]);
        assert(false);
    }
}

/// There is only one order of picked indices by ascending size.
pub proof fn law_order_unique(sizes: Seq<u64>, picked: Seq<bool>, a: Seq<usize>, b: Seq<usize>)
    requires
        ascending(sizes, picked, a),
        ascending(sizes, picked, b),
    ensures
        a == b,
{
    if a.len() > 0 {
        lemma_order_prefix(sizes, picked, a, b, a.len() - 1);
    }
    if b.len() > 0 {
        lemma_order_prefix(sizes, picked, b, a, b.len() - 1);
    }
    assert(a =~= b);
}

proof fn lemma_order_of(sizes: Seq<u64>, picked: Seq<bool>, order: Seq<usize>)
    requires
        ascending(sizes, picked, order),
    ensures
        order_of(sizes, picked) == order,
{
    law_order_unique(sizes, picked, order_of(sizes, picked), order);
}

/// Whether a tablet is the largest of its shard, and the last of those as large.
pub open spec fn largest_on_shard(tablets: Seq<TabletStats>, i: int) -> bool {
    forall|j: int|
        0 <= j < tablets.len() && (#[trigger] tablets[j]).shard() == tablets[i].shard()
            ==> tablets[j].size < tablets[i].size || (tablets[j].size == tablets[i].size && j <= i)
}

/// Which tablets are large enough to be split, on shards that may take part in a transfer: of each
/// shard the largest tablet only, as no shard takes part in two transfers.
pub open spec fn split_picked(
    options: RebalanceOptions,
    tablets: Seq<TabletStats>,
    eligible: Map<u32, u64>,
) -> Seq<bool> {
    Seq::new(
        tablets.len(),
        |i: int|
            {
                &&& eligible.contains_key(tablets[i].shard())
                &&& tablets[i].size >= options.split_size()
                &&& largest_on_shard(tablets, i)
            },
    )
}

/// The splits of a plan, the largest tablet first. Each stays on its shard.
pub open spec fn splits(
    options: RebalanceOptions,
    tablets: Seq<TabletStats>,
    eligible: Map<u32, u64>,
) -> Seq<TransferPlan> {
    let order = order_of(sizes_of(tablets), split_picked(options, tablets, eligible)).reverse();
    Seq::new(
        order.len(),
        |k: int|
            {
                let t = tablets[order[k] as int].tablet_id;
                TransferPlan::Split(t, t.0, t.0)
            },
    )
}

/// The shards that remain eligible once the splits are planned.
pub open spec fn after_splits(
    options: RebalanceOptions,
    tablets: Seq<TabletStats>,
    eligible: Map<u32, u64>,
) -> Map<u32, u64> {
    Map::new(
        |s: u32|
            eligible.contains_key(s) && forall|i: int|
                0 <= i < tablets.len() && (#[trigger] tablets[i]).shard() == s
                    ==> tablets[i].size < options.split_size(),
        |s: u32| eligible[s],
    )
}

/// How often a group occurs.
pub open spec fn occurrences(groups: Seq<ColoGroupId>, g: ColoGroupId) -> nat
    decreases groups.len(),
{
    if groups.len() == 0 {
        0
    } else {
        occurrences(groups.drop_last(), g) + if groups.last() == g {
            1nat
        } else {
            0
        }
    }
}

/// The groups of tablets.
pub open spec fn groups_of(tablets: Seq<TabletStats>) -> Seq<ColoGroupId> {
    Seq::new(tablets.len(), |i: int| tablets[i].colo_group_id)
}

/// Whether a group has so many tablets that some should be merged.
pub open spec fn mergeable(
    options: RebalanceOptions,
    n_shards: nat,
    tablets: Seq<TabletStats>,
    g: ColoGroupId,
) -> bool {
    let n = occurrences(groups_of(tablets), g);
    n > n_shards * options.merge_min_ranges_per_shard && n > options.merge_min_ranges
}

/// Which tablets are small enough for a merge, on shards that may take part in a transfer.
pub open spec fn merge_picked(
    options: RebalanceOptions,
    n_shards: nat,
    tablets: Seq<TabletStats>,
    eligible: Map<u32, u64>,
) -> Seq<bool> {
    Seq::new(
        tablets.len(),
        |i: int|
            {
                &&& eligible.contains_key(tablets[i].shard())
                &&& tablets[i].size <= options.merge_size() / 2
                &&& mergeable(options, n_shards, tablets, tablets[i].colo_group_id)
            },
    )
}

/// The last index below `n` where a predicate holds.
pub open spec fn last_where(n: nat, pred: spec_fn(int) -> bool) -> Option<int>
    decreases n,
{
    if n == 0 {
        None
    } else if pred(n - 1) {
        Some(n - 1)
    } else {
        last_where((n - 1) as nat, pred)
    }
}

pub proof fn lemma_last_where(n: nat, pred: spec_fn(int) -> bool)
    ensures
        match last_where(n, pred) {
            Some(i) => 0 <= i < n && pred(i) && forall|j: int| i < j < n ==> !#[trigger] pred(j),
            None => forall|j: int| 0 <= j < n ==> !#[trigger] pred(j),
        },
    decreases n,
{
    if n > 0 && !pred(n - 1) {
        lemma_last_where((n - 1) as nat, pred);
    }
}

/// One bound of a tablet.
pub open spec fn edge(t: TabletStats, upper: bool) -> Bound<Seq<u8>> {
    if upper {
        t.range@.upper
    } else {
        t.range@.lower
    }
}

/// The last tablet of a group with a given upper or lower bound.
pub open spec fn with_edge(
    tablets: Seq<TabletStats>,
    upper: bool,
    g: ColoGroupId,
    b: Bound<Seq<u8>>,
) -> Option<int> {
    last_where(
        tablets.len(),
        |j: int| tablets[j].colo_group_id == g && edge(tablets[j], upper) == b,
    )
}

/// The tablet to merge with: of the two neighbours the smaller, or the one there is.
pub open spec fn merge_partner(tablets: Seq<TabletStats>, i: int) -> Option<int> {
    let g = tablets[i].colo_group_id;
    let prev = with_edge(tablets, true, g, tablets[i].range@.lower);
    let next = with_edge(tablets, false, g, tablets[i].range@.upper);
    match (prev, next) {
        (Some(p), Some(n)) => if tablets[p].size < tablets[n].size {
            prev
        } else {
            next
        },
        (Some(_), None) => prev,
        (None, _) => next,
    }
}

/// The smallest shard.
pub open spec fn smallest(eligible: Map<u32, u64>) -> u32 {
    choose|s: u32| is_smallest(eligible, s)
}

/// The largest shard.
pub open spec fn largest(eligible: Map<u32, u64>) -> u32 {
    choose|s: u32| is_largest(eligible, s)
}

/// Whether a candidate is merged with its partner.
pub open spec fn merges_now(
    options: RebalanceOptions,
    tablets: Seq<TabletStats>,
    eligible: Map<u32, u64>,
    i: int,
) -> bool {
    &&& eligible.contains_key(tablets[i].shard())
    &&& merge_partner(tablets, i) matches Some(p) && eligible.contains_key(tablets[p].shard())
        && tablets[i].size + tablets[p].size < options.merge_size()
}

/// The shards that remain eligible, and the merges, once some candidates were looked at in order.
/// A merge goes to the smallest eligible shard and takes all three shards out.
pub open spec fn merges(
    options: RebalanceOptions,
    tablets: Seq<TabletStats>,
    eligible: Map<u32, u64>,
    order: Seq<usize>,
) -> (Map<u32, u64>, Seq<TransferPlan>)
    decreases order.len(),
{
    if order.len() == 0 {
        (eligible, Seq::empty())
    } else {
        let (left, plan) = merges(options, tablets, eligible, order.drop_last());
        let i = order.last() as int;
        if merges_now(options, tablets, left, i) {
            let p = merge_partner(tablets, i)->0;
            let dst = smallest(left);
            (
                left.remove(dst).remove(tablets[i].shard()).remove(tablets[p].shard()),
                plan.push(
                    TransferPlan::Merge(tablets[i].tablet_id, tablets[p].tablet_id, ShardId(dst)),
                ),
            )
        } else {
            (left, plan)
        }
    }
}

/// The last tablet of a shard.
pub open spec fn tablet_on(tablets: Seq<TabletStats>, s: u32) -> Option<int> {
    last_where(tablets.len(), |j: int| tablets[j].shard() == s)
}

/// Whether a tablet is moved from the largest eligible shard to the smallest.
pub open spec fn moves_now(
    options: RebalanceOptions,
    tablets: Seq<TabletStats>,
    eligible: Map<u32, u64>,
) -> bool {
    let (min, max) = (smallest(eligible), largest(eligible));
    &&& is_smallest(eligible, min)
    &&& is_largest(eligible, max)
    &&& eligible[max] >= options.min_shard_size_for_move
    &&& eligible[max] - eligible[min] >= options.imbalance()
    &&& tablet_on(tablets, max) is Some
}

/// The moves: from the largest eligible shard to the smallest, again and again without those two.
pub open spec fn moves(
    options: RebalanceOptions,
    tablets: Seq<TabletStats>,
    eligible: Map<u32, u64>,
) -> Seq<TransferPlan>
    decreases eligible.dom().len(),
{
    if eligible.dom().finite() && moves_now(options, tablets, eligible) {
        let (min, max) = (smallest(eligible), largest(eligible));
        let t = tablets[tablet_on(tablets, max)->0].tablet_id;
        seq![TransferPlan::Move(t, ShardId(min))] + moves(
            options,
            tablets,
            eligible.remove(min).remove(max),
        )
    } else {
        Seq::empty()
    }
}

/// The shards that are eligible for moves.
pub open spec fn after_merges(
    options: RebalanceOptions,
    tablets: Seq<TabletStats>,
    eligible: Map<u32, u64>,
) -> (Map<u32, u64>, Seq<TransferPlan>) {
    let left = after_splits(options, tablets, eligible);
    let picked = merge_picked(options, eligible.dom().len(), tablets, left);
    merges(options, tablets, left, order_of(sizes_of(tablets), picked))
}

/// The whole plan: splits, then merges, then moves.
pub open spec fn plan_of(
    options: RebalanceOptions,
    tablets: Seq<TabletStats>,
    eligible: Map<u32, u64>,
) -> Seq<TransferPlan> {
    let (left, merged) = after_merges(options, tablets, eligible);
    splits(options, tablets, eligible) + merged + moves(options, tablets, left)
}

proof fn lemma_smallest_unique(m: Map<u32, u64>, s: u32)
    requires
        is_smallest(m, s),
    ensures
        smallest(m) == s,
{
    let t = smallest(m);
    assert(m.contains_key(t) && shard_le(m, s, t) && shard_le(m, t, s));
}

proof fn lemma_largest_unique(m: Map<u32, u64>, s: u32)
    requires
        is_largest(m, s),
    ensures
        largest(m) == s,
{
    let t = largest(m);
    assert(m.contains_key(t) && shard_le(m, s, t) && shard_le(m, t, s));
}

/// How often each group occurs.
pub fn count_by(groups: &Vec<ColoGroupId>) -> (counts: HashMap<u32, usize>)
    ensures
        forall|g: u32| #[trigger]
            counts@.contains_key(g) <==> occurrences(groups@, ColoGroupId(g)) > 0,
        forall|g: u32| #[trigger]
            counts@.contains_key(g) ==> counts@[g] == occurrences(groups@, ColoGroupId(g)),
{
    let mut counts: HashMap<u32, usize> = HashMap::new();
    let mut i: usize = 0;
    while i < groups.len()
        invariant
            i <= groups@.len(),
            forall|g: u32| #[trigger]
                counts@.contains_key(g) <==> occurrences(groups@.take(i as int), ColoGroupId(g))
                    > 0,
            forall|g: u32| #[trigger]
                counts@.contains_key(g) ==> counts@[g] == occurrences(
                    groups@.take(i as int),
                    ColoGroupId(g),
                ) && counts@[g] <= i,
        decreases groups@.len() - i,
    {
        let g: u32 = groups[i].0;
        let n: usize = match counts.get(&g) {
            Some(n) => *n,
            None => 0,
        };
        proof {
            assert(groups@.take(i + 1).drop_last() =~= groups@.take(i as int));
            assert(groups@.take(i + 1).last() == groups@[i as int]);
        }
        counts.insert(g, n + 1);
        i += 1;
    }
    assert(groups@.take(i as int) =~= groups@);
    counts
}

/// Tablets by group, then by one of their bounds, then by index.
struct ByEdge<'a> {
    tablets: &'a Vec<TabletStats>,
    upper: bool,
}

/// Whether a group and a bound come before others.
spec fn edge_lt(g: ColoGroupId, b: Bound<Seq<u8>>, h: ColoGroupId, c: Bound<Seq<u8>>) -> bool {
    g.0 < h.0 || (g == h && b.before(c))
}

impl<'a> Ranking for ByEdge<'a> {
    closed spec fn le(&self, a: int, b: int) -> bool {
        let (s, t) = (self.tablets@[a], self.tablets@[b]);
        let (x, y) = (edge(s, self.upper), edge(t, self.upper));
        edge_lt(s.colo_group_id, x, t.colo_group_id, y) || (s.colo_group_id == t.colo_group_id && x
            == y && a <= b)
    }

    closed spec fn ranks(&self, a: int) -> bool {
        0 <= a < self.tablets@.len()
    }

    fn is_le(&self, a: usize, b: usize) -> (r: bool) {
        broadcast use group_bound_order;

        let s = &self.tablets[a];
        let t = &self.tablets[b];
        if s.colo_group_id.0 != t.colo_group_id.0 {
            return s.colo_group_id.0 < t.colo_group_id.0;
        }
        let x = if self.upper {
            &s.range.upper
        } else {
            &s.range.lower
        };
        let y = if self.upper {
            &t.range.upper
        } else {
            &t.range.lower
        };
        if x.is_before(y) {
            true
        } else {
            x.same(y) && a <= b
        }
    }

    proof fn lemma_total(&self, a: int, b: int) {
        broadcast use group_bound_order;

    }

    proof fn lemma_transitive(&self, a: int, b: int, c: int) {
        broadcast use group_bound_order;

    }
}

/// The last tablet of a group with a given bound, found in the order of that bound.
fn find_edge(
    by_edge: &ByEdge,
    sorted: &Vec<usize>,
    g: ColoGroupId,
    b: &Bound<Vec<u8>>,
) -> (r: Option<usize>)
    requires
        in_order(by_edge, sorted@),
        permutation(sorted@, by_edge.tablets@.len()),
    ensures
        match r {
            Some(i) => with_edge(by_edge.tablets@, by_edge.upper, g, b@) == Some(i as int),
            None => with_edge(by_edge.tablets@, by_edge.upper, g, b@) is None,
        },
{
    broadcast use group_bound_order;

    let ghost tablets = by_edge.tablets@;
    let ghost upper = by_edge.upper;
    let mut lo: usize = 0;
    let mut hi: usize = sorted.len();
    while lo < hi
        invariant
            lo <= hi <= sorted@.len(),
            tablets == by_edge.tablets@,
            upper == by_edge.upper,
            in_order(by_edge, sorted@),
            permutation(sorted@, tablets.len()),
            forall|k: int|
                0 <= k < lo ==> {
                    let t = tablets[#[trigger] sorted@[k] as int];
                    !edge_lt(g, b@, t.colo_group_id, edge(t, upper))
                },
            forall|k: int|
                hi <= k < sorted@.len() ==> {
                    let t = tablets[#[trigger] sorted@[k] as int];
                    edge_lt(g, b@, t.colo_group_id, edge(t, upper))
                },
        decreases hi - lo,
    {
        broadcast use group_bound_order;

        let mid: usize = lo + (hi - lo) / 2;
        let t = &by_edge.tablets[sorted[mid]];
        let at = if by_edge.upper {
            &t.range.upper
        } else {
            &t.range.lower
        };
        proof {
            assert forall|k: int| 0 <= k < mid implies by_edge.le(
                #[trigger] sorted@[k] as int,
                sorted@[mid as int] as int,
            ) by {}
            assert forall|k: int| mid < k < sorted@.len() implies by_edge.le(
                sorted@[mid as int] as int,
                #[trigger] sorted@[k] as int,
            ) by {}
        }
        if g.0 < t.colo_group_id.0 || (g.0 == t.colo_group_id.0 && b.is_before(at)) {
            hi = mid;
        } else {
            lo = mid + 1;
        }
    }
    let ghost pred = |j: int| tablets[j].colo_group_id == g && edge(tablets[j], upper) == b@;
    proof {
        lemma_last_where(tablets.len(), pred);
        assert(with_edge(tablets, upper, g, b@) == last_where(tablets.len(), pred));
        assert forall|j: int| 0 <= j < tablets.len() && #[trigger] pred(j) implies exists|k: int|
            0 <= k < lo && #[trigger] sorted@[k] == j by {
            assert(sorted@.contains(j as usize));
            let k = choose|k: int| 0 <= k < sorted@.len() && sorted@[k] == j as usize;
            assert(sorted@[k] == j);
            assert(k < lo);
        }
    }
    if lo == 0 {
        proof {
            if with_edge(tablets, upper, g, b@) is Some {
                let j = with_edge(tablets, upper, g, b@)->0;
                assert(pred(j));
            }
        }
        return None;
    }
    let i: usize = sorted[lo - 1];
    let t = &by_edge.tablets[i];
    let at = if by_edge.upper {
        &t.range.upper
    } else {
        &t.range.lower
    };
    let found = t.colo_group_id.0 == g.0 && at.same(b);
    proof {
        assert forall|j: int| 0 <= j < tablets.len() && #[trigger] pred(j) implies found && j
            <= i by {
            let k = choose|k: int| 0 <= k < lo && #[trigger] sorted@[k] == j;
            if k < lo - 1 {
                assert(by_edge.le(sorted@[k] as int, sorted@[lo - 1] as int));
            }
        }
        if found {
            assert(pred(i as int));
        }
        if with_edge(tablets, upper, g, b@) is Some {
            let j = with_edge(tablets, upper, g, b@)->0;
            assert(pred(j));
        }
    }
    if found {
        Some(i)
    } else {
        None
    }
}

/// The indices of the tablets that are looked up by their bounds.
struct Neighbours {
    by_upper: Vec<usize>,
    by_lower: Vec<usize>,
}

spec fn neighbours_of(n: Neighbours, tablets: &Vec<TabletStats>) -> bool {
    &&& in_order(&(ByEdge { tablets, upper: true }), n.by_upper@)
    &&& permutation(n.by_upper@, tablets@.len())
    &&& in_order(&(ByEdge { tablets, upper: false }), n.by_lower@)
    &&& permutation(n.by_lower@, tablets@.len())
}

fn find_partner(tablets: &Vec<TabletStats>, n: &Neighbours, i: usize) -> (r: Option<usize>)
    requires
        neighbours_of(*n, tablets),
        i < tablets@.len(),
    ensures
        match r {
            Some(p) => merge_partner(tablets@, i as int) == Some(p as int) && p < tablets@.len(),
            None => merge_partner(tablets@, i as int) is None,
        },
{
    let g = tablets[i].colo_group_id;
    let prev = find_edge(
        &ByEdge { tablets, upper: true },
        &n.by_upper,
        g,
        &tablets[i].range.lower,
    );
    let next = find_edge(
        &ByEdge { tablets, upper: false },
        &n.by_lower,
        g,
        &tablets[i].range.upper,
    );
    proof {
        let (lower, upper) = (tablets@[i as int].range@.lower, tablets@[i as int].range@.upper);
        lemma_last_where(
            tablets@.len(),
            |j: int| tablets@[j].colo_group_id == g && edge(tablets@[j], true) == lower,
        );
        lemma_last_where(
            tablets@.len(),
            |j: int| tablets@[j].colo_group_id == g && edge(tablets@[j], false) == upper,
        );
    }
    match (prev, next) {
        (Some(p), Some(q)) => if tablets[p].size < tablets[q].size {
            prev
        } else {
            next
        },
        (Some(_), None) => prev,
        (None, _) => next,
    }
}

/// The largest tablet of each shard, by index.
fn largest_by_shard(tablets: &Vec<TabletStats>) -> (r: HashMap<u32, usize>)
    ensures
        forall|s: u32| #[trigger]
            r@.contains_key(s) ==> r@[s] < tablets@.len() && tablets@[r@[s] as int].shard() == s
                && largest_on_shard(tablets@, r@[s] as int),
        forall|i: int|
            0 <= i < tablets@.len() ==> r@.contains_key((#[trigger] tablets@[i]).shard()),
{
    let mut r: HashMap<u32, usize> = HashMap::new();
    let mut i: usize = 0;
    while i < tablets.len()
        invariant
            i <= tablets@.len(),
            forall|s: u32| #[trigger]
                r@.contains_key(s) ==> r@[s] < i && tablets@[r@[s] as int].shard() == s,
            forall|j: int|
                0 <= j < i ==> {
                    let t = #[trigger] tablets@[j];
                    r@.contains_key(t.shard()) && (t.size < tablets@[r@[t.shard()] as int].size || (
                    t.size == tablets@[r@[t.shard()] as int].size && j <= r@[t.shard()]))
                },
        decreases tablets@.len() - i,
    {
        let shard: u32 = tablets[i].tablet_id.0.0;
        let larger: bool = match r.get(&shard) {
            Some(best) => tablets[*best].size > tablets[i].size,
            None => false,
        };
        if !larger {
            r.insert(shard, i);
        }
        i += 1;
    }
    r
}

fn plan_splits(
    options: &RebalanceOptions,
    tablets: &Vec<TabletStats>,
    eligible: &mut ShardSizes,
) -> (plan: Vec<TransferPlan>)
    requires
        old(eligible).wf(),
        options.split_size() <= u64::MAX,
    ensures
        final(eligible).wf(),
        plan@ == splits(*options, tablets@, old(eligible)@),
        final(eligible)@ == after_splits(*options, tablets@, old(eligible)@),
{
    let ghost start = eligible@;
    let ghost wanted = split_picked(*options, tablets@, start);
    let best = largest_by_shard(tablets);
    let mut sizes: Vec<u64> = Vec::new();
    let mut picked: Vec<bool> = Vec::new();
    let mut i: usize = 0;
    while i < tablets.len()
        invariant
            i <= tablets@.len(),
            eligible.wf(),
            eligible@ == start,
            options.split_size() <= u64::MAX,
            forall|s: u32| #[trigger]
                best@.contains_key(s) ==> best@[s] < tablets@.len()
                    && tablets@[best@[s] as int].shard() == s && largest_on_shard(
                    tablets@,
                    best@[s] as int,
                ),
            forall|i: int|
                0 <= i < tablets@.len() ==> best@.contains_key((#[trigger] tablets@[i]).shard()),
            wanted == split_picked(*options, tablets@, start),
            sizes@ == sizes_of(tablets@).take(i as int),
            picked@ == wanted.take(i as int),
        decreases tablets@.len() - i,
    {
        let t = &tablets[i];
        sizes.push(t.size);
        let is_largest: bool = match best.get(&t.tablet_id.0.0) {
            Some(b) => *b == i,
            None => false,
        };
        picked.push(
            eligible.contains(t.tablet_id.0) && t.size >= options.range_split_size() && is_largest,
        );
        proof {
            let b = best@[t.shard()] as int;
            assert(best@.contains_key(tablets@[i as int].shard()));
            assert(tablets@[b].shard() == tablets@[i as int].shard());
            assert(largest_on_shard(tablets@, b));
        }
        i += 1;
        assert(sizes@ =~= sizes_of(tablets@).take(i as int));
        assert(picked@ =~= wanted.take(i as int));
    }
    assert(sizes@ =~= sizes_of(tablets@));
    assert(picked@ =~= wanted);
    let order = ascending_by_size(&sizes, &picked);
    proof {
        lemma_order_of(sizes@, picked@, order@);
    }
    let mut plan: Vec<TransferPlan> = Vec::new();
    let ghost all = splits(*options, tablets@, start);
    let mut k: usize = 0;
    while k < order.len()
        invariant
            k <= order@.len(),
            order@ == order_of(sizes_of(tablets@), wanted),
            ascending(sizes_of(tablets@), wanted, order@),
            wanted == split_picked(*options, tablets@, start),
            all == splits(*options, tablets@, start),
            eligible.wf(),
            plan@ == all.take(k as int),
            forall|s: u32| #[trigger]
                eligible@.contains_key(s) <==> start.contains_key(s) && forall|l: int|
                    order@.len() - k <= l < order@.len()
                        ==> tablets@[#[trigger] order@[l] as int].shard() != s,
            forall|s: u32| #[trigger] eligible@.contains_key(s) ==> eligible@[s] == start[s],
        decreases order@.len() - k,
    {
        let ghost prior = eligible@;
        let i: usize = order[order.len() - 1 - k];
        let t: TabletId = tablets[i].tablet_id;
        eligible.remove(t.0);
        plan.push(TransferPlan::Split(t, t.0, t.0));
        proof {
            assert(order@.reverse()[k as int] == i);
            assert(all[k as int] == TransferPlan::Split(t, t.0, t.0));
            assert(plan@ =~= all.take(k + 1));
            assert forall|s: u32| #[trigger]
                eligible@.contains_key(s) <==> start.contains_key(s) && forall|l: int|
                    order@.len() - (k + 1) <= l < order@.len()
                        ==> tablets@[#[trigger] order@[l] as int].shard() != s by {
                if eligible@.contains_key(s) {
                    assert(prior.contains_key(s));
                    assert forall|l: int| order@.len() - (k + 1) <= l < order@.len() implies
                        tablets@[#[trigger] order@[l] as int].shard() != s by {
                        if l == order@.len() - 1 - k {
                            assert(order@[l] == i);
                        }
                    }
                } else if start.contains_key(s) && prior.contains_key(s) {
                    assert(tablets@[order@[order@.len() - 1 - k] as int].shard() == s);
                }
            }
        }
        k += 1;
    }
    proof {
        assert(plan@ =~= all);
        let left = after_splits(*options, tablets@, start);
        assert forall|s: u32| #[trigger] eligible@.contains_key(s) == left.contains_key(s) by {
            if eligible@.contains_key(s) {
                assert forall|i: int|
                    0 <= i < tablets@.len() && (
                    #[trigger] tablets@[i]).shard() == s implies tablets@[i].size
                    < options.split_size() by {
                    if tablets@[i].size >= options.split_size() {
                        let b = best@[s];
                        assert(best@.contains_key(tablets@[i].shard()));
                        assert(largest_on_shard(tablets@, b as int));
                        assert(wanted[b as int]);
                        assert(order@.contains(b));
                        let l = choose|l: int| 0 <= l < order@.len() && order@[l] == b;
                        assert(tablets@[order@[l] as int].shard() == s);
                    }
                }
            }
            if left.contains_key(s) {
                assert forall|l: int| 0 <= l < order@.len() implies tablets@[
                #[trigger] order@[l] as int].shard() != s by {
                    assert(wanted[order@[l] as int]);
                }
            }
        }
        assert(eligible@ =~= left);
    }
    plan
}

fn plan_merges(
    options: &RebalanceOptions,
    n_shards: usize,
    tablets: &Vec<TabletStats>,
    eligible: &mut ShardSizes,
    plan: &mut Vec<TransferPlan>,
)
    requires
        old(eligible).wf(),
    ensures
        final(eligible).wf(),
        ({
            let picked = merge_picked(*options, n_shards as nat, tablets@, old(eligible)@);
            let order = order_of(sizes_of(tablets@), picked);
            let (left, merged) = merges(*options, tablets@, old(eligible)@, order);
            final(eligible)@ == left && final(plan)@ == old(plan)@ + merged
        }),
{
    let ghost start = eligible@;
    let ghost first = plan@;
    let ghost wanted = merge_picked(*options, n_shards as nat, tablets@, start);
    let mut groups: Vec<ColoGroupId> = Vec::new();
    let mut i: usize = 0;
    while i < tablets.len()
        invariant
            i <= tablets@.len(),
            groups@ == groups_of(tablets@).take(i as int),
        decreases tablets@.len() - i,
    {
        groups.push(tablets[i].colo_group_id);
        i += 1;
        assert(groups@ =~= groups_of(tablets@).take(i as int));
    }
    assert(groups@ =~= groups_of(tablets@));
    let counts = count_by(&groups);
    let mut sizes: Vec<u64> = Vec::new();
    let mut picked: Vec<bool> = Vec::new();
    let mut i: usize = 0;
    while i < tablets.len()
        invariant
            i <= tablets@.len(),
            eligible.wf(),
            eligible@ == start,
            wanted == merge_picked(*options, n_shards as nat, tablets@, start),
            groups@ == groups_of(tablets@),
            forall|g: u32| #[trigger]
                counts@.contains_key(g) <==> occurrences(groups@, ColoGroupId(g)) > 0,
            forall|g: u32| #[trigger]
                counts@.contains_key(g) ==> counts@[g] == occurrences(groups@, ColoGroupId(g)),
            sizes@ == sizes_of(tablets@).take(i as int),
            picked@ == wanted.take(i as int),
        decreases tablets@.len() - i,
    {
        let t = &tablets[i];
        let n: usize = match counts.get(&t.colo_group_id.0) {
            Some(n) => *n,
            None => 0,
        };
        let many = {
            proof {
                assert(n_shards * options.merge_min_ranges_per_shard <= u128::MAX)
                    by (nonlinear_arith)
                    requires
                        n_shards <= u64::MAX,
                        options.merge_min_ranges_per_shard <= u64::MAX,
                ;
            }
            (n as u128) > (n_shards as u128) * (options.merge_min_ranges_per_shard as u128) && n
                > options.merge_min_ranges
        };
        proof {
            let g = ColoGroupId(t.colo_group_id.0);
            assert(g == t.colo_group_id);
            assert(n == occurrences(groups@, g));
            assert(many == mergeable(*options, n_shards as nat, tablets@, g));
        }
        sizes.push(t.size);
        picked.push(
            eligible.contains(t.tablet_id.0) && t.size <= options.range_merge_size() / 2 && many,
        );
        i += 1;
        assert(sizes@ =~= sizes_of(tablets@).take(i as int));
        assert(picked@ =~= wanted.take(i as int));
    }
    assert(sizes@ =~= sizes_of(tablets@));
    assert(picked@ =~= wanted);
    let order = ascending_by_size(&sizes, &picked);
    proof {
        lemma_order_of(sizes@, picked@, order@);
    }
    let n = Neighbours {
        by_upper: sort_indices(&ByEdge { tablets, upper: true }, tablets.len()),
        by_lower: sort_indices(&ByEdge { tablets, upper: false }, tablets.len()),
    };
    let mut k: usize = 0;
    assert(order@.take(0) =~= Seq::empty());
    assert(plan@ =~= first + Seq::empty());
    while k < order.len()
        invariant
            k <= order@.len(),
            neighbours_of(n, tablets),
            order@ == order_of(sizes_of(tablets@), wanted),
            ascending(sizes_of(tablets@), wanted, order@),
            wanted == merge_picked(*options, n_shards as nat, tablets@, start),
            eligible.wf(),
            ({
                let (left, merged) = merges(*options, tablets@, start, order@.take(k as int));
                eligible@ == left && plan@ == first + merged
            }),
        decreases order@.len() - k,
    {
        let i: usize = order[k];
        let ghost (left, merged) = merges(*options, tablets@, start, order@.take(k as int));
        proof {
            assert(wanted[i as int]);
            assert(order@.take(k + 1).drop_last() =~= order@.take(k as int));
            assert(order@.take(k + 1).last() == i);
        }
        k += 1;
        if eligible.contains(tablets[i].tablet_id.0) {
            if let Some(p) = find_partner(tablets, &n, i) {
                if eligible.contains(tablets[p].tablet_id.0) && tablets[p].size
                    < options.range_merge_size() - tablets[i].size {
                    proof {
                        assert(merges_now(*options, tablets@, left, i as int));
                    }
                    if let Some(dst) = eligible.pop_min() {
                        proof {
                            lemma_smallest_unique(left, dst.0);
                        }
                        eligible.remove(tablets[i].tablet_id.0);
                        eligible.remove(tablets[p].tablet_id.0);
                        let ghost prior = plan@;
                        plan.push(
                            TransferPlan::Merge(tablets[i].tablet_id, tablets[p].tablet_id, dst),
                        );
                        assert(plan@ =~= first + merged.push(
                            TransferPlan::Merge(
                                tablets@[i as int].tablet_id,
                                tablets@[p as int].tablet_id,
                                ShardId(dst.0),
                            ),
                        ));
                    }
                }
            }
        }
    }
    assert(order@.take(k as int) =~= order@);
}

fn plan_moves(
    options: &RebalanceOptions,
    tablets: &Vec<TabletStats>,
    eligible: &mut ShardSizes,
    plan: &mut Vec<TransferPlan>,
)
    requires
        old(eligible).wf(),
        old(eligible)@.dom().finite(),
        options.imbalance() <= u64::MAX,
    ensures
        final(plan)@ == old(plan)@ + moves(*options, tablets@, old(eligible)@),
{
    let mut by_shard: HashMap<u32, usize> = HashMap::new();
    let mut i: usize = 0;
    while i < tablets.len()
        invariant
            i <= tablets@.len(),
            forall|s: u32| #[trigger]
                by_shard@.contains_key(s) <==> last_where(
                    i as nat,
                    |j: int| tablets@[j].shard() == s,
                ) is Some,
            forall|s: u32| #[trigger]
                by_shard@.contains_key(s) ==> by_shard@[s] < tablets@.len() && last_where(
                    i as nat,
                    |j: int| tablets@[j].shard() == s,
                ) == Some(by_shard@[s] as int),
        decreases tablets@.len() - i,
    {
        by_shard.insert(tablets[i].tablet_id.0.0, i);
        i += 1;
    }
    let ghost start = moves(*options, tablets@, eligible@);
    let ghost first = plan@;
    loop
        invariant
            eligible.wf(),
            eligible@.dom().finite(),
            options.imbalance() <= u64::MAX,
            first + start == plan@ + moves(*options, tablets@, eligible@),
            forall|s: u32| #[trigger]
                by_shard@.contains_key(s) <==> tablet_on(tablets@, s) is Some,
            forall|s: u32| #[trigger]
                by_shard@.contains_key(s) ==> by_shard@[s] < tablets@.len() && tablet_on(
                    tablets@,
                    s,
                ) == Some(by_shard@[s] as int),
        ensures
            plan@ == first + start,
        decreases eligible@.dom().len(),
    {
        let ghost left = eligible@;
        let ghost prior = plan@;
        let ((min, min_size), (max, max_size)) = match (eligible.peek_min(), eligible.peek_max()) {
            (Some(min), Some(max)) => (min, max),
            _ => {
                assert(!moves_now(*options, tablets@, left));
                assert(plan@ =~= first + start);
                break;
            },
        };
        proof {
            lemma_smallest_unique(left, min.0);
            lemma_largest_unique(left, max.0);
            assert(shard_le(left, min.0, max.0));
        }
        if max_size < options.min_shard_size_for_move || max_size - min_size
            < options.move_min_imbalance() {
            assert(!moves_now(*options, tablets@, left));
            assert(plan@ =~= first + start);
            break;
        }
        let i: usize = match by_shard.get(&max.0) {
            Some(i) => *i,
            None => {
                assert(!moves_now(*options, tablets@, left));
                assert(plan@ =~= first + start);
                break;
            },
        };
        let popped_min = eligible.pop_min();
        let popped_max = eligible.pop_max();
        proof {
            lemma_smallest_unique(left, (popped_min->0).0);
            let rest = left.remove(min.0);
            if min.0 == max.0 {
                assert forall|s: u32| !rest.contains_key(s) by {
                    if rest.contains_key(s) {
                        assert(left.contains_key(s));
                        assert(shard_le(left, min.0, s) && shard_le(left, s, max.0));
                    }
                }
                if popped_max is Some {
                    assert(rest.contains_key((popped_max->0).0));
                }
                assert(rest =~= left.remove(min.0).remove(max.0));
            } else {
                assert(is_largest(rest, max.0)) by {
                    assert forall|t: u32| #[trigger] rest.contains_key(t) implies shard_le(
                        rest,
                        t,
                        max.0,
                    ) by {
                        assert(left.contains_key(t));
                    }
                }
                assert(rest.contains_key(max.0));
                lemma_largest_unique(rest, max.0);
                lemma_largest_unique(rest, (popped_max->0).0);
            }
            assert(eligible@ == left.remove(min.0).remove(max.0));
            assert(moves_now(*options, tablets@, left));
        }
        plan.push(TransferPlan::Move(tablets[i].tablet_id, min));
        proof {
            let step = seq![TransferPlan::Move(tablets@[i as int].tablet_id, ShardId(min.0))];
            assert(plan@ =~= prior + step);
            assert(prior + (step + moves(*options, tablets@, eligible@)) =~= plan@ + moves(
                *options,
                tablets@,
                eligible@,
            ));
        }
    }
}

/// Plans transfers to rebalance the system.
///
/// The main goal is to keep the shards roughly balanced in size, by moving ranges from the fullest
/// shards to the emptiest. The second is to keep the ranges roughly the same size: large ones are
/// split where they are, and small neighbours are merged, the smallest first.
pub fn plan_rebalance(
    options: RebalanceOptions,
    active_tablets: &Vec<TabletStats>,
    eligible_shard_sizes: &HashMap<u32, u64>,
) -> (plan: Vec<TransferPlan>)
    requires
        options.imbalance() <= u64::MAX,
    ensures
        plan@ == plan_of(options, active_tablets@, eligible_shard_sizes@),
{
    let mut eligible = ShardSizes::new();
    let n_shards: usize = eligible_shard_sizes.len();
    let ghost all = eligible_shard_sizes@;
    for entry in it: eligible_shard_sizes.iter()
        invariant
            all == eligible_shard_sizes@,
            eligible.wf(),
            it.seq().len() == all.dom().len(),
            forall|i: int|
                0 <= i < it.seq().len() ==> all.contains_key(*(#[trigger] it.seq()[i]).0)
                    && all[*it.seq()[i].0] == *it.seq()[i].1,
            forall|k: u32| #[trigger] all.contains_key(k) ==> it.seq().contains((&k, &all[k])),
            forall|s: u32| #[trigger]
                eligible@.contains_key(s) <==> exists|i: int|
                    0 <= i < it.index() && *(#[trigger] it.seq()[i]).0 == s,
            forall|s: u32| #[trigger]
                eligible@.contains_key(s) ==> all.contains_key(s) && eligible@[s] == all[s],
    {
        let (shard, size) = entry;
        let ghost prior = eligible@;
        eligible.insert(ShardId(*shard), *size);
        proof {
            assert forall|s: u32| #[trigger]
                eligible@.contains_key(s) <==> exists|i: int|
                    0 <= i < it.index() + 1 && *(#[trigger] it.seq()[i]).0 == s by {
                if s == *shard {
                    assert(*it.seq()[it.index() as int].0 == s);
                } else if prior.contains_key(s) {
                    let i = choose|i: int|
                        0 <= i < it.index() && *(#[trigger] it.seq()[i]).0 == s;
                    assert(*it.seq()[i].0 == s);
                }
            }
        }
    }
    proof {
        assert forall|s: u32| #[trigger] all.contains_key(s) == eligible@.contains_key(s) by {
            if all.contains_key(s) {
                assert(eligible_shard_sizes@.contains_key(s));
            }
        }
        assert(eligible@ =~= all);
    }
    let mut plan = plan_splits(&options, active_tablets, &mut eligible);
    let ghost left = eligible@;
    plan_merges(&options, n_shards, active_tablets, &mut eligible, &mut plan);
    proof {
        lemma_splits_finite(options, active_tablets@, all);
        let picked = merge_picked(options, n_shards as nat, active_tablets@, left);
        lemma_merges_finite(
            options,
            active_tablets@,
            left,
            order_of(sizes_of(active_tablets@), picked),
        );
    }
    plan_moves(&options, active_tablets, &mut eligible, &mut plan);
    plan
}

proof fn lemma_splits_finite(
    options: RebalanceOptions,
    tablets: Seq<TabletStats>,
    eligible: Map<u32, u64>,
)
    requires
        eligible.dom().finite(),
    ensures
        after_splits(options, tablets, eligible).dom().finite(),
{
    let left = after_splits(options, tablets, eligible);
    assert(left.dom().subset_of(eligible.dom()));
    vstd::set_lib::lemma_len_subset(left.dom(), eligible.dom());
}

proof fn lemma_merges_finite(
    options: RebalanceOptions,
    tablets: Seq<TabletStats>,
    eligible: Map<u32, u64>,
    order: Seq<usize>,
)
    requires
        eligible.dom().finite(),
    ensures
        merges(options, tablets, eligible, order).0.dom().finite(),
    decreases order.len(),
{
    if order.len() > 0 {
        lemma_merges_finite(options, tablets, eligible, order.drop_last());
    }
}

} // verus!
