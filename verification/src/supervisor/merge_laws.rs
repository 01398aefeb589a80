//! What is planned, and that nothing that is worth it is left out.

use vstd::prelude::*;

use super::plan_laws::{
    law_splits_are_the_large, lemma_merges_shards, lemma_order_exists, lemma_smallest_exists, uses,
};
use super::queue::{is_largest, shard_le};
use super::rebalance::{
    after_merges, after_splits, edge, groups_of, largest, largest_on_shard, lemma_last_where,
    merge_partner, merge_picked, merges, merges_now, moves, moves_now, occurrences, order_of,
    plan_of, sizes_of, smallest, split_picked, splits, tablet_on, with_edge, RebalanceOptions,
    TabletStats, TransferPlan,
};
use crate::types::ColoGroupId;

verus! {

/// How many tablets a colo group has.
pub open spec fn group_size(tablets: Seq<TabletStats>, g: ColoGroupId) -> nat {
    tablets.filter(|t: TabletStats| t.colo_group_id == g).len()
}

proof fn lemma_occurrences(tablets: Seq<TabletStats>, g: ColoGroupId)
    ensures
        occurrences(groups_of(tablets), g) == group_size(tablets, g),
    decreases tablets.len(),
{
    reveal(Seq::filter);
    if tablets.len() > 0 {
        lemma_occurrences(tablets.drop_last(), g);
        assert(groups_of(tablets).drop_last() =~= groups_of(tablets.drop_last()));
    }
}

/// Whether one tablet ends where another of its group starts.
pub open spec fn next_to(a: TabletStats, b: TabletStats) -> bool {
    a.colo_group_id == b.colo_group_id && a.range@.upper == b.range@.lower
}

/// Whether no two tablets of a group start at one bound or end at one.
pub open spec fn distinct_edges(tablets: Seq<TabletStats>) -> bool {
    forall|a: int, b: int|
        0 <= a < tablets.len() && 0 <= b < tablets.len() && a != b && (
        #[trigger] tablets[a]).colo_group_id == (#[trigger] tablets[b]).colo_group_id
            ==> tablets[a].range@.lower != tablets[b].range@.lower && tablets[a].range@.upper
            != tablets[b].range@.upper
}

/// Whether two tablets are worth merging: neighbours in a group that has many ranges, in all and for
/// each shard, and small, each and together. Of the neighbours on either side the smaller is taken.
pub open spec fn worth_merging(
    options: RebalanceOptions,
    n_shards: nat,
    tablets: Seq<TabletStats>,
    i: int,
    p: int,
) -> bool {
    &&& 0 <= i < tablets.len()
    &&& 0 <= p < tablets.len()
    &&& next_to(tablets[p], tablets[i]) || next_to(tablets[i], tablets[p])
    &&& tablets[i].size <= options.range_target_size as int / 4
    &&& tablets[i].size + tablets[p].size < options.range_target_size as int / 2
    &&& group_size(tablets, tablets[i].colo_group_id) > options.merge_min_ranges
    &&& group_size(tablets, tablets[i].colo_group_id) > n_shards
        * options.merge_min_ranges_per_shard
    &&& distinct_edges(tablets) ==> forall|q: int|
        0 <= q < tablets.len() && q != p && (next_to(#[trigger] tablets[q], tablets[i]) || next_to(
            tablets[i],
            tablets[q],
        )) ==> tablets[p].size <= tablets[q].size && (tablets[p].size == tablets[q].size
            ==> next_to(tablets[i], tablets[p]))
}

proof fn lemma_partner(tablets: Seq<TabletStats>, i: int)
    requires
        0 <= i < tablets.len(),
    ensures
        merge_partner(tablets, i) matches Some(p) ==> 0 <= p < tablets.len() && (next_to(
            tablets[p],
            tablets[i],
        ) || next_to(tablets[i], tablets[p])),
        merge_partner(tablets, i) is None ==> forall|q: int|
            0 <= q < tablets.len() ==> !next_to(#[trigger] tablets[q], tablets[i]) && !next_to(
                tablets[i],
                tablets[q],
            ),
        distinct_edges(tablets) ==> (merge_partner(tablets, i) matches Some(p) ==> forall|q: int|
            0 <= q < tablets.len() && q != p && (next_to(#[trigger] tablets[q], tablets[i])
                || next_to(tablets[i], tablets[q])) ==> tablets[p].size <= tablets[q].size && (
            tablets[p].size == tablets[q].size ==> next_to(tablets[i], tablets[p]))),
{
    let g = tablets[i].colo_group_id;
    let (lower, upper) = (tablets[i].range@.lower, tablets[i].range@.upper);
    let is_prev = |j: int| tablets[j].colo_group_id == g && edge(tablets[j], true) == lower;
    let is_next = |j: int| tablets[j].colo_group_id == g && edge(tablets[j], false) == upper;
    lemma_last_where(tablets.len(), is_prev);
    lemma_last_where(tablets.len(), is_next);
    let prev = with_edge(tablets, true, g, lower);
    let next = with_edge(tablets, false, g, upper);
    assert forall|q: int| 0 <= q < tablets.len() implies (next_to(
        #[trigger] tablets[q],
        tablets[i],
    ) <==> is_prev(q)) && (next_to(tablets[i], tablets[q]) <==> is_next(q)) by {}
}

/// Whether no transfer of a plan uses a shard.
pub open spec fn unused(plan: Seq<TransferPlan>, s: u32) -> bool {
    forall|k: int| 0 <= k < plan.len() ==> !uses(#[trigger] plan[k], s)
}

proof fn lemma_unused_push(plan: Seq<TransferPlan>, t: TransferPlan, s: u32)
    ensures
        unused(plan.push(t), s) <==> unused(plan, s) && !uses(t, s),
{
    let more = plan.push(t);
    assert(more[plan.len() as int] == t);
    assert forall|k: int| 0 <= k < plan.len() implies more[k] == #[trigger] plan[k] by {}
    if unused(more, s) {
        assert forall|k: int| 0 <= k < plan.len() implies !uses(#[trigger] plan[k], s) by {
            assert(!uses(more[k], s));
        }
    }
}

proof fn lemma_unused_add(a: Seq<TransferPlan>, b: Seq<TransferPlan>, s: u32)
    ensures
        unused(a + b, s) <==> unused(a, s) && unused(b, s),
{
    let c = a + b;
    if unused(c, s) {
        assert forall|k: int| 0 <= k < a.len() implies !uses(#[trigger] a[k], s) by {
            assert(c[k] == a[k]);
        }
        assert forall|k: int| 0 <= k < b.len() implies !uses(#[trigger] b[k], s) by {
            assert(c[a.len() + k] == b[k]);
        }
    }
    if unused(a, s) && unused(b, s) {
        assert forall|k: int| 0 <= k < c.len() implies !uses(#[trigger] c[k], s) by {
            if k < a.len() {
                assert(c[k] == a[k]);
            } else {
                assert(c[k] == b[k - a.len()]);
            }
        }
    }
}

/// Whether a shard is the smallest of those that no transfer of a plan uses.
pub open spec fn smallest_unused(
    eligible: Map<u32, u64>,
    plan: Seq<TransferPlan>,
    dst: u32,
) -> bool {
    &&& eligible.contains_key(dst)
    &&& unused(plan, dst)
    &&& forall|s: u32|
        #![trigger eligible.contains_key(s)]
        eligible.contains_key(s) && unused(plan, s) ==> eligible[dst] < eligible[s] || (
        eligible[dst] == eligible[s] && dst <= s)
}

/// Whether a shard is the largest of those that no transfer of a plan uses.
pub open spec fn largest_unused(
    eligible: Map<u32, u64>,
    plan: Seq<TransferPlan>,
    src: u32,
) -> bool {
    &&& eligible.contains_key(src)
    &&& unused(plan, src)
    &&& forall|s: u32|
        #![trigger eligible.contains_key(s)]
        eligible.contains_key(s) && unused(plan, s) ==> eligible[s] < eligible[src] || (
        eligible[s] == eligible[src] && s <= src)
}

/// The shards that are left after merges are those that none of them uses.
proof fn lemma_left_exact(
    options: RebalanceOptions,
    tablets: Seq<TabletStats>,
    eligible: Map<u32, u64>,
    order: Seq<usize>,
)
    requires
        eligible.dom().finite(),
    ensures
        ({
            let (left, plan) = merges(options, tablets, eligible, order);
            forall|s: u32| #[trigger]
                left.contains_key(s) <==> eligible.contains_key(s) && unused(plan, s)
        }),
    decreases order.len(),
{
    if order.len() > 0 {
        lemma_left_exact(options, tablets, eligible, order.drop_last());
        lemma_merges_shards(options, tablets, eligible, order.drop_last());
        let (left, plan) = merges(options, tablets, eligible, order.drop_last());
        let i = order.last() as int;
        if merges_now(options, tablets, left, i) {
            lemma_smallest_exists(left, tablets[i].shard());
            let (next, whole) = merges(options, tablets, eligible, order);
            let t = whole.last();
            assert(whole == plan.push(t));
            assert forall|s: u32| #[trigger]
                next.contains_key(s) <==> eligible.contains_key(s) && unused(whole, s) by {
                lemma_unused_push(plan, t, s);
                assert(left.contains_key(s) <==> eligible.contains_key(s) && unused(plan, s));
            }
        }
    }
}

/// Which candidates are merged, by their place in the order, with what they are merged.
proof fn lemma_merge_witness(
    options: RebalanceOptions,
    n_shards: nat,
    tablets: Seq<TabletStats>,
    eligible: Map<u32, u64>,
    all: Map<u32, u64>,
    order: Seq<usize>,
) -> (pos: Seq<(int, int)>)
    requires
        eligible.dom().finite(),
        forall|k: int|
            0 <= k < order.len() ==> (#[trigger] order[k]) < tablets.len() && merge_picked(
                options,
                n_shards,
                tablets,
                all,
            )[order[k] as int],
    ensures
        ({
            let plan = merges(options, tablets, eligible, order).1;
            &&& pos.len() == plan.len()
            &&& forall|j: int|
                0 <= j < pos.len() ==> {
                    let (k, p) = #[trigger] pos[j];
                    let i = order[k] as int;
                    &&& 0 <= k < order.len()
                    &&& worth_merging(options, n_shards, tablets, i, p)
                    &&& plan[j] matches TransferPlan::Merge(a, b, dst) && a == tablets[i].tablet_id
                        && b == tablets[p].tablet_id && smallest_unused(
                        eligible,
                        plan.take(j),
                        dst.0,
                    )
                }
            &&& forall|j: int, l: int|
                0 <= j < l < pos.len() ==> (#[trigger] pos[j]).0 < (#[trigger] pos[l]).0
        }),
    decreases order.len(),
{
    if order.len() == 0 {
        Seq::empty()
    } else {
        let front = order.drop_last();
        assert forall|k: int| 0 <= k < front.len() implies (#[trigger] front[k]) < tablets.len()
            && merge_picked(options, n_shards, tablets, all)[front[k] as int] by {
            assert(order[k] == front[k]);
        }
        let pos = lemma_merge_witness(options, n_shards, tablets, eligible, all, front);
        lemma_left_exact(options, tablets, eligible, front);
        lemma_merges_shards(options, tablets, eligible, front);
        let (left, plan) = merges(options, tablets, eligible, front);
        let whole = merges(options, tablets, eligible, order).1;
        let n = front.len() as int;
        assert(order[n] < tablets.len());
        let i = order.last() as int;
        assert forall|j: int| 0 <= j < plan.len() implies whole[j] == #[trigger] plan[j]
            && whole.take(j) == plan.take(j) by {
            assert(whole.take(j) =~= plan.take(j));
        }
        if merges_now(options, tablets, left, i) {
            lemma_smallest_exists(left, tablets[i].shard());
            lemma_partner(tablets, i);
            lemma_occurrences(tablets, tablets[i].colo_group_id);
            let p = merge_partner(tablets, i)->0;
            let next = pos.push((n, p));
            let dst = smallest(left);
            assert(whole.take(plan.len() as int) =~= plan);
            assert(worth_merging(options, n_shards, tablets, i, p));
            assert(smallest_unused(eligible, plan, dst)) by {
                assert(left.contains_key(dst));
                assert forall|s: u32|
                    #![trigger eligible.contains_key(s)]
                    eligible.contains_key(s) && unused(plan, s) implies eligible[dst]
                    < eligible[s] || (eligible[dst] == eligible[s] && dst <= s) by {
                    assert(left.contains_key(s));
                    assert(shard_le(left, dst, s));
                }
            }
            assert forall|j: int| 0 <= j < next.len() implies {
                let (k, p) = #[trigger] next[j];
                let i = order[k] as int;
                &&& 0 <= k < order.len()
                &&& worth_merging(options, n_shards, tablets, i, p)
                &&& whole[j] matches TransferPlan::Merge(a, b, dst) && a == tablets[i].tablet_id
                    && b == tablets[p].tablet_id && smallest_unused(
                    eligible,
                    whole.take(j),
                    dst.0,
                )
            } by {
                if j < pos.len() {
                    assert(next[j] == pos[j]);
                    assert(whole[j] == plan[j]);
                    assert(front[pos[j].0] == order[pos[j].0]);
                }
            }
            next
        } else {
            assert forall|j: int| 0 <= j < pos.len() implies order[(#[trigger] pos[j]).0]
                == front[pos[j].0] by {}
            pos
        }
    }
}

/// The splits use exactly the shards with a tablet that is large enough.
proof fn lemma_splits_use(
    options: RebalanceOptions,
    tablets: Seq<TabletStats>,
    eligible: Map<u32, u64>,
    s: u32,
)
    requires
        tablets.len() <= usize::MAX,
    ensures
        after_splits(options, tablets, eligible).contains_key(s) <==> eligible.contains_key(s)
            && unused(splits(options, tablets, eligible), s),
{
    let plan = splits(options, tablets, eligible);
    let picked = split_picked(options, tablets, eligible);
    lemma_order_exists(sizes_of(tablets), picked);
    let order = order_of(sizes_of(tablets), picked);
    let left = after_splits(options, tablets, eligible);
    if left.contains_key(s) {
        assert forall|k: int| 0 <= k < plan.len() implies !uses(#[trigger] plan[k], s) by {
            let i = order[order.len() - 1 - k] as int;
            assert(order.reverse()[k] == order[order.len() - 1 - k]);
            assert(picked[i]);
            assert(tablets[i].size >= options.split_size());
        }
    } else if eligible.contains_key(s) {
        let i = choose|i: int|
            0 <= i < tablets.len() && (#[trigger] tablets[i]).shard() == s && tablets[i].size
                >= options.split_size();
        let m = lemma_largest_on(tablets, i, tablets.len() as int);
        let t = tablets[m].tablet_id;
        law_splits_are_the_large(options, tablets, eligible, t);
        let item = TransferPlan::Split(t, t.0, t.0);
        assert(plan.contains(item));
        assert(uses(plan[plan.index_of(item)], s));
    }
}

/// Of the first tablets of a shard, one is the largest.
proof fn lemma_largest_among(tablets: Seq<TabletStats>, i: int, n: int) -> (m: int)
    requires
        0 <= i < n <= tablets.len(),
    ensures
        0 <= m < n,
        tablets[m].shard() == tablets[i].shard(),
        tablets[m].size >= tablets[i].size,
        forall|j: int|
            0 <= j < n && (#[trigger] tablets[j]).shard() == tablets[i].shard() ==> tablets[j].size
                < tablets[m].size || (tablets[j].size == tablets[m].size && j <= m),
    decreases n,
{
    let last = n - 1;
    if exists|j: int|
        0 <= j < last && (#[trigger] tablets[j]).shard() == tablets[i].shard() {
        let j = choose|j: int|
            0 <= j < last && (#[trigger] tablets[j]).shard() == tablets[i].shard();
        let start = if i < last {
            i
        } else {
            j
        };
        let m = lemma_largest_among(tablets, start, last);
        if tablets[last].shard() == tablets[i].shard() && tablets[last].size >= tablets[m].size {
            last
        } else {
            m
        }
    } else {
        assert(i == last);
        i
    }
}

proof fn lemma_largest_on(tablets: Seq<TabletStats>, i: int, n: int) -> (m: int)
    requires
        0 <= i < n == tablets.len(),
    ensures
        0 <= m < n,
        tablets[m].shard() == tablets[i].shard(),
        tablets[m].size >= tablets[i].size,
        largest_on_shard(tablets, m),
{
    lemma_largest_among(tablets, i, n)
}

proof fn lemma_largest_exists(m: Map<u32, u64>, s: u32)
    requires
        m.dom().finite(),
        m.contains_key(s),
    ensures
        is_largest(m, largest(m)),
    decreases m.dom().len(),
{
    let rest = m.remove(s);
    if exists|t: u32| rest.contains_key(t) {
        let t = choose|t: u32| rest.contains_key(t);
        lemma_largest_exists(rest, t);
        let most = largest(rest);
        let best = if shard_le(m, most, s) {
            s
        } else {
            most
        };
        assert(is_largest(m, best)) by {
            assert forall|u: u32| #[trigger] m.contains_key(u) implies shard_le(m, u, best) by {
                if u != s {
                    assert(rest.contains_key(u));
                    assert(shard_le(rest, u, most));
                }
            }
        }
    } else {
        assert(is_largest(m, s)) by {
            assert forall|u: u32| #[trigger] m.contains_key(u) implies shard_le(m, u, s) by {
                if u != s {
                    assert(rest.contains_key(u));
                }
            }
        }
    }
}

proof fn lemma_move_facts(
    options: RebalanceOptions,
    tablets: Seq<TabletStats>,
    eligible: Map<u32, u64>,
)
    requires
        eligible.dom().finite(),
    ensures
        ({
            let plan = moves(options, tablets, eligible);
            &&& forall|k: int|
                0 <= k < plan.len() ==> (#[trigger] plan[k] matches TransferPlan::Move(a, dst)
                    && smallest_unused(eligible, plan.take(k), dst.0) && largest_unused(
                    eligible,
                    plan.take(k),
                    a.0.0,
                ) && eligible[a.0.0] >= options.min_shard_size_for_move && eligible[a.0.0]
                    - eligible[dst.0] >= options.range_target_size * 3 && exists|i: int|
                    0 <= i < tablets.len() && (#[trigger] tablets[i]).tablet_id == a)
            &&& forall|s: u32, t: u32|
                #![trigger eligible.contains_key(s), eligible.contains_key(t)]
                {
                    &&& eligible.contains_key(s) && eligible.contains_key(t)
                    &&& unused(plan, s) && unused(plan, t)
                    &&& forall|u: u32| #[trigger]
                        eligible.contains_key(u) ==> exists|i: int|
                            0 <= i < tablets.len() && (#[trigger] tablets[i]).tablet_id.0.0 == u
                } ==> eligible[s] < options.min_shard_size_for_move || eligible[s] - eligible[t]
                    < options.range_target_size * 3
        }),
    decreases eligible.dom().len(),
{
    let plan = moves(options, tablets, eligible);
    if moves_now(options, tablets, eligible) {
        let (min, max) = (smallest(eligible), largest(eligible));
        let rest = eligible.remove(min).remove(max);
        lemma_move_facts(options, tablets, rest);
        lemma_last_where(tablets.len(), |j: int| tablets[j].shard() == max);
        let later = moves(options, tablets, rest);
        let i = tablet_on(tablets, max)->0;
        assert(tablets[i].tablet_id == plan[0]->Move_0);
        assert(uses(plan[0], min) && uses(plan[0], max));
        assert(plan.take(0) =~= Seq::empty());
        assert forall|s: u32| #[trigger] eligible.contains_key(s) implies (eligible[min]
            < eligible[s] || (eligible[min] == eligible[s] && min <= s)) && (eligible[s]
            < eligible[max] || (eligible[s] == eligible[max] && s <= max)) by {
            assert(shard_le(eligible, min, s) && shard_le(eligible, s, max));
        }
        assert forall|k: int| 0 <= k < plan.len() implies (#[trigger] plan[k]
            matches TransferPlan::Move(a, dst) && smallest_unused(eligible, plan.take(k), dst.0)
            && largest_unused(eligible, plan.take(k), a.0.0) && eligible[a.0.0]
            >= options.min_shard_size_for_move && eligible[a.0.0] - eligible[dst.0]
            >= options.range_target_size * 3 && exists|i: int|
            0 <= i < tablets.len() && (#[trigger] tablets[i]).tablet_id == a) by {
            if k > 0 {
                assert(plan[k] == later[k - 1]);
                let (a, dst) = (plan[k]->Move_0, plan[k]->Move_1.0);
                assert(plan.take(k) =~= seq![plan[0]] + later.take(k - 1));
                assert forall|s: u32| eligible.contains_key(s) implies (#[trigger] unused(
                    plan.take(k),
                    s,
                ) <==> rest.contains_key(s) && unused(later.take(k - 1), s)) by {
                    lemma_unused_add(seq![plan[0]], later.take(k - 1), s);
                    assert(unused(seq![plan[0]], s) <==> !uses(plan[0], s)) by {
                        assert(seq![plan[0]][0] == plan[0]);
                    }
                }
                assert(rest.contains_key(dst) && rest.contains_key(a.0.0));
                assert(eligible.contains_key(dst) && eligible.contains_key(a.0.0));
                assert forall|s: u32|
                    #![trigger eligible.contains_key(s)]
                    eligible.contains_key(s) && unused(plan.take(k), s) implies (eligible[dst]
                    < eligible[s] || (eligible[dst] == eligible[s] && dst <= s)) && (eligible[s]
                    < eligible[a.0.0] || (eligible[s] == eligible[a.0.0] && s <= a.0.0)) by {
                    assert(rest.contains_key(s));
                }
            }
        }
        assert forall|s: u32, t: u32|
            #![trigger eligible.contains_key(s), eligible.contains_key(t)]
            {
                &&& eligible.contains_key(s) && eligible.contains_key(t)
                &&& unused(plan, s) && unused(plan, t)
                &&& forall|u: u32| #[trigger]
                    eligible.contains_key(u) ==> exists|i: int|
                        0 <= i < tablets.len() && (#[trigger] tablets[i]).tablet_id.0.0 == u
            } implies eligible[s] < options.min_shard_size_for_move || eligible[s] - eligible[t]
            < options.range_target_size * 3 by {
            assert(plan =~= seq![plan[0]] + later);
            lemma_unused_add(seq![plan[0]], later, s);
            lemma_unused_add(seq![plan[0]], later, t);
            assert(seq![plan[0]][0] == plan[0]);
            assert(!uses(plan[0], s) && !uses(plan[0], t));
            assert forall|u: u32| #[trigger] rest.contains_key(u) implies exists|i: int|
                0 <= i < tablets.len() && (#[trigger] tablets[i]).tablet_id.0.0 == u by {
                assert(eligible.contains_key(u));
            }
            assert(rest.contains_key(s) && rest.contains_key(t));
        }
    } else {
        assert forall|s: u32, t: u32|
            #![trigger eligible.contains_key(s), eligible.contains_key(t)]
            {
                &&& eligible.contains_key(s) && eligible.contains_key(t)
                &&& unused(plan, s) && unused(plan, t)
                &&& forall|u: u32| #[trigger]
                    eligible.contains_key(u) ==> exists|i: int|
                        0 <= i < tablets.len() && (#[trigger] tablets[i]).tablet_id.0.0 == u
            } implies eligible[s] < options.min_shard_size_for_move || eligible[s] - eligible[t]
            < options.range_target_size * 3 by {
            lemma_smallest_exists(eligible, s);
            lemma_largest_exists(eligible, s);
            let (min, max) = (smallest(eligible), largest(eligible));
            assert(shard_le(eligible, s, max) && shard_le(eligible, min, t));
            assert(eligible.contains_key(max));
            let i = choose|i: int|
                0 <= i < tablets.len() && (#[trigger] tablets[i]).tablet_id.0.0 == max;
            let on = |j: int| tablets[j].shard() == max;
            lemma_last_where(tablets.len(), on);
            assert(on(i));
            assert(tablet_on(tablets, max) is Some);
        }
    }
}

/// The three parts of a plan, and which shards each of them leaves.
proof fn lemma_parts(
    options: RebalanceOptions,
    tablets: Seq<TabletStats>,
    eligible: Map<u32, u64>,
)
    requires
        eligible.dom().finite(),
        tablets.len() <= usize::MAX,
    ensures
        ({
            let first = splits(options, tablets, eligible);
            let left = after_splits(options, tablets, eligible);
            let (rest, merged) = after_merges(options, tablets, eligible);
            &&& plan_of(options, tablets, eligible) == first + merged + moves(
                options,
                tablets,
                rest,
            )
            &&& left.dom().finite() && rest.dom().finite()
            &&& forall|s: u32| #[trigger]
                left.contains_key(s) <==> eligible.contains_key(s) && unused(first, s)
            &&& forall|s: u32| #[trigger]
                rest.contains_key(s) <==> eligible.contains_key(s) && unused(first + merged, s)
            &&& forall|s: u32| #[trigger] left.contains_key(s) ==> left[s] == eligible[s]
            &&& forall|s: u32| #[trigger] rest.contains_key(s) ==> rest[s] == eligible[s]
        }),
{
    let first = splits(options, tablets, eligible);
    let left = after_splits(options, tablets, eligible);
    let picked = merge_picked(options, eligible.dom().len(), tablets, left);
    let order = order_of(sizes_of(tablets), picked);
    assert(left.dom().subset_of(eligible.dom()));
    vstd::set_lib::lemma_len_subset(left.dom(), eligible.dom());
    lemma_merges_shards(options, tablets, left, order);
    lemma_left_exact(options, tablets, left, order);
    let (rest, merged) = after_merges(options, tablets, eligible);
    assert forall|s: u32| #[trigger] left.contains_key(s) <==> eligible.contains_key(s) && unused(
        first,
        s,
    ) by {
        lemma_splits_use(options, tablets, eligible, s);
    }
    assert forall|s: u32| #[trigger] rest.contains_key(s) <==> eligible.contains_key(s) && unused(
        first + merged,
        s,
    ) by {
        lemma_unused_add(first, merged, s);
        assert(left.contains_key(s) <==> eligible.contains_key(s) && unused(first, s));
    }
}

/// Splits come first, then merges, then moves. The largest tablet is split first and the smallest
/// merged first. Each transfer of a plan is worth it: a split is of a tablet of at least twice the
/// target size, a merge of two tablets that are worth merging, and a move from the largest shard to
/// the smallest of those that no transfer before it uses, where the first is full enough and much
/// larger than the other. What is merged goes to the smallest shard that is unused before.
pub proof fn law_plan_parts(
    options: RebalanceOptions,
    tablets: Seq<TabletStats>,
    eligible: Map<u32, u64>,
) -> (parts: (Seq<int>, Seq<(int, int)>, int))
    requires
        eligible.dom().finite(),
        tablets.len() <= usize::MAX,
    ensures
        ({
            let plan = plan_of(options, tablets, eligible);
            let (split, merged, n_moves) = parts;
            let (a, b) = (split.len() as int, merged.len() as int);
            &&& n_moves >= 0
            &&& plan.len() == a + b + n_moves
            &&& forall|k: int|
                0 <= k < a ==> {
                    let i = #[trigger] split[k];
                    &&& 0 <= i < tablets.len()
                    &&& tablets[i].size >= options.range_target_size * 2
                    &&& plan[k] == TransferPlan::Split(
                        tablets[i].tablet_id,
                        tablets[i].tablet_id.0,
                        tablets[i].tablet_id.0,
                    )
                }
            &&& forall|k: int, l: int|
                0 <= k < l < a ==> tablets[#[trigger] split[k]].size
                    >= tablets[#[trigger] split[l]].size
            &&& forall|k: int|
                0 <= k < b ==> {
                    let (i, p) = #[trigger] merged[k];
                    &&& worth_merging(options, eligible.dom().len(), tablets, i, p)
                    &&& plan[a + k] matches TransferPlan::Merge(x, y, dst) && x
                        == tablets[i].tablet_id && y == tablets[p].tablet_id && smallest_unused(
                        eligible,
                        plan.take(a + k),
                        dst.0,
                    )
                }
            &&& forall|k: int, l: int|
                0 <= k < l < b ==> tablets[(#[trigger] merged[k]).0].size <= tablets[(
                #[trigger] merged[l]).0].size
            &&& forall|k: int|
                a + b <= k < plan.len() ==> (#[trigger] plan[k] matches TransferPlan::Move(x, dst)
                    && smallest_unused(eligible, plan.take(k), dst.0) && largest_unused(
                    eligible,
                    plan.take(k),
                    x.0.0,
                ) && eligible[x.0.0] >= options.min_shard_size_for_move && eligible[x.0.0]
                    - eligible[dst.0] >= options.range_target_size * 3 && exists|i: int|
                    0 <= i < tablets.len() && (#[trigger] tablets[i]).tablet_id == x)
        }),
{
    let plan = plan_of(options, tablets, eligible);
    let first = splits(options, tablets, eligible);
    let left = after_splits(options, tablets, eligible);
    let (rest, merged) = after_merges(options, tablets, eligible);
    let moved = moves(options, tablets, rest);
    lemma_parts(options, tablets, eligible);
    let split_from = split_picked(options, tablets, eligible);
    lemma_order_exists(sizes_of(tablets), split_from);
    let split_order = order_of(sizes_of(tablets), split_from);
    let split = Seq::new(
        split_order.len(),
        |k: int| split_order[split_order.len() - 1 - k] as int,
    );
    assert forall|k: int| 0 <= k < split.len() implies {
        let i = #[trigger] split[k];
        &&& 0 <= i < tablets.len()
        &&& tablets[i].size >= options.range_target_size * 2
        &&& plan[k] == TransferPlan::Split(
            tablets[i].tablet_id,
            tablets[i].tablet_id.0,
            tablets[i].tablet_id.0,
        )
    } by {
        assert(split_order.reverse()[k] == split_order[split_order.len() - 1 - k]);
        assert(plan[k] == first[k]);
        assert(split_from[split[k]]);
    }
    assert forall|k: int, l: int| 0 <= k < l < split.len() implies tablets[#[trigger] split[k]].size
        >= tablets[#[trigger] split[l]].size by {
        let (x, y) = (split_order.len() - 1 - l, split_order.len() - 1 - k);
        assert(sizes_of(tablets)[split_order[x] as int] <= sizes_of(
            tablets,
        )[split_order[y] as int]);
    }
    let n = eligible.dom().len();
    let merge_from = merge_picked(options, n, tablets, left);
    lemma_order_exists(sizes_of(tablets), merge_from);
    let order = order_of(sizes_of(tablets), merge_from);
    let pos = lemma_merge_witness(options, n, tablets, left, left, order);
    let pairs = Seq::new(pos.len(), |k: int| (order[pos[k].0] as int, pos[k].1));
    let (a, b) = (first.len() as int, merged.len() as int);
    assert(split.len() == first.len());
    assert forall|k: int| 0 <= k < pairs.len() implies {
        let (i, p) = #[trigger] pairs[k];
        &&& worth_merging(options, n, tablets, i, p)
        &&& plan[a + k] matches TransferPlan::Merge(x, y, dst) && x == tablets[i].tablet_id && y
            == tablets[p].tablet_id && smallest_unused(eligible, plan.take(a + k), dst.0)
    } by {
        assert(pos[k].0 < order.len());
        assert(plan[a + k] == merged[k]);
        let dst = merged[k]->Merge_2.0;
        assert(plan.take(a + k) =~= first + merged.take(k));
        assert(smallest_unused(left, merged.take(k), dst));
        lemma_unused_add(first, merged.take(k), dst);
        assert(left.contains_key(dst));
        assert forall|s: u32|
            #![trigger eligible.contains_key(s)]
            eligible.contains_key(s) && unused(plan.take(a + k), s) implies eligible[dst]
            < eligible[s] || (eligible[dst] == eligible[s] && dst <= s) by {
            lemma_unused_add(first, merged.take(k), s);
            assert(left.contains_key(s));
        }
    }
    assert forall|k: int, l: int| 0 <= k < l < pairs.len() implies tablets[(
    #[trigger] pairs[k]).0].size <= tablets[(#[trigger] pairs[l]).0].size by {
        let (x, y) = (pos[k].0, pos[l].0);
        assert(x < y);
        assert(sizes_of(tablets)[order[x] as int] <= sizes_of(tablets)[order[y] as int]);
    }
    lemma_move_facts(options, tablets, rest);
    assert forall|k: int| a + b <= k < plan.len() implies (#[trigger] plan[k]
        matches TransferPlan::Move(x, dst) && smallest_unused(eligible, plan.take(k), dst.0)
        && largest_unused(eligible, plan.take(k), x.0.0) && eligible[x.0.0]
        >= options.min_shard_size_for_move && eligible[x.0.0] - eligible[dst.0]
        >= options.range_target_size * 3 && exists|i: int|
        0 <= i < tablets.len() && (#[trigger] tablets[i]).tablet_id == x) by {
        let m = k - a - b;
        assert(plan[k] == moved[m]);
        let (x, dst) = (moved[m]->Move_0.0.0, moved[m]->Move_1.0);
        assert(plan.take(k) =~= (first + merged) + moved.take(m));
        assert(rest.contains_key(x) && rest.contains_key(dst));
        lemma_unused_add(first + merged, moved.take(m), dst);
        lemma_unused_add(first + merged, moved.take(m), x);
        assert forall|s: u32|
            #![trigger eligible.contains_key(s)]
            eligible.contains_key(s) && unused(plan.take(k), s) implies (eligible[dst]
            < eligible[s] || (eligible[dst] == eligible[s] && dst <= s)) && (eligible[s]
            < eligible[x] || (eligible[s] == eligible[x] && s <= x)) by {
            lemma_unused_add(first + merged, moved.take(m), s);
            assert(rest.contains_key(s));
        }
    }
    (split, pairs, moved.len() as int)
}

/// A colo group with no more ranges than a merge asks for, in all or for each shard, has none merged.
pub proof fn law_small_groups_stay(
    options: RebalanceOptions,
    tablets: Seq<TabletStats>,
    eligible: Map<u32, u64>,
    k: int,
)
    requires
        eligible.dom().finite(),
        tablets.len() <= usize::MAX,
        0 <= k < plan_of(options, tablets, eligible).len(),
        plan_of(options, tablets, eligible)[k] is Merge,
    ensures
        exists|i: int|
            {
                let n = tablets.filter(
                    |t: TabletStats| t.colo_group_id == tablets[i].colo_group_id,
                ).len();
                &&& 0 <= i < tablets.len()
                &&& (#[trigger] tablets[i]).tablet_id == plan_of(
                    options,
                    tablets,
                    eligible,
                )[k]->Merge_0
                &&& n > options.merge_min_ranges
                &&& n > eligible.dom().len() * options.merge_min_ranges_per_shard
            },
{
    let plan = plan_of(options, tablets, eligible);
    let (split, merged, n_moves) = law_plan_parts(options, tablets, eligible);
    let a = split.len() as int;
    if k < a {
        assert(plan[k] == TransferPlan::Split(
            tablets[split[k]].tablet_id,
            tablets[split[k]].tablet_id.0,
            tablets[split[k]].tablet_id.0,
        ));
    } else if k < a + merged.len() {
        let (i, p) = merged[k - a];
        assert(worth_merging(options, eligible.dom().len(), tablets, i, p));
        assert(tablets[i].tablet_id == plan[k]->Merge_0);
        assert(group_size(tablets, tablets[i].colo_group_id) == tablets.filter(
            |t: TabletStats| t.colo_group_id == tablets[i].colo_group_id,
        ).len());
    } else {
        assert(plan[k] is Move);
    }
}

/// A tablet of at least twice the target size is split, or one that is as large on the same shard.
pub proof fn law_no_split_left_out(
    options: RebalanceOptions,
    tablets: Seq<TabletStats>,
    eligible: Map<u32, u64>,
    i: int,
)
    requires
        eligible.dom().finite(),
        tablets.len() <= usize::MAX,
        0 <= i < tablets.len(),
        eligible.contains_key(tablets[i].tablet_id.0.0),
        tablets[i].size >= options.range_target_size * 2,
    ensures
        exists|k: int, m: int|
            {
                &&& 0 <= k < plan_of(options, tablets, eligible).len()
                &&& 0 <= m < tablets.len()
                &&& (#[trigger] tablets[m]).tablet_id.0 == tablets[i].tablet_id.0
                &&& tablets[m].size >= tablets[i].size
                &&& #[trigger] plan_of(options, tablets, eligible)[k] == TransferPlan::Split(
                    tablets[m].tablet_id,
                    tablets[m].tablet_id.0,
                    tablets[m].tablet_id.0,
                )
            },
{
    let plan = plan_of(options, tablets, eligible);
    let first = splits(options, tablets, eligible);
    let m = lemma_largest_on(tablets, i, tablets.len() as int);
    let t = tablets[m].tablet_id;
    law_splits_are_the_large(options, tablets, eligible, t);
    let item = TransferPlan::Split(t, t.0, t.0);
    assert(first.contains(item));
    let k = first.index_of(item);
    assert(plan[k] == first[k]);
    assert(tablets[m].tablet_id.0 == tablets[i].tablet_id.0);
}

/// Two tablets that are worth merging are merged, unless a transfer uses a shard of theirs.
pub proof fn law_no_merge_left_out(
    options: RebalanceOptions,
    tablets: Seq<TabletStats>,
    eligible: Map<u32, u64>,
    i: int,
    p: int,
)
    requires
        eligible.dom().finite(),
        tablets.len() <= usize::MAX,
        distinct_edges(tablets),
        worth_merging(options, eligible.dom().len(), tablets, i, p),
        eligible.contains_key(tablets[i].tablet_id.0.0),
        eligible.contains_key(tablets[p].tablet_id.0.0),
    ensures
        !unused(plan_of(options, tablets, eligible), tablets[i].tablet_id.0.0) || !unused(
            plan_of(options, tablets, eligible),
            tablets[p].tablet_id.0.0,
        ),
{
    let plan = plan_of(options, tablets, eligible);
    let first = splits(options, tablets, eligible);
    let left = after_splits(options, tablets, eligible);
    let (rest, merged) = after_merges(options, tablets, eligible);
    let moved = moves(options, tablets, rest);
    lemma_parts(options, tablets, eligible);
    let (s, t) = (tablets[i].tablet_id.0.0, tablets[p].tablet_id.0.0);
    if unused(plan, s) && unused(plan, t) {
        lemma_unused_add(first + merged, moved, s);
        lemma_unused_add(first + merged, moved, t);
        lemma_unused_add(first, merged, s);
        lemma_unused_add(first, merged, t);
        assert(left.contains_key(s) && left.contains_key(t));
        assert(rest.contains_key(s) && rest.contains_key(t));
        let picked = merge_picked(options, eligible.dom().len(), tablets, left);
        lemma_occurrences(tablets, tablets[i].colo_group_id);
        assert(picked[i]);
        lemma_order_exists(sizes_of(tablets), picked);
        let order = order_of(sizes_of(tablets), picked);
        assert(order.contains(i as usize));
        lemma_partner(tablets, i);
        let q = merge_partner(tablets, i)->0;
        assert(next_to(tablets[p], tablets[i]) || next_to(tablets[i], tablets[p]));
        assert(merge_partner(tablets, i) is Some);
        if q != p {
            assert(tablets[p].size <= tablets[q].size && tablets[q].size <= tablets[p].size);
            assert(next_to(tablets[i], tablets[p]) && next_to(tablets[i], tablets[q]));
            assert(false);
        }
        let k = order.index_of(i as usize);
        lemma_turn_comes(options, tablets, left, order, k, p);
    }
}

/// A candidate that has a partner small enough is not left with its shard, and its partner's, at the
/// end.
proof fn lemma_turn_comes(
    options: RebalanceOptions,
    tablets: Seq<TabletStats>,
    eligible: Map<u32, u64>,
    order: Seq<usize>,
    k: int,
    p: int,
)
    requires
        eligible.dom().finite(),
        0 <= k < order.len(),
        merge_partner(tablets, order[k] as int) == Some(p),
        tablets[order[k] as int].size + tablets[p].size < options.merge_size(),
    ensures
        !merges(options, tablets, eligible, order).0.contains_key(tablets[order[k] as int].shard())
            || !merges(options, tablets, eligible, order).0.contains_key(tablets[p].shard()),
    decreases order.len(),
{
    let front = order.drop_last();
    let left = merges(options, tablets, eligible, front).0;
    let i = order[k] as int;
    lemma_merges_shards(options, tablets, eligible, front);
    if k < front.len() {
        assert(front[k] == order[k]);
        lemma_turn_comes(options, tablets, eligible, front, k, p);
    } else if left.contains_key(tablets[i].shard()) && left.contains_key(tablets[p].shard()) {
        assert(merges_now(options, tablets, left, i));
    }
}

/// Where each shard has a tablet, no two shards that no transfer uses differ so much that a move
/// would be worth it.
pub proof fn law_no_move_left_out(
    options: RebalanceOptions,
    tablets: Seq<TabletStats>,
    eligible: Map<u32, u64>,
    s: u32,
    t: u32,
)
    requires
        eligible.dom().finite(),
        tablets.len() <= usize::MAX,
        forall|u: u32| #[trigger]
            eligible.contains_key(u) ==> exists|i: int|
                0 <= i < tablets.len() && (#[trigger] tablets[i]).tablet_id.0.0 == u,
        eligible.contains_key(s),
        eligible.contains_key(t),
        unused(plan_of(options, tablets, eligible), s),
        unused(plan_of(options, tablets, eligible), t),
    ensures
        eligible[s] < options.min_shard_size_for_move || eligible[s] - eligible[t]
            < options.range_target_size * 3,
{
    let first = splits(options, tablets, eligible);
    let (rest, merged) = after_merges(options, tablets, eligible);
    let moved = moves(options, tablets, rest);
    lemma_parts(options, tablets, eligible);
    lemma_unused_add(first + merged, moved, s);
    lemma_unused_add(first + merged, moved, t);
    assert(rest.contains_key(s) && rest.contains_key(t));
    lemma_move_facts(options, tablets, rest);
    assert forall|u: u32| #[trigger] rest.contains_key(u) implies exists|i: int|
        0 <= i < tablets.len() && (#[trigger] tablets[i]).tablet_id.0.0 == u by {
        assert(eligible.contains_key(u));
    }
}

} // verus!
