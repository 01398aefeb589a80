//! What holds of every plan.

use vstd::prelude::*;

use super::queue::{ascending, is_smallest};
use super::rebalance::{
    after_merges, after_splits, edge, largest, largest_on_shard, lemma_last_where, merge_partner,
    merge_picked, merges, merges_now, moves, moves_now, order_of, plan_of, sizes_of, smallest,
    split_picked, splits, tablet_on, RebalanceOptions, TabletStats, TransferPlan,
};
use crate::types::TabletId;

verus! {

/// Whether a transfer reads from a shard or writes to it.
pub open spec fn uses(t: TransferPlan, s: u32) -> bool {
    match t {
        TransferPlan::Merge(a, b, dst) => a.0.0 == s || b.0.0 == s || dst.0 == s,
        TransferPlan::Split(a, d0, d1) => a.0.0 == s || d0.0 == s || d1.0 == s,
        TransferPlan::Move(a, dst) => a.0.0 == s || dst.0 == s,
    }
}

/// Whether no two transfers use one shard.
pub open spec fn disjoint(plan: Seq<TransferPlan>) -> bool {
    forall|i: int, j: int, s: u32|
        0 <= i < j < plan.len() ==> !(#[trigger] uses(plan[i], s) && #[trigger] uses(plan[j], s))
}

/// Whether all transfers use shards of one map only.
pub open spec fn within(plan: Seq<TransferPlan>, m: Map<u32, u64>) -> bool {
    forall|i: int, s: u32|
        0 <= i < plan.len() && #[trigger] uses(plan[i], s) ==> m.contains_key(s)
}

/// Whether no transfer uses a shard of a map.
pub open spec fn outside(plan: Seq<TransferPlan>, m: Map<u32, u64>) -> bool {
    forall|i: int, s: u32|
        0 <= i < plan.len() && #[trigger] uses(plan[i], s) ==> !m.contains_key(s)
}

proof fn lemma_filter_distinct(s: Seq<usize>, pred: spec_fn(usize) -> bool)
    requires
        s.no_duplicates(),
    ensures
        s.filter(pred).no_duplicates(),
        forall|x: usize| #[trigger] s.filter(pred).contains(x) ==> s.contains(x),
    decreases s.len(),
{
    reveal(Seq::filter);
    if s.len() > 0 {
        let rest = s.drop_last();
        lemma_filter_distinct(rest, pred);
        assert(!rest.contains(s.last()));
        assert forall|x: usize| #[trigger] s.filter(pred).contains(x) implies s.contains(x) by {
            let f = s.filter(pred);
            let j = choose|j: int| 0 <= j < f.len() && f[j] == x;
            if j < rest.filter(pred).len() {
                assert(rest.filter(pred)[j] == x);
                assert(rest.filter(pred).contains(x));
                let i = choose|i: int| 0 <= i < rest.len() && rest[i] == x;
                assert(s[i] == x);
            } else {
                assert(s[s.len() - 1] == x);
            }
        }
        assert forall|i: int, j: int|
            0 <= i < j < s.filter(pred).len() implies s.filter(pred)[i] != s.filter(pred)[j] by {
            let f = rest.filter(pred);
            assert(f[i] == s.filter(pred)[i]);
            assert(f.contains(f[i]));
            if j < f.len() {
                assert(f[j] == s.filter(pred)[j]);
            }
        }
    }
}

pub proof fn lemma_order_exists(sizes: Seq<u64>, picked: Seq<bool>)
    requires
        sizes.len() == picked.len(),
        sizes.len() <= usize::MAX,
    ensures
        ascending(sizes, picked, order_of(sizes, picked)),
{
    broadcast use vstd::seq_lib::group_to_multiset_ensures;

    let n = sizes.len();
    let all = Seq::new(n, |i: int| i as usize);
    let pred = |i: usize| i < n && picked[i as int];
    let some = all.filter(pred);
    let leq = |a: usize, b: usize|
        sizes[a as int] < sizes[b as int] || (sizes[a as int] == sizes[b as int] && a <= b);
    some.lemma_sort_by_ensures(leq);
    let order = some.sort_by(leq);
    lemma_filter_distinct(all, pred);
    some.lemma_multiset_has_no_duplicates();
    order.lemma_multiset_has_no_duplicates_conv();
    assert forall|k: int| 0 <= k < order.len() implies (#[trigger] order[k]) < n
        && picked[order[k] as int] by {
        assert(order.contains(order[k]));
        assert(some.contains(order[k]));
        let j = choose|j: int| 0 <= j < some.len() && some[j] == order[k];
        all.lemma_filter_pred(pred, j);
    }
    assert forall|i: usize| i < n && picked[i as int] implies #[trigger] order.contains(i) by {
        assert(all[i as int] == i);
        all.lemma_filter_contains(pred, i as int);
        assert(some.to_multiset().count(i) > 0);
        assert(order.to_multiset().count(i) > 0);
    }
    assert(ascending(sizes, picked, order)) by {
        assert forall|k: int, l: int| 0 <= k < l < order.len() implies {
            let (a, b) = (#[trigger] order[k], #[trigger] order[l]);
            sizes[a as int] < sizes[b as int] || (sizes[a as int] == sizes[b as int] && a < b)
        } by {
            assert(leq(order[k], order[l]));
            assert(order[k] != order[l]);
        }
    }
}

pub proof fn lemma_merges_shards(
    options: RebalanceOptions,
    tablets: Seq<TabletStats>,
    eligible: Map<u32, u64>,
    order: Seq<usize>,
)
    requires
        eligible.dom().finite(),
    ensures
        ({
            let (left, plan) = merges(options, tablets, eligible, order);
            &&& forall|s: u32| #[trigger]
                left.contains_key(s) ==> eligible.contains_key(s) && left[s] == eligible[s]
            &&& left.dom().finite()
            &&& within(plan, eligible)
            &&& outside(plan, left)
            &&& disjoint(plan)
        }),
    decreases order.len(),
{
    if order.len() > 0 {
        lemma_merges_shards(options, tablets, eligible, order.drop_last());
        let (left, plan) = merges(options, tablets, eligible, order.drop_last());
        let i = order.last() as int;
        if merges_now(options, tablets, left, i) {
            lemma_smallest_exists(left, tablets[i].shard());
            let (next, whole) = merges(options, tablets, eligible, order);
            let last = whole[plan.len() as int];
            assert forall|k: int, s: u32| 0 <= k < whole.len() && #[trigger] uses(
                whole[k],
                s,
            ) implies eligible.contains_key(s) && !next.contains_key(s) by {
                if k < plan.len() {
                    assert(uses(plan[k], s));
                }
            }
            assert forall|k: int, l: int, s: u32| 0 <= k < l < whole.len() implies !(
            #[trigger] uses(whole[k], s) && #[trigger] uses(whole[l], s)) by {
                if uses(whole[k], s) && uses(whole[l], s) {
                    assert(uses(plan[k], s));
                    if l < plan.len() {
                        assert(uses(plan[l], s));
                    } else {
                        assert(left.contains_key(s));
                    }
                }
            }
        }
    }
}

pub proof fn lemma_smallest_exists(m: Map<u32, u64>, s: u32)
    requires
        m.dom().finite(),
        m.contains_key(s),
    ensures
        is_smallest(m, smallest(m)),
    decreases m.dom().len(),
{
    if m.dom().len() == 1 {
        assert forall|t: u32| #[trigger] m.contains_key(t) implies t == s by {
            vstd::set::Set::lemma_is_singleton(m.dom());
            assert(m.dom().contains(t) && m.dom().contains(s));
        }
        assert(is_smallest(m, s));
    } else {
        let rest = m.remove(s);
        if forall|t: u32| !rest.contains_key(t) {
            assert(is_smallest(m, s)) by {
                assert forall|t: u32| #[trigger] m.contains_key(t) implies super::queue::shard_le(
                    m,
                    s,
                    t,
                ) by {
                    if t != s {
                        assert(rest.contains_key(t));
                    }
                }
            }
        } else {
            let t = choose|t: u32| rest.contains_key(t);
            lemma_smallest_exists(rest, t);
            let least = smallest(rest);
            if super::queue::shard_le(m, s, least) {
                assert forall|u: u32| #[trigger] m.contains_key(u) implies super::queue::shard_le(
                    m,
                    s,
                    u,
                ) by {
                    if u != s {
                        assert(rest.contains_key(u));
                    }
                }
                assert(is_smallest(m, s));
            } else {
                assert forall|u: u32| #[trigger] m.contains_key(u) implies super::queue::shard_le(
                    m,
                    least,
                    u,
                ) by {
                    if u != s {
                        assert(rest.contains_key(u));
                    }
                }
                assert(is_smallest(m, least));
            }
        }
    }
}

proof fn lemma_moves_shards(
    options: RebalanceOptions,
    tablets: Seq<TabletStats>,
    eligible: Map<u32, u64>,
)
    requires
        eligible.dom().finite(),
    ensures
        within(moves(options, tablets, eligible), eligible),
        disjoint(moves(options, tablets, eligible)),
    decreases eligible.dom().len(),
{
    if moves_now(options, tablets, eligible) {
        let (min, max) = (smallest(eligible), largest(eligible));
        let rest = eligible.remove(min).remove(max);
        lemma_moves_shards(options, tablets, rest);
        lemma_last_where(tablets.len(), |j: int| tablets[j].shard() == max);
        let later = moves(options, tablets, rest);
        let plan = moves(options, tablets, eligible);
        assert forall|k: int, s: u32| 0 <= k < plan.len() && #[trigger] uses(
            plan[k],
            s,
        ) implies eligible.contains_key(s) by {
            if k > 0 {
                assert(uses(later[k - 1], s));
                assert(rest.contains_key(s));
            }
        }
        assert forall|k: int, l: int, s: u32| 0 <= k < l < plan.len() implies !(#[trigger] uses(
            plan[k],
            s,
        ) && #[trigger] uses(plan[l], s)) by {
            if uses(plan[k], s) && uses(plan[l], s) {
                assert(uses(later[l - 1], s));
                if k > 0 {
                    assert(uses(later[k - 1], s));
                }
            }
        }
    }
}

/// A shard takes part in at most one transfer of a plan, counting the shards of the tablets that it
/// reads from and those that it writes to, and only shards that may take part in one do.
pub proof fn law_one_transfer_per_shard(
    options: RebalanceOptions,
    tablets: Seq<TabletStats>,
    eligible: Map<u32, u64>,
)
    requires
        eligible.dom().finite(),
        tablets.len() <= usize::MAX,
    ensures
        disjoint(plan_of(options, tablets, eligible)),
        within(plan_of(options, tablets, eligible), eligible),
{
    let plan = plan_of(options, tablets, eligible);
    let first = splits(options, tablets, eligible);
    let left = after_splits(options, tablets, eligible);
    let picked = split_picked(options, tablets, eligible);
    lemma_order_exists(sizes_of(tablets), picked);
    let order = order_of(sizes_of(tablets), picked);
    assert(left.dom().subset_of(eligible.dom()));
    vstd::set_lib::lemma_len_subset(left.dom(), eligible.dom());
    let m = order_of(
        sizes_of(tablets),
        merge_picked(options, eligible.dom().len(), tablets, left),
    );
    lemma_merges_shards(options, tablets, left, m);
    let (rest, merged) = after_merges(options, tablets, eligible);
    lemma_moves_shards(options, tablets, rest);
    let moved = moves(options, tablets, rest);
    assert forall|i: int, s: u32| 0 <= i < first.len() && #[trigger] uses(
        first[i],
        s,
    ) implies eligible.contains_key(s) && !left.contains_key(s) by {
        let k = order.reverse()[i] as int;
        assert(order.reverse()[i] == order[order.len() - 1 - i]);
        assert(picked[k]);
        assert(tablets[k].shard() == s);
    }
    assert forall|i: int, j: int, s: u32| 0 <= i < j < first.len() implies !(#[trigger] uses(
        first[i],
        s,
    ) && #[trigger] uses(first[j], s)) by {
        let (a, b) = (order.reverse()[i] as int, order.reverse()[j] as int);
        assert(order.reverse()[i] == order[order.len() - 1 - i]);
        assert(order.reverse()[j] == order[order.len() - 1 - j]);
        assert(picked[a] && picked[b] && a != b);
        if tablets[a].shard() == tablets[b].shard() {
            assert(largest_on_shard(tablets, a) && largest_on_shard(tablets, b));
        }
    }
    assert(first.len() + merged.len() + moved.len() == plan.len());
    assert forall|i: int, s: u32| 0 <= i < plan.len() && #[trigger] uses(
        plan[i],
        s,
    ) implies eligible.contains_key(s) by {
        if i < first.len() {
            assert(uses(first[i], s));
        } else if i < first.len() + merged.len() {
            assert(uses(merged[i - first.len()], s));
        } else {
            assert(uses(moved[i - first.len() - merged.len()], s));
        }
    }
    assert forall|i: int, j: int, s: u32| 0 <= i < j < plan.len() implies !(#[trigger] uses(
        plan[i],
        s,
    ) && #[trigger] uses(plan[j], s)) by {
        if uses(plan[i], s) && uses(plan[j], s) {
            if i < first.len() {
                assert(uses(first[i], s));
                if j < first.len() {
                    assert(uses(first[j], s));
                } else if j < first.len() + merged.len() {
                    assert(uses(merged[j - first.len()], s));
                } else {
                    assert(uses(moved[j - first.len() - merged.len()], s));
                }
            } else if i < first.len() + merged.len() {
                assert(uses(merged[i - first.len()], s));
                if j < first.len() + merged.len() {
                    assert(uses(merged[j - first.len()], s));
                } else {
                    assert(uses(moved[j - first.len() - merged.len()], s));
                }
            } else {
                assert(uses(moved[i - first.len() - merged.len()], s));
                assert(uses(moved[j - first.len() - merged.len()], s));
            }
        }
    }
}

/// A tablet is split exactly when it has the size for it, its shard may take part in a transfer, and
/// it is the largest there.
pub proof fn law_splits_are_the_large(
    options: RebalanceOptions,
    tablets: Seq<TabletStats>,
    eligible: Map<u32, u64>,
    t: TabletId,
)
    requires
        tablets.len() <= usize::MAX,
    ensures
        splits(options, tablets, eligible).contains(TransferPlan::Split(t, t.0, t.0)) <==> exists|
            i: int,
        |
            0 <= i < tablets.len() && (#[trigger] tablets[i]).tablet_id == t
                && eligible.contains_key(t.0.0) && tablets[i].size >= options.split_size()
                && largest_on_shard(tablets, i),
{
    let picked = split_picked(options, tablets, eligible);
    lemma_order_exists(sizes_of(tablets), picked);
    let order = order_of(sizes_of(tablets), picked);
    let plan = splits(options, tablets, eligible);
    let item = TransferPlan::Split(t, t.0, t.0);
    if plan.contains(item) {
        let k = choose|k: int| 0 <= k < plan.len() && plan[k] == item;
        let i = order[order.len() - 1 - k] as int;
        assert(order.reverse()[k] == i);
        assert(picked[i]);
        assert(tablets[i].tablet_id == t);
    }
    if exists|i: int|
        0 <= i < tablets.len() && (#[trigger] tablets[i]).tablet_id == t && eligible.contains_key(
            t.0.0,
        ) && tablets[i].size >= options.split_size() && largest_on_shard(tablets, i) {
        let i = choose|i: int|
            0 <= i < tablets.len() && (#[trigger] tablets[i]).tablet_id == t
                && eligible.contains_key(t.0.0) && tablets[i].size >= options.split_size()
                && largest_on_shard(tablets, i);
        assert(picked[i]);
        assert(order.contains(i as usize));
        let k = choose|k: int| 0 <= k < order.len() && order[k] == i as usize;
        assert(order.reverse()[order.len() - 1 - k] == order[k]);
        assert(plan[order.len() - 1 - k] == item);
    }
}

/// Whether a transfer is a merge of two neighbours that are small together, between eligible
/// shards.
pub open spec fn sound_merge(
    options: RebalanceOptions,
    tablets: Seq<TabletStats>,
    eligible: Map<u32, u64>,
    t: TransferPlan,
) -> bool {
    &&& t is Merge
    &&& exists|i: int, p: int|
        {
            &&& 0 <= i < tablets.len()
            &&& 0 <= p < tablets.len()
            &&& (#[trigger] tablets[i]).tablet_id == t->Merge_0
            &&& (#[trigger] tablets[p]).tablet_id == t->Merge_1
            &&& tablets[i].colo_group_id == tablets[p].colo_group_id
            &&& tablets[i].range@.touches(tablets[p].range@)
            &&& tablets[i].size + tablets[p].size < options.merge_size()
            &&& eligible.contains_key(tablets[i].shard())
            &&& eligible.contains_key(tablets[p].shard())
            &&& eligible.contains_key(t->Merge_2.0)
        }
}

proof fn lemma_sound_merges(
    options: RebalanceOptions,
    tablets: Seq<TabletStats>,
    eligible: Map<u32, u64>,
    order: Seq<usize>,
)
    requires
        eligible.dom().finite(),
        forall|k: int| 0 <= k < order.len() ==> (#[trigger] order[k]) < tablets.len(),
    ensures
        forall|k: int|
            0 <= k < merges(options, tablets, eligible, order).1.len() ==> sound_merge(
                options,
                tablets,
                eligible,
                #[trigger] merges(options, tablets, eligible, order).1[k],
            ),
    decreases order.len(),
{
    if order.len() > 0 {
        lemma_sound_merges(options, tablets, eligible, order.drop_last());
        let (left, plan) = merges(options, tablets, eligible, order.drop_last());
        lemma_merges_shards(options, tablets, eligible, order.drop_last());
        let whole = merges(options, tablets, eligible, order).1;
        let i = order.last() as int;
        assert(order[order.len() - 1] < tablets.len());
        if merges_now(options, tablets, left, i) {
            lemma_smallest_exists(left, tablets[i].shard());
            let p = merge_partner(tablets, i)->0;
            let g = tablets[i].colo_group_id;
            let (lower, upper) = (tablets[i].range@.lower, tablets[i].range@.upper);
            lemma_last_where(
                tablets.len(),
                |j: int| tablets[j].colo_group_id == g && edge(tablets[j], true) == lower,
            );
            lemma_last_where(
                tablets.len(),
                |j: int| tablets[j].colo_group_id == g && edge(tablets[j], false) == upper,
            );
            assert(0 <= p < tablets.len());
            let t = whole[plan.len() as int];
            assert(tablets[i].tablet_id == t->Merge_0 && tablets[p].tablet_id == t->Merge_1);
            assert(sound_merge(options, tablets, eligible, t));
            assert forall|k: int| 0 <= k < whole.len() implies sound_merge(
                options,
                tablets,
                eligible,
                #[trigger] whole[k],
            ) by {
                if k < plan.len() {
                    assert(whole[k] == plan[k]);
                }
            }
        }
    }
}

/// Whether a transfer moves a tablet from a shard that is full to one that is much emptier.
pub open spec fn sound_move(
    options: RebalanceOptions,
    tablets: Seq<TabletStats>,
    eligible: Map<u32, u64>,
    t: TransferPlan,
) -> bool {
    &&& t is Move
    &&& exists|i: int| 0 <= i < tablets.len() && (#[trigger] tablets[i]).tablet_id == t->Move_0
    &&& eligible.contains_key(t->Move_0.0.0)
    &&& eligible.contains_key(t->Move_1.0)
    &&& eligible[t->Move_0.0.0] >= options.min_shard_size_for_move
    &&& eligible[t->Move_0.0.0] - eligible[t->Move_1.0] >= options.imbalance()
}

proof fn lemma_sound_moves(
    options: RebalanceOptions,
    tablets: Seq<TabletStats>,
    eligible: Map<u32, u64>,
)
    requires
        eligible.dom().finite(),
    ensures
        forall|k: int|
            0 <= k < moves(options, tablets, eligible).len() ==> sound_move(
                options,
                tablets,
                eligible,
                #[trigger] moves(options, tablets, eligible)[k],
            ),
    decreases eligible.dom().len(),
{
    if moves_now(options, tablets, eligible) {
        let (min, max) = (smallest(eligible), largest(eligible));
        let rest = eligible.remove(min).remove(max);
        lemma_sound_moves(options, tablets, rest);
        lemma_last_where(tablets.len(), |j: int| tablets[j].shard() == max);
        let later = moves(options, tablets, rest);
        let plan = moves(options, tablets, eligible);
        let i = tablet_on(tablets, max)->0;
        assert(tablets[i].tablet_id == plan[0]->Move_0);
        assert forall|k: int| 0 <= k < plan.len() implies sound_move(
            options,
            tablets,
            eligible,
            #[trigger] plan[k],
        ) by {
            if k > 0 {
                assert(plan[k] == later[k - 1]);
                assert(sound_move(options, tablets, rest, later[k - 1]));
            }
        }
    }
}

/// Every transfer of a plan is a split of a large tablet, a merge of two small neighbours of one
/// colo group, or a move from a full shard to a much emptier one, and uses eligible shards only.
pub proof fn law_plan_is_sound(
    options: RebalanceOptions,
    tablets: Seq<TabletStats>,
    eligible: Map<u32, u64>,
    k: int,
)
    requires
        eligible.dom().finite(),
        tablets.len() <= usize::MAX,
        0 <= k < plan_of(options, tablets, eligible).len(),
    ensures
        ({
            let t = plan_of(options, tablets, eligible)[k];
            match t {
                TransferPlan::Split(a, d0, d1) => d0 == a.0 && d1 == a.0 && eligible.contains_key(
                    a.0.0,
                ) && exists|i: int|
                    0 <= i < tablets.len() && (#[trigger] tablets[i]).tablet_id == a
                        && tablets[i].size >= options.split_size(),
                TransferPlan::Merge(..) => sound_merge(options, tablets, eligible, t),
                TransferPlan::Move(..) => sound_move(options, tablets, eligible, t),
            }
        }),
{
    let plan = plan_of(options, tablets, eligible);
    let first = splits(options, tablets, eligible);
    let left = after_splits(options, tablets, eligible);
    assert(left.dom().subset_of(eligible.dom()));
    vstd::set_lib::lemma_len_subset(left.dom(), eligible.dom());
    let merge_from = merge_picked(options, eligible.dom().len(), tablets, left);
    lemma_order_exists(sizes_of(tablets), merge_from);
    let m = order_of(sizes_of(tablets), merge_from);
    lemma_merges_shards(options, tablets, left, m);
    lemma_sound_merges(options, tablets, left, m);
    let (rest, merged) = after_merges(options, tablets, eligible);
    lemma_sound_moves(options, tablets, rest);
    let moved = moves(options, tablets, rest);
    if k < first.len() {
        let a = first[k]->Split_0;
        assert(plan[k] == first[k]);
        assert(first.contains(TransferPlan::Split(a, a.0, a.0)));
        law_splits_are_the_large(options, tablets, eligible, a);
    } else if k < first.len() + merged.len() {
        let t = merged[k - first.len()];
        assert(plan[k] == t);
        assert(sound_merge(options, tablets, left, t));
        let (i, p) = choose|i: int, p: int|
            {
                &&& 0 <= i < tablets.len()
                &&& 0 <= p < tablets.len()
                &&& (#[trigger] tablets[i]).tablet_id == t->Merge_0
                &&& (#[trigger] tablets[p]).tablet_id == t->Merge_1
                &&& tablets[i].colo_group_id == tablets[p].colo_group_id
                &&& tablets[i].range@.touches(tablets[p].range@)
                &&& tablets[i].size + tablets[p].size < options.merge_size()
                &&& left.contains_key(tablets[i].shard())
                &&& left.contains_key(tablets[p].shard())
                &&& left.contains_key(t->Merge_2.0)
            };
        assert(tablets[i].tablet_id == t->Merge_0 && tablets[p].tablet_id == t->Merge_1);
        assert(sound_merge(options, tablets, eligible, t));
    } else {
        let t = moved[k - first.len() - merged.len()];
        assert(plan[k] == t);
        assert(sound_move(options, tablets, rest, t));
    }
}

} // verus!
