//! Double-ended priority queues of numbered things.

use priority_queue::DoublePriorityQueue;
use vstd::prelude::*;

use crate::types::ShardId;

verus! {

/// The queue type of the crate `priority_queue`.
#[verifier::external_type_specification]
#[verifier::external_body]
#[verifier::reject_recursive_types(I)]
#[verifier::reject_recursive_types(P)]
#[verifier::reject_recursive_types(H)]
pub struct ExDoublePriorityQueue<I, P, H>(DoublePriorityQueue<I, P, H>);

/// The items that a queue holds, each with its priority.
pub uninterp spec fn queue_contents(q: DoublePriorityQueue<u64, (u64, u64)>) -> Map<
    u64,
    (u64, u64),
>;

/// Whether no item is held.
pub open spec fn no_items(m: Map<u64, (u64, u64)>) -> bool {
    m == Map::<u64, (u64, u64)>::empty()
}

/// The order of priorities: by the first number, then by the second.
pub open spec fn priority_le(a: (u64, u64), b: (u64, u64)) -> bool {
    a.0 < b.0 || (a.0 == b.0 && a.1 <= b.1)
}

/// Whether an item is held and no other has a lower priority.
pub open spec fn is_lowest(m: Map<u64, (u64, u64)>, item: u64) -> bool {
    m.contains_key(item) && forall|k: u64| #[trigger]
        m.contains_key(k) ==> priority_le(m[item], m[k])
}

/// Whether an item is held and no other has a higher priority.
pub open spec fn is_highest(m: Map<u64, (u64, u64)>, item: u64) -> bool {
    m.contains_key(item) && forall|k: u64| #[trigger]
        m.contains_key(k) ==> priority_le(m[k], m[item])
}

/// Calls `DoublePriorityQueue::new`: a queue that holds nothing.
#[verifier::external_body]
fn queue_new() -> (r: DoublePriorityQueue<u64, (u64, u64)>)
    ensures
        no_items(queue_contents(r)),
{
    DoublePriorityQueue::new()
}

/// Calls `DoublePriorityQueue::push`: the item is held with the new priority, and with no other.
#[verifier::external_body]
fn queue_push(q: &mut DoublePriorityQueue<u64, (u64, u64)>, item: u64, priority: (u64, u64))
    ensures
        queue_contents(*final(q)) == queue_contents(*old(q)).insert(item, priority),
{
    q.push(item, priority);
}

/// Calls `DoublePriorityQueue::contains`: whether the item is held.
#[verifier::external_body]
fn queue_contains(q: &DoublePriorityQueue<u64, (u64, u64)>, item: u64) -> (r: bool)
    ensures
        r == queue_contents(*q).contains_key(item),
{
    q.contains(&item)
}

/// Calls `DoublePriorityQueue::remove`: the item is not held any more, the others are.
#[verifier::external_body]
fn queue_remove(q: &mut DoublePriorityQueue<u64, (u64, u64)>, item: u64)
    ensures
        queue_contents(*final(q)) == queue_contents(*old(q)).remove(item),
{
    q.remove(&item);
}

/// Calls `DoublePriorityQueue::peek_min`: an item of the lowest priority, where there is any item.
#[verifier::external_body]
fn queue_peek_min(q: &DoublePriorityQueue<u64, (u64, u64)>) -> (r: Option<(u64, (u64, u64))>)
    ensures
        match r {
            Some((item, priority)) => is_lowest(queue_contents(*q), item) && queue_contents(
                *q,
            )[item] == priority,
            None => no_items(queue_contents(*q)),
        },
{
    q.peek_min().map(|(item, priority)| (*item, *priority))
}

/// Calls `DoublePriorityQueue::peek_max`: an item of the highest priority, where there is any item.
#[verifier::external_body]
fn queue_peek_max(q: &DoublePriorityQueue<u64, (u64, u64)>) -> (r: Option<(u64, (u64, u64))>)
    ensures
        match r {
            Some((item, priority)) => is_highest(queue_contents(*q), item) && queue_contents(
                *q,
            )[item] == priority,
            None => no_items(queue_contents(*q)),
        },
{
    q.peek_max().map(|(item, priority)| (*item, *priority))
}

/// Calls `DoublePriorityQueue::pop_min`: an item of the lowest priority leaves, where there is any
/// item.
#[verifier::external_body]
fn queue_pop_min(q: &mut DoublePriorityQueue<u64, (u64, u64)>) -> (r: Option<(u64, (u64, u64))>)
    ensures
        match r {
            Some((item, priority)) => is_lowest(queue_contents(*old(q)), item) && queue_contents(
                *old(q),
            )[item] == priority && queue_contents(*final(q)) == queue_contents(*old(q)).remove(item),
            None => no_items(queue_contents(*old(q))) && queue_contents(
                *final(q),
            ) == queue_contents(*old(q)),
        },
{
    q.pop_min()
}

/// Calls `DoublePriorityQueue::pop_max`: an item of the highest priority leaves, where there is any
/// item.
#[verifier::external_body]
fn queue_pop_max(q: &mut DoublePriorityQueue<u64, (u64, u64)>) -> (r: Option<(u64, (u64, u64))>)
    ensures
        match r {
            Some((item, priority)) => is_highest(queue_contents(*old(q)), item) && queue_contents(
                *old(q),
            )[item] == priority && queue_contents(*final(q)) == queue_contents(*old(q)).remove(item),
            None => no_items(queue_contents(*old(q))) && queue_contents(
                *final(q),
            ) == queue_contents(*old(q)),
        },
{
    q.pop_max()
}

/// Shards with their sizes, where the smallest and the largest can be found.
///
/// Shards of one size are ordered by their numbers.
pub struct ShardSizes {
    queue: DoublePriorityQueue<u64, (u64, u64)>,
}

/// The order of shards by size, then by number.
pub open spec fn shard_le(m: Map<u32, u64>, a: u32, b: u32) -> bool {
    m[a] < m[b] || (m[a] == m[b] && a <= b)
}

/// Whether a shard is the smallest.
pub open spec fn is_smallest(m: Map<u32, u64>, s: u32) -> bool {
    m.contains_key(s) && forall|t: u32| #[trigger] m.contains_key(t) ==> shard_le(m, s, t)
}

/// Whether a shard is the largest.
pub open spec fn is_largest(m: Map<u32, u64>, s: u32) -> bool {
    m.contains_key(s) && forall|t: u32| #[trigger] m.contains_key(t) ==> shard_le(m, t, s)
}

impl View for ShardSizes {
    type V = Map<u32, u64>;

    closed spec fn view(&self) -> Map<u32, u64> {
        let m = queue_contents(self.queue);
        Map::new(|s: u32| m.contains_key(s as u64), |s: u32| m[s as u64].0)
    }
}

impl ShardSizes {
    /// Every item is a shard, with its size and its number for a priority.
    pub closed spec fn wf(&self) -> bool {
        let m = queue_contents(self.queue);
        forall|k: u64| #[trigger] m.contains_key(k) ==> k <= u32::MAX && m[k].1 == k
    }

    pub fn new() -> (r: ShardSizes)
        ensures
            r.wf(),
            r@ == Map::<u32, u64>::empty(),
    {
        let r = ShardSizes { queue: queue_new() };
        assert(r@ =~= Map::<u32, u64>::empty());
        r
    }

    pub fn insert(&mut self, shard: ShardId, size: u64)
        requires
            old(self).wf(),
        ensures
            final(self).wf(),
            final(self)@ == old(self)@.insert(shard.0, size),
    {
        queue_push(&mut self.queue, shard.0 as u64, (size, shard.0 as u64));
        assert(self@ =~= old(self)@.insert(shard.0, size));
    }

    pub fn contains(&self, shard: ShardId) -> (r: bool)
        requires
            self.wf(),
        ensures
            r == self@.contains_key(shard.0),
    {
        queue_contains(&self.queue, shard.0 as u64)
    }

    pub fn remove(&mut self, shard: ShardId)
        requires
            old(self).wf(),
        ensures
            final(self).wf(),
            final(self)@ == old(self)@.remove(shard.0),
    {
        queue_remove(&mut self.queue, shard.0 as u64);
        assert(self@ =~= old(self)@.remove(shard.0));
    }

    proof fn lemma_smallest(&self, item: u64)
        requires
            self.wf(),
            is_lowest(queue_contents(self.queue), item),
        ensures
            item <= u32::MAX,
            is_smallest(self@, item as u32),
            self@[item as u32] == queue_contents(self.queue)[item].0,
    {
        let m = queue_contents(self.queue);
        assert forall|t: u32| #[trigger] self@.contains_key(t) implies shard_le(
            self@,
            item as u32,
            t,
        ) by {
            assert(m.contains_key(t as u64));
        }
    }

    proof fn lemma_largest(&self, item: u64)
        requires
            self.wf(),
            is_highest(queue_contents(self.queue), item),
        ensures
            item <= u32::MAX,
            is_largest(self@, item as u32),
            self@[item as u32] == queue_contents(self.queue)[item].0,
    {
        let m = queue_contents(self.queue);
        assert forall|t: u32| #[trigger] self@.contains_key(t) implies shard_le(
            self@,
            t,
            item as u32,
        ) by {
            assert(m.contains_key(t as u64));
        }
    }

    /// The smallest shard and its size.
    pub fn peek_min(&self) -> (r: Option<(ShardId, u64)>)
        requires
            self.wf(),
        ensures
            match r {
                Some((s, size)) => is_smallest(self@, s.0) && self@[s.0] == size,
                None => self@ == Map::<u32, u64>::empty(),
            },
    {
        match queue_peek_min(&self.queue) {
            Some((item, priority)) => {
                proof {
                    self.lemma_smallest(item);
                }
                Some((ShardId(item as u32), priority.0))
            },
            None => {
                assert(self@ =~= Map::<u32, u64>::empty());
                None
            },
        }
    }

    /// The largest shard and its size.
    pub fn peek_max(&self) -> (r: Option<(ShardId, u64)>)
        requires
            self.wf(),
        ensures
            match r {
                Some((s, size)) => is_largest(self@, s.0) && self@[s.0] == size,
                None => self@ == Map::<u32, u64>::empty(),
            },
    {
        match queue_peek_max(&self.queue) {
            Some((item, priority)) => {
                proof {
                    self.lemma_largest(item);
                }
                Some((ShardId(item as u32), priority.0))
            },
            None => {
                assert(self@ =~= Map::<u32, u64>::empty());
                None
            },
        }
    }

    /// Takes the smallest shard out.
    pub fn pop_min(&mut self) -> (r: Option<ShardId>)
        requires
            old(self).wf(),
        ensures
            final(self).wf(),
            match r {
                Some(s) => is_smallest(old(self)@, s.0) && final(self)@ == old(self)@.remove(s.0),
                None => old(self)@ == Map::<u32, u64>::empty() && final(self)@ == old(self)@,
            },
    {
        match queue_pop_min(&mut self.queue) {
            Some((item, _)) => {
                proof {
                    old(self).lemma_smallest(item);
                    assert(self@ =~= old(self)@.remove(item as u32));
                }
                Some(ShardId(item as u32))
            },
            None => {
                assert(self@ =~= Map::<u32, u64>::empty());
                None
            },
        }
    }

    /// Takes the largest shard out.
    pub fn pop_max(&mut self) -> (r: Option<ShardId>)
        requires
            old(self).wf(),
        ensures
            final(self).wf(),
            match r {
                Some(s) => is_largest(old(self)@, s.0) && final(self)@ == old(self)@.remove(s.0),
                None => old(self)@ == Map::<u32, u64>::empty() && final(self)@ == old(self)@,
            },
    {
        match queue_pop_max(&mut self.queue) {
            Some((item, _)) => {
                proof {
                    old(self).lemma_largest(item);
                    assert(self@ =~= old(self)@.remove(item as u32));
                }
                Some(ShardId(item as u32))
            },
            None => {
                assert(self@ =~= Map::<u32, u64>::empty());
                None
            },
        }
    }
}

/// Whether indices are those that are picked, by ascending size and then by ascending index.
pub open spec fn ascending(sizes: Seq<u64>, picked: Seq<bool>, order: Seq<usize>) -> bool {
    &&& forall|k: int|
        0 <= k < order.len() ==> (#[trigger] order[k]) < sizes.len() && picked[order[k] as int]
    &&& forall|i: usize| i < sizes.len() && picked[i as int] ==> #[trigger] order.contains(i)
    &&& forall|k: int, l: int|
        0 <= k < l < order.len() ==> {
            let (a, b) = (#[trigger] order[k], #[trigger] order[l]);
            sizes[a as int] < sizes[b as int] || (sizes[a as int] == sizes[b as int] && a < b)
        }
}

/// The indices that are picked, by ascending size.
pub fn ascending_by_size(sizes: &Vec<u64>, picked: &Vec<bool>) -> (order: Vec<usize>)
    requires
        sizes@.len() == picked@.len(),
    ensures
        ascending(sizes@, picked@, order@),
{
    let mut queue = queue_new();
    let mut i: usize = 0;
    while i < sizes.len()
        invariant
            i <= sizes@.len(),
            sizes@.len() == picked@.len(),
            forall|k: u64| #[trigger]
                queue_contents(queue).contains_key(k) <==> k < i && picked@[k as int],
            forall|k: u64| #[trigger]
                queue_contents(queue).contains_key(k) ==> queue_contents(queue)[k] == (
                    sizes@[k as int],
                    k,
                ),
            queue_contents(queue).dom().finite(),
        decreases sizes@.len() - i,
    {
        if picked[i] {
            queue_push(&mut queue, i as u64, (sizes[i], i as u64));
        }
        i += 1;
    }
    let mut order: Vec<usize> = Vec::new();
    let ghost all = queue_contents(queue);
    loop
        invariant
            sizes@.len() == picked@.len(),
            forall|k: u64| #[trigger]
                all.contains_key(k) <==> k < sizes@.len() && picked@[k as int],
            forall|k: u64| #[trigger] all.contains_key(k) ==> all[k] == (sizes@[k as int], k),
            forall|k: u64| #[trigger]
                queue_contents(queue).contains_key(k) ==> all.contains_key(k) && queue_contents(
                    queue,
                )[k] == all[k],
            queue_contents(queue).dom().finite(),
            forall|k: int|
                0 <= k < order@.len() ==> all.contains_key(#[trigger] order@[k] as u64)
                    && !queue_contents(queue).contains_key(order@[k] as u64),
            forall|k: u64| #[trigger]
                all.contains_key(k) ==> queue_contents(queue).contains_key(k) || order@.contains(
                    k as usize,
                ),
            forall|k: int, j: u64|
                0 <= k < order@.len() && #[trigger] queue_contents(queue).contains_key(j)
                    ==> priority_le(all[#[trigger] order@[k] as u64], all[j]),
            forall|k: int, l: int|
                0 <= k < l < order@.len() ==> {
                    let (a, b) = (#[trigger] order@[k], #[trigger] order@[l]);
                    sizes@[a as int] < sizes@[b as int] || (sizes@[a as int] == sizes@[b as int]
                        && a < b)
                },
        ensures
            ascending(sizes@, picked@, order@),
        decreases queue_contents(queue).dom().len(),
    {
        let ghost before = queue_contents(queue);
        let ghost prior = order@;
        match queue_pop_min(&mut queue) {
            None => {
                assert forall|i: usize| i < sizes@.len() && picked@[i as int] implies
                    #[trigger] order@.contains(i) by {
                    assert(all.contains_key(i as u64));
                }
                break;
            },
            Some((item, _)) => {
                assert(all.contains_key(item));
                assert(item < sizes.len());
                assert((item as usize) as u64 == item);
                order.push(item as usize);
                proof {
                    assert forall|k: u64| #[trigger] all.contains_key(k) implies queue_contents(
                        queue,
                    ).contains_key(k) || order@.contains(k as usize) by {
                        if k == item {
                            assert(order@[prior.len() as int] == k as usize);
                        } else if !before.contains_key(k) {
                            let j = choose|j: int| 0 <= j < prior.len() && prior[j] == k as usize;
                            assert(order@[j] == k as usize);
                        }
                    }
                    assert forall|k: int, j: u64|
                        0 <= k < order@.len() && #[trigger] queue_contents(queue).contains_key(
                            j,
                        ) implies priority_le(all[#[trigger] order@[k] as u64], all[j]) by {
                        assert(before.contains_key(j));
                        assert(before[j] == all[j] && before[item] == all[item]);
                        if k < prior.len() {
                            assert(order@[k] == prior[k]);
                        }
                    }
                    assert forall|k: int, l: int| 0 <= k < l < order@.len() implies {
                        let (a, b) = (#[trigger] order@[k], #[trigger] order@[l]);
                        sizes@[a as int] < sizes@[b as int] || (sizes@[a as int]
                            == sizes@[b as int] && a < b)
                    } by {
                        if l == prior.len() {
                            assert(order@[k] == prior[k]);
                            assert(before.contains_key(item));
                            assert(priority_le(all[prior[k] as u64], all[item]));
                            assert(all.contains_key(prior[k] as u64));
                        } else {
                            assert(order@[k] == prior[k] && order@[l] == prior[l]);
                        }
                    }
                }
            },
        }
    }
    order
}

} // verus!
