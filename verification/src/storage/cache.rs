//! A cache that evicts what was not used recently.

use vstd::prelude::*;

use super::hash_trie::HashTrie;
use super::key::{hash_key, hash_of, random_seed, CacheKey};
use super::tree_list::TreeList;

verus! {

struct CacheEntry<K, V> {
    k: K,
    v: V,
    touched: bool,
}

/// A place of a stripe that is taken.
pub struct Slot<A, V> {
    pub key: A,
    pub value: V,
    /// Whether the entry was used since the clock hand last passed it.
    pub touched: bool,
}

/// What a stripe is made of.
pub struct StripeState<A, V> {
    pub capacity: usize,
    /// The places in the order of the clock, with those that `remove` left vacant.
    pub slots: Seq<Option<Slot<A, V>>>,
    /// The places that are vacant, in the order in which they became so.
    pub vacant: Seq<usize>,
    /// The place that the clock hand points at.
    pub hand: nat,
    pub evictions: nat,
}

/// Whether a place holds a key.
pub open spec fn holds<A, V>(slot: Option<Slot<A, V>>, k: A) -> bool {
    slot matches Some(s) && s.key == k
}

/// Whether a key is held.
pub open spec fn held<A, V>(slots: Seq<Option<Slot<A, V>>>, k: A) -> bool {
    exists|i: int| 0 <= i < slots.len() && holds(#[trigger] slots[i], k)
}

/// The place that holds a key.
pub open spec fn place_of<A, V>(slots: Seq<Option<Slot<A, V>>>, k: A) -> int {
    choose|i: int| 0 <= i < slots.len() && holds(#[trigger] slots[i], k)
}

/// How many places are taken.
pub open spec fn taken<A, V>(slots: Seq<Option<Slot<A, V>>>) -> nat
    decreases slots.len(),
{
    if slots.len() == 0 {
        0
    } else {
        taken(slots.drop_last()) + if slots.last() is Some {
            1nat
        } else {
            0
        }
    }
}

/// Whether the entry in a place was used since the clock hand last passed it.
pub open spec fn is_touched<A, V>(slot: Option<Slot<A, V>>) -> bool {
    slot matches Some(s) && s.touched
}

/// How many entries were used since the clock hand last passed them.
pub open spec fn touched_count<A, V>(slots: Seq<Option<Slot<A, V>>>) -> nat
    decreases slots.len(),
{
    if slots.len() == 0 {
        0
    } else {
        touched_count(slots.drop_last()) + if is_touched(slots.last()) {
            1nat
        } else {
            0
        }
    }
}

/// The same entry, as if it was not used since the clock hand last passed it.
pub open spec fn untouched<A, V>(slot: Option<Slot<A, V>>) -> Option<Slot<A, V>> {
    match slot {
        Some(s) => Some(Slot { key: s.key, value: s.value, touched: false }),
        None => None,
    }
}

/// The clock, round a face of `n` places: the hand passes entries that were used and forgets that
/// they were, until it is at a vacant place or an entry that was not used.
pub open spec fn sweep<A, V>(slots: Seq<Option<Slot<A, V>>>, at: int, n: int) -> (
    Seq<Option<Slot<A, V>>>,
    int,
)
    decreases touched_count(slots),
{
    if 0 <= at < slots.len() && is_touched(slots[at]) {
        proof {
            lemma_touched_update(slots, at, untouched(slots[at]));
        }
        sweep(slots.update(at, untouched(slots[at])), (at + 1) % n, n)
    } else {
        (slots, at)
    }
}

/// The state once a key was inserted: in its own place where it is held, in the place that became
/// vacant last where there is one, in a new place where there is room, and else in the place that
/// the clock finds, whose entry is evicted.
pub open spec fn inserted<A, V>(s: StripeState<A, V>, k: A, v: V) -> StripeState<A, V> {
    let slot = Some(Slot { key: k, value: v, touched: true });
    let n = s.slots.len() as int;
    if held(s.slots, k) {
        StripeState { slots: s.slots.update(place_of(s.slots, k), slot), ..s }
    } else if s.vacant.len() > 0 {
        StripeState {
            slots: s.slots.update(s.vacant.last() as int, slot),
            vacant: s.vacant.drop_last(),
            ..s
        }
    } else if n < s.capacity {
        StripeState { slots: s.slots.push(slot), ..s }
    } else {
        let (swept, at) = sweep(s.slots, s.hand as int, n);
        StripeState {
            slots: swept.update(at, slot),
            hand: ((at + 1) % n) as nat,
            evictions: s.evictions + 1,
            ..s
        }
    }
}

/// The state once a key was used.
pub open spec fn touched<A, V>(s: StripeState<A, V>, k: A) -> StripeState<A, V> {
    if held(s.slots, k) {
        let i = place_of(s.slots, k);
        let slot = s.slots[i]->0;
        StripeState {
            slots: s.slots.update(
                i,
                Some(Slot { key: slot.key, value: slot.value, touched: true }),
            ),
            ..s
        }
    } else {
        s
    }
}

/// The state once a key was removed. Its place stays vacant.
pub open spec fn removed<A, V>(s: StripeState<A, V>, k: A) -> StripeState<A, V> {
    if held(s.slots, k) {
        let i = place_of(s.slots, k);
        StripeState { slots: s.slots.update(i, None), vacant: s.vacant.push(i as usize), ..s }
    } else {
        s
    }
}

pub proof fn lemma_touched_update<A, V>(
    slots: Seq<Option<Slot<A, V>>>,
    i: int,
    slot: Option<Slot<A, V>>,
)
    requires
        0 <= i < slots.len(),
    ensures
        touched_count(slots.update(i, slot)) + (if is_touched(slots[i]) {
            1nat
        } else {
            0
        }) == touched_count(slots) + (if is_touched(slot) {
            1nat
        } else {
            0
        }),
    decreases slots.len(),
{
    if i < slots.len() - 1 {
        lemma_touched_update(slots.drop_last(), i, slot);
        assert(slots.update(i, slot).drop_last() =~= slots.drop_last().update(i, slot));
    } else {
        assert(slots.update(i, slot).drop_last() =~= slots.drop_last());
    }
}

proof fn lemma_taken_update<A, V>(
    slots: Seq<Option<Slot<A, V>>>,
    i: int,
    slot: Option<Slot<A, V>>,
)
    requires
        0 <= i < slots.len(),
    ensures
        taken(slots.update(i, slot)) + (if slots[i] is Some {
            1nat
        } else {
            0
        }) == taken(slots) + (if slot is Some {
            1nat
        } else {
            0
        }),
    decreases slots.len(),
{
    if i < slots.len() - 1 {
        lemma_taken_update(slots.drop_last(), i, slot);
        assert(slots.update(i, slot).drop_last() =~= slots.drop_last().update(i, slot));
    } else {
        assert(slots.update(i, slot).drop_last() =~= slots.drop_last());
    }
}

proof fn lemma_taken_bound<A, V>(slots: Seq<Option<Slot<A, V>>>)
    ensures
        taken(slots) <= slots.len(),
    decreases slots.len(),
{
    if slots.len() > 0 {
        lemma_taken_bound(slots.drop_last());
    }
}

/// One stripe of a cache: a clock.
pub struct CacheStripe<K, V> {
    capacity: usize,
    // From each key to the place that holds it.
    m: HashTrie<K, usize>,
    // Places that `remove` left vacant hold nothing.
    entries: TreeList<Option<CacheEntry<K, V>>>,
    // Those places.
    vacant: Vec<usize>,
    hand: usize,
    evictions: usize,
}

spec fn slot_of<K: CacheKey, V>(entry: Option<CacheEntry<K, V>>) -> Option<Slot<K::V, V>> {
    match entry {
        Some(e) => Some(Slot { key: e.k@, value: e.v, touched: e.touched }),
        None => None,
    }
}

spec fn slots_of<K: CacheKey, V>(entries: Seq<Option<CacheEntry<K, V>>>) -> Seq<
    Option<Slot<K::V, V>>,
> {
    Seq::new(entries.len(), |i: int| slot_of(entries[i]))
}

/// Whether a map leads from each key that is held to its place, and from nothing else.
spec fn indexes<A, V>(m: Map<A, usize>, slots: Seq<Option<Slot<A, V>>>) -> bool {
    &&& forall|i: int|
        0 <= i < slots.len() && (#[trigger] slots[i]) is Some ==> m.contains_key(
            (slots[i]->0).key,
        ) && m[(slots[i]->0).key] == i
    &&& forall|k: A| #[trigger]
        m.contains_key(k) ==> m[k] < slots.len() && holds(slots[m[k] as int], k)
    &&& m.dom().len() == taken(slots)
}

/// Whether a list has each vacant place once, and nothing else.
pub open spec fn lists_vacant<A, V>(slots: Seq<Option<Slot<A, V>>>, vacant: Seq<usize>) -> bool {
    &&& forall|i: int|
        0 <= i < vacant.len() ==> (#[trigger] vacant[i]) < slots.len() && slots[vacant[i] as int]
            is None
    &&& forall|i: int|
        0 <= i < slots.len() && (#[trigger] slots[i]) is None ==> vacant.contains(i as usize)
    &&& vacant.no_duplicates()
}

impl<K: CacheKey, V> View for CacheStripe<K, V> {
    type V = StripeState<K::V, V>;

    closed spec fn view(&self) -> StripeState<K::V, V> {
        StripeState {
            capacity: self.capacity,
            slots: slots_of(self.entries@),
            vacant: self.vacant@,
            hand: self.hand as nat,
            evictions: self.evictions as nat,
        }
    }
}

proof fn lemma_found<A, V>(m: Map<A, usize>, slots: Seq<Option<Slot<A, V>>>, k: A)
    requires
        indexes(m, slots),
    ensures
        m.contains_key(k) == held(slots, k),
        held(slots, k) ==> place_of(slots, k) == m[k] && m[k] < slots.len() && holds(
            slots[m[k] as int],
            k,
        ),
{
    if held(slots, k) {
        let i = place_of(slots, k);
        assert(slots[i] is Some);
    }
    if m.contains_key(k) {
        assert(holds(slots[m[k] as int], k));
    }
}

/// A map of places stays one when an entry is put in a place: the entry that was there is taken out
/// of the map and the new one put in.
proof fn lemma_put<A, V>(
    m: Map<A, usize>,
    slots: Seq<Option<Slot<A, V>>>,
    at: usize,
    slot: Slot<A, V>,
)
    requires
        indexes(m, slots),
        m.dom().finite(),
        at < slots.len(),
        !held(slots, slot.key) || holds(slots[at as int], slot.key),
    ensures
        ({
            let n = match slots[at as int] {
                Some(s) => m.remove(s.key),
                None => m,
            };
            indexes(n.insert(slot.key, at), slots.update(at as int, Some(slot)))
        }),
{
    let n = match slots[at as int] {
        Some(s) => m.remove(s.key),
        None => m,
    };
    let after = n.insert(slot.key, at);
    let next = slots.update(at as int, Some(slot));
    lemma_taken_update(slots, at as int, Some(slot));
    lemma_found(m, slots, slot.key);
    assert(!n.contains_key(slot.key)) by {
        if slots[at as int] is Some {
            assert(m.contains_key((slots[at as int]->0).key));
        }
    }
    assert(n.dom().len() == taken(slots) - (if slots[at as int] is Some {
        1int
    } else {
        0
    }));
    assert forall|i: int| 0 <= i < next.len() && (#[trigger] next[i]) is Some implies
        after.contains_key((next[i]->0).key) && after[(next[i]->0).key] == i by {
        if i != at {
            assert(next[i] == slots[i]);
            assert(m[(slots[i]->0).key] == i);
            if (slots[i]->0).key == slot.key {
                assert(holds(slots[i], slot.key));
            }
        }
    }
    assert forall|k: A| #[trigger] after.contains_key(k) implies after[k] < next.len() && holds(
        next[after[k] as int],
        k,
    ) by {
        if k != slot.key {
            assert(m.contains_key(k));
            if m[k] == at {
                assert(holds(slots[at as int], k));
            }
        }
    }
}

impl<K: CacheKey, V> CacheStripe<K, V> {
    /// Every key that is held is found in its place, every vacant place is listed, there are no
    /// more places than the capacity, and the hand points at one.
    pub closed spec fn wf(&self) -> bool {
        &&& self.capacity > 0
        &&& self.m.wf()
        &&& self.m@.dom().finite()
        &&& self.entries.wf()
        &&& indexes(self.m@, self@.slots)
        &&& lists_vacant(self@.slots, self.vacant@)
        &&& self.entries@.len() <= self.capacity
        &&& self.hand < self.entries@.len() || self.hand == 0
    }

    pub fn new(capacity: usize) -> (r: Self)
        requires
            capacity > 0,
        ensures
            r.wf(),
            r@ == (StripeState {
                capacity,
                slots: Seq::<Option<Slot<K::V, V>>>::empty(),
                vacant: Seq::<usize>::empty(),
                hand: 0,
                evictions: 0,
            }),
    {
        let r = CacheStripe {
            capacity,
            m: HashTrie::new(),
            entries: TreeList::new(),
            vacant: Vec::new(),
            hand: 0,
            evictions: 0,
        };
        assert(r@.slots =~= Seq::<Option<Slot<K::V, V>>>::empty());
        assert(r@.vacant =~= Seq::<usize>::empty());
        r
    }

    /// Caches a value, in place of one that was not used recently where there is no room.
    pub fn insert(&mut self, k: K, v: V)
        requires
            old(self).wf(),
            old(self)@.evictions < usize::MAX,
        ensures
            final(self).wf(),
            final(self)@ == inserted(old(self)@, k@, v),
    {
        let ghost start = self@;
        let ghost key = k@;
        let ghost slot = Slot { key, value: v, touched: true };
        proof {
            lemma_found(self.m@, start.slots, key);
            lemma_taken_bound(start.slots);
        }
        let found: Option<usize> = match self.m.get(&k) {
            Some(idx) => Some(*idx),
            None => None,
        };
        if let Some(idx) = found {
            proof {
                lemma_put(self.m@, start.slots, idx, slot);
                assert(self.m@.remove(key).insert(key, idx) =~= self.m@);
            }
            let ghost entries = self.entries@;
            self.entries.replace(idx, Some(CacheEntry { k, v, touched: true }));
            proof {
                assert(self@.slots =~= start.slots.update(idx as int, Some(slot)));
                assert forall|i: int| 0 <= i < self@.slots.len() && (
                #[trigger] self@.slots[i]) is None implies self.vacant@.contains(i as usize) by {
                    assert(start.slots[i] is None);
                }
            }
            return ;
        }
        if let Some(at) = self.vacant.pop() {
            let copy = k.copied_key();
            proof {
                assert(start.vacant[start.vacant.len() - 1] == at);
                lemma_put(self.m@, start.slots, at, slot);
                lemma_vacant_bound(start.slots, at as int);
                lemma_filled(start.slots, start.vacant, Some(slot));
            }
            self.entries.replace(at, Some(CacheEntry { k: copy, v, touched: true }));
            self.m.insert(k, at);
            assert(self@.slots =~= start.slots.update(at as int, Some(slot)));
            assert(self@.vacant =~= start.vacant.drop_last());
            return ;
        }
        assert(self.vacant@ =~= start.vacant);
        let n: usize = self.entries.len();
        if n < self.capacity {
            let at: usize = n;
            let copy = k.copied_key();
            self.entries.push(Some(CacheEntry { k: copy, v, touched: true }));
            proof {
                let padded = start.slots.push(None);
                assert(padded.drop_last() =~= start.slots);
                assert(indexes(self.m@, padded)) by {
                    assert forall|i: int| 0 <= i < padded.len() && (
                    #[trigger] padded[i]) is Some implies self.m@.contains_key(
                        (padded[i]->0).key,
                    ) && self.m@[(padded[i]->0).key] == i by {
                        assert(padded[i] == start.slots[i]);
                    }
                }
                assert(!held(padded, key)) by {
                    if held(padded, key) {
                        let i = place_of(padded, key);
                        assert(holds(start.slots[i], key));
                    }
                }
                lemma_put(self.m@, padded, at, slot);
                assert(padded.update(at as int, Some(slot)) =~= start.slots.push(Some(slot)));
            }
            self.m.insert(k, at);
            proof {
                assert(self@.slots =~= start.slots.push(Some(slot)));
                assert forall|i: int| 0 <= i < self@.slots.len() && (
                #[trigger] self@.slots[i]) is None implies self.vacant@.contains(i as usize) by {
                    assert(start.slots[i] is None);
                }
            }
            return ;
        }
        // There is no room, so the clock looks for an entry to evict.
        let ghost goal = sweep(start.slots, start.hand as int, n as int);
        let mut at: usize = self.hand;
        loop
            invariant
                self.m.wf(),
                self.m@.dom().finite(),
                self.entries.wf(),
                self.capacity == start.capacity,
                self.capacity > 0,
                self.evictions == start.evictions,
                self.hand == start.hand,
                self.vacant@ == start.vacant,
                start.vacant.len() == 0,
                start.slots.len() <= start.capacity,
                lists_vacant(self@.slots, self.vacant@),
                indexes(self.m@, self@.slots),
                self@.slots.len() == start.slots.len(),
                0 < n == start.slots.len(),
                at < self@.slots.len(),
                !held(self@.slots, key),
                goal == sweep(self@.slots, at as int, n as int),
                start.evictions < usize::MAX,
                slot == (Slot { key, value: v, touched: true }),
                k@ == key,
            ensures
                goal == (self@.slots, at as int),
                !is_touched(self@.slots[at as int]),
            decreases touched_count(self@.slots),
        {
            let ghost before = self@.slots;
            let taken_out = self.entries.replace(at, None);
            match taken_out {
                Some(mut entry) => {
                    if entry.touched {
                        entry.touched = false;
                        self.entries.replace(at, Some(entry));
                        proof {
                            assert(self@.slots =~= before.update(
                                at as int,
                                untouched(before[at as int]),
                            ));
                            assert forall|i: int| 0 <= i < self@.slots.len() && (
                            #[trigger] self@.slots[i]) is None implies self.vacant@.contains(
                                i as usize,
                            ) by {
                                assert(before[i] is None);
                            }
                            lemma_touched_update(before, at as int, untouched(before[at as int]));
                            lemma_taken_update(before, at as int, untouched(before[at as int]));
                            lemma_untouched(self.m@, before, at as int, key);
                        }
                        at = (at + 1) % n;
                    } else {
                        self.entries.replace(at, Some(entry));
                        assert(self@.slots =~= before);
                        break;
                    }
                },
                None => {
                    assert(before[at as int] is None);
                    assert(self@.slots =~= before);
                    break;
                },
            }
        }
        let ghost swept = self@.slots;
        proof {
            lemma_put(self.m@, swept, at, slot);
        }
        let copy = k.copied_key();
        match self.entries.replace(at, Some(CacheEntry { k: copy, v, touched: true })) {
            Some(prev) => {
                self.evictions = self.evictions + 1;
                self.m.remove(&prev.k);
            },
            None => {},
        }
        proof {
            lemma_taken_bound(swept);
            lemma_taken_update(swept, at as int, None);
        }
        self.m.insert(k, at);
        self.hand = (at + 1) % n;
        proof {
            assert(self@.slots =~= swept.update(at as int, Some(slot)));
            assert(swept[at as int] is Some) by {
                if swept[at as int] is None {
                    assert(self.vacant@.contains(at));
                }
            }
            assert forall|i: int| 0 <= i < self@.slots.len() && (
            #[trigger] self@.slots[i]) is None implies self.vacant@.contains(i as usize) by {
                assert(swept[i] is None);
            }
        }
    }

    /// The cached value of a key, which counts as a use.
    pub fn get(&mut self, k: &K) -> (r: Option<V>) where V: Clone
        requires
            old(self).wf(),
        ensures
            final(self).wf(),
            final(self)@ == touched(old(self)@, k@),
            match r {
                Some(v) => held(old(self)@.slots, k@) && cloned(
                    (old(self)@.slots[place_of(old(self)@.slots, k@)]->0).value,
                    v,
                ),
                None => !held(old(self)@.slots, k@),
            },
    {
        let ghost start = self@;
        proof {
            lemma_found(self.m@, start.slots, k@);
        }
        let idx: usize = match self.m.get(k) {
            Some(idx) => *idx,
            None => return None,
        };
        match self.entries.replace(idx, None) {
            Some(mut entry) => {
                let ghost slot = Slot { key: entry.k@, value: entry.v, touched: true };
                entry.touched = true;
                let v = entry.v.clone();
                self.entries.replace(idx, Some(entry));
                proof {
                    lemma_put(self.m@, start.slots, idx, slot);
                    assert(self.m@.remove(k@).insert(k@, idx) =~= self.m@);
                    assert(self@.slots =~= start.slots.update(idx as int, Some(slot)));
                    assert forall|i: int| 0 <= i < self@.slots.len() && (
                    #[trigger] self@.slots[i]) is None implies self.vacant@.contains(
                        i as usize,
                    ) by {
                        assert(start.slots[i] is None);
                    }
                }
                Some(v)
            },
            None => None,
        }
    }

    /// Forgets a key.
    pub fn remove(&mut self, k: &K)
        requires
            old(self).wf(),
        ensures
            final(self).wf(),
            final(self)@ == removed(old(self)@, k@),
    {
        let ghost start = self@;
        let ghost m = self.m@;
        proof {
            lemma_found(m, start.slots, k@);
        }
        if let Some(idx) = self.m.remove(k) {
            self.entries.replace(idx, None);
            self.vacant.push(idx);
            proof {
                assert(self@.slots =~= start.slots.update(idx as int, None));
                lemma_emptied(start.slots, start.vacant, idx);
                lemma_taken_update(start.slots, idx as int, None);
                assert forall|i: int| 0 <= i < self@.slots.len() && (
                #[trigger] self@.slots[i]) is Some implies self.m@.contains_key(
                    (self@.slots[i]->0).key,
                ) && self.m@[(self@.slots[i]->0).key] == i by {
                    assert(self@.slots[i] == start.slots[i]);
                }
                assert forall|x: K::V| #[trigger] self.m@.contains_key(x) implies self.m@[x]
                    < self@.slots.len() && holds(self@.slots[self.m@[x] as int], x) by {
                    assert(m.contains_key(x));
                    assert(holds(start.slots[m[x] as int], x));
                }
            }
        } else {
            assert(self.m@ =~= m);
        }
    }
}

/// A list of vacant places stays one when the last of it is filled.
proof fn lemma_filled<A, V>(
    slots: Seq<Option<Slot<A, V>>>,
    vacant: Seq<usize>,
    slot: Option<Slot<A, V>>,
)
    requires
        lists_vacant(slots, vacant),
        vacant.len() > 0,
        slot is Some,
        slots.len() <= usize::MAX,
    ensures
        lists_vacant(slots.update(vacant.last() as int, slot), vacant.drop_last()),
{
    let at = vacant.last();
    let (next, rest) = (slots.update(at as int, slot), vacant.drop_last());
    assert(vacant[vacant.len() - 1] == at);
    assert forall|i: int| 0 <= i < rest.len() implies (#[trigger] rest[i]) < next.len()
        && next[rest[i] as int] is None by {
        assert(vacant[i] == rest[i] && vacant[i] != at);
    }
    assert forall|i: int| 0 <= i < next.len() && (#[trigger] next[i]) is None implies rest.contains(
        i as usize,
    ) by {
        assert(slots[i] is None);
        let j = choose|j: int| 0 <= j < vacant.len() && vacant[j] == i as usize;
        assert(rest[j] == i as usize);
    }
}

/// A list of vacant places stays one when a place that becomes vacant is added to it.
proof fn lemma_emptied<A, V>(slots: Seq<Option<Slot<A, V>>>, vacant: Seq<usize>, at: usize)
    requires
        lists_vacant(slots, vacant),
        at < slots.len(),
        slots.len() <= usize::MAX,
        slots[at as int] is Some,
    ensures
        lists_vacant(slots.update(at as int, None), vacant.push(at)),
{
    let (next, more) = (slots.update(at as int, None), vacant.push(at));
    assert forall|i: int| 0 <= i < more.len() implies (#[trigger] more[i]) < next.len()
        && next[more[i] as int] is None by {
        if i < vacant.len() {
            assert(more[i] == vacant[i]);
        }
    }
    assert forall|i: int| 0 <= i < next.len() && (#[trigger] next[i]) is None implies more.contains(
        i as usize,
    ) by {
        if i == at {
            assert(more[vacant.len() as int] == at);
        } else {
            assert(slots[i] is None);
            let j = choose|j: int| 0 <= j < vacant.len() && vacant[j] == i as usize;
            assert(more[j] == i as usize);
        }
    }
    assert forall|i: int, j: int| 0 <= i < more.len() && 0 <= j < more.len() && i
        != j implies more[i] != more[j] by {
        if i < vacant.len() {
            assert(vacant[i] == more[i]);
        }
        if j < vacant.len() {
            assert(vacant[j] == more[j]);
        }
    }
}

/// Where no vacant place is listed, all places are taken.
proof fn lemma_all_taken<A, V>(slots: Seq<Option<Slot<A, V>>>)
    requires
        forall|i: int| 0 <= i < slots.len() ==> (#[trigger] slots[i]) is Some,
    ensures
        taken(slots) == slots.len(),
    decreases slots.len(),
{
    if slots.len() > 0 {
        let rest = slots.drop_last();
        assert forall|i: int| 0 <= i < rest.len() implies (#[trigger] rest[i]) is Some by {
            assert(slots[i] is Some);
        }
        lemma_all_taken(rest);
        assert(slots[slots.len() - 1] is Some);
    }
}

/// Forgetting that an entry was used moves nothing.
proof fn lemma_untouched<A, V>(m: Map<A, usize>, slots: Seq<Option<Slot<A, V>>>, at: int, k: A)
    requires
        indexes(m, slots),
        0 <= at < slots.len(),
        !held(slots, k),
    ensures
        indexes(m, slots.update(at, untouched(slots[at]))),
        !held(slots.update(at, untouched(slots[at])), k),
{
    let next = slots.update(at, untouched(slots[at]));
    lemma_taken_update(slots, at, untouched(slots[at]));
    assert forall|i: int| 0 <= i < next.len() && (#[trigger] next[i]) is Some implies m.contains_key(
        (next[i]->0).key,
    ) && m[(next[i]->0).key] == i by {
        assert(slots[i] is Some);
    }
    assert forall|x: A| #[trigger] m.contains_key(x) implies m[x] < next.len() && holds(
        next[m[x] as int],
        x,
    ) by {
        assert(holds(slots[m[x] as int], x));
    }
    if held(next, k) {
        let i = place_of(next, k);
        assert(holds(slots[i], k));
    }
}

/// Whether no key is held twice, there is room for something, there are no more places than the
/// capacity, all vacant places are listed, and the hand points at a place.
pub open spec fn coherent<A, V>(s: StripeState<A, V>) -> bool {
    &&& s.capacity > 0
    &&& forall|i: int, j: int, k: A|
        0 <= i < s.slots.len() && 0 <= j < s.slots.len() && #[trigger] holds(s.slots[i], k)
            && #[trigger] holds(s.slots[j], k) ==> i == j
    &&& s.slots.len() <= s.capacity
    &&& lists_vacant(s.slots, s.vacant)
    &&& s.hand < s.slots.len() || s.hand == 0
}

/// A stripe is always coherent.
pub proof fn law_stripe_coherent<K: CacheKey, V>(stripe: CacheStripe<K, V>)
    requires
        stripe.wf(),
    ensures
        coherent(stripe@),
{
    let s = stripe@;
    assert forall|i: int, j: int, k: K::V|
        0 <= i < s.slots.len() && 0 <= j < s.slots.len() && #[trigger] holds(s.slots[i], k)
            && #[trigger] holds(s.slots[j], k) implies i == j by {
        assert(s.slots[i] is Some && s.slots[j] is Some);
    }
}

/// The value of a key.
pub open spec fn value_of<A, V>(s: StripeState<A, V>, k: A) -> Option<V> {
    if held(s.slots, k) {
        Some((s.slots[place_of(s.slots, k)]->0).value)
    } else {
        None
    }
}

proof fn lemma_value_at<A, V>(s: StripeState<A, V>, i: int, k: A)
    requires
        coherent(s),
        0 <= i < s.slots.len(),
        holds(s.slots[i], k),
    ensures
        place_of(s.slots, k) == i,
        value_of(s, k) == Some((s.slots[i]->0).value),
{
    let j = place_of(s.slots, k);
    assert(0 <= j < s.slots.len() && holds(s.slots[j], k));
}

/// The clock moves and drops nothing, and stops at a place.
pub proof fn lemma_sweep<A, V>(slots: Seq<Option<Slot<A, V>>>, at: int, n: int)
    requires
        0 <= at < slots.len(),
        0 < n <= slots.len(),
    ensures
        ({
            let (swept, stop) = sweep(slots, at, n);
            &&& swept.len() == slots.len()
            &&& 0 <= stop < slots.len()
            &&& !is_touched(swept[stop])
            &&& forall|i: int|
                0 <= i < slots.len() ==> (#[trigger] swept[i]) == slots[i] || swept[i] == untouched(
                    slots[i],
                )
            &&& taken(swept) == taken(slots)
        }),
    decreases touched_count(slots),
{
    if is_touched(slots[at]) {
        lemma_touched_update(slots, at, untouched(slots[at]));
        lemma_taken_update(slots, at, untouched(slots[at]));
        lemma_sweep(slots.update(at, untouched(slots[at])), (at + 1) % n, n);
    }
}

/// Where no place is vacant, the clock has only taken places to look at.
proof fn lemma_full<A, V>(s: StripeState<A, V>)
    requires
        coherent(s),
        s.vacant.len() == 0,
    ensures
        taken(s.slots) == s.slots.len(),
        forall|i: int| 0 <= i < s.slots.len() ==> (#[trigger] s.slots[i]) is Some,
{
    assert forall|i: int| 0 <= i < s.slots.len() implies (#[trigger] s.slots[i]) is Some by {
        if s.slots[i] is None {
            assert(s.vacant.contains(i as usize));
        }
    }
    lemma_all_taken(s.slots);
}

/// A key that was inserted is held with its value, and every other key keeps its value, unless it
/// is the one in the place that the clock found.
pub proof fn law_insert<A, V>(s: StripeState<A, V>, k: A, v: V, x: A)
    requires
        coherent(s),
    ensures
        value_of(inserted(s, k, v), k) == Some(v),
        coherent(inserted(s, k, v)),
        x != k ==> value_of(inserted(s, k, v), x) == value_of(s, x) || (value_of(
            inserted(s, k, v),
            x,
        ) is None && !held(s.slots, k) && taken(s.slots) == s.capacity && holds(
            s.slots[sweep(s.slots, s.hand as int, s.slots.len() as int).1],
            x,
        )),
{
    let after = inserted(s, k, v);
    let n = s.slots.len() as int;
    lemma_taken_bound(s.slots);
    let (at, base) = if held(s.slots, k) {
        (place_of(s.slots, k), s.slots)
    } else if s.vacant.len() > 0 {
        assert(s.vacant[s.vacant.len() - 1] == s.vacant.last());
        lemma_filled(
            s.slots,
            s.vacant,
            Some(Slot { key: k, value: v, touched: true }),
        );
        (s.vacant.last() as int, s.slots)
    } else if n < s.capacity {
        (s.slots.len() as int, s.slots.push(None))
    } else {
        lemma_full(s);
        lemma_sweep(s.slots, s.hand as int, n);
        (sweep(s.slots, s.hand as int, n).1, sweep(s.slots, s.hand as int, n).0)
    };
    let slot = Some(Slot { key: k, value: v, touched: true });
    assert(after.slots =~= base.update(at, slot));
    assert forall|i: int, y: A| 0 <= i < base.len() implies (#[trigger] holds(base[i], y) <==> i
        < s.slots.len() && holds(s.slots[i], y)) by {}
    assert forall|i: int, j: int, y: A|
        0 <= i < after.slots.len() && 0 <= j < after.slots.len() && #[trigger] holds(
            after.slots[i],
            y,
        ) && #[trigger] holds(after.slots[j], y) implies i == j by {
        if i != at {
            assert(holds(base[i], y));
            assert(holds(s.slots[i], y));
            assert(y == k ==> held(s.slots, k));
        }
        if j != at {
            assert(holds(base[j], y));
            assert(holds(s.slots[j], y));
            assert(y == k ==> held(s.slots, k));
        }
        if i != j && held(s.slots, k) {
            let p = place_of(s.slots, k);
            assert(holds(s.slots[p], k));
        }
    }
    assert(after.hand < after.slots.len() || after.hand == 0);
    if held(s.slots, k) || s.vacant.len() == 0 {
        assert forall|i: int| 0 <= i < after.slots.len() && (
        #[trigger] after.slots[i]) is None implies after.vacant.contains(i as usize) by {
            assert(base[i] is None);
            assert(s.slots[i] is None);
        }
        assert forall|i: int| 0 <= i < after.vacant.len() implies (#[trigger] after.vacant[i])
            < after.slots.len() && after.slots[after.vacant[i] as int] is None by {
            assert(s.vacant[i] == after.vacant[i]);
        }
    }
    assert(coherent(after));
    assert(holds(after.slots[at], k));
    lemma_value_at(after, at, k);
    if x != k {
        if held(s.slots, x) {
            let i = place_of(s.slots, x);
            assert(holds(s.slots[i], x));
            lemma_value_at(s, i, x);
            if i != at {
                assert(holds(base[i], x));
                assert(holds(after.slots[i], x));
                lemma_value_at(after, i, x);
            } else if held(after.slots, x) {
                let j = place_of(after.slots, x);
                assert(holds(after.slots[j], x));
                assert(holds(base[j], x));
                assert(holds(s.slots[j], x));
            } else if held(s.slots, k) {
                assert(holds(s.slots[at], k));
            }
        } else if held(after.slots, x) {
            let j = place_of(after.slots, x);
            assert(holds(after.slots[j], x));
            assert(holds(base[j], x));
            assert(holds(s.slots[j], x));
        }
    }
}

/// A key that was removed is not held, and every other key keeps its value.
pub proof fn law_remove<A, V>(s: StripeState<A, V>, k: A, x: A)
    requires
        coherent(s),
    ensures
        value_of(removed(s, k), k) is None,
        coherent(removed(s, k)),
        x != k ==> value_of(removed(s, k), x) == value_of(s, x),
{
    let after = removed(s, k);
    if held(s.slots, k) {
        let p = place_of(s.slots, k);
        assert(holds(s.slots[p], k));
        lemma_emptied(s.slots, s.vacant, p as usize);
        assert forall|i: int, y: A| 0 <= i < after.slots.len() implies (#[trigger] holds(
            after.slots[i],
            y,
        ) <==> i != p && holds(s.slots[i], y)) by {}
        if held(after.slots, k) {
            let j = place_of(after.slots, k);
            assert(holds(after.slots[j], k));
            assert(holds(s.slots[j], k));
        }
        if held(s.slots, x) && x != k {
            let i = place_of(s.slots, x);
            assert(holds(s.slots[i], x));
            assert(holds(after.slots[i], x));
            lemma_value_at(s, i, x);
            lemma_value_at(after, i, x);
        }
        if held(after.slots, x) {
            let i = place_of(after.slots, x);
            assert(holds(after.slots[i], x));
            assert(holds(s.slots[i], x));
        }
    }
}

/// A use of a key changes no value.
pub proof fn law_use_changes_no_value<A, V>(s: StripeState<A, V>, k: A, x: A)
    requires
        coherent(s),
    ensures
        coherent(touched(s, k)),
        value_of(touched(s, k), x) == value_of(s, x),
        taken(touched(s, k).slots) == taken(s.slots),
        touched(s, k).slots.len() == s.slots.len(),
{
    let after = touched(s, k);
    if held(s.slots, k) {
        let p = place_of(s.slots, k);
        assert(holds(s.slots[p], k));
        lemma_taken_update(s.slots, p, after.slots[p]);
        assert forall|i: int| 0 <= i < after.slots.len() && (
        #[trigger] after.slots[i]) is None implies after.vacant.contains(i as usize) by {
            assert(s.slots[i] is None);
        }
        assert forall|i: int, y: A| 0 <= i < after.slots.len() implies (#[trigger] holds(
            after.slots[i],
            y,
        ) <==> holds(s.slots[i], y)) by {}
        if held(s.slots, x) {
            let i = place_of(s.slots, x);
            assert(holds(s.slots[i], x));
            assert(holds(after.slots[i], x));
            lemma_value_at(s, i, x);
            lemma_value_at(after, i, x);
        }
        if held(after.slots, x) {
            let i = place_of(after.slots, x);
            assert(holds(after.slots[i], x));
            assert(holds(s.slots[i], x));
        }
    }
}

/// A stripe never holds more than its capacity, whatever was removed from it before.
pub proof fn law_capacity<A, V>(s: StripeState<A, V>, k: A, v: V)
    requires
        coherent(s),
    ensures
        taken(s.slots) <= s.capacity,
        taken(inserted(s, k, v).slots) <= s.capacity,
        taken(removed(s, k).slots) <= s.capacity,
        taken(touched(s, k).slots) <= s.capacity,
{
    lemma_taken_bound(s.slots);
    law_insert(s, k, v, k);
    lemma_taken_bound(inserted(s, k, v).slots);
    lemma_taken_bound(removed(s, k).slots);
    lemma_taken_bound(touched(s, k).slots);
}

/// The keys that are held before and not after.
pub open spec fn lost<A, V>(before: StripeState<A, V>, after: StripeState<A, V>) -> Set<A> {
    Set::new(|x: A| value_of(before, x) is Some && value_of(after, x) is None)
}

/// An insert evicts as many keys as it loses: none where the key is held or fewer keys are held
/// than the capacity, and else one.
pub proof fn law_evictions_are_the_lost<A, V>(s: StripeState<A, V>, k: A, v: V)
    requires
        coherent(s),
    ensures
        lost(s, inserted(s, k, v)).finite(),
        inserted(s, k, v).evictions == s.evictions + lost(s, inserted(s, k, v)).len(),
        lost(s, inserted(s, k, v)).len() == if held(s.slots, k) || taken(s.slots) < s.capacity {
            0nat
        } else {
            1
        },
{
    let after = inserted(s, k, v);
    let all = lost(s, after);
    law_insert(s, k, v, k);
    lemma_taken_bound(s.slots);
    if held(s.slots, k) || s.vacant.len() > 0 || s.slots.len() < s.capacity {
        if !held(s.slots, k) {
            if s.vacant.len() > 0 {
                assert(s.vacant[s.vacant.len() - 1] == s.vacant.last());
                lemma_vacant_bound(s.slots, s.vacant.last() as int);
            }
        }
        assert forall|x: A| !(#[trigger] all.contains(x)) by {
            law_insert(s, k, v, x);
        }
        assert(all =~= Set::empty());
    } else {
        lemma_full(s);
        let n = s.slots.len() as int;
        lemma_sweep(s.slots, s.hand as int, n);
        let (swept, at) = sweep(s.slots, s.hand as int, n);
        assert(s.slots[at] is Some);
        let gone = (s.slots[at]->0).key;
        assert(holds(s.slots[at], gone));
        lemma_value_at(s, at, gone);
        assert(gone != k);
        assert(value_of(after, gone) is None) by {
            if held(after.slots, gone) {
                let j = place_of(after.slots, gone);
                assert(holds(after.slots[j], gone));
                assert(j != at);
                assert(swept[j] == s.slots[j] || swept[j] == untouched(s.slots[j]));
                assert(holds(s.slots[j], gone));
            }
        }
        assert forall|x: A| #[trigger] all.contains(x) implies x == gone by {
            law_insert(s, k, v, x);
        }
        assert(all =~= Set::empty().insert(gone));
    }
}

proof fn lemma_vacant_bound<A, V>(slots: Seq<Option<Slot<A, V>>>, i: int)
    requires
        0 <= i < slots.len(),
        slots[i] is None,
    ensures
        taken(slots) < slots.len(),
    decreases slots.len(),
{
    lemma_taken_bound(slots.drop_last());
    if i < slots.len() - 1 {
        lemma_vacant_bound(slots.drop_last(), i);
    }
}

/// Where the hand is after some steps.
spec fn hand_after(hand: int, n: int, t: int) -> int {
    if t == 0 {
        hand
    } else {
        (hand + t) % n
    }
}

proof fn lemma_sweep_path<A, V>(
    slots: Seq<Option<Slot<A, V>>>,
    hand: int,
    n: int,
    t: int,
    now: Seq<Option<Slot<A, V>>>,
)
    requires
        0 <= hand < slots.len(),
        0 < n <= slots.len(),
        0 <= t,
        now.len() == slots.len(),
        forall|j: int| 0 <= j < t ==> is_touched(slots[#[trigger] hand_after(hand, n, j)]),
        forall|i: int|
            0 <= i < slots.len() ==> (#[trigger] now[i] == if exists|j: int|
                0 <= j < t && #[trigger] hand_after(hand, n, j) == i {
                untouched(slots[i])
            } else {
                slots[i]
            }),
    ensures
        ({
            let (_, stop) = sweep(now, hand_after(hand, n, t), n);
            is_touched(slots[stop]) ==> forall|i: int|
                0 <= i < n ==> is_touched(#[trigger] slots[i])
        }),
    decreases touched_count(now),
{
    let at = hand_after(hand, n, t);
    if t > 0 {
        vstd::arithmetic::div_mod::lemma_mod_bound(hand + t, n);
    }
    assert(0 <= at < slots.len());
    if is_touched(now[at]) {
        let next = now.update(at, untouched(now[at]));
        lemma_touched_update(now, at, untouched(now[at]));
        assert(hand_after(hand, n, t + 1) == (at + 1) % n) by {
            if t > 0 {
                vstd::arithmetic::div_mod::lemma_add_mod_noop(hand + t, 1, n);
                vstd::arithmetic::div_mod::lemma_add_mod_noop((hand + t) % n, 1, n);
                vstd::arithmetic::div_mod::lemma_mod_twice(hand + t, n);
            }
        }
        assert forall|i: int| 0 <= i < slots.len() implies (#[trigger] next[i] == if exists|j: int|
            0 <= j < t + 1 && #[trigger] hand_after(hand, n, j) == i {
            untouched(slots[i])
        } else {
            slots[i]
        }) by {
            if i == at {
                assert(hand_after(hand, n, t) == i);
                assert(now[at] == slots[at]);
            } else if exists|j: int| 0 <= j < t && #[trigger] hand_after(hand, n, j) == i {
                let j = choose|j: int| 0 <= j < t && #[trigger] hand_after(hand, n, j) == i;
                assert(0 <= j < t + 1 && hand_after(hand, n, j) == i);
            } else {
                assert(now[i] == slots[i]);
            }
        }
        lemma_sweep_path(slots, hand, n, t + 1, next);
    } else if is_touched(slots[at]) {
        assert(now[at] != slots[at]);
        let j = choose|j: int| 0 <= j < t && #[trigger] hand_after(hand, n, j) == at;
        assert(at < n);
        assert((hand + j) % n == (hand + t) % n) by {
            if j == 0 {
                vstd::arithmetic::div_mod::lemma_small_mod(hand as nat, n as nat);
            }
        }
        assert(t - j >= n) by {
            let (a, b) = (hand + t, hand + j);
            vstd::arithmetic::div_mod::lemma_fundamental_div_mod(a, n);
            vstd::arithmetic::div_mod::lemma_fundamental_div_mod(b, n);
            let (x, y) = (a / n, b / n);
            assert(a - b == n * x - n * y);
            assert(n * x - n * y == n * (x - y)) by (nonlinear_arith);
            let d = x - y;
            assert(n * d > 0 && n > 0 ==> n * d >= n) by (nonlinear_arith);
        }
        assert forall|i: int| 0 <= i < n implies is_touched(#[trigger] slots[i]) by {
            let r = (i - at) % n;
            vstd::arithmetic::div_mod::lemma_mod_bound(i - at, n);
            let l = j + r;
            assert((hand + l) % n == i) by {
                vstd::arithmetic::div_mod::lemma_add_mod_noop(hand + j, r, n);
                vstd::arithmetic::div_mod::lemma_mod_twice(i - at, n);
                vstd::arithmetic::div_mod::lemma_add_mod_noop(at, i - at, n);
                vstd::arithmetic::div_mod::lemma_small_mod(at as nat, n as nat);
                vstd::arithmetic::div_mod::lemma_small_mod(i as nat, n as nat);
            }
            if l == 0 {
                vstd::arithmetic::div_mod::lemma_small_mod(hand as nat, n as nat);
            }
            assert(hand_after(hand, n, l) == i);
        }
    }
}

/// The clock evicts an entry that was used since the hand last passed it only where all entries
/// were.
pub proof fn law_clock_spares_used<A, V>(s: StripeState<A, V>, i: int)
    requires
        coherent(s),
        taken(s.slots) == s.capacity,
        is_touched(s.slots[sweep(s.slots, s.hand as int, s.slots.len() as int).1]),
        0 <= i < s.slots.len(),
    ensures
        is_touched(s.slots[i]),
{
    lemma_taken_bound(s.slots);
    lemma_sweep_path(s.slots, s.hand as int, s.slots.len() as int, 0, s.slots);
}

/// The capacities of the stripes that are still to be made: none above `most`, each at least one,
/// and the earlier ones as large as possible.
pub open spec fn stripe_sizes(capacity: int, n: int, most: int) -> Seq<int>
    decreases n,
{
    if n <= 0 {
        Seq::empty()
    } else {
        let size = if capacity - (n - 1) < most {
            capacity - (n - 1)
        } else {
            most
        };
        seq![size] + stripe_sizes(capacity - size, n - 1, most)
    }
}

/// The sum of some numbers.
pub open spec fn sum(s: Seq<int>) -> int
    decreases s.len(),
{
    if s.len() == 0 {
        0
    } else {
        s[0] + sum(s.drop_first())
    }
}

/// The stripes have the capacity together that was asked for, and none is without any.
pub proof fn law_stripe_sizes(capacity: int, n: int, most: int)
    requires
        0 < n <= capacity <= n * most,
    ensures
        sum(stripe_sizes(capacity, n, most)) == capacity,
        stripe_sizes(capacity, n, most).len() == n,
        forall|i: int|
            0 <= i < n ==> 1 <= #[trigger] stripe_sizes(capacity, n, most)[i] <= most,
    decreases n,
{
    let size = if capacity - (n - 1) < most {
        capacity - (n - 1)
    } else {
        most
    };
    let s = stripe_sizes(capacity, n, most);
    let rest = stripe_sizes(capacity - size, n - 1, most);
    assert(s =~= seq![size] + rest);
    assert(s.drop_first() =~= rest);
    assert(most >= 1) by (nonlinear_arith)
        requires
            0 < n,
            0 < n * most,
    ;
    if n > 1 {
        assert((n - 1) * most == n * most - most) by (nonlinear_arith);
        assert((n - 1) * most >= n - 1) by (nonlinear_arith)
            requires
                most >= 1,
                n > 1,
        ;
        law_stripe_sizes(capacity - size, n - 1, most);
        assert forall|i: int| 0 <= i < n implies 1 <= #[trigger] s[i] <= most by {
            if i > 0 {
                assert(s[i] == rest[i - 1]);
            }
        }
    } else {
        assert(n * most == most) by (nonlinear_arith)
            requires
                n == 1,
        ;
        assert(rest =~= Seq::<int>::empty());
        assert(sum(rest) == 0);
    }
}

/// Places with a function applied to the values.
pub open spec fn mapped_slots<A, V, W>(
    slots: Seq<Option<Slot<A, V>>>,
    f: spec_fn(V) -> W,
) -> Seq<Option<Slot<A, W>>> {
    Seq::new(
        slots.len(),
        |i: int|
            match slots[i] {
                Some(s) => Some(Slot { key: s.key, value: f(s.value), touched: s.touched }),
                None => None,
            },
    )
}

/// A stripe with a function applied to the values.
pub open spec fn mapped<A, V, W>(s: StripeState<A, V>, f: spec_fn(V) -> W) -> StripeState<A, W> {
    StripeState {
        capacity: s.capacity,
        slots: mapped_slots(s.slots, f),
        vacant: s.vacant,
        hand: s.hand,
        evictions: s.evictions,
    }
}

proof fn lemma_mapped_sweep<A, V, W>(
    slots: Seq<Option<Slot<A, V>>>,
    at: int,
    n: int,
    f: spec_fn(V) -> W,
)
    ensures
        sweep(mapped_slots(slots, f), at, n) == (
            mapped_slots(sweep(slots, at, n).0, f),
            sweep(slots, at, n).1,
        ),
    decreases touched_count(slots),
{
    if 0 <= at < slots.len() && is_touched(slots[at]) {
        let next = slots.update(at, untouched(slots[at]));
        lemma_touched_update(slots, at, untouched(slots[at]));
        lemma_mapped_sweep(next, (at + 1) % n, n, f);
        let image = mapped_slots(slots, f);
        assert(image.update(at, untouched(image[at])) =~= mapped_slots(next, f));
    }
}

/// What a stripe holds, where, and what it evicts does not depend on the values.
pub proof fn law_values_have_no_say<A, V, W>(
    s: StripeState<A, V>,
    f: spec_fn(V) -> W,
    k: A,
    v: V,
)
    requires
        coherent(s),
    ensures
        coherent(mapped(s, f)),
        taken(mapped(s, f).slots) == taken(s.slots),
        value_of(mapped(s, f), k) == match value_of(s, k) {
            Some(x) => Some(f(x)),
            None => None,
        },
        inserted(mapped(s, f), k, f(v)) == mapped(inserted(s, k, v), f),
        touched(mapped(s, f), k) == mapped(touched(s, k), f),
{
    let image = mapped(s, f);
    assert forall|i: int, x: A| 0 <= i < s.slots.len() implies (#[trigger] holds(
        image.slots[i],
        x,
    ) <==> holds(s.slots[i], x)) by {}
    assert forall|i: int, j: int, x: A|
        0 <= i < image.slots.len() && 0 <= j < image.slots.len() && #[trigger] holds(
            image.slots[i],
            x,
        ) && #[trigger] holds(image.slots[j], x) implies i == j by {
        assert(holds(s.slots[i], x) && holds(s.slots[j], x));
    }
    assert forall|i: int| 0 <= i < image.slots.len() && (
    #[trigger] image.slots[i]) is None implies image.vacant.contains(i as usize) by {
        assert(s.slots[i] is None);
    }
    assert forall|i: int| 0 <= i < image.vacant.len() implies (#[trigger] image.vacant[i])
        < image.slots.len() && image.slots[image.vacant[i] as int] is None by {
        assert(s.slots[s.vacant[i] as int] is None);
    }
    assert(coherent(image));
    lemma_mapped_taken(s.slots, f);
    if held(s.slots, k) {
        let i = place_of(s.slots, k);
        assert(holds(s.slots[i], k));
        assert(holds(image.slots[i], k));
        lemma_value_at(s, i, k);
        lemma_value_at(image, i, k);
        assert(touched(image, k).slots =~= mapped(touched(s, k), f).slots);
    } else if held(image.slots, k) {
        let i = place_of(image.slots, k);
        assert(holds(image.slots[i], k));
        assert(holds(s.slots[i], k));
    }
    if !held(s.slots, k) && s.vacant.len() > 0 {
        assert(s.vacant[s.vacant.len() - 1] == s.vacant.last());
    } else if !held(s.slots, k) && s.slots.len() >= s.capacity {
        lemma_full(s);
        lemma_sweep(s.slots, s.hand as int, s.slots.len() as int);
        lemma_mapped_sweep(s.slots, s.hand as int, s.slots.len() as int, f);
    }
    assert(inserted(image, k, f(v)).slots =~= mapped(inserted(s, k, v), f).slots);
}

proof fn lemma_mapped_taken<A, V, W>(slots: Seq<Option<Slot<A, V>>>, f: spec_fn(V) -> W)
    ensures
        taken(mapped_slots(slots, f)) == taken(slots),
    decreases slots.len(),
{
    if slots.len() > 0 {
        lemma_mapped_taken(slots.drop_last(), f);
        assert(mapped_slots(slots, f).drop_last() =~= mapped_slots(slots.drop_last(), f));
    }
}

/// How many entries stripes hold.
pub open spec fn total_taken<A, V>(s: Seq<StripeState<A, V>>) -> nat
    decreases s.len(),
{
    if s.len() == 0 {
        0
    } else {
        total_taken(s.drop_last()) + taken(s.last().slots)
    }
}

/// The capacities of stripes.
pub open spec fn capacities<A, V>(s: Seq<StripeState<A, V>>) -> Seq<int> {
    Seq::new(s.len(), |i: int| s[i].capacity as int)
}

/// Stripes never hold more than their capacities together.
pub proof fn law_total_capacity<A, V>(s: Seq<StripeState<A, V>>)
    requires
        forall|i: int| 0 <= i < s.len() ==> coherent(#[trigger] s[i]),
    ensures
        total_taken(s) <= sum(capacities(s)),
    decreases s.len(),
{
    if s.len() > 0 {
        let rest = s.drop_last();
        assert forall|i: int| 0 <= i < rest.len() implies coherent(#[trigger] rest[i]) by {
            assert(coherent(s[i]));
        }
        law_total_capacity(rest);
        assert(coherent(s[s.len() - 1]));
        lemma_taken_bound(s.last().slots);
        assert(capacities(s) =~= capacities(rest).push(s.last().capacity as int));
        lemma_sum_push(capacities(rest), s.last().capacity as int);
    }
}

proof fn lemma_sum_push(s: Seq<int>, x: int)
    ensures
        sum(s.push(x)) == sum(s) + x,
    decreases s.len(),
{
    if s.len() == 0 {
        assert(s.push(x).drop_first() =~= Seq::empty());
        assert(sum(s.push(x).drop_first()) == 0);
    } else {
        assert(s.push(x).drop_first() =~= s.drop_first().push(x));
        lemma_sum_push(s.drop_first(), x);
    }
}

/// Where a capacity is so much for each stripe, each gets that much.
pub proof fn law_even_stripe_sizes(size: int, n: int)
    requires
        size > 0,
        n > 0,
    ensures
        stripe_sizes(size * n, n, size) == Seq::new(n as nat, |i: int| size),
        (size * n + n - 1) / n == size,
        n <= size * n,
    decreases n,
{
    assert(n <= size * n && size * n - (n - 1) >= size) by (nonlinear_arith)
        requires
            size > 0,
            n > 0,
    ;
    vstd::arithmetic::div_mod::lemma_fundamental_div_mod_converse(
        size * n + n - 1,
        n,
        size,
        n - 1,
    );
    assert(size * n - size == size * (n - 1)) by (nonlinear_arith);
    let rest = stripe_sizes(size * (n - 1), n - 1, size);
    if n > 1 {
        law_even_stripe_sizes(size, n - 1);
    }
    assert(stripe_sizes(size * n, n, size) =~= seq![size] + rest);
    assert(seq![size] + rest =~= Seq::new(n as nat, |i: int| size));
}

/// A striped clock.
///
/// Entries are in stripes by the hash of their key. An operation concerns one stripe only. Eviction
/// is per stripe too, so with many stripes for few keys the clocks approximate the use of the whole
/// cache less well.
pub struct Cache<K, V> {
    seed: Vec<u8>,
    stripes: Vec<CacheStripe<K, V>>,
}

/// The number of the stripe that a key is in.
pub open spec fn stripe_of<K: CacheKey>(seed: Seq<u8>, k: K::V, n: int) -> int {
    hash_of::<K>(seed, k) as int % n
}

impl<K: CacheKey, V> View for Cache<K, V> {
    type V = Seq<StripeState<K::V, V>>;

    closed spec fn view(&self) -> Seq<StripeState<K::V, V>> {
        Seq::new(self.stripes@.len(), |i: int| self.stripes@[i]@)
    }
}

/// Whether stripes are empty and share a capacity: as many as were asked for, but no more than the
/// capacity.
pub open spec fn empty_stripes<A, V>(
    s: Seq<StripeState<A, V>>,
    capacity: int,
    n_stripes: int,
) -> bool {
    let n = if n_stripes < capacity {
        n_stripes
    } else {
        capacity
    };
    &&& s.len() == n
    &&& capacities(s) == stripe_sizes(capacity, n, (capacity + n - 1) / n)
    &&& forall|i: int|
        0 <= i < n ==> (#[trigger] s[i]).slots.len() == 0 && s[i].vacant.len() == 0 && s[i].hand
            == 0 && s[i].evictions == 0
}

/// How many entries were evicted from stripes.
pub open spec fn total_evictions<A, V>(s: Seq<StripeState<A, V>>) -> nat
    decreases s.len(),
{
    if s.len() == 0 {
        0
    } else {
        total_evictions(s.drop_last()) + s.last().evictions
    }
}

impl<K: CacheKey, V> Cache<K, V> {
    pub closed spec fn wf(&self) -> bool {
        &&& self.stripes@.len() > 0
        &&& forall|i: int| 0 <= i < self.stripes@.len() ==> (#[trigger] self.stripes@[i]).wf()
    }

    /// What keys are hashed with to find their stripe.
    pub closed spec fn seed(&self) -> Seq<u8> {
        self.seed@
    }

    /// The stripe that a key is in.
    pub open spec fn stripe(&self, k: K::V) -> int {
        stripe_of::<K>(self.seed(), k, self@.len() as int)
    }

    /// An empty cache with a capacity that is spread over stripes, of which none is without
    /// capacity.
    pub fn new(capacity: usize, n_stripes: usize) -> (r: Self)
        requires
            capacity > 0,
            n_stripes > 0,
        ensures
            r.wf(),
            empty_stripes(r@, capacity as int, n_stripes as int),
    {
        Cache::with_seed(random_seed(), capacity, n_stripes)
    }

    /// An empty cache that finds stripes with a given seed.
    pub fn with_seed(seed: Vec<u8>, capacity: usize, n_stripes: usize) -> (r: Self)
        requires
            capacity > 0,
            n_stripes > 0,
        ensures
            r.wf(),
            r.seed() == seed@,
            empty_stripes(r@, capacity as int, n_stripes as int),
    {
        let n: usize = if n_stripes < capacity {
            n_stripes
        } else {
            capacity
        };
        let most: usize = (capacity - 1) / n + 1;
        let ghost sizes = stripe_sizes(capacity as int, n as int, most as int);
        proof {
            assert((capacity + n - 1) / n as int == (capacity - 1) / n as int + 1)
                by (nonlinear_arith)
                requires
                    n > 0,
            ;
            assert(capacity <= n * most) by (nonlinear_arith)
                requires
                    n > 0,
                    most == (capacity - 1) / n as int + 1,
            ;
            law_stripe_sizes(capacity as int, n as int, most as int);
        }
        let mut stripes: Vec<CacheStripe<K, V>> = Vec::new();
        let mut remaining: usize = capacity;
        let mut i: usize = 0;
        assert(sizes.skip(0) =~= sizes);
        while i < n
            invariant
                i <= n,
                n > 0,
                most > 0,
                sizes.len() == n,
                forall|j: int| 0 <= j < n ==> 1 <= #[trigger] sizes[j] <= most,
                n - i <= remaining,
                sizes.skip(i as int) == stripe_sizes(remaining as int, n - i, most as int),
                stripes@.len() == i,
                forall|j: int|
                    0 <= j < i ==> (#[trigger] stripes@[j]).wf() && stripes@[j]@.capacity
                        == sizes[j] && stripes@[j]@.slots.len() == 0 && stripes@[j]@.vacant.len()
                        == 0 && stripes@[j]@.hand == 0 && stripes@[j]@.evictions == 0,
            decreases n - i,
        {
            let later: usize = n - i - 1;
            let size: usize = if remaining - later < most {
                remaining - later
            } else {
                most
            };
            proof {
                let rest = stripe_sizes(remaining - size, n - i - 1, most as int);
                assert(sizes.skip(i as int) == seq![size as int] + rest);
                assert(sizes[i as int] == sizes.skip(i as int)[0]);
                assert(sizes.skip(i + 1) =~= sizes.skip(i as int).drop_first());
                assert((seq![size as int] + rest).drop_first() =~= rest);
            }
            stripes.push(CacheStripe::new(size));
            remaining = remaining - size;
            i += 1;
        }
        let r = Cache { seed, stripes };
        assert(capacities(r@) =~= sizes);
        r
    }

    /// The number of the stripe that a key is in.
    pub fn stripe_for(&self, k: &K) -> (r: usize)
        requires
            self.wf(),
        ensures
            r == self.stripe(k@),
            r < self@.len(),
    {
        (hash_key(&self.seed, k) % (self.stripes.len() as u64)) as usize
    }

    /// Caches a value in the stripe of its key.
    pub fn insert(&mut self, k: K, v: V)
        requires
            old(self).wf(),
            old(self)@[old(self).stripe(k@)].evictions < usize::MAX,
        ensures
            final(self).wf(),
            final(self).seed() == old(self).seed(),
            final(self)@ == old(self)@.update(
                old(self).stripe(k@),
                inserted(old(self)@[old(self).stripe(k@)], k@, v),
            ),
    {
        let i: usize = self.stripe_for(&k);
        self.stripes[i].insert(k, v);
        assert(self@ =~= old(self)@.update(i as int, self@[i as int]));
    }

    /// The cached value of a key, which counts as a use.
    pub fn get(&mut self, k: &K) -> (r: Option<V>) where V: Clone
        requires
            old(self).wf(),
        ensures
            final(self).wf(),
            final(self).seed() == old(self).seed(),
            final(self)@ == old(self)@.update(
                old(self).stripe(k@),
                touched(old(self)@[old(self).stripe(k@)], k@),
            ),
            match r {
                Some(v) => value_of(old(self)@[old(self).stripe(k@)], k@) matches Some(held)
                    && cloned(held, v),
                None => value_of(old(self)@[old(self).stripe(k@)], k@) is None,
            },
    {
        let i: usize = self.stripe_for(k);
        let r = self.stripes[i].get(k);
        assert(self@ =~= old(self)@.update(i as int, self@[i as int]));
        r
    }

    /// Forgets a key.
    pub fn remove(&mut self, k: &K)
        requires
            old(self).wf(),
        ensures
            final(self).wf(),
            final(self).seed() == old(self).seed(),
            final(self)@ == old(self)@.update(
                old(self).stripe(k@),
                removed(old(self)@[old(self).stripe(k@)], k@),
            ),
    {
        let i: usize = self.stripe_for(k);
        self.stripes[i].remove(k);
        assert(self@ =~= old(self)@.update(i as int, self@[i as int]));
    }

    /// How many entries were evicted.
    pub fn evictions(&self) -> (r: usize)
        requires
            total_evictions(self@) <= usize::MAX,
        ensures
            r == total_evictions(self@),
    {
        let mut n: usize = 0;
        let mut i: usize = 0;
        assert(self@.take(0) =~= Seq::empty());
        while i < self.stripes.len()
            invariant
                i <= self.stripes@.len(),
                self@.len() == self.stripes@.len(),
                n == total_evictions(self@.take(i as int)),
                total_evictions(self@) <= usize::MAX,
            decreases self.stripes@.len() - i,
        {
            proof {
                assert(self@.take(i + 1).drop_last() =~= self@.take(i as int));
                assert(self@.take(i + 1).last() == self.stripes@[i as int]@);
                lemma_evictions_monotone(self@, i + 1);
            }
            n += self.stripes[i].evictions;
            i += 1;
        }
        assert(self@.take(i as int) =~= self@);
        n
    }
}

proof fn lemma_evictions_monotone<A, V>(s: Seq<StripeState<A, V>>, n: int)
    requires
        0 <= n <= s.len(),
    ensures
        total_evictions(s.take(n)) <= total_evictions(s),
    decreases s.len(),
{
    if n < s.len() {
        lemma_evictions_monotone(s.drop_last(), n);
        assert(s.drop_last().take(n) =~= s.take(n));
    } else {
        assert(s.take(n) =~= s);
    }
}

/// What was cached last under a key is what the cache gives back for it, until the key is removed
/// or evicted.
pub proof fn law_cache_reads_back<K: CacheKey, V>(c: Cache<K, V>, k: K::V, v: V)
    requires
        c.wf(),
    ensures
        value_of(inserted(c@[c.stripe(k)], k, v), k) == Some(v),
{
    let n = c@.len() as int;
    vstd::arithmetic::div_mod::lemma_mod_bound(hash_of::<K>(c.seed(), k) as int, n);
    let i = c.stripe(k);
    law_stripe_coherent(c.stripes@[i]);
    law_insert(c@[i], k, v, k);
}

/// Every stripe of a cache is coherent, and every key has a stripe.
pub proof fn law_cache_coherent<K: CacheKey, V>(c: Cache<K, V>, i: int, k: K::V)
    requires
        c.wf(),
    ensures
        0 <= i < c@.len() ==> coherent(c@[i]),
        0 <= c.stripe(k) < c@.len(),
{
    vstd::arithmetic::div_mod::lemma_mod_bound(
        hash_of::<K>(c.seed(), k) as int,
        c@.len() as int,
    );
    if 0 <= i < c@.len() {
        law_stripe_coherent(c.stripes@[i]);
    }
}

/// Where one stripe changes, the number of evicted entries changes as it does in that stripe.
pub proof fn lemma_evictions_update<A, V>(
    s: Seq<StripeState<A, V>>,
    i: int,
    stripe: StripeState<A, V>,
)
    requires
        0 <= i < s.len(),
    ensures
        total_evictions(s.update(i, stripe)) + s[i].evictions == total_evictions(s)
            + stripe.evictions,
        s[i].evictions <= total_evictions(s),
    decreases s.len(),
{
    if i < s.len() - 1 {
        lemma_evictions_update(s.drop_last(), i, stripe);
        assert(s.update(i, stripe).drop_last() =~= s.drop_last().update(i, stripe));
    } else {
        assert(s.update(i, stripe).drop_last() =~= s.drop_last());
    }
}

} // verus!
