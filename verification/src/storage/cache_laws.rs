//! What uses, inserts and the clock do to the places of a stripe.

use vstd::prelude::*;

use super::cache::{
    coherent, held, holds, inserted, is_touched, lemma_touched_update, place_of, removed, sweep,
    touched, touched_count, untouched, Slot, StripeState,
};

verus! {

/// A use of a key is noted in its place, and changes nothing else. A key that is not held is not
/// noted.
pub proof fn law_use_is_noted<A, V>(s: StripeState<A, V>, k: A, i: int)
    requires
        coherent(s),
    ensures
        touched(s, k).capacity == s.capacity,
        touched(s, k).vacant == s.vacant,
        touched(s, k).hand == s.hand,
        touched(s, k).evictions == s.evictions,
        touched(s, k).slots.len() == s.slots.len(),
        0 <= i < s.slots.len() ==> touched(s, k).slots[i] == match s.slots[i] {
            None => None,
            Some(e) => Some(
                Slot { key: e.key, value: e.value, touched: e.touched || e.key == k },
            ),
        },
{
    if held(s.slots, k) {
        let at = place_of(s.slots, k);
        assert(holds(s.slots[at], k));
        if 0 <= i < s.slots.len() && i != at {
            assert(!holds(s.slots[i], k));
        }
    } else if 0 <= i < s.slots.len() {
        assert(!holds(s.slots[i], k));
    }
}

/// A key that is removed leaves its place vacant, and the others where they are.
pub proof fn law_remove_leaves_places<A, V>(s: StripeState<A, V>, k: A, i: int)
    requires
        coherent(s),
    ensures
        removed(s, k).capacity == s.capacity,
        removed(s, k).hand == s.hand,
        removed(s, k).evictions == s.evictions,
        removed(s, k).slots.len() == s.slots.len(),
        0 <= i < s.slots.len() ==> removed(s, k).slots[i] == match s.slots[i] {
            None => None,
            Some(e) => if e.key == k {
                None
            } else {
                Some(e)
            },
        },
{
    if held(s.slots, k) {
        let at = place_of(s.slots, k);
        assert(holds(s.slots[at], k));
        if 0 <= i < s.slots.len() && i != at {
            assert(!holds(s.slots[i], k));
        }
    } else if 0 <= i < s.slots.len() {
        assert(!holds(s.slots[i], k));
    }
}

/// A key that is held stays in its place when its value is replaced, and counts as used. The other
/// places stay as they are.
pub proof fn law_replace_in_place<A, V>(s: StripeState<A, V>, k: A, v: V, i: int)
    requires
        coherent(s),
        0 <= i < s.slots.len(),
        holds(s.slots[i], k),
    ensures
        inserted(s, k, v) == (StripeState {
            slots: s.slots.update(i, Some(Slot { key: k, value: v, touched: true })),
            ..s
        }),
{
    let at = place_of(s.slots, k);
    assert(held(s.slots, k));
    assert(holds(s.slots[at], k));
}

/// A new key fills the place that was vacated last, and counts as used. The other places and the
/// hand stay as they are.
pub proof fn law_vacated_place_is_filled<A, V>(
    s: StripeState<A, V>,
    gone: A,
    k: A,
    v: V,
    i: int,
)
    requires
        coherent(s),
        0 <= i < s.slots.len(),
        holds(s.slots[i], gone),
        !held(removed(s, gone).slots, k),
    ensures
        inserted(removed(s, gone), k, v) == (StripeState {
            slots: s.slots.update(i, Some(Slot { key: k, value: v, touched: true })),
            ..s
        }),
{
    let at = place_of(s.slots, gone);
    assert(held(s.slots, gone));
    assert(holds(s.slots[at], gone));
    assert(at == i);
    let after = inserted(removed(s, gone), k, v);
    assert(removed(s, gone).vacant.last() == i as usize);
    assert(after.vacant =~= s.vacant);
    assert(after.slots =~= s.slots.update(i, Some(Slot { key: k, value: v, touched: true })));
}

/// As long as there is room and no place is vacant, a new key gets a place behind the others, and
/// counts as used.
pub proof fn law_new_place<A, V>(s: StripeState<A, V>, k: A, v: V)
    requires
        coherent(s),
        !held(s.slots, k),
        forall|i: int| 0 <= i < s.slots.len() ==> (#[trigger] s.slots[i]) is Some,
        s.slots.len() < s.capacity,
    ensures
        inserted(s, k, v) == (StripeState {
            slots: s.slots.push(Some(Slot { key: k, value: v, touched: true })),
            ..s
        }),
{
    if s.vacant.len() > 0 {
        assert(s.slots[s.vacant[0] as int] is None);
    }
}

/// The place that the hand is at after some steps.
pub open spec fn step(hand: int, t: int, n: int) -> int {
    (hand + t) % n
}

/// Whether the hand passes a place in its first steps.
pub open spec fn passes(hand: int, t: int, n: int, i: int) -> bool {
    exists|j: int| 0 <= j < t && #[trigger] step(hand, j, n) == i
}

proof fn lemma_next_step(hand: int, j: int, n: int)
    requires
        n > 0,
    ensures
        step(step(hand, 1, n), j, n) == step(hand, j + 1, n),
        0 <= step(hand, j, n) < n,
        0 <= hand < n ==> step(hand, 0, n) == hand && step(hand, n, n) == hand,
{
    vstd::arithmetic::div_mod::lemma_add_mod_noop(hand + 1, j, n);
    vstd::arithmetic::div_mod::lemma_add_mod_noop((hand + 1) % n, j, n);
    vstd::arithmetic::div_mod::lemma_mod_twice(hand + 1, n);
    vstd::arithmetic::div_mod::lemma_mod_bound(hand + j, n);
    if 0 <= hand < n {
        vstd::arithmetic::div_mod::lemma_small_mod(hand as nat, n as nat);
        vstd::arithmetic::div_mod::lemma_mod_add_multiples_vanish(hand, n);
    }
}

proof fn lemma_sweep_steps<A, V>(slots: Seq<Option<Slot<A, V>>>, hand: int) -> (t: int)
    requires
        0 <= hand < slots.len(),
    ensures
        0 <= t <= slots.len(),
        sweep(slots, hand, slots.len() as int).1 == step(hand, t, slots.len() as int),
        sweep(slots, hand, slots.len() as int).0.len() == slots.len(),
        forall|j: int|
            0 <= j < t ==> is_touched(slots[#[trigger] step(hand, j, slots.len() as int)]),
        t < slots.len() ==> !is_touched(slots[step(hand, t, slots.len() as int)]),
        forall|i: int|
            0 <= i < slots.len() ==> (#[trigger] sweep(slots, hand, slots.len() as int).0[i])
                == if passes(hand, t, slots.len() as int, i) {
                untouched(slots[i])
            } else {
                slots[i]
            },
    decreases touched_count(slots),
{
    let n = slots.len() as int;
    lemma_next_step(hand, 0, n);
    if is_touched(slots[hand]) {
        let next = slots.update(hand, untouched(slots[hand]));
        let at = (hand + 1) % n;
        lemma_touched_update(slots, hand, untouched(slots[hand]));
        vstd::arithmetic::div_mod::lemma_mod_bound(hand + 1, n);
        let u = lemma_sweep_steps(next, at);
        let t = u + 1;
        let swept = sweep(slots, hand, n).0;
        assert(sweep(slots, hand, n) == sweep(next, at, n));
        assert(at == step(hand, 1, n));
        lemma_next_step(hand, n - 1, n);
        lemma_next_step(hand, u, n);
        assert(!is_touched(next[hand]));
        if u == n {
            assert(is_touched(next[step(at, n - 1, n)]));
        }
        assert forall|j: int| 0 <= j < t implies is_touched(
            slots[#[trigger] step(hand, j, n)],
        ) by {
            if j > 0 {
                lemma_next_step(hand, j - 1, n);
                assert(is_touched(next[step(at, j - 1, n)]));
            }
        }
        if t < n {
            assert(!is_touched(next[step(at, u, n)]));
            if step(hand, t, n) == hand {
                lemma_round(hand, t, n);
            }
        }
        assert forall|i: int| 0 <= i < n implies (#[trigger] swept[i]) == if passes(
            hand,
            t,
            n,
            i,
        ) {
            untouched(slots[i])
        } else {
            slots[i]
        } by {
            if passes(at, u, n, i) {
                let j = choose|j: int| 0 <= j < u && #[trigger] step(at, j, n) == i;
                lemma_next_step(hand, j, n);
                assert(step(hand, j + 1, n) == i);
            }
            if i == hand {
                assert(step(hand, 0, n) == i);
            } else if passes(hand, t, n, i) {
                let j = choose|j: int| 0 <= j < t && #[trigger] step(hand, j, n) == i;
                assert(j > 0);
                lemma_next_step(hand, j - 1, n);
                assert(step(at, j - 1, n) == i);
            }
        }
        t
    } else {
        0
    }
}

/// The hand is back only after a whole round.
proof fn lemma_round(hand: int, t: int, n: int)
    requires
        0 <= hand < n,
        0 < t < n,
    ensures
        step(hand, t, n) != hand,
{
    if hand + t < n {
        vstd::arithmetic::div_mod::lemma_small_mod((hand + t) as nat, n as nat);
    } else {
        vstd::arithmetic::div_mod::lemma_mod_add_multiples_vanish(hand + t - n, n);
        vstd::arithmetic::div_mod::lemma_small_mod((hand + t - n) as nat, n as nat);
    }
}

/// Where there is no room for a new key, the hand goes from place to place. It passes the entries
/// that were used, which no longer count as such, and stops at the first that was not, at the latest
/// after a round. The new key takes that place and counts as used, and the hand goes on behind it.
/// Returns how many places it passed.
pub proof fn law_clock<A, V>(s: StripeState<A, V>, k: A, v: V) -> (t: int)
    requires
        coherent(s),
        !held(s.slots, k),
        forall|i: int| 0 <= i < s.slots.len() ==> (#[trigger] s.slots[i]) is Some,
        s.slots.len() == s.capacity,
    ensures
        ({
            let n = s.slots.len() as int;
            let after = inserted(s, k, v);
            &&& 0 <= t <= n
            &&& forall|j: int|
                0 <= j < t ==> (s.slots[#[trigger] step(s.hand as int, j, n)]->0).touched
            &&& t < n ==> !(s.slots[step(s.hand as int, t, n)]->0).touched
            &&& after.slots.len() == n
            &&& after.slots[step(s.hand as int, t, n)] == Some(
                Slot { key: k, value: v, touched: true },
            )
            &&& forall|i: int|
                0 <= i < n && i != step(s.hand as int, t, n) ==> #[trigger] after.slots[i] == Some(
                    Slot {
                        key: (s.slots[i]->0).key,
                        value: (s.slots[i]->0).value,
                        touched: (s.slots[i]->0).touched && !passes(s.hand as int, t, n, i),
                    },
                )
            &&& after.hand == step(s.hand as int, t + 1, n)
            &&& after.evictions == s.evictions + 1
            &&& after.vacant == s.vacant
            &&& after.capacity == s.capacity
        }),
{
    let n = s.slots.len() as int;
    let hand = s.hand as int;
    if s.vacant.len() > 0 {
        assert(s.slots[s.vacant[0] as int] is None);
    }
    let t = lemma_sweep_steps(s.slots, hand);
    let after = inserted(s, k, v);
    let stop = step(hand, t, n);
    lemma_next_step(hand, t, n);
    lemma_next_step(hand, t + 1, n);
    assert(after.hand == step(hand, t + 1, n)) by {
        vstd::arithmetic::div_mod::lemma_add_mod_noop(hand + t, 1, n);
        vstd::arithmetic::div_mod::lemma_add_mod_noop((hand + t) % n, 1, n);
        vstd::arithmetic::div_mod::lemma_mod_twice(hand + t, n);
    }
    assert forall|i: int| 0 <= i < n && i != stop implies #[trigger] after.slots[i] == Some(
        Slot {
            key: (s.slots[i]->0).key,
            value: (s.slots[i]->0).value,
            touched: (s.slots[i]->0).touched && !passes(hand, t, n, i),
        },
    ) by {
        assert(s.slots[i] is Some);
        assert(after.slots[i] == sweep(s.slots, hand, n).0[i]);
    }
    assert forall|j: int| 0 <= j < t implies (s.slots[#[trigger] step(hand, j, n)]->0).touched by {
        lemma_next_step(hand, j, n);
        assert(is_touched(s.slots[step(hand, j, n)]));
    }
    assert(s.slots[stop] is Some);
    t
}

} // verus!
