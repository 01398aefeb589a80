//! Finding cycles in graphs.

use std::collections::{HashMap, HashSet};

use vstd::prelude::*;

use super::graph::{edge_at, has_edge, keys_of, labels, put_edge, Edges};

verus! {

/// Whether each vertex has an edge to the next.
pub open spec fn is_path<E>(m: Map<u64, HashMap<u64, E>>, p: Seq<u64>) -> bool {
    &&& p.len() > 0
    &&& forall|i: int| 0 <= i < p.len() - 1 ==> has_edge(m, #[trigger] p[i], p[i + 1])
}

/// Whether a path leads from one vertex to another.
pub open spec fn joins<E>(m: Map<u64, HashMap<u64, E>>, p: Seq<u64>, a: u64, b: u64) -> bool {
    is_path(m, p) && p[0] == a && p.last() == b
}

/// Whether a vertex can be reached from another.
pub open spec fn reaches<E>(m: Map<u64, HashMap<u64, E>>, a: u64, b: u64) -> bool {
    exists|p: Seq<u64>| #[trigger] joins(m, p, a, b)
}

/// Whether two vertices can be reached from each other.
pub open spec fn mutual<E>(m: Map<u64, HashMap<u64, E>>, a: u64, b: u64) -> bool {
    reaches(m, a, b) && reaches(m, b, a)
}

/// Whether vertices lie on a cycle: no vertex occurs twice, there are at least two, each has an edge
/// to the next, and the last one to the first.
pub open spec fn is_cycle<E>(m: Map<u64, HashMap<u64, E>>, c: Seq<u64>) -> bool {
    &&& c.len() >= 2
    &&& c.no_duplicates()
    &&& is_path(m, c)
    &&& has_edge(m, c.last(), c[0])
}

pub proof fn lemma_reach_self<E>(m: Map<u64, HashMap<u64, E>>, a: u64)
    ensures
        reaches(m, a, a),
{
    assert(joins(m, seq![a], a, a));
}

pub proof fn lemma_reach_step<E>(m: Map<u64, HashMap<u64, E>>, a: u64, b: u64, c: u64)
    requires
        reaches(m, a, b),
        has_edge(m, b, c),
    ensures
        reaches(m, a, c),
{
    let p = choose|p: Seq<u64>| #[trigger] joins(m, p, a, b);
    let q = p.push(c);
    assert forall|i: int| 0 <= i < q.len() - 1 implies has_edge(m, #[trigger] q[i], q[i + 1]) by {
        if i < p.len() - 1 {
            assert(has_edge(m, p[i], p[i + 1]));
        }
    }
    assert(joins(m, q, a, c));
}

pub proof fn lemma_reach_join<E>(m: Map<u64, HashMap<u64, E>>, a: u64, b: u64, c: u64)
    requires
        reaches(m, a, b),
        reaches(m, b, c),
    ensures
        reaches(m, a, c),
{
    let p = choose|p: Seq<u64>| #[trigger] joins(m, p, a, b);
    let q = choose|q: Seq<u64>| #[trigger] joins(m, q, b, c);
    let r = p + q.skip(1);
    assert forall|i: int| 0 <= i < r.len() - 1 implies has_edge(m, #[trigger] r[i], r[i + 1]) by {
        if i < p.len() - 1 {
            assert(has_edge(m, p[i], p[i + 1]));
        } else {
            let j = i - (p.len() - 1);
            assert(r[i] == q[j]);
            assert(r[i + 1] == q[j + 1]);
            assert(has_edge(m, q[j], q[j + 1]));
        }
    }
    assert(r.last() == c) by {
        if q.len() == 1 {
            assert(r =~= p);
        }
    }
    assert(joins(m, r, a, c));
}

/// All vertices, in no particular order.
fn vertices_of<E>(edges: &Edges<E>) -> (r: Vec<u64>)
    ensures
        r@.no_duplicates(),
        forall|v: u64| #[trigger] edges@.contains_key(v) ==> r@.contains(v),
        forall|a: u64, b: u64| #[trigger] has_edge(edges@, a, b) ==> r@.contains(b),
{
    let keys = keys_of(edges);
    let mut seen: HashSet<u64> = HashSet::new();
    let mut r: Vec<u64> = Vec::new();
    let mut i: usize = 0;
    while i < keys.len()
        invariant
            i <= keys@.len(),
            forall|k: u64| #[trigger] keys@.contains(k) <==> edges@.contains_key(k),
            r@.no_duplicates(),
            seen@ == r@.to_set(),
            forall|j: int| 0 <= j < i ==> r@.contains(#[trigger] keys@[j]),
            forall|j: int, b: u64|
                0 <= j < i && has_edge(edges@, #[trigger] keys@[j], b) ==> #[trigger] r@.contains(
                    b,
                ),
        decreases keys@.len() - i,
    {
        let k: u64 = keys[i];
        assert(keys@.contains(k));
        push_new(&mut r, &mut seen, k);
        if let Some(out) = edges.get(&k) {
            let dsts = keys_of(out);
            let ghost start = r@;
            let mut j: usize = 0;
            while j < dsts.len()
                invariant
                    j <= dsts@.len(),
                    r@.no_duplicates(),
                    seen@ == r@.to_set(),
                    forall|x: u64| start.contains(x) ==> #[trigger] r@.contains(x),
                    forall|n: int| 0 <= n < j ==> r@.contains(#[trigger] dsts@[n]),
                decreases dsts@.len() - j,
            {
                push_new(&mut r, &mut seen, dsts[j]);
                j += 1;
            }
            proof {
                assert forall|b: u64| has_edge(edges@, k, b) implies #[trigger] r@.contains(b) by {
                    assert(dsts@.contains(b));
                    let n = choose|n: int| 0 <= n < dsts@.len() && dsts@[n] == b;
                    assert(r@.contains(dsts@[n]));
                }
            }
        }
        i += 1;
    }
    proof {
        assert forall|v: u64| #[trigger] edges@.contains_key(v) implies r@.contains(v) by {
            assert(keys@.contains(v));
            let j = choose|j: int| 0 <= j < keys@.len() && keys@[j] == v;
            assert(r@.contains(keys@[j]));
        }
        assert forall|a: u64, b: u64| #[trigger] has_edge(edges@, a, b) implies r@.contains(b) by {
            assert(keys@.contains(a));
            let j = choose|j: int| 0 <= j < keys@.len() && keys@[j] == a;
            assert(has_edge(edges@, keys@[j], b));
        }
    }
    r
}

/// Adds a vertex to a list, unless it is there already.
fn push_new(list: &mut Vec<u64>, seen: &mut HashSet<u64>, v: u64)
    requires
        old(list)@.no_duplicates(),
        old(seen)@ == old(list)@.to_set(),
    ensures
        final(list)@.no_duplicates(),
        final(seen)@ == final(list)@.to_set(),
        final(list)@ == if old(list)@.contains(v) {
            old(list)@
        } else {
            old(list)@.push(v)
        },
        forall|x: u64| #[trigger] final(list)@.contains(x) == (old(list)@.contains(x) || x == v),
{
    let ghost before = list@;
    assert(seen@.contains(v) == before.contains(v));
    if !seen.contains(&v) {
        seen.insert(v);
        list.push(v);
        proof {
            assert(list@.to_set() =~= before.to_set().insert(v)) by {
                assert forall|x: u64| #[trigger]
                    list@.to_set().contains(x) == before.to_set().insert(v).contains(x) by {
                    if before.contains(x) {
                        let i = choose|i: int| 0 <= i < before.len() && before[i] == x;
                        assert(list@[i] == x);
                    }
                    assert(list@[before.len() as int] == v);
                    if list@.contains(x) {
                        let i = choose|i: int| 0 <= i < list@.len() && list@[i] == x;
                        if i < before.len() {
                            assert(before[i] == x);
                        }
                    }
                }
            }
            assert forall|x: u64| #[trigger] list@.contains(x) == (before.contains(x) || x == v) by {
                assert(list@.to_set().contains(x) == before.to_set().insert(v).contains(x));
            }
        }
    }
}

/// A list without duplicates is no longer than a list with all its elements.
proof fn lemma_sublist_len(s: Seq<u64>, t: Seq<u64>)
    requires
        s.no_duplicates(),
        forall|i: int| 0 <= i < s.len() ==> t.contains(#[trigger] s[i]),
    ensures
        s.len() <= t.len(),
{
    s.unique_seq_to_set();
    vstd::seq_lib::seq_to_set_is_finite(t);
    assert(s.to_set().subset_of(t.to_set())) by {
        assert forall|x: u64| #[trigger] s.to_set().contains(x) implies t.to_set().contains(x) by {
            let i = choose|i: int| 0 <= i < s.len() && s[i] == x;
            assert(t.contains(s[i]));
        }
    }
    vstd::set_lib::lemma_len_subset(s.to_set(), t.to_set());
    t.lemma_cardinality_of_set();
}

/// The vertices that can be reached from a vertex, in the order of a search from it.
fn reachable<E>(edges: &Edges<E>, start: u64) -> (r: (Vec<u64>, HashSet<u64>))
    ensures
        r.0@.no_duplicates(),
        r.1@ == r.0@.to_set(),
        forall|v: u64| #[trigger] r.0@.contains(v) <==> reaches(edges@, start, v),
{
    let mut all = vertices_of(edges);
    let ghost verts = all@.push(start);
    let mut order: Vec<u64> = Vec::new();
    let mut seen: HashSet<u64> = HashSet::new();
    assert(seen@ =~= order@.to_set());
    push_new(&mut order, &mut seen, start);
    proof {
        lemma_reach_self(edges@, start);
        assert(order@ =~= seq![start]);
        assert(verts[all@.len() as int] == start);
        assert forall|a: u64, b: u64| #[trigger] has_edge(edges@, a, b) implies verts.contains(b) by {
            let i = choose|i: int| 0 <= i < all@.len() && all@[i] == b;
            assert(verts[i] == b);
        }
        assert forall|v: u64| #[trigger] order@.contains(v) implies verts.contains(v) && reaches(
            edges@,
            start,
            v,
        ) by {}
        assert(order@.contains(start));
    }
    let mut head: usize = 0;
    while head < order.len()
        invariant
            head <= order@.len(),
            order@.no_duplicates(),
            seen@ == order@.to_set(),
            order@.contains(start),
            forall|v: u64| #[trigger]
                order@.contains(v) ==> verts.contains(v) && reaches(edges@, start, v),
            forall|a: u64, b: u64| #[trigger] has_edge(edges@, a, b) ==> verts.contains(b),
            forall|i: int, b: u64|
                0 <= i < head && has_edge(edges@, #[trigger] order@[i], b)
                    ==> #[trigger] order@.contains(b),
        decreases verts.len() - head,
    {
        let v: u64 = order[head];
        proof {
            assert(order@.contains(v));
            assert forall|i: int| 0 <= i < order@.len() implies verts.contains(
                #[trigger] order@[i],
            ) by {
                assert(order@.contains(order@[i]));
            }
            lemma_sublist_len(order@, verts);
        }
        if let Some(out) = edges.get(&v) {
            let dsts = keys_of(out);
            let ghost start_order = order@;
            let mut j: usize = 0;
            while j < dsts.len()
                invariant
                    j <= dsts@.len(),
                    edges@.contains_key(v),
                    out@ == edges@[v]@,
                    forall|k: u64| #[trigger] dsts@.contains(k) <==> out@.contains_key(k),
                    head < start_order.len(),
                    start_order.len() <= order@.len(),
                    forall|i: int| 0 <= i < start_order.len() ==> order@[i] == start_order[i],
                    forall|x: u64| start_order.contains(x) ==> #[trigger] order@.contains(x),
                    order@.no_duplicates(),
                    seen@ == order@.to_set(),
                    reaches(edges@, start, v),
                    forall|v: u64| #[trigger]
                        order@.contains(v) ==> verts.contains(v) && reaches(edges@, start, v),
                    forall|a: u64, b: u64| #[trigger]
                        has_edge(edges@, a, b) ==> verts.contains(b),
                    forall|n: int| 0 <= n < j ==> order@.contains(#[trigger] dsts@[n]),
                decreases dsts@.len() - j,
            {
                let w: u64 = dsts[j];
                proof {
                    assert(dsts@.contains(w));
                    assert(has_edge(edges@, v, w));
                    lemma_reach_step(edges@, start, v, w);
                }
                push_new(&mut order, &mut seen, w);
                j += 1;
            }
            proof {
                assert forall|i: int, b: u64|
                    0 <= i < head + 1 && has_edge(
                        edges@,
                        #[trigger] order@[i],
                        b,
                    ) implies #[trigger] order@.contains(b) by {
                    if i < head {
                        assert(order@[i] == start_order[i]);
                        assert(has_edge(edges@, start_order[i], b));
                        assert(start_order.contains(b));
                    } else {
                        assert(dsts@.contains(b));
                        let n = choose|n: int| 0 <= n < dsts@.len() && dsts@[n] == b;
                        assert(order@.contains(dsts@[n]));
                    }
                }
            }
        }
        head += 1;
    }
    proof {
        assert forall|v: u64| reaches(edges@, start, v) implies #[trigger] order@.contains(v) by {
            let p = choose|p: Seq<u64>| #[trigger] joins(edges@, p, start, v);
            lemma_closed(edges@, p, order@, p.len() - 1);
        }
    }
    (order, seen)
}

/// A path that starts in a set which no edge leaves stays in it.
proof fn lemma_closed<E>(m: Map<u64, HashMap<u64, E>>, p: Seq<u64>, s: Seq<u64>, n: int)
    requires
        is_path(m, p),
        s.contains(p[0]),
        forall|i: int, b: u64|
            0 <= i < s.len() && has_edge(m, #[trigger] s[i], b) ==> #[trigger] s.contains(b),
        0 <= n < p.len(),
    ensures
        s.contains(p[n]),
    decreases n,
{
    if n > 0 {
        lemma_closed(m, p, s, n - 1);
        let i = choose|i: int| 0 <= i < s.len() && s[i] == p[n - 1];
        assert(has_edge(m, p[n - 1], p[n - 1 + 1]));
        assert(has_edge(m, s[i], p[n]));
    }
}

/// The graph with its edges turned around.
fn reversed<E>(edges: &Edges<E>) -> (r: Edges<()>)
    ensures
        forall|a: u64, b: u64| has_edge(r@, a, b) == has_edge(edges@, b, a),
{
    let keys = keys_of(edges);
    let mut r: Edges<()> = HashMap::new();
    let mut i: usize = 0;
    while i < keys.len()
        invariant
            i <= keys@.len(),
            forall|k: u64| #[trigger] keys@.contains(k) <==> edges@.contains_key(k),
            forall|a: u64, b: u64| #[trigger]
                has_edge(r@, a, b) == (has_edge(edges@, b, a) && keys@.take(i as int).contains(b)),
        decreases keys@.len() - i,
    {
        let k: u64 = keys[i];
        let ghost start = r@;
        let ghost done = keys@.take(i as int);
        assert(keys@.contains(k));
        if let Some(out) = edges.get(&k) {
            let dsts = keys_of(out);
            let mut j: usize = 0;
            while j < dsts.len()
                invariant
                    j <= dsts@.len(),
                    edges@.contains_key(k),
                    out@ == edges@[k]@,
                    forall|x: u64| #[trigger] dsts@.contains(x) <==> out@.contains_key(x),
                    forall|a: u64, b: u64| #[trigger]
                        has_edge(r@, a, b) == (has_edge(start, a, b) || (b == k && dsts@.take(
                            j as int,
                        ).contains(a))),
                decreases dsts@.len() - j,
            {
                let d: u64 = dsts[j];
                let ghost before = r@;
                put_edge(&mut r, d, (), k);
                proof {
                    let (s0, s1) = (dsts@.take(j as int), dsts@.take(j + 1));
                    assert forall|x: u64| #[trigger] s1.contains(x) == (s0.contains(x) || x == d) by {
                        lemma_take_contains(dsts@, j as int, x);
                    }
                    assert forall|a: u64, b: u64| #[trigger]
                        has_edge(r@, a, b) == (has_edge(before, a, b) || (a == d && b == k)) by {
                        assert(labels(r@).contains_key((a, b)) == labels(before).insert(
                            (d, k),
                            (),
                        ).contains_key((a, b)));
                    }
                }
                j += 1;
            }
            proof {
                assert(dsts@.take(j as int) =~= dsts@);
            }
        }
        proof {
            assert forall|a: u64, b: u64| #[trigger]
                has_edge(r@, a, b) == (has_edge(edges@, b, a) && keys@.take(i + 1).contains(b)) by {
                lemma_take_contains(keys@, i as int, b);
                assert(has_edge(start, a, b) == (has_edge(edges@, b, a) && done.contains(b)));
            }
        }
        i += 1;
    }
    proof {
        assert(keys@.take(i as int) =~= keys@);
        assert forall|a: u64, b: u64| has_edge(r@, a, b) == has_edge(edges@, b, a) by {
            assert(has_edge(r@, a, b) == (has_edge(edges@, b, a) && keys@.contains(b)));
        }
    }
    r
}

proof fn lemma_take_contains(s: Seq<u64>, n: int, x: u64)
    requires
        0 <= n < s.len(),
    ensures
        s.take(n + 1).contains(x) == (s.take(n).contains(x) || x == s[n]),
{
    let (a, b) = (s.take(n), s.take(n + 1));
    if a.contains(x) {
        let i = choose|i: int| 0 <= i < a.len() && a[i] == x;
        assert(b[i] == x);
    }
    assert(b[n] == s[n]);
    if b.contains(x) {
        let i = choose|i: int| 0 <= i < b.len() && b[i] == x;
        if i < n {
            assert(a[i] == x);
        }
    }
}

proof fn lemma_reversed_reach<E, F>(
    m: Map<u64, HashMap<u64, E>>,
    r: Map<u64, HashMap<u64, F>>,
    a: u64,
    b: u64,
)
    requires
        forall|x: u64, y: u64| has_edge(r, x, y) == has_edge(m, y, x),
        reaches(r, a, b),
    ensures
        reaches(m, b, a),
{
    let p = choose|p: Seq<u64>| #[trigger] joins(r, p, a, b);
    let q = p.reverse();
    assert forall|i: int| 0 <= i < q.len() - 1 implies has_edge(m, #[trigger] q[i], q[i + 1]) by {
        let j = p.len() - 2 - i;
        assert(q[i] == p[j + 1] && q[i + 1] == p[j]);
        assert(has_edge(r, p[j], p[j + 1]));
    }
    assert(joins(m, q, b, a));
}

/// Whether a list has the vertices that are on a cycle with any one of them.
pub open spec fn is_component<E>(m: Map<u64, HashMap<u64, E>>, c: Seq<u64>) -> bool {
    &&& c.no_duplicates()
    &&& c.len() > 1
    &&& forall|u: u64, w: u64|
        #[trigger] c.contains(u) ==> (#[trigger] c.contains(w) <==> mutual(m, u, w))
}

/// The vertices that can be reached from a vertex and from which it can be reached.
fn component_of<E>(edges: &Edges<E>, back: &Edges<()>, v: u64) -> (r: Vec<u64>)
    requires
        forall|a: u64, b: u64| has_edge(back@, a, b) == has_edge(edges@, b, a),
    ensures
        r@.no_duplicates(),
        forall|w: u64| #[trigger] r@.contains(w) <==> mutual(edges@, v, w),
{
    let (order, _) = reachable(edges, v);
    let (back_order, back_seen) = reachable(back, v);
    let mut r: Vec<u64> = Vec::new();
    let mut i: usize = 0;
    while i < order.len()
        invariant
            i <= order@.len(),
            order@.no_duplicates(),
            back_seen@ == back_order@.to_set(),
            r@.no_duplicates(),
            forall|w: u64| #[trigger]
                r@.contains(w) <==> order@.take(i as int).contains(w) && back_order@.contains(w),
        decreases order@.len() - i,
    {
        let w: u64 = order[i];
        let ghost before = r@;
        assert(back_seen@.contains(w) == back_order@.contains(w));
        proof {
            assert(!order@.take(i as int).contains(w)) by {
                if order@.take(i as int).contains(w) {
                    let j = choose|j: int| 0 <= j < i && order@.take(i as int)[j] == w;
                    assert(order@[j] == order@[i as int]);
                }
            }
        }
        if back_seen.contains(&w) {
            assert(!before.contains(w));
            r.push(w);
            proof {
                assert forall|x: u64| #[trigger] r@.contains(x) == (before.contains(x) || x == w) by {
                    assert(r@.take(before.len() as int) =~= before);
                    assert(r@.take((before.len() + 1) as int) =~= r@);
                    lemma_take_contains(r@, before.len() as int, x);
                }
            }
        }
        proof {
            assert forall|x: u64| #[trigger]
                r@.contains(x) <==> order@.take(i + 1).contains(x) && back_order@.contains(x) by {
                lemma_take_contains(order@, i as int, x);
            }
        }
        i += 1;
    }
    proof {
        assert(order@.take(i as int) =~= order@);
        assert forall|w: u64| #[trigger] r@.contains(w) <==> mutual(edges@, v, w) by {
            if reaches(back@, v, w) {
                lemma_reversed_reach(edges@, back@, v, w);
            }
            if reaches(edges@, w, v) {
                assert forall|x: u64, y: u64| has_edge(edges@, x, y) == has_edge(back@, y, x) by {
                    assert(has_edge(back@, y, x) == has_edge(edges@, x, y));
                }
                lemma_reversed_reach(back@, edges@, w, v);
            }
        }
    }
    r
}

/// The strongly connected components with more than one vertex.
pub fn strongly_connected_components<E>(edges: &Edges<E>) -> (r: Vec<Vec<u64>>)
    ensures
        forall|i: int| 0 <= i < r@.len() ==> is_component(edges@, (#[trigger] r@[i])@),
        forall|u: u64, w: u64|
            u != w && #[trigger] mutual(edges@, u, w) ==> exists|i: int|
                0 <= i < r@.len() && (#[trigger] r@[i])@.contains(u),
        forall|i: int, j: int, u: u64|
            0 <= i < r@.len() && 0 <= j < r@.len() && #[trigger] r@[i]@.contains(u)
                && #[trigger] r@[j]@.contains(u) ==> i == j,
{
    let keys = keys_of(edges);
    let back = reversed(edges);
    let mut r: Vec<Vec<u64>> = Vec::new();
    let mut assigned: HashSet<u64> = HashSet::new();
    let mut i: usize = 0;
    while i < keys.len()
        invariant
            i <= keys@.len(),
            forall|k: u64| #[trigger] keys@.contains(k) <==> edges@.contains_key(k),
            forall|a: u64, b: u64| has_edge(back@, a, b) == has_edge(edges@, b, a),
            forall|j: int| 0 <= j < r@.len() ==> is_component(edges@, (#[trigger] r@[j])@),
            forall|j: int| 0 <= j < i ==> assigned@.contains(#[trigger] keys@[j]),
            forall|u: u64, w: u64|
                #[trigger] assigned@.contains(u) && u != w && #[trigger] mutual(edges@, u, w)
                    ==> assigned@.contains(w) && exists|j: int|
                    0 <= j < r@.len() && (#[trigger] r@[j])@.contains(u),
            forall|j: int, u: u64|
                0 <= j < r@.len() && #[trigger] r@[j]@.contains(u) ==> assigned@.contains(u),
            forall|a: int, b: int, u: u64|
                0 <= a < r@.len() && 0 <= b < r@.len() && #[trigger] r@[a]@.contains(u)
                    && #[trigger] r@[b]@.contains(u) ==> a == b,
        decreases keys@.len() - i,
    {
        let v: u64 = keys[i];
        if !assigned.contains(&v) {
            let c = component_of(edges, &back, v);
            let ghost before = assigned@;
            let ghost comps = r@;
            let mut j: usize = 0;
            assert(c@.take(0) =~= Seq::empty());
            while j < c.len()
                invariant
                    j <= c@.len(),
                    forall|x: u64| #[trigger]
                        assigned@.contains(x) == (before.contains(x) || c@.take(j as int).contains(
                            x,
                        )),
                decreases c@.len() - j,
            {
                assigned.insert(c[j]);
                proof {
                    assert forall|x: u64| #[trigger]
                        assigned@.contains(x) == (before.contains(x) || c@.take(j + 1).contains(
                            x,
                        )) by {
                        lemma_take_contains(c@, j as int, x);
                    }
                }
                j += 1;
            }
            let more = c.len() > 1;
            let ghost members = c@;
            proof {
                assert(c@.take(j as int) =~= c@);
                lemma_reach_self(edges@, v);
                assert(mutual(edges@, v, v));
                assert(members.contains(v));
                lemma_component(edges@, members, v);
                assert forall|x: u64| #[trigger] members.contains(x) implies !before.contains(x) by {
                    if before.contains(x) && x != v {
                        assert(mutual(edges@, v, x));
                        assert(mutual(edges@, x, v));
                        assert(before.contains(v));
                    }
                }
            }
            if more {
                r.push(c);
            }
            proof {
                assert forall|u: u64, w: u64|
                    #[trigger] assigned@.contains(u) && u != w && #[trigger] mutual(
                        edges@,
                        u,
                        w,
                    ) implies assigned@.contains(w) && exists|n: int|
                    0 <= n < r@.len() && (#[trigger] r@[n])@.contains(u) by {
                    if before.contains(u) {
                        let n = choose|n: int|
                            0 <= n < comps.len() && (#[trigger] comps[n])@.contains(u);
                        assert(r@[n]@.contains(u));
                    } else {
                        assert(members.contains(u));
                        assert(members.contains(w));
                        let a = choose|a: int| 0 <= a < members.len() && members[a] == u;
                        let b = choose|b: int| 0 <= b < members.len() && members[b] == w;
                        assert(a != b);
                        assert(more);
                        assert(r@[comps.len() as int]@.contains(u));
                    }
                }
                assert forall|n: int, u: u64|
                    0 <= n < r@.len() && #[trigger] r@[n]@.contains(u) implies assigned@.contains(
                    u,
                ) by {
                    if n < comps.len() {
                        assert(comps[n]@.contains(u));
                    }
                }
                assert forall|a: int, b: int, u: u64|
                    0 <= a < r@.len() && 0 <= b < r@.len() && #[trigger] r@[a]@.contains(u)
                        && #[trigger] r@[b]@.contains(u) implies a == b by {
                    if a < comps.len() {
                        assert(comps[a]@.contains(u));
                        assert(before.contains(u));
                    }
                    if b < comps.len() {
                        assert(comps[b]@.contains(u));
                        assert(before.contains(u));
                    }
                }
            }
        }
        i += 1;
    }
    proof {
        assert forall|u: u64, w: u64| u != w && #[trigger] mutual(edges@, u, w) implies exists|
            j: int,
        | 0 <= j < r@.len() && (#[trigger] r@[j])@.contains(u) by {
            let p = choose|p: Seq<u64>| #[trigger] joins(edges@, p, u, w);
            assert(p.len() > 1);
            assert(has_edge(edges@, p[0int], p[0int + 1]));
            assert(keys@.contains(u));
            let j = choose|j: int| 0 <= j < keys@.len() && keys@[j] == u;
            assert(assigned@.contains(keys@[j]));
        }
    }
    r
}

proof fn lemma_component<E>(m: Map<u64, HashMap<u64, E>>, c: Seq<u64>, v: u64)
    requires
        c.no_duplicates(),
        forall|w: u64| #[trigger] c.contains(w) <==> mutual(m, v, w),
    ensures
        c.len() > 1 ==> is_component(m, c),
        forall|u: u64, w: u64|
            #[trigger] c.contains(u) && #[trigger] mutual(m, u, w) ==> c.contains(w),
{
    assert forall|u: u64, w: u64| #[trigger] c.contains(u) implies (#[trigger] c.contains(w)
        <==> mutual(m, u, w)) by {
        if c.contains(w) {
            lemma_reach_join(m, u, v, w);
            lemma_reach_join(m, w, v, u);
        }
        if mutual(m, u, w) {
            lemma_reach_join(m, v, u, w);
            lemma_reach_join(m, w, u, v);
        }
    }
}

/// A search from a vertex: the vertices in the order in which they were found, from where each was
/// found, and how many edges away it is. The first `head` of them have been looked at, and none of
/// those but the first has an edge back to the first.
spec fn searched<E>(
    m: Map<u64, HashMap<u64, E>>,
    order: Seq<u64>,
    parent: Seq<usize>,
    dist: Seq<int>,
    head: int,
) -> bool {
    &&& order.len() > 0
    &&& order.len() == parent.len()
    &&& order.len() == dist.len()
    &&& dist[0] == 0
    &&& 0 <= head <= order.len()
    &&& order.no_duplicates()
    &&& forall|i: int|
        0 < i < order.len() ==> (#[trigger] parent[i]) < i && has_edge(
            m,
            order[parent[i] as int],
            order[i],
        ) && dist[i] == dist[parent[i] as int] + 1
    &&& forall|i: int, j: int|
        0 <= i <= j < order.len() ==> (#[trigger] dist[i]) <= (#[trigger] dist[j])
    &&& head < order.len() ==> dist[order.len() - 1] <= dist[head] + 1
    &&& forall|i: int, b: u64|
        0 <= i < head && #[trigger] has_edge(m, order[i], b) ==> near(order, dist, b, dist[i] + 1)
    &&& forall|i: int| 0 < i < head ==> !has_edge(m, #[trigger] order[i], order[0])
}

/// Whether a vertex was found, at most so many edges away.
spec fn near(order: Seq<u64>, dist: Seq<int>, v: u64, d: int) -> bool {
    exists|j: int| 0 <= j < order.len() && (#[trigger] order[j]) == v && dist[j] <= d
}

/// What a short path leads to has been found.
proof fn lemma_near<E>(
    m: Map<u64, HashMap<u64, E>>,
    order: Seq<u64>,
    parent: Seq<usize>,
    dist: Seq<int>,
    head: int,
    p: Seq<u64>,
    n: int,
)
    requires
        searched(m, order, parent, dist, head),
        is_path(m, p),
        p[0] == order[0],
        0 <= n < p.len(),
        head == order.len() || n <= dist[head],
    ensures
        near(order, dist, p[n], n),
    decreases n,
{
    if n == 0 {
        assert(order[0] == p[0]);
    } else {
        lemma_near(m, order, parent, dist, head, p, n - 1);
        let j = choose|j: int|
            0 <= j < order.len() && (#[trigger] order[j]) == p[n - 1] && dist[j] <= n - 1;
        if j >= head {
            assert(dist[head] <= dist[j]);
        }
        assert(has_edge(m, p[n - 1], p[n - 1 + 1]));
        assert(has_edge(m, order[j], p[n]));
        assert(near(order, dist, p[n], dist[j] + 1));
        let k = choose|k: int|
            0 <= k < order.len() && (#[trigger] order[k]) == p[n] && dist[k] <= dist[j] + 1;
        assert(order[k] == p[n] && dist[k] <= n);
    }
}

/// The way by which a vertex was found.
spec fn way(order: Seq<u64>, parent: Seq<usize>, i: int) -> Seq<u64>
    decreases i,
    when i >= 0
{
    if i == 0 || parent[i] >= i {
        seq![order[i]]
    } else {
        way(order, parent, parent[i] as int).push(order[i])
    }
}

proof fn lemma_way<E>(
    m: Map<u64, HashMap<u64, E>>,
    order: Seq<u64>,
    parent: Seq<usize>,
    dist: Seq<int>,
    head: int,
    i: int,
)
    requires
        searched(m, order, parent, dist, head),
        0 <= i < order.len(),
    ensures
        way(order, parent, i).len() == dist[i] + 1,
        way(order, parent, i)[0] == order[0],
        way(order, parent, i).last() == order[i],
        is_path(m, way(order, parent, i)),
        way(order, parent, i).no_duplicates(),
        forall|n: int|
            0 <= n < way(order, parent, i).len() ==> exists|k: int|
                0 <= k <= i && (#[trigger] way(order, parent, i)[n]) == #[trigger] order[k],
    decreases i,
{
    let w = way(order, parent, i);
    if i == 0 {
        assert(w[0] == order[0]);
    } else {
        let q = parent[i] as int;
        lemma_way(m, order, parent, dist, head, q);
        let v = way(order, parent, q);
        assert(w =~= v.push(order[i]));
        assert forall|n: int| 0 <= n < w.len() implies exists|k: int|
            0 <= k <= i && (#[trigger] w[n]) == #[trigger] order[k] by {
            if n < v.len() {
                let k = choose|k: int| 0 <= k <= q && v[n] == #[trigger] order[k];
                assert(w[n] == order[k]);
            } else {
                assert(w[n] == order[i]);
            }
        }
        assert forall|n: int| 0 <= n < w.len() - 1 implies has_edge(m, #[trigger] w[n], w[n + 1]) by {
            if n < v.len() - 1 {
                assert(has_edge(m, v[n], v[n + 1]));
            }
        }
        assert forall|a: int, b: int| 0 <= a < w.len() && 0 <= b < w.len() && a != b implies w[a]
            != w[b] by {
            if a == v.len() {
                let k = choose|k: int| 0 <= k <= q && v[b] == #[trigger] order[k];
                assert(order[k] != order[i]);
            } else if b == v.len() {
                let k = choose|k: int| 0 <= k <= q && v[a] == #[trigger] order[k];
                assert(order[k] != order[i]);
            }
        }
    }
}

fn way_to(order: &Vec<u64>, parent: &Vec<usize>, i: usize) -> (r: Vec<u64>)
    requires
        i < order@.len(),
        order@.len() == parent@.len(),
        forall|j: int| 0 < j < order@.len() ==> (#[trigger] parent@[j]) < j,
    ensures
        r@ == way(order@, parent@, i as int),
    decreases i,
{
    if i == 0 {
        let r = vec![order[0]];
        assert(r@ =~= seq![order@[0]]);
        r
    } else {
        let mut r = way_to(order, parent, parent[i]);
        r.push(order[i]);
        r
    }
}

/// Whether no cycle through the first vertex is shorter.
pub open spec fn shortest<E>(m: Map<u64, HashMap<u64, E>>, c: Seq<u64>) -> bool {
    forall|d: Seq<u64>| #[trigger] is_cycle(m, d) && d[0] == c[0] ==> c.len() <= d.len()
}

proof fn lemma_found<E>(
    m: Map<u64, HashMap<u64, E>>,
    order: Seq<u64>,
    parent: Seq<usize>,
    dist: Seq<int>,
    head: int,
)
    requires
        searched(m, order, parent, dist, head),
        0 < head < order.len(),
        has_edge(m, order[head], order[0]),
    ensures
        is_cycle(m, way(order, parent, head)),
        shortest(m, way(order, parent, head)),
{
    let c = way(order, parent, head);
    lemma_way(m, order, parent, dist, head, head);
    assert(dist[head] == dist[parent[head] as int] + 1);
    assert(dist[0] <= dist[parent[head] as int]);
    assert forall|d: Seq<u64>| #[trigger] is_cycle(m, d) && d[0] == c[0] implies c.len()
        <= d.len() by {
        let n = d.len() - 1;
        if n < dist[head] {
            lemma_near(m, order, parent, dist, head, d, n);
            let j = choose|j: int| 0 <= j < order.len() && (#[trigger] order[j]) == d[n] && dist[j]
                <= n;
            if j >= head {
                assert(dist[head] <= dist[j]);
            }
            assert(d[0] != d[n]);
            assert(j > 0);
            assert(!has_edge(m, order[j], order[0]));
        }
    }
}

/// Once all that can be reached has been looked at, no other vertex reaches the first.
proof fn lemma_exhausted<E>(
    m: Map<u64, HashMap<u64, E>>,
    order: Seq<u64>,
    parent: Seq<usize>,
    dist: Seq<int>,
    u: u64,
)
    requires
        searched(m, order, parent, dist, order.len() as int),
        u != order[0],
        reaches(m, order[0], u),
    ensures
        !reaches(m, u, order[0]),
{
    let start = order[0];
    if reaches(m, u, start) {
        let p = choose|p: Seq<u64>| #[trigger] joins(m, p, start, u);
        let q = choose|q: Seq<u64>| #[trigger] joins(m, q, u, start);
        let n = first_at(q, start);
        lemma_first_at(q, start, q.len() - 1);
        assert(n > 0);
        let w = q[n - 1];
        assert(has_edge(m, q[n - 1], q[n - 1 + 1]));
        assert(joins(m, q.take(n), u, w)) by {
            assert forall|i: int| 0 <= i < n - 1 implies has_edge(
                m,
                #[trigger] q.take(n)[i],
                q.take(n)[i + 1],
            ) by {
                assert(has_edge(m, q[i], q[i + 1]));
            }
        }
        lemma_reach_join(m, start, u, w);
        let r = choose|r: Seq<u64>| #[trigger] joins(m, r, start, w);
        lemma_near(m, order, parent, dist, order.len() as int, r, r.len() - 1);
        let j = choose|j: int|
            0 <= j < order.len() && (#[trigger] order[j]) == r[r.len() - 1] && dist[j] <= r.len()
                - 1;
        assert(w != start);
        assert(j > 0);
        assert(!has_edge(m, order[j], start));
    }
}

/// Where a vertex first occurs.
spec fn first_at(q: Seq<u64>, v: u64) -> int {
    q.index_of_first(v)->0
}

proof fn lemma_first_at(q: Seq<u64>, v: u64, n: int)
    requires
        0 <= n < q.len(),
        q[n] == v,
    ensures
        0 <= first_at(q, v) < q.len(),
        q[first_at(q, v)] == v,
        forall|i: int| 0 <= i < first_at(q, v) ==> q[i] != v,
{
    q.index_of_first_ensures(v);
    assert(q.contains(v));
}

/// A shortest cycle through a vertex of a strongly connected component. The vertex comes first and
/// again at the end.
pub fn small_cycle<E>(component: &Vec<u64>, edges: &Edges<E>) -> (r: Vec<u64>)
    requires
        is_component(edges@, component@),
    ensures
        r@.len() >= 3,
        r@.last() == r@[0],
        component@.contains(r@[0]),
        is_cycle(edges@, r@.drop_last()),
        shortest(edges@, r@.drop_last()),
{
    let start: u64 = component[0];
    let all = vertices_of(edges);
    let ghost verts = all@.push(start);
    let mut order: Vec<u64> = Vec::new();
    let mut parent: Vec<usize> = Vec::new();
    let ghost mut dist: Seq<int> = Seq::empty();
    let mut seen: HashSet<u64> = HashSet::new();
    order.push(start);
    parent.push(0);
    seen.insert(start);
    proof {
        dist = dist.push(0);
        assert(component@.contains(start));
        assert(order@ =~= seq![start]);
        assert(seen@ =~= order@.to_set()) by {
            assert(order@[0] == start);
        }
        assert(verts[all@.len() as int] == start);
        assert forall|a: u64, b: u64| #[trigger] has_edge(edges@, a, b) implies verts.contains(b) by {
            let i = choose|i: int| 0 <= i < all@.len() && all@[i] == b;
            assert(verts[i] == b);
        }
    }
    let mut head: usize = 0;
    while head < order.len()
        invariant
            searched(edges@, order@, parent@, dist, head as int),
            order@[0] == start,
            seen@ == order@.to_set(),
            is_component(edges@, component@),
            component@.contains(start),
            forall|i: int| 0 <= i < order@.len() ==> verts.contains(#[trigger] order@[i]),
            forall|a: u64, b: u64| #[trigger] has_edge(edges@, a, b) ==> verts.contains(b),
        decreases verts.len() - head,
    {
        let v: u64 = order[head];
        proof {
            lemma_sublist_len(order@, verts);
        }
        if let Some(out) = edges.get(&v) {
            if head > 0 && out.contains_key(&start) {
                let mut r = way_to(&order, &parent, head);
                proof {
                    lemma_found(edges@, order@, parent@, dist, head as int);
                    lemma_way(edges@, order@, parent@, dist, head as int, head as int);
                }
                let ghost c = r@;
                r.push(start);
                assert(r@.drop_last() =~= c);
                return r;
            }
            let dsts = keys_of(out);
            let mut j: usize = 0;
            while j < dsts.len()
                invariant
                    j <= dsts@.len(),
                    head < order@.len(),
                    order@[head as int] == v,
                    edges@.contains_key(v),
                    out@ == edges@[v]@,
                    forall|k: u64| #[trigger] dsts@.contains(k) <==> out@.contains_key(k),
                    searched(edges@, order@, parent@, dist, head as int),
                    order@[0] == start,
                    seen@ == order@.to_set(),
                    forall|i: int| 0 <= i < order@.len() ==> verts.contains(#[trigger] order@[i]),
                    forall|a: u64, b: u64| #[trigger]
                        has_edge(edges@, a, b) ==> verts.contains(b),
                    forall|n: int|
                        0 <= n < j ==> near(
                            order@,
                            dist,
                            #[trigger] dsts@[n],
                            dist[head as int] + 1,
                        ),
                decreases dsts@.len() - j,
            {
                let w: u64 = dsts[j];
                proof {
                    assert(dsts@.contains(w));
                    assert(has_edge(edges@, v, w));
                    assert(seen@.contains(w) == order@.contains(w));
                }
                let ghost (order0, parent0, dist0) = (order@, parent@, dist);
                if !seen.contains(&w) {
                    seen.insert(w);
                    order.push(w);
                    parent.push(head);
                    proof {
                        dist = dist.push(dist[head as int] + 1);
                        lemma_extended(
                            edges@,
                            order0,
                            parent0,
                            dist0,
                            order@,
                            parent@,
                            dist,
                            head as int,
                        );
                        assert(order@.to_set() =~= order0.to_set().insert(w)) by {
                            assert forall|x: u64| #[trigger]
                                order@.to_set().contains(x) == order0.to_set().insert(
                                    w,
                                ).contains(x) by {
                                assert(order@.take(order0.len() as int) =~= order0);
                                assert(order@.take((order0.len() + 1) as int) =~= order@);
                                lemma_take_contains(order@, order0.len() as int, x);
                            }
                        }
                        assert(order@[order0.len() as int] == w);
                    }
                } else {
                    proof {
                        let k = choose|k: int| 0 <= k < order@.len() && order@[k] == w;
                        assert(dist[k] <= dist[order@.len() - 1]);
                        assert(order@[k] == w);
                    }
                }
                proof {
                    assert forall|n: int| 0 <= n < j + 1 implies near(
                        order@,
                        dist,
                        #[trigger] dsts@[n],
                        dist[head as int] + 1,
                    ) by {
                        if n < j {
                            assert(near(order0, dist0, dsts@[n], dist0[head as int] + 1));
                            let k = choose|k: int|
                                0 <= k < order0.len() && (#[trigger] order0[k]) == dsts@[n]
                                    && dist0[k] <= dist0[head as int] + 1;
                            assert(order@[k] == dsts@[n]);
                        } else if order@.len() > order0.len() {
                            assert(order@[order0.len() as int] == w);
                        }
                    }
                }
                j += 1;
            }
            proof {
                assert forall|b: u64| #[trigger] has_edge(edges@, v, b) implies near(
                    order@,
                    dist,
                    b,
                    dist[head as int] + 1,
                ) by {
                    assert(dsts@.contains(b));
                    let n = choose|n: int| 0 <= n < dsts@.len() && dsts@[n] == b;
                    assert(near(order@, dist, dsts@[n], dist[head as int] + 1));
                }
            }
        }
        proof {
            lemma_advanced(edges@, order@, parent@, dist, head as int);
        }
        head += 1;
    }
    proof {
        let u = component@[1];
        assert(component@.contains(u));
        assert(mutual(edges@, start, u));
        assert(u != start);
        lemma_exhausted(edges@, order@, parent@, dist, u);
        assert(false);
    }
    Vec::new()
}

/// A vertex was found from the one that is looked at.
proof fn lemma_extended<E>(
    m: Map<u64, HashMap<u64, E>>,
    order: Seq<u64>,
    parent: Seq<usize>,
    dist: Seq<int>,
    order2: Seq<u64>,
    parent2: Seq<usize>,
    dist2: Seq<int>,
    head: int,
)
    requires
        searched(m, order, parent, dist, head),
        0 <= head < order.len(),
        head <= usize::MAX,
        order2.len() == order.len() + 1,
        order2 == order.push(order2.last()),
        parent2 == parent.push(head as usize),
        dist2 == dist.push(dist[head] + 1),
        !order.contains(order2.last()),
        has_edge(m, order[head], order2.last()),
    ensures
        searched(m, order2, parent2, dist2, head),
{
    let n = order.len() as int;
    assert(dist[n - 1] <= dist[head] + 1);
    assert forall|i: int, j: int| 0 <= i <= j < order2.len() implies (#[trigger] dist2[i]) <= (
    #[trigger] dist2[j]) by {
        if j < n {
            assert(dist[i] <= dist[j]);
        } else if i < n {
            assert(dist[i] <= dist[n - 1]);
        }
    }
    assert forall|i: int| 0 < i < order2.len() implies (#[trigger] parent2[i]) < i && has_edge(
        m,
        order2[parent2[i] as int],
        order2[i],
    ) && dist2[i] == dist2[parent2[i] as int] + 1 by {
        if i < n {
            assert(parent[i] < i);
        }
    }
    assert forall|i: int, b: u64| 0 <= i < head && #[trigger] has_edge(
        m,
        order2[i],
        b,
    ) implies near(order2, dist2, b, dist2[i] + 1) by {
        assert(has_edge(m, order[i], b));
        let k = choose|k: int| 0 <= k < order.len() && (#[trigger] order[k]) == b && dist[k]
            <= dist[i] + 1;
        assert(order2[k] == b);
    }
    assert forall|i: int| 0 < i < head implies !has_edge(m, #[trigger] order2[i], order2[0]) by {
        assert(!has_edge(m, order[i], order[0]));
    }
    assert(order2.no_duplicates()) by {
        assert forall|a: int, b: int|
            0 <= a < order2.len() && 0 <= b < order2.len() && a != b implies order2[a]
            != order2[b] by {
            if a == n {
                assert(order.contains(order[b]));
            } else if b == n {
                assert(order.contains(order[a]));
            }
        }
    }
}

/// All edges of a vertex have been looked at.
proof fn lemma_advanced<E>(
    m: Map<u64, HashMap<u64, E>>,
    order: Seq<u64>,
    parent: Seq<usize>,
    dist: Seq<int>,
    head: int,
)
    requires
        searched(m, order, parent, dist, head),
        0 <= head < order.len(),
        forall|b: u64| #[trigger]
            has_edge(m, order[head], b) ==> near(order, dist, b, dist[head] + 1),
        head > 0 ==> !has_edge(m, order[head], order[0]),
    ensures
        searched(m, order, parent, dist, head + 1),
{
    if head + 1 < order.len() {
        assert(dist[head] <= dist[head + 1]);
    }
}

/// A cycle with the labels of its edges: from each vertex to the next, and from the last to the
/// first.
pub open spec fn is_labelled<E>(m: Map<u64, HashMap<u64, E>>, r: Seq<(u64, E)>) -> bool {
    forall|i: int|
        0 <= i < r.len() ==> (#[trigger] r[i]).1 == edge_at(
            m,
            r[i].0,
            if i + 1 < r.len() {
                r[i + 1].0
            } else {
                r[0].0
            },
        )
}

pub open spec fn cycle_vertices<E>(r: Seq<(u64, E)>) -> Seq<u64> {
    r.map_values(|e: (u64, E)| e.0)
}

/// Whether a vertex lies in a strongly connected component than which none is smaller.
pub open spec fn in_smallest<E>(m: Map<u64, HashMap<u64, E>>, v: u64) -> bool {
    exists|c: Seq<u64>| #[trigger]
        is_component(m, c) && c.contains(v) && forall|d: Seq<u64>| #[trigger]
            is_component(m, d) ==> c.len() <= d.len()
}

proof fn lemma_cycle_mutual<E>(m: Map<u64, HashMap<u64, E>>, c: Seq<u64>)
    requires
        is_cycle(m, c),
    ensures
        mutual(m, c[0], c[1]),
        c[0] != c[1],
{
    let p = c.take(2);
    assert forall|i: int| 0 <= i < p.len() - 1 implies has_edge(m, #[trigger] p[i], p[i + 1]) by {
        assert(has_edge(m, c[i], c[i + 1]));
    }
    assert(joins(m, p, c[0], c[1]));
    let q = c.skip(1).push(c[0]);
    assert forall|i: int| 0 <= i < q.len() - 1 implies has_edge(m, #[trigger] q[i], q[i + 1]) by {
        assert(q[i] == c[i + 1]);
        if i < q.len() - 2 {
            assert(has_edge(m, c[i + 1], c[i + 1 + 1]));
        }
    }
    assert(joins(m, q, c[1], c[0]));
}

proof fn lemma_component_len<E>(m: Map<u64, HashMap<u64, E>>, c: Seq<u64>, d: Seq<u64>, u: u64)
    requires
        is_component(m, c),
        is_component(m, d),
        c.contains(u),
        d.contains(u),
    ensures
        c.len() == d.len(),
{
    assert forall|i: int| 0 <= i < c.len() implies d.contains(#[trigger] c[i]) by {
        assert(c.contains(c[i]));
        assert(mutual(m, u, c[i]));
    }
    assert forall|i: int| 0 <= i < d.len() implies c.contains(#[trigger] d[i]) by {
        assert(d.contains(d[i]));
        assert(mutual(m, u, d[i]));
    }
    lemma_sublist_len(c, d);
    lemma_sublist_len(d, c);
}

/// A cycle of the graph, if there is one: a shortest one through a vertex of a smallest strongly
/// connected component.
pub fn find_cycle<E: Copy>(edges: &Edges<E>) -> (r: Option<Vec<(u64, E)>>)
    ensures
        match r {
            None => forall|c: Seq<u64>| !#[trigger] is_cycle(edges@, c),
            Some(v) => {
                &&& is_cycle(edges@, cycle_vertices(v@))
                &&& shortest(edges@, cycle_vertices(v@))
                &&& in_smallest(edges@, v@[0].0)
                &&& is_labelled(edges@, v@)
            },
        },
{
    let sccs = strongly_connected_components(edges);
    if sccs.len() == 0 {
        proof {
            assert forall|c: Seq<u64>| !#[trigger] is_cycle(edges@, c) by {
                if is_cycle(edges@, c) {
                    lemma_cycle_mutual(edges@, c);
                }
            }
        }
        return None;
    }
    let mut best: usize = 0;
    let mut i: usize = 1;
    while i < sccs.len()
        invariant
            best < i <= sccs@.len(),
            forall|j: int| 0 <= j < i ==> sccs@[best as int]@.len() <= (#[trigger] sccs@[j])@.len(),
        decreases sccs@.len() - i,
    {
        if sccs[i].len() < sccs[best].len() {
            best = i;
        }
        i += 1;
    }
    let cycle = small_cycle(&sccs[best], edges);
    let ghost closed = cycle@;
    let ghost c = cycle@.drop_last();
    let mut r: Vec<(u64, E)> = Vec::new();
    let mut i: usize = 0;
    while i < cycle.len() - 1
        invariant
            closed == cycle@,
            c == closed.drop_last(),
            closed.len() >= 3,
            closed.last() == closed[0],
            is_cycle(edges@, c),
            i <= cycle@.len() - 1,
            r@.len() == i,
            forall|j: int|
                0 <= j < i ==> (#[trigger] r@[j]).0 == closed[j] && r@[j].1 == edge_at(
                    edges@,
                    closed[j],
                    closed[j + 1],
                ),
        decreases cycle@.len() - i,
    {
        let a: u64 = cycle[i];
        let b: u64 = cycle[i + 1];
        proof {
            if i + 1 < c.len() {
                assert(has_edge(edges@, c[i as int], c[i + 1]));
            }
            assert(has_edge(edges@, a, b));
        }
        if let Some(out) = edges.get(&a) {
            if let Some(e) = out.get(&b) {
                r.push((a, *e));
            }
        }
        i += 1;
    }
    proof {
        assert(cycle_vertices(r@) =~= c);
        assert forall|j: int| 0 <= j < r@.len() implies (#[trigger] r@[j]).1 == edge_at(
            edges@,
            r@[j].0,
            if j + 1 < r@.len() {
                r@[j + 1].0
            } else {
                r@[0].0
            },
        ) by {
            if j + 1 < r@.len() {
                assert(r@[j + 1].0 == closed[j + 1]);
            } else {
                assert(r@[0].0 == closed[0]);
            }
        }
        let s = sccs@[best as int]@;
        assert forall|d: Seq<u64>| #[trigger] is_component(edges@, d) implies s.len() <= d.len() by {
            assert(d.contains(d[0]) && d.contains(d[1]));
            assert(mutual(edges@, d[0], d[1]));
            let j = choose|j: int| 0 <= j < sccs@.len() && (#[trigger] sccs@[j])@.contains(d[0]);
            lemma_component_len(edges@, sccs@[j]@, d, d[0]);
        }
        assert(r@[0].0 == closed[0]);
        assert(is_component(edges@, s) && s.contains(r@[0].0));
    }
    Some(r)
}

/// A graph whose edges all lead down some ranking of its vertices has no cycle.
pub proof fn law_ranked_graph_has_no_cycle<E>(
    m: Map<u64, HashMap<u64, E>>,
    rank: spec_fn(u64) -> int,
    c: Seq<u64>,
)
    requires
        forall|a: u64, b: u64| #[trigger] has_edge(m, a, b) ==> rank(a) > rank(b),
    ensures
        !is_cycle(m, c),
{
    if is_cycle(m, c) {
        lemma_rank_falls(m, rank, c, c.len() - 1);
        assert(has_edge(m, c.last(), c[0]));
    }
}

proof fn lemma_rank_falls<E>(
    m: Map<u64, HashMap<u64, E>>,
    rank: spec_fn(u64) -> int,
    p: Seq<u64>,
    n: int,
)
    requires
        forall|a: u64, b: u64| #[trigger] has_edge(m, a, b) ==> rank(a) > rank(b),
        is_path(m, p),
        0 <= n < p.len(),
    ensures
        rank(p[n]) <= rank(p[0]),
    decreases n,
{
    if n > 0 {
        lemma_rank_falls(m, rank, p, n - 1);
        assert(has_edge(m, p[n - 1], p[n - 1 + 1]));
    }
}

} // verus!
