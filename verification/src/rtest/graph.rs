//! Directed graphs with labelled edges.

use std::collections::HashMap;

use vstd::prelude::*;

verus! {

/// Edges between vertices: for each vertex, where its edges lead, with their labels.
pub type Edges<E> = HashMap<u64, HashMap<u64, E>>;

/// Whether there is an edge.
pub open spec fn has_edge<E>(m: Map<u64, HashMap<u64, E>>, src: u64, dst: u64) -> bool {
    m.contains_key(src) && m[src]@.contains_key(dst)
}

/// The label of an edge.
pub open spec fn edge_at<E>(m: Map<u64, HashMap<u64, E>>, src: u64, dst: u64) -> E {
    m[src]@[dst]
}

/// How many edges a vertex has.
pub open spec fn out_degree<E>(m: Map<u64, HashMap<u64, E>>, v: u64) -> nat {
    if m.contains_key(v) {
        m[v]@.dom().len()
    } else {
        0
    }
}

/// How many edges some vertices have together.
pub open spec fn out_degrees<E>(m: Map<u64, HashMap<u64, E>>, vs: Seq<u64>) -> nat
    decreases vs.len(),
{
    if vs.len() == 0 {
        0
    } else {
        out_degrees(m, vs.drop_last()) + out_degree(m, vs.last())
    }
}

/// The labels of all edges.
pub open spec fn labels<E>(m: Map<u64, HashMap<u64, E>>) -> Map<(u64, u64), E> {
    Map::new(|p: (u64, u64)| has_edge(m, p.0, p.1), |p: (u64, u64)| edge_at(m, p.0, p.1))
}

/// Whether an edge leads from every vertex that is there.
pub open spec fn all_lead_on<E>(m: Map<u64, HashMap<u64, E>>) -> bool {
    forall|v: u64| #[trigger] m.contains_key(v) ==> exists|dst: u64| has_edge(m, v, dst)
}

/// Puts an edge in place of the one that was there, and gives back that one's label.
pub fn put_edge<E>(edges: &mut Edges<E>, src: u64, edge: E, dst: u64) -> (r: Option<E>)
    ensures
        labels(final(edges)@) == labels(old(edges)@).insert((src, dst), edge),
        final(edges)@.dom() == old(edges)@.dom().insert(src),
        r is Some <==> has_edge(old(edges)@, src, dst),
        r matches Some(e) ==> e == edge_at(old(edges)@, src, dst),
        all_lead_on(old(edges)@) ==> all_lead_on(final(edges)@),
{
    let ghost before = edges@;
    let mut out = match edges.remove(&src) {
        Some(out) => out,
        None => HashMap::new(),
    };
    let r = out.insert(dst, edge);
    let ghost now = out@;
    edges.insert(src, out);
    proof {
        assert(edges@[src]@ == now);
        assert(labels(edges@) =~= labels(before).insert((src, dst), edge));
        assert(edges@.dom() =~= before.dom().insert(src));
        if all_lead_on(before) {
            assert forall|v: u64| #[trigger] edges@.contains_key(v) implies exists|d: u64|
                has_edge(edges@, v, d) by {
                if v == src {
                    assert(has_edge(edges@, v, dst));
                } else {
                    let d = choose|d: u64| has_edge(before, v, d);
                    assert(has_edge(edges@, v, d));
                }
            }
        }
    }
    r
}

/// The keys of a map, in no particular order.
pub fn keys_of<V>(m: &HashMap<u64, V>) -> (r: Vec<u64>)
    ensures
        r@.no_duplicates(),
        r@.len() == m@.dom().len(),
        forall|k: u64| #[trigger] r@.contains(k) <==> m@.contains_key(k),
{
    let mut r: Vec<u64> = Vec::new();
    for k in it: m.keys()
        invariant
            r@ == it.seq().unref().take(it.index() as int),
            it.seq().unref().no_duplicates(),
            it.seq().unref().to_set() == m@.dom(),
            it.seq().len() == m@.dom().len(),
            it.index() == it.seq().len() ==> r@ == it.seq().unref(),
            it.index() == it.seq().len() ==> r@.no_duplicates() && r@.to_set() == m@.dom()
                && r@.len() == m@.dom().len(),
    {
        r.push(*k);
        assert(r@ =~= it.seq().unref().take(it.index() + 1));
        assert(it.index() + 1 == it.seq().len() ==> r@ =~= it.seq().unref());
    }
    proof {
        assert forall|k: u64| #[trigger] r@.contains(k) <==> m@.contains_key(k) by {
            assert(r@.to_set().contains(k) == m@.dom().contains(k));
        }
    }
    r
}

/// What an insert of an edge does to a graph.
pub open spec fn inserted<E>(a: Graph<E>, item: (u64, E, u64), b: Graph<E>) -> bool {
    let (src, edge, dst) = item;
    &&& b.edges@.dom() == a.edges@.dom().insert(src).insert(dst)
    &&& labels(b.edges@) == labels(a.edges@).insert((src, dst), edge)
}

/// An insert puts one edge in place of what was there between the two vertices in that direction,
/// leaves every other edge as it was, and adds no vertices but those two.
pub proof fn law_insert_puts_one_edge<E>(
    a: Graph<E>,
    item: (u64, E, u64),
    b: Graph<E>,
    src: u64,
    dst: u64,
)
    requires
        inserted(a, item, b),
    ensures
        has_edge(b.edges@, item.0, item.2) && edge_at(b.edges@, item.0, item.2) == item.1,
        (src, dst) != (item.0, item.2) ==> has_edge(b.edges@, src, dst) == has_edge(
            a.edges@,
            src,
            dst,
        ),
        (src, dst) != (item.0, item.2) && has_edge(a.edges@, src, dst) ==> edge_at(
            b.edges@,
            src,
            dst,
        ) == edge_at(a.edges@, src, dst),
        b.edges@.contains_key(src) == (a.edges@.contains_key(src) || src == item.0 || src
            == item.2),
{
    assert(labels(b.edges@).contains_key((item.0, item.2)));
    assert(labels(b.edges@)[(item.0, item.2)] == item.1);
    assert(labels(b.edges@).contains_key((src, dst)) == has_edge(b.edges@, src, dst));
    assert(labels(a.edges@).contains_key((src, dst)) == has_edge(a.edges@, src, dst));
    if has_edge(a.edges@, src, dst) {
        assert(labels(a.edges@)[(src, dst)] == edge_at(a.edges@, src, dst));
    }
    if has_edge(b.edges@, src, dst) {
        assert(labels(b.edges@)[(src, dst)] == edge_at(b.edges@, src, dst));
    }
    assert(b.edges@.dom().contains(src) == b.edges@.contains_key(src));
    assert(a.edges@.dom().contains(src) == a.edges@.contains_key(src));
}

/// Whether a vertex is an end of one of some edges.
pub open spec fn is_end<E>(items: Seq<(u64, E, u64)>, v: u64) -> bool {
    exists|i: int| 0 <= i < items.len() && ((#[trigger] items[i]).0 == v || items[i].2 == v)
}

/// After any inserts into an empty graph, the vertices are exactly the ends of the edges that were
/// inserted.
pub proof fn law_vertices_are_the_ends<E>(
    states: Seq<Graph<E>>,
    items: Seq<(u64, E, u64)>,
    n: int,
    v: u64,
)
    requires
        states.len() == items.len() + 1,
        states[0].edges@ == Map::<u64, HashMap<u64, E>>::empty(),
        forall|i: int|
            0 <= i < items.len() ==> inserted(#[trigger] states[i], items[i], states[i + 1]),
        0 <= n < states.len(),
    ensures
        states[n].edges@.contains_key(v) == is_end(items.take(n), v),
        states[n].edges@.dom().finite(),
    decreases n,
{
    if n > 0 {
        law_vertices_are_the_ends(states, items, n - 1, v);
        assert(inserted(states[n - 1], items[n - 1], states[n]));
        law_insert_puts_one_edge(states[n - 1], items[n - 1], states[n], v, v);
        let (before, after) = (items.take(n - 1), items.take(n));
        assert(after[n - 1] == items[n - 1]);
        if is_end(before, v) {
            let i = choose|i: int|
                0 <= i < before.len() && ((#[trigger] before[i]).0 == v || before[i].2 == v);
            assert(after[i] == before[i]);
        }
        if is_end(after, v) {
            let i = choose|i: int|
                0 <= i < after.len() && ((#[trigger] after[i]).0 == v || after[i].2 == v);
            if i < n - 1 {
                assert(before[i] == after[i]);
            }
        }
    }
}

proof fn lemma_edges_of(v: u64, to: Set<u64>)
    requires
        to.finite(),
    ensures
        Set::new(|p: (u64, u64)| p.0 == v && to.contains(p.1)).finite(),
        Set::new(|p: (u64, u64)| p.0 == v && to.contains(p.1)).len() == to.len(),
    decreases to.len(),
{
    let all = Set::new(|p: (u64, u64)| p.0 == v && to.contains(p.1));
    if to.len() == 0 {
        assert(to =~= Set::empty());
        assert(all =~= Set::empty());
    } else {
        let d = to.choose();
        let rest = to.remove(d);
        lemma_edges_of(v, rest);
        let some = Set::new(|p: (u64, u64)| p.0 == v && rest.contains(p.1));
        assert(all =~= some.insert((v, d)));
    }
}

proof fn lemma_edges_of_some<E>(m: Map<u64, HashMap<u64, E>>, vs: Seq<u64>)
    requires
        vs.no_duplicates(),
        forall|v: u64| #[trigger] m.contains_key(v) ==> m[v]@.dom().finite(),
    ensures
        Set::new(|p: (u64, u64)| vs.contains(p.0) && has_edge(m, p.0, p.1)).finite(),
        Set::new(|p: (u64, u64)| vs.contains(p.0) && has_edge(m, p.0, p.1)).len() == out_degrees(
            m,
            vs,
        ),
    decreases vs.len(),
{
    let all = Set::new(|p: (u64, u64)| vs.contains(p.0) && has_edge(m, p.0, p.1));
    if vs.len() == 0 {
        assert(all =~= Set::empty());
    } else {
        let (rest, v) = (vs.drop_last(), vs.last());
        lemma_edges_of_some(m, rest);
        let some = Set::new(|p: (u64, u64)| rest.contains(p.0) && has_edge(m, p.0, p.1));
        let to = if m.contains_key(v) {
            m[v]@.dom()
        } else {
            Set::empty()
        };
        lemma_edges_of(v, to);
        let new = Set::new(|p: (u64, u64)| p.0 == v && to.contains(p.1));
        assert forall|u: u64| vs.contains(u) <==> #[trigger] rest.contains(u) || u == v by {
            if rest.contains(u) {
                let i = choose|i: int| 0 <= i < rest.len() && rest[i] == u;
                assert(vs[i] == u);
            }
            if u == v {
                assert(vs[vs.len() - 1] == u);
            }
            if vs.contains(u) && u != v {
                let i = choose|i: int| 0 <= i < vs.len() && vs[i] == u;
                assert(rest[i] == u);
            }
        }
        assert(!rest.contains(v)) by {
            if rest.contains(v) {
                let i = choose|i: int| 0 <= i < rest.len() && rest[i] == v;
                assert(vs[i] == vs[vs.len() - 1]);
            }
        }
        assert(all =~= some.union(new));
        assert(some.disjoint(new));
        vstd::set_lib::lemma_set_disjoint_lens(some, new);
    }
}

/// The edges of all vertices together are the edges of the graph.
pub proof fn law_degrees_count_edges<E>(g: Graph<E>, vs: Seq<u64>)
    requires
        g.wf(),
        vs.no_duplicates(),
        forall|v: u64| #[trigger] vs.contains(v) <==> g.edges@.contains_key(v),
    ensures
        out_degrees(g.edges@, vs) == g.num_edges,
{
    let m = g.edges@;
    let all = labels(m).dom();
    assert forall|v: u64| #[trigger] m.contains_key(v) implies m[v]@.dom().finite() by {
        let mine = all.filter(|p: (u64, u64)| p.0 == v);
        let to = |p: (u64, u64)| p.1;
        assert(m[v]@.dom() =~= mine.map(to)) by {
            assert forall|d: u64| m[v]@.dom().contains(d) implies #[trigger] mine.map(to).contains(
                d,
            ) by {
                assert(has_edge(m, v, d));
                assert(mine.contains((v, d)) && to((v, d)) == d);
            }
        }
        mine.lemma_map_finite(to);
    }
    lemma_edges_of_some(m, vs);
    assert(all =~= Set::new(|p: (u64, u64)| vs.contains(p.0) && has_edge(m, p.0, p.1)));
}

/// A directed graph with at most one edge from one vertex to another.
pub struct Graph<E> {
    pub edges: Edges<E>,
    pub num_edges: usize,
}

impl<E> Graph<E> {
    /// Every edge leads to a vertex of the graph, and the edges are counted.
    pub open spec fn wf(self) -> bool {
        &&& labels(self.edges@).dom().finite()
        &&& self.num_edges == labels(self.edges@).dom().len()
        &&& forall|a: u64, b: u64| #[trigger]
            has_edge(self.edges@, a, b) ==> self.edges@.contains_key(b)
    }

    pub fn new() -> (r: Self)
        ensures
            r.wf(),
            r.edges@ == Map::<u64, HashMap<u64, E>>::empty(),
    {
        let r = Graph { edges: HashMap::new(), num_edges: 0 };
        assert(labels(r.edges@).dom() =~= Set::empty());
        r
    }

    /// Inserts or replaces the edge between src and dst with the given edge.
    pub fn insert(&mut self, src: u64, edge: E, dst: u64)
        requires
            old(self).wf(),
            old(self).num_edges < usize::MAX,
        ensures
            final(self).wf(),
            final(self).edges@.dom() == old(self).edges@.dom().insert(src).insert(dst),
            labels(final(self).edges@) == labels(old(self).edges@).insert((src, dst), edge),
            inserted(*old(self), (src, edge, dst), *final(self)),
    {
        let ghost before = self.edges@;
        if !self.edges.contains_key(&dst) {
            self.edges.insert(dst, HashMap::new());
        }
        assert(labels(self.edges@) =~= labels(before));
        let ghost mid = self.edges@;
        let prior = put_edge(&mut self.edges, src, edge, dst);
        let inserted = prior.is_none();
        proof {
            let s = labels(before).dom();
            assert(labels(self.edges@).dom() =~= s.insert((src, dst)));
            assert(labels(mid).dom() =~= s);
            assert(s.contains((src, dst)) == has_edge(mid, src, dst));
            assert forall|a: u64, b: u64| #[trigger]
                has_edge(self.edges@, a, b) implies self.edges@.contains_key(b) by {
                assert(labels(self.edges@).contains_key((a, b)));
                if (a, b) != (src, dst) {
                    assert(labels(before).contains_key((a, b)));
                    assert(has_edge(before, a, b));
                }
            }
            assert(self.edges@.dom() =~= before.dom().insert(src).insert(dst));
        }
        if inserted {
            self.num_edges += 1;
        }
    }

    /// The label of the edge from one vertex to another.
    pub fn edge(&self, src: &u64, dst: &u64) -> (r: Option<&E>)
        ensures
            r == if has_edge(self.edges@, *src, *dst) {
                Some(&edge_at(self.edges@, *src, *dst))
            } else {
                None
            },
    {
        match self.edges.get(src) {
            Some(out) => out.get(dst),
            None => None,
        }
    }

    /// Where the edges of a vertex lead, with their labels, in no particular order.
    pub fn out_edges<'a>(&'a self, src: &u64) -> (r: Vec<(u64, &'a E)>)
        ensures
            forall|i: int, j: int|
                0 <= i < j < r@.len() ==> (#[trigger] r@[i]).0 != (#[trigger] r@[j]).0,
            forall|i: int|
                0 <= i < r@.len() ==> has_edge(self.edges@, *src, (#[trigger] r@[i]).0) && *r@[i].1
                    == edge_at(self.edges@, *src, r@[i].0),
            forall|dst: u64| #[trigger]
                has_edge(self.edges@, *src, dst) ==> exists|i: int|
                    0 <= i < r@.len() && (#[trigger] r@[i]).0 == dst,
            r@.len() == out_degree(self.edges@, *src),
    {
        let mut r: Vec<(u64, &'a E)> = Vec::new();
        if let Some(out) = self.edges.get(src) {
            let keys = keys_of(out);
            let mut i: usize = 0;
            while i < keys.len()
                invariant
                    i <= keys@.len(),
                    keys@.no_duplicates(),
                    keys@.len() == out@.dom().len(),
                    forall|k: u64| #[trigger] keys@.contains(k) <==> out@.contains_key(k),
                    self.edges@.contains_key(*src),
                    out@ == self.edges@[*src]@,
                    r@.len() == i,
                    forall|j: int|
                        0 <= j < i ==> (#[trigger] r@[j]).0 == keys@[j] && has_edge(
                            self.edges@,
                            *src,
                            keys@[j],
                        ) && *r@[j].1 == edge_at(self.edges@, *src, keys@[j]),
                decreases keys@.len() - i,
            {
                let k: u64 = keys[i];
                assert(keys@.contains(k));
                if let Some(e) = out.get(&k) {
                    r.push((k, e));
                }
                i += 1;
            }
            proof {
                assert forall|dst: u64| #[trigger]
                    has_edge(self.edges@, *src, dst) implies exists|j: int|
                    0 <= j < r@.len() && (#[trigger] r@[j]).0 == dst by {
                    assert(keys@.contains(dst));
                    let j = choose|j: int| 0 <= j < keys@.len() && keys@[j] == dst;
                    assert(r@[j].0 == dst);
                }
            }
        }
        r
    }

    /// The vertices, in no particular order.
    pub fn vertices(&self) -> (r: Vec<u64>)
        ensures
            r@.no_duplicates(),
            r@.len() == self.edges@.dom().len(),
            forall|v: u64| #[trigger] r@.contains(v) <==> self.edges@.contains_key(v),
    {
        keys_of(&self.edges)
    }

    pub fn num_vertices(&self) -> (r: usize)
        ensures
            r == self.edges@.dom().len(),
    {
        self.edges.len()
    }

    pub fn num_edges(&self) -> (r: usize)
        requires
            self.wf(),
        ensures
            r == labels(self.edges@).dom().len(),
    {
        self.num_edges
    }
}

} // verus!
