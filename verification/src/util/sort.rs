//! Sorting of indices.

use vstd::prelude::*;

verus! {

/// A total preorder on indices.
pub trait Ranking {
    /// Whether `a` may stand before `b`.
    spec fn le(&self, a: int, b: int) -> bool;

    /// The indices that are ranked.
    spec fn ranks(&self, a: int) -> bool;

    fn is_le(&self, a: usize, b: usize) -> (r: bool)
        requires
            self.ranks(a as int),
            self.ranks(b as int),
        ensures
            r == self.le(a as int, b as int),
    ;

    proof fn lemma_total(&self, a: int, b: int)
        requires
            self.ranks(a),
            self.ranks(b),
        ensures
            self.le(a, b) || self.le(b, a),
    ;

    proof fn lemma_transitive(&self, a: int, b: int, c: int)
        requires
            self.ranks(a),
            self.ranks(b),
            self.ranks(c),
            self.le(a, b),
            self.le(b, c),
        ensures
            self.le(a, c),
    ;
}

/// Whether all elements are ranked and in order.
pub open spec fn in_order<R: Ranking>(r: &R, s: Seq<usize>) -> bool {
    &&& forall|i: int| 0 <= i < s.len() ==> r.ranks(#[trigger] s[i] as int)
    &&& forall|i: int, j: int|
        0 <= i < j < s.len() ==> r.le(#[trigger] s[i] as int, #[trigger] s[j] as int)
}

fn merge<R: Ranking>(r: &R, a: &Vec<usize>, b: &Vec<usize>) -> (out: Vec<usize>)
    requires
        in_order(r, a@),
        in_order(r, b@),
    ensures
        in_order(r, out@),
        out@.to_multiset() == (a@ + b@).to_multiset(),
{
    broadcast use vstd::seq_lib::group_to_multiset_ensures;

    let mut out: Vec<usize> = Vec::new();
    let mut i: usize = 0;
    let mut j: usize = 0;
    proof {
        assert(a@.take(0) + b@.take(0) =~= Seq::<usize>::empty());
    }
    while i < a.len() || j < b.len()
        invariant
            i <= a@.len(),
            j <= b@.len(),
            in_order(r, a@),
            in_order(r, b@),
            in_order(r, out@),
            forall|k: int|
                0 <= k < out@.len() && i < a@.len() ==> r.le(
                    #[trigger] out@[k] as int,
                    a@[i as int] as int,
                ),
            forall|k: int|
                0 <= k < out@.len() && j < b@.len() ==> r.le(
                    #[trigger] out@[k] as int,
                    b@[j as int] as int,
                ),
            out@.to_multiset() == (a@.take(i as int) + b@.take(j as int)).to_multiset(),
        decreases a@.len() - i + b@.len() - j,
    {
        broadcast use vstd::seq_lib::group_to_multiset_ensures;

        let ghost prior = out@;
        if j >= b.len() || (i < a.len() && r.is_le(a[i], b[j])) {
            let x: usize = a[i];
            out.push(x);
            proof {
                lemma_insert_left(a@.take(i as int), b@.take(j as int), x);
                assert(a@.take(i + 1) =~= a@.take(i as int).push(x));
                assert forall|k: int| 0 <= k < out@.len() && j < b@.len() implies r.le(
                    #[trigger] out@[k] as int,
                    b@[j as int] as int,
                ) by {
                    if k < prior.len() {
                        assert(out@[k] == prior[k]);
                    }
                }
                assert forall|k: int| 0 <= k < out@.len() && i + 1 < a@.len() implies r.le(
                    #[trigger] out@[k] as int,
                    a@[i + 1] as int,
                ) by {
                    if k < prior.len() {
                        assert(out@[k] == prior[k]);
                        r.lemma_transitive(out@[k] as int, x as int, a@[i + 1] as int);
                    }
                }
            }
            i += 1;
        } else {
            let x: usize = b[j];
            out.push(x);
            proof {
                assert(b@.take(j + 1) =~= b@.take(j as int).push(x));
                assert((a@.take(i as int) + b@.take(j as int)).push(x) =~= a@.take(i as int)
                    + b@.take(j + 1));
                if i < a@.len() {
                    r.lemma_total(a@[i as int] as int, x as int);
                }
                assert forall|k: int| 0 <= k < out@.len() && i < a@.len() implies r.le(
                    #[trigger] out@[k] as int,
                    a@[i as int] as int,
                ) by {
                    if k < prior.len() {
                        assert(out@[k] == prior[k]);
                    }
                }
                assert forall|k: int| 0 <= k < out@.len() && j + 1 < b@.len() implies r.le(
                    #[trigger] out@[k] as int,
                    b@[j + 1] as int,
                ) by {
                    if k < prior.len() {
                        assert(out@[k] == prior[k]);
                        r.lemma_transitive(out@[k] as int, x as int, b@[j + 1] as int);
                    }
                }
            }
            j += 1;
        }
    }
    proof {
        assert(a@.take(i as int) =~= a@);
        assert(b@.take(j as int) =~= b@);
    }
    out
}

proof fn lemma_insert_left(a: Seq<usize>, b: Seq<usize>, x: usize)
    ensures
        (a.push(x) + b).to_multiset() == (a + b).to_multiset().insert(x),
{
    broadcast use vstd::seq_lib::group_to_multiset_ensures;

    let whole = a.push(x) + b;
    assert(whole.remove(a.len() as int) =~= a + b);
    assert(whole[a.len() as int] == x);
    assert(whole.contains(x));
    assert(whole.to_multiset().remove(x).insert(x) =~= whole.to_multiset());
}

/// The indices below `n` from `from` on, as the ranking orders them.
fn sort_from<R: Ranking>(r: &R, from: usize, n: usize) -> (out: Vec<usize>)
    requires
        from <= n,
        forall|i: int| from <= i < n ==> #[trigger] r.ranks(i),
    ensures
        in_order(r, out@),
        out@.to_multiset() == Seq::new((n - from) as nat, |i: int| (from + i) as usize).to_multiset(),
    decreases n - from,
{
    if n - from == 0 {
        let out: Vec<usize> = Vec::new();
        assert(out@ =~= Seq::new(0, |i: int| (from + i) as usize));
        out
    } else if n - from == 1 {
        let out: Vec<usize> = vec![from];
        assert(out@ =~= Seq::new(1, |i: int| (from + i) as usize));
        out
    } else {
        let mid: usize = from + (n - from) / 2;
        let a = sort_from(r, from, mid);
        let b = sort_from(r, mid, n);
        proof {
            let x = Seq::new((mid - from) as nat, |i: int| (from + i) as usize);
            let y = Seq::new((n - mid) as nat, |i: int| (mid + i) as usize);
            assert(Seq::new((n - from) as nat, |i: int| (from + i) as usize) =~= x + y);
            vstd::seq_lib::lemma_multiset_commutative(x, y);
            vstd::seq_lib::lemma_multiset_commutative(a@, b@);
        }
        merge(r, &a, &b)
    }
}

/// Whether every index below `n` occurs exactly once.
pub open spec fn permutation(s: Seq<usize>, n: nat) -> bool {
    &&& s.len() == n
    &&& s.no_duplicates()
    &&& forall|i: int| 0 <= i < s.len() ==> (#[trigger] s[i]) < n
    &&& forall|i: usize| i < n ==> #[trigger] s.contains(i)
}

/// The indices below `n`, as the ranking orders them.
pub fn sort_indices<R: Ranking>(r: &R, n: usize) -> (out: Vec<usize>)
    requires
        forall|i: int| 0 <= i < n ==> #[trigger] r.ranks(i),
    ensures
        in_order(r, out@),
        permutation(out@, n as nat),
{
    let out = sort_from(r, 0, n);
    proof {
        broadcast use vstd::seq_lib::group_to_multiset_ensures;

        let id = Seq::new(n as nat, |i: int| (0 + i) as usize);
        assert(out@.len() == out@.to_multiset().len());
        assert(id.len() == id.to_multiset().len());
        assert(id.no_duplicates());
        id.lemma_multiset_has_no_duplicates();
        out@.lemma_multiset_has_no_duplicates_conv();
        assert forall|i: int| 0 <= i < out@.len() implies (#[trigger] out@[i]) < n by {
            assert(out@.contains(out@[i]));
            assert(id.to_multiset().count(out@[i]) > 0);
            assert(id.contains(out@[i]));
        }
        assert forall|i: usize| i < n implies #[trigger] out@.contains(i) by {
            assert(id[i as int] == i);
            assert(id.contains(i));
            assert(out@.to_multiset().count(i) > 0);
        }
    }
    out
}

/// Whether indices stand in a strict order.
pub open spec fn strictly_sorted(lt: spec_fn(usize, usize) -> bool, s: Seq<usize>) -> bool {
    forall|i: int, j: int| 0 <= i < j < s.len() ==> lt(#[trigger] s[i], #[trigger] s[j])
}

/// There is one way to put indices in a strict order.
pub proof fn law_sorted_unique(
    lt: spec_fn(usize, usize) -> bool,
    p: Seq<usize>,
    q: Seq<usize>,
    n: nat,
)
    requires
        permutation(p, n),
        permutation(q, n),
        strictly_sorted(lt, p),
        strictly_sorted(lt, q),
        forall|a: usize, b: usize| #[trigger] lt(a, b) ==> !lt(b, a),
    ensures
        p == q,
{
    lemma_sorted_prefix(lt, p, q, n, n as int);
    assert(p =~= q);
}

proof fn lemma_sorted_prefix(
    lt: spec_fn(usize, usize) -> bool,
    p: Seq<usize>,
    q: Seq<usize>,
    n: nat,
    k: int,
)
    requires
        permutation(p, n),
        permutation(q, n),
        strictly_sorted(lt, p),
        strictly_sorted(lt, q),
        forall|a: usize, b: usize| #[trigger] lt(a, b) ==> !lt(b, a),
        0 <= k <= n,
    ensures
        forall|i: int| 0 <= i < k ==> p[i] == q[i],
    decreases k,
{
    if k > 0 {
        let m = k - 1;
        lemma_sorted_prefix(lt, p, q, n, m);
        if p[m] != q[m] {
            assert(q.contains(p[m]));
            let j = choose|j: int| 0 <= j < q.len() && q[j] == p[m];
            if j < m {
                assert(p[j] == p[m]);
            }
            assert(lt(q[m], q[j]));
            assert(p.contains(q[m]));
            let i = choose|i: int| 0 <= i < p.len() && p[i] == q[m];
            if i < m {
                assert(q[i] == q[m]);
            }
            assert(lt(p[m], p[i]));
        }
    }
}

} // verus!
