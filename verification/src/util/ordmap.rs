//! Maps with ordered keys.

use vstd::prelude::*;

verus! {

/// A key with a strict total order.
pub trait OrdKey: View + Sized {
    /// Whether `a` comes before `b`.
    spec fn precedes(a: Self::V, b: Self::V) -> bool;

    fn is_before(&self, other: &Self) -> (r: bool)
        ensures
            r == Self::precedes(self@, other@),
    ;

    proof fn lemma_irreflexive(a: Self::V)
        ensures
            !Self::precedes(a, a),
    ;

    proof fn lemma_transitive(a: Self::V, b: Self::V, c: Self::V)
        requires
            Self::precedes(a, b),
            Self::precedes(b, c),
        ensures
            Self::precedes(a, c),
    ;

    proof fn lemma_total(a: Self::V, b: Self::V)
        ensures
            Self::precedes(a, b) || a == b || Self::precedes(b, a),
    ;
}

/// Whether keys are strictly ascending.
pub open spec fn ascending<K: OrdKey>(s: Seq<K::V>) -> bool {
    forall|i: int, j: int| 0 <= i < j < s.len() ==> K::precedes(#[trigger] s[i], #[trigger] s[j])
}

/// Of two keys of an ascending sequence, the one that stands first precedes the other.
pub proof fn lemma_ascending<K: OrdKey>(s: Seq<K::V>, i: int, j: int)
    requires
        ascending::<K>(s),
        0 <= i < j < s.len(),
    ensures
        K::precedes(s[i], s[j]),
{
}

/// A map whose entries stand in the order of their keys.
#[derive(Debug, PartialEq, Eq)]
pub struct OrdMap<K: OrdKey, V> {
    pub entries: Vec<(K, V)>,
}

impl<K: OrdKey, V> View for OrdMap<K, V> {
    type V = Map<K::V, V>;

    open spec fn view(&self) -> Map<K::V, V> {
        Map::new(
            |k: K::V| self.keys().contains(k),
            |k: K::V| self.entries@[self.keys().index_of(k)].1,
        )
    }
}

impl<K: OrdKey, V> OrdMap<K, V> {
    /// The keys, in order.
    pub open spec fn keys(self) -> Seq<K::V> {
        Seq::new(self.entries@.len(), |i: int| self.entries@[i].0@)
    }

    /// No two entries share a key, and they stand in order.
    pub open spec fn wf(self) -> bool {
        ascending::<K>(self.keys())
    }

    pub proof fn lemma_entry(self, i: int)
        requires
            self.wf(),
            0 <= i < self.entries@.len(),
        ensures
            self@.contains_key(self.entries@[i].0@),
            self@[self.entries@[i].0@] == self.entries@[i].1,
    {
        let k = self.entries@[i].0@;
        assert(self.keys()[i] == k);
        let j = self.keys().index_of(k);
        assert(self.keys()[j] == k);
        K::lemma_irreflexive(k);
    }

    pub proof fn lemma_key(self, k: K::V)
        requires
            self.wf(),
            self@.contains_key(k),
        ensures
            exists|i: int| 0 <= i < self.entries@.len() && (#[trigger] self.entries@[i]).0@ == k,
    {
        let i = self.keys().index_of(k);
        assert(self.entries@[i].0@ == k);
    }

    pub fn new() -> (r: Self)
        ensures
            r.wf(),
            r@ == Map::<K::V, V>::empty(),
            r.entries@.len() == 0,
    {
        let r = OrdMap { entries: Vec::new() };
        assert(r@ =~= Map::<K::V, V>::empty());
        r
    }

    pub fn len(&self) -> (r: usize)
        ensures
            r == self.entries@.len(),
    {
        self.entries.len()
    }

    pub fn is_empty(&self) -> (r: bool)
        requires
            self.wf(),
        ensures
            r == (self@ == Map::<K::V, V>::empty()),
    {
        proof {
            if self.entries@.len() > 0 {
                self.lemma_entry(0);
            } else {
                assert(self@ =~= Map::<K::V, V>::empty());
            }
        }
        self.entries.len() == 0
    }

    /// Where a key stands, or would stand.
    fn position(&self, k: &K) -> (r: (bool, usize))
        requires
            self.wf(),
        ensures
            r.1 <= self.entries@.len(),
            forall|i: int| 0 <= i < r.1 ==> K::precedes((#[trigger] self.entries@[i]).0@, k@),
            r.0 ==> r.1 < self.entries@.len() && self.entries@[r.1 as int].0@ == k@,
            !r.0 ==> forall|i: int|
                r.1 <= i < self.entries@.len() ==> K::precedes(k@, (#[trigger] self.entries@[i]).0@),
            r.0 == self@.contains_key(k@),
    {
        let mut lo: usize = 0;
        let mut hi: usize = self.entries.len();
        while lo < hi
            invariant
                lo <= hi <= self.entries@.len(),
                self.wf(),
                forall|i: int| 0 <= i < lo ==> K::precedes((#[trigger] self.entries@[i]).0@, k@),
                forall|i: int|
                    hi <= i < self.entries@.len() ==> !K::precedes(
                        (#[trigger] self.entries@[i]).0@,
                        k@,
                    ),
            decreases hi - lo,
        {
            let mid: usize = lo + (hi - lo) / 2;
            if self.entries[mid].0.is_before(k) {
                proof {
                    assert forall|i: int| 0 <= i < mid + 1 implies K::precedes(
                        (#[trigger] self.entries@[i]).0@,
                        k@,
                    ) by {
                        if i < mid {
                            assert(K::precedes(self.keys()[i], self.keys()[mid as int]));
                            K::lemma_transitive(
                                self.entries@[i].0@,
                                self.entries@[mid as int].0@,
                                k@,
                            );
                        }
                    }
                }
                lo = mid + 1;
            } else {
                proof {
                    assert forall|i: int| mid <= i < self.entries@.len() implies !K::precedes(
                        (#[trigger] self.entries@[i]).0@,
                        k@,
                    ) by {
                        if mid < i && K::precedes(self.entries@[i].0@, k@) {
                            assert(K::precedes(self.keys()[mid as int], self.keys()[i]));
                            K::lemma_transitive(
                                self.entries@[mid as int].0@,
                                self.entries@[i].0@,
                                k@,
                            );
                        }
                    }
                }
                hi = mid;
            }
        }
        let found = lo < self.entries.len() && !k.is_before(&self.entries[lo].0);
        proof {
            if found {
                K::lemma_total(self.entries@[lo as int].0@, k@);
                self.lemma_entry(lo as int);
            } else {
                assert forall|i: int| lo <= i < self.entries@.len() implies K::precedes(
                    k@,
                    (#[trigger] self.entries@[i]).0@,
                ) by {
                    if lo < i {
                        assert(K::precedes(self.keys()[lo as int], self.keys()[i]));
                        K::lemma_transitive(k@, self.entries@[lo as int].0@, self.entries@[i].0@);
                    }
                }
                if self@.contains_key(k@) {
                    self.lemma_key(k@);
                    let i = choose|i: int|
                        0 <= i < self.entries@.len() && (#[trigger] self.entries@[i]).0@ == k@;
                    K::lemma_irreflexive(k@);
                    assert(false);
                }
            }
        }
        (found, lo)
    }

    pub fn contains_key(&self, k: &K) -> (r: bool)
        requires
            self.wf(),
        ensures
            r == self@.contains_key(k@),
    {
        self.position(k).0
    }

    pub fn get(&self, k: &K) -> (r: Option<&V>)
        requires
            self.wf(),
        ensures
            r == if self@.contains_key(k@) {
                Some(&self@[k@])
            } else {
                None
            },
    {
        let (found, i) = self.position(k);
        if found {
            proof {
                self.lemma_entry(i as int);
            }
            Some(&self.entries[i].1)
        } else {
            None
        }
    }

    /// Puts a value, in place of the one that was there.
    pub fn insert(&mut self, k: K, v: V) -> (r: Option<V>)
        requires
            old(self).wf(),
        ensures
            final(self).wf(),
            final(self)@ == old(self)@.insert(k@, v),
            r == if old(self)@.contains_key(k@) {
                Some(old(self)@[k@])
            } else {
                None
            },
    {
        let (found, i) = self.position(&k);
        let ghost prior = *self;
        let ghost kv = k@;
        if found {
            let (_, old_value) = self.entries.remove(i);
            self.entries.insert(i, (k, v));
            proof {
                prior.lemma_entry(i as int);
                assert(self.entries@ =~= prior.entries@.update(i as int, (k, v)));
                assert(self.keys() =~= prior.keys());
                lemma_same_shape(prior, *self, i as int);
            }
            Some(old_value)
        } else {
            self.entries.insert(i, (k, v));
            proof {
                assert(self.entries@ =~= prior.entries@.insert(i as int, (k, v)));
                lemma_inserted(prior, *self, i as int);
            }
            None
        }
    }

    pub fn remove(&mut self, k: &K) -> (r: Option<V>)
        requires
            old(self).wf(),
        ensures
            final(self).wf(),
            final(self)@ == old(self)@.remove(k@),
            r == if old(self)@.contains_key(k@) {
                Some(old(self)@[k@])
            } else {
                None
            },
            old(self)@.contains_key(k@) ==> final(self).entries@.len() == old(self).entries@.len()
                - 1,
    {
        let (found, i) = self.position(k);
        let ghost prior = *self;
        if found {
            let (_, old_value) = self.entries.remove(i);
            proof {
                prior.lemma_entry(i as int);
                assert(self.entries@ =~= prior.entries@.remove(i as int));
                assert(prior.entries@ =~= self.entries@.insert(i as int, prior.entries@[i as int]));
                assert(ascending::<K>(self.keys())) by {
                    assert forall|a: int, b: int| 0 <= a < b < self.keys().len() implies K::precedes(
                        #[trigger] self.keys()[a],
                        #[trigger] self.keys()[b],
                    ) by {
                        let a2 = if a < i {
                            a
                        } else {
                            a + 1
                        };
                        let b2 = if b < i {
                            b
                        } else {
                            b + 1
                        };
                        assert(K::precedes(prior.keys()[a2], prior.keys()[b2]));
                    }
                }
                lemma_removed(prior, *self, i as int);
            }
            Some(old_value)
        } else {
            assert(self@ =~= prior@.remove(k@));
            None
        }
    }
}

proof fn lemma_same_shape<K: OrdKey, V>(a: OrdMap<K, V>, b: OrdMap<K, V>, i: int)
    requires
        a.wf(),
        0 <= i < a.entries@.len(),
        b.keys() == a.keys(),
        b.entries@ == a.entries@.update(i, b.entries@[i]),
    ensures
        b.wf(),
        b@ == a@.insert(b.entries@[i].0@, b.entries@[i].1),
{
    let k = b.entries@[i].0@;
    assert(b.keys()[i] == k);
    a.lemma_entry(i);
    b.lemma_entry(i);
    assert(b@.dom() =~= a@.insert(k, b.entries@[i].1).dom());
    assert forall|x: K::V| #[trigger] b@.contains_key(x) implies b@[x] == a@.insert(
        k,
        b.entries@[i].1,
    )[x] by {
        if x != k {
            let j = b.keys().index_of(x);
            assert(b.keys()[j] == x);
            assert(j != i);
        }
    }
    assert(b@ =~= a@.insert(k, b.entries@[i].1));
}

proof fn lemma_inserted<K: OrdKey, V>(a: OrdMap<K, V>, b: OrdMap<K, V>, i: int)
    requires
        a.wf(),
        0 <= i <= a.entries@.len(),
        b.entries@ == a.entries@.insert(i, b.entries@[i]),
        forall|j: int|
            0 <= j < i ==> K::precedes((#[trigger] a.entries@[j]).0@, b.entries@[i].0@),
        forall|j: int|
            i <= j < a.entries@.len() ==> K::precedes(b.entries@[i].0@, (#[trigger] a.entries@[j]).0@),
    ensures
        b.wf(),
        b@ == a@.insert(b.entries@[i].0@, b.entries@[i].1),
        !a@.contains_key(b.entries@[i].0@),
{
    let k = b.entries@[i].0@;
    assert forall|x: int, y: int| 0 <= x < y < b.keys().len() implies K::precedes(
        #[trigger] b.keys()[x],
        #[trigger] b.keys()[y],
    ) by {
        let x2 = if x < i {
            x
        } else {
            x - 1
        };
        let y2 = if y < i {
            y
        } else {
            y - 1
        };
        if x != i {
            assert(b.entries@[x] == a.entries@[x2]);
        }
        if y != i {
            assert(b.entries@[y] == a.entries@[y2]);
        }
        if x != i && y != i {
            assert(K::precedes(a.keys()[x2], a.keys()[y2]));
        }
    }
    lemma_removed(b, a, i);
    b.lemma_entry(i);
    assert(b@ =~= a@.insert(k, b.entries@[i].1));
}

proof fn lemma_removed<K: OrdKey, V>(a: OrdMap<K, V>, b: OrdMap<K, V>, i: int)
    requires
        a.wf(),
        b.wf(),
        0 <= i < a.entries@.len(),
        b.entries@.len() == a.entries@.len() - 1,
        a.entries@ == b.entries@.insert(i, a.entries@[i]),
    ensures
        b@ == a@.remove(a.entries@[i].0@),
{
    let k = a.entries@[i].0@;
    K::lemma_irreflexive(k);
    assert(a.keys()[i] == k);
    assert forall|x: K::V| #[trigger] b@.contains_key(x) implies a@.contains_key(x) && x != k
        && a@[x] == b@[x] by {
        b.lemma_key(x);
        let j = choose|j: int| 0 <= j < b.entries@.len() && (#[trigger] b.entries@[j]).0@ == x;
        let j2 = if j < i {
            j
        } else {
            j + 1
        };
        assert(a.entries@[j2] == b.entries@[j]);
        assert(a.keys()[j2] == x);
        a.lemma_entry(j2);
        b.lemma_entry(j);
        if x == k {
            if j2 < i {
                assert(K::precedes(a.keys()[j2], a.keys()[i]));
            } else {
                assert(K::precedes(a.keys()[i], a.keys()[j2]));
            }
        }
    }
    assert forall|x: K::V| #[trigger] a@.contains_key(x) && x != k implies b@.contains_key(x) by {
        a.lemma_key(x);
        let j = choose|j: int| 0 <= j < a.entries@.len() && (#[trigger] a.entries@[j]).0@ == x;
        let j2 = if j < i {
            j
        } else {
            j - 1
        };
        assert(j != i);
        assert(a.entries@[j] == b.entries@[j2]);
        b.lemma_entry(j2);
    }
    assert(b@ =~= a@.remove(k));
}

/// Strictly ascending sequences with the same elements are the same.
pub proof fn law_ascending_unique<K: OrdKey>(a: Seq<K::V>, b: Seq<K::V>)
    requires
        ascending::<K>(a),
        ascending::<K>(b),
        forall|x: K::V| a.contains(x) <==> #[trigger] b.contains(x),
    ensures
        a == b,
    decreases a.len(),
{
    if a.len() == 0 {
        if b.len() > 0 {
            assert(b.contains(b[0]));
            assert(a.contains(b[0]));
        }
        assert(a =~= b);
    } else {
        let x = a.last();
        assert(a[a.len() - 1] == x && a.contains(x));
        assert(b.contains(x));
        let y = b.last();
        assert(b[b.len() - 1] == y && b.contains(y));
        assert(a.contains(y));
        if x != y {
            let i = choose|i: int| 0 <= i < a.len() && a[i] == y;
            assert(K::precedes(a[i], a[a.len() - 1]));
            let j = choose|j: int| 0 <= j < b.len() && b[j] == x;
            assert(K::precedes(b[j], b[b.len() - 1]));
            K::lemma_transitive(x, y, x);
            K::lemma_irreflexive(x);
        }
        let a2 = a.drop_last();
        let b2 = b.drop_last();
        assert forall|z: K::V| a2.contains(z) <==> #[trigger] b2.contains(z) by {
            K::lemma_irreflexive(x);
            if a2.contains(z) {
                let i = choose|i: int| 0 <= i < a2.len() && a2[i] == z;
                assert(a[i] == z && K::precedes(a[i], a[a.len() - 1]));
                assert(a.contains(z));
                assert(b.contains(z));
                let j = choose|j: int| 0 <= j < b.len() && b[j] == z;
                assert(b2[j] == z);
            }
            if b2.contains(z) {
                let i = choose|i: int| 0 <= i < b2.len() && b2[i] == z;
                assert(b[i] == z && K::precedes(b[i], b[b.len() - 1]));
                assert(b.contains(z));
                assert(a.contains(z));
                let j = choose|j: int| 0 <= j < a.len() && a[j] == z;
                assert(a2[j] == z);
            }
        }
        law_ascending_unique::<K>(a2, b2);
        assert(a =~= a2.push(x));
        assert(b =~= b2.push(x));
    }
}

impl OrdKey for u64 {
    open spec fn precedes(a: u64, b: u64) -> bool {
        a < b
    }

    fn is_before(&self, other: &Self) -> (r: bool) {
        *self < *other
    }

    proof fn lemma_irreflexive(a: u64) {
    }

    proof fn lemma_transitive(a: u64, b: u64, c: u64) {
    }

    proof fn lemma_total(a: u64, b: u64) {
    }
}

impl OrdKey for usize {
    open spec fn precedes(a: usize, b: usize) -> bool {
        a < b
    }

    fn is_before(&self, other: &Self) -> (r: bool) {
        *self < *other
    }

    proof fn lemma_irreflexive(a: usize) {
    }

    proof fn lemma_transitive(a: usize, b: usize, c: usize) {
    }

    proof fn lemma_total(a: usize, b: usize) {
    }
}

} // verus!
