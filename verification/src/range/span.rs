//! Ranges of keys.

use vstd::prelude::*;

use super::bound::{
    group_bound_order, law_bound_extremes, law_key_around_prefix, law_key_between_bounds, Bound,
    HasPrefix,
};
use super::order::is_prefix;

verus! {

/// The keys between two bounds.
#[derive(Debug, Eq, PartialEq)]
pub struct Range<K> {
    pub lower: Bound<K>,
    pub upper: Bound<K>,
}

impl<K: HasPrefix> View for Range<K> {
    type V = Range<Seq<u8>>;

    open spec fn view(&self) -> Range<Seq<u8>> {
        Range { lower: self.lower@, upper: self.upper@ }
    }
}

impl Range<Seq<u8>> {
    /// Whether there is no gap in the range at all.
    pub open spec fn vacant(self) -> bool {
        self.upper.at_most(self.lower)
    }

    /// Whether a gap, and what directly follows it, lies in the range.
    pub open spec fn covers(self, b: Bound<Seq<u8>>) -> bool {
        self.lower.at_most(b) && b.before(self.upper)
    }

    /// Whether a key lies in the range.
    pub open spec fn has(self, k: Seq<u8>) -> bool {
        self.lower.before_key(k) && !self.upper.before_key(k)
    }

    /// The part that two ranges share.
    pub open spec fn meet(self, other: Self) -> Self {
        Range {
            lower: if other.lower.before(self.lower) {
                self.lower
            } else {
                other.lower
            },
            upper: if self.upper.before(other.upper) {
                self.upper
            } else {
                other.upper
            },
        }
    }

    /// Whether one range starts where the other ends.
    pub open spec fn touches(self, other: Self) -> bool {
        self.lower == other.upper || self.upper == other.lower
    }

    /// Whether every gap of `other` is a gap of this range.
    pub open spec fn encloses(self, other: Self) -> bool {
        self.lower.at_most(other.lower) && other.upper.at_most(self.upper)
    }
}

/// A range holds a key exactly when it covers the gap before the key.
pub proof fn law_range_has_key(r: Range<Seq<u8>>, k: Seq<u8>)
    ensures
        r.has(k) == r.covers(Bound::Before(k)),
{
    broadcast use group_bound_order;

    law_key_between_bounds(r.lower, k);
    law_key_between_bounds(r.upper, k);
}

/// A vacant range covers nothing and holds no key.
pub proof fn law_vacant_range(r: Range<Seq<u8>>, b: Bound<Seq<u8>>, k: Seq<u8>)
    requires
        r.vacant(),
    ensures
        !r.covers(b),
        !r.has(k),
{
    broadcast use group_bound_order;

    law_range_has_key(r, k);
}

/// The shared part of two ranges covers what both cover and holds the keys that both hold.
pub proof fn law_range_meet(a: Range<Seq<u8>>, b: Range<Seq<u8>>, at: Bound<Seq<u8>>, k: Seq<u8>)
    ensures
        a.meet(b).covers(at) == (a.covers(at) && b.covers(at)),
        a.meet(b).has(k) == (a.has(k) && b.has(k)),
        a.meet(b) == b.meet(a),
{
    broadcast use group_bound_order;

    law_range_has_key(a, k);
    law_range_has_key(b, k);
    law_range_has_key(a.meet(b), k);
}

/// A split puts each key of the range on exactly one side, and no other key on either, where the
/// bound lies within the range.
pub proof fn law_range_split(r: Range<Seq<u8>>, b: Bound<Seq<u8>>, k: Seq<u8>)
    requires
        r.lower.at_most(b),
        b.at_most(r.upper),
    ensures
        ({
            let left = Range { lower: r.lower, upper: b };
            let right = Range { lower: b, upper: r.upper };
            &&& r.has(k) == (left.has(k) || right.has(k))
            &&& !(left.has(k) && right.has(k))
        }),
{
    broadcast use group_bound_order;

    law_range_has_key(r, k);
    law_range_has_key(Range { lower: r.lower, upper: b }, k);
    law_range_has_key(Range { lower: b, upper: r.upper }, k);
}

/// The range of a prefix holds exactly the keys that start with it.
pub proof fn law_prefix_range(pfx: Seq<u8>, k: Seq<u8>)
    ensures
        (Range { lower: Bound::Before(pfx), upper: Bound::AfterPrefix(pfx) }).has(k) == is_prefix(
            pfx,
            k,
        ),
{
    law_key_around_prefix(pfx, k);
}

/// The range of everything holds every key.
pub proof fn law_full_range(k: Seq<u8>)
    ensures
        (Range { lower: Bound::BeforeAll, upper: Bound::AfterAll }).has(k),
{
    broadcast use group_bound_order;

    law_bound_extremes(Bound::Before(k));
    law_range_has_key(Range { lower: Bound::BeforeAll, upper: Bound::AfterAll }, k);
}

impl<K: HasPrefix> Range<K> {
    /// A range without keys.
    pub fn empty() -> (r: Self)
        ensures
            r@ == (Range { lower: Bound::<Seq<u8>>::BeforeAll, upper: Bound::BeforeAll }),
            r@.vacant(),
    {
        Range { lower: Bound::BeforeAll, upper: Bound::BeforeAll }
    }

    /// The range of every key.
    pub fn all() -> (r: Self)
        ensures
            r@ == (Range { lower: Bound::<Seq<u8>>::BeforeAll, upper: Bound::AfterAll }),
    {
        Range { lower: Bound::BeforeAll, upper: Bound::AfterAll }
    }

    /// The range of the keys that start with `pfx`.
    pub fn prefix(pfx: K) -> (r: Self)
        ensures
            r@ == (Range { lower: Bound::Before(pfx.key()), upper: Bound::AfterPrefix(pfx.key()) }),
    {
        Range { lower: Bound::Before(pfx.copied()), upper: Bound::AfterPrefix(pfx) }
    }

    /// Whether the upper bound does not stand behind the lower one.
    pub fn is_empty(&self) -> (r: bool)
        ensures
            r == self@.vacant(),
    {
        self.upper.is_at_most(&self.lower)
    }

    /// Whether a key lies in the range.
    pub fn contains(&self, k: &K) -> (r: bool)
        ensures
            r == self@.has(k.key()),
    {
        self.lower.is_before_key(k) && !self.upper.is_before_key(k)
    }

    /// Whether every gap of `other` is a gap of this range.
    pub fn contains_range(&self, other: &Range<K>) -> (r: bool)
        ensures
            r == self@.encloses(other@),
    {
        self.lower.is_at_most(&other.lower) && other.upper.is_at_most(&self.upper)
    }

    /// The part that two ranges share.
    pub fn intersection(&self, other: &Range<K>) -> (r: Range<K>)
        ensures
            r@ == self@.meet(other@),
    {
        let lower = if other.lower.is_before(&self.lower) {
            self.lower.clone()
        } else {
            other.lower.clone()
        };
        let upper = if self.upper.is_before(&other.upper) {
            self.upper.clone()
        } else {
            other.upper.clone()
        };
        Range { lower, upper }
    }

    /// Whether two ranges share a gap.
    pub fn intersects(&self, other: &Range<K>) -> (r: bool)
        ensures
            r == !self@.meet(other@).vacant(),
    {
        !self.intersection(other).is_empty()
    }

    /// The part of the range up to a bound, and the part from it on.
    pub fn split(&self, b: &Bound<K>) -> (r: (Range<K>, Range<K>))
        ensures
            r.0@ == (Range { lower: self@.lower, upper: b@ }),
            r.1@ == (Range { lower: b@, upper: self@.upper }),
    {
        (
            Range { lower: self.lower.clone(), upper: b.clone() },
            Range { lower: b.clone(), upper: self.upper.clone() },
        )
    }

    /// Whether one range starts where the other ends.
    pub fn adjacent(&self, other: &Range<K>) -> (r: bool)
        ensures
            r == self@.touches(other@),
    {
        self.lower.same(&other.upper) || self.upper.same(&other.lower)
    }

    /// Whether two ranges have the same bounds.
    pub fn same(&self, other: &Range<K>) -> (r: bool)
        ensures
            r == (self@ == other@),
    {
        self.lower.same(&other.lower) && self.upper.same(&other.upper)
    }
}

impl<K: HasPrefix> Clone for Range<K> {
    fn clone(&self) -> (r: Self)
        ensures
            r@ == self@,
    {
        Range { lower: self.lower.clone(), upper: self.upper.clone() }
    }
}

/// Whether the elements of `b` are clones of those of `a`.
pub open spec fn elements_cloned<K: Clone>(a: Seq<K>, b: Seq<K>) -> bool {
    a.len() == b.len() && forall|i: int| 0 <= i < a.len() ==> cloned(#[trigger] a[i], b[i])
}

fn slice_to_vec<K: Clone>(s: &[K]) -> (r: Vec<K>)
    ensures
        elements_cloned(s@, r@),
{
    let mut r: Vec<K> = Vec::new();
    let mut i: usize = 0;
    while i < s.len()
        invariant
            i <= s@.len(),
            r@.len() == i,
            forall|j: int| 0 <= j < i ==> cloned(#[trigger] s@[j], r@[j]),
        decreases s@.len() - i,
    {
        r.push(s[i].clone());
        i += 1;
    }
    r
}

/// Whether two bounds are of the same form, the key of `b` a clone of that of `a`.
pub open spec fn bound_copied<K: Clone>(a: Bound<&[K]>, b: Bound<Vec<K>>) -> bool {
    match (a, b) {
        (Bound::BeforeAll, Bound::BeforeAll) => true,
        (Bound::Before(k), Bound::Before(k2)) => elements_cloned(k@, k2@),
        (Bound::After(k), Bound::After(k2)) => elements_cloned(k@, k2@),
        (Bound::AfterPrefix(k), Bound::AfterPrefix(k2)) => elements_cloned(k@, k2@),
        (Bound::AfterAll, Bound::AfterAll) => true,
        _ => false,
    }
}

fn bound_to_vec<K: Clone>(b: &Bound<&[K]>) -> (r: Bound<Vec<K>>)
    ensures
        bound_copied(*b, r),
{
    match b {
        Bound::BeforeAll => Bound::BeforeAll,
        Bound::Before(k) => Bound::Before(slice_to_vec(*k)),
        Bound::After(k) => Bound::After(slice_to_vec(*k)),
        Bound::AfterPrefix(k) => Bound::AfterPrefix(slice_to_vec(*k)),
        Bound::AfterAll => Bound::AfterAll,
    }
}

impl<'a, K: Clone> Range<&'a [K]> {
    /// The same range over owned keys.
    pub fn to_vec(&self) -> (r: Range<Vec<K>>)
        ensures
            bound_copied(self.lower, r.lower),
            bound_copied(self.upper, r.upper),
    {
        Range { lower: bound_to_vec(&self.lower), upper: bound_to_vec(&self.upper) }
    }
}

/// For bytes, the copy of a bound is about the same key.
pub proof fn law_bound_copied_bytes(a: Bound<&[u8]>, b: Bound<Vec<u8>>)
    requires
        bound_copied(a, b),
    ensures
        a@ == b@,
{
    match (a, b) {
        (Bound::Before(k), Bound::Before(k2)) => {
            assert(k@ =~= k2@);
        },
        (Bound::After(k), Bound::After(k2)) => {
            assert(k@ =~= k2@);
        },
        (Bound::AfterPrefix(k), Bound::AfterPrefix(k2)) => {
            assert(k@ =~= k2@);
        },
        _ => {},
    }
}

} // verus!
