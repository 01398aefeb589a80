//! Sets of keys made of disjoint ranges.

use vstd::prelude::*;
use vstd::std_specs::iter::IteratorSpec;

use super::bound::{group_bound_order, Bound, HasPrefix};
use super::span::{law_range_has_key, law_range_meet, Range};

verus! {

broadcast use group_bound_order;

/// Whether every range has a gap in it and there is a gap between any two of them, in order.
pub open spec fn canonical(s: Seq<Range<Seq<u8>>>) -> bool {
    &&& forall|i: int| 0 <= i < s.len() ==> (#[trigger] s[i]).lower.before(s[i].upper)
    &&& forall|i: int, j: int|
        0 <= i < j < s.len() ==> (#[trigger] s[i]).upper.before((#[trigger] s[j]).lower)
}

/// Whether one of the ranges covers a gap.
pub open spec fn covers(s: Seq<Range<Seq<u8>>>, b: Bound<Seq<u8>>) -> bool {
    exists|i: int| 0 <= i < s.len() && (#[trigger] s[i]).covers(b)
}

/// Whether one of the ranges holds a key.
pub open spec fn has(s: Seq<Range<Seq<u8>>>, k: Seq<u8>) -> bool {
    exists|i: int| 0 <= i < s.len() && (#[trigger] s[i]).has(k)
}

/// The views of a sequence of ranges.
pub open spec fn views<K: HasPrefix>(s: Seq<Range<K>>) -> Seq<Range<Seq<u8>>> {
    Seq::new(s.len(), |i: int| s[i]@)
}

/// A set of ranges holds a key exactly when it covers the gap before the key.
pub proof fn law_set_has_key(s: Seq<Range<Seq<u8>>>, k: Seq<u8>)
    ensures
        has(s, k) == covers(s, Bound::Before(k)),
{
    if has(s, k) {
        let i = choose|i: int| 0 <= i < s.len() && (#[trigger] s[i]).has(k);
        law_range_has_key(s[i], k);
        assert(s[i].covers(Bound::Before(k)));
    }
    if covers(s, Bound::Before(k)) {
        let i = choose|i: int| 0 <= i < s.len() && (#[trigger] s[i]).covers(Bound::Before(k));
        law_range_has_key(s[i], k);
        assert(s[i].has(k));
    }
}

/// A set has one representation: what it covers determines its ranges.
pub proof fn law_canonical_unique(s: Seq<Range<Seq<u8>>>, t: Seq<Range<Seq<u8>>>)
    requires
        canonical(s),
        canonical(t),
        forall|b: Bound<Seq<u8>>| covers(s, b) == covers(t, b),
    ensures
        s == t,
    decreases s.len(),
{
    if s.len() == 0 {
        if t.len() > 0 {
            assert(t[0].covers(t[0].lower));
            assert(covers(t, t[0].lower));
        }
        assert(s =~= t);
    } else {
        assert(s[0].covers(s[0].lower));
        assert(covers(s, s[0].lower));
        lemma_first_is_least(t, s[0].lower);
        assert(t[0].covers(t[0].lower));
        assert(covers(t, t[0].lower));
        lemma_first_is_least(s, t[0].lower);
        assert(s[0].lower == t[0].lower);
        lemma_upper_uncovered(s, 0);
        lemma_upper_uncovered(t, 0);
        if s[0].upper.before(t[0].upper) {
            assert(t[0].covers(s[0].upper));
            assert(covers(t, s[0].upper));
        }
        if t[0].upper.before(s[0].upper) {
            assert(s[0].covers(t[0].upper));
            assert(covers(s, t[0].upper));
        }
        assert(s[0] == t[0]);
        assert forall|b: Bound<Seq<u8>>| covers(s.drop_first(), b) == covers(t.drop_first(), b) by {
            lemma_rest_covers(s, b);
            lemma_rest_covers(t, b);
        }
        law_canonical_unique(s.drop_first(), t.drop_first());
        assert(s =~= seq![s[0]] + s.drop_first());
        assert(t =~= seq![t[0]] + t.drop_first());
    }
}

/// The one representation of what some ranges cover together.
pub open spec fn normal_form(ranges: Seq<Range<Seq<u8>>>) -> Seq<Range<Seq<u8>>> {
    choose|s: Seq<Range<Seq<u8>>>|
        #![trigger canonical(s)]
        canonical(s) && forall|b: Bound<Seq<u8>>| covers(s, b) == covers(ranges, b)
}

/// A representation of what some ranges cover is the one.
pub proof fn lemma_normal_form(s: Seq<Range<Seq<u8>>>, ranges: Seq<Range<Seq<u8>>>)
    requires
        canonical(s),
        forall|b: Bound<Seq<u8>>| covers(s, b) == covers(ranges, b),
    ensures
        normal_form(ranges) == s,
{
    let t = normal_form(ranges);
    assert(canonical(t) && forall|b: Bound<Seq<u8>>| covers(t, b) == covers(ranges, b));
    law_canonical_unique(s, t);
}

/// The one range that some ranges make together, where they make one.
pub open spec fn joined(ranges: Seq<Range<Seq<u8>>>) -> Option<Range<Seq<u8>>> {
    let s = normal_form(ranges);
    if s.len() == 0 {
        Some(Range { lower: Bound::BeforeAll, upper: Bound::BeforeAll })
    } else if s.len() == 1 {
        Some(s[0])
    } else {
        None
    }
}

proof fn lemma_first_is_least(s: Seq<Range<Seq<u8>>>, b: Bound<Seq<u8>>)
    requires
        canonical(s),
        covers(s, b),
    ensures
        s.len() > 0,
        s[0].lower.at_most(b),
{
    let i = choose|i: int| 0 <= i < s.len() && (#[trigger] s[i]).covers(b);
    if i > 0 {
        assert(s[0].upper.before(s[i].lower));
        assert(s[0].lower.before(s[0].upper));
    }
}

proof fn lemma_upper_uncovered(s: Seq<Range<Seq<u8>>>, i: int)
    requires
        canonical(s),
        0 <= i < s.len(),
    ensures
        !covers(s, s[i].upper),
{
    assert forall|j: int| 0 <= j < s.len() implies !(#[trigger] s[j]).covers(s[i].upper) by {
        if j > i {
            assert(s[i].upper.before(s[j].lower));
        } else if j < i {
            assert(s[j].upper.before(s[i].lower));
            assert(s[i].lower.before(s[i].upper));
        }
    }
}

/// Whether some ranges are the parts that a range of one set shares with a range of the other, all
/// of them and nothing else.
pub open spec fn pairwise_meets(
    s: Seq<Range<Seq<u8>>>,
    t: Seq<Range<Seq<u8>>>,
    out: Seq<Range<Seq<u8>>>,
) -> bool {
    &&& forall|k: int|
        0 <= k < out.len() ==> exists|i: int, j: int|
            0 <= i < s.len() && 0 <= j < t.len() && #[trigger] out[k] == (#[trigger] s[i]).meet(
                #[trigger] t[j],
            )
    &&& forall|i: int, j: int|
        0 <= i < s.len() && 0 <= j < t.len() && !(#[trigger] s[i]).meet(#[trigger] t[j]).vacant()
            ==> out.contains(s[i].meet(t[j]))
}

proof fn lemma_shared_range(
    s: Seq<Range<Seq<u8>>>,
    t: Seq<Range<Seq<u8>>>,
    out: Seq<Range<Seq<u8>>>,
    k: int,
    i: int,
    j: int,
    b: Bound<Seq<u8>>,
)
    requires
        canonical(s),
        canonical(t),
        canonical(out),
        forall|b: Bound<Seq<u8>>| #[trigger] covers(out, b) == (covers(s, b) && covers(t, b)),
        0 <= k < out.len(),
        0 <= i < s.len(),
        0 <= j < t.len(),
        out[k].covers(b),
        s[i].covers(b),
        t[j].covers(b),
    ensures
        out[k] == s[i].meet(t[j]),
{
    let (r, m) = (out[k], s[i].meet(t[j]));
    law_range_meet(s[i], t[j], b, Seq::empty());
    assert(m.covers(b));
    if r.upper.before(m.upper) {
        law_range_meet(s[i], t[j], r.upper, Seq::empty());
        assert(m.covers(r.upper));
        assert(s[i].covers(r.upper) && t[j].covers(r.upper));
        lemma_upper_uncovered(out, k);
    }
    if m.upper.before(r.upper) {
        assert(r.covers(m.upper));
        assert(covers(out, m.upper));
        lemma_upper_uncovered(s, i);
        lemma_upper_uncovered(t, j);
    }
    if m.lower.before(r.lower) {
        law_range_meet(s[i], t[j], m.lower, Seq::empty());
        assert(s[i].covers(m.lower) && t[j].covers(m.lower));
        assert(covers(out, m.lower));
        let l = choose|l: int| 0 <= l < out.len() && (#[trigger] out[l]).covers(m.lower);
        if l >= k {
            if l > k {
                assert(r.upper.before(out[l].lower));
            }
            assert(false);
        }
        let u = out[l].upper;
        assert(u.before(r.lower));
        law_range_meet(s[i], t[j], u, Seq::empty());
        assert(m.covers(u));
        assert(s[i].covers(u) && t[j].covers(u));
        lemma_upper_uncovered(out, l);
    }
    if r.lower.before(m.lower) {
        // One of the two sets has a range that starts within the shared range.
        assert(r.covers(r.lower));
        assert(covers(out, r.lower));
        if m.lower == s[i].lower {
            lemma_start_within(s, i, r, out);
        } else {
            assert forall|b: Bound<Seq<u8>>| #[trigger] covers(out, b) implies covers(t, b) by {}
            lemma_start_within(t, j, r, out);
        }
    }
}

/// A range that is covered by a set does not reach from before a range of the set into it.
proof fn lemma_start_within(
    s: Seq<Range<Seq<u8>>>,
    i: int,
    r: Range<Seq<u8>>,
    out: Seq<Range<Seq<u8>>>,
)
    requires
        canonical(s),
        0 <= i < s.len(),
        out.contains(r),
        forall|b: Bound<Seq<u8>>| #[trigger] covers(out, b) ==> covers(s, b),
        s[i].lower.before(r.upper),
    ensures
        s[i].lower.at_most(r.lower),
{
    if r.lower.before(s[i].lower) {
        let k = choose|k: int| 0 <= k < out.len() && out[k] == r;
        assert(out[k].covers(r.lower));
        assert(covers(out, r.lower));
        let l = choose|l: int| 0 <= l < s.len() && (#[trigger] s[l]).covers(r.lower);
        assert(l < i) by {
            if l > i {
                assert(s[i].upper.before(s[l].lower));
                assert(s[i].lower.before(s[i].upper));
            }
        }
        let u = s[l].upper;
        assert(u.before(s[i].lower));
        assert(out[k].covers(u));
        assert(covers(out, u));
        lemma_upper_uncovered(s, l);
    }
}

/// The ranges that two sets share are the parts that a range of one shares with a range of the
/// other.
pub proof fn law_intersection_is_pairwise(
    s: Seq<Range<Seq<u8>>>,
    t: Seq<Range<Seq<u8>>>,
    out: Seq<Range<Seq<u8>>>,
)
    requires
        canonical(s),
        canonical(t),
        canonical(out),
        forall|b: Bound<Seq<u8>>| #[trigger] covers(out, b) == (covers(s, b) && covers(t, b)),
    ensures
        pairwise_meets(s, t, out),
{
    assert forall|k: int| 0 <= k < out.len() implies exists|i: int, j: int|
        0 <= i < s.len() && 0 <= j < t.len() && #[trigger] out[k] == (#[trigger] s[i]).meet(
            #[trigger] t[j],
        ) by {
        let b = out[k].lower;
        assert(out[k].covers(b));
        assert(covers(out, b));
        let i = choose|i: int| 0 <= i < s.len() && (#[trigger] s[i]).covers(b);
        let j = choose|j: int| 0 <= j < t.len() && (#[trigger] t[j]).covers(b);
        lemma_shared_range(s, t, out, k, i, j, b);
        assert(out[k] == s[i].meet(t[j]));
    }
    assert forall|i: int, j: int|
        0 <= i < s.len() && 0 <= j < t.len() && !(#[trigger] s[i]).meet(
            #[trigger] t[j],
        ).vacant() implies out.contains(s[i].meet(t[j])) by {
        let m = s[i].meet(t[j]);
        let b = m.lower;
        law_range_meet(s[i], t[j], b, Seq::empty());
        assert(m.covers(b));
        assert(s[i].covers(b) && t[j].covers(b));
        assert(covers(out, b));
        let k = choose|k: int| 0 <= k < out.len() && (#[trigger] out[k]).covers(b);
        lemma_shared_range(s, t, out, k, i, j, b);
    }
}

proof fn lemma_rest_covers(s: Seq<Range<Seq<u8>>>, b: Bound<Seq<u8>>)
    requires
        canonical(s),
        s.len() > 0,
    ensures
        covers(s.drop_first(), b) == (covers(s, b) && !s[0].covers(b)),
        canonical(s.drop_first()),
{
    let r = s.drop_first();
    assert forall|i: int| 0 <= i < r.len() implies (#[trigger] r[i]).lower.before(r[i].upper) by {
        assert(r[i] == s[i + 1]);
    }
    assert forall|i: int, j: int| 0 <= i < j < r.len() implies (#[trigger] r[i]).upper.before(
        (#[trigger] r[j]).lower,
    ) by {
        assert(r[i] == s[i + 1]);
        assert(r[j] == s[j + 1]);
    }
    if covers(r, b) {
        let i = choose|i: int| 0 <= i < r.len() && (#[trigger] r[i]).covers(b);
        assert(s[i + 1].covers(b));
        assert(s[0].upper.before(s[i + 1].lower));
    }
    if covers(s, b) && !s[0].covers(b) {
        let i = choose|i: int| 0 <= i < s.len() && (#[trigger] s[i]).covers(b);
        assert(r[i - 1].covers(b));
    }
}

/// What replaces the ranges from `lo` to `hi` when `r` is added.
pub open spec fn merged(s: Seq<Range<Seq<u8>>>, r: Range<Seq<u8>>, lo: int, hi: int) -> Range<
    Seq<u8>,
> {
    if lo < hi {
        Range {
            lower: if s[lo].lower.before(r.lower) {
                s[lo].lower
            } else {
                r.lower
            },
            upper: if r.upper.before(s[hi - 1].upper) {
                s[hi - 1].upper
            } else {
                r.upper
            },
        }
    } else {
        r
    }
}

pub proof fn lemma_add(s: Seq<Range<Seq<u8>>>, r: Range<Seq<u8>>, lo: int, hi: int)
    requires
        canonical(s),
        !r.vacant(),
        0 <= lo <= hi <= s.len(),
        forall|i: int| 0 <= i < lo ==> (#[trigger] s[i]).upper.before(r.lower),
        forall|i: int| lo <= i < s.len() ==> r.lower.at_most((#[trigger] s[i]).upper),
        forall|i: int| 0 <= i < hi ==> (#[trigger] s[i]).lower.at_most(r.upper),
        forall|i: int| hi <= i < s.len() ==> r.upper.before((#[trigger] s[i]).lower),
    ensures
        ({
            let t = s.take(lo).push(merged(s, r, lo, hi)) + s.skip(hi);
            &&& canonical(t)
            &&& forall|b: Bound<Seq<u8>>| covers(t, b) == (covers(s, b) || r.covers(b))
        }),
{
    let m = merged(s, r, lo, hi);
    let t = s.take(lo).push(m) + s.skip(hi);
    assert forall|i: int| 0 <= i < t.len() implies #[trigger] t[i] == if i < lo {
        s[i]
    } else if i == lo {
        m
    } else {
        s[i - lo - 1 + hi]
    } by {}
    assert(m.lower.before(m.upper));
    assert forall|i: int, j: int| 0 <= i < j < t.len() implies (#[trigger] t[i]).upper.before(
        (#[trigger] t[j]).lower,
    ) by {
        if i < lo && j == lo {
            if lo < hi {
                assert(s[i].upper.before(s[lo].lower));
            }
        } else if i == lo && j > lo {
            if lo < hi {
                assert(s[hi - 1].upper.before(s[j - lo - 1 + hi].lower));
            }
        }
    }
    assert forall|b: Bound<Seq<u8>>| covers(t, b) == (covers(s, b) || r.covers(b)) by {
        if covers(t, b) {
            let i = choose|i: int| 0 <= i < t.len() && (#[trigger] t[i]).covers(b);
            if i < lo {
                assert(s[i].covers(b));
            } else if i > lo {
                assert(s[i - lo - 1 + hi].covers(b));
            } else if lo < hi && !r.covers(b) {
                if b.before(r.lower) {
                    assert(s[lo].covers(b));
                } else {
                    assert(s[hi - 1].covers(b));
                }
            }
        }
        if r.covers(b) {
            assert(t[lo].covers(b));
        }
        if covers(s, b) {
            let i = choose|i: int| 0 <= i < s.len() && (#[trigger] s[i]).covers(b);
            if i < lo {
                assert(t[i].covers(b));
            } else if i >= hi {
                assert(t[i - hi + lo + 1].covers(b));
            } else {
                if i > lo {
                    assert(s[lo].upper.before(s[i].lower));
                    assert(s[lo].lower.before(s[lo].upper));
                }
                if i < hi - 1 {
                    assert(s[i].upper.before(s[hi - 1].lower));
                    assert(s[hi - 1].lower.before(s[hi - 1].upper));
                }
                assert(t[lo].covers(b));
            }
        }
    }
}

/// What remains, when `r` is taken away, of the ranges from `lo` to `hi` that it meets.
pub open spec fn remnants(s: Seq<Range<Seq<u8>>>, r: Range<Seq<u8>>, lo: int, hi: int) -> Seq<
    Range<Seq<u8>>,
> {
    let below = Range { lower: s[lo].lower, upper: r.lower };
    let above = Range { lower: r.upper, upper: s[hi - 1].upper };
    if lo < hi {
        (if below.vacant() {
            Seq::empty()
        } else {
            seq![below]
        }) + (if above.vacant() {
            Seq::empty()
        } else {
            seq![above]
        })
    } else {
        Seq::empty()
    }
}

proof fn lemma_subtract(s: Seq<Range<Seq<u8>>>, r: Range<Seq<u8>>, lo: int, hi: int)
    requires
        canonical(s),
        !r.vacant(),
        0 <= lo <= hi <= s.len(),
        forall|i: int| 0 <= i < lo ==> (#[trigger] s[i]).upper.at_most(r.lower),
        forall|i: int| lo <= i < s.len() ==> r.lower.before((#[trigger] s[i]).upper),
        forall|i: int| 0 <= i < hi ==> (#[trigger] s[i]).lower.before(r.upper),
        forall|i: int| hi <= i < s.len() ==> r.upper.at_most((#[trigger] s[i]).lower),
    ensures
        ({
            let t = s.take(lo) + remnants(s, r, lo, hi) + s.skip(hi);
            &&& canonical(t)
            &&& forall|b: Bound<Seq<u8>>| covers(t, b) == (covers(s, b) && !r.covers(b))
        }),
{
    let m = remnants(s, r, lo, hi);
    let t = s.take(lo) + m + s.skip(hi);
    let n = m.len() as int;
    assert forall|i: int| 0 <= i < t.len() implies #[trigger] t[i] == if i < lo {
        s[i]
    } else if i < lo + n {
        m[i - lo]
    } else {
        s[i - lo - n + hi]
    } by {}
    assert forall|i: int| 0 <= i < n implies (#[trigger] m[i]).lower.before(m[i].upper) by {}
    assert forall|i: int| 0 <= i < n implies s[lo].lower.at_most((#[trigger] m[i]).lower)
        && m[i].upper.at_most(s[hi - 1].upper) by {
        if lo < hi - 1 {
            assert(s[lo].upper.before(s[hi - 1].lower));
        }
    }
    assert forall|i: int, j: int| 0 <= i < j < t.len() implies (#[trigger] t[i]).upper.before(
        (#[trigger] t[j]).lower,
    ) by {
        if i < lo && lo <= j < lo + n {
            assert(s[i].upper.before(s[lo].lower));
            assert(s[lo].lower.at_most(m[j - lo].lower));
        } else if lo <= i < lo + n && j >= lo + n {
            assert(s[hi - 1].upper.before(s[j - lo - n + hi].lower));
            assert(m[i - lo].upper.at_most(s[hi - 1].upper));
        }
    }
    assert forall|b: Bound<Seq<u8>>| covers(t, b) == (covers(s, b) && !r.covers(b)) by {
        if covers(t, b) {
            let i = choose|i: int| 0 <= i < t.len() && (#[trigger] t[i]).covers(b);
            if i < lo {
                assert(s[i].covers(b));
            } else if i >= lo + n {
                assert(s[i - lo - n + hi].covers(b));
            } else {
                let piece = m[i - lo];
                if piece.lower == s[lo].lower && piece.upper == r.lower {
                    assert(s[lo].covers(b));
                } else {
                    assert(s[hi - 1].covers(b));
                }
            }
        }
        if covers(s, b) && !r.covers(b) {
            let i = choose|i: int| 0 <= i < s.len() && (#[trigger] s[i]).covers(b);
            if i < lo {
                assert(t[i].covers(b));
            } else if i >= hi {
                assert(t[i - hi + lo + n].covers(b));
            } else {
                if i > lo {
                    assert(s[lo].upper.before(s[i].lower));
                    assert(s[lo].lower.before(s[lo].upper));
                }
                if i < hi - 1 {
                    assert(s[i].upper.before(s[hi - 1].lower));
                    assert(s[hi - 1].lower.before(s[hi - 1].upper));
                }
                if b.before(r.lower) {
                    let below = Range { lower: s[lo].lower, upper: r.lower };
                    assert(below.covers(b));
                    assert(m[0] == below);
                    assert(t[lo].covers(b));
                } else {
                    let above = Range { lower: r.upper, upper: s[hi - 1].upper };
                    assert(above.covers(b));
                    assert(m[n - 1] == above);
                    assert(t[lo + n - 1].covers(b));
                }
            }
        }
    }
}

/// A set of keys, held as disjoint ranges in ascending order with gaps between them.
#[derive(Debug)]
pub struct RangeSet<K: HasPrefix> {
    ranges: Vec<Range<K>>,
}

impl<K: HasPrefix> View for RangeSet<K> {
    type V = Seq<Range<Seq<u8>>>;

    closed spec fn view(&self) -> Seq<Range<Seq<u8>>> {
        views(self.ranges@)
    }
}

impl<K: HasPrefix> Clone for RangeSet<K> {
    fn clone(&self) -> (r: Self)
        ensures
            r@ == self@,
    {
        let mut ranges: Vec<Range<K>> = Vec::new();
        let mut i: usize = 0;
        while i < self.ranges.len()
            invariant
                i <= self.ranges@.len(),
                ranges@.len() == i,
                forall|j: int| 0 <= j < i ==> (#[trigger] ranges@[j])@ == self.ranges@[j]@,
            decreases self.ranges@.len() - i,
        {
            ranges.push(self.ranges[i].clone());
            i += 1;
        }
        let r = RangeSet { ranges };
        assert(r@ =~= self@);
        r
    }
}

impl<K: HasPrefix> RangeSet<K> {
    /// The ranges are in ascending order, each with a gap in it and with gaps between them.
    pub open spec fn wf(&self) -> bool {
        canonical(self@)
    }

    /// Whether the set covers a gap.
    pub open spec fn covers(&self, b: Bound<Seq<u8>>) -> bool {
        covers(self@, b)
    }

    /// Whether the set holds a key.
    pub open spec fn has(&self, k: Seq<u8>) -> bool {
        has(self@, k)
    }

    /// The empty set.
    pub fn new() -> (r: Self)
        ensures
            r.wf(),
            r@ == Seq::<Range<Seq<u8>>>::empty(),
    {
        let r = RangeSet { ranges: Vec::new() };
        assert(r@ =~= Seq::<Range<Seq<u8>>>::empty());
        r
    }

    /// The set of the keys of one range.
    pub fn from(range: Range<K>) -> (r: Self)
        ensures
            r.wf(),
            r@ == if range@.vacant() {
                Seq::<Range<Seq<u8>>>::empty()
            } else {
                seq![range@]
            },
    {
        let ghost view = range@;
        if range.is_empty() {
            RangeSet::new()
        } else {
            let r = RangeSet { ranges: vec![range] };
            assert(r@ =~= seq![view]);
            r
        }
    }

    /// The set of the keys of some ranges, in any order, overlapping or not.
    pub fn from_iter(ranges: Vec<Range<K>>) -> (r: Self)
        ensures
            r.wf(),
            forall|b: Bound<Seq<u8>>| r.covers(b) == covers(views(ranges@), b),
            r@ == normal_form(views(ranges@)),
    {
        let mut result = RangeSet::new();
        let mut i: usize = 0;
        assert(views(ranges@).take(0) =~= Seq::empty());
        while i < ranges.len()
            invariant
                i <= ranges@.len(),
                result.wf(),
                forall|b: Bound<Seq<u8>>|
                    result.covers(b) == covers(views(ranges@).take(i as int), b),
            decreases ranges@.len() - i,
        {
            result.add_range(ranges[i].clone());
            proof {
                lemma_covers_take(views(ranges@), i as int);
            }
            i += 1;
        }
        proof {
            assert(views(ranges@).take(i as int) =~= views(ranges@));
            assert forall|b: Bound<Seq<u8>>| covers(result@, b) == covers(views(ranges@), b) by {
                assert(result.covers(b) == covers(views(ranges@), b));
            }
            lemma_normal_form(result@, views(ranges@));
        }
        result
    }

    pub fn is_empty(&self) -> (r: bool)
        ensures
            r == (self@.len() == 0),
    {
        self.ranges.len() == 0
    }

    /// The lowest range of the set.
    pub fn first(&self) -> (r: Option<&Range<K>>)
        ensures
            match r {
                Some(range) => self@.len() > 0 && range@ == self@[0],
                None => self@.len() == 0,
            },
    {
        if self.ranges.len() == 0 {
            None
        } else {
            Some(&self.ranges[0])
        }
    }

    /// The highest range of the set.
    pub fn last(&self) -> (r: Option<&Range<K>>)
        ensures
            match r {
                Some(range) => self@.len() > 0 && range@ == self@.last(),
                None => self@.len() == 0,
            },
    {
        if self.ranges.len() == 0 {
            None
        } else {
            Some(&self.ranges[self.ranges.len() - 1])
        }
    }

    /// The set as one range, where it is one.
    pub fn contiguous(&self) -> (r: Option<Range<K>>)
        ensures
            match r {
                Some(range) => {
                    ||| self@.len() == 0 && range@ == (Range {
                        lower: Bound::<Seq<u8>>::BeforeAll,
                        upper: Bound::BeforeAll,
                    })
                    ||| self@.len() == 1 && range@ == self@[0]
                },
                None => self@.len() > 1,
            },
    {
        if self.ranges.len() == 0 {
            Some(Range::empty())
        } else if self.ranges.len() == 1 {
            Some(self.ranges[0].clone())
        } else {
            None
        }
    }

    /// Whether the set holds a key.
    pub fn contains(&self, k: &K) -> (r: bool)
        requires
            self.wf(),
        ensures
            r == self.has(k.key()),
    {
        let before = Bound::Before(k.copied());
        let n: usize = self.count_at_most(&before);
        proof {
            law_set_has_key(self@, k.key());
        }
        if n == 0 {
            false
        } else {
            let found = self.ranges[n - 1].contains(k);
            proof {
                let b = Bound::Before(k.key());
                law_range_has_key(self@[n - 1], k.key());
                assert(self@[n - 1].covers(b) ==> covers(self@, b));
                assert forall|i: int|
                    0 <= i < self@.len() && (#[trigger] self@[i]).covers(b) implies self@[n
                    - 1].covers(b) by {
                    if i < n - 1 {
                        assert(self@[i].upper.before(self@[n - 1].lower));
                    }
                }
            }
            found
        }
    }

    /// Whether two sets share a gap.
    pub fn intersects(&self, other: &RangeSet<K>) -> (r: bool)
        requires
            self.wf(),
            other.wf(),
        ensures
            r == exists|b: Bound<Seq<u8>>| self.covers(b) && other.covers(b),
    {
            let shared = self.intersections(other);
        if shared.len() > 0 {
            proof {
                let b = shared@[0]@.lower;
                assert(views(shared@)[0].covers(b));
                assert(covers(views(shared@), b));
                assert(self.covers(b) && other.covers(b));
            }
            true
        } else {
            proof {
                assert forall|b: Bound<Seq<u8>>| !(self.covers(b) && other.covers(b)) by {
                    assert(!covers(views(shared@), b));
                }
            }
            false
        }
    }

    /// What either set holds.
    pub fn union(&self, other: &RangeSet<K>) -> (r: Self)
        requires
            self.wf(),
            other.wf(),
        ensures
            r.wf(),
            forall|b: Bound<Seq<u8>>| r.covers(b) == (self.covers(b) || other.covers(b)),
    {
        let mut union = self.clone();
        let mut i: usize = 0;
        while i < other.ranges.len()
            invariant
                i <= other.ranges@.len(),
                other@.len() == other.ranges@.len(),
                union.wf(),
                forall|b: Bound<Seq<u8>>|
                    union.covers(b) == (self.covers(b) || covers(other@.take(i as int), b)),
            decreases other.ranges@.len() - i,
        {
            union.add_range(other.ranges[i].clone());
            proof {
                lemma_covers_take(other@, i as int);
            }
            i += 1;
        }
        assert(other@.take(i as int) =~= other@);
        union
    }

    /// What both sets hold.
    pub fn intersection(&self, other: &RangeSet<K>) -> (r: Self)
        requires
            self.wf(),
            other.wf(),
        ensures
            r.wf(),
            forall|b: Bound<Seq<u8>>| r.covers(b) == (self.covers(b) && other.covers(b)),
            pairwise_meets(self@, other@, r@),
    {
        RangeSet { ranges: self.intersections(other) }
    }

    /// What this set holds and the other does not.
    pub fn difference(&self, other: &RangeSet<K>) -> (r: Self)
        requires
            self.wf(),
            other.wf(),
        ensures
            r.wf(),
            forall|b: Bound<Seq<u8>>| r.covers(b) == (self.covers(b) && !other.covers(b)),
    {
        let mut difference = self.clone();
        let mut i: usize = 0;
        while i < other.ranges.len()
            invariant
                i <= other.ranges@.len(),
                other@.len() == other.ranges@.len(),
                difference.wf(),
                forall|b: Bound<Seq<u8>>|
                    difference.covers(b) == (self.covers(b) && !covers(other@.take(i as int), b)),
            decreases other.ranges@.len() - i,
        {
            difference.subtract_range(other.ranges[i].clone());
            proof {
                lemma_covers_take(other@, i as int);
            }
            i += 1;
        }
        assert(other@.take(i as int) =~= other@);
        difference
    }

    /// The ranges of the set in ascending order.
    pub fn iter(&self) -> (r: std::slice::Iter<'_, Range<K>>)
        ensures
            r.remaining().len() == self@.len(),
            forall|i: int| 0 <= i < self@.len() ==> (#[trigger] r.remaining()[i])@ == self@[i],
    {
        self.ranges.iter()
    }

    /// The ranges of the set in ascending order.
    pub fn into_iter(self) -> (r: Vec<Range<K>>)
        ensures
            views(r@) == self@,
    {
        self.ranges
    }

    /// How many ranges start at a bound or before it. They come first.
    fn count_at_most(&self, bound: &Bound<K>) -> (n: usize)
        requires
            self.wf(),
        ensures
            n <= self@.len(),
            forall|i: int| 0 <= i < n ==> (#[trigger] self@[i]).lower.at_most(bound@),
            forall|i: int| n <= i < self@.len() ==> bound@.before((#[trigger] self@[i]).lower),
    {
            let mut lo: usize = 0;
        let mut hi: usize = self.ranges.len();
        while lo < hi
            invariant
                self.wf(),
                lo <= hi <= self.ranges@.len(),
                self@.len() == self.ranges@.len(),
                forall|i: int| 0 <= i < lo ==> (#[trigger] self@[i]).lower.at_most(bound@),
                forall|i: int| hi <= i < self@.len() ==> bound@.before((#[trigger] self@[i]).lower),
            decreases hi - lo,
        {
            let mid: usize = lo + (hi - lo) / 2;
            proof {
                assert(self@[mid as int] == self.ranges@[mid as int]@);
                assert forall|i: int, j: int| 0 <= i < j < self@.len() implies (
                #[trigger] self@[i]).lower.before((#[trigger] self@[j]).lower) by {
                    assert(self@[i].upper.before(self@[j].lower));
                    assert(self@[i].lower.before(self@[i].upper));
                }
            }
            if self.ranges[mid].lower.is_at_most(bound) {
                lo = mid + 1;
            } else {
                hi = mid;
            }
        }
        lo
    }

    /// The last range that starts at a bound or before it.
    pub fn last_less_or_equal(&self, bound: &Bound<K>) -> (r: Option<&Range<K>>)
        requires
            self.wf(),
        ensures
            match r {
                Some(range) => exists|i: int|
                    #![trigger self@[i]]
                    0 <= i < self@.len() && range@ == self@[i] && range@.lower.at_most(bound@) && (
                    i + 1 < self@.len() ==> bound@.before(self@[i + 1].lower)),
                None => forall|i: int|
                    0 <= i < self@.len() ==> bound@.before((#[trigger] self@[i]).lower),
            },
    {
        let n: usize = self.count_at_most(bound);
        if n == 0 {
            None
        } else {
            assert(self@[n - 1] == self.ranges@[n - 1]@);
            Some(&self.ranges[n - 1])
        }
    }

    /// The first range that starts behind a bound.
    pub fn first_greater(&self, bound: &Bound<K>) -> (r: Option<&Range<K>>)
        requires
            self.wf(),
        ensures
            match r {
                Some(range) => exists|i: int|
                    #![trigger self@[i]]
                    0 <= i < self@.len() && range@ == self@[i] && bound@.before(range@.lower) && (i
                        > 0 ==> self@[i - 1].lower.at_most(bound@)),
                None => forall|i: int|
                    0 <= i < self@.len() ==> (#[trigger] self@[i]).lower.at_most(bound@),
            },
    {
        let n: usize = self.count_at_most(bound);
        if n < self.ranges.len() {
            assert(self@[n as int] == self.ranges@[n as int]@);
            Some(&self.ranges[n])
        } else {
            None
        }
    }

    /// The ranges that two sets share, in ascending order.
    pub fn intersections(&self, other: &RangeSet<K>) -> (out: Vec<Range<K>>)
        requires
            self.wf(),
            other.wf(),
        ensures
            canonical(views(out@)),
            forall|b: Bound<Seq<u8>>|
                #[trigger] covers(views(out@), b) == (self.covers(b) && other.covers(b)),
            pairwise_meets(self@, other@, views(out@)),
    {
        let mut out: Vec<Range<K>> = Vec::new();
        let mut i: usize = 0;
        let mut j: usize = 0;
        while i < self.ranges.len() && j < other.ranges.len()
            invariant
                self.wf(),
                other.wf(),
                self@.len() == self.ranges@.len(),
                other@.len() == other.ranges@.len(),
                i <= self@.len(),
                j <= other@.len(),
                shared_so_far(self@, other@, i as int, j as int, views(out@)),
            decreases self.ranges@.len() - i + other.ranges@.len() - j,
        {
            let ghost prior = views(out@);
            let ghost (a, b) = (self@[i as int], other@[j as int]);
            let shared = self.ranges[i].intersection(&other.ranges[j]);
            if !shared.is_empty() {
                out.push(shared);
                assert(views(out@) =~= prior.push(a.meet(b)));
            }
            if self.ranges[i].upper.is_at_most(&other.ranges[j].upper) {
                proof {
                    lemma_shared_step(self@, other@, i as int, j as int, prior);
                }
                i += 1;
            } else {
                proof {
                    lemma_shared_flip(self@, other@, i as int, j as int, prior);
                    lemma_shared_step(other@, self@, j as int, i as int, prior);
                    law_range_meet(a, b, a.lower, Seq::empty());
                    lemma_shared_flip(other@, self@, j + 1, i as int, views(out@));
                }
                j += 1;
            }
        }
        proof {
            lemma_shared_done(self@, other@, i as int, j as int, views(out@));
            law_intersection_is_pairwise(self@, other@, views(out@));
        }
        out
    }

    /// Adds the keys of a range.
    pub fn add_range(&mut self, range: Range<K>)
        requires
            old(self).wf(),
        ensures
            final(self).wf(),
            forall|b: Bound<Seq<u8>>|
                final(self).covers(b) == (old(self).covers(b) || range@.covers(b)),
    {
            if range.is_empty() {
            return ;
        }
        let ghost s = self@;
        let ghost r = range@;
        let hi: usize = self.count_at_most(&range.upper);
        let mut lo: usize = hi;
        while lo > 0 && range.lower.is_at_most(&self.ranges[lo - 1].upper)
            invariant
                s == self@,
                r == range@,
                canonical(s),
                lo <= hi <= s.len(),
                s.len() == self.ranges@.len(),
                forall|i: int| lo <= i < hi ==> r.lower.at_most((#[trigger] s[i]).upper),
            decreases lo,
        {
            assert(s[lo - 1] == self.ranges@[lo - 1]@);
            lo -= 1;
        }
        proof {
            if lo > 0 {
                assert(s[lo - 1] == self.ranges@[lo - 1]@);
            }
            assert forall|i: int| 0 <= i < lo implies (#[trigger] s[i]).upper.before(r.lower) by {
                if i < lo - 1 {
                    assert(s[i].upper.before(s[lo - 1].lower));
                    assert(s[lo - 1].lower.before(s[lo - 1].upper));
                }
            }
            assert forall|i: int| lo <= i < s.len() implies r.lower.at_most(
                (#[trigger] s[i]).upper,
            ) by {
                if i >= hi {
                    assert(s[i].lower.before(s[i].upper));
                }
            }
            lemma_add(s, r, lo as int, hi as int);
            if lo < hi {
                assert(s[lo as int] == self.ranges@[lo as int]@);
                assert(s[hi - 1] == self.ranges@[hi - 1]@);
            }
        }
        let mut lower = range.lower;
        let mut upper = range.upper;
        if lo < hi {
            if self.ranges[lo].lower.is_before(&lower) {
                lower = self.ranges[lo].lower.clone();
            }
            if upper.is_before(&self.ranges[hi - 1].upper) {
                upper = self.ranges[hi - 1].upper.clone();
            }
        }
        let mut tail = self.ranges.split_off(hi);
        self.ranges.truncate(lo);
        self.ranges.push(Range { lower, upper });
        self.ranges.append(&mut tail);
        assert(self@ =~= s.take(lo as int).push(merged(s, r, lo as int, hi as int)) + s.skip(
            hi as int,
        ));
    }

    /// Takes the keys of a range away.
    pub fn subtract_range(&mut self, range: Range<K>)
        requires
            old(self).wf(),
        ensures
            final(self).wf(),
            forall|b: Bound<Seq<u8>>|
                final(self).covers(b) == (old(self).covers(b) && !range@.covers(b)),
    {
            if range.is_empty() {
            return ;
        }
        let ghost s = self@;
        let ghost r = range@;
        let mut hi: usize = self.count_at_most(&range.upper);
        if hi > 0 && range.upper.is_at_most(&self.ranges[hi - 1].lower) {
            proof {
                assert(s[hi - 1] == self.ranges@[hi - 1]@);
            }
            hi -= 1;
        }
        proof {
            if hi > 0 {
                assert(s[hi - 1] == self.ranges@[hi - 1]@);
            }
            assert forall|i: int| 0 <= i < hi implies (#[trigger] s[i]).lower.before(r.upper) by {
                if i < hi - 1 {
                    assert(s[i].upper.before(s[hi - 1].lower));
                    assert(s[i].lower.before(s[i].upper));
                }
                if hi < s.len() {
                    assert(s[i].upper.before(s[hi as int].lower));
                    assert(s[i].lower.before(s[i].upper));
                }
            }
        }
        let mut lo: usize = hi;
        while lo > 0 && range.lower.is_before(&self.ranges[lo - 1].upper)
            invariant
                s == self@,
                r == range@,
                canonical(s),
                lo <= hi <= s.len(),
                s.len() == self.ranges@.len(),
                forall|i: int| lo <= i < hi ==> r.lower.before((#[trigger] s[i]).upper),
            decreases lo,
        {
            assert(s[lo - 1] == self.ranges@[lo - 1]@);
            lo -= 1;
        }
        proof {
            if lo > 0 {
                assert(s[lo - 1] == self.ranges@[lo - 1]@);
            }
            assert forall|i: int| 0 <= i < lo implies (#[trigger] s[i]).upper.at_most(r.lower) by {
                if i < lo - 1 {
                    assert(s[i].upper.before(s[lo - 1].lower));
                    assert(s[lo - 1].lower.before(s[lo - 1].upper));
                }
            }
            assert forall|i: int| lo <= i < s.len() implies r.lower.before(
                (#[trigger] s[i]).upper,
            ) by {
                if i >= hi {
                    assert(s[i].lower.before(s[i].upper));
                }
            }
            lemma_subtract(s, r, lo as int, hi as int);
            if lo < hi {
                assert(s[lo as int] == self.ranges@[lo as int]@);
                assert(s[hi - 1] == self.ranges@[hi - 1]@);
            }
        }
        let mut pieces: Vec<Range<K>> = Vec::new();
        if lo < hi {
            let below = Range { lower: self.ranges[lo].lower.clone(), upper: range.lower };
            let above = Range { lower: range.upper, upper: self.ranges[hi - 1].upper.clone() };
            if !below.is_empty() {
                pieces.push(below);
            }
            if !above.is_empty() {
                pieces.push(above);
            }
        }
        assert(views(pieces@) =~= remnants(s, r, lo as int, hi as int));
        let mut tail = self.ranges.split_off(hi);
        self.ranges.truncate(lo);
        let ghost kept = pieces@;
        self.ranges.append(&mut pieces);
        self.ranges.append(&mut tail);
        assert(self@ =~= s.take(lo as int) + views(kept) + s.skip(hi as int));
    }
}

proof fn lemma_covers_take(s: Seq<Range<Seq<u8>>>, n: int)
    requires
        0 <= n < s.len(),
    ensures
        forall|b: Bound<Seq<u8>>|
            #[trigger] covers(s.take(n + 1), b) == (covers(s.take(n), b) || s[n].covers(b)),
{
    assert forall|b: Bound<Seq<u8>>|
        #[trigger] covers(s.take(n + 1), b) == (covers(s.take(n), b) || s[n].covers(b)) by {
        if covers(s.take(n + 1), b) {
            let i = choose|i: int| 0 <= i < n + 1 && (#[trigger] s.take(n + 1)[i]).covers(b);
            if i < n {
                assert(s.take(n)[i].covers(b));
            }
        }
        if covers(s.take(n), b) {
            let i = choose|i: int| 0 <= i < n && (#[trigger] s.take(n)[i]).covers(b);
            assert(s.take(n + 1)[i].covers(b));
        }
        if s[n].covers(b) {
            assert(s.take(n + 1)[n].covers(b));
        }
    }
}

/// What holds of the shared ranges `out` that were found when the search stands at the ranges `i`
/// and `j`.
pub open spec fn shared_so_far(
    s: Seq<Range<Seq<u8>>>,
    t: Seq<Range<Seq<u8>>>,
    i: int,
    j: int,
    out: Seq<Range<Seq<u8>>>,
) -> bool {
    &&& canonical(out)
    &&& forall|k: int|
        0 <= k < out.len() ==> {
            ||| i < s.len() && (#[trigger] out[k]).upper.before(s[i].lower)
            ||| j < t.len() && out[k].upper.before(t[j].lower)
            ||| i >= s.len()
            ||| j >= t.len()
        }
    &&& forall|b: Bound<Seq<u8>>| #[trigger] covers(out, b) ==> covers(s, b) && covers(t, b)
    &&& forall|p: int, q: int, b: Bound<Seq<u8>>|
        0 <= p < s.len() && 0 <= q < t.len() && (p < i || q < j) && #[trigger] s[p].covers(b)
            && #[trigger] t[q].covers(b) ==> covers(out, b)
}

proof fn lemma_shared_flip(
    s: Seq<Range<Seq<u8>>>,
    t: Seq<Range<Seq<u8>>>,
    i: int,
    j: int,
    out: Seq<Range<Seq<u8>>>,
)
    requires
        shared_so_far(s, t, i, j, out),
    ensures
        shared_so_far(t, s, j, i, out),
{
}

proof fn lemma_shared_step(
    s: Seq<Range<Seq<u8>>>,
    t: Seq<Range<Seq<u8>>>,
    i: int,
    j: int,
    out: Seq<Range<Seq<u8>>>,
)
    requires
        canonical(s),
        canonical(t),
        0 <= i < s.len(),
        0 <= j < t.len(),
        shared_so_far(s, t, i, j, out),
        s[i].upper.at_most(t[j].upper),
    ensures
        s[i].meet(t[j]).vacant() ==> shared_so_far(s, t, i + 1, j, out),
        !s[i].meet(t[j]).vacant() ==> shared_so_far(s, t, i + 1, j, out.push(s[i].meet(t[j]))),
{
    let m = s[i].meet(t[j]);
    let next = if m.vacant() {
        out
    } else {
        out.push(m)
    };
    assert(m.upper == s[i].upper);
    if i + 1 < s.len() {
        assert(s[i].upper.before(s[i + 1].lower));
        assert(s[i].lower.before(s[i].upper));
    }
    assert forall|k: int| 0 <= k < next.len() implies {
        ||| i + 1 < s.len() && (#[trigger] next[k]).upper.before(s[i + 1].lower)
        ||| j < t.len() && next[k].upper.before(t[j].lower)
        ||| i + 1 >= s.len()
        ||| j >= t.len()
    } by {
        if k < out.len() {
            assert(next[k] == out[k]);
        }
    }
    assert forall|k: int, l: int| 0 <= k < l < next.len() implies (
    #[trigger] next[k]).upper.before((#[trigger] next[l]).lower) by {
        if l < out.len() {
            assert(next[k] == out[k] && next[l] == out[l]);
        } else {
            assert(next[k] == out[k]);
            assert(next[l] == m);
        }
    }
    assert forall|b: Bound<Seq<u8>>| covers(out, b) implies #[trigger] covers(next, b) by {
        let k = choose|k: int| 0 <= k < out.len() && (#[trigger] out[k]).covers(b);
        assert(next[k].covers(b));
    }
    assert forall|b: Bound<Seq<u8>>| #[trigger] covers(next, b) implies covers(s, b) && covers(
        t,
        b,
    ) by {
        let k = choose|k: int| 0 <= k < next.len() && (#[trigger] next[k]).covers(b);
        if k < out.len() {
            assert(out[k].covers(b));
            assert(covers(out, b));
        } else {
            law_range_meet(s[i], t[j], b, Seq::empty());
            assert(s[i].covers(b) && t[j].covers(b));
        }
    }
    assert forall|p: int, q: int, b: Bound<Seq<u8>>|
        0 <= p < s.len() && 0 <= q < t.len() && (p < i + 1 || q < j) && #[trigger] s[p].covers(b)
            && #[trigger] t[q].covers(b) implies covers(next, b) by {
        if p < i || q < j {
            assert(covers(out, b));
        } else if q == j {
            law_range_meet(s[i], t[j], b, Seq::empty());
            assert(m.covers(b));
            assert(next[out.len() as int].covers(b));
        } else {
            assert(t[j].upper.before(t[q].lower));
        }
    }
}

proof fn lemma_shared_done(
    s: Seq<Range<Seq<u8>>>,
    t: Seq<Range<Seq<u8>>>,
    i: int,
    j: int,
    out: Seq<Range<Seq<u8>>>,
)
    requires
        shared_so_far(s, t, i, j, out),
        i >= s.len() || j >= t.len(),
    ensures
        forall|b: Bound<Seq<u8>>| #[trigger] covers(out, b) == (covers(s, b) && covers(t, b)),
{
    assert forall|b: Bound<Seq<u8>>| #[trigger] covers(out, b) == (covers(s, b) && covers(t, b)) by {
        if covers(s, b) && covers(t, b) {
            let p = choose|p: int| 0 <= p < s.len() && (#[trigger] s[p]).covers(b);
            let q = choose|q: int| 0 <= q < t.len() && (#[trigger] t[q]).covers(b);
            assert(s[p].covers(b) && t[q].covers(b));
        }
    }
}

} // verus!
