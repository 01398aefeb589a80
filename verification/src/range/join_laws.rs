//! What ranges make together.

use vstd::prelude::*;

use super::bound::group_bound_order;
use super::range_set::{
    canonical, covers, joined, law_canonical_unique, lemma_add, lemma_normal_form, merged,
    normal_form,
};
use super::{Bound, Range};

verus! {

broadcast use group_bound_order;

/// How many of the first ranges of a set end before a bound.
proof fn lemma_ended_before(s: Seq<Range<Seq<u8>>>, b: Bound<Seq<u8>>, n: int) -> (lo: int)
    requires
        canonical(s),
        0 <= n <= s.len(),
        forall|i: int| n <= i < s.len() ==> b.at_most((#[trigger] s[i]).upper),
    ensures
        0 <= lo <= n,
        forall|i: int| 0 <= i < lo ==> (#[trigger] s[i]).upper.before(b),
        forall|i: int| lo <= i < s.len() ==> b.at_most((#[trigger] s[i]).upper),
    decreases n,
{
    if n == 0 {
        0
    } else if s[n - 1].upper.before(b) {
        assert forall|i: int| 0 <= i < n implies (#[trigger] s[i]).upper.before(b) by {
            if i < n - 1 {
                assert(s[i].upper.before(s[n - 1].lower));
            }
        }
        n
    } else {
        lemma_ended_before(s, b, n - 1)
    }
}

/// How many of the first ranges of a set start at a bound or before it.
proof fn lemma_started_by(s: Seq<Range<Seq<u8>>>, b: Bound<Seq<u8>>, n: int) -> (hi: int)
    requires
        canonical(s),
        0 <= n <= s.len(),
        forall|i: int| n <= i < s.len() ==> b.before((#[trigger] s[i]).lower),
    ensures
        0 <= hi <= n,
        forall|i: int| 0 <= i < hi ==> (#[trigger] s[i]).lower.at_most(b),
        forall|i: int| hi <= i < s.len() ==> b.before((#[trigger] s[i]).lower),
    decreases n,
{
    if n == 0 {
        0
    } else if s[n - 1].lower.at_most(b) {
        assert forall|i: int| 0 <= i < n implies (#[trigger] s[i]).lower.at_most(b) by {
            if i < n - 1 {
                assert(s[i].upper.before(s[n - 1].lower));
                assert(s[i].lower.before(s[i].upper));
            }
        }
        n
    } else {
        lemma_started_by(s, b, n - 1)
    }
}

/// Whatever some ranges cover, a set covers.
proof fn lemma_set_exists(ranges: Seq<Range<Seq<u8>>>) -> (s: Seq<Range<Seq<u8>>>)
    ensures
        canonical(s),
        forall|b: Bound<Seq<u8>>| #[trigger] covers(s, b) == covers(ranges, b),
    decreases ranges.len(),
{
    if ranges.len() == 0 {
        ranges
    } else {
        let rest = ranges.drop_last();
        let r = ranges.last();
        let s = lemma_set_exists(rest);
        assert forall|b: Bound<Seq<u8>>| #[trigger]
            covers(ranges, b) == (covers(rest, b) || r.covers(b)) by {
            if covers(rest, b) {
                let i = choose|i: int| 0 <= i < rest.len() && (#[trigger] rest[i]).covers(b);
                assert(ranges[i].covers(b));
            }
            if r.covers(b) {
                assert(ranges[ranges.len() - 1].covers(b));
            }
            if covers(ranges, b) {
                let i = choose|i: int| 0 <= i < ranges.len() && (#[trigger] ranges[i]).covers(b);
                if i < rest.len() {
                    assert(rest[i].covers(b));
                }
            }
        }
        if r.vacant() {
            assert forall|b: Bound<Seq<u8>>| #[trigger] covers(s, b) == covers(ranges, b) by {
                super::span::law_vacant_range(r, b, Seq::empty());
                assert(covers(s, b) == covers(rest, b));
            }
            s
        } else {
            let lo = lemma_ended_before(s, r.lower, s.len() as int);
            let hi = lemma_started_by(s, r.upper, s.len() as int);
            if hi < lo {
                assert(r.upper.before(s[hi].lower));
                assert(s[hi].upper.before(r.lower));
                assert(s[hi].lower.before(s[hi].upper));
            }
            lemma_add(s, r, lo, hi);
            let t = s.take(lo).push(merged(s, r, lo, hi)) + s.skip(hi);
            assert forall|b: Bound<Seq<u8>>| #[trigger] covers(t, b) == covers(ranges, b) by {
                assert(covers(s, b) == covers(rest, b));
            }
            t
        }
    }
}

/// Where ranges make one range, it covers exactly what they cover. Where they do not, no range does.
pub proof fn law_joined(ranges: Seq<Range<Seq<u8>>>, other: Range<Seq<u8>>)
    ensures
        joined(ranges) matches Some(r) ==> forall|b: Bound<Seq<u8>>| #[trigger]
            covers(ranges, b) == r.covers(b),
        joined(ranges) is None ==> exists|b: Bound<Seq<u8>>|
            #[trigger] covers(ranges, b) != other.covers(b),
{
    let s = lemma_set_exists(ranges);
    lemma_normal_form(s, ranges);
    if let Some(r) = joined(ranges) {
        assert forall|b: Bound<Seq<u8>>| #[trigger] covers(ranges, b) == r.covers(b) by {
            assert(covers(s, b) == covers(ranges, b));
            if s.len() == 1 && r.covers(b) {
                assert(s[0].covers(b));
            }
            if s.len() == 0 {
                assert(r.vacant());
                super::span::law_vacant_range(r, b, Seq::empty());
            }
        }
    } else if forall|b: Bound<Seq<u8>>| #[trigger] covers(ranges, b) == other.covers(b) {
        let t = if other.vacant() {
            Seq::<Range<Seq<u8>>>::empty()
        } else {
            seq![other]
        };
        assert(canonical(t));
        assert forall|b: Bound<Seq<u8>>| covers(t, b) == covers(s, b) by {
            assert(covers(s, b) == covers(ranges, b));
            assert(covers(ranges, b) == other.covers(b));
            if other.vacant() {
                super::span::law_vacant_range(other, b, Seq::empty());
            } else {
                assert(t[0] == other);
                if other.covers(b) {
                    assert(t[0].covers(b));
                }
            }
        }
        law_canonical_unique(t, s);
        assert(normal_form(ranges).len() <= 1);
    }
}

} // verus!
