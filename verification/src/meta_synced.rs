//! A local copy of the cluster's metadata, and what is derived from it: which tablet a key belongs
//! to, and which keys a tablet owns.

use std::collections::HashMap;

use vstd::prelude::*;

use crate::range::bound::{
    group_bound_order, law_bound_extremes, law_key_between_bounds, law_prefix_encloses, HasPrefix,
};
use crate::range::{Bound, Range, RangeSet};
use crate::router::{
    ascending_bounds, bounds_before_key, splits_keys, RouteError, StaticRouter,
};
use crate::types::data::{RevisionValue, Share, Timestamp};
use crate::types::{ColoGroupId, Direction, TabletId};
use crate::util::ordmap::OrdMap;
use crate::util::sort::{
    law_sorted_unique, permutation, sort_indices, strictly_sorted, Ranking,
};

verus! {

/// A tablet as the metadata describe it: ranges, and for each the colo group that it is of.
pub struct TabletRanges {
    pub tablet_id: TabletId,
    pub colo_group_ids: Vec<u32>,
    pub ranges: Vec<Range<Vec<u8>>>,
}

/// A range of a colo group with the tablet that owns it.
pub struct Owned {
    pub group: u32,
    pub range: Range<Seq<u8>>,
    pub tablet: TabletId,
}

/// Why tablets cannot be routed to.
#[derive(Clone, Copy, Debug, PartialEq, Eq, Structural)]
pub enum MetaSyncError {
    /// A tablet has not as many ranges as colo groups.
    CorruptedTablet(TabletId),
}

impl TabletRanges {
    pub open spec fn wf(self) -> bool {
        self.colo_group_ids@.len() == self.ranges@.len()
    }

    /// What the tablet owns.
    pub open spec fn owned(self) -> Seq<Owned> {
        Seq::new(
            self.ranges@.len(),
            |i: int|
                Owned {
                    group: self.colo_group_ids@[i],
                    range: self.ranges@[i]@,
                    tablet: self.tablet_id,
                },
        )
    }
}

/// What all tablets own.
pub open spec fn all_owned(tablets: Seq<TabletRanges>) -> Seq<Owned>
    decreases tablets.len(),
{
    if tablets.len() == 0 {
        Seq::empty()
    } else {
        all_owned(tablets.drop_last()) + tablets.last().owned()
    }
}

/// The first tablet whose description is corrupted.
pub open spec fn first_corrupted(tablets: Seq<TabletRanges>) -> Option<TabletId>
    decreases tablets.len(),
{
    if tablets.len() == 0 {
        None
    } else {
        match first_corrupted(tablets.drop_last()) {
            Some(t) => Some(t),
            None => if tablets.last().wf() {
                None
            } else {
                Some(tablets.last().tablet_id)
            },
        }
    }
}

proof fn lemma_first_corrupted(tablets: Seq<TabletRanges>, n: int)
    requires
        0 <= n <= tablets.len(),
        first_corrupted(tablets.take(n)) is Some,
    ensures
        first_corrupted(tablets) == first_corrupted(tablets.take(n)),
    decreases tablets.len(),
{
    if n == tablets.len() {
        assert(tablets.take(n) =~= tablets);
    } else {
        assert(tablets.drop_last().take(n) =~= tablets.take(n));
        lemma_first_corrupted(tablets.drop_last(), n);
    }
}

/// What is owned of a colo group.
pub open spec fn of_group(s: Seq<Owned>, g: u32) -> Seq<Owned>
    decreases s.len(),
{
    if s.len() == 0 {
        Seq::empty()
    } else if s.last().group == g {
        of_group(s.drop_last(), g).push(s.last())
    } else {
        of_group(s.drop_last(), g)
    }
}

/// Whether a colo group occurs.
pub open spec fn has_group(s: Seq<Owned>, g: u32) -> bool {
    exists|i: int| 0 <= i < s.len() && (#[trigger] s[i]).group == g
}

/// Whether indices put ranges in the order of their lower bounds, ranges with the same lower bound
/// in the order in which they come.
pub open spec fn sorts(s: Seq<Owned>, p: Seq<usize>) -> bool {
    &&& permutation(p, s.len())
    &&& forall|i: int, j: int|
        0 <= i < j < p.len() ==> s[#[trigger] p[i] as int].range.lower.before(
            s[#[trigger] p[j] as int].range.lower,
        ) || (s[p[i] as int].range.lower == s[p[j] as int].range.lower && p[i] < p[j])
}

/// Whether a colo group is routed by its ranges in order: to the tablet of each from its lower
/// bound on, and to the first below that.
pub open spec fn routes(
    entry: (Vec<Bound<Vec<u8>>>, Vec<TabletId>),
    s: Seq<Owned>,
    p: Seq<usize>,
) -> bool {
    &&& sorts(s, p)
    &&& entry.1@.len() == s.len()
    &&& entry.0@.len() == s.len() - 1
    &&& forall|i: int| 0 <= i < s.len() ==> (#[trigger] entry.1@[i]) == s[p[i] as int].tablet
    &&& forall|i: int|
        0 <= i < s.len() - 1 ==> (#[trigger] entry.0@[i])@ == s[p[i + 1] as int].range.lower
}

pub open spec fn routed(entry: (Vec<Bound<Vec<u8>>>, Vec<TabletId>), s: Seq<Owned>) -> bool {
    exists|p: Seq<usize>| #[trigger] routes(entry, s, p)
}

/// There is one way to put ranges in order.
pub proof fn law_sorted_ranges_unique(s: Seq<Owned>, p: Seq<usize>, q: Seq<usize>)
    requires
        sorts(s, p),
        sorts(s, q),
    ensures
        p == q,
{
    broadcast use group_bound_order;

    let lt = |a: usize, b: usize|
        s[a as int].range.lower.before(s[b as int].range.lower) || (s[a as int].range.lower
            == s[b as int].range.lower && a < b);
    assert(strictly_sorted(lt, p));
    assert(strictly_sorted(lt, q));
    law_sorted_unique(lt, p, q, s.len());
}

type Flat = Vec<(u32, Range<Vec<u8>>, TabletId)>;

spec fn flat_view(f: Seq<(u32, Range<Vec<u8>>, TabletId)>) -> Seq<Owned> {
    f.map_values(
        |e: (u32, Range<Vec<u8>>, TabletId)| Owned { group: e.0, range: e.1@, tablet: e.2 },
    )
}

fn flatten(tablets: &Vec<TabletRanges>) -> (r: Result<Flat, MetaSyncError>)
    ensures
        match first_corrupted(tablets@) {
            Some(t) => r matches Err(e) && e == MetaSyncError::CorruptedTablet(t),
            None => r matches Ok(f) && flat_view(f@) == all_owned(tablets@),
        },
{
    let mut out: Flat = Vec::new();
    let mut i: usize = 0;
    proof {
        assert(tablets@.take(0) =~= Seq::empty());
        assert(flat_view(out@) =~= Seq::empty());
    }
    while i < tablets.len()
        invariant
            i <= tablets@.len(),
            first_corrupted(tablets@.take(i as int)) is None,
            flat_view(out@) == all_owned(tablets@.take(i as int)),
        decreases tablets@.len() - i,
    {
        let t = &tablets[i];
        proof {
            assert(tablets@.take(i + 1).drop_last() =~= tablets@.take(i as int));
            assert(tablets@.take(i + 1).last() == t);
        }
        if t.colo_group_ids.len() != t.ranges.len() {
            proof {
                lemma_first_corrupted(tablets@, i + 1);
            }
            return Err(MetaSyncError::CorruptedTablet(t.tablet_id));
        }
        let ghost start = flat_view(out@);
        let mut j: usize = 0;
        assert(start =~= start + t.owned().take(0));
        while j < t.ranges.len()
            invariant
                j <= t.ranges@.len(),
                t.wf(),
                flat_view(out@) == start + t.owned().take(j as int),
            decreases t.ranges@.len() - j,
        {
            let ghost before = out@;
            let e = (t.colo_group_ids[j], t.ranges[j].clone(), t.tablet_id);
            out.push(e);
            proof {
                let o = Owned { group: e.0, range: e.1@, tablet: e.2 };
                assert(flat_view(out@) =~= flat_view(before).push(o));
                assert(t.owned()[j as int] == o);
                assert(t.owned().take(j + 1) =~= t.owned().take(j as int).push(o));
                assert(start + t.owned().take(j + 1) =~= (start + t.owned().take(j as int)).push(o));
            }
            j += 1;
        }
        assert(t.owned().take(j as int) =~= t.owned());
        i += 1;
    }
    assert(tablets@.take(i as int) =~= tablets@);
    Ok(out)
}

/// Ranks ranges by their lower bounds, then by where they stand.
struct ByLower<'a> {
    list: &'a Vec<(Range<Vec<u8>>, TabletId)>,
}

impl<'a> Ranking for ByLower<'a> {
    closed spec fn le(&self, a: int, b: int) -> bool {
        let (x, y) = (self.list@[a].0@.lower, self.list@[b].0@.lower);
        x.before(y) || (x == y && a <= b)
    }

    closed spec fn ranks(&self, a: int) -> bool {
        0 <= a < self.list@.len()
    }

    fn is_le(&self, a: usize, b: usize) -> (r: bool) {
        broadcast use group_bound_order;

        let x = &self.list[a].0.lower;
        let y = &self.list[b].0.lower;
        if x.is_before(y) {
            true
        } else {
            x.same(y) && a <= b
        }
    }

    proof fn lemma_total(&self, a: int, b: int) {
        broadcast use group_bound_order;

    }

    proof fn lemma_transitive(&self, a: int, b: int, c: int) {
        broadcast use group_bound_order;

    }
}

spec fn list_view(s: Seq<(Range<Vec<u8>>, TabletId)>, g: u32) -> Seq<Owned> {
    s.map_values(|e: (Range<Vec<u8>>, TabletId)| Owned { group: g, range: e.0@, tablet: e.1 })
}

fn select(flat: &Flat, g: u32) -> (r: Vec<(Range<Vec<u8>>, TabletId)>)
    ensures
        list_view(r@, g) == of_group(flat_view(flat@), g),
{
    let mut r: Vec<(Range<Vec<u8>>, TabletId)> = Vec::new();
    let ghost all = flat_view(flat@);
    let mut i: usize = 0;
    proof {
        assert(all.take(0) =~= Seq::empty());
        assert(list_view(r@, g) =~= Seq::empty());
    }
    while i < flat.len()
        invariant
            i <= flat@.len(),
            all == flat_view(flat@),
            list_view(r@, g) == of_group(all.take(i as int), g),
        decreases flat@.len() - i,
    {
        proof {
            assert(all.take(i + 1).drop_last() =~= all.take(i as int));
            assert(all.take(i + 1).last() == all[i as int]);
        }
        if flat[i].0 == g {
            let ghost before = r@;
            let e = (flat[i].1.clone(), flat[i].2);
            r.push(e);
            assert(list_view(r@, g) =~= list_view(before, g).push(all[i as int]));
        }
        i += 1;
    }
    assert(all.take(i as int) =~= all);
    r
}

proof fn lemma_of_group(s: Seq<Owned>, g: u32)
    ensures
        has_group(s, g) <==> of_group(s, g).len() > 0,
    decreases s.len(),
{
    if s.len() > 0 {
        lemma_of_group(s.drop_last(), g);
        if has_group(s.drop_last(), g) {
            let i = choose|i: int| 0 <= i < s.drop_last().len() && (#[trigger] s.drop_last()[i]).group == g;
            assert(s[i].group == g);
        }
        if s.last().group == g {
            assert(s[s.len() - 1].group == g);
        }
        if has_group(s, g) && s.last().group != g {
            let i = choose|i: int| 0 <= i < s.len() && (#[trigger] s[i]).group == g;
            assert(s.drop_last()[i].group == g);
        }
    }
}

fn route_group(flat: &Flat, g: u32) -> (r: (Vec<Bound<Vec<u8>>>, Vec<TabletId>))
    requires
        has_group(flat_view(flat@), g),
    ensures
        routed(r, of_group(flat_view(flat@), g)),
        splits_keys(r),
{
    let list = select(flat, g);
    let ghost s = of_group(flat_view(flat@), g);
    proof {
        lemma_of_group(flat_view(flat@), g);
        assert(list_view(list@, g).len() == list@.len());
    }
    let by = ByLower { list: &list };
    assert forall|i: int| 0 <= i < list@.len() implies #[trigger] by.ranks(i) by {}
    let order = sort_indices(&by, list.len());
    let ghost p = order@;
    let mut bounds: Vec<Bound<Vec<u8>>> = Vec::new();
    let mut tablet_ids: Vec<TabletId> = Vec::new();
    assert forall|i: int| 0 <= i < s.len() implies #[trigger] s[i] == (Owned {
        group: g,
        range: list@[i].0@,
        tablet: list@[i].1,
    }) by {
        assert(list_view(list@, g)[i] == s[i]);
    }
    let mut i: usize = 0;
    while i < order.len()
        invariant
            i <= order@.len(),
            p == order@,
            permutation(p, list@.len()),
            s.len() == list@.len(),
            list@.len() > 0,
            forall|j: int|
                0 <= j < s.len() ==> #[trigger] s[j] == (Owned {
                    group: g,
                    range: list@[j].0@,
                    tablet: list@[j].1,
                }),
            tablet_ids@.len() == i,
            bounds@.len() == if i == 0 {
                0
            } else {
                i - 1
            },
            forall|j: int| 0 <= j < i ==> (#[trigger] tablet_ids@[j]) == s[p[j] as int].tablet,
            forall|j: int|
                0 <= j < i - 1 ==> (#[trigger] bounds@[j])@ == s[p[j + 1] as int].range.lower,
        decreases order@.len() - i,
    {
        let k: usize = order[i];
        assert(p[i as int] < list@.len());
        if i > 0 {
            bounds.push(list[k].0.lower.clone());
        }
        tablet_ids.push(list[k].1);
        i += 1;
    }
    let r = (bounds, tablet_ids);
    proof {
        assert forall|a: int, b: int| 0 <= a < b < p.len() implies s[#[trigger] p[a] as int].range.lower.before(
            s[#[trigger] p[b] as int].range.lower,
        ) || (s[p[a] as int].range.lower == s[p[b] as int].range.lower && p[a] < p[b]) by {
            assert(by.le(p[a] as int, p[b] as int));
            assert(p[a] != p[b]);
        }
        assert(sorts(s, p));
        assert(routes(r, s, p));
        assert(ascending_bounds(r.0@)) by {
            broadcast use group_bound_order;

            assert forall|a: int, b: int| 0 <= a <= b < r.0@.len() implies (#[trigger] r.0@[a])@.at_most(
                (#[trigger] r.0@[b])@,
            ) by {
                if a < b {
                    assert(s[p[a + 1] as int].range.lower.before(s[p[b + 1] as int].range.lower) || s[
                    p[a + 1] as int].range.lower == s[p[b + 1] as int].range.lower);
                }
            }
        }
    }
    r
}

/// Whether a tablet owns a place of a colo group by any of its ranges.
pub open spec fn owned_at(
    s: Seq<Owned>,
    tablet: TabletId,
    group: ColoGroupId,
    b: Bound<Seq<u8>>,
) -> bool {
    exists|i: int|
        0 <= i < s.len() && (#[trigger] s[i]).tablet == tablet && s[i].group == group.0
            && s[i].range.covers(b)
}

/// What the metadata say of tablets.
pub struct MetaSynced {
    pub router: StaticRouter,
    pub owned_ranges: OrdMap<Share, RangeSet<Vec<u8>>>,
}

fn owned_map(flat: &Flat) -> (r: OrdMap<Share, RangeSet<Vec<u8>>>)
    ensures
        r.wf(),
        forall|k: Share| #[trigger] r@.contains_key(k) ==> r@[k].wf(),
        forall|t: TabletId, g: ColoGroupId, b: Bound<Seq<u8>>| #[trigger]
            owned_at(flat_view(flat@), t, g, b) == (r@.contains_key((t, g)) && r@[(t, g)].covers(
                b,
            )),
{
    let mut r: OrdMap<Share, RangeSet<Vec<u8>>> = OrdMap::new();
    let ghost all = flat_view(flat@);
    let mut i: usize = 0;
    while i < flat.len()
        invariant
            i <= flat@.len(),
            all == flat_view(flat@),
            r.wf(),
            forall|k: Share| #[trigger] r@.contains_key(k) ==> r@[k].wf(),
            forall|t: TabletId, g: ColoGroupId, b: Bound<Seq<u8>>| #[trigger]
                owned_at(all.take(i as int), t, g, b) == (r@.contains_key((t, g)) && r@[(
                    t,
                    g,
                )].covers(b)),
        decreases flat@.len() - i,
    {
        let k: Share = (flat[i].2, ColoGroupId(flat[i].0));
        let ghost before = r@;
        let mut set = match r.remove(&k) {
            Some(set) => set,
            None => RangeSet::new(),
        };
        let ghost had = set;
        set.add_range(flat[i].1.clone());
        let ghost now = set;
        r.insert(k, set);
        proof {
            let e = all[i as int];
            let (s0, s1) = (all.take(i as int), all.take(i + 1));
            assert(s1 =~= s0.push(e));
            assert(r@[k] == now);
            assert forall|t: TabletId, g: ColoGroupId, b: Bound<Seq<u8>>| #[trigger]
                owned_at(s1, t, g, b) == (r@.contains_key((t, g)) && r@[(t, g)].covers(b)) by {
                lemma_owned_push(s0, e, t, g, b);
                assert(owned_at(s0, t, g, b) == (before.contains_key((t, g)) && before[(
                    t,
                    g,
                )].covers(b)));
                if (t, g) == k {
                    assert(now.covers(b) == (had.covers(b) || e.range.covers(b)));
                    if !before.contains_key(k) {
                        assert(!had.covers(b));
                    }
                } else {
                    assert(r@.contains_key((t, g)) == before.contains_key((t, g)));
                    assert(e.tablet != t || e.group != g.0);
                }
            }
        }
        i += 1;
    }
    assert(all.take(i as int) =~= all);
    r
}

proof fn lemma_owned_push(
    s: Seq<Owned>,
    e: Owned,
    t: TabletId,
    g: ColoGroupId,
    b: Bound<Seq<u8>>,
)
    ensures
        owned_at(s.push(e), t, g, b) == (owned_at(s, t, g, b) || (e.tablet == t && e.group == g.0
            && e.range.covers(b))),
{
    let u = s.push(e);
    if owned_at(s, t, g, b) {
        let i = choose|i: int|
            0 <= i < s.len() && (#[trigger] s[i]).tablet == t && s[i].group == g.0
                && s[i].range.covers(b);
        assert(u[i] == s[i]);
    }
    assert(u[s.len() as int] == e);
    if owned_at(u, t, g, b) {
        let i = choose|i: int|
            0 <= i < u.len() && (#[trigger] u[i]).tablet == t && u[i].group == g.0
                && u[i].range.covers(b);
        if i < s.len() {
            assert(s[i] == u[i]);
        }
    }
}

impl MetaSynced {
    pub open spec fn wf(self) -> bool {
        &&& self.router.wf()
        &&& self.owned_ranges.wf()
        &&& forall|k: Share| #[trigger]
            self.owned_ranges@.contains_key(k) ==> self.owned_ranges@[k].wf()
    }

    /// Nothing is known of any tablet.
    pub fn new() -> (r: Self)
        ensures
            r.wf(),
            forall|g: u32| !#[trigger] r.router@.contains_key(g),
            forall|k: Share| !#[trigger] r.owned_ranges@.contains_key(k),
    {
        let empty: HashMap<u32, (Vec<Bound<Vec<u8>>>, Vec<TabletId>)> = HashMap::new();
        MetaSynced { router: StaticRouter::new(empty), owned_ranges: OrdMap::new() }
    }

    /// Routes to the tablets that the metadata describe. Where a description is corrupted, all
    /// stays as it was.
    pub fn regen_router(&mut self, tablets: &Vec<TabletRanges>) -> (r: Result<(), MetaSyncError>)
        requires
            old(self).wf(),
        ensures
            final(self).wf(),
            match first_corrupted(tablets@) {
                Some(t) => r == Err::<(), MetaSyncError>(MetaSyncError::CorruptedTablet(t))
                    && *final(self) == *old(self),
                None => {
                    let all = all_owned(tablets@);
                    &&& r is Ok
                    &&& forall|g: u32| #[trigger]
                        final(self).router@.contains_key(g) <==> has_group(all, g)
                    &&& forall|g: u32| #[trigger]
                        final(self).router@.contains_key(g) ==> routed(
                            final(self).router@[g],
                            of_group(all, g),
                        )
                    &&& forall|t: TabletId, g: ColoGroupId, b: Bound<Seq<u8>>| #[trigger]
                        owned_at(all, t, g, b) == (final(self).owned_ranges@.contains_key((t, g))
                            && final(self).owned_ranges@[(t, g)].covers(b))
                },
            },
    {
        let flat = match flatten(tablets) {
            Ok(flat) => flat,
            Err(e) => {
                return Err(e);
            },
        };
        let ghost all = all_owned(tablets@);
        let mut map: HashMap<u32, (Vec<Bound<Vec<u8>>>, Vec<TabletId>)> = HashMap::new();
        let mut i: usize = 0;
        while i < flat.len()
            invariant
                i <= flat@.len(),
                all == flat_view(flat@),
                forall|g: u32| #[trigger]
                    map@.contains_key(g) <==> has_group(all.take(i as int), g),
                forall|g: u32| #[trigger]
                    map@.contains_key(g) ==> routed(map@[g], of_group(all, g)) && splits_keys(
                        map@[g],
                    ),
            decreases flat@.len() - i,
        {
            let g: u32 = flat[i].0;
            assert(all[i as int].group == g);
            assert(has_group(all, g));
            if !map.contains_key(&g) {
                let entry = route_group(&flat, g);
                map.insert(g, entry);
            }
            proof {
                let (s0, s1) = (all.take(i as int), all.take(i + 1));
                assert forall|x: u32| #[trigger]
                    has_group(s1, x) <==> has_group(s0, x) || x == g by {
                    if has_group(s0, x) {
                        let j = choose|j: int| 0 <= j < s0.len() && (#[trigger] s0[j]).group == x;
                        assert(s1[j].group == x);
                    }
                    assert(s1[i as int].group == g);
                    if has_group(s1, x) {
                        let j = choose|j: int| 0 <= j < s1.len() && (#[trigger] s1[j]).group == x;
                        if j < i {
                            assert(s0[j].group == x);
                        }
                    }
                }
            }
            i += 1;
        }
        assert(all.take(i as int) =~= all);
        self.router = StaticRouter::new(map);
        self.owned_ranges = owned_map(&flat);
        Ok(())
    }

    /// What a tablet owns of a colo group.
    pub fn ranges_for_tablet(&self, tablet_id: TabletId, colo_group_id: ColoGroupId) -> (r: RangeSet<
        Vec<u8>,
    >)
        requires
            self.wf(),
        ensures
            r.wf(),
            if colo_group_id == ColoGroupId::meta() && tablet_id == TabletId::meta() {
                forall|b: Bound<Seq<u8>>| b != Bound::<Seq<u8>>::AfterAll ==> r.covers(b)
            } else if colo_group_id == ColoGroupId::tablet_meta() {
                exists|pfx: Seq<u8>| #[trigger]
                    tablet_id.encoded(pfx) && forall|b: Bound<Seq<u8>>|
                        r.covers(b) == (Range {
                            lower: Bound::Before(pfx),
                            upper: Bound::AfterPrefix(pfx),
                        }).covers(b)
            } else if self.owned_ranges@.contains_key((tablet_id, colo_group_id)) {
                r@ == self.owned_ranges@[(tablet_id, colo_group_id)]@
            } else {
                r@.len() == 0
            },
    {
        broadcast use group_bound_order;

        if colo_group_id == ColoGroupId::meta() && tablet_id == TabletId::meta() {
            let r: RangeSet<Vec<u8>> = RangeSet::from(Range::all());
            proof {
                let all = Range { lower: Bound::<Seq<u8>>::BeforeAll, upper: Bound::AfterAll };
                assert forall|b: Bound<Seq<u8>>| b != Bound::<Seq<u8>>::AfterAll implies r.covers(
                    b,
                ) by {
                    law_bound_extremes(b);
                    law_bound_extremes(Bound::<Seq<u8>>::AfterAll);
                    assert(all.covers(b));
                    assert(r@[0] == all);
                }
            }
            return r;
        }
        if colo_group_id == ColoGroupId::tablet_meta() {
            let pfx = tablet_id.encode_fixed();
            let ghost p = pfx@;
            let range = Range::prefix(pfx);
            let ghost view = range@;
            let r = RangeSet::from(range);
            proof {
                law_prefix_encloses(p, Bound::Before(p));
                assert(!view.vacant());
                assert(r@[0] == view);
                assert forall|b: Bound<Seq<u8>>| r.covers(b) == view.covers(b) by {
                    assert(r@[0].covers(b) == view.covers(b));
                }
                assert(tablet_id.encoded(p));
            }
            return r;
        }
        match self.owned_ranges.get(&(tablet_id, colo_group_id)) {
            Some(set) => set.clone(),
            None => RangeSet::new(),
        }
    }

    /// The tablet that a key belongs to.
    pub fn tablet_id_for_key(&self, colo_group_id: ColoGroupId, key: &[u8]) -> (r: Result<
        TabletId,
        RouteError,
    >)
        requires
            self.wf(),
        ensures
            r == self.router.route(colo_group_id, key@),
    {
        self.router.tablet_id_for_key(colo_group_id, key)
    }

    /// The tablet that a scan from a bound in a direction starts in.
    pub fn tablet_id_for_bound(
        &self,
        colo_group_id: ColoGroupId,
        bound: Bound<&[u8]>,
        direction: Direction,
    ) -> (r: Result<TabletId, RouteError>)
        requires
            self.wf(),
        ensures
            r == self.router.route_bound(colo_group_id, bound@, direction),
    {
        self.router.tablet_id_for_bound(colo_group_id, bound, direction)
    }
}

/// A record of the metadata as of some point in time: a value, or that there is none.
pub struct MetaRecord {
    pub key: Vec<u8>,
    pub value: RevisionValue,
}

/// A copy of the metadata, as of a point in time.
pub struct MetaCopy {
    pub ts: Timestamp,
    pub kv: OrdMap<Vec<u8>, Vec<u8>>,
}

/// What entries are, key by key.
pub open spec fn kv_view(m: Map<Seq<u8>, Vec<u8>>) -> Map<Seq<u8>, Seq<u8>> {
    m.map_values(|v: Vec<u8>| v@)
}

/// The entries with a record applied.
pub open spec fn with_record(m: Map<Seq<u8>, Seq<u8>>, r: MetaRecord) -> Map<Seq<u8>, Seq<u8>> {
    match r.value@ {
        Some(v) => m.insert(r.key@, v),
        None => m.remove(r.key@),
    }
}

/// The entries with records applied one after the other.
pub open spec fn with_records(
    m: Map<Seq<u8>, Seq<u8>>,
    records: Seq<MetaRecord>,
) -> Map<Seq<u8>, Seq<u8>>
    decreases records.len(),
{
    if records.len() == 0 {
        m
    } else {
        with_record(with_records(m, records.drop_last()), records.last())
    }
}

/// What to do after a round of syncing.
#[derive(Clone, Copy, Debug, PartialEq, Eq, Structural)]
pub enum SyncNext {
    /// There may be more: sync again.
    Sync,
    /// Nothing changed: wait for something newer than the copy first.
    WaitForNewer,
}

impl MetaCopy {
    /// A copy without entries, to be filled from a snapshot.
    pub fn new(ts: Timestamp) -> (r: Self)
        ensures
            r.kv.wf(),
            r.ts == ts,
            kv_view(r.kv@) == Map::<Seq<u8>, Seq<u8>>::empty(),
    {
        let r = MetaCopy { ts, kv: OrdMap::new() };
        assert(kv_view(r.kv@) =~= Map::<Seq<u8>, Seq<u8>>::empty());
        r
    }

    fn apply(&mut self, records: Vec<MetaRecord>)
        requires
            old(self).kv.wf(),
        ensures
            final(self).kv.wf(),
            final(self).ts == old(self).ts,
            kv_view(final(self).kv@) == with_records(kv_view(old(self).kv@), records@),
    {
        let ghost start = kv_view(self.kv@);
        let mut i: usize = 0;
        assert(records@.take(0) =~= Seq::empty());
        while i < records.len()
            invariant
                i <= records@.len(),
                self.kv.wf(),
                self.ts == old(self).ts,
                kv_view(self.kv@) == with_records(start, records@.take(i as int)),
            decreases records@.len() - i,
        {
            let ghost before = self.kv@;
            proof {
                assert(records@.take(i + 1).drop_last() =~= records@.take(i as int));
                assert(records@.take(i + 1).last() == records@[i as int]);
            }
            match &records[i].value {
                RevisionValue::Regular(v) => {
                    let value = v.copied();
                    self.kv.insert(records[i].key.copied(), value);
                    assert(kv_view(self.kv@) =~= kv_view(before).insert(
                        records@[i as int].key@,
                        value@,
                    ));
                },
                RevisionValue::Tombstone => {
                    self.kv.remove(&records[i].key);
                    assert(kv_view(self.kv@) =~= kv_view(before).remove(records@[i as int].key@));
                },
            }
            i += 1;
        }
        assert(records@.take(i as int) =~= records@);
    }

    /// Takes in a page of the snapshot that the copy starts from.
    pub fn add_page(&mut self, page: Vec<(Vec<u8>, Vec<u8>)>)
        requires
            old(self).kv.wf(),
        ensures
            final(self).kv.wf(),
            final(self).ts == old(self).ts,
            kv_view(final(self).kv@) == with_page(kv_view(old(self).kv@), page@),
    {
        let ghost start = kv_view(self.kv@);
        let mut i: usize = 0;
        assert(page@.take(0) =~= Seq::empty());
        while i < page.len()
            invariant
                i <= page@.len(),
                self.kv.wf(),
                self.ts == old(self).ts,
                kv_view(self.kv@) == with_page(start, page@.take(i as int)),
            decreases page@.len() - i,
        {
            let ghost before = self.kv@;
            proof {
                assert(page@.take(i + 1).drop_last() =~= page@.take(i as int));
                assert(page@.take(i + 1).last() == page@[i as int]);
            }
            let value = page[i].1.copied();
            self.kv.insert(page[i].0.copied(), value);
            assert(kv_view(self.kv@) =~= kv_view(before).insert(page@[i as int].0@, value@));
            i += 1;
        }
        assert(page@.take(i as int) =~= page@);
    }

    /// Takes in what changed since the copy was made, and says what to do next.
    pub fn sync(&mut self, records: Vec<MetaRecord>, new_ts: Timestamp) -> (r: SyncNext)
        requires
            old(self).kv.wf(),
        ensures
            final(self).kv.wf(),
            final(self).ts == new_ts,
            kv_view(final(self).kv@) == with_records(kv_view(old(self).kv@), records@),
            r == if new_ts == old(self).ts {
                SyncNext::WaitForNewer
            } else {
                SyncNext::Sync
            },
    {
        self.apply(records);
        let next = if new_ts == self.ts {
            SyncNext::WaitForNewer
        } else {
            SyncNext::Sync
        };
        self.ts = new_ts;
        next
    }
}

/// The entries with those of a page.
pub open spec fn with_page(
    m: Map<Seq<u8>, Seq<u8>>,
    page: Seq<(Vec<u8>, Vec<u8>)>,
) -> Map<Seq<u8>, Seq<u8>>
    decreases page.len(),
{
    if page.len() == 0 {
        m
    } else {
        with_page(m, page.drop_last()).insert(page.last().0@, page.last().1@)
    }
}

/// The last record of a key decides what the copy holds of it.
pub proof fn law_last_record_wins(
    m: Map<Seq<u8>, Seq<u8>>,
    records: Seq<MetaRecord>,
    i: int,
)
    requires
        0 <= i < records.len(),
        forall|j: int| i < j < records.len() ==> (#[trigger] records[j]).key@ != records[i].key@,
    ensures
        match records[i].value@ {
            Some(v) => with_records(m, records).contains_key(records[i].key@) && with_records(
                m,
                records,
            )[records[i].key@] == v,
            None => !with_records(m, records).contains_key(records[i].key@),
        },
    decreases records.len(),
{
    if i < records.len() - 1 {
        assert(records.last().key@ != records[i].key@);
        assert forall|j: int| i < j < records.drop_last().len() implies (
        #[trigger] records.drop_last()[j]).key@ != records.drop_last()[i].key@ by {
            assert(records[j].key@ != records[i].key@);
        }
        law_last_record_wins(m, records.drop_last(), i);
    }
}

/// A key that no record is about keeps what the copy held of it.
pub proof fn law_unmentioned_kept(m: Map<Seq<u8>, Seq<u8>>, records: Seq<MetaRecord>, k: Seq<u8>)
    requires
        forall|j: int| 0 <= j < records.len() ==> (#[trigger] records[j]).key@ != k,
    ensures
        with_records(m, records).contains_key(k) == m.contains_key(k),
        m.contains_key(k) ==> with_records(m, records)[k] == m[k],
    decreases records.len(),
{
    if records.len() > 0 {
        assert(records[records.len() - 1].key@ != k);
        assert forall|j: int| 0 <= j < records.drop_last().len() implies (
        #[trigger] records.drop_last()[j]).key@ != k by {
            assert(records[j].key@ != k);
        }
        law_unmentioned_kept(m, records.drop_last(), k);
    }
}

/// The bounds before a key come first.
proof fn lemma_bounds_split(bounds: Seq<Bound<Vec<u8>>>, k: Seq<u8>)
    requires
        ascending_bounds(bounds),
    ensures
        bounds_before_key(bounds, k) <= bounds.len(),
        forall|i: int|
            0 <= i < bounds_before_key(bounds, k) ==> (#[trigger] bounds[i])@.before_key(k),
        forall|i: int|
            bounds_before_key(bounds, k) <= i < bounds.len() ==> !(#[trigger] bounds[i])@.before_key(
                k,
            ),
    decreases bounds.len(),
{
    broadcast use group_bound_order;

    if bounds.len() > 0 {
        let rest = bounds.drop_last();
        assert(ascending_bounds(rest)) by {
            assert forall|i: int, j: int| 0 <= i <= j < rest.len() implies (
            #[trigger] rest[i])@.at_most((#[trigger] rest[j])@) by {
                assert(bounds[i]@.at_most(bounds[j]@));
            }
        }
        lemma_bounds_split(rest, k);
        assert forall|i: int| 0 <= i < rest.len() implies #[trigger] bounds[i] == rest[i] by {}
        if bounds.last()@.before_key(k) {
            law_key_between_bounds(bounds.last()@, k);
            let n = bounds_before_key(rest, k) as int;
            if n < rest.len() {
                assert(bounds[n]@.at_most(bounds[bounds.len() - 1]@));
                law_key_between_bounds(bounds[n]@, k);
                assert(rest[n]@.before_key(k));
            }
        }
    }
}

/// Whether ranges in order follow each other without gaps, from the first key to the last.
pub open spec fn partitions(s: Seq<Owned>, p: Seq<usize>) -> bool {
    &&& s.len() > 0
    &&& s[p[0] as int].range.lower == Bound::<Seq<u8>>::BeforeAll
    &&& s[p[s.len() - 1] as int].range.upper == Bound::<Seq<u8>>::AfterAll
    &&& forall|i: int|
        0 <= i < s.len() - 1 ==> s[(#[trigger] p[i]) as int].range.upper == s[p[i + 1] as int].range.lower
}

/// Where the ranges of a colo group follow each other without gaps, a key belongs to the tablet
/// that owns the range with the key.
pub proof fn law_key_routed_to_owner(
    entry: (Vec<Bound<Vec<u8>>>, Vec<TabletId>),
    s: Seq<Owned>,
    p: Seq<usize>,
    k: Seq<u8>,
)
    requires
        routes(entry, s, p),
        partitions(s, p),
        ascending_bounds(entry.0@),
    ensures
        exists|i: int|
            0 <= i < s.len() && (#[trigger] s[i]).range.has(k) && s[i].tablet
                == entry.1@[bounds_before_key(entry.0@, k) as int],
{
    let bounds = entry.0@;
    let n = bounds_before_key(bounds, k) as int;
    lemma_bounds_split(bounds, k);
    let i = p[n] as int;
    assert(0 <= i < s.len());
    assert(entry.1@[n] == s[i].tablet);
    law_key_between_bounds(Bound::BeforeAll, k);
    law_key_between_bounds(Bound::AfterAll, k);
    law_bound_extremes(Bound::Before(k));
    law_bound_extremes(Bound::After(k));
    assert(s[i].range.lower.before_key(k)) by {
        if n > 0 {
            assert(bounds[n - 1]@ == s[p[n - 1 + 1] as int].range.lower);
        }
    }
    assert(!s[i].range.upper.before_key(k)) by {
        broadcast use group_bound_order;

        if n < bounds.len() {
            assert(bounds[n]@ == s[p[n + 1] as int].range.lower);
            assert(s[p[n] as int].range.upper == s[p[n + 1] as int].range.lower);
        } else {
            assert(s[i].range.upper == Bound::<Seq<u8>>::AfterAll);
        }
    }
    assert(s[i].range.has(k));
}

} // verus!
