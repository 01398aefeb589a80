//! Finding the tablet that a key or a scan belongs to.

use std::collections::HashMap;

use vstd::prelude::*;

use crate::range::bound::{group_bound_order, law_key_between_bounds, HasPrefix};
use crate::range::Bound;
use crate::types::{ColoGroupId, Direction, ShardId, TabletId, SHARD_ID_LEN};
use crate::util::bytes::{be_value, read_u32_be, sub_bytes};

verus! {

/// Why there is no tablet for a key or a bound.
#[derive(Clone, Copy, Debug, PartialEq, Eq, Structural)]
pub enum RouteError {
    /// A key of a shard's metadata is too short to start with a shard.
    KeyTooShort,
    /// The scan would run off the edge of a shard's metadata.
    NotRouteable,
    /// The colo group is not known.
    NoRouting(ColoGroupId),
}

/// Whether bounds are in ascending order.
pub open spec fn ascending_bounds(bounds: Seq<Bound<Vec<u8>>>) -> bool {
    forall|i: int, j: int|
        0 <= i <= j < bounds.len() ==> (#[trigger] bounds[i])@.at_most((#[trigger] bounds[j])@)
}

/// Whether bounds split the keys between tablets.
pub open spec fn splits_keys(entry: (Vec<Bound<Vec<u8>>>, Vec<TabletId>)) -> bool {
    ascending_bounds(entry.0@) && entry.0@.len() + 1 == entry.1@.len()
}

/// How many of the bounds stand before a key.
pub open spec fn bounds_before_key(bounds: Seq<Bound<Vec<u8>>>, k: Seq<u8>) -> nat
    decreases bounds.len(),
{
    if bounds.len() == 0 {
        0
    } else {
        bounds_before_key(bounds.drop_last(), k) + if bounds.last()@.before_key(k) {
            1nat
        } else {
            0
        }
    }
}

/// How many of the bounds stand before a bound, or at it where `inclusive`.
pub open spec fn bounds_before(
    bounds: Seq<Bound<Vec<u8>>>,
    b: Bound<Seq<u8>>,
    inclusive: bool,
) -> nat
    decreases bounds.len(),
{
    if bounds.len() == 0 {
        0
    } else {
        bounds_before(bounds.drop_last(), b, inclusive) + if bounds.last()@.before(b) || (inclusive
            && bounds.last()@ == b) {
            1nat
        } else {
            0
        }
    }
}

/// A fixed assignment of keys to tablets.
pub struct StaticRouter {
    map: HashMap<u32, (Vec<Bound<Vec<u8>>>, Vec<TabletId>)>,
}

impl View for StaticRouter {
    type V = Map<u32, (Vec<Bound<Vec<u8>>>, Vec<TabletId>)>;

    closed spec fn view(&self) -> Map<u32, (Vec<Bound<Vec<u8>>>, Vec<TabletId>)> {
        self.map@
    }
}

/// The shard that the bytes of a key start with.
pub open spec fn shard_of_key(key: Seq<u8>) -> ShardId {
    ShardId(be_value(key.take(SHARD_ID_LEN as int)) as u32)
}

fn read_shard(key: &[u8]) -> (r: ShardId)
    requires
        key@.len() >= SHARD_ID_LEN,
    ensures
        r == shard_of_key(key@),
{
    ShardId(read_u32_be(key))
}

proof fn lemma_count_key(bounds: Seq<Bound<Vec<u8>>>, k: Seq<u8>, n: int)
    requires
        0 <= n <= bounds.len(),
        forall|i: int| 0 <= i < n ==> (#[trigger] bounds[i])@.before_key(k),
        forall|i: int| n <= i < bounds.len() ==> !(#[trigger] bounds[i])@.before_key(k),
    ensures
        bounds_before_key(bounds, k) == n,
    decreases bounds.len(),
{
    if bounds.len() > 0 {
        if n == bounds.len() {
            lemma_count_key(bounds.drop_last(), k, n - 1);
        } else {
            lemma_count_key(bounds.drop_last(), k, n);
        }
    }
}

proof fn lemma_count_bound(
    bounds: Seq<Bound<Vec<u8>>>,
    b: Bound<Seq<u8>>,
    inclusive: bool,
    n: int,
)
    requires
        0 <= n <= bounds.len(),
        forall|i: int|
            0 <= i < n ==> (#[trigger] bounds[i])@.before(b) || (inclusive && bounds[i]@ == b),
        forall|i: int|
            n <= i < bounds.len() ==> !(#[trigger] bounds[i])@.before(b) && !(inclusive && bounds[i]@
                == b),
    ensures
        bounds_before(bounds, b, inclusive) == n,
    decreases bounds.len(),
{
    if bounds.len() > 0 {
        if n == bounds.len() {
            lemma_count_bound(bounds.drop_last(), b, inclusive, n - 1);
        } else {
            lemma_count_bound(bounds.drop_last(), b, inclusive, n);
        }
    }
}

fn find_key(bounds: &Vec<Bound<Vec<u8>>>, key: &Vec<u8>) -> (n: usize)
    requires
        ascending_bounds(bounds@),
    ensures
        n == bounds_before_key(bounds@, key@),
        n <= bounds@.len(),
{
    let mut lo: usize = 0;
    let mut hi: usize = bounds.len();
    while lo < hi
        invariant
            ascending_bounds(bounds@),
            lo <= hi <= bounds@.len(),
            forall|i: int| 0 <= i < lo ==> (#[trigger] bounds@[i])@.before_key(key@),
            forall|i: int| hi <= i < bounds@.len() ==> !(#[trigger] bounds@[i])@.before_key(key@),
        decreases hi - lo,
    {
        broadcast use group_bound_order;

        let mid: usize = lo + (hi - lo) / 2;
        proof {
            assert forall|i: int| 0 <= i < bounds@.len() implies (
            #[trigger] bounds@[i])@.before_key(key@) == bounds@[i]@.at_most(Bound::Before(key@)) by {
                law_key_between_bounds(bounds@[i]@, key@);
            }
            assert forall|i: int| 0 <= i <= mid implies (#[trigger] bounds@[i])@.at_most(
                bounds@[mid as int]@,
            ) by {}
            assert forall|i: int| mid <= i < bounds@.len() implies bounds@[mid as int]@.at_most(
                (#[trigger] bounds@[i])@,
            ) by {}
        }
        if bounds[mid].is_before_key(key) {
            lo = mid + 1;
        } else {
            hi = mid;
        }
    }
    proof {
        lemma_count_key(bounds@, key@, lo as int);
    }
    lo
}

fn find_bound(bounds: &Vec<Bound<Vec<u8>>>, b: &Bound<Vec<u8>>, inclusive: bool) -> (n: usize)
    requires
        ascending_bounds(bounds@),
    ensures
        n == bounds_before(bounds@, b@, inclusive),
        n <= bounds@.len(),
{
    let mut lo: usize = 0;
    let mut hi: usize = bounds.len();
    while lo < hi
        invariant
            ascending_bounds(bounds@),
            lo <= hi <= bounds@.len(),
            forall|i: int|
                0 <= i < lo ==> (#[trigger] bounds@[i])@.before(b@) || (inclusive && bounds@[i]@
                    == b@),
            forall|i: int|
                hi <= i < bounds@.len() ==> !(#[trigger] bounds@[i])@.before(b@) && !(inclusive
                    && bounds@[i]@ == b@),
        decreases hi - lo,
    {
        broadcast use group_bound_order;

        let mid: usize = lo + (hi - lo) / 2;
        proof {
            assert forall|i: int| 0 <= i <= mid implies (#[trigger] bounds@[i])@.at_most(
                bounds@[mid as int]@,
            ) by {}
            assert forall|i: int| mid <= i < bounds@.len() implies bounds@[mid as int]@.at_most(
                (#[trigger] bounds@[i])@,
            ) by {}
        }
        if bounds[mid].is_before(b) || (inclusive && bounds[mid].same(b)) {
            lo = mid + 1;
        } else {
            hi = mid;
        }
    }
    proof {
        lemma_count_bound(bounds@, b@, inclusive, lo as int);
    }
    lo
}

impl StaticRouter {
    /// Every group's bounds split the keys between its tablets.
    pub open spec fn wf(&self) -> bool {
        forall|g: u32| #[trigger] self@.contains_key(g) ==> splits_keys(self@[g])
    }

    /// Routes each group, given by its number, by bounds and the tablets between them.
    pub fn new(m: HashMap<u32, (Vec<Bound<Vec<u8>>>, Vec<TabletId>)>) -> (r: Self)
        requires
            forall|g: u32| #[trigger] m@.contains_key(g) ==> splits_keys(m@[g]),
        ensures
            r.wf(),
            r@ == m@,
    {
        StaticRouter { map: m }
    }

    /// The tablet that a key belongs to.
    pub open spec fn route(&self, colo_group_id: ColoGroupId, key: Seq<u8>) -> Result<
        TabletId,
        RouteError,
    > {
        if colo_group_id == ColoGroupId::meta() {
            Ok(TabletId::meta())
        } else if colo_group_id == ColoGroupId::shard_meta() {
            if key.len() < SHARD_ID_LEN {
                Err(RouteError::KeyTooShort)
            } else {
                Ok(TabletId::shard_meta(shard_of_key(key)))
            }
        } else if self@.contains_key(colo_group_id.0) {
            let (splits, tablet_ids) = self@[colo_group_id.0];
            Ok(tablet_ids@[bounds_before_key(splits@, key) as int])
        } else {
            Err(RouteError::NoRouting(colo_group_id))
        }
    }

    /// The tablet that a key belongs to.
    pub fn tablet_id_for_key(&self, colo_group_id: ColoGroupId, key: &[u8]) -> (r: Result<
        TabletId,
        RouteError,
    >)
        requires
            self.wf(),
        ensures
            r == self.route(colo_group_id, key@),
    {
        if colo_group_id == ColoGroupId::meta() {
            return Ok(TabletId::meta());
        }
        if colo_group_id == ColoGroupId::shard_meta() {
            if key.len() < SHARD_ID_LEN {
                return Err(RouteError::KeyTooShort);
            }
            return Ok(TabletId::shard_meta(read_shard(key)));
        }
        match self.map.get(&colo_group_id.0) {
            Some((splits, tablet_ids)) => {
                assert(self@.contains_key(colo_group_id.0));
                assert(splits_keys(self@[colo_group_id.0]));
                let owned = sub_bytes(key, 0, key.len());
                assert(owned@ =~= key@);
                let idx: usize = find_key(splits, &owned);
                Ok(tablet_ids[idx])
            },
            None => Err(RouteError::NoRouting(colo_group_id)),
        }
    }

    /// The tablet that a scan from a bound in a direction starts in.
    pub open spec fn route_bound(
        &self,
        colo_group_id: ColoGroupId,
        bound: Bound<Seq<u8>>,
        direction: Direction,
    ) -> Result<TabletId, RouteError> {
        if colo_group_id == ColoGroupId::meta() {
            Ok(TabletId::meta())
        } else if colo_group_id == ColoGroupId::shard_meta() {
            if bound is BeforeAll || bound is AfterAll {
                Err(RouteError::NotRouteable)
            } else if bound.stem().len() < SHARD_ID_LEN {
                Err(RouteError::KeyTooShort)
            } else if off_shard_edge(bound, direction) {
                Err(RouteError::NotRouteable)
            } else {
                Ok(TabletId::shard_meta(shard_of_key(bound.stem())))
            }
        } else if self@.contains_key(colo_group_id.0) {
            let (splits, tablet_ids) = self@[colo_group_id.0];
            Ok(
                tablet_ids@[bounds_before(
                    splits@,
                    bound,
                    direction == Direction::Asc,
                ) as int],
            )
        } else {
            Err(RouteError::NoRouting(colo_group_id))
        }
    }

    /// The tablet that a scan from a bound in a direction starts in.
    pub fn tablet_id_for_bound(
        &self,
        colo_group_id: ColoGroupId,
        bound: Bound<&[u8]>,
        direction: Direction,
    ) -> (r: Result<TabletId, RouteError>)
        requires
            self.wf(),
        ensures
            r == self.route_bound(colo_group_id, bound@, direction),
    {
        if colo_group_id == ColoGroupId::meta() {
            return Ok(TabletId::meta());
        }
        if colo_group_id == ColoGroupId::shard_meta() {
            let key = match bound {
                Bound::BeforeAll => return Err(RouteError::NotRouteable),
                Bound::AfterAll => return Err(RouteError::NotRouteable),
                Bound::Before(key) => {
                    if direction == Direction::Desc && key.len() == SHARD_ID_LEN {
                        return Err(RouteError::NotRouteable);
                    }
                    key
                },
                Bound::After(key) => key,
                Bound::AfterPrefix(key) => {
                    if direction == Direction::Asc && key.len() == SHARD_ID_LEN {
                        return Err(RouteError::NotRouteable);
                    }
                    key
                },
            };
            if key.len() < SHARD_ID_LEN {
                return Err(RouteError::KeyTooShort);
            }
            return Ok(TabletId::shard_meta(read_shard(key)));
        }
        match self.map.get(&colo_group_id.0) {
            Some((splits, tablet_ids)) => {
                assert(self@.contains_key(colo_group_id.0));
                assert(splits_keys(self@[colo_group_id.0]));
                let owned = owned_bound(&bound);
                let idx: usize = find_bound(splits, &owned, direction == Direction::Asc);
                Ok(tablet_ids[idx])
            },
            None => Err(RouteError::NoRouting(colo_group_id)),
        }
    }
}

/// Whether a scan of a shard's metadata would leave it at once. A bound about a key that is a shard
/// and nothing more is the edge of the shard's metadata.
pub open spec fn off_shard_edge(bound: Bound<Seq<u8>>, direction: Direction) -> bool {
    bound.stem().len() == SHARD_ID_LEN && match bound {
        Bound::Before(_) => direction == Direction::Desc,
        Bound::AfterPrefix(_) => direction == Direction::Asc,
        _ => false,
    }
}

/// The same bound about an owned key.
pub fn owned_bound(b: &Bound<&[u8]>) -> (r: Bound<Vec<u8>>)
    ensures
        r@ == b@,
{
    match b {
        Bound::BeforeAll => Bound::BeforeAll,
        Bound::Before(k) => {
            let owned = sub_bytes(*k, 0, k.len());
            assert(owned@ =~= k@);
            Bound::Before(owned)
        },
        Bound::After(k) => {
            let owned = sub_bytes(*k, 0, k.len());
            assert(owned@ =~= k@);
            Bound::After(owned)
        },
        Bound::AfterPrefix(k) => {
            let owned = sub_bytes(*k, 0, k.len());
            assert(owned@ =~= k@);
            Bound::AfterPrefix(owned)
        },
        Bound::AfterAll => Bound::AfterAll,
    }
}

/// A key belongs to the tablet that a scan toward it from beside it starts in.
pub proof fn law_key_and_bound_agree(bounds: Seq<Bound<Vec<u8>>>, k: Seq<u8>)
    ensures
        bounds_before_key(bounds, k) == bounds_before(bounds, Bound::Before(k), true),
        bounds_before_key(bounds, k) == bounds_before(bounds, Bound::After(k), false),
    decreases bounds.len(),
{
    broadcast use group_bound_order;

    if bounds.len() > 0 {
        law_key_and_bound_agree(bounds.drop_last(), k);
        law_key_between_bounds(bounds.last()@, k);
    }
}

/// A scan upward from a bound and a scan downward from it start in neighbouring tablets where the
/// bound is a split point that occurs once, and in the same tablet where it is none.
pub proof fn law_directions_differ_at_splits(bounds: Seq<Bound<Vec<u8>>>, b: Bound<Seq<u8>>)
    requires
        forall|i: int, j: int|
            0 <= i < j < bounds.len() ==> (#[trigger] bounds[i])@ != (#[trigger] bounds[j])@,
    ensures
        bounds_before(bounds, b, true) == bounds_before(bounds, b, false) + if exists|i: int|
            0 <= i < bounds.len() && (#[trigger] bounds[i])@ == b {
            1nat
        } else {
            0
        },
    decreases bounds.len(),
{
    broadcast use group_bound_order;

    if bounds.len() > 0 {
        let rest = bounds.drop_last();
        law_directions_differ_at_splits(rest, b);
        if bounds.last()@ == b {
            assert(bounds[bounds.len() - 1]@ == b);
            assert forall|i: int| 0 <= i < rest.len() implies (#[trigger] rest[i])@ != b by {
                assert(bounds[i]@ != bounds[bounds.len() - 1]@);
            }
        } else if exists|i: int| 0 <= i < rest.len() && (#[trigger] rest[i])@ == b {
            let i = choose|i: int| 0 <= i < rest.len() && (#[trigger] rest[i])@ == b;
            assert(bounds[i]@ == b);
        } else {
            assert forall|i: int| 0 <= i < bounds.len() implies (#[trigger] bounds[i])@ != b by {
                if i < rest.len() {
                    assert(rest[i]@ != b);
                }
            }
        }
    }
}

} // verus!
