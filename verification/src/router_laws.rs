//! Keys and scans are routed to the tablets that they belong to.

use vstd::prelude::*;

use crate::range::bound::{group_bound_order, law_key_between_bounds, law_prefix_encloses};
use crate::range::Bound;
use crate::router::{
    ascending_bounds, bounds_before, bounds_before_key, RouteError, StaticRouter,
};
use crate::types::{ColoGroupId, Direction, ShardId, TabletId};
use crate::util::bytes::{lemma_byte_range, lemma_bytes_of_value};

verus! {

/// Bounds that stand before a key come first, and the others after them.
proof fn lemma_key_split(bounds: Seq<Bound<Vec<u8>>>, k: Seq<u8>)
    requires
        ascending_bounds(bounds),
    ensures
        bounds_before_key(bounds, k) <= bounds.len(),
        forall|i: int|
            0 <= i < bounds.len() ==> ((#[trigger] bounds[i])@.before_key(k) <==> i
                < bounds_before_key(bounds, k)),
    decreases bounds.len(),
{
    broadcast use group_bound_order;

    if bounds.len() > 0 {
        let rest = bounds.drop_last();
        let l = rest.len() as int;
        assert(ascending_bounds(rest)) by {
            assert forall|i: int, j: int| 0 <= i <= j < rest.len() implies (
            #[trigger] rest[i])@.at_most((#[trigger] rest[j])@) by {
                assert(bounds[i]@.at_most(bounds[j]@));
            }
        }
        lemma_key_split(rest, k);
        let n = bounds_before_key(rest, k) as int;
        law_key_between_bounds(bounds[l]@, k);
        if n < l {
            assert(bounds[n]@.at_most(bounds[l]@));
            law_key_between_bounds(bounds[n]@, k);
            assert(!rest[n]@.before_key(k));
        }
        assert forall|i: int| 0 <= i < bounds.len() implies ((#[trigger] bounds[i])@.before_key(k)
            <==> i < bounds_before_key(bounds, k)) by {
            if i < l {
                assert(rest[i] == bounds[i]);
            }
        }
    }
}

proof fn lemma_bound_split(bounds: Seq<Bound<Vec<u8>>>, b: Bound<Seq<u8>>, inclusive: bool)
    requires
        ascending_bounds(bounds),
    ensures
        bounds_before(bounds, b, inclusive) <= bounds.len(),
        forall|i: int|
            0 <= i < bounds.len() ==> (((#[trigger] bounds[i])@.before(b) || (inclusive
                && bounds[i]@ == b)) <==> i < bounds_before(bounds, b, inclusive)),
    decreases bounds.len(),
{
    broadcast use group_bound_order;

    if bounds.len() > 0 {
        let rest = bounds.drop_last();
        let l = rest.len() as int;
        assert(ascending_bounds(rest)) by {
            assert forall|i: int, j: int| 0 <= i <= j < rest.len() implies (
            #[trigger] rest[i])@.at_most((#[trigger] rest[j])@) by {
                assert(bounds[i]@.at_most(bounds[j]@));
            }
        }
        lemma_bound_split(rest, b, inclusive);
        let n = bounds_before(rest, b, inclusive) as int;
        if n < l {
            assert(bounds[n]@.at_most(bounds[l]@));
            assert(rest[n] == bounds[n]);
        }
        assert forall|i: int| 0 <= i < bounds.len() implies (((#[trigger] bounds[i])@.before(b) || (
        inclusive && bounds[i]@ == b)) <==> i < bounds_before(bounds, b, inclusive)) by {
            if i < l {
                assert(rest[i] == bounds[i]);
            }
        }
    }
}

/// A key of a known group belongs to the tablet between whose bounds it lies: those before the
/// tablet stand before the key, and those after it do not.
pub proof fn law_key_lies_at_tablet(router: StaticRouter, g: ColoGroupId, k: Seq<u8>) -> (n: int)
    requires
        router.wf(),
        g.0 != 0,
        g.0 != 0xffff_ffff,
        router@.contains_key(g.0),
    ensures
        ({
            let (bounds, tablets) = router@[g.0];
            &&& 0 <= n < tablets@.len()
            &&& router.route(g, k) == Ok::<TabletId, RouteError>(tablets@[n])
            &&& forall|i: int| 0 <= i < n ==> (#[trigger] bounds@[i])@.before_key(k)
            &&& forall|i: int| n <= i < bounds@.len() ==> !(#[trigger] bounds@[i])@.before_key(k)
        }),
{
    let (bounds, tablets) = router@[g.0];
    assert(crate::router::splits_keys(router@[g.0]));
    lemma_key_split(bounds@, k);
    bounds_before_key(bounds@, k) as int
}

/// A scan of a known group starts in the tablet that has what comes next from its bound: upward the
/// one that starts at the bound or before it and ends after it, downward the one that starts before
/// it and ends at it or after it.
pub proof fn law_scan_starts_at_tablet(
    router: StaticRouter,
    g: ColoGroupId,
    b: Bound<Seq<u8>>,
    direction: Direction,
) -> (n: int)
    requires
        router.wf(),
        g.0 != 0,
        g.0 != 0xffff_ffff,
        router@.contains_key(g.0),
    ensures
        ({
            let (bounds, tablets) = router@[g.0];
            &&& 0 <= n < tablets@.len()
            &&& router.route_bound(g, b, direction) == Ok::<TabletId, RouteError>(tablets@[n])
            &&& forall|i: int|
                0 <= i < n ==> match direction {
                    Direction::Asc => (#[trigger] bounds@[i])@.at_most(b),
                    Direction::Desc => bounds@[i]@.before(b),
                }
            &&& forall|i: int|
                n <= i < bounds@.len() ==> match direction {
                    Direction::Asc => b.before((#[trigger] bounds@[i])@),
                    Direction::Desc => b.at_most(bounds@[i]@),
                }
        }),
{
    broadcast use group_bound_order;

    let (bounds, tablets) = router@[g.0];
    assert(crate::router::splits_keys(router@[g.0]));
    let inclusive = direction == Direction::Asc;
    lemma_bound_split(bounds@, b, inclusive);
    let n = bounds_before(bounds@, b, inclusive) as int;
    assert forall|i: int| n <= i < bounds@.len() implies match direction {
        Direction::Asc => b.before((#[trigger] bounds@[i])@),
        Direction::Desc => b.at_most(bounds@[i]@),
    } by {
        assert(!(bounds@[i]@.before(b) || (inclusive && bounds@[i]@ == b)));
    }
    n
}

/// A key of the shards' metadata belongs to the shard that it starts with, whatever else is known.
/// The metadata of the cluster belong to their tablet, and nothing is known of any other group.
pub proof fn law_own_groups(router: StaticRouter, g: ColoGroupId, k: Seq<u8>)
    ensures
        g.0 == 0 ==> router.route(g, k) == Ok::<TabletId, RouteError>(TabletId(ShardId(0), 0)),
        g.0 == 0xffff_ffff && k.len() < 4 ==> router.route(g, k) == Err::<TabletId, RouteError>(
            RouteError::KeyTooShort,
        ),
        g.0 == 0xffff_ffff && k.len() >= 4 ==> (router.route(g, k) matches Ok(t) && t.1 == u64::MAX
            && t.0.encoded(k.take(4))),
        g.0 != 0 && g.0 != 0xffff_ffff && !router@.contains_key(g.0) ==> router.route(g, k) == Err::<
            TabletId,
            RouteError,
        >(RouteError::NoRouting(g)),
{
    if k.len() >= 4 {
        lemma_byte_range();
        lemma_bytes_of_value(k.take(4));
    }
}

/// A scan of a shard's metadata is routed to the shard exactly where something of it comes next from
/// the bound: upward where the bound stands before the end of the shard's keys, downward where it
/// stands after their start.
pub proof fn law_scan_stays_in_shard(
    router: StaticRouter,
    b: Bound<Seq<u8>>,
    direction: Direction,
)
    requires
        b is Before || b is After || b is AfterPrefix,
        b.stem().len() >= 4,
    ensures
        ({
            let pfx = b.stem().take(4);
            let r = router.route_bound(ColoGroupId(0xffff_ffff), b, direction);
            let more = match direction {
                Direction::Asc => b.before(Bound::AfterPrefix(pfx)),
                Direction::Desc => Bound::Before(pfx).before(b),
            };
            if more {
                r matches Ok(t) && t.1 == u64::MAX && t.0.encoded(pfx)
            } else {
                r == Err::<TabletId, RouteError>(RouteError::NotRouteable)
            }
        }),
{
    broadcast use group_bound_order;

    let stem = b.stem();
    let pfx = stem.take(4);
    lemma_byte_range();
    lemma_bytes_of_value(pfx);
    if stem.len() == 4 {
        assert(pfx =~= stem);
    }
    law_prefix_encloses(pfx, b);
}

/// A scan that starts at no key in particular, or at one that names no shard, cannot be routed within
/// the shards' metadata. The cluster's metadata are in one tablet, wherever a scan starts.
pub proof fn law_scan_of_own_groups(
    router: StaticRouter,
    g: ColoGroupId,
    b: Bound<Seq<u8>>,
    direction: Direction,
)
    ensures
        g.0 == 0 ==> router.route_bound(g, b, direction) == Ok::<TabletId, RouteError>(
            TabletId(ShardId(0), 0),
        ),
        g.0 == 0xffff_ffff && (b is BeforeAll || b is AfterAll) ==> router.route_bound(
            g,
            b,
            direction,
        ) == Err::<TabletId, RouteError>(RouteError::NotRouteable),
        g.0 == 0xffff_ffff && (b is Before || b is After || b is AfterPrefix) && b.stem().len() < 4
            ==> router.route_bound(g, b, direction) == Err::<TabletId, RouteError>(
            RouteError::KeyTooShort,
        ),
        g.0 != 0 && g.0 != 0xffff_ffff && !router@.contains_key(g.0) ==> router.route_bound(
            g,
            b,
            direction,
        ) == Err::<TabletId, RouteError>(RouteError::NoRouting(g)),
{
}

} // verus!
