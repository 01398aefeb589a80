use std::collections::HashMap;

use obsidian::range::Bound;
use obsidian::router::{RouteError, StaticRouter};
use obsidian::types::{ColoGroupId, Direction, ShardId, TabletId};

fn test_router() -> StaticRouter {
    StaticRouter::new(HashMap::from([
        (
            1,
            (
                vec![Bound::Before(vec![1])],
                vec![TabletId(ShardId(1), 1), TabletId(ShardId(2), 2)],
            ),
        ),
        (
            2,
            (
                vec![Bound::Before(vec![1]), Bound::After(vec![5, 0])],
                vec![
                    TabletId(ShardId(8), 1),
                    TabletId(ShardId(9), 5),
                    TabletId(ShardId(10), 3),
                ],
            ),
        ),
    ]))
}

#[test]
fn test_tablet_id_for_bound() {
    let router = test_router();
    let shard_1 = TabletId::shard_meta(ShardId(1));

    assert_eq!(
        router.tablet_id_for_bound(ColoGroupId::meta(), Bound::Before(&[0]), Direction::Asc),
        Ok(TabletId::meta()),
    );

    assert_eq!(
        router.tablet_id_for_bound(
            ColoGroupId::shard_meta(),
            Bound::Before(&TabletId(ShardId(1), 5).encode_fixed()),
            Direction::Asc,
        ),
        Ok(shard_1),
    );

    assert!(matches!(
        router.tablet_id_for_bound(
            ColoGroupId::shard_meta(),
            Bound::Before(&[0, 0, 0, 1]),
            Direction::Desc,
        ),
        Err(_)
    ));

    assert_eq!(
        router.tablet_id_for_bound(
            ColoGroupId::shard_meta(),
            Bound::Before(&[0, 0, 0, 1, 0, 0, 0, 0, 0, 0, 0, 5, 10]),
            Direction::Desc,
        ),
        Ok(shard_1),
    );

    assert_eq!(
        router.tablet_id_for_bound(
            ColoGroupId::shard_meta(),
            Bound::AfterPrefix(&[0, 0, 0, 1]),
            Direction::Desc,
        ),
        Ok(shard_1),
    );

    assert!(matches!(
        router.tablet_id_for_bound(
            ColoGroupId::shard_meta(),
            Bound::AfterPrefix(&[0, 0, 0, 1]),
            Direction::Asc,
        ),
        Err(_)
    ));

    assert_eq!(
        router.tablet_id_for_bound(ColoGroupId(1), Bound::Before(&[0]), Direction::Asc),
        Ok(TabletId(ShardId(1), 1)),
    );
    assert_eq!(
        router.tablet_id_for_bound(ColoGroupId(1), Bound::Before(&[1]), Direction::Desc),
        Ok(TabletId(ShardId(1), 1)),
    );
    assert_eq!(
        router.tablet_id_for_bound(ColoGroupId(1), Bound::Before(&[1]), Direction::Asc),
        Ok(TabletId(ShardId(2), 2)),
    );
    assert_eq!(
        router.tablet_id_for_bound(ColoGroupId(1), Bound::Before(&[1, 1]), Direction::Desc),
        Ok(TabletId(ShardId(2), 2)),
    );

    assert_eq!(
        router.tablet_id_for_bound(ColoGroupId(2), Bound::Before(&[0]), Direction::Asc),
        Ok(TabletId(ShardId(8), 1)),
    );
    assert_eq!(
        router.tablet_id_for_bound(ColoGroupId(2), Bound::Before(&[1]), Direction::Desc),
        Ok(TabletId(ShardId(8), 1)),
    );
    assert_eq!(
        router.tablet_id_for_bound(ColoGroupId(2), Bound::Before(&[1]), Direction::Asc),
        Ok(TabletId(ShardId(9), 5)),
    );
    assert_eq!(
        router.tablet_id_for_bound(ColoGroupId(2), Bound::Before(&[1, 5]), Direction::Asc),
        Ok(TabletId(ShardId(9), 5)),
    );
    assert_eq!(
        router.tablet_id_for_bound(ColoGroupId(2), Bound::After(&[5, 0]), Direction::Desc),
        Ok(TabletId(ShardId(9), 5)),
    );
    assert_eq!(
        router.tablet_id_for_bound(ColoGroupId(2), Bound::After(&[5, 0]), Direction::Asc),
        Ok(TabletId(ShardId(10), 3)),
    );
    assert_eq!(
        router.tablet_id_for_bound(ColoGroupId(2), Bound::AfterPrefix(&[5, 0]), Direction::Desc),
        Ok(TabletId(ShardId(10), 3)),
    );
}

#[test]
fn keys_are_routed_by_splits_shards_and_groups() {
    let router = test_router();
    assert_eq!(router.tablet_id_for_key(ColoGroupId::meta(), &[9]), Ok(TabletId::meta()));
    assert_eq!(
        router.tablet_id_for_key(ColoGroupId::shard_meta(), &[0, 0, 1, 2, 77]),
        Ok(TabletId::shard_meta(ShardId(258))),
    );
    assert_eq!(
        router.tablet_id_for_key(ColoGroupId::shard_meta(), &[0, 0, 1]),
        Err(RouteError::KeyTooShort),
    );
    assert_eq!(
        router.tablet_id_for_key(ColoGroupId(2), &[5, 0]),
        Ok(TabletId(ShardId(9), 5)),
    );
    assert_eq!(
        router.tablet_id_for_key(ColoGroupId(2), &[5, 0, 0]),
        Ok(TabletId(ShardId(10), 3)),
    );
    assert_eq!(
        router.tablet_id_for_key(ColoGroupId(3), &[5]),
        Err(RouteError::NoRouting(ColoGroupId(3))),
    );
    assert_eq!(
        router.tablet_id_for_bound(ColoGroupId::shard_meta(), Bound::BeforeAll, Direction::Asc),
        Err(RouteError::NotRouteable),
    );
    assert_eq!(
        router.tablet_id_for_bound(ColoGroupId::shard_meta(), Bound::After(&[1]), Direction::Asc),
        Err(RouteError::KeyTooShort),
    );
    // A key is routed as the bound before it is, for an ascending scan.
    for key in [vec![], vec![0], vec![1], vec![1, 0], vec![5, 0], vec![5, 0, 0], vec![9]] {
        assert_eq!(
            router.tablet_id_for_key(ColoGroupId(2), &key),
            router.tablet_id_for_bound(ColoGroupId(2), Bound::Before(&key), Direction::Asc),
        );
    }
}
