use obsidian::range::{Bound, HasPrefix, KeyOrBound, Range, RangeSet};

fn set(ranges: &[Range<Vec<u8>>]) -> RangeSet<Vec<u8>> {
    RangeSet::from_iter(ranges.to_vec())
}

fn range(lower: Bound<Vec<u8>>, upper: Bound<Vec<u8>>) -> Range<Vec<u8>> {
    Range { lower, upper }
}

fn ordered_bounds() -> Vec<Bound<Vec<u8>>> {
    vec![
        Bound::BeforeAll,
        Bound::Before(vec![]),
        Bound::After(vec![]),
        Bound::Before(vec![0]),
        Bound::After(vec![0]),
        Bound::Before(vec![0, 0]),
        Bound::After(vec![0, 0]),
        Bound::AfterPrefix(vec![0, 0]),
        Bound::Before(vec![0, 1]),
        Bound::After(vec![0, 1]),
        Bound::AfterPrefix(vec![0, 1]),
        Bound::AfterPrefix(vec![0]),
        Bound::AfterPrefix(vec![]),
        Bound::AfterAll,
    ]
}

#[test]
fn test_bound_ord() {
    let bounds: Vec<Bound<Vec<u8>>> = ordered_bounds();

    for i in 0..bounds.len() {
        for j in 0..bounds.len() {
            assert_eq!(
                i.cmp(&j),
                bounds[i].cmp(&bounds[j]),
                "{:?} {:?} misordered",
                bounds[i],
                bounds[j],
            );
        }
    }
}

#[test]
fn test_key_or_bound_ord() {
    let items: Vec<KeyOrBound<Vec<u8>>> = vec![
        KeyOrBound::Bound(Bound::BeforeAll),
        KeyOrBound::Bound(Bound::Before(vec![])),
        KeyOrBound::Key(vec![]),
        KeyOrBound::Bound(Bound::After(vec![])),
        KeyOrBound::Bound(Bound::Before(vec![0])),
        KeyOrBound::Key(vec![0]),
        KeyOrBound::Bound(Bound::After(vec![0])),
        KeyOrBound::Bound(Bound::Before(vec![0, 0])),
        KeyOrBound::Key(vec![0, 0]),
        KeyOrBound::Bound(Bound::After(vec![0, 0])),
        KeyOrBound::Bound(Bound::AfterPrefix(vec![0, 0])),
        KeyOrBound::Bound(Bound::Before(vec![0, 1])),
        KeyOrBound::Key(vec![0, 1]),
        KeyOrBound::Bound(Bound::After(vec![0, 1])),
        KeyOrBound::Bound(Bound::AfterPrefix(vec![0, 1])),
        KeyOrBound::Bound(Bound::AfterPrefix(vec![0])),
        KeyOrBound::Bound(Bound::Before(vec![1])),
        KeyOrBound::Key(vec![1]),
        KeyOrBound::Bound(Bound::After(vec![1])),
        KeyOrBound::Bound(Bound::Before(vec![1, 0])),
        KeyOrBound::Key(vec![1, 0]),
        KeyOrBound::Bound(Bound::After(vec![1, 0])),
        KeyOrBound::Bound(Bound::AfterPrefix(vec![1, 0])),
        KeyOrBound::Bound(Bound::AfterPrefix(vec![1])),
        KeyOrBound::Bound(Bound::AfterPrefix(vec![])),
        KeyOrBound::Bound(Bound::AfterAll),
    ];

    for i in 0..items.len() {
        for j in 0..items.len() {
            assert_eq!(
                i.cmp(&j),
                items[i].cmp(&items[j]),
                "{:?} {:?} misordered",
                items[i],
                items[j],
            );
        }
    }
    assert_eq!(KeyOrBound::Key(vec![1u8]).as_key(), Some(vec![1u8]));
    assert_eq!(KeyOrBound::Bound(Bound::Before(vec![1u8])).as_key(), None);
}

fn range_set_intersection(
    a_ranges: Vec<Range<Vec<u8>>>,
    b_ranges: Vec<Range<Vec<u8>>>,
    points: Vec<Vec<u8>>,
) {
    let a = set(&a_ranges);
    let b = set(&b_ranges);

    let a_intersect_b = a.intersection(&b);

    for point in points {
        let a_intersect_b_contains = a_intersect_b.contains(&point);
        let a_contains = a_ranges.iter().any(|range| range.contains(&point));
        let b_contains = b_ranges.iter().any(|range| range.contains(&point));
        assert_eq!(a_intersect_b_contains, a_contains && b_contains);
    }
}

#[test]
fn test_range_set_intersection() {
    range_set_intersection(
        vec![
            range(Bound::BeforeAll, Bound::Before(vec![])),
            range(Bound::After(vec![]), Bound::Before(vec![11])),
        ],
        vec![range(Bound::After(vec![0]), Bound::Before(vec![11]))],
        vec![vec![1]],
    );
}

#[test]
fn shared_ranges_are_shared_by_one_range_of_each() {
    let key = |n: u8| Bound::Before(vec![n]);
    let a = [range(key(1), key(5)), range(key(7), key(9))];
    let b = [range(key(0), key(2)), range(key(4), key(8))];
    let shared: Vec<Range<Vec<u8>>> = set(&a).intersection(&set(&b)).into_iter();
    assert_eq!(
        shared,
        vec![range(key(1), key(2)), range(key(4), key(5)), range(key(7), key(8))],
    );
    let mut pairs: Vec<Range<Vec<u8>>> = Vec::new();
    for x in &a {
        for y in &b {
            let both = x.intersection(y);
            if !both.is_empty() {
                pairs.push(both);
            }
        }
    }
    assert_eq!(shared, pairs);
}

#[test]
fn test_range_set_first_greater_last_less_or_equal() {
    let a = range(Bound::BeforeAll, Bound::Before(vec![]));
    let b = range(Bound::After(vec![]), Bound::Before(vec![11]));
    let rs1 = set(&[a.clone(), b.clone()]);
    let c = range(Bound::After(vec![0]), Bound::Before(vec![11]));
    let rs2 = set(&[c.clone()]);

    assert_eq!(rs1.first_greater(&Bound::BeforeAll).cloned(), Some(b.clone()));
    assert_eq!(rs1.first_greater(&Bound::Before(vec![])).cloned(), Some(b.clone()));
    assert_eq!(rs2.first_greater(&Bound::BeforeAll).cloned(), Some(c.clone()));
    assert_eq!(rs2.first_greater(&Bound::After(vec![])).cloned(), Some(c.clone()));

    assert_eq!(rs1.last_less_or_equal(&Bound::BeforeAll).cloned(), Some(a.clone()));
    assert_eq!(rs1.last_less_or_equal(&Bound::Before(vec![])).cloned(), Some(a));
    assert_eq!(rs1.last_less_or_equal(&Bound::After(vec![])).cloned(), Some(b.clone()));
    assert_eq!(rs1.last_less_or_equal(&Bound::AfterAll).cloned(), Some(b));
    assert_eq!(rs2.last_less_or_equal(&Bound::After(vec![])).cloned(), None);
    assert_eq!(rs2.last_less_or_equal(&Bound::After(vec![0])).cloned(), Some(c.clone()));
    assert_eq!(rs2.last_less_or_equal(&Bound::AfterAll).cloned(), Some(c));
}

fn some_ranges() -> Vec<Range<Vec<u8>>> {
    let bounds = ordered_bounds();
    let mut ranges = vec![];
    for i in 0..bounds.len() {
        for j in 0..bounds.len() {
            if (i * 7 + j * 5) % 4 == 0 {
                ranges.push(range(bounds[i].clone(), bounds[j].clone()));
            }
        }
    }
    ranges
}

fn some_points() -> Vec<Vec<u8>> {
    vec![
        vec![],
        vec![0],
        vec![0, 0],
        vec![0, 0, 5],
        vec![0, 1],
        vec![0, 1, 9],
        vec![0, 2],
        vec![1],
        vec![255],
    ]
}

#[test]
fn range_sets_hold_what_their_ranges_hold() {
    let ranges = some_ranges();
    for n in 0..ranges.len() {
        let part = &ranges[n..(n + 5).min(ranges.len())];
        let s = set(part);
        let kept: Vec<_> = s.iter().cloned().collect();
        for pair in kept.windows(2) {
            assert!(pair[0].upper.is_before(&pair[1].lower));
        }
        for point in some_points() {
            assert_eq!(s.contains(&point), part.iter().any(|r| r.contains(&point)));
        }
        assert_eq!(s.is_empty(), kept.is_empty());
        assert_eq!(s.first(), kept.first());
        assert_eq!(s.last(), kept.last());
    }
}

#[test]
fn range_set_operations_hold_point_by_point() {
    let ranges = some_ranges();
    for i in 0..ranges.len() - 4 {
        let a_ranges = &ranges[i..i + 3];
        let b_ranges = &ranges[(i * 3) % (ranges.len() - 3)..][..3];
        let (a, b) = (set(a_ranges), set(b_ranges));
        let (union, meet, rest) = (a.union(&b), a.intersection(&b), a.difference(&b));
        let mut any = false;
        for point in some_points() {
            let in_a = a_ranges.iter().any(|r| r.contains(&point));
            let in_b = b_ranges.iter().any(|r| r.contains(&point));
            assert_eq!(union.contains(&point), in_a || in_b);
            assert_eq!(meet.contains(&point), in_a && in_b);
            assert_eq!(rest.contains(&point), in_a && !in_b);
            any = any || (in_a && in_b);
        }
        if any {
            assert!(a.intersects(&b));
        }
        assert_eq!(a.intersects(&b), !meet.is_empty());
        assert_eq!(a.intersections(&b), meet.clone().into_iter());
    }
}

#[test]
fn range_set_contiguous_needs_one_range() {
    assert_eq!(RangeSet::<Vec<u8>>::new().contiguous(), Some(Range::empty()));
    let whole = RangeSet::from(Range::<Vec<u8>>::all());
    assert_eq!(whole.contiguous(), Some(Range::all()));
    let mut holed = whole.clone();
    holed.subtract_range(Range::prefix(vec![5]));
    assert_eq!(holed.contiguous(), None);
    assert!(!holed.contains(&vec![5, 1]));
    holed.add_range(Range::prefix(vec![5]));
    assert_eq!(holed.contiguous(), Some(Range::all()));
}

#[test]
fn ranges_split_and_meet() {
    let all = Range::<Vec<u8>>::all();
    let (left, right) = all.split(&Bound::Before(vec![7]));
    assert!(left.contains(&vec![6, 255]));
    assert!(!left.contains(&vec![7]));
    assert!(right.contains(&vec![7]));
    assert!(left.adjacent(&right));
    assert!(!left.intersects(&right));
    assert!(all.contains_range(&left));
    assert!(!left.contains_range(&all));
    assert!(left.intersection(&right).is_empty());
    assert!(left.same(&range(Bound::BeforeAll, Bound::Before(vec![7]))));
    assert!(Range::<Vec<u8>>::empty().is_empty());
    let pfx = Range::prefix(vec![1, 2]);
    assert!(pfx.contains(&vec![1, 2]));
    assert!(pfx.contains(&vec![1, 2, 255, 255]));
    assert!(!pfx.contains(&vec![1, 3]));
}

#[test]
fn bounds_map_copy_and_compare_with_keys() {
    let b: Bound<u32> = Bound::After(5);
    assert_eq!(b.map(|n| n + 1), Bound::After(6));
    let key = vec![1u8];
    assert_eq!(Bound::Before(&key).cloned(), Bound::Before(vec![1u8]));
    assert_eq!(Bound::Before(vec![1u8]).cmp_key(&key), std::cmp::Ordering::Less);
    assert_eq!(Bound::After(vec![1u8]).cmp_key(&key), std::cmp::Ordering::Greater);
    assert_eq!(Bound::AfterPrefix(vec![1u8]).cmp_key(&vec![1, 5]), std::cmp::Ordering::Greater);
    assert_eq!(Bound::AfterPrefix(vec![1u8]).cmp_key(&vec![2]), std::cmp::Ordering::Less);
    let r: Range<&[u8]> = Range { lower: Bound::Before(&key[..]), upper: Bound::AfterAll };
    assert_eq!(r.to_vec(), range(Bound::Before(vec![1]), Bound::AfterAll));
    assert!(vec![1u8, 2].has_prefix(&key));
    assert!(!key.has_prefix(&vec![1u8, 2]));
}
