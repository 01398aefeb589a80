use std::cmp::max;
use std::collections::{BTreeMap, BTreeSet, HashMap, HashSet};

use obsidian::range::{Bound, Range, RangeSet};
use obsidian::supervisor::rebalance::{
    count_by, plan_rebalance, RebalanceOptions, TabletStats, TransferPlan,
};
use obsidian::types::{ColoGroupId, ShardId, TabletId};
use rand::seq::SliceRandom;

fn make_tablets(lower_to_size: Vec<(Bound<Vec<u8>>, u64)>) -> HashMap<TabletId, Tablet> {
    let mut iter = lower_to_size.into_iter().peekable();
    let mut tablets = HashMap::new();
    while let Some((lower, size)) = iter.next() {
        let upper = iter
            .peek()
            .map(|(lower, _)| lower.clone())
            .unwrap_or_else(|| Bound::AfterAll);
        tablets.insert(
            TabletId(ShardId(1), (tablets.len() as u64) + 1),
            Tablet {
                colo_group_id: ColoGroupId(1),
                range: Range { lower, upper },
                size,
                active: true,
            },
        );
    }
    tablets
}

fn eager_options() -> RebalanceOptions {
    let mut options = RebalanceOptions::default();
    options.merge_min_ranges = 0;
    options.merge_min_ranges_per_shard = 0;
    options.min_shard_size_for_move = 0;
    options.range_target_size = 5_000_000_000;
    options
}

#[test]
fn test_plan_rebalance_merge() {
    let options = eager_options();

    let shards = Shards::from_tablets(make_tablets(vec![
        (Bound::BeforeAll, options.range_target_size),
        (Bound::Before(vec![0x08, 0x1b]), 1267109177),
        (Bound::Before(vec![0x08, 0x1e]), 845756719),
        (Bound::Before(vec![0x08, 0x20]), options.range_target_size),
    ]));

    let transfers = plan_rebalance(
        options,
        &shards.active_tablets(),
        &shards.eligible_shard_sizes(),
    );
    assert!(matches!(
        &transfers[..],
        &[TransferPlan::Merge(
            TabletId(ShardId(1), 3),
            TabletId(ShardId(1), 2),
            ShardId(1),
        )]
    ));
}

#[test]
fn test_plan_rebalance_split() {
    let options = eager_options();

    let shards = Shards::from_tablets(make_tablets(vec![
        (Bound::BeforeAll, options.range_target_size),
        (Bound::Before(vec![0x04]), options.range_split_size() + 5),
        (Bound::Before(vec![0x09]), options.range_target_size),
    ]));

    let transfers = plan_rebalance(
        options,
        &shards.active_tablets(),
        &shards.eligible_shard_sizes(),
    );
    assert!(matches!(
        &transfers[..],
        &[TransferPlan::Split(
            TabletId(ShardId(1), 2),
            ShardId(1),
            ShardId(1)
        )]
    ));
}

#[test]
fn ranges_are_split_from_the_split_size_on() {
    let options = eager_options();
    let plan_for = |size: u64| {
        let shards = Shards::from_tablets(make_tablets(vec![
            (Bound::BeforeAll, options.range_target_size),
            (Bound::Before(vec![0x04]), size),
        ]));
        plan_rebalance(
            options,
            &shards.active_tablets(),
            &shards.eligible_shard_sizes(),
        )
    };
    assert_eq!(plan_for(options.range_split_size() - 1), vec![]);
    assert_eq!(
        plan_for(options.range_split_size()),
        vec![TransferPlan::Split(TabletId(ShardId(1), 2), ShardId(1), ShardId(1))],
    );
}

#[test]
fn the_fullest_shard_gives_to_the_emptiest() {
    let mut options = RebalanceOptions::default();
    options.min_shard_size_for_move = 0;
    let stats = |shard: u32, seq: u64, size: u64| TabletStats {
        tablet_id: TabletId(ShardId(shard), seq),
        colo_group_id: ColoGroupId(1),
        range: Range::prefix(vec![shard as u8, seq as u8]),
        size,
    };
    let small = options.move_min_imbalance() / 2;
    let tablets = vec![stats(1, 1, small), stats(2, 3, 5)];
    let sizes = HashMap::from([(1, 2 * small + 1), (2, 5), (3, 0)]);
    assert_eq!(
        plan_rebalance(options, &tablets, &sizes),
        vec![TransferPlan::Move(TabletId(ShardId(1), 1), ShardId(3))],
    );

    // Shards that are about as full as each other give nothing away.
    let even = HashMap::from([(1, 2 * small + 1), (2, 2 * small), (3, 2 * small)]);
    assert_eq!(plan_rebalance(options, &tablets, &even), vec![]);

    // A shard that takes part in a transfer already takes part in no other.
    let busy = HashMap::from([(2, 5), (3, 0)]);
    assert_eq!(plan_rebalance(options, &tablets, &busy), vec![]);
}

#[test]
fn a_shard_with_a_split_takes_part_in_nothing_else() {
    let options = eager_options();
    let large = options.range_split_size() + 1;
    let shards = Shards::from_tablets(make_tablets(vec![
        (Bound::BeforeAll, large),
        (Bound::Before(vec![0x04]), large + 1),
        (Bound::Before(vec![0x09]), 1),
        (Bound::Before(vec![0x0a]), 1),
    ]));
    let mut sizes = shards.eligible_shard_sizes();
    sizes.insert(2, 0);
    let transfers = plan_rebalance(options, &shards.active_tablets(), &sizes);
    assert_eq!(
        transfers,
        vec![TransferPlan::Split(TabletId(ShardId(1), 2), ShardId(1), ShardId(1))],
    );
}

#[test]
fn sizes_follow_from_the_target() {
    let options = RebalanceOptions::default();
    assert_eq!(options.range_target_size, 5_000_000_000);
    assert_eq!(options.range_merge_size(), 2_500_000_000);
    assert_eq!(options.range_split_size(), 10_000_000_000);
    assert_eq!(options.move_min_imbalance(), 15_000_000_000);
    let counts = count_by(&vec![ColoGroupId(3), ColoGroupId(1), ColoGroupId(3)]);
    assert_eq!(counts, HashMap::from([(3, 2), (1, 1)]));
}

fn rebalance_until_converge(options: &RebalanceOptions, shards: &mut Shards) {
    loop {
        let plan = plan_rebalance(
            *options,
            &shards.active_tablets(),
            &shards.eligible_shard_sizes(),
        );
        if plan.is_empty() {
            break;
        }
        for transfer_plan in plan {
            let transfer_ids = shards.start_transfer(transfer_plan);
            shards.finish_transfer(transfer_ids);
        }
    }
}

fn check_balance(options: &RebalanceOptions, shards: &Shards) {
    // Make sure we still have everything.
    assert_eq!(
        shards.tablets().filter(|(_, tablet)| !tablet.active).next(),
        None,
    );
    let mut sorted: Vec<_> = shards.tablets().collect();
    sorted.sort_by(|a, b| a.1.range.lower.cmp(&b.1.range.lower));
    let mut range_set = RangeSet::new();
    for (_, tablet) in &sorted {
        assert!(!range_set.intersects(&RangeSet::from(tablet.range.clone())));
        range_set.add_range(tablet.range.clone());
    }
    assert_eq!(range_set.contiguous(), Some(Range::all()));

    // Make sure we actually did rebalance - there aren't any outlier shards.
    let shard_sizes = shards.shard_sizes();
    let total_bytes = shard_sizes.values().sum::<u64>();
    let avg_shard_size = total_bytes / (shard_sizes.len() as u64);
    let max_expected_shard_size = max(
        // We should get every shard under min_shard_size_for_move if there's enough capacity.
        options.min_shard_size_for_move,
        // Otherwise they should end up roughly at the average.
        avg_shard_size + options.move_min_imbalance(),
    );

    assert_eq!(
        shard_sizes
            .iter()
            .filter(|(_, size)| **size > max_expected_shard_size)
            .next(),
        None,
    );

    // Make sure there aren't any tablets that should've been split.
    assert_eq!(
        shards
            .tablets()
            .filter(|(_, tablet)| tablet.size > options.range_split_size())
            .next(),
        None,
    );

    // Make sure there aren't any tablets that should've been merged.
    for pair in sorted.windows(2) {
        let (tablet_id, tablet) = pair[0];
        let (next_tablet_id, next_tablet) = pair[1];
        assert_eq!(tablet.range.upper, next_tablet.range.lower);
        assert!(
            tablet.size + next_tablet.size > options.range_merge_size(),
            "{:?} ({:?}, {}B) should have been merged with {:?} ({:?}, {}B)",
            tablet_id,
            tablet.range,
            tablet.size,
            next_tablet_id,
            next_tablet.range,
            next_tablet.size,
        );
    }
}

#[test]
fn test_plan_rebalance_converges() {
    let options = RebalanceOptions::default();

    let mut tablets = vec![Tablet {
        colo_group_id: ColoGroupId(1),
        range: Range {
            lower: Bound::BeforeAll,
            upper: Bound::Before(vec![0x00, 0x00]),
        },
        size: 0,
        active: true,
    }];
    let max_prefix = u16::MAX / 6;
    for prefix in 0..max_prefix {
        tablets.push(Tablet {
            colo_group_id: ColoGroupId(1),
            range: Range {
                lower: Bound::Before(prefix.to_be_bytes().to_vec()),
                upper: Bound::Before((prefix + 1).to_be_bytes().to_vec()),
            },
            // Low prefixes are small and mergeable, large prefixes are large and splittable.
            size: (prefix as u64) * options.range_split_size() * 12 / (10 * (max_prefix as u64)),
            active: true,
        });
    }
    tablets.push(Tablet {
        colo_group_id: ColoGroupId(1),
        range: Range {
            lower: tablets.last().unwrap().range.upper.clone(),
            upper: Bound::AfterAll,
        },
        size: 0,
        active: true,
    });
    tablets.shuffle(&mut rand::rng());

    let mut tablets_by_id = HashMap::new();
    // Create imbalance by filling up shards in order with a shrinking target_size, lower shard
    // numbers are more full.
    let mut target_fill = options.min_shard_size_for_move * 105 / 100;
    let mut current_size = 0u64;
    let mut current_shard_id = ShardId(1);
    let mut next_tablet_seq = 1u64;
    for tablet in tablets {
        if current_size + tablet.size > options.shard_capacity || current_size > target_fill {
            current_shard_id.0 += 1;
            current_size = 0;
            target_fill = max(
                target_fill - options.shard_capacity / 1000,
                options.shard_capacity * 65 / 100,
            );
        }
        let tablet_id = TabletId(current_shard_id, next_tablet_seq);
        next_tablet_seq += 1;
        current_size += tablet.size;
        tablets_by_id.insert(tablet_id, tablet);
    }

    let mut shards = Shards::from_tablets(tablets_by_id);
    println!("starting shard sizes ------------");
    shards.print_shard_sizes(options.shard_capacity);
    println!("starting tablet size distribution ------------");
    shards.print_tablet_size_dist();

    rebalance_until_converge(&options, &mut shards);

    println!("ending shard sizes ------------");
    shards.print_shard_sizes(options.shard_capacity);
    println!("ending tablet size distribution ------------");
    shards.print_tablet_size_dist();

    check_balance(&options, &shards);
}

#[derive(Debug, Eq, PartialEq)]
struct Tablet {
    colo_group_id: ColoGroupId,
    range: Range<Vec<u8>>,
    size: u64,
    active: bool,
}

struct Shards {
    shards: HashMap<ShardId, HashMap<TabletId, Tablet>>,
    next_tablet_id: u64,
    in_progress: HashSet<TransferIds>,
    in_progress_shards: HashMap<ShardId, usize>,
}

impl Shards {
    fn from_tablets(tablets: HashMap<TabletId, Tablet>) -> Self {
        let mut shards = Shards {
            shards: HashMap::new(),
            next_tablet_id: 1,
            in_progress: HashSet::new(),
            in_progress_shards: HashMap::new(),
        };
        for (tablet_id, tablet) in tablets {
            shards.next_tablet_id = max(shards.next_tablet_id, tablet_id.1 + 1);
            shards
                .shards
                .entry(tablet_id.0)
                .or_default()
                .insert(tablet_id, tablet);
        }
        shards
    }

    fn create_tablet(&mut self, shard_id: ShardId, tablet: Tablet) -> TabletId {
        if tablet.range.is_empty() {
            panic!("tablet with empty range {:?}", tablet.range);
        }
        let tablets = self.shards.get_mut(&shard_id).unwrap();
        let tablet_id = TabletId(shard_id, self.next_tablet_id);
        self.next_tablet_id += 1;
        tablets.insert(tablet_id, tablet);
        tablet_id
    }

    fn start_transfer(&mut self, transfer: TransferPlan) -> TransferIds {
        let transfer_ids = match transfer {
            TransferPlan::Merge(src0_tablet_id, src1_tablet_id, dst_shard_id) => {
                let src0 = self.tablet(src0_tablet_id).unwrap();
                let src1 = self.tablet(src1_tablet_id).unwrap();
                if src0.colo_group_id != src1.colo_group_id {
                    panic!(
                        "can't merge tablets not in the same colo_group: {:?} != {:?}",
                        src0.colo_group_id, src1.colo_group_id
                    );
                }
                if !src0.range.adjacent(&src1.range) {
                    panic!(
                        "can't merge non-adjacent ranges {:?} {:?}",
                        src0.range, src1.range
                    );
                }

                let (first, last) = if src0.range.lower.is_before(&src1.range.lower) {
                    (&src0.range, &src1.range)
                } else {
                    (&src1.range, &src0.range)
                };
                let merged = Tablet {
                    colo_group_id: src0.colo_group_id,
                    range: Range {
                        lower: first.lower.clone(),
                        upper: last.upper.clone(),
                    },
                    size: src0.size + src1.size,
                    active: false,
                };
                let dst_tablet_id = self.create_tablet(dst_shard_id, merged);

                TransferIds {
                    srcs: vec![src0_tablet_id, src1_tablet_id],
                    dsts: vec![dst_tablet_id],
                }
            }
            TransferPlan::Split(src_tablet_id, dst0_shard_id, dst1_shard_id) => {
                let src = self.tablet(src_tablet_id).unwrap();
                let (dst0_range, dst1_range) = split_range(src.range.clone());
                let colo_group_id = src.colo_group_id;

                let dst0_size = rand::random_range(src.size * 3 / 10..src.size * 7 / 10);
                let dst1_size = src.size - dst0_size;

                let dst0_tablet_id = self.create_tablet(
                    dst0_shard_id,
                    Tablet {
                        colo_group_id,
                        range: dst0_range,
                        size: dst0_size,
                        active: false,
                    },
                );
                let dst1_tablet_id = self.create_tablet(
                    dst1_shard_id,
                    Tablet {
                        colo_group_id,
                        range: dst1_range,
                        size: dst1_size,
                        active: false,
                    },
                );

                TransferIds {
                    srcs: vec![src_tablet_id],
                    dsts: vec![dst0_tablet_id, dst1_tablet_id],
                }
            }
            TransferPlan::Move(src_tablet_id, dst_shard_id) => {
                let src = self.tablet(src_tablet_id).unwrap();
                let moved = Tablet {
                    colo_group_id: src.colo_group_id,
                    range: src.range.clone(),
                    size: src.size,
                    active: false,
                };
                let dst_tablet_id = self.create_tablet(dst_shard_id, moved);

                TransferIds {
                    srcs: vec![src_tablet_id],
                    dsts: vec![dst_tablet_id],
                }
            }
        };

        self.in_progress.insert(transfer_ids.clone());
        for tablet_id in transfer_ids.srcs.iter().chain(&transfer_ids.dsts) {
            *self.in_progress_shards.entry(tablet_id.0).or_default() += 1;
        }

        transfer_ids
    }

    fn finish_transfer(&mut self, transfer: TransferIds) {
        if !self.in_progress.remove(&transfer) {
            panic!(
                "finish_transfer for not-in-progress transfer {:?}",
                transfer
            );
        }
        for tablet_id in &transfer.srcs {
            if self
                .shards
                .get_mut(&tablet_id.0)
                .unwrap()
                .remove(tablet_id)
                .is_none()
            {
                panic!("tried to remove non-existent {:?}", tablet_id);
            }
        }
        for tablet_id in &transfer.dsts {
            self.tablet_mut(*tablet_id).unwrap().active = true;
        }
        for tablet_id in transfer.srcs.iter().chain(&transfer.dsts) {
            *self.in_progress_shards.get_mut(&tablet_id.0).unwrap() -= 1;
        }
    }

    fn tablet(&self, tablet_id: TabletId) -> Option<&Tablet> {
        self.shards
            .get(&tablet_id.0)
            .and_then(|tablets| tablets.get(&tablet_id))
    }

    fn tablet_mut(&mut self, tablet_id: TabletId) -> Option<&mut Tablet> {
        self.shards
            .get_mut(&tablet_id.0)
            .and_then(|tablets| tablets.get_mut(&tablet_id))
    }

    fn shard_sizes(&self) -> HashMap<ShardId, u64> {
        let mut shard_sizes = HashMap::new();
        for (shard_id, tablets) in &self.shards {
            shard_sizes.insert(*shard_id, tablets.values().map(|tablet| tablet.size).sum());
        }
        shard_sizes
    }

    fn eligible_shard_sizes(&self) -> HashMap<u32, u64> {
        let busy =
            |shard_id: &ShardId| self.in_progress_shards.get(shard_id).copied().unwrap_or(0) > 0;
        self.shard_sizes()
            .into_iter()
            .filter(|(shard_id, _)| !busy(shard_id))
            .map(|(shard_id, size)| (shard_id.0, size))
            .collect()
    }

    fn active_tablets(&self) -> Vec<TabletStats> {
        self.tablets()
            .filter(|(_, tablet)| tablet.active)
            .map(|(tablet_id, tablet)| TabletStats {
                tablet_id,
                colo_group_id: tablet.colo_group_id,
                range: tablet.range.clone(),
                size: tablet.size,
            })
            .collect()
    }

    fn tablets(&self) -> impl Iterator<Item = (TabletId, &Tablet)> {
        self.shards
            .values()
            .flat_map(|tablets| tablets.iter())
            .map(|(tablet_id, tablet)| (*tablet_id, tablet))
    }

    fn print_shard_sizes(&self, shard_capacity: u64) {
        let shard_sizes = self.shard_sizes();
        let shard_ids: BTreeSet<_> = shard_sizes.keys().collect();
        for shard_id in shard_ids {
            println!(
                "{:?}: {:.2}%",
                shard_id,
                100f64 * (*shard_sizes.get(shard_id).unwrap() as f64) / (shard_capacity as f64)
            );
        }
    }

    fn print_tablet_size_dist(&self) {
        let mut size_bucket_counts: BTreeMap<u64, usize> = BTreeMap::new();
        const BUCKET_SIZE: u64 = 500_000_000;
        for (_, tablet) in self.tablets() {
            *size_bucket_counts
                .entry((tablet.size / BUCKET_SIZE) * BUCKET_SIZE)
                .or_default() += 1;
        }
        let max_count = size_bucket_counts.values().copied().max().unwrap();
        for (size_bucket, count) in &size_bucket_counts {
            println!(
                "{:>10.2}GB {}",
                (*size_bucket as f64) / 1_000_000_000f64,
                "*".to_string().repeat(count * 100 / max_count)
            );
        }
    }
}

#[derive(Clone, Debug, Eq, Hash, PartialEq)]
struct TransferIds {
    srcs: Vec<TabletId>,
    dsts: Vec<TabletId>,
}

/// A key half way between two keys.
fn key_between(lower: &[u8], upper: &[u8]) -> Vec<u8> {
    let len = max(lower.len(), upper.len()) + 1;
    let digit = |key: &[u8], i: usize| key.get(i).copied().unwrap_or(0) as u32;
    let mut sum = vec![0u32; len + 1];
    for i in (0..len).rev() {
        let total = sum[i + 1] + digit(lower, i) + digit(upper, i);
        sum[i + 1] = total & 0xff;
        sum[i] = total >> 8;
    }
    let mut middle = vec![];
    let mut carry = sum[0];
    for s in &sum[1..] {
        let value = (carry << 8) | s;
        middle.push((value >> 1) as u8);
        carry = value & 1;
    }
    middle
}

fn split_range(range: Range<Vec<u8>>) -> (Range<Vec<u8>>, Range<Vec<u8>>) {
    let lower_bytes = match range.lower {
        Bound::BeforeAll => vec![],
        Bound::Before(ref key) => key.clone(),
        Bound::After(ref key) => key.clone(),
        Bound::AfterPrefix(_) | Bound::AfterAll => unreachable!(),
    };
    let upper_bytes = match range.upper {
        Bound::Before(ref key) => key.clone(),
        Bound::After(ref key) => key.clone(),
        Bound::BeforeAll | Bound::AfterPrefix(_) => unreachable!(),
        Bound::AfterAll => vec![
            0xFF, 0xFF, 0xFF, 0xFF, 0xFF, 0xFF, 0xFF, 0xFF, 0xFF, 0xFF, 0xFF, 0xFF,
        ],
    };

    let split_key = key_between(&lower_bytes, &upper_bytes);
    assert!(lower_bytes < split_key && split_key < upper_bytes);

    range.split(&Bound::Before(split_key))
}
