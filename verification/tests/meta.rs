use obsidian::meta::{
    MetaPut, MetaSnapshot, MetaState, TabletMetadata, TabletState, TransferId, TransferMetadata,
    TransferState,
};
use obsidian::meta_synced::{MetaCopy, MetaRecord, MetaSyncError, MetaSynced, SyncNext, TabletRanges};
use obsidian::range::{Bound, Range};
use obsidian::router::RouteError;
use obsidian::supervisor::gc::{
    active_frozen_tablet_ids, finish_page, get_or_init_phase, insert_candidate, part_of,
    remove_candidate, shards_to_recheck, transition, GcChange, GcError, GcPhase, GcStorageKey,
    ListCandidatesCursor, PhaseMessage, PhaseType, GC_PARTS, GC_PRUNE_WAIT_NANOS,
};
use obsidian::supervisor::manifests::{check_manifests_equal, ManifestError, RunEntry, RunId};
use obsidian::supervisor::queue::{ascending_by_size, ShardSizes};
use obsidian::supervisor::transfer::{
    after_catchup, check_transfer, merged_range, roll_transition_forward, split_ranges,
    start_transfer, transfer_outcome, transfer_step, transition_transfer, Destination,
    Participant, TransferAction, TransferError, CATCHUP_TIMEOUT_NANOS,
};
use obsidian::types::data::{Precondition, RevisionValue, Timestamp};
use obsidian::types::{ColoGroupId, Direction, KeyspaceId, ShardId, TabletId};

const GROUP: ColoGroupId = ColoGroupId(4);
const TRANSFER: TransferId = TransferId(77);

fn id(n: u64) -> TabletId {
    TabletId(ShardId(1), n)
}

fn before(b: &[u8]) -> Bound<Vec<u8>> {
    Bound::Before(b.to_vec())
}

fn halves() -> [Range<Vec<u8>>; 2] {
    [
        Range { lower: Bound::BeforeAll, upper: before(b"m") },
        Range { lower: before(b"m"), upper: Bound::AfterAll },
    ]
}

fn participant(n: u64, range: Range<Vec<u8>>, state: MetaState<TabletState>) -> Participant {
    Participant {
        tablet_id: id(n),
        metadata: TabletMetadata { colo_group_id: GROUP, range, state, transfer_id: None },
    }
}

fn active(n: u64, range: Range<Vec<u8>>) -> Participant {
    participant(n, range, MetaState::Stable(TabletState::Active))
}

#[test]
fn routing_follows_the_owned_ranges() {
    let mut synced = MetaSynced::new();
    assert_eq!(
        synced.tablet_id_for_key(GROUP, b"a"),
        Err(RouteError::NoRouting(GROUP)),
    );
    let [low, high] = halves();
    let owned = |n, range| TabletRanges {
        tablet_id: id(n),
        colo_group_ids: vec![GROUP.0],
        ranges: vec![range],
    };
    assert_eq!(synced.regen_router(&vec![owned(2, high), owned(1, low)]), Ok(()));
    assert_eq!(synced.tablet_id_for_key(GROUP, b"a"), Ok(id(1)));
    assert_eq!(synced.tablet_id_for_key(GROUP, b"m"), Ok(id(2)));
    let bound = Bound::Before(&b"m"[..]);
    assert_eq!(synced.tablet_id_for_bound(GROUP, bound, Direction::Asc), Ok(id(2)));
    let bound = Bound::Before(&b"m"[..]);
    assert_eq!(synced.tablet_id_for_bound(GROUP, bound, Direction::Desc), Ok(id(1)));
    assert!(synced.ranges_for_tablet(id(1), GROUP).contains(&b"lzz".to_vec()));
    assert!(!synced.ranges_for_tablet(id(1), GROUP).contains(&b"m".to_vec()));
    assert!(synced.ranges_for_tablet(id(3), GROUP).is_empty());
    assert!(synced
        .ranges_for_tablet(TabletId::meta(), ColoGroupId::meta())
        .contains(&b"anything".to_vec()));
    let own = synced.ranges_for_tablet(id(5), ColoGroupId::tablet_meta());
    assert!(own.contains(&id(5).encode_fixed()));
    assert!(!own.contains(&id(6).encode_fixed()));
    let corrupted = TabletRanges { tablet_id: id(9), colo_group_ids: vec![1, 2], ranges: vec![] };
    assert_eq!(
        synced.regen_router(&vec![corrupted]),
        Err(MetaSyncError::CorruptedTablet(id(9))),
    );
    assert_eq!(synced.tablet_id_for_key(GROUP, b"a"), Ok(id(1)));
}

#[test]
fn the_last_record_of_a_key_wins() {
    let mut copy = MetaCopy::new(Timestamp(3));
    copy.add_page(vec![(vec![1], vec![10]), (vec![2], vec![20])]);
    let regular = |k: u8, v: u8| MetaRecord {
        key: vec![k],
        value: RevisionValue::Regular(vec![v]),
    };
    let gone = |k: u8| MetaRecord { key: vec![k], value: RevisionValue::Tombstone };
    let records = vec![regular(1, 11), gone(2), regular(3, 30), gone(3), regular(1, 12)];
    assert_eq!(copy.sync(records, Timestamp(5)), SyncNext::Sync);
    assert_eq!(copy.ts, Timestamp(5));
    assert_eq!(copy.kv.entries, vec![(vec![1], vec![12])]);
    assert_eq!(copy.sync(vec![], Timestamp(5)), SyncNext::WaitForNewer);
}

#[test]
fn transfers_need_matching_ranges() {
    let [low, high] = halves();
    let both = || vec![active(1, low.clone()), active(2, high.clone())];
    assert_eq!(merged_range(&both()), Ok(Range::all()));
    assert_eq!(check_transfer(&both(), vec![Range::all()]), Ok(()));
    assert_eq!(check_transfer(&vec![active(1, Range::all())], halves().to_vec()), Ok(()));
    assert_eq!(
        check_transfer(&both(), halves().to_vec()),
        Err(TransferError::NotOneToSome),
    );
    assert_eq!(
        check_transfer(&vec![active(1, low.clone())], vec![high.clone()]),
        Err(TransferError::DifferentRanges),
    );
    let apart = vec![
        active(1, Range { lower: Bound::BeforeAll, upper: before(b"c") }),
        active(2, high.clone()),
    ];
    assert_eq!(
        check_transfer(&apart, vec![Range::all()]),
        Err(TransferError::SourcesNotContiguous),
    );
    assert_eq!(
        check_transfer(
            &vec![active(1, Range::all())],
            vec![Range { lower: Bound::BeforeAll, upper: before(b"c") }, high.clone()],
        ),
        Err(TransferError::DestinationsNotContiguous),
    );
    let mut busy = active(1, Range::all());
    busy.metadata.transfer_id = Some(TransferId(1));
    assert_eq!(
        check_transfer(&vec![busy], vec![Range::all()]),
        Err(TransferError::AlreadyParticipating(id(1), TransferId(1))),
    );
    let moving = participant(
        1,
        Range::all(),
        MetaState::Transitioning(TabletState::Frozen, TabletState::Active),
    );
    assert_eq!(
        check_transfer(&vec![moving], vec![Range::all()]),
        Err(TransferError::SourceTransitioning(id(1))),
    );
    let mut other = active(2, high.clone());
    other.metadata.colo_group_id = ColoGroupId(5);
    assert!(matches!(
        check_transfer(&vec![active(1, low.clone()), other], vec![Range::all()]),
        Err(TransferError::DifferentColoGroups(_, _))
    ));
    let (first, second) = split_ranges(&Range::all(), &before(b"m"));
    assert_eq!([first, second], halves());
}

#[test]
fn a_transfer_is_written_down_when_it_starts() {
    let [low, high] = halves();
    let dsts = vec![
        Destination { tablet_id: id(2), range: low },
        Destination { tablet_id: id(3), range: high },
    ];
    let puts = start_transfer(TRANSFER, &vec![active(1, Range::all())], &dsts, 123).unwrap();
    assert_eq!(puts.len(), 4);
    assert!(matches!(
        &puts[0],
        MetaPut::Tablet(t, m) if *t == id(1) && m.transfer_id == Some(TRANSFER)
    ));
    assert!(matches!(
        &puts[2],
        MetaPut::Tablet(t, m)
            if *t == id(3) && m.state == MetaState::Stable(TabletState::Hydrating)
    ));
    assert!(matches!(
        &puts[3],
        MetaPut::Transfer(TRANSFER, m)
            if m.state == MetaState::Stable(TransferState::Copy)
                && m.srcs == vec![id(1)]
                && m.dsts == vec![id(2), id(3)]
                && m.timestamp == 123
    ));
}

fn transfer(state: MetaState<TransferState>) -> TransferMetadata {
    TransferMetadata { state, srcs: vec![id(1)], dsts: vec![id(2)], timestamp: 5 }
}

#[test]
fn transfers_go_step_by_step() {
    let step = |state| transfer_step(MetaState::Stable(state), Some(0));
    assert_eq!(step(TransferState::Copy), Ok(TransferAction::AwaitMostlyHydrated));
    assert_eq!(step(TransferState::Catchup), Ok(TransferAction::AwaitCatchup));
    assert_eq!(
        transfer_step(MetaState::Stable(TransferState::Catchup), Some(CATCHUP_TIMEOUT_NANOS + 1)),
        Ok(TransferAction::Transition(TransferState::Aborted)),
    );
    assert_eq!(
        transfer_step(MetaState::Stable(TransferState::Catchup), None),
        Err(TransferError::ClockWentBackwards),
    );
    assert_eq!(
        step(TransferState::Synced),
        Ok(TransferAction::Transition(TransferState::Handoff)),
    );
    assert_eq!(
        step(TransferState::Handoff),
        Ok(TransferAction::Transition(TransferState::Complete)),
    );
    assert_eq!(step(TransferState::Complete), Ok(TransferAction::Done));
    assert_eq!(
        transfer_step(MetaState::Transitioning(TransferState::Copy, TransferState::Catchup), None),
        Ok(TransferAction::RollForward),
    );
    assert_eq!(after_catchup(true), TransferState::Synced);
    assert_eq!(after_catchup(false), TransferState::Aborted);
    let outcome = |state| transfer_outcome(TRANSFER, &transfer(MetaState::Stable(state)));
    assert_eq!(outcome(TransferState::Complete), Some(Ok(())));
    assert_eq!(outcome(TransferState::Aborted), Some(Err(TransferError::Aborted(TRANSFER))));
    assert_eq!(outcome(TransferState::Copy), None);
}

#[test]
fn transitions_are_begun_and_rolled_forward() {
    let hydrating = participant(2, Range::all(), MetaState::Stable(TabletState::Hydrating));
    let begun = transition_transfer(
        TRANSFER,
        &transfer(MetaState::Stable(TransferState::Copy)),
        TransferState::Catchup,
        &vec![active(1, Range::all())],
        &vec![hydrating],
        9,
    )
    .unwrap();
    let moving = MetaState::Transitioning(TransferState::Copy, TransferState::Catchup);
    assert!(matches!(
        &begun[0],
        MetaPut::Transfer(TRANSFER, m) if m.state == moving && m.timestamp == 9
    ));
    let freezing = MetaState::Transitioning(TabletState::Active, TabletState::Frozen);
    assert!(matches!(&begun[1], MetaPut::Tablet(t, m) if *t == id(1) && m.state == freezing));

    let dst = || participant(2, Range::all(), MetaState::Stable(TabletState::Hydrating));
    let rolled = roll_transition_forward(
        TRANSFER,
        &transfer(moving),
        &vec![participant(1, Range::all(), freezing)],
        &vec![dst()],
    )
    .unwrap()
    .unwrap();
    assert_eq!(rolled.wait_for, vec![id(1)]);
    assert!(matches!(
        &rolled.puts[0],
        MetaPut::Transfer(_, m) if m.state == MetaState::Stable(TransferState::Catchup)
    ));
    assert!(matches!(
        roll_transition_forward(
            TRANSFER,
            &transfer(moving),
            &vec![participant(1, Range::all(), MetaState::Stable(TabletState::Defunct))],
            &vec![dst()],
        ),
        Err(TransferError::UnexpectedState(t)) if t == id(1)
    ));
    let refused = |state, next, src: Participant| {
        transition_transfer(TRANSFER, &transfer(state), next, &vec![src], &vec![dst()], 9)
            .map(|puts| puts.len())
    };
    assert_eq!(
        refused(moving, TransferState::Catchup, active(1, Range::all())),
        Err(TransferError::AlreadyTransitioning(TransferState::Copy, TransferState::Catchup)),
    );
    assert_eq!(
        refused(
            MetaState::Stable(TransferState::Copy),
            TransferState::Complete,
            active(1, Range::all()),
        ),
        Err(TransferError::NotAllowed(TransferState::Copy, TransferState::Complete)),
    );
    assert_eq!(
        refused(
            MetaState::Stable(TransferState::Copy),
            TransferState::Catchup,
            participant(1, Range::all(), freezing),
        ),
        Err(TransferError::ParticipantTransitioning(id(1))),
    );
}

#[test]
fn manifests_are_the_same_or_tell_apart() {
    let run = |n| RunEntry { keyspace_id: KeyspaceId(GROUP, 1), level: 0, run_id: RunId(n) };
    let check = |a: &[u128], b: &[u128]| {
        check_manifests_equal(
            &vec![a.iter().map(|n| run(*n)).collect()],
            &b.iter().map(|n| vec![run(*n)]).collect(),
        )
    };
    assert_eq!(check(&[1, 2], &[2, 1]), Ok(()));
    assert_eq!(check(&[1, 1], &[1]), Err(ManifestError::LeftDuplicate(RunId(1))));
    assert_eq!(check(&[1], &[1, 1]), Err(ManifestError::RightDuplicate(RunId(1))));
    assert_eq!(check(&[1], &[1, 2]), Err(ManifestError::LeftMissing(RunId(2))));
    assert_eq!(check(&[1, 2], &[1]), Err(ManifestError::RightMissing(RunId(2))));
}

#[test]
fn shard_sizes_come_out_from_both_ends() {
    let mut sizes = ShardSizes::new();
    for (shard, size) in [(5, 50), (1, 10), (3, 30), (4, 30)] {
        sizes.insert(ShardId(shard), size);
    }
    sizes.insert(ShardId(5), 5);
    assert!(sizes.contains(ShardId(4)));
    assert_eq!(sizes.peek_min(), Some((ShardId(5), 5)));
    assert_eq!(sizes.pop_min(), Some(ShardId(5)));
    assert_eq!(sizes.peek_max(), Some((ShardId(4), 30)));
    assert_eq!(sizes.pop_max(), Some(ShardId(4)));
    sizes.remove(ShardId(1));
    sizes.remove(ShardId(1));
    assert_eq!(sizes.pop_min(), Some(ShardId(3)));
    assert_eq!(sizes.pop_min(), None);
    assert_eq!(sizes.pop_max(), None);
    assert_eq!(sizes.peek_min(), None);
    assert_eq!(sizes.peek_max(), None);
    assert_eq!(
        ascending_by_size(&vec![9, 1, 5, 5], &vec![true, true, true, true]).len(),
        4,
    );
    assert_eq!(ascending_by_size(&vec![9, 1, 5], &vec![true, false, true]), vec![2, 0]);
}

#[test]
fn phases_of_collection_come_round() {
    let now = Timestamp(1_000);
    let mut phase = GcPhase::Gather;
    let mut seen = vec![];
    for _ in 0..4 {
        let next = phase.next(now);
        assert!(phase.can_transition(&next));
        seen.push(next);
        phase = next;
    }
    assert_eq!(
        seen,
        vec![GcPhase::Wait { start: now }, GcPhase::Prune, GcPhase::Sweep, GcPhase::Gather],
    );
    assert!(!GcPhase::Gather.can_transition(&GcPhase::Sweep));
    let wait = GcPhase::Wait { start: now };
    assert_eq!(wait.remaining_wait(Timestamp(1_400)), GC_PRUNE_WAIT_NANOS - 400);
    assert_eq!(wait.remaining_wait(Timestamp(0)), GC_PRUNE_WAIT_NANOS + 1_000);
    assert_eq!(wait.remaining_wait(Timestamp(2_000 + GC_PRUNE_WAIT_NANOS)), 0);
    assert_eq!(GcPhase::Prune.remaining_wait(now), 0);
}

#[test]
fn messages_tell_phases_to_the_microsecond() {
    let message = GcPhase::Wait { start: Timestamp(1_234_567) }.to_message();
    assert_eq!(message.phase, Some(PhaseType::Wait { start: 1_234 }));
    let told = GcPhase::from_message(message).unwrap();
    assert_eq!(told, GcPhase::Wait { start: Timestamp(1_234_000) });
    let now = Timestamp(9_999_999);
    assert_eq!(
        told.remaining_wait(now),
        GcPhase::Wait { start: Timestamp(1_234_567) }.remaining_wait(now),
    );
    for phase in [GcPhase::Gather, GcPhase::Prune, GcPhase::Sweep] {
        assert_eq!(GcPhase::from_message(phase.to_message()), Ok(phase));
    }
    assert_eq!(
        GcPhase::from_message(PhaseMessage { phase: None }),
        Err(GcError::MissingPhase),
    );
    assert_eq!(Timestamp::from_micros(7), Timestamp(7_000));
    assert_eq!(Timestamp(7_999).as_micros(), 7);
}

#[test]
fn runs_are_encoded_as_their_bytes() {
    let run = RunId(0x0102_0304_0506_0708_090a_0b0c_0d0e_0f10);
    let b = run.encode_fixed();
    assert_eq!(b, (1..=16).collect::<Vec<u8>>());
    assert_eq!(RunId::decode(&b), Some(run));
    assert_eq!(RunId::decode(&b[1..]), None);
    assert_eq!(part_of(run), 1);
    assert_eq!(GcStorageKey::Candidate(run).encode().1, b);
    let phase_key = GcStorageKey::Phase(3).encode();
    assert_ne!(phase_key.0, GcStorageKey::Candidate(run).encode().0);
}

#[test]
fn candidates_change_only_in_their_phase() {
    let run = RunId(5u128 << 120);
    let ts = Timestamp(9);
    let insert = insert_candidate(run, GcPhase::Gather, ts).unwrap();
    assert_eq!(
        insert.changes,
        vec![GcChange::Add(run), GcChange::SetPhase(5, GcPhase::Gather)],
    );
    let phase_key = GcStorageKey::Phase(5).encode();
    assert_eq!(
        insert.preconds,
        vec![Precondition::NotChangedSince(phase_key.0, phase_key.1, ts)],
    );
    assert!(matches!(
        insert_candidate(run, GcPhase::Prune, ts),
        Err(GcError::NotGathering)
    ));
    let remove = remove_candidate(run, GcPhase::Sweep, ts).unwrap();
    assert_eq!(remove.changes[0], GcChange::Remove(run));
    assert!(matches!(
        remove_candidate(run, GcPhase::Gather, ts),
        Err(GcError::NotRemoving)
    ));
    let (phase, write) = get_or_init_phase(4, None, ts);
    assert_eq!(phase, GcPhase::Gather);
    assert_eq!(write.unwrap().changes, vec![GcChange::SetPhase(4, GcPhase::Gather)]);
    let (phase, write) = get_or_init_phase(4, Some(GcPhase::Sweep), ts);
    assert_eq!(phase, GcPhase::Sweep);
    assert!(write.is_none());
}

#[test]
fn all_parts_change_phase_together() {
    let mut phases = vec![(Timestamp(1), GcPhase::Prune); GC_PARTS];
    let write = transition(&phases, GcPhase::Sweep).unwrap();
    assert_eq!(write.changes.len(), 256);
    assert_eq!(write.changes[255], GcChange::SetPhase(255, GcPhase::Sweep));
    phases[255].1 = GcPhase::Gather;
    assert!(matches!(
        transition(&phases, GcPhase::Sweep),
        Err(GcError::CannotTransition(GcPhase::Gather, GcPhase::Sweep))
    ));
}

#[test]
fn candidates_are_listed_part_by_part() {
    let (part, range) = ListCandidatesCursor::Start(7).range();
    assert_eq!((part, range), (7, Range::prefix(vec![7])));
    let run = RunId(7u128 << 120);
    let rest = Range::prefix(vec![7, 1]);
    let (ids, next) = finish_page(7, &vec![run.encode_fixed()], Some(rest.clone())).unwrap();
    assert_eq!(ids, vec![run]);
    assert_eq!(next.unwrap().range(), (7, rest));
    let (ids, next) = finish_page(7, &vec![], None).unwrap();
    assert!(ids.is_empty() && next.is_none());
    assert!(matches!(finish_page(7, &vec![vec![1]], None), Err(GcError::NotARun)));
}

#[test]
fn shards_with_new_tablets_are_asked_again() {
    let mut snapshot = MetaSnapshot::new();
    let states = [
        MetaState::Stable(TabletState::Active),
        MetaState::Stable(TabletState::Frozen),
        MetaState::Stable(TabletState::Hydrating),
        MetaState::Stable(TabletState::Defunct),
    ];
    for (n, state) in states.into_iter().enumerate() {
        let p = participant(n as u64, Range::all(), state);
        snapshot.tablets.insert(p.tablet_id, p.metadata);
    }
    let holding = active_frozen_tablet_ids(&snapshot);
    assert_eq!(holding, vec![id(0), id(1)]);
    let far = TabletId(ShardId(2), 9);
    assert_eq!(shards_to_recheck(&holding, &vec![ShardId(1)], &holding), vec![]);
    assert_eq!(
        shards_to_recheck(&holding, &vec![ShardId(1)], &vec![id(0), far]),
        vec![ShardId(2)],
    );
}
