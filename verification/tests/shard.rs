use obsidian::meta::{
    MetaKey, MetaSnapshot, MetaState, NodeId, SyncType, TabletMetadata, TabletState, TransferId,
    TransferMetadata, TransferState,
};
use obsidian::node::{replica_states, MetaStep, Node, NodeError, ReplicaChange};
use obsidian::range::{Bound, Range};
use obsidian::replica::recovery::{
    replay_key, RecoveryError, ShardRecovery, TabletRecovery,
};
use obsidian::replica::shard_journal::{ShardEntry, ShardJournal};
use obsidian::replica::ReplicaState;
use obsidian::sequencer::{ReadStep, Sequencer, MAX_AHEAD_NANOS, MAX_SKEW_NANOS};
use obsidian::shard::journal_live_runs::JournalLiveRuns;
use obsidian::shard::{
    new_data_tablet, plan_sync, ranges_to_splits, shard_tablet_metadata, Shard, ShardError,
    ShardTabletMetadata, SyncStep, TabletRef, TabletTransfer,
};
use obsidian::shards::{Shards, ShardsError};
use obsidian::supervisor::manifests::{RunEntry, RunId};
use obsidian::tablet::data_tablet::{DataState, DataTablet, TabletRequest};
use obsidian::tablet::hydrating_tablet::{HydratingTablet, HydrationState};
use obsidian::tablet::journaled_lsm::{JournaledLsm, TabletJournalEntry, WrittenKey};
use obsidian::tablet::lsm_tablet::LsmTablet;
use obsidian::tablet::meta_tablet::MetaTablet;
use obsidian::tablet::protected::{InfrequentlyChanged, ProtectedLsm};
use obsidian::tablet::shard_meta_tablet::WaitStep;
use obsidian::tablet::waiters::{remaining_wait, Waiters};
use obsidian::types::data::{JournalSeq, Mutation, RevisionValue, Timestamp, Txid};
use obsidian::types::error::InternalError;
use obsidian::types::{ColoGroupId, KeyspaceId, ShardId, TabletId};
use obsidian::util::ordmap::OrdMap;

const SHARD: ShardId = ShardId(7);
const TABLET: TabletId = TabletId(SHARD, 3);
const GROUP: ColoGroupId = ColoGroupId(4);
const KS: KeyspaceId = KeyspaceId(GROUP, 1);

fn before(b: &[u8]) -> Bound<Vec<u8>> {
    Bound::Before(b.to_vec())
}

fn metadata(state: MetaState<TabletState>, transfer_id: Option<TransferId>) -> TabletMetadata {
    TabletMetadata { colo_group_id: GROUP, range: Range::all(), state, transfer_id }
}

#[test]
fn timestamps_go_up_and_reads_wait_for_writes() {
    let mut s = Sequencer::new();
    let (first, woken) = s.start_write(Timestamp(100));
    assert_eq!((first, woken), (Timestamp(100), vec![]));
    assert_eq!(s.safe_read_ts(), Timestamp(99));
    let (second, _) = s.start_write(Timestamp(50));
    assert_eq!(second, Timestamp(101));
    assert_eq!(s.wait_for_safe_read(Timestamp(99), Timestamp(101)), Ok(ReadStep::Ready));
    assert_eq!(s.wait_for_safe_read(Timestamp(100), Timestamp(101)), Ok(ReadStep::Wait));
    assert_eq!(s.wait_for_safe_read(Timestamp(101), Timestamp(101)), Ok(ReadStep::Wait));
    // A read is woken once all writes at its timestamp or lower are done.
    assert_eq!(s.finish_write(first), vec![Timestamp(100)]);
    assert_eq!(s.safe_read_ts(), Timestamp(100));
    assert_eq!(s.finish_write(second), vec![Timestamp(101)]);
    assert_eq!(s.safe_read_ts(), Timestamp(101));
    assert!(s.waiters.is_empty());
}

#[test]
fn reads_ahead_of_the_clock_sleep_or_are_refused() {
    let mut s = Sequencer::new();
    let now = Timestamp(1_000_000_000);
    let ahead = |n: u64| Timestamp(now.0 + n);
    assert_eq!(
        s.wait_for_safe_read(ahead(MAX_AHEAD_NANOS + 1), now),
        Err(InternalError::FutureTimestamp),
    );
    assert_eq!(
        s.wait_for_safe_read(ahead(MAX_AHEAD_NANOS), now),
        Ok(ReadStep::Sleep(MAX_AHEAD_NANOS)),
    );
    assert_eq!(
        s.wait_for_safe_read(ahead(MAX_SKEW_NANOS), now),
        Ok(ReadStep::Sleep(MAX_SKEW_NANOS)),
    );
    assert_eq!(s.wait_for_safe_read(ahead(MAX_SKEW_NANOS - 1), now), Ok(ReadStep::Ready));
    // No write comes before a read that was found safe.
    let (ts, _) = s.start_write(now);
    assert_eq!(ts, ahead(MAX_SKEW_NANOS));
}

#[test]
fn waiters_are_told_once() {
    let txid = |n| Txid { owner: SHARD, unique: n };
    let mut w = Waiters::new();
    assert!(w.wait(10, txid(1)));
    assert!(!w.wait(20, txid(1)));
    assert!(w.wait(30, txid(2)));
    assert!(w.notify(txid(1)));
    assert!(!w.notify(txid(1)));
    assert_eq!(w.pop_oldest(), Some((10, txid(1))));
    assert_eq!(w.pop_oldest(), Some((30, txid(2))));
    assert_eq!(w.pop_oldest(), None);
    assert_eq!(remaining_wait(1_000, 500), 1_000_000_000);
    assert_eq!(remaining_wait(1_000, 1_400), 999_999_600);
    assert_eq!(remaining_wait(0, 5_000_000_000), 0);
}

#[test]
fn tablets_take_requests_by_their_state() {
    let allowed = |request: TabletRequest| {
        [TabletState::Hydrating, TabletState::Active, TabletState::Frozen, TabletState::Defunct]
            .map(|state| request.is_allowed(state))
    };
    assert_eq!(allowed(TabletRequest::GetMulti), [false, true, true, false]);
    assert_eq!(allowed(TabletRequest::Write), [false, true, false, false]);
    assert_eq!(allowed(TabletRequest::Catchup), [true, false, false, false]);
    assert_eq!(allowed(TabletRequest::Manifest), [true, true, true, false]);
    let tablet = DataTablet::new_active(TABLET, GROUP, Range::all());
    assert_eq!(tablet.check_request(TabletRequest::Write), Ok(()));
    assert_eq!(
        tablet.check_request(TabletRequest::Catchup),
        Err(InternalError::WrongState(TABLET, TabletState::Active)),
    );
}

#[test]
fn a_tablet_goes_from_hydrating_to_active_and_out() {
    let mut tablet = DataTablet::new_hydrating(TABLET, GROUP, Range::all(), vec![TabletId(SHARD, 1)]);
    assert!(tablet.is_hydrating());
    assert_eq!(tablet.create_keyspace(KS), Ok(vec![]));
    assert_eq!(
        tablet.create_keyspace(KeyspaceId(ColoGroupId(9), 1)),
        Err(InternalError::WrongGroup(KeyspaceId(ColoGroupId(9), 1))),
    );
    assert!(tablet.transition_active().is_err());
    let created = tablet.transition_frozen(true).unwrap();
    assert_eq!(created, vec![KS, KS.pending().unwrap(), KS.precond().unwrap()]);
    assert_eq!(tablet.kind(), TabletState::Frozen);
    assert!(tablet.create_keyspace(KS).is_err());
    assert_eq!(tablet.transition_active(), Ok(()));
    tablet.set_splits(vec![before(b"m")]);
    assert!(matches!(&tablet.state, DataState::Active(splits) if splits.len() == 1));
    assert!(tablet.transition_defunct().is_err());
    assert_eq!(tablet.transition_frozen(false), Ok(vec![]));
    assert_eq!(tablet.transition_defunct(), Ok(()));
    assert_eq!(
        tablet.transition_frozen(true),
        Err(InternalError::WrongState(TABLET, TabletState::Defunct)),
    );
    assert_eq!(tablet.create_keyspace(KS), Ok(vec![]));

    let mut failed = DataTablet::new_hydrating(TABLET, GROUP, Range::all(), vec![]);
    assert_eq!(failed.transition_frozen(false), Err(InternalError::HydrationFailed(TABLET)));
    assert_eq!(failed.kind(), TabletState::Defunct);
}

#[test]
fn hydration_is_mostly_done_after_three_whole_rounds() {
    let mut h = HydratingTablet::new(TABLET, GROUP, Range::prefix(vec![1]), vec![]);
    assert_eq!(h.wait_mostly_hydrated(), Ok(false));
    assert_eq!(h.catchup(), Err(InternalError::WrongHydration(HydrationState::Started)));
    assert!(!h.end_round(h.start_round(), true));
    assert!(!h.end_round(h.start_round(), false));
    assert!(!h.end_round(h.start_round(), true));
    assert_eq!(h.wait_mostly_hydrated(), Ok(false));
    assert!(!h.end_round(h.start_round(), true));
    assert_eq!(h.wait_mostly_hydrated(), Ok(true));
    assert_eq!(h.catchup(), Ok(false));
    assert_eq!(
        h.wait_mostly_hydrated(),
        Err(InternalError::WrongHydration(HydrationState::Catchup)),
    );
    assert!(!h.end_round(h.start_round(), false));
    assert!(h.end_round(h.start_round(), true));
    assert_eq!(h.catchup(), Ok(true));

    assert!(h.runs_complete(&vec![Range::prefix(vec![1, 2]), Range::prefix(vec![2])]));
    assert!(!h.runs_complete(&vec![Range::prefix(vec![1, 2]), Range::all()]));
}

#[test]
fn a_change_drains_when_the_last_guard_of_the_old_item_drops() {
    let mut item = InfrequentlyChanged::new("old");
    let a = item.load();
    let b = item.load();
    let old = item.store("new");
    let c = item.load();
    assert!(!item.is_drained(old));
    assert!(!item.drop_guard(a));
    assert!(!item.drop_guard(c));
    assert!(item.drop_guard(b));
    assert!(item.is_drained(old));
    assert_eq!(item.item, "new");
}

#[test]
fn protected_tablets_refuse_by_their_state() {
    let mut lsm = ProtectedLsm::new(TABLET, TabletState::Frozen);
    assert_eq!(lsm.read(), Ok(0));
    assert_eq!(lsm.read_write(), Err(InternalError::TabletNotWriteable(TABLET)));
    assert_eq!(lsm.load(), Err(InternalError::TabletNotHydrating(TABLET)));
    assert_eq!(lsm.set_state(TabletState::Active), 0);
    assert_eq!(lsm.read_write(), Ok(1));
    lsm.set_state(TabletState::Hydrating);
    assert_eq!(lsm.read(), Err(InternalError::TabletNotReadable(TABLET)));
    assert_eq!(lsm.load(), Ok(2));
}

#[test]
fn stores_become_read_only_and_back() {
    let lsm = JournaledLsm::new("store", "journal");
    let frozen = lsm.make_read_only();
    let thawed = frozen.make_writeable("other");
    assert_eq!((thawed.lsm, thawed.journal), ("store", "other"));
}

#[test]
fn the_meta_tablet_takes_reads_and_writes() {
    let tablet = MetaTablet::new();
    assert_eq!(tablet.inner.tablet_id, TabletId::meta());
    assert_eq!(tablet.inner.colo_group_id, ColoGroupId::meta());
    assert_eq!(tablet.inner.range, Range::all());
    assert_eq!(tablet.check_request(TabletRequest::Write), Ok(()));
    assert!(tablet.check_request(TabletRequest::Catchup).is_err());
}

#[test]
fn ranges_split_where_they_meet() {
    let ranges = vec![
        Range { lower: Bound::BeforeAll, upper: before(b"c") },
        Range { lower: before(b"c"), upper: before(b"m") },
        Range { lower: before(b"m"), upper: Bound::AfterAll },
    ];
    assert_eq!(ranges_to_splits(&ranges), Ok(vec![before(b"c"), before(b"m")]));
    assert_eq!(ranges_to_splits(&vec![]), Ok(vec![]));
    let gap = vec![ranges[0].clone(), ranges[2].clone()];
    assert_eq!(ranges_to_splits(&gap), Err(ShardError::NotContiguous));
}

#[test]
fn a_recovered_shard_owns_the_outcomes_of_its_transactions() {
    let snapshot = MetaSnapshot::new();
    let shard = Shard::new(SHARD, &vec![], &snapshot).ok().unwrap();
    assert_eq!(
        shard.own_keyspaces(),
        vec![(TabletId::shard_meta(SHARD), KeyspaceId::tx_outcomes())],
    );
    let wait = |owner| shard.shard_meta_tablet.wait(Txid { owner, unique: 3 }, &None);
    assert_eq!(wait(SHARD), Ok(WaitStep::Wait));
    assert_eq!(wait(ShardId(SHARD.0 + 1)), Err(InternalError::NotOwned(ColoGroupId::shard_meta())));

    let meta = Shard::new(ShardId::meta(), &vec![], &snapshot).ok().unwrap();
    assert_eq!(
        meta.own_keyspaces(),
        vec![
            (TabletId::shard_meta(ShardId::meta()), KeyspaceId::tx_outcomes()),
            (TabletId::meta(), KeyspaceId::meta()),
        ],
    );
    assert!(matches!(meta.tablet(TabletId::meta()), Ok(TabletRef::Meta(_))));
}

fn split_snapshot() -> (MetaSnapshot, [TabletId; 3]) {
    let ids = [TabletId(SHARD, 1), TabletId(SHARD, 2), TabletId(ShardId(8), 3)];
    let transfer = TransferId(55);
    let mut snapshot = MetaSnapshot::new();
    snapshot.tablets.insert(
        ids[0],
        metadata(MetaState::Stable(TabletState::Active), Some(transfer)),
    );
    let part = |lower, upper| TabletMetadata {
        colo_group_id: GROUP,
        range: Range { lower, upper },
        state: MetaState::Stable(TabletState::Hydrating),
        transfer_id: Some(transfer),
    };
    snapshot.tablets.insert(ids[1], part(Bound::BeforeAll, before(b"m")));
    snapshot.tablets.insert(ids[2], part(before(b"m"), Bound::AfterAll));
    snapshot.transfers.insert(
        transfer,
        TransferMetadata {
            state: MetaState::Stable(TransferState::Copy),
            srcs: vec![ids[0]],
            dsts: vec![ids[1], ids[2]],
            timestamp: 0,
        },
    );
    (snapshot, ids)
}

#[test]
fn tablets_know_their_part_in_a_transfer() {
    let (mut snapshot, ids) = split_snapshot();
    let src = shard_tablet_metadata(ids[0], &snapshot).unwrap();
    assert!(matches!(
        src.transfer,
        Some(TabletTransfer::Src { splits }) if splits == vec![before(b"m")]
    ));
    let dst = shard_tablet_metadata(ids[1], &snapshot).unwrap();
    assert!(matches!(
        &dst.transfer,
        Some(TabletTransfer::Dst { srcs }) if *srcs == vec![ids[0]]
    ));
    let made = new_data_tablet(ids[1], dst).unwrap();
    assert!(made.is_hydrating());
    let unknown = TabletId(SHARD, 99);
    assert!(matches!(
        shard_tablet_metadata(unknown, &snapshot),
        Err(ShardError::UnknownTablet(id)) if id == unknown
    ));
    snapshot.tablets.insert(
        unknown,
        metadata(MetaState::Stable(TabletState::Active), Some(TransferId(55))),
    );
    assert!(matches!(
        shard_tablet_metadata(unknown, &snapshot),
        Err(ShardError::NotInTransfer(id, TransferId(55))) if id == unknown
    ));
    snapshot.tablets.insert(
        unknown,
        metadata(MetaState::Stable(TabletState::Active), Some(TransferId(56))),
    );
    assert!(matches!(
        shard_tablet_metadata(unknown, &snapshot),
        Err(ShardError::UnknownTransfer(TransferId(56)))
    ));
    let orphan = ShardTabletMetadata {
        colo_group_id: GROUP,
        range: Range::all(),
        state: TabletState::Hydrating,
        transfer: None,
    };
    assert!(matches!(new_data_tablet(unknown, orphan), Err(ShardError::NoSources(_))));
}

#[test]
fn a_shard_follows_its_tablets() {
    let (snapshot, ids) = split_snapshot();
    let mut shard = Shard::new(SHARD, &vec![ids[0]], &snapshot).ok().unwrap();
    assert_eq!(shard.id(), SHARD);
    assert!(matches!(shard.tablet(ids[0]), Ok(TabletRef::Data(_))));
    assert!(matches!(
        shard.tablet(TabletId::shard_meta(SHARD)),
        Ok(TabletRef::ShardMeta(_))
    ));
    assert!(matches!(shard.tablet(ids[1]), Err(ShardError::NotFound(_))));
    assert!(matches!(shard.tablet(TabletId::meta()), Err(ShardError::NotMember(_, SHARD))));

    let dst = shard_tablet_metadata(ids[1], &snapshot).unwrap();
    assert_eq!(shard.create_or_transition_tablet(ids[1], dst, false), Ok(vec![]));
    assert_eq!(shard.ensure_keyspace(KS), (vec![ids[0]], Ok(())));
    let frozen = ShardTabletMetadata {
        colo_group_id: GROUP,
        range: Range::all(),
        state: TabletState::Frozen,
        transfer: None,
    };
    assert_eq!(
        shard.create_or_transition_tablet(ids[1], frozen, true),
        Ok(vec![KS, KS.pending().unwrap(), KS.precond().unwrap()]),
    );
    let hydrating = shard_tablet_metadata(ids[1], &snapshot).unwrap();
    assert_eq!(
        shard.create_or_transition_tablet(ids[1], hydrating, true),
        Err(ShardError::CannotHydrate(ids[1])),
    );
    let other = || ShardTabletMetadata {
        colo_group_id: GROUP,
        range: Range::all(),
        state: TabletState::Active,
        transfer: None,
    };
    assert_eq!(
        shard.create_or_transition_tablet(ids[2], other(), true),
        Err(ShardError::WrongShard(ids[2], SHARD)),
    );
    let own = TabletId::shard_meta(SHARD);
    assert_eq!(
        shard.create_or_transition_tablet(own, other(), true),
        Err(ShardError::ShardMeta(own)),
    );
    assert_eq!(
        shard.ensure_keyspace(KeyspaceId(GROUP, 2)),
        (
            vec![ids[0]],
            Err(ShardError::Tablet(InternalError::WrongState(ids[1], TabletState::Frozen))),
        ),
    );
}

#[test]
fn syncs_touch_what_changed() {
    let (mut snapshot, ids) = split_snapshot();
    snapshot.keyspaces.insert(KS, ());
    assert_eq!(
        plan_sync(SHARD, &SyncType::Initial, &snapshot),
        vec![SyncStep::Tablet(ids[0]), SyncStep::Tablet(ids[1]), SyncStep::Keyspace(KS)],
    );
    let tx = SyncType::Tx(vec![
        MetaKey::Node(NodeId(1)),
        MetaKey::Keyspace(KS),
        MetaKey::Tablet(ids[2]),
        MetaKey::Tablet(ids[1]),
    ]);
    assert_eq!(
        plan_sync(SHARD, &tx, &snapshot),
        vec![SyncStep::Keyspace(KS), SyncStep::Tablet(ids[1])],
    );
    let (tablet, _) = LsmTablet::new(ids[0], std::collections::HashMap::new());
    let (created, state) = tablet.sync_meta(&SyncType::Initial, &snapshot);
    assert_eq!(created, vec![KS]);
    assert_eq!(
        LsmTablet::create_keyspace(KS),
        vec![KS, KS.pending().unwrap(), KS.precond().unwrap()],
    );
    assert_eq!(state, Ok(Some(TabletState::Active)));
}

#[test]
fn live_runs_outlive_trims_while_mentioned() {
    let mut runs = JournalLiveRuns::new();
    runs.insert(JournalSeq(1), RunId(10));
    runs.insert(JournalSeq(2), RunId(20));
    runs.insert(JournalSeq(3), RunId(10));
    assert_eq!(runs.run_ids(), vec![RunId(10), RunId(20)]);
    runs.trim(JournalSeq(2));
    assert_eq!(runs.run_ids(), vec![RunId(10), RunId(20)]);
    runs.trim(JournalSeq(3));
    assert_eq!(runs.run_ids(), vec![RunId(10)]);
    runs.trim(JournalSeq(4));
    assert_eq!(runs.run_ids(), vec![]);
}

#[test]
fn only_leaders_serve() {
    assert_eq!(ReplicaState::Leader(JournalSeq(3)).if_leader(TABLET), Ok(()));
    assert_eq!(
        ReplicaState::Follower.if_leader(TABLET),
        Err(InternalError::NotLeader(TABLET)),
    );
}

#[test]
fn journals_are_parted_by_tablet() {
    let mut journal = ShardJournal::new();
    journal.process_entry(JournalSeq(1), ShardEntry { tablet_id: TABLET, entry: "a" });
    journal.process_entry(
        JournalSeq(2),
        ShardEntry { tablet_id: TabletId(SHARD, 4), entry: "b" },
    );
    journal.process_entry(JournalSeq(3), ShardEntry { tablet_id: TABLET, entry: "c" });
    assert_eq!(
        *journal.tablet_journal(TABLET),
        vec![(JournalSeq(1), "a"), (JournalSeq(3), "c")],
    );
    assert_eq!(journal.tablet_journal(TabletId(SHARD, 5)).len(), 0);
}

fn written(value: RevisionValue) -> WrittenKey {
    WrittenKey { keyspace_id: KS, key: b"k".to_vec(), value }
}

#[test]
fn manifests_take_the_place_of_earlier_writes() {
    let write = |ts| TabletJournalEntry::Write(Timestamp(ts), vec![written(RevisionValue::Tombstone)]);
    let run = RunEntry { keyspace_id: KS, level: 0, run_id: RunId(1) };
    let mut recovery = TabletRecovery::empty();
    recovery.process(JournalSeq(1), write(10));
    recovery.process(JournalSeq(2), TabletJournalEntry::NoOp);
    recovery.process(JournalSeq(3), write(30));
    recovery.process(JournalSeq(4), TabletJournalEntry::Manifest(JournalSeq(3), vec![run]));
    // Only writes have to come in order.
    recovery.process(JournalSeq(2), TabletJournalEntry::NoOp);
    assert_eq!(recovery.manifest, Some(vec![run]));
    assert_eq!(recovery.writes.len(), 1);
    assert_eq!((recovery.writes[0].seq, recovery.writes[0].ts), (JournalSeq(3), Timestamp(30)));

    let mut manifests = OrdMap::new();
    manifests.insert(TABLET, vec![run]);
    let mut shard = ShardRecovery::from_manifests(&manifests);
    shard.process(JournalSeq(1), ShardEntry { tablet_id: TabletId(SHARD, 9), entry: write(5) });
    assert_eq!(shard.tablets.len(), 2);
    assert_eq!(shard.tablets.get(&TABLET).unwrap().manifest, Some(vec![run]));
    assert_eq!(shard.tablets.get(&TabletId(SHARD, 9)).unwrap().writes.len(), 1);
    assert_eq!(ShardRecovery::empty().tablets.len(), 0);
}

#[test]
fn replays_leave_out_what_is_there() {
    let regular = |b: &[u8]| RevisionValue::Regular(b.to_vec());
    let there = |ts, b: &[u8]| Some((Timestamp(ts), regular(b)));
    let key = written(regular(b"v"));
    assert_eq!(
        replay_key(Timestamp(5), &key, &None),
        Ok(Some(Mutation::Put(b"v".to_vec()))),
    );
    assert_eq!(
        replay_key(Timestamp(5), &key, &there(4, b"v")),
        Ok(Some(Mutation::Put(b"v".to_vec()))),
    );
    assert_eq!(replay_key(Timestamp(5), &key, &there(5, b"v")), Ok(None));
    assert_eq!(
        replay_key(Timestamp(5), &key, &there(5, b"w")),
        Err(RecoveryError::DuplicateRevision(Timestamp(5))),
    );
}

#[test]
fn later_leaders_win_whatever_the_order() {
    let mut snapshot = MetaSnapshot::new();
    snapshot.nodes.insert(NodeId(1), ());
    snapshot.nodes.insert(NodeId(2), ());
    snapshot.shards.insert(SHARD, vec![NodeId(1), NodeId(2)]);
    let sync = |shards: &mut Shards| shards.try_sync_meta(&SyncType::Initial, &snapshot);
    let mut a = Shards::new();
    assert_eq!(a.shard(SHARD), Err(ShardsError::NotRouted(SHARD)));
    assert_eq!(sync(&mut a), (vec![NodeId(1), NodeId(2)], Ok(())));
    assert_eq!(sync(&mut a), (vec![], Ok(())));
    assert_eq!(a.shard(SHARD), Err(ShardsError::LeaderUnknown(SHARD)));
    let mut b = Shards::new();
    sync(&mut b).1.unwrap();
    let (one, two) = (vec![(SHARD, JournalSeq(5))], vec![(SHARD, JournalSeq(9))]);
    a.leader_news(NodeId(1), &one);
    assert_eq!(a.shard(SHARD), Ok(NodeId(1)));
    a.leader_news(NodeId(2), &two);
    b.leader_news(NodeId(2), &two);
    b.leader_news(NodeId(1), &one);
    assert_eq!(a.shard(SHARD), Ok(NodeId(2)));
    assert_eq!(b.shard(SHARD), Ok(NodeId(2)));
    let unknown = SyncType::Tx(vec![MetaKey::Shard(ShardId(99))]);
    assert_eq!(
        a.try_sync_meta(&unknown, &snapshot),
        (vec![], Err(ShardsError::UnknownShard(ShardId(99)))),
    );
}

#[test]
fn subscriptions_survive_a_failed_sync() {
    let mut snapshot = MetaSnapshot::new();
    snapshot.nodes.insert(NodeId(1), ());
    snapshot.nodes.insert(NodeId(2), ());
    let keys = vec![
        MetaKey::Node(NodeId(1)),
        MetaKey::Shard(ShardId(5)),
        MetaKey::Node(NodeId(2)),
    ];
    let news = SyncType::Tx(keys);
    let mut shards = Shards::new();
    assert_eq!(
        shards.try_sync_meta(&news, &snapshot),
        (vec![NodeId(1)], Err(ShardsError::UnknownShard(ShardId(5)))),
    );
    snapshot.shards.insert(ShardId(5), vec![NodeId(1)]);
    assert_eq!(shards.try_sync_meta(&news, &snapshot), (vec![NodeId(2)], Ok(())));
}

#[test]
fn nodes_join_the_shards_that_they_are_given() {
    let mut node = Node::new(NodeId(2));
    let mut snapshot = MetaSnapshot::new();
    snapshot.shards.insert(SHARD, vec![NodeId(1), NodeId(2)]);
    snapshot.shards.insert(ShardId(8), vec![NodeId(3)]);
    assert_eq!(node.shard(SHARD), Err(NodeError::NotOwned(NodeId(2), SHARD)));
    assert_eq!(
        node.try_sync_meta(&SyncType::Initial, &snapshot),
        (vec![ReplicaChange::Join(SHARD)], Ok(())),
    );
    assert_eq!(node.shard(SHARD), Ok(()));
    // A shard that the node stays in is left alone.
    let keys = |ids: &[u32]| SyncType::Tx(ids.iter().map(|n| MetaKey::Shard(ShardId(*n))).collect());
    assert_eq!(node.try_sync_meta(&SyncType::Initial, &snapshot), (vec![], Ok(())));
    assert_eq!(
        node.try_sync_meta(&keys(&[SHARD.0, 99, 8]), &snapshot),
        (vec![], Err(NodeError::UnknownShard(ShardId(99)))),
    );
    snapshot.shards.insert(SHARD, vec![NodeId(1)]);
    assert_eq!(
        node.shard_metadata_changed(&snapshot, SHARD),
        Ok(Some(ReplicaChange::Leave(SHARD))),
    );
    assert_eq!(node.shard_metadata_changed(&snapshot, SHARD), Ok(None));
    assert_eq!(
        node.shard_metadata_changed(&snapshot, ShardId(99)),
        Err(NodeError::UnknownShard(ShardId(99))),
    );
    assert!(node.ensure_replica(SHARD));
    assert!(!node.ensure_replica(SHARD));
    assert!(node.remove_replica(SHARD));
    assert!(!node.remove_replica(SHARD));
}

#[test]
fn the_first_nodes_hold_the_metadata() {
    let mut node = Node::new(NodeId(3));
    assert_eq!(node.id(), NodeId(3));
    let first = |n: u64| (1..=n).map(NodeId).collect::<Vec<_>>();
    assert_eq!(node.watch_nodes(&first(2)), None);
    assert_eq!(
        node.watch_nodes(&first(5)),
        Some(ReplicaChange::Join(ShardId::meta())),
    );
    assert_eq!(
        node.watch_nodes(&vec![NodeId(0), NodeId(1), NodeId(2), NodeId(3)]),
        Some(ReplicaChange::Leave(ShardId::meta())),
    );
    assert_eq!(node.meta(), Err(NodeError::NoMeta(NodeId(3))));
    let states = replica_states(&vec![(ShardId::meta(), Some(JournalSeq(4))), (SHARD, None)]);
    assert_eq!(
        states,
        vec![
            (ShardId::meta(), ReplicaState::Leader(JournalSeq(4))),
            (SHARD, ReplicaState::Follower),
        ],
    );
    assert_eq!(node.follow_leadership(&states, false), MetaStep::Keep);
    assert_eq!(node.supervisor(), Err(NodeError::NoSupervisor(NodeId(3))));
    assert_eq!(node.follow_leadership(&states, true), MetaStep::Start);
    assert_eq!((node.meta(), node.supervisor()), (Ok(()), Ok(())));
    assert_eq!(node.follow_leadership(&vec![], true), MetaStep::Stop);
    assert_eq!(node.meta(), Err(NodeError::NoMeta(NodeId(3))));
}
