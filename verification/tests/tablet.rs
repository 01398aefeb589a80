use std::collections::{BTreeMap, HashMap};

use obsidian::range::{Bound, Range, RangeSet};
use obsidian::router::{RouteError, StaticRouter};
use obsidian::tablet::active_tablet::{
    cleanup_pending_key, cleanup_precond_key, prepare, prepared_keys, resolve_prepared, PrepareType,
};
use obsidian::tablet::data_tablet::TabletRequest;
use obsidian::tablet::journaled_lsm::{journal_write, TabletJournalEntry};
use obsidian::tablet::leftovers::{
    committed_leftover, keyspaces_to_scan, lock_leftovers, pending_leftover,
};
use obsidian::tablet::lsm_tablet::{check_obstacles, LsmTablet};
use obsidian::tablet::outcome::TxOutcomeRecord;
use obsidian::tablet::outcome_message::{
    from_message, to_message, MessageError, OutcomeMessage, OutcomeType,
};
use obsidian::tablet::pending::{DecodeError, PendingMutation, PrecondLocks};
use obsidian::tablet::scan_locks::ScanLocks;
use obsidian::tablet::shard_meta_tablet::{
    cleanup_by_tablet, OutcomeWrite, ShardMetaTablet, WaitStep,
};
use obsidian::tablet::tablet_inner::{
    bound_history, check_conflict_page, check_preconds, check_write_conflicts, finish_history,
    finish_scan, read_key, scanned_range, TabletInner,
};
use obsidian::types::data::{
    key_set, HistoryRange, Key, KeySet, Mutation, Muts, Precondition, Record, Revision,
    RevisionValue, Stored, Timestamp, TxOutcome, Txid,
};
use obsidian::types::error::InternalError;
use obsidian::types::{ColoGroupId, Direction, KeyspaceId, ShardId, TabletId};
use obsidian::util::ordmap::OrdMap;

const KS: KeyspaceId = KeyspaceId(ColoGroupId(1), 1);

fn key(b: &[u8]) -> Key {
    (KS, b.to_vec())
}

fn keys(list: &[(KeyspaceId, Vec<u8>)]) -> KeySet {
    key_set(&list.to_vec())
}

fn muts(list: Vec<(Key, Mutation)>) -> Muts {
    let mut m = OrdMap::new();
    for (k, v) in list {
        m.insert(k, v);
    }
    m
}

fn regular(ts: u64, b: &[u8]) -> Stored {
    Some((Timestamp(ts), RevisionValue::Regular(b.to_vec())))
}

fn tombstone(ts: u64) -> Stored {
    Some((Timestamp(ts), RevisionValue::Tombstone))
}

fn txid(n: u128) -> Txid {
    Txid { owner: ShardId(9), unique: n }
}

fn whole_tablet() -> TabletInner {
    TabletInner::new(TabletId(ShardId(1), 1), ColoGroupId(1), Range::all())
}

fn outcome_records() -> Vec<TxOutcomeRecord> {
    vec![
        TxOutcomeRecord::Aborted,
        TxOutcomeRecord::Committed {
            ts: Timestamp(5),
            precond_keys: keys(&[]),
            mut_keys: keys(&[]),
        },
        TxOutcomeRecord::Committed {
            ts: Timestamp(5),
            precond_keys: keys(&[]),
            mut_keys: keys(&[(KeyspaceId(ColoGroupId(5), 8), vec![1, 2, 3])]),
        },
        TxOutcomeRecord::Committed {
            ts: Timestamp(5),
            precond_keys: keys(&[(KeyspaceId(ColoGroupId(3), 4), vec![4, 5, 6])]),
            mut_keys: keys(&[(KeyspaceId(ColoGroupId(5), 8), vec![1, 2, 3])]),
        },
        TxOutcomeRecord::Committed {
            ts: Timestamp(5),
            precond_keys: keys(&[]),
            mut_keys: keys(&[
                (KeyspaceId(ColoGroupId(5), 8), vec![1, 2, 3]),
                (KeyspaceId(ColoGroupId(3), 4), vec![4, 5, 6]),
            ]),
        },
        TxOutcomeRecord::Committed {
            ts: Timestamp(5),
            precond_keys: keys(&[]),
            mut_keys: keys(&[
                (KeyspaceId(ColoGroupId(5), 8), vec![1, 2, 3]),
                (KeyspaceId(ColoGroupId(5), 8), vec![1, 2, 5]),
            ]),
        },
        TxOutcomeRecord::Committed {
            ts: Timestamp(5),
            precond_keys: keys(&[]),
            mut_keys: keys(&[
                (KeyspaceId(ColoGroupId(5), 8), vec![1, 2, 3]),
                (KeyspaceId(ColoGroupId(5), 8), vec![1, 2, 5]),
                (KeyspaceId(ColoGroupId(5), 8), vec![1, 2, 5, 8]),
            ]),
        },
    ]
}

#[test]
fn tablet_test_tx_outcome_record_encoding() {
    for record in outcome_records() {
        let encoded = record.encode();
        let decoded = TxOutcomeRecord::decode(&encoded);
        assert_eq!(Ok(record), decoded);
    }
}

#[test]
fn shard_meta_tablet_test_tx_outcome_record_encoding() {
    for record in outcome_records() {
        let message = to_message(&record);
        let decoded = from_message(&message);
        assert_eq!(Ok(record), decoded);
    }
}

#[test]
fn test_tx_outcome_record_encoding() {
    for record in outcome_records() {
        let message = to_message(&record);
        let sent = TxOutcomeRecord::decode(&record.encode()).unwrap();
        let received = from_message(&to_message(&sent));
        assert_eq!(from_message(&message), received);
        assert_eq!(Ok(record), received);
    }
}

#[test]
fn outcome_messages_need_all_their_parts() {
    let committed = |precond_keys, mut_keys| OutcomeMessage {
        outcome_type: Some(OutcomeType::Committed { ts: 7, precond_keys, mut_keys }),
    };
    assert_eq!(
        from_message(&OutcomeMessage { outcome_type: None }),
        Err(MessageError::MissingOutcomeType),
    );
    assert_eq!(
        from_message(&committed(None, Some(vec![]))),
        Err(MessageError::MissingPrecondKeys),
    );
    assert_eq!(
        from_message(&committed(Some(vec![]), None)),
        Err(MessageError::MissingMutKeys),
    );
    assert_eq!(
        from_message(&committed(Some(vec![key(b"b"), key(b"a"), key(b"b")]), Some(vec![]))),
        Ok(TxOutcomeRecord::Committed {
            ts: Timestamp(7),
            precond_keys: keys(&[key(b"a"), key(b"b")]),
            mut_keys: keys(&[]),
        }),
    );
}

#[test]
fn outcome_encodings_share_prefixes() {
    assert_eq!(TxOutcomeRecord::Aborted.encode().len(), 1);
    let encode = |list: &[Key]| {
        TxOutcomeRecord::Committed {
            ts: Timestamp(5),
            precond_keys: keys(&[]),
            mut_keys: keys(list),
        }
        .encode()
        .len()
    };
    let long = vec![7u8; 60];
    let mut longer = long.clone();
    longer.push(1);
    assert!(encode(&[(KS, long.clone()), (KS, longer)]) < encode(&[(KS, long)]) + 20);
    assert_eq!(TxOutcomeRecord::decode(&[]), Err(DecodeError::OutcomeEmpty));
    assert!(TxOutcomeRecord::decode(&[77]).is_err());
    let mut cut = TxOutcomeRecord::Committed {
        ts: Timestamp(5),
        precond_keys: keys(&[]),
        mut_keys: keys(&[key(b"abc")]),
    }
    .encode();
    cut.pop();
    assert!(TxOutcomeRecord::decode(&cut).is_err());
}

#[test]
fn outcomes_have_exact_bytes() {
    let record = TxOutcomeRecord::Committed {
        ts: Timestamp(5),
        precond_keys: keys(&[]),
        mut_keys: keys(&[(KeyspaceId(ColoGroupId(5), 8), vec![1, 2, 3])]),
    };
    let bytes = vec![1, 5, 0, 0, 0, 0, 0, 0, 0, 1, 0, 3, 1, 2, 3, 1, 5, 34];
    assert_eq!(record.encode(), bytes);
    assert_eq!(TxOutcomeRecord::Aborted.encode(), vec![0]);
    let decode = |b: &[u8]| TxOutcomeRecord::decode(b).map(|_| ());
    assert_eq!(decode(&[77]), Err(DecodeError::OutcomeTag));
    assert_eq!(decode(&[0, 1]), Err(DecodeError::OutcomeExtraBytes));
    assert_eq!(decode(&[1, 2, 3]), Err(DecodeError::OutcomeTooShort));
    let committed = |rest: &[u8]| decode(&[&[1, 0, 0, 0, 0, 0, 0, 0, 0], rest].concat());
    assert_eq!(committed(&[]), Err(DecodeError::OutcomeNumber));
    assert_eq!(committed(&[1, 5]), Err(DecodeError::OutcomeSharedTooLong));
    assert_eq!(committed(&[1, 0, 9, 1]), Err(DecodeError::OutcomeKeyTooShort));
    assert_eq!(committed(&[0]), Ok(()));
}

#[test]
fn pending_mutations_decode_to_what_was_encoded() {
    for m in [Mutation::Put(vec![]), Mutation::Put(vec![1, 2]), Mutation::Delete] {
        let pending = PendingMutation { txid: txid(77), m };
        let b = pending.encode();
        assert_eq!(&b[..4], &[0, 0, 0, 9]);
        assert_eq!(b[19], 77);
        assert_eq!(PendingMutation::decode(&b), Ok(pending));
    }
    assert_eq!(PendingMutation::decode(&[0; 20]), Err(DecodeError::PendingTooShort));
    let mut b = PendingMutation { txid: txid(1), m: Mutation::Delete }.encode();
    b[20] = 9;
    assert_eq!(PendingMutation::decode(&b), Err(DecodeError::PendingTag));
}

#[test]
fn locks_decode_to_what_was_encoded() {
    let mut txids = OrdMap::new();
    txids.insert(txid(5), ());
    txids.insert(txid(3), ());
    let b = PrecondLocks { txids }.encode();
    assert_eq!(b.len(), 40);
    assert_eq!((b[19], b[39]), (3, 5));
    let decoded = PrecondLocks::decode(&b);
    assert!(matches!(decoded, Ok(locks) if locks.txids.len() == 2));
    assert!(matches!(PrecondLocks::decode(&b[1..]), Err(DecodeError::LocksLength)));
}

#[test]
fn txids_are_encoded_big_endian() {
    let t = Txid { owner: ShardId(0x01020304), unique: 0x05 };
    let b = t.encode_fixed();
    assert_eq!(b.len(), 20);
    assert_eq!(&b[..4], &[1, 2, 3, 4]);
    assert_eq!(b[19], 5);
    assert_eq!(Txid::decode(&b), Some(t));
}

#[test]
fn test_no_scans() {
    let mut scan_locks = ScanLocks::new();
    let cleanup = scan_locks.cleanup();
    assert!(!cleanup.waits);
}

#[test]
fn test_after_scan() {
    let mut scan_locks = ScanLocks::new();
    let cleanup = scan_locks.cleanup();
    let scan = scan_locks.scan();
    assert!(!cleanup.waits);
    assert_eq!(scan_locks.end_scan(scan), vec![]);
}

#[test]
fn test_concurrent_scans() {
    let mut scan_locks = ScanLocks::new();
    let scan_0 = scan_locks.scan();
    let scan_1 = scan_locks.scan();
    let cleanup = scan_locks.cleanup();
    assert!(cleanup.waits);
    assert_eq!(scan_locks.end_scan(scan_0), vec![]);
    assert_eq!(scan_locks.end_scan(scan_1), vec![cleanup.seq]);
    scan_locks.end_cleanup(cleanup.seq);
}

#[test]
fn a_cleanup_waits_for_earlier_scans_only() {
    let mut scan_locks = ScanLocks::new();
    let scan_0 = scan_locks.scan();
    let cleanup_0 = scan_locks.cleanup();
    let scan_1 = scan_locks.scan();
    let cleanup_1 = scan_locks.cleanup();
    assert_eq!(scan_locks.end_scan(scan_1), vec![]);
    assert_eq!(scan_locks.end_scan(scan_0), vec![cleanup_0.seq, cleanup_1.seq]);
}

/// A store of all revisions, in which writes are checked and done as a tablet does them.
struct Store {
    tablet: TabletInner,
    revisions: BTreeMap<(KeyspaceId, Vec<u8>), Vec<(Timestamp, RevisionValue)>>,
    now: u64,
}

impl Store {
    fn new() -> Self {
        Store { tablet: whole_tablet(), revisions: BTreeMap::new(), now: 10 }
    }

    fn read(&self, ts: Timestamp, key: &Key) -> Stored {
        let revisions = self.revisions.get(key)?;
        let (at, value) = revisions.iter().rev().find(|(at, _)| at.0 <= ts.0)?;
        Some((*at, copy_value(value)))
    }

    fn latest(&self, key: &Key) -> Stored {
        self.read(Timestamp(u64::MAX), key)
    }

    fn pending(&self, key: &Key) -> Stored {
        self.latest(&(key.0.pending().unwrap(), key.1.clone()))
    }

    fn write(
        &mut self,
        preconds: Vec<Precondition>,
        muts: Muts,
    ) -> Result<Timestamp, InternalError> {
        let latest: Vec<Stored> = preconds
            .iter()
            .map(|Precondition::NotChangedSince(ks, k, _)| self.latest(&(*ks, k.clone())))
            .collect();
        let keys: Vec<Key> = prepared_keys(&preconds, &muts)
            .into_iter()
            .map(|(key, _)| key)
            .collect();
        let pending: Vec<Stored> = keys.iter().map(|key| self.pending(key)).collect();
        self.tablet.check_write(&preconds, &muts, &pending, &latest)?;
        self.now += 10;
        self.apply(Timestamp(self.now), &muts);
        Ok(Timestamp(self.now))
    }

    fn apply(&mut self, ts: Timestamp, muts: &Muts) {
        for (key, m) in &muts.entries {
            let value = match m {
                Mutation::Put(v) => RevisionValue::Regular(v.clone()),
                Mutation::Delete => RevisionValue::Tombstone,
            };
            self.revisions.entry(key.clone()).or_default().push((ts, value));
        }
    }

    fn get(&self, ts: Timestamp, key: &Key) -> Result<Option<Record>, InternalError> {
        read_key(key, &self.read(ts, key), &self.pending(key))
    }
}

fn copy_value(value: &RevisionValue) -> RevisionValue {
    match value {
        RevisionValue::Regular(v) => RevisionValue::Regular(v.clone()),
        RevisionValue::Tombstone => RevisionValue::Tombstone,
    }
}

#[test]
fn test_write_preconds() {
    let keyspace_id = KS;
    let ka = b"a";
    let kb = b"b";
    let mut store = Store::new();

    let write_0_ts = store
        .write(
            vec![],
            muts(vec![
                ((keyspace_id, ka.to_vec()), Mutation::Put(b"a0".to_vec())),
                ((keyspace_id, kb.to_vec()), Mutation::Put(b"b0".to_vec())),
            ]),
        )
        .unwrap();

    let before_write_0_ts = Timestamp(write_0_ts.0 - 1);

    assert!(matches!(
        store.write(
            vec![Precondition::NotChangedSince(
                keyspace_id,
                ka.to_vec(),
                before_write_0_ts,
            )],
            muts(vec![((keyspace_id, ka.to_vec()), Mutation::Put(b"a1".to_vec()))]),
        ),
        Err(InternalError::PreconditionFailed),
    ));

    let write_1_ts = store
        .write(
            vec![Precondition::NotChangedSince(keyspace_id, ka.to_vec(), write_0_ts)],
            muts(vec![
                ((keyspace_id, ka.to_vec()), Mutation::Put(b"a1".to_vec())),
                ((keyspace_id, kb.to_vec()), Mutation::Delete),
            ]),
        )
        .unwrap();

    let before_write_1_ts = Timestamp(write_1_ts.0 - 1);

    assert_eq!(store.get(before_write_0_ts, &(keyspace_id, ka.to_vec())), Ok(None));
    assert_eq!(store.get(before_write_0_ts, &(keyspace_id, kb.to_vec())), Ok(None));
    assert_eq!(
        store.get(before_write_1_ts, &(keyspace_id, ka.to_vec())),
        Ok(Some(Record {
            key: (keyspace_id, ka.to_vec()),
            ts: write_0_ts,
            value: b"a0".to_vec(),
        })),
    );
    assert_eq!(
        store.get(before_write_1_ts, &(keyspace_id, kb.to_vec())),
        Ok(Some(Record {
            key: (keyspace_id, kb.to_vec()),
            ts: write_0_ts,
            value: b"b0".to_vec(),
        })),
    );
    assert_eq!(
        store.get(write_1_ts, &(keyspace_id, ka.to_vec())),
        Ok(Some(Record {
            key: (keyspace_id, ka.to_vec()),
            ts: write_1_ts,
            value: b"a1".to_vec(),
        })),
    );
    assert_eq!(store.get(write_1_ts, &(keyspace_id, kb.to_vec())), Ok(None));
}

#[test]
fn test_scan_conflict() {
    let keyspace_id = KS;
    let mut store = Store::new();

    for i in 0..20 {
        store
            .write(
                vec![],
                muts(vec![((keyspace_id, vec![i as u8]), Mutation::Put(vec![]))]),
            )
            .unwrap();
    }

    let other_txid = Txid { owner: ShardId(0), unique: 4711 };
    let pending = PendingMutation { txid: other_txid, m: Mutation::Put(vec![]) };
    let other_write = muts(vec![(
        (keyspace_id.pending().unwrap(), vec![20u8]),
        Mutation::Put(pending.encode()),
    )]);
    store.apply(Timestamp(store.now + 10), &other_write);

    let range = Range {
        lower: Bound::Before(vec![0]),
        upper: Bound::After(vec![20]),
    };
    let plan = store.tablet.plan_scan(keyspace_id, &range, 1000).unwrap();
    let page = |ks: KeyspaceId| -> Vec<Revision> {
        store
            .revisions
            .iter()
            .filter(|((k, b), _)| *k == ks && plan.scan_range.contains(b))
            .map(|(k, revisions)| Revision {
                key: k.clone(),
                ts: revisions[revisions.len() - 1].0,
                value: copy_value(&revisions[revisions.len() - 1].1),
            })
            .collect()
    };
    let conflicts = vec![page(keyspace_id.pending().unwrap())];
    let written = page(keyspace_id);
    assert_eq!(written.len(), 20);
    assert_eq!(
        finish_scan(
            keyspace_id,
            &range,
            Direction::Asc,
            &plan.scan_range,
            &written,
            &None,
            &conflicts,
        ),
        Err(InternalError::Conflict(other_txid)),
    );
    // Without the other transaction the scan shows what was written.
    let (records, rest) = finish_scan(
        keyspace_id,
        &range,
        Direction::Asc,
        &plan.scan_range,
        &written,
        &None,
        &vec![],
    )
    .unwrap();
    assert_eq!(records.len(), 20);
    assert_eq!(records[7].key, (keyspace_id, vec![7]));
    assert_eq!(rest, None);
}

#[test]
fn writes_stop_at_pending_mutations() {
    let pending = PendingMutation { txid: txid(8), m: Mutation::Delete }.encode();
    let put = muts(vec![(key(b"k"), Mutation::Put(vec![1]))]);
    assert_eq!(check_write_conflicts(&vec![], &put, &vec![regular(3, &pending)]), Some(txid(8)));
    assert_eq!(check_write_conflicts(&vec![], &put, &vec![tombstone(3)]), None);
    assert_eq!(check_write_conflicts(&vec![], &put, &vec![None]), None);
    let precond = || vec![Precondition::NotChangedSince(KS, b"k".to_vec(), Timestamp(5))];
    assert_eq!(check_preconds(&precond(), &vec![regular(5, b"v")]), Ok(()));
    assert_eq!(
        check_preconds(&precond(), &vec![tombstone(6)]),
        Err(InternalError::PreconditionFailed),
    );
    assert_eq!(check_preconds(&precond(), &vec![None]), Ok(()));
    let latest = whole_tablet().check_write(&precond(), &put, &vec![None, None], &vec![None]);
    assert_eq!(latest, Ok(()));
    assert_eq!(
        read_key(&key(b"k"), &None, &regular(3, &pending)),
        Err(InternalError::Conflict(txid(8))),
    );
}

#[test]
fn tablets_refuse_keys_that_they_do_not_own() {
    let tablet = TabletInner::new(
        TabletId(ShardId(1), 1),
        ColoGroupId(1),
        Range { lower: Bound::BeforeAll, upper: Bound::Before(b"m".to_vec()) },
    );
    assert_eq!(tablet.check_key(ColoGroupId(1), &b"a".to_vec()), Ok(()));
    assert!(tablet.check_key(ColoGroupId(1), &b"m".to_vec()).is_err());
    assert!(tablet.check_key(ColoGroupId(2), &b"a".to_vec()).is_err());
    assert!(tablet.check_owned(&vec![], &muts(vec![(key(b"z"), Mutation::Delete)])).is_err());
    assert_eq!(
        tablet.plan_scan(KS, &Range::all(), 0).map(|plan| plan.limit),
        Err(InternalError::LimitZero),
    );
    let plan = tablet.plan_scan(KS, &Range::all(), 5).unwrap();
    assert_eq!(plan.limit, 5);
    assert_eq!(plan.scan_range, tablet.range);
    assert!(matches!(
        tablet.plan_scan(
            KS,
            &Range { lower: Bound::Before(b"x".to_vec()), upper: Bound::AfterAll },
            5,
        ),
        Err(_)
    ));
    assert_eq!(
        scanned_range(
            &plan.scan_range,
            &Some(Range { lower: Bound::After(b"c".to_vec()), upper: Bound::Before(b"m".to_vec()) }),
            Direction::Asc,
        ),
        Range { lower: Bound::BeforeAll, upper: Bound::After(b"c".to_vec()) },
    );
    let created = tablet.create_keyspace(KS).unwrap();
    assert_eq!(created.len(), 3);
    assert!(created.contains(&KS));
    assert!(tablet.create_keyspace(KeyspaceId(ColoGroupId(2), 1)).is_err());
}

#[test]
fn reads_of_many_keys_stop_at_the_first_error() {
    let tablet = whole_tablet();
    let list = keys(&[key(b"a"), key(b"b")]);
    let reads = vec![(regular(4, b"1"), None), (tombstone(6), None)];
    assert_eq!(
        tablet.get_multi(&list, &reads),
        Ok(vec![Record { key: key(b"a"), ts: Timestamp(4), value: b"1".to_vec() }]),
    );
    let (ts, records) = tablet.get_latest_multi(&list, &reads, Timestamp(9)).unwrap();
    assert_eq!(records.len(), 1);
    assert_eq!(ts, Timestamp(6));
    let unread = vec![(regular(4, b"1"), None), (None, None)];
    let (ts, _) = tablet.get_latest_multi(&list, &unread, Timestamp(9)).unwrap();
    assert_eq!(ts, Timestamp(9));
    let pending = PendingMutation { txid: txid(8), m: Mutation::Delete }.encode();
    let blocked = vec![(None, regular(3, &pending)), (None, None)];
    assert_eq!(tablet.get_multi(&list, &blocked), Err(InternalError::Conflict(txid(8))));
}

#[test]
fn preparing_takes_locks_and_leaves_mutations() {
    let preconds = vec![Precondition::NotChangedSince(KS, b"p".to_vec(), Timestamp(5))];
    let writes = muts(vec![(key(b"m"), Mutation::Put(vec![1]))]);
    let prepared = prepare(txid(2), &preconds, &writes, &vec![None]).unwrap();
    let pending_ks = KS.pending().unwrap();
    let value = prepared.get(&(pending_ks, b"m".to_vec()));
    let expected = PendingMutation { txid: txid(2), m: Mutation::Put(vec![1]) }.encode();
    assert_eq!(value, Some(&Mutation::Put(expected.clone())));
    assert_eq!(prepared.len(), 2);
    // What was prepared stands in the way of others, and is promoted by a commit.
    let left = regular(7, &expected);
    assert_eq!(check_write_conflicts(&vec![], &writes, &vec![left]), Some(txid(2)));
    let left = regular(7, &expected);
    let resolved = cleanup_pending_key(txid(2), TxOutcome::Committed(Timestamp(9)), KS, &left)
        .unwrap()
        .unwrap();
    assert_eq!(resolved.ts, Timestamp(9));
    assert_eq!(resolved.pending_keyspace_id, pending_ks);
    assert_eq!(resolved.promoted, Some(Mutation::Put(vec![1])));
    assert!(matches!(
        cleanup_pending_key(txid(2), TxOutcome::Committed(Timestamp(7)), KS, &left),
        Err(InternalError::CommitBeforePrepare)
    ));
    assert!(matches!(
        cleanup_pending_key(txid(3), TxOutcome::Aborted, KS, &left),
        Ok(None)
    ));
    let aborted = cleanup_pending_key(txid(2), TxOutcome::Aborted, KS, &left).unwrap().unwrap();
    assert_eq!(aborted.promoted, None);
}

#[test]
fn locks_are_released_one_by_one() {
    let preconds = vec![Precondition::NotChangedSince(KS, b"p".to_vec(), Timestamp(5))];
    let none = || muts(vec![]);
    let first = prepare(txid(2), &preconds, &none(), &vec![None]).unwrap();
    let Mutation::Put(one) = &first.entries[0].1 else { panic!("no lock was put") };
    let second = prepare(txid(1), &preconds, &none(), &vec![regular(3, one)]).unwrap();
    let Mutation::Put(two) = &second.entries[0].1 else { panic!("no lock was put") };
    assert_eq!(two.len(), 40);
    let (_, left) = cleanup_precond_key(txid(1), KS, &regular(4, two)).unwrap().unwrap();
    assert_eq!(left, Mutation::Put(one.clone()));
    let (_, left) = cleanup_precond_key(txid(2), KS, &regular(5, one)).unwrap().unwrap();
    assert_eq!(left, Mutation::Delete);
    assert_eq!(cleanup_precond_key(txid(7), KS, &regular(5, one)), Ok(None));
    assert_eq!(cleanup_precond_key(txid(7), KS, &None), Ok(None));

    let mut many = OrdMap::new();
    for n in 0..200 {
        many.insert(txid(n), ());
    }
    let crowded = PrecondLocks { txids: many }.encode();
    assert!(matches!(
        prepare(txid(1000), &preconds, &none(), &vec![regular(3, &crowded)]),
        Err(InternalError::TooMuchContention)
    ));
}

#[test]
fn outcomes_resolve_what_was_prepared() {
    let resolve = |outcome| resolve_prepared(outcome, PrepareType::Mutation);
    assert_eq!(resolve(Ok(TxOutcome::Aborted)), Ok(Some(PrepareType::Mutation)));
    assert_eq!(resolve(Ok(TxOutcome::Committed(Timestamp(3)))), Ok(None));
    assert_eq!(resolve(Err(InternalError::TxOutcomeMissing)), Ok(None));
    assert_eq!(resolve(Err(InternalError::NotAllowed)), Err(InternalError::NotAllowed));
}

#[test]
fn the_first_outcome_stands() {
    let tablet = ShardMetaTablet::new(ShardId(9));
    let write = tablet.try_commit(txid(4), Timestamp(5), keys(&[]), keys(&[key(b"m")]), &None);
    let Ok(OutcomeWrite::Put { key: k, value, outcome }) = write else { panic!("nothing put") };
    assert_eq!(outcome, TxOutcome::Committed(Timestamp(5)));
    assert_eq!(k, txid(4).encode_fixed());
    assert!(matches!(
        tablet.try_abort(txid(4), &regular(1, &value)),
        Ok(OutcomeWrite::Existing(TxOutcome::Committed(Timestamp(5))))
    ));
    assert_eq!(
        tablet.wait(txid(4), &regular(1, &value)),
        Ok(WaitStep::Done(TxOutcome::Committed(Timestamp(5)))),
    );
    assert_eq!(tablet.wait(txid(4), &None), Ok(WaitStep::Wait));
    assert_eq!(tablet.wait(txid(4), &tombstone(3)), Err(InternalError::TxOutcomeMissing));
    assert_eq!(ShardMetaTablet::record_ts(), Timestamp(0));
    assert_eq!(tablet.check_request(TabletRequest::GetMulti), Ok(()));
    assert_eq!(tablet.check_request(TabletRequest::Write), Err(InternalError::NotAllowed));
    let (_, forgotten) = ShardMetaTablet::forget(txid(4));
    assert_eq!(forgotten.1, txid(4).encode_fixed());
}

#[test]
fn cleanup_goes_to_the_tablets_of_the_keys() {
    let router = StaticRouter::new(HashMap::from([(
        1,
        (
            vec![Bound::Before(b"m".to_vec())],
            vec![TabletId(ShardId(1), 1), TabletId(ShardId(2), 2)],
        ),
    )]));
    let by_tablet = cleanup_by_tablet(
        &router,
        &keys(&[key(b"z")]),
        &keys(&[key(b"a"), key(b"b"), key(b"x")]),
    )
    .unwrap();
    assert_eq!(by_tablet.len(), 2);
    assert_eq!(by_tablet.entries[0].0, TabletId(ShardId(1), 1));
    assert_eq!(by_tablet.entries[1].0, TabletId(ShardId(2), 2));
    let unknown = (KeyspaceId(ColoGroupId(7), 1), b"a".to_vec());
    assert!(matches!(
        cleanup_by_tablet(&router, &keys(&[]), &keys(&[unknown])),
        Err(InternalError::Route(RouteError::NoRouting(ColoGroupId(7))))
    ));
}

#[test]
fn leftovers_are_found_again() {
    let all = vec![KS, KS.pending().unwrap(), KS.precond().unwrap()];
    let scanned = keyspaces_to_scan(&all, PrepareType::Mutation);
    assert_eq!(scanned, vec![KS.pending().unwrap()]);
    let value = PendingMutation { txid: txid(6), m: Mutation::Delete }.encode();
    let record = Record { key: (scanned[0], b"k".to_vec()), ts: Timestamp(3), value };
    let left = pending_leftover(scanned[0], &record).unwrap();
    assert_eq!(left.txid, txid(6));
    assert_eq!((left.keyspace_id, left.key), key(b"k"));
    assert_eq!(left.prepare_type, PrepareType::Mutation);
    let stored = regular(3, &record.value);
    let resolved = cleanup_pending_key(left.txid, TxOutcome::Aborted, left.keyspace_id, &stored);
    let resolved = resolved.unwrap().unwrap();
    assert_eq!((resolved.ts, resolved.pending_keyspace_id), (Timestamp(4), scanned[0]));

    let mut txids = OrdMap::new();
    txids.insert(txid(1), ());
    txids.insert(txid(2), ());
    let value = PrecondLocks { txids }.encode();
    let scanned = keyspaces_to_scan(&all, PrepareType::Precondition);
    assert_eq!(scanned, vec![KS.precond().unwrap()]);
    let record = Record { key: (scanned[0], b"k".to_vec()), ts: Timestamp(3), value };
    let left = lock_leftovers(scanned[0], &record).unwrap();
    assert_eq!(left.iter().map(|l| l.txid).collect::<Vec<_>>(), vec![txid(1), txid(2)]);
    assert_eq!((left[1].keyspace_id, left[1].key.clone()), key(b"k"));
    assert_eq!(left[1].prepare_type, PrepareType::Precondition);
    let stored = regular(3, &record.value);
    assert_eq!(
        cleanup_precond_key(left[1].txid, left[1].keyspace_id, &stored),
        Ok(Some((Timestamp(4), Mutation::Put(txid(1).encode_fixed())))),
    );
    assert_eq!(KS.data(), KS);

    let outcome = |record: TxOutcomeRecord| Record {
        key: (KS, txid(5).encode_fixed()),
        ts: Timestamp(3),
        value: record.encode(),
    };
    assert_eq!(committed_leftover(&outcome(TxOutcomeRecord::Aborted)), Ok(None));
    let committed = || TxOutcomeRecord::Committed {
        ts: Timestamp(8),
        precond_keys: keys(&[]),
        mut_keys: keys(&[]),
    };
    assert_eq!(committed_leftover(&outcome(committed())), Ok(Some((txid(5), committed()))));
    let bad = Record { key: (KS, vec![1]), ts: Timestamp(3), value: committed().encode() };
    assert_eq!(committed_leftover(&bad), Err(DecodeError::TxidLength));
}

#[test]
fn journal_entries_name_what_was_written() {
    let writes = muts(vec![(key(b"b"), Mutation::Delete), (key(b"a"), Mutation::Put(vec![3]))]);
    let TabletJournalEntry::Write(ts, written) = journal_write(Timestamp(4), &writes) else {
        panic!("no write")
    };
    assert_eq!(ts, Timestamp(4));
    assert_eq!(written.len(), 2);
    assert_eq!(written[0].key, b"a".to_vec());
    assert!(matches!(&written[0].value, RevisionValue::Regular(v) if *v == vec![3]));
    assert!(matches!(written[1].value, RevisionValue::Tombstone));
}

#[test]
fn histories_are_bounded_and_checked() {
    assert!(matches!(
        bound_history(HistoryRange::All, Timestamp(7)),
        HistoryRange::Until(Timestamp(7))
    ));
    assert!(matches!(
        bound_history(HistoryRange::Since(Timestamp(3)), Timestamp(7)),
        HistoryRange::Between(Timestamp(3), Timestamp(7))
    ));
    let page = || vec![(Timestamp(3), RevisionValue::Regular(vec![1]))];
    let revisions = finish_history(&key(b"k"), HistoryRange::All, page(), &None).unwrap();
    assert_eq!(revisions.len(), 1);
    assert_eq!(revisions[0].key, key(b"k"));
    let pending = PendingMutation { txid: txid(8), m: Mutation::Delete }.encode();
    assert!(matches!(
        finish_history(&key(b"k"), HistoryRange::All, page(), &regular(2, &pending)),
        Err(InternalError::Conflict(t)) if t == txid(8)
    ));
    assert_eq!(check_conflict_page(&vec![]), Ok(()));
}

#[test]
fn lsm_tablets_own_sets_of_ranges() {
    let (tablet, _) = LsmTablet::new(
        TabletId(ShardId(1), 1),
        HashMap::from([(1, RangeSet::from(Range::prefix(b"a".to_vec())))]),
    );
    assert_eq!(tablet.check_key(ColoGroupId(1), &b"ab".to_vec()), Ok(()));
    assert!(tablet.check_key(ColoGroupId(1), &b"b".to_vec()).is_err());
    assert!(tablet.check_key(ColoGroupId(2), &b"ab".to_vec()).is_err());
    let record = tablet.get(&key(b"ab"), &regular(3, b"v"), &None).unwrap().unwrap();
    assert_eq!(record.value, b"v".to_vec());
    let (ts, record) =
        tablet.get_latest(&key(b"ab"), &regular(3, b"v"), &None, Timestamp(8)).unwrap();
    assert_eq!((ts, record.unwrap().ts), (Timestamp(3), Timestamp(3)));
    assert_eq!(
        tablet.get_latest(&key(b"ab"), &None, &None, Timestamp(8)),
        Ok((Timestamp(8), None)),
    );
    assert_eq!(
        tablet.check_key(ColoGroupId(1), &b"b".to_vec()),
        Err(InternalError::NotOwned(ColoGroupId(1))),
    );
    assert_eq!(
        tablet.check_key(ColoGroupId::tablet_meta(), &b"b".to_vec()),
        Err(InternalError::KeyTooShort),
    );
    let scan = |ks: KeyspaceId, range: Range<Vec<u8>>, direction| {
        tablet.plan_scan(ks, &range, direction, 5).map(|plan| plan.scan_range)
    };
    assert_eq!(
        scan(KeyspaceId(ColoGroupId(2), 1), Range::all(), Direction::Asc),
        Err(InternalError::NoRanges(ColoGroupId(2))),
    );
    assert_eq!(
        scan(KS, Range::prefix(b"x".to_vec()), Direction::Asc),
        Err(InternalError::Misroute(TabletId(ShardId(1), 1))),
    );
    assert_eq!(
        scan(KS, Range::all(), Direction::Desc),
        Err(InternalError::NotNext(TabletId(ShardId(1), 1))),
    );
    let pending_key = (KS.pending().unwrap(), b"ab".to_vec());
    assert_eq!(
        tablet.get(&pending_key, &None, &None),
        Err(InternalError::NotData(KS.pending().unwrap())),
    );
    assert_eq!(
        tablet.get(&key(b"ab"), &None, &regular(3, b"short")),
        Err(InternalError::Decode(DecodeError::PendingTooShort)),
    );
    let plan = tablet.plan_scan(KS, &Range::prefix(b"ab".to_vec()), Direction::Asc, 5).unwrap();
    assert_eq!(plan.scan_range, Range::prefix(b"ab".to_vec()));
    assert_eq!(check_obstacles(&vec![], &muts(vec![]), &vec![]), Ok(()));
}
