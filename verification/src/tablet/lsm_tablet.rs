//! Tablets that own several ranges.

use std::collections::HashMap;

use vstd::prelude::*;

use super::tablet_inner::{
    keyspaces_of, pending_readable, pending_txid, read_key, read_of, read_result, write_keys,
    ScanPlan, MAX_PAGE_LEN,
};
use crate::meta::{MetaKey, MetaSnapshot, MetaState, SyncType, TabletState};
use crate::range::range_set::{canonical, covers, law_canonical_unique, RangeSet};
use crate::range::span::law_vacant_range;
use crate::range::{Bound, Range};
use crate::shard::ShardError;
use crate::types::data::{
    stored_view, Key, KeyView, Muts, Precondition, Record, RecordView, RevisionValue, Stored,
    Timestamp, Txid,
};
use crate::types::error::InternalError;
use crate::types::{
    law_tablet_encoding, ColoGroupId, Direction, KeyspaceId, TabletId, TABLET_ID_LEN,
};

verus! {

/// A tablet: for each colo group, by number, the keys that it owns.
pub struct LsmTablet {
    pub tablet_id: TabletId,
    pub owned_ranges: HashMap<u32, RangeSet<Vec<u8>>>,
}

/// Whether ranges are those that a set of ranges shares with a range.
pub open spec fn is_overlap(
    owned: Seq<Range<Seq<u8>>>,
    range: Range<Seq<u8>>,
    t: Seq<Range<Seq<u8>>>,
) -> bool {
    &&& canonical(t)
    &&& forall|b: Bound<Seq<u8>>| #[trigger] covers(t, b) == (covers(owned, b) && range.covers(b))
}

/// There is one way to write down what a set of ranges shares with a range.
pub proof fn law_overlap_unique(
    owned: Seq<Range<Seq<u8>>>,
    range: Range<Seq<u8>>,
    s: Seq<Range<Seq<u8>>>,
    t: Seq<Range<Seq<u8>>>,
)
    requires
        is_overlap(owned, range, s),
        is_overlap(owned, range, t),
    ensures
        s == t,
{
    assert forall|b: Bound<Seq<u8>>| covers(s, b) == covers(t, b) by {
        assert(covers(s, b) == (covers(owned, b) && range.covers(b)));
        assert(covers(t, b) == (covers(owned, b) && range.covers(b)));
    }
    law_canonical_unique(s, t);
}

/// Which of the shared ranges is scanned: the first in the direction of the scan, which has to
/// start where the range does.
pub open spec fn scan_choice(
    tablet_id: TabletId,
    range: Range<Seq<u8>>,
    direction: Direction,
    t: Seq<Range<Seq<u8>>>,
) -> Result<Range<Seq<u8>>, InternalError> {
    if t.len() == 0 {
        Err(InternalError::Misroute(tablet_id))
    } else {
        match direction {
            Direction::Asc => if t[0].lower == range.lower {
                Ok(t[0])
            } else {
                Err(InternalError::NotNext(tablet_id))
            },
            Direction::Desc => if t.last().upper == range.upper {
                Ok(t.last())
            } else {
                Err(InternalError::NotNext(tablet_id))
            },
        }
    }
}

/// What a result of planning a scan is.
pub open spec fn plan_range(r: Result<ScanPlan, InternalError>) -> Result<
    Range<Seq<u8>>,
    InternalError,
> {
    match r {
        Ok(p) => Ok(p.scan_range@),
        Err(e) => Err(e),
    }
}

/// The first thing that stands in the way of a write: an undecided transaction, or a keyspace that
/// cannot have any.
pub open spec fn first_obstacle(keys: Seq<KeyView>, pending: Seq<Stored>) -> Option<InternalError>
    decreases keys.len(),
{
    if keys.len() == 0 {
        None
    } else {
        let n = keys.len() - 1;
        match first_obstacle(keys.drop_last(), pending) {
            Some(e) => Some(e),
            None => if !keys[n].0.userland() {
                Some(InternalError::NotData(keys[n].0))
            } else if stored_view(pending[n]) matches Some((_, Some(_))) {
                Some(InternalError::Conflict(pending_txid(pending[n])))
            } else {
                None
            },
        }
    }
}

proof fn lemma_first_obstacle(keys: Seq<KeyView>, pending: Seq<Stored>, n: int)
    requires
        0 <= n <= keys.len(),
        first_obstacle(keys.take(n), pending) is Some,
    ensures
        first_obstacle(keys, pending) == first_obstacle(keys.take(n), pending),
    decreases keys.len(),
{
    if n == keys.len() {
        assert(keys.take(n) =~= keys);
    } else {
        assert(keys.drop_last().take(n) =~= keys.take(n));
        lemma_first_obstacle(keys.drop_last(), pending, n);
    }
}

/// Looks for what stands in the way of a write, from what is pending at each key.
pub fn check_obstacles(
    preconds: &Vec<Precondition>,
    muts: &Muts,
    pending: &Vec<Stored>,
) -> (r: Result<(), InternalError>)
    requires
        pending@.len() == preconds@.len() + muts.entries@.len(),
        pending_readable(pending@),
    ensures
        r == match first_obstacle(write_keys(preconds@, *muts), pending@) {
            Some(e) => Err(e),
            None => Ok::<(), InternalError>(()),
        },
{
    let ghost keys = write_keys(preconds@, *muts);
    let mut i: usize = 0;
    assert(keys.take(0) =~= Seq::empty());
    while i < pending.len()
        invariant
            i <= pending@.len(),
            keys == write_keys(preconds@, *muts),
            keys.len() == pending@.len(),
            pending@.len() == preconds@.len() + muts.entries@.len(),
            pending_readable(pending@),
            first_obstacle(keys.take(i as int), pending@) is None,
        decreases pending@.len() - i,
    {
        let keyspace_id = if i < preconds.len() {
            preconds[i].keyspace_id()
        } else {
            muts.entries[i - preconds.len()].0.0
        };
        proof {
            assert(keys.take(i + 1).drop_last() =~= keys.take(i as int));
            assert(keys.take(i + 1)[i as int] == keys[i as int]);
            if i >= preconds@.len() {
                assert(keys[i as int] == muts.keys()[i - preconds@.len()]);
            }
            assert(keys[i as int].0 == keyspace_id);
        }
        if !keyspace_id.is_userland() {
            proof {
                lemma_first_obstacle(keys, pending@, i + 1);
            }
            return Err(InternalError::NotData(keyspace_id));
        }
        if let Some((_, RevisionValue::Regular(b))) = &pending[i] {
            assert(stored_view(pending@[i as int]) matches Some((_, Some(x))) && x == b@);
            let txid = Txid::of_prefix(b.as_slice());
            proof {
                lemma_first_obstacle(keys, pending@, i + 1);
            }
            return Err(InternalError::Conflict(txid));
        }
        i += 1;
    }
    assert(keys.take(i as int) =~= keys);
    Ok(())
}

impl LsmTablet {
    pub open spec fn wf(self) -> bool {
        forall|g: u32| #[trigger]
            self.owned_ranges@.contains_key(g) ==> self.owned_ranges@[g].wf()
    }

    /// Whether the tablet takes requests on a key. The cluster's metadata belongs to one tablet,
    /// and a tablet's metadata to the tablet that its keys start with.
    pub open spec fn key_error(self, group: ColoGroupId, key: Seq<u8>) -> Option<InternalError> {
        if group == ColoGroupId::meta() && self.tablet_id == TabletId::meta() {
            None
        } else if group == ColoGroupId::tablet_meta() && key.len() < TABLET_ID_LEN {
            Some(InternalError::KeyTooShort)
        } else if group == ColoGroupId::tablet_meta() && self.tablet_id.encoded(
            key.take(TABLET_ID_LEN as int),
        ) {
            None
        } else if !self.owned_ranges@.contains_key(group.0) {
            Some(InternalError::NoRanges(group))
        } else if self.owned_ranges@[group.0].has(key) {
            None
        } else {
            Some(InternalError::NotOwned(group))
        }
    }

    pub fn check_key(&self, colo_group_id: ColoGroupId, key: &Vec<u8>) -> (r: Result<
        (),
        InternalError,
    >)
        requires
            self.wf(),
        ensures
            r == match self.key_error(colo_group_id, key@) {
                Some(e) => Err(e),
                None => Ok::<(), InternalError>(()),
            },
    {
        if colo_group_id == ColoGroupId::meta() && self.tablet_id == TabletId::meta() {
            return Ok(());
        }
        if colo_group_id == ColoGroupId::tablet_meta() {
            if key.len() < TABLET_ID_LEN {
                return Err(InternalError::KeyTooShort);
            }
            let tablet_id = TabletId::of_key(key.as_slice());
            if tablet_id == self.tablet_id {
                return Ok(());
            }
            proof {
                let b = key@.take(TABLET_ID_LEN as int);
                if self.tablet_id.encoded(b) {
                    law_tablet_encoding(tablet_id, b, self.tablet_id, b);
                }
            }
        }
        match self.owned_ranges.get(&colo_group_id.0) {
            None => Err(InternalError::NoRanges(colo_group_id)),
            Some(set) => {
                assert(self.owned_ranges@.contains_key(colo_group_id.0));
                if set.contains(key) {
                    Ok(())
                } else {
                    Err(InternalError::NotOwned(colo_group_id))
                }
            },
        }
    }

    /// Reads a key as of a point in time, from what is stored and what is pending at it.
    pub fn get(&self, key: &Key, stored: &Stored, pending: &Stored) -> (r: Result<
        Option<Record>,
        InternalError,
    >)
        requires
            self.wf(),
        ensures
            read_result(r) == match self.key_error(key.0.0, key.1@) {
                Some(e) => Err(e),
                None => if !key.0.userland() {
                    Err(InternalError::NotData(key.0))
                } else {
                    read_of(key@, stored_view(*stored), stored_view(*pending))
                },
            },
    {
        if let Err(e) = self.check_key(key.0.0, &key.1) {
            return Err(e);
        }
        if !key.0.is_userland() {
            return Err(InternalError::NotData(key.0));
        }
        read_key(key, stored, pending)
    }

    /// Reads the latest value of a key, and says as of when it is the latest.
    pub fn get_latest(
        &self,
        key: &Key,
        stored: &Stored,
        pending: &Stored,
        safe_read_ts: Timestamp,
    ) -> (r: Result<(Timestamp, Option<Record>), InternalError>)
        requires
            self.wf(),
        ensures
            ({
                let read = match self.key_error(key.0.0, key.1@) {
                    Some(e) => Err(e),
                    None => if !key.0.userland() {
                        Err(InternalError::NotData(key.0))
                    } else {
                        read_of(key@, stored_view(*stored), stored_view(*pending))
                    },
                };
                match r {
                    Ok((ts, rec)) => {
                        &&& read_result(Ok::<Option<Record>, InternalError>(rec)) == read
                        &&& ts == match stored_view(*stored) {
                            Some((ts2, _)) => ts2,
                            None => safe_read_ts,
                        }
                    },
                    Err(e) => read == Err::<Option<RecordView>, InternalError>(e),
                }
            }),
    {
        match self.get(key, stored, pending) {
            Ok(rec) => {
                let ts = match stored {
                    Some((ts, _)) => *ts,
                    None => safe_read_ts,
                };
                Ok((ts, rec))
            },
            Err(e) => Err(e),
        }
    }

    /// What to scan for a page: the next part of the range that the tablet owns.
    pub fn plan_scan(
        &self,
        keyspace_id: KeyspaceId,
        range: &Range<Vec<u8>>,
        direction: Direction,
        limit: usize,
    ) -> (r: Result<ScanPlan, InternalError>)
        requires
            self.wf(),
        ensures
            if limit == 0 {
                r matches Err(e) && e == InternalError::LimitZero
            } else if !self.owned_ranges@.contains_key(keyspace_id.0.0) {
                r matches Err(e) && e == InternalError::NoRanges(keyspace_id.0)
            } else {
                exists|t: Seq<Range<Seq<u8>>>| #[trigger]
                    is_overlap(self.owned_ranges@[keyspace_id.0.0]@, range@, t) && plan_range(r)
                        == scan_choice(self.tablet_id, range@, direction, t)
            },
            r matches Ok(p) ==> p.limit == if limit < MAX_PAGE_LEN {
                limit
            } else {
                MAX_PAGE_LEN
            },
    {
        if limit == 0 {
            return Err(InternalError::LimitZero);
        }
        let limit: usize = if limit < MAX_PAGE_LEN {
            limit
        } else {
            MAX_PAGE_LEN
        };
        let owned = match self.owned_ranges.get(&keyspace_id.0.0) {
            Some(set) => set,
            None => {
                return Err(InternalError::NoRanges(keyspace_id.0));
            },
        };
        assert(self.owned_ranges@.contains_key(keyspace_id.0.0));
        let asked = RangeSet::from(range.clone());
        let shared = owned.intersection(&asked);
        proof {
            assert forall|b: Bound<Seq<u8>>| #[trigger]
                covers(shared@, b) == (covers(owned@, b) && range@.covers(b)) by {
                assert(shared.covers(b) == (owned.covers(b) && asked.covers(b)));
                if range@.vacant() {
                    law_vacant_range(range@, b, Seq::empty());
                    assert(!covers(asked@, b));
                } else {
                    assert(asked@[0] == range@);
                    assert(covers(asked@, b) == range@.covers(b));
                }
            }
            assert(is_overlap(owned@, range@, shared@));
        }
        let first = match direction {
            Direction::Asc => shared.first(),
            Direction::Desc => shared.last(),
        };
        match first {
            None => Err(InternalError::Misroute(self.tablet_id)),
            Some(scan_range) => {
                let is_next = match direction {
                    Direction::Asc => scan_range.lower.same(&range.lower),
                    Direction::Desc => scan_range.upper.same(&range.upper),
                };
                if is_next {
                    Ok(ScanPlan { scan_range: scan_range.clone(), limit })
                } else {
                    Err(InternalError::NotNext(self.tablet_id))
                }
            },
        }
    }
}

impl LsmTablet {
    /// The tablet, and the keyspace to create for it.
    pub fn new(tablet_id: TabletId, owned_ranges: HashMap<u32, RangeSet<Vec<u8>>>) -> (r: (
        LsmTablet,
        KeyspaceId,
    ))
        ensures
            r.0.tablet_id == tablet_id,
            r.0.owned_ranges == owned_ranges,
            r.1 == KeyspaceId::tx_outcomes(),
    {
        (LsmTablet { tablet_id, owned_ranges }, KeyspaceId::tx_outcomes())
    }

    /// The keyspaces to create for a keyspace.
    pub fn create_keyspace(keyspace_id: KeyspaceId) -> (r: Vec<KeyspaceId>)
        ensures
            r@ == keyspaces_of(keyspace_id),
    {
        let mut ids: Vec<KeyspaceId> = Vec::new();
        ids.push(keyspace_id);
        if let Some(pending) = keyspace_id.pending() {
            ids.push(pending);
        }
        if let Some(precond) = keyspace_id.precond() {
            ids.push(precond);
        }
        assert(ids@ =~= keyspaces_of(keyspace_id));
        ids
    }

    /// What the tablet does about what is new in the metadata: the keyspaces to create, and the
    /// state to go to, which is looked at only at first.
    pub fn sync_meta(&self, sync_type: &SyncType, snapshot: &MetaSnapshot) -> (r: (
        Vec<KeyspaceId>,
        Result<Option<TabletState>, ShardError>,
    ))
        requires
            snapshot.wf(),
        ensures
            match *sync_type {
                SyncType::Initial => {
                    &&& r.0@ == snapshot.keyspaces.keys()
                    &&& r.1 == if !snapshot.tablets@.contains_key(self.tablet_id) {
                        Err::<Option<TabletState>, ShardError>(
                            ShardError::UnknownTablet(self.tablet_id),
                        )
                    } else {
                        match snapshot.tablets@[self.tablet_id].state {
                            MetaState::Stable(s) => Ok(Some(s)),
                            MetaState::Transitioning(_, s) => Ok(Some(s)),
                        }
                    }
                },
                SyncType::Tx(keys) => r.0@ == keyspaces_among(keys@) && r.1 == Ok::<
                    Option<TabletState>,
                    ShardError,
                >(None),
            },
    {
        match sync_type {
            SyncType::Initial => {
                let mut ids: Vec<KeyspaceId> = Vec::new();
                let mut i: usize = 0;
                while i < snapshot.keyspaces.entries.len()
                    invariant
                        i <= snapshot.keyspaces.entries@.len(),
                        ids@ == snapshot.keyspaces.keys().take(i as int),
                    decreases snapshot.keyspaces.entries@.len() - i,
                {
                    ids.push(snapshot.keyspaces.entries[i].0);
                    i += 1;
                    assert(ids@ =~= snapshot.keyspaces.keys().take(i as int));
                }
                assert(ids@ =~= snapshot.keyspaces.keys());
                let state = match snapshot.tablets.get(&self.tablet_id) {
                    Some(metadata) => match metadata.state {
                        MetaState::Stable(state) => Ok(Some(state)),
                        MetaState::Transitioning(_, next) => Ok(Some(next)),
                    },
                    None => Err(ShardError::UnknownTablet(self.tablet_id)),
                };
                (ids, state)
            },
            SyncType::Tx(keys) => {
                let mut ids: Vec<KeyspaceId> = Vec::new();
                let mut i: usize = 0;
                assert(keys@.take(0) =~= Seq::empty());
                while i < keys.len()
                    invariant
                        i <= keys@.len(),
                        ids@ == keyspaces_among(keys@.take(i as int)),
                    decreases keys@.len() - i,
                {
                    proof {
                        assert(keys@.take(i + 1).drop_last() =~= keys@.take(i as int));
                        assert(keys@.take(i + 1).last() == keys@[i as int]);
                    }
                    if let MetaKey::Keyspace(id) = keys[i] {
                        ids.push(id);
                    }
                    i += 1;
                }
                assert(keys@.take(i as int) =~= keys@);
                (ids, Ok(None))
            },
        }
    }
}

/// The keyspaces among pieces of the metadata.
pub open spec fn keyspaces_among(keys: Seq<MetaKey>) -> Seq<KeyspaceId>
    decreases keys.len(),
{
    if keys.len() == 0 {
        Seq::empty()
    } else {
        match keys.last() {
            MetaKey::Keyspace(id) => keyspaces_among(keys.drop_last()).push(id),
            _ => keyspaces_among(keys.drop_last()),
        }
    }
}

} // verus!
