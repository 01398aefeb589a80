//! What tablets of all kinds decide on reads and writes.

use vstd::prelude::*;

use super::pending::{PendingMutation, PendingView};
use crate::range::bound::{group_bound_order, HasPrefix};
use crate::range::span::{law_range_split, law_vacant_range};
use crate::range::Range;
use crate::types::data::{
    copy_key, record_views, stored_view, HistoryRange, Key, KeySet, KeyView, Muts, Precondition,
    Record, RecordView, Revision, RevisionValue, RevisionView, Stored, Timestamp, Txid, TXID_LEN,
};
use crate::types::error::InternalError;
use crate::types::{ColoGroupId, Direction, KeyspaceId, TabletId};

verus! {

/// The most records that a page holds.
pub const MAX_PAGE_LEN: usize = 1000;

/// A tablet: the keys of a colo group that it owns.
pub struct TabletInner {
    pub tablet_id: TabletId,
    pub colo_group_id: ColoGroupId,
    pub range: Range<Vec<u8>>,
}

/// What an undecided transaction leaves in the way of a read, if anything.
pub open spec fn conflict_with(pending: Option<(Timestamp, Option<Seq<u8>>)>) -> Option<
    InternalError,
> {
    match pending {
        Some((_, Some(b))) => match PendingView::of(b) {
            Ok(p) => Some(InternalError::Conflict(p.txid)),
            Err(e) => Some(InternalError::Decode(e)),
        },
        _ => None,
    }
}

fn check_pending(pending: &Stored) -> (r: Option<InternalError>)
    ensures
        r == conflict_with(stored_view(*pending)),
{
    match pending {
        Some((_, RevisionValue::Regular(b))) => match PendingMutation::decode(b.as_slice()) {
            Ok(p) => Some(InternalError::Conflict(p.txid)),
            Err(e) => Some(InternalError::Decode(e)),
        },
        _ => None,
    }
}

/// What is read of a key: the value if there is one, unless an undecided transaction is in the way.
/// Only keyspaces of values have undecided transactions.
pub open spec fn read_of(
    k: KeyView,
    stored: Option<(Timestamp, Option<Seq<u8>>)>,
    pending: Option<(Timestamp, Option<Seq<u8>>)>,
) -> Result<Option<RecordView>, InternalError> {
    if k.0.userland() && conflict_with(pending) is Some {
        Err(conflict_with(pending)->0)
    } else {
        match stored {
            Some((ts, Some(value))) => Ok(Some(RecordView { key: k, ts, value })),
            _ => Ok(None),
        }
    }
}

/// What a result of reading a key is.
pub open spec fn read_result(r: Result<Option<Record>, InternalError>) -> Result<
    Option<RecordView>,
    InternalError,
> {
    match r {
        Ok(Some(rec)) => Ok(Some(rec@)),
        Ok(None) => Ok(None),
        Err(e) => Err(e),
    }
}

/// Decides what is read of a key, from what is stored at it and what is pending at it.
pub fn read_key(key: &Key, stored: &Stored, pending: &Stored) -> (r: Result<
    Option<Record>,
    InternalError,
>)
    ensures
        read_result(r) == read_of(key@, stored_view(*stored), stored_view(*pending)),
{
    if key.0.is_userland() {
        if let Some(e) = check_pending(pending) {
            return Err(e);
        }
    }
    match stored {
        Some((ts, RevisionValue::Regular(value))) => Ok(
            Some(Record { key: copy_key(key), ts: *ts, value: value.copied() }),
        ),
        _ => Ok(None),
    }
}

/// What is stored and what is pending at a key.
pub type ReadPair = (Stored, Stored);

/// Whether the tablet owns a key.
pub open spec fn owns(group: ColoGroupId, range: Range<Seq<u8>>, k: KeyView) -> bool {
    k.0.0 == group && range.has(k.1)
}

/// What is read of keys: those that have a value, or the first error.
pub open spec fn reads_of(
    group: ColoGroupId,
    range: Range<Seq<u8>>,
    keys: Seq<KeyView>,
    reads: Seq<ReadPair>,
) -> Result<Seq<RecordView>, InternalError>
    decreases keys.len(),
{
    if keys.len() == 0 {
        Ok(Seq::empty())
    } else {
        let n = keys.len() - 1;
        match reads_of(group, range, keys.drop_last(), reads) {
            Err(e) => Err(e),
            Ok(found) => if !owns(group, range, keys[n]) {
                Err(InternalError::NotOwned(keys[n].0.0))
            } else {
                match read_of(keys[n], stored_view(reads[n].0), stored_view(reads[n].1)) {
                    Err(e) => Err(e),
                    Ok(Some(rec)) => Ok(found.push(rec)),
                    Ok(None) => Ok(found),
                }
            },
        }
    }
}

/// What a result of reading keys is.
pub open spec fn records_result(r: Result<Vec<Record>, InternalError>) -> Result<
    Seq<RecordView>,
    InternalError,
> {
    match r {
        Ok(records) => Ok(record_views(records@)),
        Err(e) => Err(e),
    }
}

proof fn lemma_reads_err(
    group: ColoGroupId,
    range: Range<Seq<u8>>,
    keys: Seq<KeyView>,
    reads: Seq<ReadPair>,
    n: int,
)
    requires
        0 <= n <= keys.len(),
        reads_of(group, range, keys.take(n), reads) is Err,
    ensures
        reads_of(group, range, keys, reads) == reads_of(group, range, keys.take(n), reads),
    decreases keys.len(),
{
    if n == keys.len() {
        assert(keys.take(n) =~= keys);
    } else {
        assert(keys.drop_last().take(n) =~= keys.take(n));
        lemma_reads_err(group, range, keys.drop_last(), reads, n);
    }
}

/// The time of a snapshot of keys, one after the other: a key that was written takes it to that
/// write, where that is later, and a key that has never been written sets it to the time up to
/// which reads are safe, which may be earlier than a write that came before.
pub open spec fn snapshot_of(safe_read_ts: Timestamp, reads: Seq<ReadPair>) -> Timestamp
    decreases reads.len(),
{
    if reads.len() == 0 {
        Timestamp(0)
    } else {
        let rest = snapshot_of(safe_read_ts, reads.drop_last());
        match stored_view(reads.last().0) {
            Some((ts, _)) => if ts.0 > rest.0 {
                ts
            } else {
                rest
            },
            None => safe_read_ts,
        }
    }
}

/// The first key that the tablet does not own.
pub open spec fn first_unowned(
    group: ColoGroupId,
    range: Range<Seq<u8>>,
    keys: Seq<KeyView>,
) -> Option<KeyView>
    decreases keys.len(),
{
    if keys.len() == 0 {
        None
    } else {
        match first_unowned(group, range, keys.drop_last()) {
            Some(k) => Some(k),
            None => if owns(group, range, keys.last()) {
                None
            } else {
                Some(keys.last())
            },
        }
    }
}

proof fn lemma_first_unowned(
    group: ColoGroupId,
    range: Range<Seq<u8>>,
    keys: Seq<KeyView>,
    n: int,
)
    requires
        0 <= n < keys.len(),
        first_unowned(group, range, keys.take(n)) is None,
        !owns(group, range, keys[n]),
    ensures
        first_unowned(group, range, keys) == Some(keys[n]),
    decreases keys.len(),
{
    if n == keys.len() - 1 {
        assert(keys.drop_last() =~= keys.take(n));
    } else {
        assert(keys.drop_last().take(n) =~= keys.take(n));
        lemma_first_unowned(group, range, keys.drop_last(), n);
    }
}

/// A scan that a tablet can answer: what to scan and how many records to ask for.
pub struct ScanPlan {
    pub scan_range: Range<Vec<u8>>,
    pub limit: usize,
}

/// The part of a range that was scanned, where the scan goes on from `cursor` if there is one.
pub open spec fn scanned_part(
    scan: Range<Seq<u8>>,
    cursor: Option<Range<Seq<u8>>>,
    direction: Direction,
) -> Range<Seq<u8>> {
    match cursor {
        Some(c) => match direction {
            Direction::Asc => Range { lower: scan.lower, upper: c.lower },
            Direction::Desc => Range { lower: c.upper, upper: scan.upper },
        },
        None => scan,
    }
}

/// The part of a range that is left to scan.
pub open spec fn rest_of_scan(
    range: Range<Seq<u8>>,
    scanned: Range<Seq<u8>>,
    direction: Direction,
) -> Range<Seq<u8>> {
    match direction {
        Direction::Asc => Range { lower: scanned.upper, upper: range.upper },
        Direction::Desc => Range { lower: range.lower, upper: scanned.lower },
    }
}

/// What a cursor is.
pub open spec fn cursor_view(c: Option<Range<Vec<u8>>>) -> Option<Range<Seq<u8>>> {
    match c {
        Some(r) => Some(r@),
        None => None,
    }
}

/// The range that was scanned.
pub fn scanned_range(
    scan_range: &Range<Vec<u8>>,
    cursor: &Option<Range<Vec<u8>>>,
    direction: Direction,
) -> (r: Range<Vec<u8>>)
    ensures
        r@ == scanned_part(scan_range@, cursor_view(*cursor), direction),
{
    match cursor {
        Some(c) => match direction {
            Direction::Asc => Range { lower: scan_range.lower.clone(), upper: c.lower.clone() },
            Direction::Desc => Range { lower: c.upper.clone(), upper: scan_range.upper.clone() },
        },
        None => scan_range.clone(),
    }
}

/// Where a scan goes on, if anything is left.
pub open spec fn next_cursor(
    range: Range<Seq<u8>>,
    scanned: Range<Seq<u8>>,
    direction: Direction,
) -> Option<Range<Seq<u8>>> {
    if rest_of_scan(range, scanned, direction).vacant() {
        None
    } else {
        Some(rest_of_scan(range, scanned, direction))
    }
}

fn continue_cursor(
    range: &Range<Vec<u8>>,
    scanned: &Range<Vec<u8>>,
    direction: Direction,
) -> (r: Option<Range<Vec<u8>>>)
    ensures
        cursor_view(r) == next_cursor(range@, scanned@, direction),
{
    let rest = match direction {
        Direction::Asc => Range { lower: scanned.upper.clone(), upper: range.upper.clone() },
        Direction::Desc => Range { lower: range.lower.clone(), upper: scanned.lower.clone() },
    };
    if rest.is_empty() {
        None
    } else {
        Some(rest)
    }
}

/// The first thing that undecided transactions leave in the way of a scan.
pub open spec fn page_conflict(page: Seq<Revision>) -> Option<InternalError>
    decreases page.len(),
{
    if page.len() == 0 {
        None
    } else {
        match page_conflict(page.drop_last()) {
            Some(e) => Some(e),
            None => conflict_with(Some((page.last().ts, page.last().value@))),
        }
    }
}

proof fn lemma_page_conflict(page: Seq<Revision>, n: int)
    requires
        0 <= n <= page.len(),
        page_conflict(page.take(n)) is Some,
    ensures
        page_conflict(page) == page_conflict(page.take(n)),
    decreases page.len(),
{
    if n == page.len() {
        assert(page.take(n) =~= page);
    } else {
        assert(page.drop_last().take(n) =~= page.take(n));
        lemma_page_conflict(page.drop_last(), n);
    }
}

/// Looks for undecided transactions on a page of pending mutations.
pub fn check_conflict_page(page: &Vec<Revision>) -> (r: Result<(), InternalError>)
    ensures
        r == match page_conflict(page@) {
            Some(e) => Err(e),
            None => Ok::<(), InternalError>(()),
        },
{
    let mut i: usize = 0;
    assert(page@.take(0) =~= Seq::empty());
    while i < page.len()
        invariant
            i <= page@.len(),
            page_conflict(page@.take(i as int)) is None,
        decreases page@.len() - i,
    {
        proof {
            assert(page@.take(i + 1).drop_last() =~= page@.take(i as int));
            assert(page@.take(i + 1).last() == page@[i as int]);
        }
        if let RevisionValue::Regular(b) = &page[i].value {
            let e = match PendingMutation::decode(b.as_slice()) {
                Ok(p) => InternalError::Conflict(p.txid),
                Err(e) => InternalError::Decode(e),
            };
            proof {
                lemma_page_conflict(page@, i + 1);
            }
            return Err(e);
        }
        i += 1;
    }
    assert(page@.take(i as int) =~= page@);
    Ok(())
}

/// The revisions of a page that are values.
pub open spec fn live(page: Seq<Revision>) -> Seq<RecordView>
    decreases page.len(),
{
    if page.len() == 0 {
        Seq::empty()
    } else {
        let rest = live(page.drop_last());
        match page.last().value@ {
            Some(value) => rest.push(
                RecordView { key: page.last().key@, ts: page.last().ts, value },
            ),
            None => rest,
        }
    }
}

fn live_records(page: &Vec<Revision>) -> (r: Vec<Record>)
    ensures
        record_views(r@) == live(page@),
{
    let mut out: Vec<Record> = Vec::new();
    let mut i: usize = 0;
    proof {
        assert(page@.take(0) =~= Seq::empty());
        assert(record_views(out@) =~= Seq::empty());
    }
    while i < page.len()
        invariant
            i <= page@.len(),
            record_views(out@) == live(page@.take(i as int)),
        decreases page@.len() - i,
    {
        proof {
            assert(page@.take(i + 1).drop_last() =~= page@.take(i as int));
            assert(page@.take(i + 1).last() == page@[i as int]);
        }
        if let RevisionValue::Regular(value) = &page[i].value {
            let rec = Record {
                key: copy_key(&page[i].key),
                ts: page[i].ts,
                value: value.copied(),
            };
            let ghost before = out@;
            out.push(rec);
            assert(record_views(out@) =~= record_views(before).push(rec@));
        }
        i += 1;
    }
    assert(page@.take(i as int) =~= page@);
    out
}

/// The first conflict on any page.
pub open spec fn pages_conflict(pages: Seq<Vec<Revision>>) -> Option<InternalError>
    decreases pages.len(),
{
    if pages.len() == 0 {
        None
    } else {
        match pages_conflict(pages.drop_last()) {
            Some(e) => Some(e),
            None => page_conflict(pages.last()@),
        }
    }
}

proof fn lemma_pages_conflict(pages: Seq<Vec<Revision>>, n: int)
    requires
        0 <= n <= pages.len(),
        pages_conflict(pages.take(n)) is Some,
    ensures
        pages_conflict(pages) == pages_conflict(pages.take(n)),
    decreases pages.len(),
{
    if n == pages.len() {
        assert(pages.take(n) =~= pages);
    } else {
        assert(pages.drop_last().take(n) =~= pages.take(n));
        lemma_pages_conflict(pages.drop_last(), n);
    }
}

/// The answer to a scan, from the page that was read, where it ended, and the pages of pending
/// mutations in the scanned range. Only keyspaces of values have pending mutations.
pub fn finish_scan(
    keyspace_id: KeyspaceId,
    range: &Range<Vec<u8>>,
    direction: Direction,
    scan_range: &Range<Vec<u8>>,
    page: &Vec<Revision>,
    cursor: &Option<Range<Vec<u8>>>,
    conflict_pages: &Vec<Vec<Revision>>,
) -> (r: Result<(Vec<Record>, Option<Range<Vec<u8>>>), InternalError>)
    ensures
        match r {
            Ok((records, next)) => {
                &&& !keyspace_id.userland() || pages_conflict(conflict_pages@) is None
                &&& record_views(records@) == live(page@)
                &&& cursor_view(next) == next_cursor(
                    range@,
                    scanned_part(scan_range@, cursor_view(*cursor), direction),
                    direction,
                )
            },
            Err(e) => keyspace_id.userland() && pages_conflict(conflict_pages@) == Some(e),
        },
{
    if keyspace_id.is_userland() {
        let mut i: usize = 0;
        assert(conflict_pages@.take(0) =~= Seq::empty());
        while i < conflict_pages.len()
            invariant
                i <= conflict_pages@.len(),
                keyspace_id.userland(),
                pages_conflict(conflict_pages@.take(i as int)) is None,
            decreases conflict_pages@.len() - i,
        {
            proof {
                assert(conflict_pages@.take(i + 1).drop_last() =~= conflict_pages@.take(i as int));
                assert(conflict_pages@.take(i + 1).last() == conflict_pages@[i as int]);
            }
            match check_conflict_page(&conflict_pages[i]) {
                Ok(()) => {},
                Err(e) => {
                    proof {
                        lemma_pages_conflict(conflict_pages@, i + 1);
                    }
                    return Err(e);
                },
            }
            i += 1;
        }
        assert(conflict_pages@.take(i as int) =~= conflict_pages@);
    }
    let scanned = scanned_range(scan_range, cursor, direction);
    Ok((live_records(page), continue_cursor(range, &scanned, direction)))
}

impl TabletInner {
    pub fn new(tablet_id: TabletId, colo_group_id: ColoGroupId, range: Range<Vec<u8>>) -> (r: Self)
        ensures
            r.tablet_id == tablet_id,
            r.colo_group_id == colo_group_id,
            r.range == range,
    {
        TabletInner { tablet_id, colo_group_id, range }
    }

    /// Whether the tablet owns a key.
    pub fn check_key(&self, colo_group_id: ColoGroupId, key: &Vec<u8>) -> (r: Result<
        (),
        InternalError,
    >)
        ensures
            r == if colo_group_id == self.colo_group_id && self.range@.has(key@) {
                Ok(())
            } else {
                Err(InternalError::NotOwned(colo_group_id))
            },
    {
        if self.colo_group_id != colo_group_id || !self.range.contains(key) {
            return Err(InternalError::NotOwned(colo_group_id));
        }
        Ok(())
    }

    /// Reads keys as of a point in time, from what is stored and what is pending at each of them.
    /// The records come in the order of their keys.
    pub fn get_multi(&self, keys: &KeySet, reads: &Vec<ReadPair>) -> (r: Result<
        Vec<Record>,
        InternalError,
    >)
        requires
            reads@.len() == keys.entries@.len(),
        ensures
            records_result(r) == reads_of(self.colo_group_id, self.range@, keys.keys(), reads@),
    {
        let mut out: Vec<Record> = Vec::new();
        let mut i: usize = 0;
        let ghost ks = keys.keys();
        proof {
            assert(ks.take(0) =~= Seq::empty());
            assert(record_views(out@) =~= Seq::empty());
        }
        while i < keys.entries.len()
            invariant
                i <= keys.entries@.len(),
                reads@.len() == keys.entries@.len(),
                ks == keys.keys(),
                reads_of(self.colo_group_id, self.range@, ks.take(i as int), reads@) == Ok::<
                    Seq<RecordView>,
                    InternalError,
                >(record_views(out@)),
            decreases keys.entries@.len() - i,
        {
            let key = &keys.entries[i].0;
            proof {
                assert(ks.take(i + 1).drop_last() =~= ks.take(i as int));
                assert(ks.take(i + 1)[i as int] == key@);
            }
            if let Err(e) = self.check_key(key.0.0, &key.1) {
                proof {
                    lemma_reads_err(self.colo_group_id, self.range@, ks, reads@, i + 1);
                }
                return Err(e);
            }
            match read_key(key, &reads[i].0, &reads[i].1) {
                Err(e) => {
                    proof {
                        lemma_reads_err(self.colo_group_id, self.range@, ks, reads@, i + 1);
                    }
                    return Err(e);
                },
                Ok(Some(rec)) => {
                    let ghost before = out@;
                    out.push(rec);
                    assert(record_views(out@) =~= record_views(before).push(rec@));
                },
                Ok(None) => {},
            }
            i += 1;
        }
        assert(ks.take(i as int) =~= ks);
        Ok(out)
    }

    /// Reads the latest values of keys, and says as of when they are the latest.
    pub fn get_latest_multi(
        &self,
        keys: &KeySet,
        reads: &Vec<ReadPair>,
        safe_read_ts: Timestamp,
    ) -> (r: Result<(Timestamp, Vec<Record>), InternalError>)
        requires
            reads@.len() == keys.entries@.len(),
        ensures
            match r {
                Ok((ts, records)) => {
                    &&& reads_of(self.colo_group_id, self.range@, keys.keys(), reads@) == Ok::<
                        Seq<RecordView>,
                        InternalError,
                    >(record_views(records@))
                    &&& ts == snapshot_of(safe_read_ts, reads@)
                },
                Err(e) => match first_unowned(self.colo_group_id, self.range@, keys.keys()) {
                    Some(k) => e == InternalError::NotOwned(k.0.0),
                    None => reads_of(self.colo_group_id, self.range@, keys.keys(), reads@) == Err::<
                        Seq<RecordView>,
                        InternalError,
                    >(e),
                },
            },
    {
        let ghost ks = keys.keys();
        let mut i: usize = 0;
        assert(ks.take(0) =~= Seq::empty());
        while i < keys.entries.len()
            invariant
                i <= keys.entries@.len(),
                ks == keys.keys(),
                first_unowned(self.colo_group_id, self.range@, ks.take(i as int)) is None,
            decreases keys.entries@.len() - i,
        {
            let key = &keys.entries[i].0;
            proof {
                assert(ks.take(i + 1).drop_last() =~= ks.take(i as int));
                assert(ks.take(i + 1).last() == key@);
            }
            if let Err(e) = self.check_key(key.0.0, &key.1) {
                proof {
                    assert(ks[i as int] == key@);
                    lemma_first_unowned(self.colo_group_id, self.range@, ks, i as int);
                }
                return Err(e);
            }
            i += 1;
        }
        assert(ks.take(i as int) =~= ks);
        let records = match self.get_multi(keys, reads) {
            Ok(records) => records,
            Err(e) => {
                return Err(e);
            },
        };
        let mut snapshot_ts = Timestamp::zero();
        let mut i: usize = 0;
        assert(reads@.take(0) =~= Seq::empty());
        while i < reads.len()
            invariant
                i <= reads@.len(),
                snapshot_ts == snapshot_of(safe_read_ts, reads@.take(i as int)),
            decreases reads@.len() - i,
        {
            proof {
                assert(reads@.take(i + 1).drop_last() =~= reads@.take(i as int));
                assert(reads@.take(i + 1).last() == reads@[i as int]);
            }
            match &reads[i].0 {
                Some((ts, _)) => {
                    if ts.0 > snapshot_ts.0 {
                        snapshot_ts = *ts;
                    }
                },
                None => {
                    snapshot_ts = safe_read_ts;
                },
            }
            i += 1;
        }
        assert(reads@.take(i as int) =~= reads@);
        Ok((snapshot_ts, records))
    }

    /// The part of a range that the tablet scans.
    pub fn scan_range(&self, colo_group_id: ColoGroupId, range: &Range<Vec<u8>>) -> (r: Result<
        Range<Vec<u8>>,
        InternalError,
    >)
        ensures
            match r {
                Ok(scan) => {
                    &&& colo_group_id == self.colo_group_id
                    &&& !self.range@.meet(range@).vacant()
                    &&& scan@ == self.range@.meet(range@)
                },
                Err(e) => {
                    &&& colo_group_id != self.colo_group_id || self.range@.meet(range@).vacant()
                    &&& e == InternalError::Misroute(self.tablet_id)
                },
            },
    {
        if colo_group_id != self.colo_group_id {
            return Err(InternalError::Misroute(self.tablet_id));
        }
        let intersection = self.range.intersection(range);
        if intersection.is_empty() {
            return Err(InternalError::Misroute(self.tablet_id));
        }
        Ok(intersection)
    }

    /// What to scan for a page.
    pub fn plan_scan(
        &self,
        keyspace_id: KeyspaceId,
        range: &Range<Vec<u8>>,
        limit: usize,
    ) -> (r: Result<ScanPlan, InternalError>)
        ensures
            match r {
                Ok(plan) => {
                    &&& limit > 0
                    &&& plan.limit == if limit < MAX_PAGE_LEN {
                        limit
                    } else {
                        MAX_PAGE_LEN
                    }
                    &&& keyspace_id.0 == self.colo_group_id
                    &&& plan.scan_range@ == self.range@.meet(range@)
                    &&& !plan.scan_range@.vacant()
                },
                Err(e) => if limit == 0 {
                    e == InternalError::LimitZero
                } else {
                    &&& keyspace_id.0 != self.colo_group_id || self.range@.meet(range@).vacant()
                    &&& e == InternalError::Misroute(self.tablet_id)
                },
            },
    {
        if limit == 0 {
            return Err(InternalError::LimitZero);
        }
        let limit: usize = if limit < MAX_PAGE_LEN {
            limit
        } else {
            MAX_PAGE_LEN
        };
        match self.scan_range(keyspace_id.0, range) {
            Ok(scan_range) => Ok(ScanPlan { scan_range, limit }),
            Err(e) => Err(e),
        }
    }
}

/// The keys that a write depends on, then those that it changes.
pub open spec fn write_keys(preconds: Seq<Precondition>, muts: Muts) -> Seq<KeyView> {
    preconds.map_values(|p: Precondition| p.key_view()) + muts.keys()
}

/// Whether something is pending at a key of a keyspace of values.
pub open spec fn has_pending(k: KeyView, pending: Stored) -> bool {
    k.0.userland() && stored_view(pending) matches Some((_, Some(_)))
}

/// The transaction that left a pending mutation.
pub open spec fn pending_txid(pending: Stored) -> Txid {
    match stored_view(pending) {
        Some((_, Some(b))) => Txid::of(b.take(TXID_LEN as int)),
        _ => arbitrary(),
    }
}

/// The first transaction that stands in the way of a write.
pub open spec fn first_conflict(keys: Seq<KeyView>, pending: Seq<Stored>) -> Option<Txid>
    decreases keys.len(),
{
    if keys.len() == 0 {
        None
    } else {
        let n = keys.len() - 1;
        match first_conflict(keys.drop_last(), pending) {
            Some(t) => Some(t),
            None => if has_pending(keys[n], pending[n]) {
                Some(pending_txid(pending[n]))
            } else {
                None
            },
        }
    }
}

proof fn lemma_first_conflict(keys: Seq<KeyView>, pending: Seq<Stored>, n: int)
    requires
        0 <= n <= keys.len(),
        first_conflict(keys.take(n), pending) is Some,
    ensures
        first_conflict(keys, pending) == first_conflict(keys.take(n), pending),
    decreases keys.len(),
{
    if n == keys.len() {
        assert(keys.take(n) =~= keys);
    } else {
        assert(keys.drop_last().take(n) =~= keys.take(n));
        lemma_first_conflict(keys.drop_last(), pending, n);
    }
}

/// Whether what is pending is at least as long as a transaction.
pub open spec fn pending_readable(pending: Seq<Stored>) -> bool {
    forall|i: int|
        0 <= i < pending.len() ==> (stored_view(#[trigger] pending[i]) matches Some((_, Some(b)))
            ==> b.len() >= TXID_LEN)
}

fn conflict_at(keyspace_id: KeyspaceId, pending: &Stored) -> (r: Option<Txid>)
    requires
        stored_view(*pending) matches Some((_, Some(b))) ==> b.len() >= TXID_LEN,
    ensures
        forall|key: Seq<u8>|
            r == if #[trigger] has_pending((keyspace_id, key), *pending) {
                Some(pending_txid(*pending))
            } else {
                None
            },
{
    if !keyspace_id.is_userland() {
        return None;
    }
    match pending {
        Some((_, RevisionValue::Regular(b))) => Some(Txid::of_prefix(b.as_slice())),
        _ => None,
    }
}

/// Looks for transactions that stand in the way of a write, from what is pending at each key.
pub fn check_write_conflicts(
    preconds: &Vec<Precondition>,
    muts: &Muts,
    pending: &Vec<Stored>,
) -> (r: Option<Txid>)
    requires
        pending@.len() == preconds@.len() + muts.entries@.len(),
        pending_readable(pending@),
    ensures
        r == first_conflict(write_keys(preconds@, *muts), pending@),
{
    let ghost keys = write_keys(preconds@, *muts);
    let mut i: usize = 0;
    assert(keys.take(0) =~= Seq::empty());
    while i < pending.len()
        invariant
            i <= pending@.len(),
            keys == write_keys(preconds@, *muts),
            keys.len() == pending@.len(),
            pending@.len() == preconds@.len() + muts.entries@.len(),
            pending_readable(pending@),
            first_conflict(keys.take(i as int), pending@) is None,
        decreases pending@.len() - i,
    {
        let keyspace_id = if i < preconds.len() {
            preconds[i].keyspace_id()
        } else {
            muts.entries[i - preconds.len()].0.0
        };
        proof {
            assert(keys.take(i + 1).drop_last() =~= keys.take(i as int));
            assert(keys.take(i + 1)[i as int] == keys[i as int]);
            if i >= preconds@.len() {
                assert(keys[i as int] == muts.keys()[i - preconds@.len()]);
            }
            assert(keys[i as int].0 == keyspace_id);
            assert(keys[i as int] == (keyspace_id, keys[i as int].1));
            assert(stored_view(pending@[i as int]) == stored_view(pending@[i as int]));
        }
        let conflict = conflict_at(keyspace_id, &pending[i]);
        assert(has_pending((keyspace_id, keys[i as int].1), pending@[i as int]) == (conflict
            is Some));
        if let Some(txid) = conflict {
            proof {
                lemma_first_conflict(keys, pending@, i + 1);
            }
            return Some(txid);
        }
        i += 1;
    }
    assert(keys.take(i as int) =~= keys);
    None
}

/// Whether a key was written after the point in time up to which it must not have changed.
pub open spec fn violated(p: Precondition, latest: Stored) -> bool {
    stored_view(latest) matches Some((ts, _)) && ts.0 > p.since().0
}

/// Checks preconditions against the latest that is stored at each key.
pub fn check_preconds(preconds: &Vec<Precondition>, latest: &Vec<Stored>) -> (r: Result<
    (),
    InternalError,
>)
    requires
        latest@.len() == preconds@.len(),
    ensures
        r == if exists|i: int|
            0 <= i < preconds@.len() && violated(#[trigger] preconds@[i], latest@[i]) {
            Err(InternalError::PreconditionFailed)
        } else {
            Ok(())
        },
{
    let mut i: usize = 0;
    while i < preconds.len()
        invariant
            i <= preconds@.len(),
            latest@.len() == preconds@.len(),
            forall|j: int| 0 <= j < i ==> !violated(#[trigger] preconds@[j], latest@[j]),
        decreases preconds@.len() - i,
    {
        match &preconds[i] {
            Precondition::NotChangedSince(_, _, since) => {
                if let Some((ts, _)) = &latest[i] {
                    if ts.0 > since.0 {
                        assert(violated(preconds@[i as int], latest@[i as int]));
                        return Err(InternalError::PreconditionFailed);
                    }
                }
            },
        }
        i += 1;
    }
    Ok(())
}

/// The range of a history once its end is known.
pub open spec fn bounded_history(range: HistoryRange, latest: Timestamp) -> HistoryRange {
    match range {
        HistoryRange::All => HistoryRange::Until(latest),
        HistoryRange::Since(min) => HistoryRange::Between(min, latest),
        _ => range,
    }
}

/// Ends a history at the latest snapshot, where it has no end.
pub fn bound_history(range: HistoryRange, latest: Timestamp) -> (r: HistoryRange)
    ensures
        r == bounded_history(range, latest),
{
    match range {
        HistoryRange::All => HistoryRange::Until(latest),
        HistoryRange::Since(min) => HistoryRange::Between(min, latest),
        _ => range,
    }
}

/// What stands in the way of a history: a pending mutation within its range.
pub open spec fn history_conflict(
    k: KeyView,
    range: HistoryRange,
    pending: Option<(Timestamp, Option<Seq<u8>>)>,
) -> Option<InternalError> {
    match pending {
        Some((ts, Some(_))) => if k.0.userland() && range.has(ts) {
            conflict_with(pending)
        } else {
            None
        },
        _ => None,
    }
}

/// The answer to a request for a key's history, from the page that was read and what is pending.
pub fn finish_history(
    key: &Key,
    range: HistoryRange,
    page: Vec<(Timestamp, RevisionValue)>,
    pending: &Stored,
) -> (r: Result<Vec<Revision>, InternalError>)
    ensures
        match r {
            Ok(revisions) => {
                &&& history_conflict(key@, range, stored_view(*pending)) is None
                &&& revisions@.len() == page@.len()
                &&& forall|i: int|
                    0 <= i < page@.len() ==> (#[trigger] revisions@[i])@ == (RevisionView {
                        key: key@,
                        ts: page@[i].0,
                        value: page@[i].1@,
                    })
            },
            Err(e) => history_conflict(key@, range, stored_view(*pending)) == Some(e),
        },
{
    if key.0.is_userland() {
        if let Some((ts, RevisionValue::Regular(_))) = pending {
            if range.contains(*ts) {
                if let Some(e) = check_pending(pending) {
                    return Err(e);
                }
            }
        }
    }
    let mut out: Vec<Revision> = Vec::new();
    let mut i: usize = 0;
    while i < page.len()
        invariant
            i <= page@.len(),
            out@.len() == i,
            history_conflict(key@, range, stored_view(*pending)) is None,
            forall|j: int|
                0 <= j < i ==> (#[trigger] out@[j])@ == (RevisionView {
                    key: key@,
                    ts: page@[j].0,
                    value: page@[j].1@,
                }),
        decreases page@.len() - i,
    {
        let value = match &page[i].1 {
            RevisionValue::Regular(v) => RevisionValue::Regular(v.copied()),
            RevisionValue::Tombstone => RevisionValue::Tombstone,
        };
        out.push(Revision { key: copy_key(key), ts: page[i].0, value });
        i += 1;
    }
    Ok(out)
}

/// The keyspaces that come with a keyspace: itself, and those for what undecided transactions leave.
pub open spec fn keyspaces_of(id: KeyspaceId) -> Seq<KeyspaceId> {
    if id.userland() {
        seq![id, id.pending_spec()->0, id.precond_spec()->0]
    } else {
        seq![id]
    }
}

impl TabletInner {
    /// Whether the tablet owns every key that a write depends on or changes.
    pub fn check_owned(&self, preconds: &Vec<Precondition>, muts: &Muts) -> (r: Result<
        (),
        InternalError,
    >)
        ensures
            r == match first_unowned(
                self.colo_group_id,
                self.range@,
                write_keys(preconds@, *muts),
            ) {
                Some(k) => Err(InternalError::NotOwned(k.0.0)),
                None => Ok::<(), InternalError>(()),
            },
    {
        let ghost keys = write_keys(preconds@, *muts);
        let mut i: usize = 0;
        assert(keys.take(0) =~= Seq::empty());
        while i < preconds.len()
            invariant
                i <= preconds@.len(),
                keys == write_keys(preconds@, *muts),
                first_unowned(self.colo_group_id, self.range@, keys.take(i as int)) is None,
            decreases preconds@.len() - i,
        {
            proof {
                assert(keys.take(i + 1).drop_last() =~= keys.take(i as int));
                assert(keys.take(i + 1).last() == keys[i as int]);
                assert(keys[i as int] == preconds@[i as int].key_view());
            }
            if let Err(e) = self.check_key(preconds[i].keyspace_id().0, preconds[i].key()) {
                proof {
                    lemma_first_unowned(self.colo_group_id, self.range@, keys, i as int);
                }
                return Err(e);
            }
            i += 1;
        }
        let mut i: usize = 0;
        while i < muts.entries.len()
            invariant
                i <= muts.entries@.len(),
                keys == write_keys(preconds@, *muts),
                first_unowned(
                    self.colo_group_id,
                    self.range@,
                    keys.take(preconds@.len() + i),
                ) is None,
            decreases muts.entries@.len() - i,
        {
            let key = &muts.entries[i].0;
            proof {
                let n = preconds@.len() + i;
                assert(keys.take(n + 1).drop_last() =~= keys.take(n));
                assert(keys.take(n + 1).last() == keys[n]);
                assert(keys[n] == muts.keys()[i as int]);
            }
            if let Err(e) = self.check_key(key.0.0, &key.1) {
                proof {
                    lemma_first_unowned(
                        self.colo_group_id,
                        self.range@,
                        keys,
                        preconds@.len() + i,
                    );
                }
                return Err(e);
            }
            i += 1;
        }
        assert(keys.take((preconds@.len() + i) as int) =~= keys);
        Ok(())
    }

    /// Whether a write may go ahead, from what is pending at each key that it depends on or
    /// changes, and the latest that is stored at each key that it depends on.
    pub fn check_write(
        &self,
        preconds: &Vec<Precondition>,
        muts: &Muts,
        pending: &Vec<Stored>,
        latest: &Vec<Stored>,
    ) -> (r: Result<(), InternalError>)
        requires
            pending@.len() == preconds@.len() + muts.entries@.len(),
            pending_readable(pending@),
            latest@.len() == preconds@.len(),
        ensures
            r == match first_unowned(
                self.colo_group_id,
                self.range@,
                write_keys(preconds@, *muts),
            ) {
                Some(k) => Err(InternalError::NotOwned(k.0.0)),
                None => match first_conflict(write_keys(preconds@, *muts), pending@) {
                    Some(txid) => Err(InternalError::Conflict(txid)),
                    None => if exists|i: int|
                        0 <= i < preconds@.len() && violated(#[trigger] preconds@[i], latest@[i]) {
                        Err(InternalError::PreconditionFailed)
                    } else {
                        Ok(())
                    },
                },
            },
    {
        if let Err(e) = self.check_owned(preconds, muts) {
            return Err(e);
        }
        if let Some(txid) = check_write_conflicts(preconds, muts, pending) {
            return Err(InternalError::Conflict(txid));
        }
        check_preconds(preconds, latest)
    }

    /// The keyspaces to create for a keyspace.
    pub fn create_keyspace(&self, keyspace_id: KeyspaceId) -> (r: Result<
        Vec<KeyspaceId>,
        InternalError,
    >)
        ensures
            match r {
                Ok(ids) => keyspace_id.0 == self.colo_group_id && ids@ == keyspaces_of(keyspace_id),
                Err(e) => keyspace_id.0 != self.colo_group_id && e == InternalError::WrongGroup(
                    keyspace_id,
                ),
            },
    {
        if keyspace_id.0 != self.colo_group_id {
            return Err(InternalError::WrongGroup(keyspace_id));
        }
        let mut ids: Vec<KeyspaceId> = Vec::new();
        ids.push(keyspace_id);
        if let Some(pending) = keyspace_id.pending() {
            ids.push(pending);
        }
        if let Some(precond) = keyspace_id.precond() {
            ids.push(precond);
        }
        assert(ids@ =~= keyspaces_of(keyspace_id));
        Ok(ids)
    }
}

/// A scan page by page misses no key of the range and shows none twice: where the scan starts at
/// the end of the range that comes first, each key of the range either lies in the part that was
/// scanned or in the part where the scan goes on.
pub proof fn law_scan_covers(
    range: Range<Seq<u8>>,
    scan: Range<Seq<u8>>,
    cursor: Option<Range<Seq<u8>>>,
    direction: Direction,
    k: Seq<u8>,
)
    requires
        scan.lower.at_most(scan.upper),
        direction == Direction::Asc ==> scan.lower == range.lower && scan.upper.at_most(
            range.upper,
        ),
        direction == Direction::Desc ==> scan.upper == range.upper && range.lower.at_most(
            scan.lower,
        ),
        cursor matches Some(c) ==> (direction == Direction::Asc ==> scan.lower.at_most(c.lower)
            && c.lower.at_most(scan.upper)),
        cursor matches Some(c) ==> (direction == Direction::Desc ==> c.upper.at_most(scan.upper)
            && scan.lower.at_most(c.upper)),
    ensures
        ({
            let scanned = scanned_part(scan, cursor, direction);
            let next = next_cursor(range, scanned, direction);
            let later = next is Some && (next->0).has(k);
            &&& range.has(k) == (scanned.has(k) || later)
            &&& !(scanned.has(k) && later)
        }),
{
    broadcast use group_bound_order;

    let scanned = scanned_part(scan, cursor, direction);
    let rest = rest_of_scan(range, scanned, direction);
    let b = match direction {
        Direction::Asc => scanned.upper,
        Direction::Desc => scanned.lower,
    };
    assert(range.lower.at_most(b) && b.at_most(range.upper));
    law_range_split(range, b, k);
    if rest.vacant() {
        law_vacant_range(rest, rest.lower, k);
    }
}

/// A snapshot shows every write that was seen, unless a key that has never been written comes after
/// a write that is later than reads are safe.
pub proof fn law_snapshot_covers(safe_read_ts: Timestamp, reads: Seq<ReadPair>, i: int)
    requires
        0 <= i < reads.len(),
        forall|a: int, b: int|
            0 <= a < b < reads.len() && stored_view((#[trigger] reads[b]).0) is None ==> (
            stored_view((#[trigger] reads[a]).0) matches Some((ts, _)) ==> ts.0 <= safe_read_ts.0),
    ensures
        stored_view(reads[i].0) matches Some((ts, _)) ==> ts.0 <= snapshot_of(
            safe_read_ts,
            reads,
        ).0,
    decreases reads.len(),
{
    let n = reads.len() - 1;
    if i < n {
        assert forall|a: int, b: int|
            0 <= a < b < reads.drop_last().len() && stored_view(
                (#[trigger] reads.drop_last()[b]).0,
            ) is None implies (stored_view((#[trigger] reads.drop_last()[a]).0) matches Some((ts, _))
            ==> ts.0 <= safe_read_ts.0) by {
            assert(reads[b] == reads.drop_last()[b]);
            assert(reads[a] == reads.drop_last()[a]);
        }
        law_snapshot_covers(safe_read_ts, reads.drop_last(), i);
        assert(reads.drop_last()[i] == reads[i]);
        if stored_view(reads[n].0) is None {
            assert(stored_view(reads[i].0) matches Some((ts, _)) ==> ts.0 <= safe_read_ts.0);
        }
    }
}

} // verus!
