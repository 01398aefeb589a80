//! What holds of every read and every check of a write.

use vstd::prelude::*;

use super::pending::PendingView;
use super::tablet_inner::{
    bounded_history, first_conflict, first_unowned, has_pending, history_conflict,
    live, page_conflict, pages_conflict, read_of, reads_of, snapshot_of, violated, ReadPair,
};
use crate::range::Range;
use crate::types::data::{
    stored_view, HistoryRange, KeyView, Precondition, RecordView, Revision, RevisionValue, Stored, Timestamp,
    Txid, TXID_LEN,
};
use crate::types::error::InternalError;
use crate::types::ColoGroupId;
use crate::util::select::{lemma_picks_push, picks};

verus! {

/// Whether a record is what a revision with a value shows.
pub open spec fn shows(rec: RecordView, rev: Revision) -> bool {
    &&& rec.key == (rev.key.0, rev.key.1@)
    &&& rec.ts == rev.ts
    &&& rev.value matches RevisionValue::Regular(v) && rec.value == v@
}

/// The revisions with a value, in the order of the page, are exactly the records of a scan: a key
/// that was deleted gives none.
pub proof fn law_scan_shows_values(page: Seq<Revision>) -> (idx: Seq<int>)
    ensures
        picks(idx, page.len()),
        forall|i: int|
            0 <= i < page.len() ==> (idx.contains(i) <==> (#[trigger] page[i]).value is Regular),
        live(page).len() == idx.len(),
        forall|j: int| 0 <= j < idx.len() ==> shows(#[trigger] live(page)[j], page[idx[j]]),
    decreases page.len(),
{
    if page.len() == 0 {
        Seq::empty()
    } else {
        let rest = page.drop_last();
        let idx = law_scan_shows_values(rest);
        let n = rest.len();
        lemma_picks_push(idx, n);
        assert forall|i: int| 0 <= i < n implies page[i] == rest[i] by {}
        if page.last().value is Regular {
            let more = idx.push(n as int);
            assert forall|i: int| 0 <= i < page.len() implies (more.contains(i) <==> (
            #[trigger] page[i]).value is Regular) by {
                if i < n {
                    assert(rest[i] == page[i]);
                }
            }
            assert forall|j: int| 0 <= j < more.len() implies shows(
                #[trigger] live(page)[j],
                page[more[j]],
            ) by {
                if j < idx.len() {
                    assert(live(page)[j] == live(rest)[j]);
                    assert(rest[idx[j]] == page[idx[j]]);
                }
            }
            more
        } else {
            assert forall|i: int| 0 <= i < page.len() implies (idx.contains(i) <==> (
            #[trigger] page[i]).value is Regular) by {
                if i < n {
                    assert(rest[i] == page[i]);
                }
            }
            assert forall|j: int| 0 <= j < idx.len() implies shows(
                #[trigger] live(page)[j],
                page[idx[j]],
            ) by {
                assert(live(page)[j] == live(rest)[j]);
                assert(rest[idx[j]] == page[idx[j]]);
            }
            idx
        }
    }
}

/// A record is among those of a scan exactly where some revision of the page has its key, its time
/// and its value.
pub proof fn law_scan_record(page: Seq<Revision>, rec: RecordView)
    ensures
        live(page).contains(rec) <==> exists|i: int|
            0 <= i < page.len() && shows(rec, #[trigger] page[i]),
{
    let idx = law_scan_shows_values(page);
    if live(page).contains(rec) {
        let j = live(page).index_of(rec);
        assert(shows(live(page)[j], page[idx[j]]));
    }
    if exists|i: int| 0 <= i < page.len() && shows(rec, #[trigger] page[i]) {
        let i = choose|i: int| 0 <= i < page.len() && shows(rec, #[trigger] page[i]);
        assert(idx.contains(i));
        let j = idx.index_of(i);
        assert(shows(live(page)[j], page[idx[j]]));
        assert(live(page)[j] == rec);
    }
}

/// A scan and a read of one key agree: the record of a scan is what is read of its key, where the
/// revision on the page is what is stored there and nothing is pending.
pub proof fn law_scan_and_read_agree(page: Seq<Revision>, i: int)
    requires
        0 <= i < page.len(),
        forall|j: int| 0 <= j < page.len() && j != i ==> (#[trigger] page[j]).key@ != page[i].key@,
    ensures
        ({
            let k = (page[i].key.0, page[i].key.1@);
            let read = read_of(k, stored_view(Some((page[i].ts, page[i].value))), None);
            &&& read is Ok
            &&& forall|rec: RecordView|
                rec.key == k ==> (#[trigger] live(page).contains(rec) <==> read->Ok_0 == Some(rec))
        }),
{
    let k = (page[i].key.0, page[i].key.1@);
    let read = read_of(k, stored_view(Some((page[i].ts, page[i].value))), None);
    assert forall|rec: RecordView| rec.key == k implies (#[trigger] live(page).contains(rec)
        <==> read->Ok_0 == Some(rec)) by {
        law_scan_record(page, rec);
        if live(page).contains(rec) {
            let j = choose|j: int| 0 <= j < page.len() && shows(rec, #[trigger] page[j]);
            assert(page[j].key@ == k);
            assert(page[i].key@ == k);
            assert(j == i);
        }
        if read->Ok_0 == Some(rec) {
            assert(shows(rec, page[i]));
        }
    }
}

/// Whether nothing that an undecided transaction left is in the way of reading a key. Only keyspaces
/// of values have undecided transactions.
pub open spec fn clear(k: KeyView, pending: Stored) -> bool {
    k.0.userland() ==> !(pending matches Some((_, RevisionValue::Regular(_))))
}

/// What is in the way of reading a key: the transaction that left the mutation, or bytes that are
/// none.
pub open spec fn in_the_way(pending: Stored, e: InternalError) -> bool {
    pending matches Some((_, RevisionValue::Regular(b))) && match PendingView::of(b@) {
        Ok(p) => e == InternalError::Conflict(p.txid),
        Err(d) => e == InternalError::Decode(d),
    }
}

/// A key is read as it is stored, with the time of the write, unless an undecided transaction is in
/// the way. A key that was deleted, and one that was never written, has no record.
pub proof fn law_read_shows_stored(k: KeyView, stored: Stored, pending: Stored)
    ensures
        match read_of(k, stored_view(stored), stored_view(pending)) {
            Ok(Some(rec)) => {
                &&& clear(k, pending)
                &&& rec.key == k
                &&& stored matches Some((ts, RevisionValue::Regular(v))) && rec.ts == ts
                    && rec.value == v@
            },
            Ok(None) => clear(k, pending) && !(stored matches Some((_, RevisionValue::Regular(_)))),
            Err(e) => !clear(k, pending) && in_the_way(pending, e),
        },
{
}

/// Keys are all read or none: where the tablet owns each and nothing is in the way, the records are
/// exactly those of the keys with a value, in the order of the keys.
pub proof fn law_reads_show_values(
    group: ColoGroupId,
    range: Range<Seq<u8>>,
    keys: Seq<KeyView>,
    reads: Seq<ReadPair>,
) -> (idx: Seq<int>)
    requires
        forall|i: int|
            0 <= i < keys.len() ==> (#[trigger] keys[i]).0.0 == group && range.has(keys[i].1)
                && clear(keys[i], reads[i].1),
    ensures
        picks(idx, keys.len()),
        forall|i: int|
            0 <= i < keys.len() ==> (idx.contains(i) <==> ((#[trigger] reads[i]).0 matches Some(
                (_, RevisionValue::Regular(_)),
            ))),
        reads_of(group, range, keys, reads) matches Ok(found) && found.len() == idx.len() && forall|
            j: int,
        |
            0 <= j < idx.len() ==> {
                let rec = #[trigger] found[j];
                &&& rec.key == keys[idx[j]]
                &&& reads[idx[j]].0 matches Some((ts, RevisionValue::Regular(v))) && rec.ts == ts
                    && rec.value == v@
            },
    decreases keys.len(),
{
    if keys.len() == 0 {
        Seq::empty()
    } else {
        let rest = keys.drop_last();
        let n = rest.len();
        assert forall|i: int| 0 <= i < rest.len() implies (#[trigger] rest[i]).0.0 == group
            && range.has(rest[i].1) && clear(rest[i], reads[i].1) by {
            assert(keys[i] == rest[i]);
        }
        let idx = law_reads_show_values(group, range, rest, reads);
        lemma_picks_push(idx, n);
        let before = reads_of(group, range, rest, reads)->Ok_0;
        assert(keys[n as int].0.0 == group);
        law_read_shows_stored(keys[n as int], reads[n as int].0, reads[n as int].1);
        let all = reads_of(group, range, keys, reads)->Ok_0;
        assert forall|j: int| 0 <= j < idx.len() implies all[j] == before[j] && rest[idx[j]]
            == keys[idx[j]] by {}
        if reads[n as int].0 matches Some((_, RevisionValue::Regular(_))) {
            idx.push(n as int)
        } else {
            idx
        }
    }
}

/// Reading keys fails at the first that the tablet does not own, or where an undecided transaction
/// is in the way, and says so.
pub proof fn law_reads_fail_at_first(
    group: ColoGroupId,
    range: Range<Seq<u8>>,
    keys: Seq<KeyView>,
    reads: Seq<ReadPair>,
    n: int,
)
    requires
        0 <= n < keys.len(),
        forall|i: int|
            0 <= i < n ==> (#[trigger] keys[i]).0.0 == group && range.has(keys[i].1) && clear(
                keys[i],
                reads[i].1,
            ),
        !(keys[n].0.0 == group && range.has(keys[n].1) && clear(keys[n], reads[n].1)),
    ensures
        reads_of(group, range, keys, reads) matches Err(e) && if keys[n].0.0 == group && range.has(
            keys[n].1,
        ) {
            in_the_way(reads[n].1, e)
        } else {
            e == InternalError::NotOwned(keys[n].0.0)
        },
    decreases keys.len(),
{
    let rest = keys.drop_last();
    if n < rest.len() {
        assert forall|i: int| 0 <= i < n implies (#[trigger] rest[i]).0.0 == group && range.has(
            rest[i].1,
        ) && clear(rest[i], reads[i].1) by {
            assert(keys[i] == rest[i]);
        }
        law_reads_fail_at_first(group, range, rest, reads, n);
    } else {
        assert forall|i: int| 0 <= i < rest.len() implies (#[trigger] rest[i]).0.0 == group
            && range.has(rest[i].1) && clear(rest[i], reads[i].1) by {
            assert(keys[i] == rest[i]);
        }
        law_reads_show_values(group, range, rest, reads);
        law_read_shows_stored(keys[n], reads[n].0, reads[n].1);
    }
}

/// The snapshot of keys that were all written is as of the latest write of any of them.
pub proof fn law_snapshot_is_latest_write(safe_read_ts: Timestamp, reads: Seq<ReadPair>)
    requires
        forall|i: int| 0 <= i < reads.len() ==> (#[trigger] reads[i]).0 is Some,
    ensures
        forall|i: int|
            0 <= i < reads.len() ==> ((#[trigger] reads[i]).0->0).0.0 <= snapshot_of(
                safe_read_ts,
                reads,
            ).0,
        snapshot_of(safe_read_ts, reads).0 == 0 || exists|i: int|
            0 <= i < reads.len() && ((#[trigger] reads[i]).0->0).0 == snapshot_of(
                safe_read_ts,
                reads,
            ),
    decreases reads.len(),
{
    if reads.len() > 0 {
        let rest = reads.drop_last();
        assert forall|i: int| 0 <= i < rest.len() implies (#[trigger] rest[i]).0 is Some by {
            assert(reads[i] == rest[i]);
        }
        law_snapshot_is_latest_write(safe_read_ts, rest);
        let n = rest.len() as int;
        assert(reads[n].0 is Some);
        let s = snapshot_of(safe_read_ts, reads);
        assert forall|i: int| 0 <= i < reads.len() implies ((#[trigger] reads[i]).0->0).0.0
            <= s.0 by {
            if i < n {
                assert(rest[i] == reads[i]);
            }
        }
        if s != (reads[n].0->0).0 && s.0 != 0 {
            let i = choose|i: int| 0 <= i < rest.len() && ((#[trigger] rest[i]).0->0).0 == s;
            assert(reads[i] == rest[i]);
        }
    }
}

/// The snapshot of keys is as of the time up to which reads are safe, where a key that was never
/// written comes last, and as of no earlier time where others come after it.
pub proof fn law_snapshot_of_unwritten(safe_read_ts: Timestamp, reads: Seq<ReadPair>, n: int)
    requires
        0 <= n < reads.len(),
        reads[n].0 is None,
        forall|i: int| n < i < reads.len() ==> (#[trigger] reads[i]).0 is Some,
    ensures
        ({
            let s = snapshot_of(safe_read_ts, reads);
            &&& s.0 >= safe_read_ts.0
            &&& forall|i: int| n < i < reads.len() ==> ((#[trigger] reads[i]).0->0).0.0 <= s.0
            &&& s == safe_read_ts || exists|i: int|
                n < i < reads.len() && ((#[trigger] reads[i]).0->0).0 == s
        }),
    decreases reads.len(),
{
    let rest = reads.drop_last();
    let l = rest.len() as int;
    if n < l {
        assert forall|i: int| n < i < rest.len() implies (#[trigger] rest[i]).0 is Some by {
            assert(reads[i] == rest[i]);
        }
        assert(rest[n] == reads[n]);
        law_snapshot_of_unwritten(safe_read_ts, rest, n);
        assert(reads[l].0 is Some);
        let s = snapshot_of(safe_read_ts, reads);
        assert forall|i: int| n < i < reads.len() implies ((#[trigger] reads[i]).0->0).0.0
            <= s.0 by {
            if i < l {
                assert(rest[i] == reads[i]);
            }
        }
        if s != (reads[l].0->0).0 && s != safe_read_ts {
            let i = choose|i: int| n < i < rest.len() && ((#[trigger] rest[i]).0->0).0 == s;
            assert(reads[i] == rest[i]);
        }
    }
}

/// A page of pending mutations is in the way of a scan exactly where it has one that is still there,
/// and the first such is named.
pub proof fn law_page_conflict(page: Seq<Revision>)
    ensures
        page_conflict(page) is None <==> forall|i: int|
            0 <= i < page.len() ==> (#[trigger] page[i]).value is Tombstone,
        page_conflict(page) matches Some(e) ==> exists|i: int|
            {
                &&& 0 <= i < page.len()
                &&& in_the_way(Some(((#[trigger] page[i]).ts, page[i].value)), e)
                &&& forall|j: int| 0 <= j < i ==> (#[trigger] page[j]).value is Tombstone
            },
    decreases page.len(),
{
    if page.len() > 0 {
        let rest = page.drop_last();
        let n = rest.len() as int;
        law_page_conflict(rest);
        assert forall|i: int| 0 <= i < n implies page[i] == #[trigger] rest[i] by {}
        match page_conflict(rest) {
            Some(e) => {
                let i = choose|i: int|
                    {
                        &&& 0 <= i < rest.len()
                        &&& in_the_way(Some(((#[trigger] rest[i]).ts, rest[i].value)), e)
                        &&& forall|j: int| 0 <= j < i ==> (#[trigger] rest[j]).value is Tombstone
                    };
                assert(page[i] == rest[i]);
                assert(page[i].value is Regular);
                assert forall|j: int| 0 <= j < i implies (#[trigger] page[j]).value is Tombstone by {
                    assert(rest[j] == page[j]);
                }
            },
            None => {
                assert forall|j: int| 0 <= j < n implies (#[trigger] page[j]).value is Tombstone by {
                    assert(rest[j] == page[j]);
                }
                assert(page[n] == page.last());
                if page[n].value is Tombstone {
                } else {
                    let e = page_conflict(page)->0;
                    assert(in_the_way(Some((page[n].ts, page[n].value)), e));
                }
            },
        }
    }
}

/// A scan goes ahead exactly where no page has a pending mutation that is still there.
pub proof fn law_pages_conflict(pages: Seq<Vec<Revision>>)
    ensures
        pages_conflict(pages) is None <==> forall|p: int, i: int|
            0 <= p < pages.len() && 0 <= i < pages[p]@.len() ==> (#[trigger] pages[p]@[i]).value
                is Tombstone,
        pages_conflict(pages) matches Some(e) ==> exists|p: int, i: int|
            0 <= p < pages.len() && 0 <= i < pages[p]@.len() && in_the_way(
                Some(((#[trigger] pages[p]@[i]).ts, pages[p]@[i].value)),
                e,
            ),
    decreases pages.len(),
{
    if pages.len() > 0 {
        let rest = pages.drop_last();
        let n = rest.len() as int;
        law_pages_conflict(rest);
        law_page_conflict(pages[n]@);
        assert forall|p: int| 0 <= p < n implies pages[p] == #[trigger] rest[p] by {}
        match pages_conflict(rest) {
            Some(e) => {
                let (p, i) = choose|p: int, i: int|
                    0 <= p < rest.len() && 0 <= i < rest[p]@.len() && in_the_way(
                        Some(((#[trigger] rest[p]@[i]).ts, rest[p]@[i].value)),
                        e,
                    );
                assert(pages[p] == rest[p]);
                assert(in_the_way(Some((pages[p]@[i].ts, pages[p]@[i].value)), e));
                assert(pages[p]@[i].value is Regular);
            },
            None => {
                assert forall|p: int, i: int| 0 <= p < n && 0 <= i < pages[p]@.len() implies (
                #[trigger] pages[p]@[i]).value is Tombstone by {
                    assert(rest[p] == pages[p]);
                    assert(rest[p]@[i].value is Tombstone);
                }
                match page_conflict(pages[n]@) {
                    Some(e) => {
                        let i = choose|i: int|
                            0 <= i < pages[n]@.len() && in_the_way(
                                Some(((#[trigger] pages[n]@[i]).ts, pages[n]@[i].value)),
                                e,
                            );
                        assert(pages[n]@[i].value is Regular);
                    },
                    None => {
                        assert forall|p: int, i: int|
                            0 <= p < pages.len() && 0 <= i < pages[p]@.len() implies (
                        #[trigger] pages[p]@[i]).value is Tombstone by {
                            if p == n {
                                assert(pages[n]@[i].value is Tombstone);
                            }
                        }
                    },
                }
            },
        }
    }
}

/// Keys are owned where each is of the tablet's group and lies in its range. Else the first that is
/// not is named.
pub proof fn law_first_unowned(group: ColoGroupId, range: Range<Seq<u8>>, keys: Seq<KeyView>)
    ensures
        first_unowned(group, range, keys) is None <==> forall|i: int|
            0 <= i < keys.len() ==> (#[trigger] keys[i]).0.0 == group && range.has(keys[i].1),
        first_unowned(group, range, keys) matches Some(k) ==> exists|i: int|
            {
                &&& 0 <= i < keys.len()
                &&& (#[trigger] keys[i]) == k
                &&& !(k.0.0 == group && range.has(k.1))
                &&& forall|j: int|
                    0 <= j < i ==> (#[trigger] keys[j]).0.0 == group && range.has(keys[j].1)
            },
    decreases keys.len(),
{
    if keys.len() > 0 {
        let rest = keys.drop_last();
        let n = rest.len() as int;
        law_first_unowned(group, range, rest);
        assert forall|i: int| 0 <= i < n implies keys[i] == #[trigger] rest[i] by {}
        match first_unowned(group, range, rest) {
            Some(k) => {
                let i = choose|i: int|
                    {
                        &&& 0 <= i < rest.len()
                        &&& (#[trigger] rest[i]) == k
                        &&& !(k.0.0 == group && range.has(k.1))
                        &&& forall|j: int|
                            0 <= j < i ==> (#[trigger] rest[j]).0.0 == group && range.has(rest[j].1)
                    };
                assert(keys[i] == k);
                assert forall|j: int| 0 <= j < i implies (#[trigger] keys[j]).0.0 == group
                    && range.has(keys[j].1) by {
                    assert(rest[j] == keys[j]);
                }
            },
            None => {
                assert forall|j: int| 0 <= j < n implies (#[trigger] keys[j]).0.0 == group
                    && range.has(keys[j].1) by {
                    assert(rest[j] == keys[j]);
                }
                assert(keys[n] == keys.last());
            },
        }
    }
}

/// A write is kept waiting exactly where a mutation is pending at one of its keys that holds values,
/// and it waits for the transaction that left the first of them.
pub proof fn law_first_conflict(keys: Seq<KeyView>, pending: Seq<Stored>)
    requires
        keys.len() <= pending.len(),
    ensures
        first_conflict(keys, pending) is None <==> forall|i: int|
            0 <= i < keys.len() ==> clear(#[trigger] keys[i], pending[i]),
        first_conflict(keys, pending) matches Some(t) ==> exists|i: int|
            {
                &&& 0 <= i < keys.len()
                &&& !clear(#[trigger] keys[i], pending[i])
                &&& pending[i] matches Some((_, RevisionValue::Regular(b))) && t == Txid::of(
                    b@.take(TXID_LEN as int),
                )
                &&& forall|j: int| 0 <= j < i ==> clear(#[trigger] keys[j], pending[j])
            },
    decreases keys.len(),
{
    if keys.len() > 0 {
        let rest = keys.drop_last();
        let n = rest.len() as int;
        law_first_conflict(rest, pending);
        assert forall|i: int| 0 <= i < n implies keys[i] == #[trigger] rest[i] by {}
        match first_conflict(rest, pending) {
            Some(t) => {
                let i = choose|i: int|
                    {
                        &&& 0 <= i < rest.len()
                        &&& !clear(#[trigger] rest[i], pending[i])
                        &&& pending[i] matches Some((_, RevisionValue::Regular(b))) && t == Txid::of(
                            b@.take(TXID_LEN as int),
                        )
                        &&& forall|j: int| 0 <= j < i ==> clear(#[trigger] rest[j], pending[j])
                    };
                assert(!clear(keys[i], pending[i]));
                assert forall|j: int| 0 <= j < i implies clear(#[trigger] keys[j], pending[j]) by {
                    assert(rest[j] == keys[j]);
                }
            },
            None => {
                assert forall|j: int| 0 <= j < n implies clear(#[trigger] keys[j], pending[j]) by {
                    assert(rest[j] == keys[j]);
                }
                assert(keys[n] == keys.last());
                assert(has_pending(keys[n], pending[n]) == !clear(keys[n], pending[n]));
            },
        }
    }
}

/// Ending a history at the latest snapshot takes out the points in time after it, where the history
/// has no end of its own, and no others.
pub proof fn law_bounded_history(range: HistoryRange, latest: Timestamp, ts: Timestamp)
    ensures
        bounded_history(range, latest).has(ts) <==> match range {
            HistoryRange::All => ts.0 <= latest.0,
            HistoryRange::Since(min) => min.0 <= ts.0 <= latest.0,
            HistoryRange::Until(max) => ts.0 <= max.0,
            HistoryRange::Between(min, max) => min.0 <= ts.0 <= max.0,
        },
{
}

/// A history is refused exactly where a mutation is pending at the key at a time within it.
pub proof fn law_history_conflict(k: KeyView, range: HistoryRange, pending: Stored)
    ensures
        history_conflict(k, range, stored_view(pending)) is Some <==> !clear(k, pending)
            && range.has((pending->0).0),
        history_conflict(k, range, stored_view(pending)) matches Some(e) ==> in_the_way(pending, e),
{
}

/// A key counts as changed where something was stored at it after the point in time, a value or a
/// delete. Where nothing was ever stored, it did not change.
pub proof fn law_precondition(p: Precondition, latest: Stored)
    ensures
        match p {
            Precondition::NotChangedSince(_, _, since) => match latest {
                None => !violated(p, latest),
                Some((ts, RevisionValue::Regular(_))) => violated(p, latest) == (ts.0 > since.0),
                Some((ts, RevisionValue::Tombstone)) => violated(p, latest) == (ts.0 > since.0),
            },
        },
{
}

/// A range of a history has its ends, and everything on the one side where only one is given.
pub proof fn law_history_range(min: Timestamp, max: Timestamp, ts: Timestamp)
    ensures
        HistoryRange::All.has(ts),
        HistoryRange::Since(min).has(ts) <==> ts.0 >= min.0,
        HistoryRange::Until(max).has(ts) <==> ts.0 <= max.0,
        HistoryRange::Between(min, max).has(ts) <==> HistoryRange::Since(min).has(ts)
            && HistoryRange::Until(max).has(ts),
{
}

} // verus!
