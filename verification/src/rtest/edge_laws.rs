//! What histories are bound to show: no read, commit or start goes without its edges.

use vstd::prelude::*;

use super::append_laws::{commits, event_at, finishes_tx, starts_tx};
use super::workload_append::{
    all_events, decoded_list, follows, graph_of, history_results, is_recent, list_edges, numbers,
    orders, results_of, seq_of, starts, survey_history, survey_of, timeline_of, with_read,
    with_real_time, EdgeType, EventSeq, History, HistoryError, HistoryItem, Survey, TxResultView,
    Txid, WorkloadAppend, WriteResult,
};
use crate::types::data::Timestamp;
use crate::util::bytes::{be_bytes, be_value, lemma_byte_range, lemma_value_of_bytes};

verus! {

/// The thread of the event that comes at some point.
pub open spec fn thread_at(hs: Seq<History>, p: Seq<usize>, i: int) -> int {
    all_events(hs)[p[i] as int].0
}

/// Each event of each thread is among all events, once, and nothing else is.
pub proof fn law_all_events(hs: Seq<History>)
    ensures
        forall|n: int|
            0 <= n < all_events(hs).len() ==> 0 <= (#[trigger] all_events(hs)[n]).0 < hs.len()
                && 0 <= all_events(hs)[n].1 < hs[all_events(hs)[n].0]@.len(),
        forall|t: int, i: int|
            0 <= t < hs.len() && 0 <= i < hs[t]@.len() ==> #[trigger] all_events(hs).contains(
                (t, i),
            ),
        all_events(hs).no_duplicates(),
    decreases hs.len(),
{
    if hs.len() > 0 {
        let t = hs.len() - 1;
        let front = hs.drop_last();
        let before = all_events(front);
        let all = all_events(hs);
        let own = Seq::new(hs[t]@.len(), |i: int| (t, i));
        law_all_events(front);
        assert(all == before + own);
        assert forall|n: int| 0 <= n < all.len() implies 0 <= (#[trigger] all[n]).0 < hs.len()
            && 0 <= all[n].1 < hs[all[n].0]@.len() by {
            if n < before.len() {
                assert(all[n] == before[n]);
            } else {
                assert(all[n] == own[n - before.len()]);
            }
        }
        assert forall|u: int, i: int| 0 <= u < hs.len() && 0 <= i < hs[u]@.len() implies
            #[trigger] all.contains((u, i)) by {
            if u < t {
                assert(front[u] == hs[u]);
                assert(before.contains((u, i)));
                let n = choose|n: int| 0 <= n < before.len() && before[n] == (u, i);
                assert(all[n] == (u, i));
            } else {
                assert(all[before.len() + i] == (u, i));
            }
        }
        assert forall|a: int, b: int| 0 <= a < all.len() && 0 <= b < all.len() && a != b implies
            all[a] != all[b] by {
            if a < before.len() {
                assert(all[a] == before[a]);
            } else {
                assert(all[a] == own[a - before.len()]);
            }
            if b < before.len() {
                assert(all[b] == before[b]);
            } else {
                assert(all[b] == own[b - before.len()]);
            }
        }
    }
}

/// Events are put in order by their places alone: of two events, the one whose place is before that
/// of the other comes first.
pub proof fn law_events_in_order(hs: Seq<History>, p: Seq<usize>, i: int, j: int)
    requires
        orders(hs, p),
        0 <= i < p.len(),
        0 <= j < p.len(),
        seq_of(hs, all_events(hs)[p[i] as int]) < seq_of(hs, all_events(hs)[p[j] as int]),
    ensures
        i < j,
{
    if j < i {
        assert(p[j] < all_events(hs).len());
        assert(p[i] < all_events(hs).len());
    }
}

/// Edges that were shown stay.
proof fn lemma_edges_stay(hs: Seq<History>, p: Seq<usize>, n: int, m: int)
    requires
        0 <= n <= m <= p.len(),
        timeline_of(hs, survey_of(hs), p, m) is Ok,
    ensures
        timeline_of(hs, survey_of(hs), p, n) is Ok,
        forall|e: (u64, u64)| #[trigger]
            (timeline_of(hs, survey_of(hs), p, n)->Ok_0).edges.contains_key(e) ==> (timeline_of(
                hs,
                survey_of(hs),
                p,
                m,
            )->Ok_0).edges.contains_key(e),
    decreases m,
{
    if n < m {
        lemma_edges_stay(hs, p, n, m - 1);
    }
}

proof fn lemma_graph(hs: Seq<History>, p: Seq<usize>, n: int)
    requires
        0 <= n <= p.len(),
        graph_of(hs, p) is Ok,
    ensures
        timeline_of(hs, survey_of(hs), p, n) is Ok,
        forall|e: (u64, u64)| #[trigger]
            (timeline_of(hs, survey_of(hs), p, n)->Ok_0).edges.contains_key(e) ==> (graph_of(
                hs,
                p,
            )->Ok_0).contains_key(e),
{
    lemma_edges_stay(hs, p, n, p.len() as int);
}

/// A transaction depends on the one that appended right before it to the same list.
pub proof fn law_append_depends_on_last(hs: Seq<History>, p: Seq<usize>, list: u64, i: int)
    requires
        graph_of(hs, p) is Ok,
        survey_of(hs).longests.contains_key(list),
        0 <= i < survey_of(hs).longests[list].len() - 1,
    ensures
        (graph_of(hs, p)->Ok_0).contains_key(
            (survey_of(hs).longests[list][i + 1], survey_of(hs).longests[list][i]),
        ),
        (timeline_of(hs, survey_of(hs), p, 0)->Ok_0).edges[(
            survey_of(hs).longests[list][i + 1],
            survey_of(hs).longests[list][i],
        )] == EdgeType::WriteWrite,
{
    let s = survey_of(hs);
    let e = (s.longests[list][i + 1], s.longests[list][i]);
    assert(follows(s.longests, list, i, e));
    assert(list_edges(s.longests).contains_key(e));
    lemma_graph(hs, p, 0);
    assert((timeline_of(hs, s, p, 0)->Ok_0).edges.contains_key(e));
}

/// A read depends on the transaction that wrote the last item that it saw, and the transaction that
/// wrote the item behind that depends on the read.
pub proof fn law_read_has_edges(hs: Seq<History>, p: Seq<usize>, j: int)
    requires
        graph_of(hs, p) is Ok,
        0 <= j < p.len(),
    ensures
        event_at(hs, p, j) matches HistoryItem::FinishRead(t, _, list, read) ==> {
            let longest = survey_of(hs).longest(list.0);
            let edges = (timeline_of(hs, survey_of(hs), p, j + 1)->Ok_0).edges;
            &&& read@.len() > 0 ==> (graph_of(hs, p)->Ok_0).contains_key((t.0, read@.last().0))
            &&& longest.len() > read@.len() ==> (graph_of(hs, p)->Ok_0).contains_key(
                (longest[read@.len() as int], t.0),
            ) && edges[(longest[read@.len() as int], t.0)] == EdgeType::ReadWrite
            &&& read@.len() > 0 && !(longest.len() > read@.len() && read@.last().0 == t.0
                && longest[read@.len() as int] == t.0) ==> edges[(t.0, read@.last().0)]
                == EdgeType::WriteRead
        },
{
    let s = survey_of(hs);
    lemma_graph(hs, p, j + 1);
    lemma_graph(hs, p, j);
    if let HistoryItem::FinishRead(t, _, list, read) = event_at(hs, p, j) {
        let before = timeline_of(hs, s, p, j)->Ok_0;
        let now = timeline_of(hs, s, p, j + 1)->Ok_0;
        let longest = s.longest(list.0);
        assert(now.edges == with_read(before.edges, t.0, numbers(read@), longest));
        if read@.len() > 0 {
            assert(numbers(read@).last() == read@.last().0);
            assert(now.edges.contains_key((t.0, read@.last().0)));
        }
        if longest.len() > read@.len() {
            assert(now.edges.contains_key((longest[read@.len() as int], t.0)));
        }
    }
}

/// The transaction that a thread finished last is known.
proof fn lemma_recent_is_last(hs: Seq<History>, p: Seq<usize>, n: int, i: int, b: u64)
    requires
        orders(hs, p),
        hs.len() <= u64::MAX,
        0 <= i < n <= p.len(),
        timeline_of(hs, survey_of(hs), p, n) is Ok,
        finishes_tx(event_at(hs, p, i), b),
        forall|k: int, x: u64|
            i < k < n && thread_at(hs, p, k) == thread_at(hs, p, i) ==> !#[trigger] finishes_tx(
                event_at(hs, p, k),
                x,
            ),
    ensures
        ({
            let recent = (timeline_of(hs, survey_of(hs), p, n)->Ok_0).recent;
            let thread = thread_at(hs, p, i) as u64;
            recent.contains_key(thread) && recent[thread] == b
        }),
    decreases n,
{
    let s = survey_of(hs);
    law_all_events(hs);
    assert(p[i] < all_events(hs).len());
    assert(p[n - 1] < all_events(hs).len());
    lemma_edges_stay(hs, p, n - 1, n);
    let before = timeline_of(hs, s, p, n - 1)->Ok_0;
    let now = timeline_of(hs, s, p, n)->Ok_0;
    let e = all_events(hs)[p[n - 1] as int];
    assert(event_at(hs, p, n - 1) == hs[e.0]@[e.1].1);
    if i < n - 1 {
        lemma_recent_is_last(hs, p, n - 1, i, b);
        if e.0 == thread_at(hs, p, i) {
            match event_at(hs, p, n - 1) {
                HistoryItem::FinishRead(t, _, _, _) => {
                    assert(finishes_tx(event_at(hs, p, n - 1), t.0));
                },
                HistoryItem::Commit(t, _, _) => {
                    assert(finishes_tx(event_at(hs, p, n - 1), t.0));
                },
                HistoryItem::Abort(t) => {
                    assert(finishes_tx(event_at(hs, p, n - 1), t.0));
                },
                _ => {},
            }
        } else {
            assert(e.0 as u64 != thread_at(hs, p, i) as u64);
        }
    }
}

/// A transaction depends on the one that each thread finished last before it started.
pub proof fn law_start_has_edges(
    hs: Seq<History>,
    p: Seq<usize>,
    i: int,
    j: int,
    a: u64,
    b: u64,
)
    requires
        orders(hs, p),
        hs.len() <= u64::MAX,
        graph_of(hs, p) is Ok,
        0 <= i < j < p.len(),
        finishes_tx(event_at(hs, p, i), b),
        starts_tx(event_at(hs, p, j), a),
        forall|k: int, x: u64|
            i < k < j && thread_at(hs, p, k) == thread_at(hs, p, i) ==> !#[trigger] finishes_tx(
                event_at(hs, p, k),
                x,
            ),
    ensures
        (graph_of(hs, p)->Ok_0).contains_key((a, b)),
        (timeline_of(hs, survey_of(hs), p, j + 1)->Ok_0).edges[(a, b)] == EdgeType::RealTime,
{
    let s = survey_of(hs);
    lemma_graph(hs, p, j + 1);
    lemma_graph(hs, p, j);
    lemma_recent_is_last(hs, p, j, i, b);
    let before = timeline_of(hs, s, p, j)->Ok_0;
    let now = timeline_of(hs, s, p, j + 1)->Ok_0;
    assert(is_recent(before.recent, b)) by {
        assert(before.recent.contains_key(thread_at(hs, p, i) as u64));
    }
    assert(now.edges == with_real_time(before.edges, before.recent, a));
    assert(now.edges.contains_key((a, b)));
}

/// The commit to a list with the highest timestamp is known, the first of them where there are
/// several.
proof fn lemma_highest_is_first(
    hs: Seq<History>,
    p: Seq<usize>,
    n: int,
    i: int,
    b: u64,
    ts: Timestamp,
    list: u64,
)
    requires
        0 <= i < n <= p.len(),
        timeline_of(hs, survey_of(hs), p, n) is Ok,
        commits(event_at(hs, p, i), b, ts, list),
        forall|k: int, x: u64, y: Timestamp|
            0 <= k < n && #[trigger] commits(event_at(hs, p, k), x, y, list) ==> y.0 <= ts.0 && (k
                < i ==> y.0 < ts.0),
    ensures
        ({
            let highest = (timeline_of(hs, survey_of(hs), p, n)->Ok_0).highest;
            highest.contains_key(list) && highest[list] == (ts, b)
        }),
    decreases n,
{
    let s = survey_of(hs);
    lemma_edges_stay(hs, p, n - 1, n);
    let before = timeline_of(hs, s, p, n - 1)->Ok_0;
    let e = all_events(hs)[p[n - 1] as int];
    assert(event_at(hs, p, n - 1) == hs[e.0]@[e.1].1);
    if i < n - 1 {
        lemma_highest_is_first(hs, p, n - 1, i, b, ts, list);
        if let HistoryItem::Commit(t, y, l) = event_at(hs, p, n - 1) {
            assert(commits(event_at(hs, p, n - 1), t.0, y, l.0));
        }
    } else {
        if before.highest.contains_key(list) {
            lemma_highest_grounded(hs, p, n - 1, list);
            let k = choose|k: int|
                0 <= k < n - 1 && #[trigger] commits(
                    event_at(hs, p, k),
                    before.highest[list].1,
                    before.highest[list].0,
                    list,
                );
            assert(commits(
                event_at(hs, p, k),
                before.highest[list].1,
                before.highest[list].0,
                list,
            ));
        }
    }
}

proof fn lemma_highest_grounded(hs: Seq<History>, p: Seq<usize>, n: int, list: u64)
    requires
        0 <= n <= p.len(),
        timeline_of(hs, survey_of(hs), p, n) is Ok,
        (timeline_of(hs, survey_of(hs), p, n)->Ok_0).highest.contains_key(list),
    ensures
        ({
            let highest = (timeline_of(hs, survey_of(hs), p, n)->Ok_0).highest;
            exists|k: int|
                0 <= k < n && #[trigger] commits(
                    event_at(hs, p, k),
                    highest[list].1,
                    highest[list].0,
                    list,
                )
        }),
    decreases n,
{
    let s = survey_of(hs);
    if n > 0 {
        lemma_edges_stay(hs, p, n - 1, n);
        let before = timeline_of(hs, s, p, n - 1)->Ok_0;
        let now = timeline_of(hs, s, p, n)->Ok_0;
        let e = all_events(hs)[p[n - 1] as int];
        assert(event_at(hs, p, n - 1) == hs[e.0]@[e.1].1);
        if before.highest.contains_key(list) {
            lemma_highest_grounded(hs, p, n - 1, list);
        }
        if before.highest.contains_key(list) && now.highest[list] == before.highest[list] {
            let k = choose|k: int|
                0 <= k < n - 1 && #[trigger] commits(
                    event_at(hs, p, k),
                    before.highest[list].1,
                    before.highest[list].0,
                    list,
                );
            assert(commits(event_at(hs, p, k), now.highest[list].1, now.highest[list].0, list));
        } else {
            assert(commits(
                event_at(hs, p, n - 1),
                now.highest[list].1,
                now.highest[list].0,
                list,
            ));
        }
    }
}

/// A commit to a list depends on the commit to it with the highest timestamp before, where its own
/// is higher.
pub proof fn law_commit_has_edge(
    hs: Seq<History>,
    p: Seq<usize>,
    i: int,
    j: int,
    a: u64,
    b: u64,
    x: Timestamp,
    y: Timestamp,
    list: u64,
)
    requires
        graph_of(hs, p) is Ok,
        0 <= i < j < p.len(),
        commits(event_at(hs, p, i), b, x, list),
        commits(event_at(hs, p, j), a, y, list),
        x.0 < y.0,
        forall|k: int, t: u64, z: Timestamp|
            0 <= k < j && #[trigger] commits(event_at(hs, p, k), t, z, list) ==> z.0 <= x.0 && (k
                < i ==> z.0 < x.0),
    ensures
        (graph_of(hs, p)->Ok_0).contains_key((a, b)),
        (timeline_of(hs, survey_of(hs), p, j + 1)->Ok_0).edges[(a, b)]
            == EdgeType::SameKeyTimestamp,
{
    let s = survey_of(hs);
    lemma_graph(hs, p, j + 1);
    lemma_graph(hs, p, j);
    lemma_highest_is_first(hs, p, j, i, b, x, list);
    let now = timeline_of(hs, s, p, j + 1)->Ok_0;
    assert(now.edges.contains_key((a, b)));
}

/// Whether an event reads something that is no start of a list.
pub open spec fn reads_otherwise(item: HistoryItem, s: Survey) -> bool {
    item matches HistoryItem::FinishRead(_, _, list, read) && !(read@.len() <= s.longest(
        list.0,
    ).len() && forall|k: int|
        0 <= k < read@.len() ==> (#[trigger] read@[k]).0 == s.longest(list.0)[k])
}

proof fn lemma_reads_start(hs: Seq<History>, p: Seq<usize>, n: int)
    requires
        0 <= n <= p.len(),
    ensures
        timeline_of(hs, survey_of(hs), p, n) is Err <==> exists|j: int|
            0 <= j < n && reads_otherwise(#[trigger] event_at(hs, p, j), survey_of(hs)),
        timeline_of(hs, survey_of(hs), p, n) is Err ==> timeline_of(
            hs,
            survey_of(hs),
            p,
            n,
        )->Err_0 == HistoryError::LostOrDuplicateWrite,
    decreases n,
{
    let s = survey_of(hs);
    if n > 0 {
        lemma_reads_start(hs, p, n - 1);
        let item = event_at(hs, p, n - 1);
        if let HistoryItem::FinishRead(t, _, list, read) = item {
            let longest = s.longest(list.0);
            let r = numbers(read@);
            if starts(r, longest) {
                assert forall|k: int| 0 <= k < read@.len() implies (#[trigger] read@[k]).0
                    == longest[k] by {
                    assert(r[k] == longest.take(r.len() as int)[k]);
                }
            } else if !reads_otherwise(item, s) {
                assert(longest.take(r.len() as int) =~= r);
            }
        }
        if exists|j: int| 0 <= j < n && reads_otherwise(#[trigger] event_at(hs, p, j), s) {
            let j = choose|j: int| 0 <= j < n && reads_otherwise(#[trigger] event_at(hs, p, j), s);
            if j < n - 1 {
                assert(timeline_of(hs, s, p, n - 1) is Err);
            }
        }
    }
}

/// Histories are refused exactly where a transaction was read that cannot have appended, or else
/// where something was read that is no start of the longest version of its list.
pub proof fn law_refused_histories(hs: Seq<History>, p: Seq<usize>)
    ensures
        graph_of(hs, p) matches Err(HistoryError::GarbageRead) <==> exists|list: u64, i: int|
            survey_of(hs).longests.contains_key(list) && 0 <= i < survey_of(
                hs,
            ).longests[list].len() && !survey_of(hs).possible.contains(
                #[trigger] survey_of(hs).longests[list][i],
            ),
        graph_of(hs, p) is Ok <==> !(graph_of(hs, p) matches Err(HistoryError::GarbageRead))
            && forall|j: int|
            0 <= j < p.len() ==> !reads_otherwise(#[trigger] event_at(hs, p, j), survey_of(hs)),
{
    lemma_reads_start(hs, p, p.len() as int);
}

/// Whether a thread noted something, and nothing of a kind was noted after it, by the threads taken
/// one after the other.
pub open spec fn noted_last(
    hs: Seq<History>,
    t: int,
    i: int,
    later: spec_fn(HistoryItem) -> bool,
) -> bool {
    &&& 0 <= t < hs.len()
    &&& 0 <= i < hs[t]@.len()
    &&& forall|u: int, j: int|
        0 <= u < hs.len() && 0 <= j < hs[u]@.len() && (u > t || (u == t && j > i)) ==> !later(
            (#[trigger] hs[u]@[j]).1,
        )
}

/// Whether an event decides whether a transaction may have appended.
pub open spec fn decides_append(item: HistoryItem, x: u64) -> bool {
    match item {
        HistoryItem::StartAppend(t, _) => t.0 == x,
        HistoryItem::Abort(t) => t.0 == x,
        _ => false,
    }
}

proof fn lemma_survey_kept(s: Survey, h: Seq<(EventSeq, HistoryItem)>, x: u64)
    requires
        forall|j: int| 0 <= j < h.len() ==> !decides_append((#[trigger] h[j]).1, x),
    ensures
        survey_history(s, h).possible.contains(x) == s.possible.contains(x),
    decreases h.len(),
{
    if h.len() > 0 {
        assert(!decides_append(h[h.len() - 1].1, x));
        assert forall|j: int| 0 <= j < h.drop_last().len() implies !decides_append(
            (#[trigger] h.drop_last()[j]).1,
            x,
        ) by {
            assert(h.drop_last()[j] == h[j]);
        }
        lemma_survey_kept(s, h.drop_last(), x);
    }
}

proof fn lemma_survey_decided(s: Survey, h: Seq<(EventSeq, HistoryItem)>, i: int, x: u64)
    requires
        0 <= i < h.len(),
        decides_append(h[i].1, x),
        forall|j: int| i < j < h.len() ==> !decides_append((#[trigger] h[j]).1, x),
    ensures
        survey_history(s, h).possible.contains(x) == (h[i].1 is StartAppend),
    decreases h.len(),
{
    let front = h.drop_last();
    if i < h.len() - 1 {
        assert(!decides_append(h[h.len() - 1].1, x));
        assert(front[i] == h[i]);
        assert forall|j: int| i < j < front.len() implies !decides_append(
            (#[trigger] front[j]).1,
            x,
        ) by {
            assert(front[j] == h[j]);
        }
        lemma_survey_decided(s, front, i, x);
    }
}

/// A transaction may have appended exactly where the last that was noted of its append is that it
/// started, and not that it was aborted.
pub proof fn law_possible_appends(hs: Seq<History>, t: int, i: int, x: u64)
    ensures
        noted_last(hs, t, i, |item: HistoryItem| decides_append(item, x)) && decides_append(
            hs[t]@[i].1,
            x,
        ) ==> survey_of(hs).possible.contains(x) == (hs[t]@[i].1 is StartAppend),
        (forall|u: int, j: int|
            0 <= u < hs.len() && 0 <= j < hs[u]@.len() ==> !decides_append(
                (#[trigger] hs[u]@[j]).1,
                x,
            )) ==> !survey_of(hs).possible.contains(x),
    decreases hs.len(),
{
    if hs.len() > 0 {
        let n = hs.len() - 1;
        let front = hs.drop_last();
        let f = |item: HistoryItem| decides_append(item, x);
        law_possible_appends(front, t, i, x);
        if noted_last(hs, t, i, f) && decides_append(hs[t]@[i].1, x) {
            if t == n {
                assert forall|j: int| i < j < hs[n]@.len() implies !decides_append(
                    (#[trigger] hs[n]@[j]).1,
                    x,
                ) by {
                    assert(!f(hs[n]@[j].1));
                }
                lemma_survey_decided(survey_of(front), hs[n]@, i, x);
            } else {
                assert(front[t] == hs[t]);
                assert forall|u: int, j: int|
                    0 <= u < front.len() && 0 <= j < front[u]@.len() && (u > t || (u == t && j
                        > i)) implies !f((#[trigger] front[u]@[j]).1) by {
                    assert(front[u] == hs[u]);
                    assert(!f(hs[u]@[j].1));
                }
                assert(noted_last(front, t, i, f));
                assert forall|j: int| 0 <= j < hs[n]@.len() implies !decides_append(
                    (#[trigger] hs[n]@[j]).1,
                    x,
                ) by {
                    assert(!f(hs[n]@[j].1));
                }
                lemma_survey_kept(survey_of(front), hs[n]@, x);
            }
        }
        if forall|u: int, j: int|
            0 <= u < hs.len() && 0 <= j < hs[u]@.len() ==> !decides_append(
                (#[trigger] hs[u]@[j]).1,
                x,
            ) {
            assert forall|u: int, j: int|
                0 <= u < front.len() && 0 <= j < front[u]@.len() implies !decides_append(
                (#[trigger] front[u]@[j]).1,
                x,
            ) by {
                assert(front[u] == hs[u]);
                assert(!decides_append(hs[u]@[j].1, x));
            }
            lemma_survey_kept(survey_of(front), hs[n]@, x);
        }
    }
}

/// Whether an event reads a list.
pub open spec fn reads_list(item: HistoryItem, list: u64) -> bool {
    item matches HistoryItem::FinishRead(_, _, l, _) && l.0 == list
}

/// What an event reads.
pub open spec fn what_is_read(item: HistoryItem) -> Seq<Txid> {
    match item {
        HistoryItem::FinishRead(_, _, _, read) => read@,
        _ => Seq::empty(),
    }
}

/// The longest version of a list after a history: it is as long as before and as any that was read.
proof fn lemma_longest_history(s: Survey, h: Seq<(EventSeq, HistoryItem)>, list: u64)
    ensures
        s.longest(list).len() <= survey_history(s, h).longest(list).len(),
        s.longests.contains_key(list) ==> survey_history(s, h).longests.contains_key(list),
        forall|j: int|
            0 <= j < h.len() && reads_list((#[trigger] h[j]).1, list) ==> survey_history(
                s,
                h,
            ).longests.contains_key(list) && what_is_read(h[j].1).len() <= survey_history(
                s,
                h,
            ).longests[list].len(),
        survey_history(s, h).longests.contains_key(list) ==> (s.longests.contains_key(list)
            && survey_history(s, h).longests[list] == s.longests[list]) || exists|j: int|
            0 <= j < h.len() && reads_list((#[trigger] h[j]).1, list) && survey_history(
                s,
                h,
            ).longests[list] == numbers(what_is_read(h[j].1)),
    decreases h.len(),
{
    if h.len() > 0 {
        let front = h.drop_last();
        let m = h.len() - 1;
        lemma_longest_history(s, front, list);
        let before = survey_history(s, front);
        let now = survey_history(s, h);
        assert forall|j: int| 0 <= j < h.len() && reads_list((#[trigger] h[j]).1, list) implies
            now.longests.contains_key(list) && what_is_read(h[j].1).len()
            <= now.longests[list].len() by {
            if j < m {
                assert(front[j] == h[j]);
            }
        }
        if now.longests.contains_key(list) {
            if reads_list(h[m].1, list) && now.longests[list] == numbers(what_is_read(h[m].1)) {
            } else {
                assert(before.longests.contains_key(list) && now.longests[list]
                    == before.longests[list]);
                if !(s.longests.contains_key(list) && before.longests[list] == s.longests[list]) {
                    let j = choose|j: int|
                        0 <= j < front.len() && reads_list((#[trigger] front[j]).1, list)
                            && before.longests[list] == numbers(what_is_read(front[j].1));
                    assert(front[j] == h[j]);
                }
            }
        }
    }
}

/// The longest version of a list is one that was read, and none that was read is longer. A list that
/// was never read has none.
pub proof fn law_longest_version(hs: Seq<History>, list: u64)
    ensures
        forall|t: int, i: int|
            0 <= t < hs.len() && 0 <= i < hs[t]@.len() && reads_list(
                (#[trigger] hs[t]@[i]).1,
                list,
            ) ==> survey_of(hs).longests.contains_key(list) && what_is_read(hs[t]@[i].1).len()
                <= survey_of(hs).longests[list].len(),
        survey_of(hs).longests.contains_key(list) ==> exists|t: int, i: int|
            0 <= t < hs.len() && 0 <= i < hs[t]@.len() && reads_list(
                (#[trigger] hs[t]@[i]).1,
                list,
            ) && survey_of(hs).longests[list] == what_is_read(hs[t]@[i].1).map_values(
                |x: Txid| x.0,
            ),
    decreases hs.len(),
{
    if hs.len() > 0 {
        let n = hs.len() - 1;
        let front = hs.drop_last();
        let before = survey_of(front);
        let now = survey_of(hs);
        law_longest_version(front, list);
        lemma_longest_history(before, hs[n]@, list);
        assert forall|t: int, i: int|
            0 <= t < hs.len() && 0 <= i < hs[t]@.len() && reads_list(
                (#[trigger] hs[t]@[i]).1,
                list,
            ) implies now.longests.contains_key(list) && what_is_read(hs[t]@[i].1).len()
            <= now.longests[list].len() by {
            if t < n {
                assert(front[t] == hs[t]);
                assert(reads_list(front[t]@[i].1, list));
            }
        }
        if now.longests.contains_key(list) {
            if before.longests.contains_key(list) && now.longests[list] == before.longests[list] {
                let (t, i) = choose|t: int, i: int|
                    0 <= t < front.len() && 0 <= i < front[t]@.len() && reads_list(
                        (#[trigger] front[t]@[i]).1,
                        list,
                    ) && before.longests[list] == numbers(what_is_read(front[t]@[i].1));
                assert(front[t] == hs[t]);
                assert(reads_list(hs[t]@[i].1, list));
            } else {
                let i = choose|i: int|
                    0 <= i < hs[n]@.len() && reads_list((#[trigger] hs[n]@[i]).1, list)
                        && now.longests[list] == numbers(what_is_read(hs[n]@[i].1));
                assert(reads_list(hs[n]@[i].1, list));
            }
        }
    }
}

/// Whether an event shows what a transaction did.
pub open spec fn shows(item: HistoryItem, x: u64) -> bool {
    match item {
        HistoryItem::FinishRead(t, _, _, _) => t.0 == x,
        HistoryItem::StartAppend(t, _) => t.0 == x,
        _ => false,
    }
}

/// What an event shows of a transaction, given what comes next in its thread.
pub open spec fn shown(item: HistoryItem, next: Option<HistoryItem>) -> TxResultView {
    match item {
        HistoryItem::FinishRead(_, ts, list, read) => TxResultView::Read(
            ts,
            list,
            read@.map_values(|x: Txid| x.0),
        ),
        HistoryItem::StartAppend(t, list) => TxResultView::Append(
            t,
            list,
            match next {
                None => WriteResult::Unknown,
                Some(HistoryItem::Commit(_, ts, _)) => WriteResult::Commit(ts),
                Some(_) => WriteResult::Abort,
            },
        ),
        _ => arbitrary(),
    }
}

/// The event that comes next in a thread, if any.
pub open spec fn next_event(h: Seq<(EventSeq, HistoryItem)>, i: int) -> Option<HistoryItem> {
    if i + 1 < h.len() {
        Some(h[i + 1].1)
    } else {
        None
    }
}

proof fn lemma_history_shows(
    m: Map<u64, TxResultView>,
    txids: Set<u64>,
    h: Seq<(EventSeq, HistoryItem)>,
    n: int,
    x: u64,
)
    requires
        0 <= n <= h.len(),
    ensures
        !txids.contains(x) || (forall|j: int| 0 <= j < n ==> !shows((#[trigger] h[j]).1, x)) ==> (
        history_results(m, txids, h, n).contains_key(x) == m.contains_key(x) && history_results(
            m,
            txids,
            h,
            n,
        )[x] == m[x]),
        forall|i: int|
            0 <= i < n && txids.contains(x) && shows((#[trigger] h[i]).1, x) && (forall|j: int|
                i < j < n ==> !shows((#[trigger] h[j]).1, x)) ==> history_results(
                m,
                txids,
                h,
                n,
            ).contains_key(x) && history_results(m, txids, h, n)[x] == shown(
                h[i].1,
                next_event(h, i),
            ),
    decreases n,
{
    if n > 0 {
        lemma_history_shows(m, txids, h, n - 1, x);
        assert forall|i: int|
            0 <= i < n && txids.contains(x) && shows((#[trigger] h[i]).1, x) && (forall|j: int|
                i < j < n ==> !shows((#[trigger] h[j]).1, x)) implies history_results(
            m,
            txids,
            h,
            n,
        ).contains_key(x) && history_results(m, txids, h, n)[x] == shown(
            h[i].1,
            next_event(h, i),
        ) by {
            if i < n - 1 {
                assert(!shows(h[n - 1].1, x));
            }
        }
    }
}

/// What transactions did is what was noted last of them: of a read what was read, and of an append
/// whether the thread went on with its commit, with something else, or not at all. Nothing is told
/// of transactions that were not asked for, or of which nothing was noted.
pub proof fn law_results(txids: Set<u64>, hs: Seq<History>, t: int, i: int, x: u64)
    ensures
        txids.contains(x) && noted_last(hs, t, i, |item: HistoryItem| shows(item, x)) && shows(
            hs[t]@[i].1,
            x,
        ) ==> results_of(txids, hs).contains_key(x) && results_of(txids, hs)[x] == shown(
            hs[t]@[i].1,
            next_event(hs[t]@, i),
        ),
        !txids.contains(x) || (forall|u: int, j: int|
            0 <= u < hs.len() && 0 <= j < hs[u]@.len() ==> !shows((#[trigger] hs[u]@[j]).1, x))
            ==> !results_of(txids, hs).contains_key(x),
    decreases hs.len(),
{
    if hs.len() > 0 {
        let n = hs.len() - 1;
        let front = hs.drop_last();
        let f = |item: HistoryItem| shows(item, x);
        let m = results_of(txids, front);
        law_results(txids, front, t, i, x);
        lemma_history_shows(m, txids, hs[n]@, hs[n]@.len() as int, x);
        if txids.contains(x) && noted_last(hs, t, i, f) && shows(hs[t]@[i].1, x) {
            assert forall|j: int| 0 <= j < hs[n]@.len() && (t < n || j > i) implies !shows(
                (#[trigger] hs[n]@[j]).1,
                x,
            ) by {
                assert(!f(hs[n]@[j].1));
            }
            if t < n {
                assert(front[t] == hs[t]);
                assert forall|u: int, j: int|
                    0 <= u < front.len() && 0 <= j < front[u]@.len() && (u > t || (u == t && j
                        > i)) implies !f((#[trigger] front[u]@[j]).1) by {
                    assert(front[u] == hs[u]);
                    assert(!f(hs[u]@[j].1));
                }
                assert(noted_last(front, t, i, f));
            }
        }
        if forall|u: int, j: int|
            0 <= u < hs.len() && 0 <= j < hs[u]@.len() ==> !shows((#[trigger] hs[u]@[j]).1, x) {
            assert forall|u: int, j: int|
                0 <= u < front.len() && 0 <= j < front[u]@.len() implies !shows(
                (#[trigger] front[u]@[j]).1,
                x,
            ) by {
                assert(front[u] == hs[u]);
                assert(!shows(hs[u]@[j].1, x));
            }
            assert forall|j: int| 0 <= j < hs[n]@.len() implies !shows(
                (#[trigger] hs[n]@[j]).1,
                x,
            ) by {
                assert(!shows(hs[n]@[j].1, x));
            }
        }
    }
}

/// A list whose items are the encodings of transactions is read back as these, in order. A list with
/// an item of another length is not.
pub proof fn law_list_reads_back(values: Seq<Vec<u8>>, txids: Seq<u64>)
    ensures
        values.len() == txids.len() && (forall|i: int|
            0 <= i < values.len() ==> (#[trigger] values[i])@ == be_bytes(txids[i] as nat, 8))
            ==> decoded_list(values) == Some(txids),
        (exists|i: int| 0 <= i < values.len() && (#[trigger] values[i])@.len() != 8)
            ==> decoded_list(values) is None,
{
    if values.len() == txids.len() && (forall|i: int|
        0 <= i < values.len() ==> (#[trigger] values[i])@ == be_bytes(txids[i] as nat, 8)) {
        assert forall|i: int| 0 <= i < values.len() implies (#[trigger] values[i])@.len() == 8
            && be_value(values[i]@) as u64 == txids[i] by {
            lemma_u64_reads_back(txids[i]);
        }
        assert(decoded_list(values)->0 =~= txids);
    }
}

proof fn lemma_u64_reads_back(n: u64)
    ensures
        be_bytes(n as nat, 8).len() == 8,
        be_value(be_bytes(n as nat, 8)) == n,
{
    lemma_byte_range();
    lemma_value_of_bytes(n as nat, 8);
}

/// The length of a list that was written is read back, and a list of which nothing is stored is
/// empty.
pub proof fn law_length_reads_back(n: u64)
    ensures
        WorkloadAppend::stored_len(Some(be_bytes(n as nat, 8))) == n,
        WorkloadAppend::stored_len(None) == 0,
{
    lemma_u64_reads_back(n);
    assert(be_bytes(n as nat, 8).take(8) =~= be_bytes(n as nat, 8));
}

} // verus!
