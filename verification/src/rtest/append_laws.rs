//! What the dependencies between transactions say of histories.

use std::collections::HashMap;

use vstd::prelude::*;

use super::cycles::{is_cycle, law_ranked_graph_has_no_cycle};
use super::graph::{has_edge, labels};
use super::workload_append::{
    all_events, graph_of, is_recent, list_edges, numbers, orders, seq_of, survey_of, timeline_of,
    EdgeType, History, HistoryError, HistoryItem, Timeline,
};
use crate::types::data::Timestamp;
use crate::util::sort::{law_sorted_unique, strictly_sorted};

verus! {

/// There is one way to put events in order.
pub proof fn law_event_order_unique(hs: Seq<History>, p: Seq<usize>, q: Seq<usize>)
    requires
        orders(hs, p),
        orders(hs, q),
    ensures
        p == q,
{
    let events = all_events(hs);
    let lt = |a: usize, b: usize|
        seq_of(hs, events[a as int]) < seq_of(hs, events[b as int]) || (seq_of(
            hs,
            events[a as int],
        ) == seq_of(hs, events[b as int]) && a < b);
    assert(strictly_sorted(lt, p));
    assert(strictly_sorted(lt, q));
    law_sorted_unique(lt, p, q, events.len());
}

/// The event that comes at some point.
pub open spec fn event_at(hs: Seq<History>, p: Seq<usize>, i: int) -> HistoryItem {
    let e = all_events(hs)[p[i] as int];
    hs[e.0]@[e.1].1
}

/// Whether an event starts a transaction.
pub open spec fn starts_tx(item: HistoryItem, txid: u64) -> bool {
    match item {
        HistoryItem::StartRead(t) => t.0 == txid,
        HistoryItem::StartAppend(t, _) => t.0 == txid,
        _ => false,
    }
}

/// Whether an event finishes a transaction.
pub open spec fn finishes_tx(item: HistoryItem, txid: u64) -> bool {
    match item {
        HistoryItem::FinishRead(t, _, _, _) => t.0 == txid,
        HistoryItem::Commit(t, _, _) => t.0 == txid,
        HistoryItem::Abort(t) => t.0 == txid,
        _ => false,
    }
}

/// Whether an event commits an append to a list.
pub open spec fn commits(item: HistoryItem, txid: u64, ts: Timestamp, list: u64) -> bool {
    item matches HistoryItem::Commit(t, s, l) && t.0 == txid && s == ts && l.0 == list
}

/// Whether transactions could have taken effect one after the other, in the order of their ranks:
/// those that finished before others started came first, appends to a list came in the order in
/// which the list holds them and in that of their timestamps, and reads of a list came behind the
/// last item that they saw and before the next.
pub open spec fn explains(hs: Seq<History>, p: Seq<usize>, rank: spec_fn(u64) -> int) -> bool {
    let s = survey_of(hs);
    &&& forall|list: u64, i: int|
        s.longests.contains_key(list) && 0 <= i < s.longests[list].len() - 1 ==> rank(
            s.longests[list][i],
        ) < #[trigger] rank(s.longests[list][i + 1])
    &&& forall|i: int, j: int, a: u64, b: u64|
        0 <= i < j < p.len() && #[trigger] finishes_tx(event_at(hs, p, i), b)
            && #[trigger] starts_tx(event_at(hs, p, j), a) ==> rank(b) < rank(a)
    &&& forall|i: int, j: int, a: u64, b: u64, x: Timestamp, y: Timestamp, list: u64|
        0 <= i < j < p.len() && #[trigger] commits(event_at(hs, p, i), b, x, list)
            && #[trigger] commits(event_at(hs, p, j), a, y, list) && x.0 < y.0 ==> rank(b) < rank(a)
    &&& forall|i: int|
        0 <= i < p.len() ==> (#[trigger] event_at(hs, p, i) matches HistoryItem::FinishRead(
            t,
            _,
            list,
            read,
        ) ==> {
            &&& read@.len() > 0 ==> rank(read@.last().0) < rank(t.0)
            &&& s.longest(list.0).len() > read@.len() ==> rank(t.0) < rank(
                s.longest(list.0)[read@.len() as int],
            )
        })
}

/// Whether one of the first events finishes a transaction.
spec fn finished(hs: Seq<History>, p: Seq<usize>, n: int, txid: u64) -> bool {
    exists|i: int| 0 <= i < n && #[trigger] finishes_tx(event_at(hs, p, i), txid)
}

/// Whether one of the first events commits an append.
spec fn committed(
    hs: Seq<History>,
    p: Seq<usize>,
    n: int,
    txid: u64,
    ts: Timestamp,
    list: u64,
) -> bool {
    exists|i: int| 0 <= i < n && #[trigger] commits(event_at(hs, p, i), txid, ts, list)
}

/// What is kept of the first events is about those events.
spec fn grounded(hs: Seq<History>, p: Seq<usize>, n: int, t: Timeline) -> bool {
    &&& forall|x: u64| #[trigger]
        t.recent.contains_key(x) ==> finished(hs, p, n, t.recent[x])
    &&& forall|l: u64| #[trigger]
        t.highest.contains_key(l) ==> committed(hs, p, n, t.highest[l].1, t.highest[l].0, l)
}

proof fn lemma_grounded(hs: Seq<History>, p: Seq<usize>, n: int)
    requires
        0 <= n <= p.len(),
        timeline_of(hs, survey_of(hs), p, n) is Ok,
    ensures
        grounded(hs, p, n, timeline_of(hs, survey_of(hs), p, n)->Ok_0),
    decreases n,
{
    let s = survey_of(hs);
    if n > 0 {
        let before = timeline_of(hs, s, p, n - 1)->Ok_0;
        let now = timeline_of(hs, s, p, n)->Ok_0;
        lemma_grounded(hs, p, n - 1);
        assert forall|x: u64| #[trigger] now.recent.contains_key(x) implies finished(
            hs,
            p,
            n,
            now.recent[x],
        ) by {
            if before.recent.contains_key(x) && before.recent[x] == now.recent[x] {
                assert(finished(hs, p, n - 1, before.recent[x]));
                let i = choose|i: int|
                    0 <= i < n - 1 && #[trigger] finishes_tx(event_at(hs, p, i), before.recent[x]);
                assert(finishes_tx(event_at(hs, p, i), now.recent[x]));
            } else {
                assert(finishes_tx(event_at(hs, p, n - 1), now.recent[x]));
            }
        }
        assert forall|l: u64| #[trigger] now.highest.contains_key(l) implies committed(
            hs,
            p,
            n,
            now.highest[l].1,
            now.highest[l].0,
            l,
        ) by {
            if before.highest.contains_key(l) && before.highest[l] == now.highest[l] {
                let (ts, u) = before.highest[l];
                assert(committed(hs, p, n - 1, u, ts, l));
                let i = choose|i: int|
                    0 <= i < n - 1 && #[trigger] commits(event_at(hs, p, i), u, ts, l);
                assert(commits(event_at(hs, p, i), u, ts, l));
            } else {
                assert(commits(event_at(hs, p, n - 1), now.highest[l].1, now.highest[l].0, l));
            }
        }
    }
}

/// An edge in real time leads from a transaction to one that had finished when it started.
pub proof fn law_real_time_edges(hs: Seq<History>, p: Seq<usize>, n: int, a: u64, b: u64)
    requires
        0 <= n <= p.len(),
        timeline_of(hs, survey_of(hs), p, n) is Ok,
        (timeline_of(hs, survey_of(hs), p, n)->Ok_0).edges.contains_key((a, b)),
        (timeline_of(hs, survey_of(hs), p, n)->Ok_0).edges[(a, b)] == EdgeType::RealTime,
    ensures
        exists|i: int, j: int|
            0 <= i < j < n && #[trigger] finishes_tx(event_at(hs, p, i), b)
                && #[trigger] starts_tx(event_at(hs, p, j), a),
    decreases n,
{
    let s = survey_of(hs);
    if n > 0 {
        let before = timeline_of(hs, s, p, n - 1)->Ok_0;
        let item = event_at(hs, p, n - 1);
        if before.edges.contains_key((a, b)) && before.edges[(a, b)] == EdgeType::RealTime {
            law_real_time_edges(hs, p, n - 1, a, b);
            let (i, j) = choose|i: int, j: int|
                0 <= i < j < n - 1 && #[trigger] finishes_tx(event_at(hs, p, i), b)
                    && #[trigger] starts_tx(event_at(hs, p, j), a);
            assert(finishes_tx(event_at(hs, p, i), b) && starts_tx(event_at(hs, p, j), a));
        } else {
            lemma_grounded(hs, p, n - 1);
            assert(starts_tx(item, a) && is_recent(before.recent, b));
            let x = choose|x: u64| #[trigger]
                before.recent.contains_key(x) && before.recent[x] == b;
            assert(finished(hs, p, n - 1, b));
            let i = choose|i: int| 0 <= i < n - 1 && #[trigger] finishes_tx(event_at(hs, p, i), b);
            assert(finishes_tx(event_at(hs, p, i), b) && starts_tx(event_at(hs, p, n - 1), a));
        }
    }
}

/// Where an order explains the histories, every edge leads to a transaction of lower rank.
proof fn lemma_edges_fall(
    hs: Seq<History>,
    p: Seq<usize>,
    rank: spec_fn(u64) -> int,
    n: int,
    a: u64,
    b: u64,
)
    requires
        explains(hs, p, rank),
        0 <= n <= p.len(),
        timeline_of(hs, survey_of(hs), p, n) is Ok,
        (timeline_of(hs, survey_of(hs), p, n)->Ok_0).edges.contains_key((a, b)),
    ensures
        rank(a) > rank(b),
    decreases n,
{
    let s = survey_of(hs);
    if n == 0 {
        assert(list_edges(s.longests).contains_key((a, b)));
        let (list, i) = choose|list: u64, i: int|
            super::workload_append::follows(s.longests, list, i, (a, b));
        assert(rank(s.longests[list][i]) < rank(s.longests[list][i + 1]));
    } else {
        let before = timeline_of(hs, s, p, n - 1)->Ok_0;
        let item = event_at(hs, p, n - 1);
        lemma_grounded(hs, p, n - 1);
        if before.edges.contains_key((a, b)) {
            lemma_edges_fall(hs, p, rank, n - 1, a, b);
        } else {
            match item {
                HistoryItem::StartRead(t) => {
                    lemma_recent_before(hs, p, n - 1, before, b);
                    assert(starts_tx(event_at(hs, p, n - 1), a));
                },
                HistoryItem::StartAppend(t, _) => {
                    lemma_recent_before(hs, p, n - 1, before, b);
                    assert(starts_tx(event_at(hs, p, n - 1), a));
                },
                HistoryItem::Commit(t, ts, l) => {
                    let (x, u) = before.highest[l.0];
                    assert(committed(hs, p, n - 1, u, x, l.0));
                    let i = choose|i: int|
                        0 <= i < n - 1 && #[trigger] commits(event_at(hs, p, i), u, x, l.0);
                    assert(commits(event_at(hs, p, n - 1), t.0, ts, l.0));
                    assert(b == u && a == t.0);
                },
                HistoryItem::FinishRead(t, _, l, read) => {
                    let r = numbers(read@);
                    if read@.len() > 0 {
                        assert(r.last() == read@.last().0);
                    }
                    assert(event_at(hs, p, n - 1) == item);
                },
                HistoryItem::Abort(_) => {},
            }
        }
    }
}

proof fn lemma_recent_before(hs: Seq<History>, p: Seq<usize>, n: int, t: Timeline, b: u64)
    requires
        grounded(hs, p, n, t),
        is_recent(t.recent, b),
    ensures
        exists|i: int| 0 <= i < n && #[trigger] finishes_tx(event_at(hs, p, i), b),
{
    let x = choose|x: u64| #[trigger] t.recent.contains_key(x) && t.recent[x] == b;
    assert(finished(hs, p, n, t.recent[x]));
}

/// Transactions that could have taken effect one after the other have no cycle of dependencies: a
/// cycle shows that they did not.
pub proof fn law_explained_histories_have_no_cycle(
    hs: Seq<History>,
    p: Seq<usize>,
    rank: spec_fn(u64) -> int,
    m: Map<u64, HashMap<u64, EdgeType>>,
    c: Seq<u64>,
)
    requires
        explains(hs, p, rank),
        graph_of(hs, p) == Ok::<Map<(u64, u64), EdgeType>, HistoryError>(labels(m)),
    ensures
        !is_cycle(m, c),
{
    assert forall|a: u64, b: u64| #[trigger] has_edge(m, a, b) implies rank(a) > rank(b) by {
        assert(labels(m).contains_key((a, b)));
        lemma_edges_fall(hs, p, rank, p.len() as int, a, b);
    }
    law_ranked_graph_has_no_cycle(m, rank, c);
}

} // verus!
