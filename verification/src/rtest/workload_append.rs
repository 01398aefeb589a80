//! A workload that appends to lists and reads them, and the dependencies between its transactions.
//!
//! Each transaction appends its own number to a list, or reads a list. From what transactions
//! observed follows which came before which. If the transactions took effect one after the other,
//! there is no cycle in that.

use std::collections::{HashMap, HashSet};

use rand::Rng;
use vstd::prelude::*;

use super::graph::{all_lead_on, keys_of, labels, put_edge, Edges};
use crate::types::data::{KeyView, Mutation, MutationView, Muts, Precondition, Timestamp};
use crate::types::{ColoGroupId, KeyspaceId};
use crate::util::bytes::{
    append_bytes, be_bytes, be_value, le_value, lemma_bytes_of_value, lemma_le_value_injective,
    read_u64_be, u64_be, u64_le,
};
use crate::util::ordmap::OrdMap;
use crate::util::sort::{permutation, sort_indices, Ranking};

verus! {

/// A transaction of the workload.
#[derive(Clone, Copy, Debug, PartialEq, Eq, PartialOrd, Ord, Hash, Structural)]
pub struct Txid(pub u64);

/// Where an event stands among all events.
#[derive(Clone, Copy, Debug, PartialEq, Eq, PartialOrd, Ord, Structural)]
pub struct EventSeq(pub u64);

/// A list.
#[derive(Clone, Copy, Debug, PartialEq, Eq, PartialOrd, Ord, Hash, Structural)]
pub struct ListId(pub u64);

/// An item of a list.
#[derive(Clone, Copy, Debug, PartialEq, Eq, Structural)]
pub struct ListItem(pub ListId, pub u64);

/// How many lists there are.
pub const NUM_LISTS: u64 = 100;

impl Txid {
    pub fn encode(&self) -> (r: Vec<u8>)
        ensures
            r@ == be_bytes(self.0 as nat, 8),
            r@.len() == 8,
    {
        let mut w: Vec<u8> = Vec::new();
        let b = u64_be(self.0);
        append_bytes(&mut w, &b);
        proof {
            lemma_bytes_of_value(b@);
            assert(w@ =~= b@);
        }
        w
    }

    /// The transaction that bytes are the encoding of, if they have the right length.
    pub fn decode(b: &[u8]) -> (r: Option<Txid>)
        ensures
            r == if b@.len() == 8 {
                Some(Txid(be_value(b@) as u64))
            } else {
                None
            },
    {
        if b.len() != 8 {
            return None;
        }
        assert(b@.take(8) =~= b@);
        Some(Txid(read_u64_be(b)))
    }
}

impl ListId {
    /// The key of the list's length.
    pub fn to_key(&self) -> (r: Vec<u8>)
        ensures
            r@.len() == 8,
            le_value(r@) == self.0,
    {
        let mut key: Vec<u8> = Vec::new();
        let b = u64_le(self.0);
        append_bytes(&mut key, &b);
        assert(key@ =~= b@);
        key
    }
}

impl ListItem {
    /// The key of the item: its number, then zeros.
    pub fn to_key(&self) -> (r: Vec<u8>)
        ensures
            r@ == be_bytes(self.1 as nat, 8) + seq![0u8, 0u8, 0u8, 0u8, 0u8, 0u8, 0u8, 0u8],
    {
        let mut key: Vec<u8> = Vec::new();
        let b = u64_be(self.1);
        append_bytes(&mut key, &b);
        let zeros = [0u8, 0u8, 0u8, 0u8, 0u8, 0u8, 0u8, 0u8];
        append_bytes(&mut key, &zeros);
        proof {
            lemma_bytes_of_value(b@);
            assert(zeros@ =~= seq![0u8, 0u8, 0u8, 0u8, 0u8, 0u8, 0u8, 0u8]);
        }
        key
    }
}

/// Calls `rand::Rng::random_range` on the generator of the thread: a number below the bound. Which
/// one it is rests on chance.
#[verifier::external_body]
fn random_below(bound: u64) -> (r: u64)
    requires
        bound > 0,
    ensures
        r < bound,
{
    rand::rng().random_range(0..bound)
}

/// Where the workload keeps its data, and its counter.
pub struct WorkloadAppend {
    pub list_keyspace_id: KeyspaceId,
    pub list_item_keyspace_id: KeyspaceId,
    pub seq_gen: u64,
}

impl WorkloadAppend {
    pub fn new() -> (r: Self)
        ensures
            r.list_keyspace_id == KeyspaceId(ColoGroupId(1), 1),
            r.list_item_keyspace_id == KeyspaceId(ColoGroupId(1), 2),
            r.seq_gen == 0,
    {
        WorkloadAppend {
            list_keyspace_id: KeyspaceId(ColoGroupId(1), 1),
            list_item_keyspace_id: KeyspaceId(ColoGroupId(1), 2),
            seq_gen: 0,
        }
    }

    /// A transaction that no other call gave.
    pub fn new_txid(&mut self) -> (r: Txid)
        requires
            old(self).seq_gen < u64::MAX,
        ensures
            r.0 == old(self).seq_gen,
            *final(self) == (WorkloadAppend {
                seq_gen: (old(self).seq_gen + 1) as u64,
                ..*old(self)
            }),
    {
        let n: u64 = self.seq_gen;
        self.seq_gen = n + 1;
        Txid(n)
    }

    /// The place of the next event.
    pub fn next_seq(&mut self) -> (r: EventSeq)
        requires
            old(self).seq_gen < u64::MAX,
        ensures
            r.0 == old(self).seq_gen,
            *final(self) == (WorkloadAppend {
                seq_gen: (old(self).seq_gen + 1) as u64,
                ..*old(self)
            }),
    {
        let n: u64 = self.seq_gen;
        self.seq_gen = n + 1;
        EventSeq(n)
    }

    /// One of the lists.
    pub fn choose_list(&self) -> (r: ListId)
        ensures
            r.0 < NUM_LISTS,
    {
        ListId(random_below(NUM_LISTS))
    }

    /// The length that a list has, given what is stored of it.
    pub open spec fn stored_len(value: Option<Seq<u8>>) -> nat {
        match value {
            Some(b) => be_value(b.take(8)),
            None => 0,
        }
    }

    /// What appending to a list writes: the list's new length, and the transaction as its last
    /// item, if the list did not change since its length was read.
    pub fn append(
        &self,
        txid: Txid,
        list_id: ListId,
        read_ts: Timestamp,
        list_value: &Option<Vec<u8>>,
    ) -> (r: (Vec<Precondition>, Muts))
        requires
            list_value matches Some(v) ==> v@.len() >= 8 && be_value(v@.take(8)) < u64::MAX,
        ensures
            ({
                let len = Self::stored_len(
                    match *list_value {
                        Some(v) => Some(v@),
                        None => None,
                    },
                ) + 1;
                let item_key = be_bytes(len, 8) + seq![0u8, 0u8, 0u8, 0u8, 0u8, 0u8, 0u8, 0u8];
                &&& r.0@.len() == 1
                &&& r.0@[0].key_view().0 == self.list_keyspace_id
                &&& le_value(r.0@[0].key_view().1) == list_id.0
                &&& r.0@[0].key_view().1.len() == 8
                &&& r.0@[0].since() == read_ts
                &&& r.1.wf()
                &&& forall|k: KeyView| #[trigger]
                    r.1@.contains_key(k) <==> k == r.0@[0].key_view() || k == (
                        self.list_item_keyspace_id,
                        item_key,
                    )
                &&& self.list_keyspace_id != self.list_item_keyspace_id ==> r.1@[r.0@[0].key_view()]@
                    == MutationView::Put(be_bytes(len, 8))
                &&& r.1@[(self.list_item_keyspace_id, item_key)]@ == MutationView::Put(
                    be_bytes(txid.0 as nat, 8),
                )
            }),
    {
        let len: u64 = match list_value {
            Some(v) => read_u64_be(v.as_slice()),
            None => 0,
        };
        let new_len: u64 = len + 1;
        let new_len_value = Txid(new_len).encode();
        let list_item = ListItem(list_id, new_len);
        let list_key = list_id.to_key();
        let ghost key = list_key@;
        let mut preconds: Vec<Precondition> = Vec::new();
        preconds.push(
            Precondition::NotChangedSince(self.list_keyspace_id, list_id.to_key(), read_ts),
        );
        proof {
            lemma_le_value_injective(key, preconds@[0].key_view().1);
        }
        let mut muts: Muts = OrdMap::new();
        muts.insert((self.list_keyspace_id, list_key), Mutation::Put(new_len_value));
        muts.insert((self.list_item_keyspace_id, list_item.to_key()), Mutation::Put(txid.encode()));
        (preconds, muts)
    }
}

/// What a thread of the workload did or saw.
#[derive(Debug)]
pub enum HistoryItem {
    StartRead(Txid),
    FinishRead(Txid, Timestamp, ListId, Vec<Txid>),
    StartAppend(Txid, ListId),
    Abort(Txid),
    Commit(Txid, Timestamp, ListId),
}

/// What a thread of the workload did and saw, one after the other.
pub type History = Vec<(EventSeq, HistoryItem)>;

/// How a transaction T2 depends on a transaction T1. The graph has an edge from T2 to T1.
#[derive(Clone, Copy, Debug, PartialEq, Eq, Structural)]
pub enum EdgeType {
    /// T1 finished before T2 started.
    RealTime,
    /// T1 executed at some timestamp and T2 executed at a higher timestamp on the same key.
    SameKeyTimestamp,
    /// T1 wrote a version and T2 wrote the next version.
    WriteWrite,
    /// T1 wrote a version and T2 read that version.
    WriteRead,
    /// T1 read a version and T2 installed a later version.
    ReadWrite,
}

/// Why histories cannot come from appends and reads that take effect one after the other.
#[derive(Clone, Copy, Debug, PartialEq, Eq, Structural)]
pub enum HistoryError {
    /// A transaction was read that did not append, or that was aborted.
    GarbageRead,
    /// A list was read that is no start of the longest that was read.
    LostOrDuplicateWrite,
}

/// How an operation of the workload ended.
#[derive(Debug)]
pub enum Reply<T> {
    Done(T),
    Failed,
    TimedOut,
}

impl WorkloadAppend {
    /// Starts an append or a read of a list. Returns its transaction and the event to note.
    pub fn start(&mut self, appends: bool, list_id: ListId) -> (r: (Txid, (EventSeq, HistoryItem)))
        requires
            old(self).seq_gen < u64::MAX - 1,
        ensures
            r.0.0 == old(self).seq_gen,
            (r.1.0).0 == old(self).seq_gen + 1,
            r.1.1 == if appends {
                HistoryItem::StartAppend(r.0, list_id)
            } else {
                HistoryItem::StartRead(r.0)
            },
            *final(self) == (WorkloadAppend {
                seq_gen: (old(self).seq_gen + 2) as u64,
                ..*old(self)
            }),
    {
        let txid = self.new_txid();
        let seq = self.next_seq();
        let item = if appends {
            HistoryItem::StartAppend(txid, list_id)
        } else {
            HistoryItem::StartRead(txid)
        };
        (txid, (seq, item))
    }

    /// Ends an append. Returns the event to note, if any. A thread whose append did not end well
    /// goes no further, since the append may still take effect.
    pub fn finish_append(&mut self, txid: Txid, list_id: ListId, reply: Reply<Timestamp>) -> (r: (
        Option<(EventSeq, HistoryItem)>,
        bool,
    ))
        requires
            old(self).seq_gen < u64::MAX,
        ensures
            match reply {
                Reply::Done(ts) => {
                    &&& r.0 == Some(
                        (EventSeq(old(self).seq_gen), HistoryItem::Commit(txid, ts, list_id)),
                    )
                    &&& r.1
                    &&& *final(self) == (WorkloadAppend {
                        seq_gen: (old(self).seq_gen + 1) as u64,
                        ..*old(self)
                    })
                },
                _ => r.0 is None && !r.1 && *final(self) == *old(self),
            },
    {
        match reply {
            Reply::Done(ts) => {
                let seq = self.next_seq();
                (Some((seq, HistoryItem::Commit(txid, ts, list_id))), true)
            },
            _ => (None, false),
        }
    }

    /// Ends a read. Returns the event to note, if any, and whether the thread goes on.
    pub fn finish_read(
        &mut self,
        txid: Txid,
        list_id: ListId,
        reply: Reply<(Timestamp, Vec<Txid>)>,
    ) -> (r: (Option<(EventSeq, HistoryItem)>, bool))
        requires
            old(self).seq_gen < u64::MAX,
        ensures
            match reply {
                Reply::Done((ts, list)) => r.0 == Some(
                    (
                        EventSeq(old(self).seq_gen),
                        HistoryItem::FinishRead(txid, ts, list_id, list),
                    ),
                ) && r.1,
                Reply::Failed => r.0 == Some(
                    (EventSeq(old(self).seq_gen), HistoryItem::Abort(txid)),
                ) && r.1,
                Reply::TimedOut => r.0 is None && !r.1,
            },
            *final(self) == (WorkloadAppend {
                seq_gen: if reply is TimedOut {
                    old(self).seq_gen
                } else {
                    (old(self).seq_gen + 1) as u64
                },
                ..*old(self)
            }),
    {
        match reply {
            Reply::Done((ts, list)) => {
                let seq = self.next_seq();
                (Some((seq, HistoryItem::FinishRead(txid, ts, list_id, list))), true)
            },
            Reply::Failed => {
                let seq = self.next_seq();
                (Some((seq, HistoryItem::Abort(txid))), true)
            },
            Reply::TimedOut => (None, false),
        }
    }
}

/// The numbers of transactions.
pub open spec fn numbers(s: Seq<Txid>) -> Seq<u64> {
    s.map_values(|t: Txid| t.0)
}

/// What the histories say as a whole: the transactions that may have appended, and for each list
/// the longest version that was read, the last one where there are several.
pub struct Survey {
    pub possible: Set<u64>,
    pub longests: Map<u64, Seq<u64>>,
}

impl Survey {
    pub open spec fn longest(self, list: u64) -> Seq<u64> {
        if self.longests.contains_key(list) {
            self.longests[list]
        } else {
            Seq::empty()
        }
    }

    pub open spec fn with(self, item: HistoryItem) -> Survey {
        match item {
            HistoryItem::StartAppend(txid, _) => Survey {
                possible: self.possible.insert(txid.0),
                ..self
            },
            HistoryItem::Abort(txid) => Survey { possible: self.possible.remove(txid.0), ..self },
            HistoryItem::FinishRead(_, _, list_id, txids) => if txids@.len() >= self.longest(
                list_id.0,
            ).len() {
                Survey { longests: self.longests.insert(list_id.0, numbers(txids@)), ..self }
            } else {
                self
            },
            _ => self,
        }
    }
}

pub open spec fn survey_history(s: Survey, h: Seq<(EventSeq, HistoryItem)>) -> Survey
    decreases h.len(),
{
    if h.len() == 0 {
        s
    } else {
        survey_history(s, h.drop_last()).with(h.last().1)
    }
}

pub open spec fn survey_of(hs: Seq<History>) -> Survey
    decreases hs.len(),
{
    if hs.len() == 0 {
        Survey { possible: Set::empty(), longests: Map::empty() }
    } else {
        survey_history(survey_of(hs.drop_last()), hs.last()@)
    }
}

spec fn survey_view(possible: HashSet<u64>, longests: HashMap<u64, Vec<Txid>>) -> Survey {
    Survey { possible: possible@, longests: longests@.map_values(|v: Vec<Txid>| numbers(v@)) }
}

fn copy_txids(v: &Vec<Txid>) -> (r: Vec<Txid>)
    ensures
        r@ == v@,
{
    let mut r: Vec<Txid> = Vec::new();
    let mut i: usize = 0;
    while i < v.len()
        invariant
            i <= v@.len(),
            r@ == v@.take(i as int),
        decreases v@.len() - i,
    {
        r.push(v[i]);
        i += 1;
        assert(r@ =~= v@.take(i as int));
    }
    assert(v@.take(i as int) =~= v@);
    r
}

fn survey(hs: &Vec<History>) -> (r: (HashSet<u64>, HashMap<u64, Vec<Txid>>))
    ensures
        survey_view(r.0, r.1) == survey_of(hs@),
{
    let mut possible: HashSet<u64> = HashSet::new();
    let mut longests: HashMap<u64, Vec<Txid>> = HashMap::new();
    let mut t: usize = 0;
    proof {
        assert(hs@.take(0) =~= Seq::empty());
        let v = survey_view(possible, longests);
        assert(v.possible =~= Set::empty());
        assert(v.longests =~= Map::empty());
    }
    while t < hs.len()
        invariant
            t <= hs@.len(),
            survey_view(possible, longests) == survey_of(hs@.take(t as int)),
        decreases hs@.len() - t,
    {
        let h = &hs[t];
        let ghost start = survey_view(possible, longests);
        proof {
            assert(hs@.take(t + 1).drop_last() =~= hs@.take(t as int));
            assert(hs@.take(t + 1).last() == h);
            assert(h@.take(0) =~= Seq::empty());
        }
        let mut i: usize = 0;
        while i < h.len()
            invariant
                i <= h@.len(),
                survey_view(possible, longests) == survey_history(start, h@.take(i as int)),
            decreases h@.len() - i,
        {
            let ghost before = survey_view(possible, longests);
            proof {
                assert(h@.take(i + 1).drop_last() =~= h@.take(i as int));
                assert(h@.take(i + 1).last() == h@[i as int]);
            }
            match &h[i].1 {
                HistoryItem::StartAppend(txid, _) => {
                    possible.insert(txid.0);
                },
                HistoryItem::Abort(txid) => {
                    possible.remove(&txid.0);
                },
                HistoryItem::FinishRead(_, _, list_id, txids) => {
                    let known: usize = match longests.get(&list_id.0) {
                        Some(v) => v.len(),
                        None => 0,
                    };
                    assert(known == before.longest(list_id.0).len());
                    if txids.len() >= known {
                        longests.insert(list_id.0, copy_txids(txids));
                    }
                },
                _ => {},
            }
            proof {
                let now = survey_view(possible, longests);
                let want = before.with(h@[i as int].1);
                assert(now.possible =~= want.possible);
                assert(now.longests =~= want.longests);
            }
            i += 1;
        }
        assert(h@.take(i as int) =~= h@);
        t += 1;
    }
    assert(hs@.take(t as int) =~= hs@);
    (possible, longests)
}

/// Whether a list holds one transaction right before another.
pub open spec fn follows(longests: Map<u64, Seq<u64>>, list: u64, i: int, p: (u64, u64)) -> bool {
    &&& longests.contains_key(list)
    &&& 0 <= i < longests[list].len() - 1
    &&& p == (longests[list][i + 1], longests[list][i])
}

/// The edges between transactions that follow each other in a list.
pub open spec fn list_edges(longests: Map<u64, Seq<u64>>) -> Map<(u64, u64), EdgeType> {
    Map::new(
        |p: (u64, u64)| exists|list: u64, i: int| follows(longests, list, i, p),
        |p: (u64, u64)| EdgeType::WriteWrite,
    )
}

/// Whether a list holds a transaction that cannot have appended.
pub open spec fn has_garbage(s: Survey) -> bool {
    exists|list: u64, i: int|
        s.longests.contains_key(list) && 0 <= i < s.longests[list].len() && !s.possible.contains(
            #[trigger] s.longests[list][i],
        )
}

/// The edges between transactions, as far as the events up to some point show them.
pub struct Timeline {
    pub edges: Map<(u64, u64), EdgeType>,
    /// For each thread, the transaction that finished last.
    pub recent: Map<u64, u64>,
    /// For each list, the commit with the highest timestamp.
    pub highest: Map<u64, (Timestamp, u64)>,
}

/// Whether a transaction is the last that some thread finished.
pub open spec fn is_recent(recent: Map<u64, u64>, txid: u64) -> bool {
    exists|thread: u64| #[trigger] recent.contains_key(thread) && recent[thread] == txid
}

/// The edges with those from a transaction to all that finished before it started.
pub open spec fn with_real_time(
    edges: Map<(u64, u64), EdgeType>,
    recent: Map<u64, u64>,
    txid: u64,
) -> Map<(u64, u64), EdgeType> {
    Map::new(
        |p: (u64, u64)| edges.contains_key(p) || (p.0 == txid && is_recent(recent, p.1)),
        |p: (u64, u64)|
            if p.0 == txid && is_recent(recent, p.1) {
                EdgeType::RealTime
            } else {
                edges[p]
            },
    )
}

/// Whether one list is the start of another.
pub open spec fn starts(s: Seq<u64>, t: Seq<u64>) -> bool {
    s.len() <= t.len() && t.take(s.len() as int) == s
}

/// The edges that reading a list shows: to the transaction that wrote the version that was read,
/// and from the one that wrote the next version.
pub open spec fn with_read(
    edges: Map<(u64, u64), EdgeType>,
    txid: u64,
    read: Seq<u64>,
    longest: Seq<u64>,
) -> Map<(u64, u64), EdgeType> {
    let after = if read.len() > 0 {
        edges.insert((txid, read.last()), EdgeType::WriteRead)
    } else {
        edges
    };
    if longest.len() > read.len() {
        after.insert((longest[read.len() as int], txid), EdgeType::ReadWrite)
    } else {
        after
    }
}

impl Timeline {
    /// What an event shows.
    pub open spec fn with(self, s: Survey, thread: u64, item: HistoryItem) -> Result<
        Timeline,
        HistoryError,
    > {
        match item {
            HistoryItem::StartRead(txid) => Ok(
                Timeline { edges: with_real_time(self.edges, self.recent, txid.0), ..self },
            ),
            HistoryItem::StartAppend(txid, _) => Ok(
                Timeline { edges: with_real_time(self.edges, self.recent, txid.0), ..self },
            ),
            HistoryItem::Commit(txid, ts, list_id) => {
                let recent = self.recent.insert(thread, txid.0);
                if !self.highest.contains_key(list_id.0) {
                    Ok(
                        Timeline {
                            recent,
                            highest: self.highest.insert(list_id.0, (ts, txid.0)),
                            ..self
                        },
                    )
                } else if ts.0 > self.highest[list_id.0].0.0 {
                    Ok(
                        Timeline {
                            edges: self.edges.insert(
                                (txid.0, self.highest[list_id.0].1),
                                EdgeType::SameKeyTimestamp,
                            ),
                            recent,
                            highest: self.highest.insert(list_id.0, (ts, txid.0)),
                        },
                    )
                } else {
                    Ok(Timeline { recent, ..self })
                }
            },
            HistoryItem::FinishRead(txid, _, list_id, txids) => {
                let read = numbers(txids@);
                let longest = s.longest(list_id.0);
                if !starts(read, longest) {
                    Err(HistoryError::LostOrDuplicateWrite)
                } else {
                    Ok(
                        Timeline {
                            edges: with_read(self.edges, txid.0, read, longest),
                            recent: self.recent.insert(thread, txid.0),
                            ..self
                        },
                    )
                }
            },
            HistoryItem::Abort(txid) => Ok(
                Timeline { recent: self.recent.insert(thread, txid.0), ..self },
            ),
        }
    }
}

/// The events of all threads, thread after thread: the thread and the place in its history.
pub open spec fn all_events(hs: Seq<History>) -> Seq<(int, int)>
    decreases hs.len(),
{
    if hs.len() == 0 {
        Seq::empty()
    } else {
        let t = hs.len() - 1;
        all_events(hs.drop_last()) + Seq::new(hs[t]@.len(), |i: int| (t, i))
    }
}

/// The place of an event among all events.
pub open spec fn seq_of(hs: Seq<History>, e: (int, int)) -> u64 {
    hs[e.0]@[e.1].0.0
}

/// Whether indices put events in order, those with the same place as they come.
pub open spec fn orders(hs: Seq<History>, p: Seq<usize>) -> bool {
    let events = all_events(hs);
    &&& permutation(p, events.len())
    &&& forall|i: int, j: int|
        0 <= i < j < p.len() ==> seq_of(hs, events[#[trigger] p[i] as int]) < seq_of(
            hs,
            events[#[trigger] p[j] as int],
        ) || (seq_of(hs, events[p[i] as int]) == seq_of(hs, events[p[j] as int]) && p[i] < p[j])
}

/// What the first `n` events in order show, from the edges that the lists show.
pub open spec fn timeline_of(hs: Seq<History>, s: Survey, p: Seq<usize>, n: int) -> Result<
    Timeline,
    HistoryError,
>
    decreases n,
{
    if n <= 0 {
        Ok(
            Timeline {
                edges: list_edges(s.longests),
                recent: Map::empty(),
                highest: Map::empty(),
            },
        )
    } else {
        match timeline_of(hs, s, p, n - 1) {
            Err(e) => Err(e),
            Ok(t) => {
                let e = all_events(hs)[p[n - 1] as int];
                t.with(s, e.0 as u64, hs[e.0]@[e.1].1)
            },
        }
    }
}

/// The dependencies between transactions, given an order of the events.
pub open spec fn graph_of(hs: Seq<History>, p: Seq<usize>) -> Result<
    Map<(u64, u64), EdgeType>,
    HistoryError,
> {
    let s = survey_of(hs);
    if has_garbage(s) {
        Err(HistoryError::GarbageRead)
    } else {
        match timeline_of(hs, s, p, p.len() as int) {
            Err(e) => Err(e),
            Ok(t) => Ok(t.edges),
        }
    }
}

proof fn lemma_timeline_err(hs: Seq<History>, s: Survey, p: Seq<usize>, n: int, m: int)
    requires
        0 <= n <= m,
        timeline_of(hs, s, p, n) is Err,
    ensures
        timeline_of(hs, s, p, m) == timeline_of(hs, s, p, n),
    decreases m,
{
    if n < m {
        lemma_timeline_err(hs, s, p, n, m - 1);
    }
}

fn write_list_edges(
    possible: &HashSet<u64>,
    longests: &HashMap<u64, Vec<Txid>>,
    edges: &mut Edges<EdgeType>,
) -> (r: Result<(), HistoryError>)
    requires
        labels(old(edges)@) == Map::<(u64, u64), EdgeType>::empty(),
        all_lead_on(old(edges)@),
    ensures
        all_lead_on(final(edges)@),
        ({
            let s = survey_view(*possible, *longests);
            if has_garbage(s) {
                r == Err::<(), HistoryError>(HistoryError::GarbageRead)
            } else {
                r is Ok && labels(final(edges)@) == list_edges(s.longests)
            }
        }),
{
    let ghost s = survey_view(*possible, *longests);
    let lists = keys_of(longests);
    let mut n: usize = 0;
    while n < lists.len()
        invariant
            n <= lists@.len(),
            all_lead_on(edges@),
            s == survey_view(*possible, *longests),
            forall|k: u64| #[trigger] lists@.contains(k) <==> longests@.contains_key(k),
            forall|p: (u64, u64)| #[trigger]
                labels(edges@).contains_key(p) ==> labels(edges@)[p] == EdgeType::WriteWrite
                    && exists|list: u64, i: int| follows(s.longests, list, i, p),
            forall|m: int, i: int|
                0 <= m < n && 0 <= i < s.longests[lists@[m]].len() - 1
                    ==> #[trigger] labels(edges@).contains_key(
                    (s.longests[lists@[m]][i + 1], s.longests[lists@[m]][i]),
                ),
            forall|m: int, i: int|
                0 <= m < n && 0 <= i < s.longests[lists@[m]].len() ==> s.possible.contains(
                    #[trigger] s.longests[lists@[m]][i],
                ),
        decreases lists@.len() - n,
    {
        let list: u64 = lists[n];
        assert(lists@.contains(list));
        if let Some(longest) = longests.get(&list) {
            assert(s.longests.contains_key(list) && s.longests[list] == numbers(longest@));
            let ghost start = labels(edges@);
            let mut i: usize = 0;
            while i < longest.len()
                invariant
                    i <= longest@.len(),
                    all_lead_on(edges@),
                    s == survey_view(*possible, *longests),
                    s.longests.contains_key(list),
                    s.longests[list] == numbers(longest@),
                    forall|p: (u64, u64)| #[trigger]
                        labels(edges@).contains_key(p) ==> labels(edges@)[p]
                            == EdgeType::WriteWrite && exists|list: u64, i: int|
                            follows(s.longests, list, i, p),
                    forall|p: (u64, u64)|
                        start.contains_key(p) ==> #[trigger] labels(edges@).contains_key(p),
                    forall|j: int|
                        0 <= j < i - 1 ==> #[trigger] labels(edges@).contains_key(
                            (s.longests[list][j + 1], s.longests[list][j]),
                        ),
                    forall|j: int|
                        0 <= j < i ==> s.possible.contains(#[trigger] s.longests[list][j]),
                decreases longest@.len() - i,
            {
                let txid: u64 = longest[i].0;
                assert(s.longests[list][i as int] == txid);
                if i > 0 {
                    let prev: u64 = longest[i - 1].0;
                    let ghost before = labels(edges@);
                    put_edge(edges, txid, EdgeType::WriteWrite, prev);
                    proof {
                        assert(s.longests[list][i - 1] == prev);
                        assert(follows(s.longests, list, i - 1, (txid, prev)));
                    }
                }
                if !possible.contains(&txid) {
                    assert(!s.possible.contains(s.longests[list][i as int]));
                    return Err(HistoryError::GarbageRead);
                }
                i += 1;
            }
            proof {
                assert forall|m: int, i: int|
                    0 <= m < n + 1 && 0 <= i < s.longests[lists@[m]].len()
                        - 1 implies #[trigger] labels(edges@).contains_key(
                    (s.longests[lists@[m]][i + 1], s.longests[lists@[m]][i]),
                ) by {
                    if m < n {
                        assert(start.contains_key(
                            (s.longests[lists@[m]][i + 1], s.longests[lists@[m]][i]),
                        ));
                    }
                }
            }
        }
        n += 1;
    }
    proof {
        let want = list_edges(s.longests);
        assert forall|p: (u64, u64)| #[trigger]
            labels(edges@).contains_key(p) == want.contains_key(p) by {
            if want.contains_key(p) {
                let (list, i) = choose|list: u64, i: int| follows(s.longests, list, i, p);
                assert(longests@.contains_key(list));
                assert(lists@.contains(list));
                let m = choose|m: int| 0 <= m < lists@.len() && lists@[m] == list;
                assert(labels(edges@).contains_key(
                    (s.longests[lists@[m]][i + 1], s.longests[lists@[m]][i]),
                ));
            }
        }
        assert(labels(edges@) =~= want);
        if has_garbage(s) {
            let (list, i) = choose|list: u64, i: int|
                s.longests.contains_key(list) && 0 <= i < s.longests[list].len()
                    && !s.possible.contains(#[trigger] s.longests[list][i]);
            assert(lists@.contains(list));
            let m = choose|m: int| 0 <= m < lists@.len() && lists@[m] == list;
            assert(s.possible.contains(s.longests[lists@[m]][i]));
        }
    }
    Ok(())
}

fn write_real_time(edges: &mut Edges<EdgeType>, recent: &HashMap<u64, u64>, txid: u64)
    ensures
        all_lead_on(old(edges)@) ==> all_lead_on(final(edges)@),
        labels(final(edges)@) == with_real_time(labels(old(edges)@), recent@, txid),
{
    let ghost start = labels(edges@);
    let threads = keys_of(recent);
    let mut n: usize = 0;
    while n < threads.len()
        invariant
            n <= threads@.len(),
            all_lead_on(old(edges)@) ==> all_lead_on(edges@),
            forall|k: u64| #[trigger] threads@.contains(k) <==> recent@.contains_key(k),
            forall|p: (u64, u64)| #[trigger]
                labels(edges@).contains_key(p) ==> (p.0 == txid && is_recent(recent@, p.1)
                    && labels(edges@)[p] == EdgeType::RealTime) || (start.contains_key(p)
                    && labels(edges@)[p] == start[p]),
            forall|p: (u64, u64)|
                start.contains_key(p) ==> #[trigger] labels(edges@).contains_key(p),
            forall|m: int|
                0 <= m < n ==> labels(edges@).contains_key((txid, recent@[#[trigger] threads@[m]]))
                    && labels(edges@)[(txid, recent@[threads@[m]])] == EdgeType::RealTime,
        decreases threads@.len() - n,
    {
        let thread: u64 = threads[n];
        assert(threads@.contains(thread));
        if let Some(other) = recent.get(&thread) {
            assert(is_recent(recent@, *other));
            put_edge(edges, txid, EdgeType::RealTime, *other);
        }
        n += 1;
    }
    proof {
        let want = with_real_time(start, recent@, txid);
        assert forall|p: (u64, u64)| p.0 == txid && is_recent(recent@, p.1) implies #[trigger] labels(
            edges@,
        ).contains_key(p) && labels(edges@)[p] == EdgeType::RealTime by {
            let thread = choose|thread: u64| #[trigger]
                recent@.contains_key(thread) && recent@[thread] == p.1;
            assert(threads@.contains(thread));
            let m = choose|m: int| 0 <= m < threads@.len() && threads@[m] == thread;
            assert(labels(edges@).contains_key((txid, recent@[threads@[m]])));
            assert(p == (txid, recent@[threads@[m]]));
        }
        assert(labels(edges@) =~= want);
    }
}

/// Whether one list is the start of another.
fn is_start(s: &Vec<Txid>, t: &Vec<Txid>) -> (r: bool)
    ensures
        r == starts(numbers(s@), numbers(t@)),
{
    if s.len() > t.len() {
        return false;
    }
    let mut i: usize = 0;
    while i < s.len()
        invariant
            i <= s@.len() <= t@.len(),
            forall|j: int| 0 <= j < i ==> s@[j] == t@[j],
        decreases s@.len() - i,
    {
        if s[i].0 != t[i].0 {
            proof {
                assert(numbers(t@).take(s@.len() as int)[i as int] == t@[i as int].0);
                assert(numbers(s@)[i as int] == s@[i as int].0);
            }
            return false;
        }
        i += 1;
    }
    assert(numbers(t@).take(s@.len() as int) =~= numbers(s@));
    true
}

fn write_read(edges: &mut Edges<EdgeType>, txid: u64, read: &Vec<Txid>, longest: &Vec<Txid>)
    ensures
        all_lead_on(old(edges)@) ==> all_lead_on(final(edges)@),
        labels(final(edges)@) == with_read(
            labels(old(edges)@),
            txid,
            numbers(read@),
            numbers(longest@),
        ),
{
    if read.len() > 0 {
        let last: u64 = read[read.len() - 1].0;
        assert(numbers(read@).last() == last);
        put_edge(edges, txid, EdgeType::WriteRead, last);
    }
    if longest.len() > read.len() {
        let next: u64 = longest[read.len()].0;
        assert(numbers(longest@)[read@.len() as int] == next);
        put_edge(edges, next, EdgeType::ReadWrite, txid);
    }
}

/// Ranks events by their place, then by where they stand.
struct BySeq<'a> {
    hs: &'a Vec<History>,
    events: &'a Vec<(usize, usize)>,
}

spec fn event_views(s: Seq<(usize, usize)>) -> Seq<(int, int)> {
    s.map_values(|e: (usize, usize)| (e.0 as int, e.1 as int))
}

impl<'a> BySeq<'a> {
    spec fn at(&self, a: int) -> u64 {
        self.hs@[self.events@[a].0 as int]@[self.events@[a].1 as int].0.0
    }
}

impl<'a> Ranking for BySeq<'a> {
    closed spec fn le(&self, a: int, b: int) -> bool {
        self.at(a) < self.at(b) || (self.at(a) == self.at(b) && a <= b)
    }

    closed spec fn ranks(&self, a: int) -> bool {
        &&& 0 <= a < self.events@.len()
        &&& self.events@[a].0 < self.hs@.len()
        &&& self.events@[a].1 < self.hs@[self.events@[a].0 as int]@.len()
    }

    fn is_le(&self, a: usize, b: usize) -> (r: bool) {
        let x = self.events[a];
        let y = self.events[b];
        let s: u64 = self.hs[x.0][x.1].0.0;
        let t: u64 = self.hs[y.0][y.1].0.0;
        s < t || (s == t && a <= b)
    }

    proof fn lemma_total(&self, a: int, b: int) {
    }

    proof fn lemma_transitive(&self, a: int, b: int, c: int) {
    }
}

fn list_events(hs: &Vec<History>) -> (r: Vec<(usize, usize)>)
    ensures
        event_views(r@) == all_events(hs@),
        forall|i: int|
            0 <= i < r@.len() ==> (#[trigger] r@[i]).0 < hs@.len() && r@[i].1
                < hs@[r@[i].0 as int]@.len(),
{
    let mut r: Vec<(usize, usize)> = Vec::new();
    let mut t: usize = 0;
    proof {
        assert(hs@.take(0) =~= Seq::empty());
        assert(event_views(r@) =~= Seq::empty());
    }
    while t < hs.len()
        invariant
            t <= hs@.len(),
            event_views(r@) == all_events(hs@.take(t as int)),
            forall|i: int|
                0 <= i < r@.len() ==> (#[trigger] r@[i]).0 < hs@.len() && r@[i].1
                    < hs@[r@[i].0 as int]@.len(),
        decreases hs@.len() - t,
    {
        let ghost start = event_views(r@);
        let ghost more = Seq::new(hs@[t as int]@.len(), |i: int| (t as int, i));
        proof {
            assert(hs@.take(t + 1).drop_last() =~= hs@.take(t as int));
            assert(hs@.take(t + 1)[t as int] == hs@[t as int]);
            assert(start =~= start + more.take(0));
        }
        let mut i: usize = 0;
        while i < hs[t].len()
            invariant
                t < hs@.len(),
                i <= hs@[t as int]@.len(),
                more == Seq::new(hs@[t as int]@.len(), |i: int| (t as int, i)),
                event_views(r@) == start + more.take(i as int),
                forall|i: int|
                    0 <= i < r@.len() ==> (#[trigger] r@[i]).0 < hs@.len() && r@[i].1
                        < hs@[r@[i].0 as int]@.len(),
            decreases hs@[t as int]@.len() - i,
        {
            let ghost before = r@;
            r.push((t, i));
            proof {
                assert(event_views(r@) =~= event_views(before).push((t as int, i as int)));
                assert(more.take(i + 1) =~= more.take(i as int).push((t as int, i as int)));
                assert(start + more.take(i + 1) =~= (start + more.take(i as int)).push(
                    (t as int, i as int),
                ));
            }
            i += 1;
        }
        proof {
            assert(more.take(i as int) =~= more);
            assert(all_events(hs@.take(t + 1)) == all_events(hs@.take(t as int)) + more);
        }
        t += 1;
    }
    assert(hs@.take(t as int) =~= hs@);
    r
}

/// The dependencies between the transactions of the histories of threads.
#[verifier::rlimit(40)]
pub fn gen_graph(hs: &Vec<History>) -> (r: Result<Edges<EdgeType>, HistoryError>)
    ensures
        exists|p: Seq<usize>| #[trigger]
            orders(hs@, p) && match graph_of(hs@, p) {
                Ok(edges) => r matches Ok(g) && labels(g@) == edges && all_lead_on(g@),
                Err(e) => r matches Err(e2) && e2 == e,
            },
{
    let (possible, longests) = survey(hs);
    let ghost s = survey_of(hs@);
    let events = list_events(hs);
    let ghost evs = all_events(hs@);
    let by = BySeq { hs, events: &events };
    assert forall|i: int| 0 <= i < events@.len() implies #[trigger] by.ranks(i) by {}
    let order = sort_indices(&by, events.len());
    let ghost p = order@;
    proof {
        assert(event_views(events@).len() == events@.len());
        assert forall|i: int, j: int| 0 <= i < j < p.len() implies seq_of(
            hs@,
            evs[#[trigger] p[i] as int],
        ) < seq_of(hs@, evs[#[trigger] p[j] as int]) || (seq_of(hs@, evs[p[i] as int]) == seq_of(
            hs@,
            evs[p[j] as int],
        ) && p[i] < p[j]) by {
            assert(by.le(p[i] as int, p[j] as int));
            assert(p[i] != p[j]);
            assert(event_views(events@)[p[i] as int] == evs[p[i] as int]);
            assert(event_views(events@)[p[j] as int] == evs[p[j] as int]);
        }
        assert(orders(hs@, p));
    }
    let mut edges: Edges<EdgeType> = HashMap::new();
    assert(labels(edges@) =~= Map::<(u64, u64), EdgeType>::empty());
    if let Err(e) = write_list_edges(&possible, &longests, &mut edges) {
        return Err(e);
    }
    let mut recent: HashMap<u64, u64> = HashMap::new();
    let mut highest: HashMap<u64, (Timestamp, u64)> = HashMap::new();
    let none: Vec<Txid> = Vec::new();
    let mut n: usize = 0;
    while n < order.len()
        invariant
            n <= order@.len(),
            p == order@,
            orders(hs@, p),
            s == survey_of(hs@),
            s == survey_view(possible, longests),
            !has_garbage(s),
            evs == all_events(hs@),
            event_views(events@) == evs,
            forall|i: int|
                0 <= i < events@.len() ==> (#[trigger] events@[i]).0 < hs@.len() && events@[i].1
                    < hs@[events@[i].0 as int]@.len(),
            all_lead_on(edges@),
            none@.len() == 0,
            timeline_of(hs@, s, p, n as int) == Ok::<Timeline, HistoryError>(
                Timeline { edges: labels(edges@), recent: recent@, highest: highest@ },
            ),
        decreases order@.len() - n,
    {
        let k: usize = order[n];
        proof {
            assert(p[n as int] < evs.len());
            assert(event_views(events@)[k as int] == evs[k as int]);
        }
        let (t, i) = events[k];
        let thread: u64 = t as u64;
        let item = &hs[t][i].1;
        let ghost before = Timeline { edges: labels(edges@), recent: recent@, highest: highest@ };
        assert(timeline_of(hs@, s, p, n + 1) == before.with(s, thread, *item));
        match item {
            HistoryItem::StartRead(txid) => {
                write_real_time(&mut edges, &recent, txid.0);
            },
            HistoryItem::StartAppend(txid, _) => {
                write_real_time(&mut edges, &recent, txid.0);
            },
            HistoryItem::Commit(txid, ts, list_id) => {
                let known = match highest.get(&list_id.0) {
                    Some(x) => Some(*x),
                    None => None,
                };
                match known {
                    Some((other_ts, other)) => {
                        if ts.0 > other_ts.0 {
                            put_edge(&mut edges, txid.0, EdgeType::SameKeyTimestamp, other);
                            highest.insert(list_id.0, (*ts, txid.0));
                        }
                    },
                    None => {
                        highest.insert(list_id.0, (*ts, txid.0));
                    },
                }
                recent.insert(thread, txid.0);
            },
            HistoryItem::FinishRead(txid, _, list_id, txids) => {
                let longest: &Vec<Txid> = match longests.get(&list_id.0) {
                    Some(v) => v,
                    None => &none,
                };
                assert(numbers(longest@) =~= s.longest(list_id.0));
                if !is_start(txids, longest) {
                    proof {
                        lemma_timeline_err(hs@, s, p, n + 1, p.len() as int);
                    }
                    return Err(HistoryError::LostOrDuplicateWrite);
                }
                write_read(&mut edges, txid.0, txids, longest);
                recent.insert(thread, txid.0);
            },
            HistoryItem::Abort(txid) => {
                recent.insert(thread, txid.0);
            },
        }
        n += 1;
    }
    Ok(edges)
}

/// The transactions that the items of a list hold, if each holds one.
pub open spec fn decoded_list(values: Seq<Vec<u8>>) -> Option<Seq<u64>> {
    if forall|i: int| 0 <= i < values.len() ==> (#[trigger] values[i])@.len() == 8 {
        Some(Seq::new(values.len(), |i: int| be_value(values[i]@) as u64))
    } else {
        None
    }
}

/// Reads the transactions that the items of a list hold.
pub fn decode_list(values: &Vec<Vec<u8>>) -> (r: Option<Vec<Txid>>)
    ensures
        match decoded_list(values@) {
            Some(s) => r matches Some(v) && numbers(v@) == s,
            None => r is None,
        },
{
    let mut out: Vec<Txid> = Vec::new();
    let mut i: usize = 0;
    while i < values.len()
        invariant
            i <= values@.len(),
            out@.len() == i,
            forall|j: int| 0 <= j < i ==> (#[trigger] values@[j])@.len() == 8,
            forall|j: int| 0 <= j < i ==> (#[trigger] out@[j]).0 == be_value(values@[j]@) as u64,
        decreases values@.len() - i,
    {
        match Txid::decode(values[i].as_slice()) {
            Some(t) => {
                out.push(t);
            },
            None => {
                assert(values@[i as int]@.len() != 8);
                return None;
            },
        }
        i += 1;
    }
    assert(numbers(out@) =~= Seq::new(values@.len(), |i: int| be_value(values@[i]@) as u64));
    Some(out)
}

/// What became of an append.
#[derive(Clone, Copy, Debug, PartialEq, Eq, Structural)]
pub enum WriteResult {
    Commit(Timestamp),
    Abort,
    Unknown,
}

/// What a transaction did.
#[derive(Debug, PartialEq, Eq)]
pub enum TxResult {
    Read(Timestamp, ListId, Vec<Txid>),
    Append(Txid, ListId, WriteResult),
}

/// What a transaction did, as a value.
pub enum TxResultView {
    Read(Timestamp, ListId, Seq<u64>),
    Append(Txid, ListId, WriteResult),
}

impl View for TxResult {
    type V = TxResultView;

    open spec fn view(&self) -> TxResultView {
        match self {
            TxResult::Read(ts, list_id, txids) => TxResultView::Read(
                *ts,
                *list_id,
                numbers(txids@),
            ),
            TxResult::Append(txid, list_id, w) => TxResultView::Append(*txid, *list_id, *w),
        }
    }
}

/// Whether an append that is followed by anything is followed by its commit or abort.
pub open spec fn appends_resolved(txids: Set<u64>, h: Seq<(EventSeq, HistoryItem)>) -> bool {
    forall|i: int|
        0 <= i < h.len() - 1 ==> ((#[trigger] h[i]).1 matches HistoryItem::StartAppend(t, _)
            ==> txids.contains(t.0) ==> h[i + 1].1 is Commit || h[i + 1].1 is Abort)
}

/// What became of the append that an event starts.
pub open spec fn write_result(h: Seq<(EventSeq, HistoryItem)>, i: int) -> WriteResult {
    if i == h.len() - 1 {
        WriteResult::Unknown
    } else {
        match h[i + 1].1 {
            HistoryItem::Commit(_, ts, _) => WriteResult::Commit(ts),
            _ => WriteResult::Abort,
        }
    }
}

/// The results with what an event shows.
pub open spec fn with_result(
    m: Map<u64, TxResultView>,
    txids: Set<u64>,
    h: Seq<(EventSeq, HistoryItem)>,
    i: int,
) -> Map<u64, TxResultView> {
    match h[i].1 {
        HistoryItem::FinishRead(t, ts, list_id, items) => if txids.contains(t.0) {
            m.insert(t.0, TxResultView::Read(ts, list_id, numbers(items@)))
        } else {
            m
        },
        HistoryItem::StartAppend(t, list_id) => if txids.contains(t.0) {
            m.insert(t.0, TxResultView::Append(t, list_id, write_result(h, i)))
        } else {
            m
        },
        _ => m,
    }
}

/// The results with what the first `n` events of a history show.
pub open spec fn history_results(
    m: Map<u64, TxResultView>,
    txids: Set<u64>,
    h: Seq<(EventSeq, HistoryItem)>,
    n: int,
) -> Map<u64, TxResultView>
    decreases n,
{
    if n <= 0 {
        m
    } else {
        with_result(history_results(m, txids, h, n - 1), txids, h, n - 1)
    }
}

/// What some transactions did, as far as the histories show it.
pub open spec fn results_of(txids: Set<u64>, hs: Seq<History>) -> Map<u64, TxResultView>
    decreases hs.len(),
{
    if hs.len() == 0 {
        Map::empty()
    } else {
        history_results(
            results_of(txids, hs.drop_last()),
            txids,
            hs.last()@,
            hs.last()@.len() as int,
        )
    }
}

spec fn result_views(m: Map<u64, TxResult>) -> Map<u64, TxResultView> {
    m.map_values(|r: TxResult| r@)
}

/// Whether results are those of a map.
pub open spec fn results_match(
    r: HashMap<u64, TxResult>,
    want: Map<u64, TxResultView>,
) -> bool {
    &&& r@.dom() == want.dom()
    &&& forall|t: u64| #[trigger] r@.contains_key(t) ==> r@[t]@ == want[t]
}

/// Collects what some transactions did.
pub fn find_results(txids: &HashSet<u64>, hs: &Vec<History>) -> (r: HashMap<u64, TxResult>)
    requires
        forall|t: int| 0 <= t < hs@.len() ==> appends_resolved(txids@, (#[trigger] hs@[t])@),
    ensures
        results_match(r, results_of(txids@, hs@)),
{
    let mut r: HashMap<u64, TxResult> = HashMap::new();
    let mut t: usize = 0;
    proof {
        assert(hs@.take(0) =~= Seq::empty());
        assert(result_views(r@) =~= Map::empty());
    }
    while t < hs.len()
        invariant
            t <= hs@.len(),
            forall|t: int| 0 <= t < hs@.len() ==> appends_resolved(txids@, (#[trigger] hs@[t])@),
            result_views(r@) == results_of(txids@, hs@.take(t as int)),
        decreases hs@.len() - t,
    {
        let h = &hs[t];
        let ghost start = result_views(r@);
        proof {
            assert(hs@.take(t + 1).drop_last() =~= hs@.take(t as int));
            assert(hs@.take(t + 1).last() == h);
            assert(appends_resolved(txids@, hs@[t as int]@));
        }
        let mut i: usize = 0;
        while i < h.len()
            invariant
                i <= h@.len(),
                appends_resolved(txids@, h@),
                result_views(r@) == history_results(start, txids@, h@, i as int),
            decreases h@.len() - i,
        {
            let ghost before = r@;
            match &h[i].1 {
                HistoryItem::FinishRead(txid, ts, list_id, items) => {
                    if txids.contains(&txid.0) {
                        let x = TxResult::Read(*ts, *list_id, copy_txids(items));
                        r.insert(txid.0, x);
                        assert(result_views(r@) =~= result_views(before).insert(txid.0, x@));
                    }
                },
                HistoryItem::StartAppend(txid, list_id) => {
                    if txids.contains(&txid.0) {
                        let w = if i == h.len() - 1 {
                            WriteResult::Unknown
                        } else {
                            match &h[i + 1].1 {
                                HistoryItem::Commit(_, ts, _) => WriteResult::Commit(*ts),
                                _ => WriteResult::Abort,
                            }
                        };
                        let x = TxResult::Append(*txid, *list_id, w);
                        r.insert(txid.0, x);
                        assert(w == write_result(h@, i as int));
                        assert(result_views(r@) =~= result_views(before).insert(txid.0, x@));
                    }
                },
                _ => {},
            }
            i += 1;
        }
        t += 1;
    }
    proof {
        assert(hs@.take(t as int) =~= hs@);
        assert(r@.dom() =~= result_views(r@).dom());
        assert forall|t: u64| #[trigger] r@.contains_key(t) implies r@[t]@ == results_of(
            txids@,
            hs@,
        )[t] by {
            assert(result_views(r@)[t] == r@[t]@);
        }
    }
    r
}

} // verus!
