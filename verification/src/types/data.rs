//! Timestamps, transactions and what is read and written.

use std::cmp::Ordering;

use vstd::prelude::*;

use super::{ColoGroupId, KeyspaceId, ShardId, TabletId};
use crate::range::bound::{key_order, HasPrefix};
use crate::range::order::{
    key_lt, lemma_lex_irreflexive, lemma_lex_total, lemma_lex_transitive, symbols,
};
use crate::util::bytes::{
    append_bytes, be_bytes, be_value, lemma_byte_range, lemma_bytes_of_value, lemma_value_of_bytes,
    read_u128_be, read_u32_be, u128_be, u32_be,
};
use crate::util::ordmap::{OrdKey, OrdMap};

verus! {

/// A point in time, in nanoseconds.
#[derive(Clone, Copy, Debug, PartialEq, Eq, PartialOrd, Ord, Hash, Structural)]
pub struct Timestamp(pub u64);

impl Timestamp {
    pub open spec fn zero_spec() -> Timestamp {
        Timestamp(0)
    }

    /// The first point in time.
    #[verifier::when_used_as_spec(zero_spec)]
    pub fn zero() -> (r: Timestamp)
        ensures
            r == Self::zero_spec(),
    {
        Timestamp(0)
    }

    pub open spec fn latest_spec() -> Timestamp {
        Timestamp(u64::MAX)
    }

    /// The last point in time.
    #[verifier::when_used_as_spec(latest_spec)]
    pub fn latest() -> (r: Timestamp)
        ensures
            r == Self::latest_spec(),
    {
        Timestamp(u64::MAX)
    }

    /// The next point in time.
    pub fn plus_one(&self) -> (r: Timestamp)
        requires
            self.0 < u64::MAX,
        ensures
            r.0 == self.0 + 1,
    {
        Timestamp(self.0 + 1)
    }

    /// The point in time before.
    pub fn minus_one(&self) -> (r: Timestamp)
        requires
            self.0 > 0,
        ensures
            r.0 == self.0 - 1,
    {
        Timestamp(self.0 - 1)
    }

    /// How many nanoseconds after `other` this is, if it is later.
    pub fn saturating_nanos_since(&self, other: Timestamp) -> (r: u64)
        ensures
            r == if self.0 > other.0 {
                self.0 - other.0
            } else {
                0
            },
    {
        if self.0 > other.0 {
            self.0 - other.0
        } else {
            0
        }
    }

    /// The whole microseconds up to this.
    pub fn as_micros(&self) -> (r: u64)
        ensures
            r == self.0 / 1_000,
            r * 1_000 <= self.0,
    {
        self.0 / 1_000
    }

    /// The point in time after so many microseconds.
    pub fn from_micros(micros: u64) -> (r: Timestamp)
        requires
            micros * 1_000 <= u64::MAX,
        ensures
            r.0 == micros * 1_000,
    {
        Timestamp(micros * 1_000)
    }

    /// The present, but later than `last`.
    pub fn now_after(now: Timestamp, last: Timestamp) -> (r: Timestamp)
        requires
            last.0 < u64::MAX,
        ensures
            r.0 == if now.0 > last.0 {
                now.0 as int
            } else {
                last.0 + 1
            },
    {
        if now.0 > last.0 {
            now
        } else {
            Timestamp(last.0 + 1)
        }
    }
}

impl View for Timestamp {
    type V = Timestamp;

    open spec fn view(&self) -> Timestamp {
        *self
    }
}

impl OrdKey for Timestamp {
    open spec fn precedes(a: Timestamp, b: Timestamp) -> bool {
        a.0 < b.0
    }

    fn is_before(&self, other: &Self) -> (r: bool) {
        self.0 < other.0
    }

    proof fn lemma_irreflexive(a: Timestamp) {
    }

    proof fn lemma_transitive(a: Timestamp, b: Timestamp, c: Timestamp) {
    }

    proof fn lemma_total(a: Timestamp, b: Timestamp) {
    }
}

/// A position in a journal.
#[derive(Clone, Copy, Debug, PartialEq, Eq, PartialOrd, Ord, Structural)]
pub struct JournalSeq(pub u64);

/// A transaction: the shard that keeps its outcome, and a number that no other transaction has.
#[derive(Clone, Copy, Debug, PartialEq, Eq, PartialOrd, Ord, Hash, Structural)]
pub struct Txid {
    pub owner: ShardId,
    pub unique: u128,
}

/// How many bytes an encoded transaction has.
pub const TXID_LEN: usize = 20;

impl Txid {
    /// The encoding of the transaction: the shard, then the number.
    pub open spec fn bytes(self) -> Seq<u8> {
        be_bytes(self.owner.0 as nat, 4) + be_bytes(self.unique as nat, 16)
    }

    /// The transaction that bytes are the encoding of.
    pub open spec fn of(b: Seq<u8>) -> Txid {
        Txid { owner: ShardId(be_value(b.take(4)) as u32), unique: be_value(b.skip(4)) as u128 }
    }

    pub fn encode_fixed(&self) -> (r: Vec<u8>)
        ensures
            r@ == self.bytes(),
            r@.len() == TXID_LEN,
    {
        let mut out: Vec<u8> = Vec::new();
        let owner = u32_be(self.owner.0);
        let unique = u128_be(self.unique);
        append_bytes(&mut out, &owner);
        append_bytes(&mut out, &unique);
        proof {
            lemma_bytes_of_value(owner@);
            lemma_bytes_of_value(unique@);
            assert(out@ =~= owner@ + unique@);
        }
        out
    }

    /// The transaction that bytes are the encoding of, if they have the right length.
    pub fn decode(b: &[u8]) -> (r: Option<Txid>)
        ensures
            r == if b@.len() == TXID_LEN {
                Some(Txid::of(b@))
            } else {
                None
            },
    {
        if b.len() != TXID_LEN {
            return None;
        }
        assert(b@.take(TXID_LEN as int) =~= b@);
        Some(Self::of_prefix(b))
    }

    /// The transaction that bytes start with.
    pub fn of_prefix(b: &[u8]) -> (r: Txid)
        requires
            b@.len() >= TXID_LEN,
        ensures
            r == Txid::of(b@.take(TXID_LEN as int)),
    {
        let (owner, unique) = b.split_at(4);
        let ghost s = b@.take(TXID_LEN as int);
        assert(s.take(4) =~= owner@.take(4));
        assert(s.skip(4) =~= unique@.take(16));
        Txid { owner: ShardId(read_u32_be(owner)), unique: read_u128_be(unique) }
    }
}

/// A transaction is read back from its encoding, and bytes of the right length are the encoding of
/// the transaction that is read from them.
pub proof fn law_txid_roundtrip(t: Txid, b: Seq<u8>)
    ensures
        t.bytes().len() == TXID_LEN,
        Txid::of(t.bytes()) == t,
        b.len() == TXID_LEN ==> Txid::of(b).bytes() == b,
{
    lemma_byte_range();
    lemma_value_of_bytes(t.owner.0 as nat, 4);
    lemma_value_of_bytes(t.unique as nat, 16);
    assert(t.bytes().take(4) =~= be_bytes(t.owner.0 as nat, 4));
    assert(t.bytes().skip(4) =~= be_bytes(t.unique as nat, 16));
    if b.len() == TXID_LEN {
        lemma_bytes_of_value(b.take(4));
        lemma_bytes_of_value(b.skip(4));
        assert(b =~= b.take(4) + b.skip(4));
    }
}

impl View for Txid {
    type V = Txid;

    open spec fn view(&self) -> Txid {
        *self
    }
}

impl OrdKey for Txid {
    open spec fn precedes(a: Txid, b: Txid) -> bool {
        a.owner.0 < b.owner.0 || (a.owner == b.owner && a.unique < b.unique)
    }

    fn is_before(&self, other: &Self) -> (r: bool) {
        self.owner.0 < other.owner.0 || (self.owner.0 == other.owner.0 && self.unique
            < other.unique)
    }

    proof fn lemma_irreflexive(a: Txid) {
    }

    proof fn lemma_transitive(a: Txid, b: Txid, c: Txid) {
    }

    proof fn lemma_total(a: Txid, b: Txid) {
    }
}

impl View for TabletId {
    type V = TabletId;

    open spec fn view(&self) -> TabletId {
        *self
    }
}

impl OrdKey for TabletId {
    open spec fn precedes(a: TabletId, b: TabletId) -> bool {
        a.0.0 < b.0.0 || (a.0.0 == b.0.0 && a.1 < b.1)
    }

    fn is_before(&self, other: &Self) -> (r: bool) {
        self.0.0 < other.0.0 || (self.0.0 == other.0.0 && self.1 < other.1)
    }

    proof fn lemma_irreflexive(a: TabletId) {
    }

    proof fn lemma_transitive(a: TabletId, b: TabletId, c: TabletId) {
    }

    proof fn lemma_total(a: TabletId, b: TabletId) {
    }
}

impl View for ColoGroupId {
    type V = ColoGroupId;

    open spec fn view(&self) -> ColoGroupId {
        *self
    }
}

/// What a tablet owns of a colo group.
pub type Share = (TabletId, ColoGroupId);

impl OrdKey for Share {
    open spec fn precedes(a: Share, b: Share) -> bool {
        TabletId::precedes(a.0, b.0) || (a.0 == b.0 && a.1.0 < b.1.0)
    }

    fn is_before(&self, other: &Self) -> (r: bool) {
        self.0.is_before(&other.0) || (self.0 == other.0 && self.1.0 < other.1.0)
    }

    proof fn lemma_irreflexive(a: Share) {
    }

    proof fn lemma_transitive(a: Share, b: Share, c: Share) {
    }

    proof fn lemma_total(a: Share, b: Share) {
    }
}

impl View for KeyspaceId {
    type V = KeyspaceId;

    open spec fn view(&self) -> KeyspaceId {
        *self
    }
}

impl OrdKey for KeyspaceId {
    open spec fn precedes(a: KeyspaceId, b: KeyspaceId) -> bool {
        a.0.0 < b.0.0 || (a.0.0 == b.0.0 && a.1 < b.1)
    }

    fn is_before(&self, other: &Self) -> (r: bool) {
        self.0.0 < other.0.0 || (self.0.0 == other.0.0 && self.1 < other.1)
    }

    proof fn lemma_irreflexive(a: KeyspaceId) {
    }

    proof fn lemma_transitive(a: KeyspaceId, b: KeyspaceId, c: KeyspaceId) {
    }

    proof fn lemma_total(a: KeyspaceId, b: KeyspaceId) {
    }
}

/// Byte strings with the same symbols are the same.
pub proof fn lemma_symbols_injective(a: Seq<u8>, b: Seq<u8>)
    requires
        symbols(a) == symbols(b),
    ensures
        a == b,
{
    assert(symbols(a).len() == a.len());
    assert(symbols(b).len() == b.len());
    assert forall|i: int| 0 <= i < a.len() implies a[i] == b[i] by {
        assert(symbols(a)[i] == a[i] as int);
        assert(symbols(b)[i] == b[i] as int);
    }
    assert(a =~= b);
}

impl OrdKey for Vec<u8> {
    open spec fn precedes(a: Seq<u8>, b: Seq<u8>) -> bool {
        key_lt(a, b)
    }

    fn is_before(&self, other: &Self) -> (r: bool) {
        let order = self.compare(other);
        assert(order == key_order(self@, other@));
        assert(Self::precedes(self@, other@) == key_lt(self@, other@));
        match order {
            Ordering::Less => true,
            _ => false,
        }
    }

    proof fn lemma_irreflexive(a: Seq<u8>) {
        lemma_lex_irreflexive(symbols(a));
    }

    proof fn lemma_transitive(a: Seq<u8>, b: Seq<u8>, c: Seq<u8>) {
        lemma_lex_transitive(symbols(a), symbols(b), symbols(c));
    }

    proof fn lemma_total(a: Seq<u8>, b: Seq<u8>) {
        lemma_lex_total(symbols(a), symbols(b));
        if symbols(a) == symbols(b) {
            lemma_symbols_injective(a, b);
        }
    }
}

/// A key within a keyspace.
pub type Key = (KeyspaceId, Vec<u8>);

/// What a key is: its keyspace and its bytes.
pub type KeyView = (KeyspaceId, Seq<u8>);

impl OrdKey for Key {
    open spec fn precedes(a: KeyView, b: KeyView) -> bool {
        KeyspaceId::precedes(a.0, b.0) || (a.0 == b.0 && key_lt(a.1, b.1))
    }

    fn is_before(&self, other: &Self) -> (r: bool) {
        self.0.is_before(&other.0) || (self.0 == other.0 && self.1.is_before(&other.1))
    }

    proof fn lemma_irreflexive(a: KeyView) {
        <Vec<u8> as OrdKey>::lemma_irreflexive(a.1);
    }

    proof fn lemma_transitive(a: KeyView, b: KeyView, c: KeyView) {
        if a.0 == b.0 && b.0 == c.0 {
            <Vec<u8> as OrdKey>::lemma_transitive(a.1, b.1, c.1);
        }
    }

    proof fn lemma_total(a: KeyView, b: KeyView) {
        <Vec<u8> as OrdKey>::lemma_total(a.1, b.1);
    }
}

/// A copy of a key.
pub fn copy_key(k: &Key) -> (r: Key)
    ensures
        r@ == k@,
{
    (k.0, k.1.copied())
}

/// A set of keys, in order.
pub type KeySet = OrdMap<Key, ()>;

/// The set with the keys of a list.
pub fn key_set(keys: &Vec<Key>) -> (r: KeySet)
    ensures
        r.wf(),
        forall|k: KeyView|
            r@.contains_key(k) <==> exists|i: int|
                0 <= i < keys@.len() && (#[trigger] keys@[i])@ == k,
{
    let mut r: KeySet = OrdMap::new();
    let mut i: usize = 0;
    while i < keys.len()
        invariant
            i <= keys@.len(),
            r.wf(),
            forall|k: KeyView|
                r@.contains_key(k) <==> exists|j: int|
                    0 <= j < i && (#[trigger] keys@[j])@ == k,
        decreases keys@.len() - i,
    {
        r.insert(copy_key(&keys[i]), ());
        i += 1;
    }
    r
}

/// A change of one key.
#[derive(Debug, PartialEq, Eq)]
pub enum Mutation {
    Put(Vec<u8>),
    Delete,
}

/// What a mutation is.
pub enum MutationView {
    Put(Seq<u8>),
    Delete,
}

impl View for Mutation {
    type V = MutationView;

    open spec fn view(&self) -> MutationView {
        match self {
            Mutation::Put(v) => MutationView::Put(v@),
            Mutation::Delete => MutationView::Delete,
        }
    }
}

impl Mutation {
    /// How many bytes the mutation writes.
    pub fn len(&self) -> (r: usize)
        ensures
            r == match self@ {
                MutationView::Put(v) => v.len() as int,
                MutationView::Delete => 0,
            },
    {
        match self {
            Mutation::Put(v) => v.len(),
            Mutation::Delete => 0,
        }
    }

    /// A mutation that does the same.
    pub fn copied(&self) -> (r: Mutation)
        ensures
            r@ == self@,
    {
        match self {
            Mutation::Put(v) => Mutation::Put(v.copied()),
            Mutation::Delete => Mutation::Delete,
        }
    }
}

/// Mutations, at most one for each key.
pub type Muts = OrdMap<Key, Mutation>;

/// What mutations are, key by key.
pub open spec fn muts_view(m: Map<KeyView, Mutation>) -> Map<KeyView, MutationView> {
    m.map_values(|x: Mutation| x@)
}

/// What a write depends on.
#[derive(Debug, PartialEq, Eq)]
pub enum Precondition {
    /// That a key was not written after a point in time.
    NotChangedSince(KeyspaceId, Vec<u8>, Timestamp),
}

impl Precondition {
    pub open spec fn key_view(self) -> KeyView {
        match self {
            Precondition::NotChangedSince(keyspace_id, key, _) => (keyspace_id, key@),
        }
    }

    pub open spec fn since(self) -> Timestamp {
        match self {
            Precondition::NotChangedSince(_, _, ts) => ts,
        }
    }

    pub fn keyspace_id(&self) -> (r: KeyspaceId)
        ensures
            r == self.key_view().0,
    {
        match self {
            Precondition::NotChangedSince(keyspace_id, _, _) => *keyspace_id,
        }
    }

    pub fn key(&self) -> (r: &Vec<u8>)
        ensures
            r@ == self.key_view().1,
    {
        match self {
            Precondition::NotChangedSince(_, key, _) => key,
        }
    }
}

/// A value, or that there is none, as of some point in time.
#[derive(Debug, PartialEq, Eq)]
pub enum RevisionValue {
    Regular(Vec<u8>),
    Tombstone,
}

/// What a revision's value is: bytes, or nothing.
impl View for RevisionValue {
    type V = Option<Seq<u8>>;

    open spec fn view(&self) -> Option<Seq<u8>> {
        match self {
            RevisionValue::Regular(v) => Some(v@),
            RevisionValue::Tombstone => None,
        }
    }
}

/// What the store keeps of a key at a point in time: when it was written, and what.
pub type Stored = Option<(Timestamp, RevisionValue)>;

/// What is stored: a point in time, with bytes or nothing.
pub open spec fn stored_view(s: Stored) -> Option<(Timestamp, Option<Seq<u8>>)> {
    match s {
        Some((ts, v)) => Some((ts, v@)),
        None => None,
    }
}

/// A key's value with the time at which it was written.
#[derive(Debug, PartialEq, Eq)]
pub struct Record {
    pub key: Key,
    pub ts: Timestamp,
    pub value: Vec<u8>,
}

/// What a record is.
pub struct RecordView {
    pub key: KeyView,
    pub ts: Timestamp,
    pub value: Seq<u8>,
}

impl View for Record {
    type V = RecordView;

    open spec fn view(&self) -> RecordView {
        RecordView { key: self.key@, ts: self.ts, value: self.value@ }
    }
}

/// What records are, one by one.
pub open spec fn record_views(s: Seq<Record>) -> Seq<RecordView> {
    s.map_values(|r: Record| r@)
}

/// What became of a key at a point in time.
#[derive(Debug, PartialEq, Eq)]
pub struct Revision {
    pub key: Key,
    pub ts: Timestamp,
    pub value: RevisionValue,
}

/// What a revision is.
pub struct RevisionView {
    pub key: KeyView,
    pub ts: Timestamp,
    pub value: Option<Seq<u8>>,
}

impl View for Revision {
    type V = RevisionView;

    open spec fn view(&self) -> RevisionView {
        RevisionView { key: self.key@, ts: self.ts, value: self.value@ }
    }
}

/// The points in time of a history.
#[derive(Clone, Copy, Debug, PartialEq, Eq, Structural)]
pub enum HistoryRange {
    All,
    Since(Timestamp),
    Until(Timestamp),
    Between(Timestamp, Timestamp),
}

impl HistoryRange {
    pub open spec fn has(self, ts: Timestamp) -> bool {
        match self {
            HistoryRange::All => true,
            HistoryRange::Since(min) => min.0 <= ts.0,
            HistoryRange::Until(max) => ts.0 <= max.0,
            HistoryRange::Between(min, max) => min.0 <= ts.0 <= max.0,
        }
    }

    pub fn contains(&self, ts: Timestamp) -> (r: bool)
        ensures
            r == self.has(ts),
    {
        match self {
            HistoryRange::All => true,
            HistoryRange::Since(min) => min.0 <= ts.0,
            HistoryRange::Until(max) => ts.0 <= max.0,
            HistoryRange::Between(min, max) => min.0 <= ts.0 && ts.0 <= max.0,
        }
    }
}

/// What became of a transaction.
#[derive(Clone, Copy, Debug, PartialEq, Eq, Structural)]
pub enum TxOutcome {
    Committed(Timestamp),
    Aborted,
}

} // verus!
