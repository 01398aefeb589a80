//! What undecided transactions leave at the keys that they touch.

use vstd::prelude::*;

use crate::types::data::{
    law_txid_roundtrip, Mutation, MutationView, Txid, TXID_LEN,
};
use crate::util::bytes::{append_bytes, sub_bytes};
use crate::util::ordmap::OrdMap;

verus! {

/// Why bytes could not be read.
#[derive(Clone, Copy, Debug, PartialEq, Eq, Structural)]
pub enum DecodeError {
    /// There are fewer bytes than a pending mutation has.
    PendingTooShort,
    /// The kind of a pending mutation is neither a put nor a delete.
    PendingTag,
    /// The bytes of locks are not a whole number of transactions.
    LocksLength,
    /// There are no bytes.
    OutcomeEmpty,
    /// The kind of an outcome is neither a commit nor an abort.
    OutcomeTag,
    /// There are bytes behind the kind of an abort.
    OutcomeExtraBytes,
    /// There are fewer bytes than a commit has.
    OutcomeTooShort,
    /// A number is cut off or too large.
    OutcomeNumber,
    /// A key shares more bytes with the key before than that has.
    OutcomeSharedTooLong,
    /// A key is cut off.
    OutcomeKeyTooShort,
    /// The key of an outcome is not a transaction.
    TxidLength,
}

/// A mutation that takes effect if its transaction commits.
#[derive(Debug, PartialEq, Eq)]
pub struct PendingMutation {
    pub txid: Txid,
    pub m: Mutation,
}

/// What a pending mutation is.
pub struct PendingView {
    pub txid: Txid,
    pub m: MutationView,
}

impl View for PendingMutation {
    type V = PendingView;

    open spec fn view(&self) -> PendingView {
        PendingView { txid: self.txid, m: self.m@ }
    }
}

impl PendingView {
    /// The transaction, then the kind of mutation, then the bytes that are put.
    pub open spec fn bytes(self) -> Seq<u8> {
        self.txid.bytes() + match self.m {
            MutationView::Put(v) => seq![1u8] + v,
            MutationView::Delete => seq![0u8],
        }
    }

    pub open spec fn of(b: Seq<u8>) -> Result<PendingView, DecodeError> {
        if b.len() < TXID_LEN + 1 {
            Err(DecodeError::PendingTooShort)
        } else if b[TXID_LEN as int] == 0 {
            Ok(PendingView { txid: Txid::of(b.take(TXID_LEN as int)), m: MutationView::Delete })
        } else if b[TXID_LEN as int] == 1 {
            Ok(
                PendingView {
                    txid: Txid::of(b.take(TXID_LEN as int)),
                    m: MutationView::Put(b.skip(TXID_LEN + 1)),
                },
            )
        } else {
            Err(DecodeError::PendingTag)
        }
    }
}

/// What a result of decoding is.
pub open spec fn pending_result(r: Result<PendingMutation, DecodeError>) -> Result<
    PendingView,
    DecodeError,
> {
    match r {
        Ok(p) => Ok(p@),
        Err(e) => Err(e),
    }
}

impl PendingMutation {
    pub fn encode(&self) -> (r: Vec<u8>)
        ensures
            r@ == self@.bytes(),
    {
        let mut w = self.txid.encode_fixed();
        let ghost txid_bytes = w@;
        match &self.m {
            Mutation::Put(v) => {
                w.push(1);
                append_bytes(&mut w, v.as_slice());
                assert(w@ =~= txid_bytes + (seq![1u8] + v@));
            },
            Mutation::Delete => {
                w.push(0);
                assert(w@ =~= txid_bytes + seq![0u8]);
            },
        }
        w
    }

    pub fn decode(b: &[u8]) -> (r: Result<Self, DecodeError>)
        ensures
            pending_result(r) == PendingView::of(b@),
    {
        if b.len() < TXID_LEN + 1 {
            return Err(DecodeError::PendingTooShort);
        }
        let txid = Txid::of_prefix(b);
        let tag: u8 = b[TXID_LEN];
        if tag == 0 {
            Ok(PendingMutation { txid, m: Mutation::Delete })
        } else if tag == 1 {
            let v = sub_bytes(b, TXID_LEN + 1, b.len());
            assert(v@ =~= b@.skip(TXID_LEN + 1));
            Ok(PendingMutation { txid, m: Mutation::Put(v) })
        } else {
            Err(DecodeError::PendingTag)
        }
    }
}

/// A pending mutation is read back from its encoding.
pub proof fn law_pending_roundtrip(p: PendingView)
    ensures
        PendingView::of(p.bytes()) == Ok::<PendingView, DecodeError>(p),
{
    let b = p.bytes();
    law_txid_roundtrip(p.txid, p.txid.bytes());
    assert(b.take(TXID_LEN as int) =~= p.txid.bytes());
    if let MutationView::Put(v) = p.m {
        assert(b[TXID_LEN as int] == 1);
        assert(b.skip(TXID_LEN + 1) =~= v);
    } else {
        assert(b[TXID_LEN as int] == 0);
    }
}

/// The transactions that a key must not change under.
pub struct PrecondLocks {
    pub txids: OrdMap<Txid, ()>,
}

/// The encodings of transactions, one after the other.
pub open spec fn txids_bytes(s: Seq<Txid>) -> Seq<u8>
    decreases s.len(),
{
    if s.len() == 0 {
        Seq::empty()
    } else {
        txids_bytes(s.drop_last()) + s.last().bytes()
    }
}

/// The transactions that bytes hold, one after the other.
pub open spec fn txids_of(b: Seq<u8>) -> Seq<Txid> {
    Seq::new(
        (b.len() / TXID_LEN as nat) as nat,
        |i: int| Txid::of(b.subrange(i * TXID_LEN, (i + 1) * TXID_LEN)),
    )
}

impl View for PrecondLocks {
    type V = Set<Txid>;

    open spec fn view(&self) -> Set<Txid> {
        self.txids@.dom()
    }
}

impl PrecondLocks {
    pub open spec fn wf(self) -> bool {
        self.txids.wf()
    }

    /// The transactions in ascending order, one after the other.
    pub fn encode(&self) -> (r: Vec<u8>)
        requires
            self.wf(),
        ensures
            r@ == txids_bytes(self.txids.keys()),
            r@.len() == self.txids.keys().len() * TXID_LEN,
    {
        let mut w: Vec<u8> = Vec::new();
        let mut i: usize = 0;
        let ghost keys = self.txids.keys();
        assert(keys.take(0) =~= Seq::empty());
        while i < self.txids.entries.len()
            invariant
                i <= self.txids.entries@.len(),
                keys == self.txids.keys(),
                w@ == txids_bytes(keys.take(i as int)),
                w@.len() == i * TXID_LEN,
            decreases self.txids.entries@.len() - i,
        {
            let b = self.txids.entries[i].0.encode_fixed();
            append_bytes(&mut w, b.as_slice());
            proof {
                assert(keys.take(i + 1).drop_last() =~= keys.take(i as int));
                assert(keys.take(i + 1).last() == keys[i as int]);
            }
            i += 1;
        }
        assert(keys.take(i as int) =~= keys);
        w
    }

    pub fn decode(b: &[u8]) -> (r: Result<Self, DecodeError>)
        ensures
            r is Err <==> b@.len() % TXID_LEN as nat != 0,
            r matches Err(e) ==> e == DecodeError::LocksLength,
            r matches Ok(l) ==> l.wf() && l@ == txids_of(b@).to_set(),
    {
        if b.len() % TXID_LEN != 0 {
            return Err(DecodeError::LocksLength);
        }
        let len: usize = b.len();
        let n: usize = len / TXID_LEN;
        let ghost all = txids_of(b@);
        let mut txids: OrdMap<Txid, ()> = OrdMap::new();
        let mut i: usize = 0;
        assert(txids@.dom() =~= all.take(0).to_set());
        while i < n
            invariant
                i <= n,
                n == b@.len() / TXID_LEN as nat,
                n * TXID_LEN == len,
                len == b@.len(),
                all == txids_of(b@),
                txids.wf(),
                txids@.dom() == all.take(i as int).to_set(),
            decreases n - i,
        {
            let chunk = sub_bytes(b, i * TXID_LEN, (i + 1) * TXID_LEN);
            assert(chunk@.take(TXID_LEN as int) =~= chunk@);
            let txid = Txid::of_prefix(chunk.as_slice());
            let ghost prior = txids@;
            txids.insert(txid, ());
            proof {
                assert(all[i as int] == txid);
                let s = all.take(i as int);
                let t = all.take(i + 1);
                assert(t =~= s.push(txid));
                assert forall|x: Txid| #[trigger]
                    t.to_set().contains(x) <==> s.to_set().contains(x) || x == txid by {
                    if s.contains(x) {
                        let j = choose|j: int| 0 <= j < s.len() && s[j] == x;
                        assert(t[j] == x);
                    }
                    assert(t[i as int] == txid);
                    if t.contains(x) {
                        let j = choose|j: int| 0 <= j < t.len() && t[j] == x;
                        if j < i {
                            assert(s[j] == x);
                        }
                    }
                }
                assert(txids@.dom() =~= t.to_set());
            }
            i += 1;
        }
        assert(all.take(i as int) =~= all);
        Ok(PrecondLocks { txids })
    }
}

/// Locks are read back from their encoding.
pub proof fn law_locks_roundtrip(s: Seq<Txid>)
    ensures
        txids_bytes(s).len() == s.len() * TXID_LEN,
        txids_of(txids_bytes(s)) == s,
    decreases s.len(),
{
    let b = txids_bytes(s);
    if s.len() == 0 {
        assert(txids_of(b) =~= s);
    } else {
        let rest = s.drop_last();
        law_locks_roundtrip(rest);
        law_txid_roundtrip(s.last(), s.last().bytes());
        let c = txids_bytes(rest);
        assert(b.len() == s.len() * TXID_LEN);
        assert(txids_of(b).len() == s.len());
        assert forall|i: int| 0 <= i < s.len() implies txids_of(b)[i] == s[i] by {
            if i < rest.len() {
                assert(b.subrange(i * TXID_LEN, (i + 1) * TXID_LEN) =~= c.subrange(
                    i * TXID_LEN,
                    (i + 1) * TXID_LEN,
                ));
                assert(txids_of(c)[i] == rest[i]);
            } else {
                assert(b.subrange(i * TXID_LEN, (i + 1) * TXID_LEN) =~= s.last().bytes());
            }
        }
        assert(txids_of(b) =~= s);
    }
}

} // verus!
