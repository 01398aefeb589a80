//! How what is stored is laid out in bytes.

use vstd::prelude::*;

use super::outcome::{
    committed_bytes, group_bytes, groups_bytes, use_bytes, uses_bytes, KeyGroup, OutcomeView, Use,
};
use super::pending::{txids_bytes, PendingView};
use crate::range::order::lemma_common_len;
use crate::supervisor::gc::GcStorageKey;
use crate::types::data::{MutationView, Timestamp, Txid};
use crate::types::{ColoGroupId, KeyspaceId, ShardId, TabletId};
use crate::util::bytes::{
    be_bytes, be_value, le_value, lemma_byte_range, lemma_value_of_bytes,
};
use crate::util::varint::varint;

verus! {

/// The last byte of a big-endian number counts ones, and each byte before it 256 times as much as
/// the one behind. In a little-endian number it is the first byte that counts ones.
pub proof fn law_endianness(b: Seq<u8>, x: u8)
    ensures
        be_value(Seq::<u8>::empty()) == 0,
        be_value(b.push(x)) == be_value(b) * 256 + x,
        le_value(Seq::<u8>::empty()) == 0,
        le_value(seq![x] + b) == le_value(b) * 256 + x,
{
    assert(b.push(x).drop_last() =~= b);
    assert(Seq::<u8>::empty().reverse() =~= Seq::<u8>::empty());
    assert((seq![x] + b).reverse() =~= b.reverse().push(x));
    assert(b.reverse().push(x).drop_last() =~= b.reverse());
}

/// A number is written in groups of seven bits, the lowest first. All bytes but the last have the
/// highest bit set, and there is no byte more than is needed.
pub proof fn law_varint_layout(n: nat)
    ensures
        n < 128 ==> varint(n) == seq![n as u8],
        n >= 128 ==> {
            &&& varint(n).len() > 1
            &&& varint(n)[0] >= 128
            &&& varint(n)[0] - 128 == n % 128
            &&& varint(n).skip(1) == varint(n / 128)
        },
        varint(n).last() < 128,
        n > 0 ==> varint(n).last() > 0,
    decreases n,
{
    if n >= 128 {
        law_varint_layout(n / 128);
        assert(varint(n).skip(1) =~= varint(n / 128));
        assert(varint(n / 128).len() > 0);
        assert(varint(n).last() == varint(n / 128).last());
    }
}

/// A transaction is four bytes of the shard that it belongs to and sixteen of its number, both
/// big-endian.
pub proof fn law_txid_layout(t: Txid)
    ensures
        t.bytes().len() == 20,
        be_value(t.bytes().subrange(0, 4)) == t.owner.0,
        be_value(t.bytes().subrange(4, 20)) == t.unique,
{
    lemma_byte_range();
    lemma_value_of_bytes(t.owner.0 as nat, 4);
    lemma_value_of_bytes(t.unique as nat, 16);
    assert(t.bytes().subrange(0, 4) =~= be_bytes(t.owner.0 as nat, 4));
    assert(t.bytes().subrange(4, 20) =~= be_bytes(t.unique as nat, 16));
}

/// A mutation that is not decided is its transaction, then a byte that is zero for a delete, and one
/// for a put, behind which the value stands.
pub proof fn law_pending_layout(p: PendingView)
    ensures
        p.bytes().len() >= 21,
        p.bytes().subrange(0, 20) == p.txid.bytes(),
        match p.m {
            MutationView::Delete => p.bytes().len() == 21 && p.bytes()[20] == 0,
            MutationView::Put(v) => p.bytes().len() == 21 + v.len() && p.bytes()[20] == 1
                && p.bytes().skip(21) == v,
        },
{
    law_txid_layout(p.txid);
    assert(p.bytes().subrange(0, 20) =~= p.txid.bytes());
    if let MutationView::Put(v) = p.m {
        assert(p.bytes().skip(21) =~= v);
    }
}

/// Locks are their transactions, one behind the other.
pub proof fn law_locks_layout(s: Seq<Txid>)
    ensures
        txids_bytes(s).len() == 20 * s.len(),
        forall|i: int|
            0 <= i < s.len() ==> txids_bytes(s).subrange(20 * i, 20 * i + 20) == (
            #[trigger] s[i]).bytes(),
    decreases s.len(),
{
    if s.len() > 0 {
        let rest = s.drop_last();
        let n = rest.len() as int;
        law_locks_layout(rest);
        law_txid_layout(s.last());
        assert forall|i: int| 0 <= i < s.len() implies txids_bytes(s).subrange(
            20 * i,
            20 * i + 20,
        ) == (#[trigger] s[i]).bytes() by {
            if i < n {
                assert(rest[i] == s[i]);
                assert(txids_bytes(s).subrange(20 * i, 20 * i + 20) =~= txids_bytes(rest).subrange(
                    20 * i,
                    20 * i + 20,
                ));
            } else {
                assert(txids_bytes(s).subrange(20 * i, 20 * i + 20) =~= s.last().bytes());
            }
        }
    }
}

/// The outcome of a transaction starts with a byte that is zero where it was aborted, and nothing
/// else then. Where it was committed, the byte is one. Behind it stand the eight bytes of its
/// timestamp, little-endian, how many keys there are, and the keys.
pub proof fn law_outcome_layout(ts: Timestamp, gs: Seq<KeyGroup>, b: Seq<u8>)
    ensures
        OutcomeView::Aborted.encoded(b) <==> b.len() == 1 && b[0] == 0,
        committed_bytes(ts, gs).len() >= 9,
        committed_bytes(ts, gs)[0] == 1,
        le_value(committed_bytes(ts, gs).subrange(1, 9)) == ts.0,
        committed_bytes(ts, gs).skip(9) == varint(gs.len()) + groups_bytes(Seq::empty(), gs),
{
    lemma_byte_range();
    lemma_value_of_bytes(ts.0 as nat, 8);
    let all = committed_bytes(ts, gs);
    let digits = be_bytes(ts.0 as nat, 8);
    assert(all.subrange(1, 9) =~= digits.reverse());
    assert(digits.reverse().reverse() =~= digits);
    assert(all.skip(9) =~= varint(gs.len()) + groups_bytes(Seq::empty(), gs));
    if b.len() == 1 && b[0] == 0 {
        assert(b =~= seq![0u8]);
    }
}

/// A key is how many bytes it shares with the key before it, as many as possible, how many more it
/// has, and these. Behind it stands in how many keyspaces it occurs, and these. Returns how many
/// bytes are shared.
pub proof fn law_key_layout(prev: Seq<u8>, g: KeyGroup) -> (shared: nat)
    ensures
        shared <= prev.len(),
        shared <= g.key.len(),
        prev.take(shared as int) == g.key.take(shared as int),
        shared < prev.len() && shared < g.key.len() ==> prev[shared as int] != g.key[shared as int],
        group_bytes(prev, g) == varint(shared) + varint((g.key.len() - shared) as nat)
            + g.key.skip(shared as int) + varint(g.uses.len()) + uses_bytes(g.uses),
{
    lemma_common_len(prev, g.key);
    let shared = crate::range::order::common_len(prev, g.key);
    assert(prev.take(shared as int) =~= g.key.take(shared as int));
    shared
}

/// Keys stand one behind the other, each after the one before it.
pub proof fn law_keys_layout(prev: Seq<u8>, g: KeyGroup, rest: Seq<KeyGroup>)
    ensures
        groups_bytes(prev, Seq::empty()) == Seq::<u8>::empty(),
        groups_bytes(prev, seq![g] + rest) == group_bytes(prev, g) + groups_bytes(g.key, rest),
{
    let all = seq![g] + rest;
    assert(all[0] == g);
    assert(all.drop_first() =~= rest);
}

/// The use of a key in a keyspace is the number of the keyspace's group, then four times the number
/// of the keyspace, with one more for a precondition and two more for a mutation. Uses stand one
/// behind the other.
pub proof fn law_use_layout(id: KeyspaceId, u: Use, rest: Seq<(KeyspaceId, Use)>)
    ensures
        use_bytes((id, u)) == varint(id.0.0 as nat) + varint(
            (4 * id.1 + (if u.precond {
                1int
            } else {
                0
            }) + (if u.mutated {
                2int
            } else {
                0
            })) as nat,
        ),
        uses_bytes(Seq::empty()) == Seq::<u8>::empty(),
        uses_bytes(seq![(id, u)] + rest) == use_bytes((id, u)) + uses_bytes(rest),
{
    let all = seq![(id, u)] + rest;
    assert(all[0] == (id, u));
    assert(all.drop_first() =~= rest);
}

/// A shard is four big-endian bytes, and a tablet those of its shard and eight of its number.
pub proof fn law_tablet_layout(t: TabletId, b: Seq<u8>)
    ensures
        t.0.encoded(b) <==> b.len() == 4 && be_value(b) == t.0.0,
        t.encoded(b) <==> b.len() == 12 && t.0.encoded(b.subrange(0, 4)) && be_value(
            b.subrange(4, 12),
        ) == t.1,
{
    if b.len() == 12 {
        assert(b.subrange(0, 4) =~= b.take(4));
        assert(b.subrange(4, 12) =~= b.skip(4));
    }
}

/// What the garbage collection stores is with the metadata: the phase of a part under its number,
/// and a candidate under the sixteen big-endian bytes of its own.
pub proof fn law_collection_layout(key: GcStorageKey)
    ensures
        match key {
            GcStorageKey::Phase(part) => key.encoded() == (
                KeyspaceId(ColoGroupId(0), 1),
                seq![part],
            ),
            GcStorageKey::Candidate(id) => key.encoded().0 == KeyspaceId(ColoGroupId(0), 2)
                && key.encoded().1.len() == 16 && be_value(key.encoded().1) == id.0,
        },
{
    lemma_byte_range();
    if let GcStorageKey::Candidate(id) = key {
        lemma_value_of_bytes(id.0 as nat, 16);
    }
}

/// The metadata, what belongs to single shards, and the rest are in groups and tablets of their
/// own.
pub proof fn law_fixed_places(shard: ShardId)
    ensures
        ShardId::meta_spec() == ShardId(0),
        ColoGroupId::meta_spec() == ColoGroupId(0),
        ColoGroupId::shard_meta_spec() == ColoGroupId(0xffff_ffff),
        TabletId::meta_spec() == TabletId(ShardId(0), 0),
        TabletId::shard_meta_spec(shard) == TabletId(shard, 0xffff_ffff_ffff_ffff),
        KeyspaceId::meta_spec() == KeyspaceId(ColoGroupId(0), 0),
        KeyspaceId::tx_outcomes_spec() == KeyspaceId(ColoGroupId(0xffff_ffff), 0),
{
}

} // verus!
