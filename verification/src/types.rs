//! Identifiers and other small values.

pub mod data;
pub mod error;

use vstd::prelude::*;

use crate::util::bytes::{
    append_bytes, be_value, lemma_be_value_injective, read_u32_be, read_u64_be, u32_be, u64_be,
};

verus! {

/// A shard: a replicated journal with the tablets that it carries.
#[derive(Clone, Copy, Debug, PartialEq, Eq, PartialOrd, Ord, Hash, Structural)]
pub struct ShardId(pub u32);

/// A tablet: a shard and a number within it.
#[derive(Clone, Copy, Debug, PartialEq, Eq, PartialOrd, Ord, Hash, Structural)]
pub struct TabletId(pub ShardId, pub u64);

/// A group of keyspaces whose keys are split over tablets together.
#[derive(Clone, Copy, Debug, PartialEq, Eq, PartialOrd, Ord, Hash, Structural)]
pub struct ColoGroupId(pub u32);

/// A keyspace: a group and a number within it.
///
/// The upper two bits of the number tell what the keyspace is for: written values, the mutations of
/// transactions that are not decided yet, or the preconditions of such transactions.
#[derive(Clone, Copy, Debug, PartialEq, Eq, PartialOrd, Ord, Hash, Structural)]
pub struct KeyspaceId(pub ColoGroupId, pub u32);

/// The order of a scan.
#[derive(Clone, Copy, Debug, PartialEq, Eq, Structural)]
pub enum Direction {
    Asc,
    Desc,
}

/// How many bytes an encoded shard has.
pub const SHARD_ID_LEN: usize = 4;

/// How many bytes an encoded tablet has.
pub const TABLET_ID_LEN: usize = 12;

/// The number that marks a keyspace of undecided mutations.
pub const PENDING_MARK: u32 = 0x4000_0000;

/// The number that marks a keyspace of preconditions.
pub const PRECOND_MARK: u32 = 0x8000_0000;

impl ShardId {
    pub open spec fn meta_spec() -> ShardId {
        ShardId(0)
    }

    /// The shard of the cluster's metadata.
    #[verifier::when_used_as_spec(meta_spec)]
    pub fn meta() -> (r: ShardId)
        ensures
            r == Self::meta_spec(),
    {
        ShardId(0)
    }

    /// Whether bytes are the encoding of the shard.
    pub open spec fn encoded(self, b: Seq<u8>) -> bool {
        b.len() == SHARD_ID_LEN && be_value(b) == self.0
    }

    /// Big-endian bytes, so that encodings are ordered as shards are.
    pub fn encode_fixed(&self) -> (r: Vec<u8>)
        ensures
            self.encoded(r@),
    {
        let mut out: Vec<u8> = Vec::new();
        let b = u32_be(self.0);
        append_bytes(&mut out, &b);
        assert(out@ =~= b@);
        out
    }
}

impl ColoGroupId {
    pub open spec fn meta_spec() -> ColoGroupId {
        ColoGroupId(0)
    }

    /// The group of the cluster's metadata.
    #[verifier::when_used_as_spec(meta_spec)]
    pub fn meta() -> (r: ColoGroupId)
        ensures
            r == Self::meta_spec(),
    {
        ColoGroupId(0)
    }

    pub open spec fn shard_meta_spec() -> ColoGroupId {
        ColoGroupId(0xffff_ffff)
    }

    /// The group of the metadata that each shard keeps of itself. Its keys start with a shard.
    #[verifier::when_used_as_spec(shard_meta_spec)]
    pub fn shard_meta() -> (r: ColoGroupId)
        ensures
            r == Self::shard_meta_spec(),
    {
        ColoGroupId(0xffff_ffff)
    }

    pub open spec fn tablet_meta_spec() -> ColoGroupId {
        ColoGroupId(0xffff_fffe)
    }

    /// The group of the metadata that each tablet keeps of itself. Its keys start with a tablet.
    #[verifier::when_used_as_spec(tablet_meta_spec)]
    pub fn tablet_meta() -> (r: ColoGroupId)
        ensures
            r == Self::tablet_meta_spec(),
    {
        ColoGroupId(0xffff_fffe)
    }

    /// Whether the group is not one of the store's own.
    pub open spec fn userland(self) -> bool {
        self != Self::meta_spec() && self != Self::shard_meta_spec() && self
            != Self::tablet_meta_spec()
    }
}

impl TabletId {
    pub open spec fn meta_spec() -> TabletId {
        TabletId(ShardId::meta_spec(), 0)
    }

    /// The tablet of the cluster's metadata.
    #[verifier::when_used_as_spec(meta_spec)]
    pub fn meta() -> (r: TabletId)
        ensures
            r == Self::meta_spec(),
    {
        TabletId(ShardId(0), 0)
    }

    pub open spec fn shard_meta_spec(shard_id: ShardId) -> TabletId {
        TabletId(shard_id, 0xffff_ffff_ffff_ffff)
    }

    /// The tablet of a shard's own metadata.
    #[verifier::when_used_as_spec(shard_meta_spec)]
    pub fn shard_meta(shard_id: ShardId) -> (r: TabletId)
        ensures
            r == Self::shard_meta_spec(shard_id),
    {
        TabletId(shard_id, 0xffff_ffff_ffff_ffff)
    }

    /// Whether bytes are the encoding of the tablet: the shard, then the number.
    pub open spec fn encoded(self, b: Seq<u8>) -> bool {
        &&& b.len() == TABLET_ID_LEN
        &&& be_value(b.take(4)) == self.0.0
        &&& be_value(b.skip(4)) == self.1
    }

    pub fn encode_fixed(&self) -> (r: Vec<u8>)
        ensures
            self.encoded(r@),
    {
        let mut out: Vec<u8> = Vec::new();
        let shard = u32_be(self.0.0);
        let number = u64_be(self.1);
        append_bytes(&mut out, &shard);
        append_bytes(&mut out, &number);
        assert(out@.take(4) =~= shard@);
        assert(out@.skip(4) =~= number@);
        out
    }

    /// The tablet that a key starts with.
    pub fn of_key(key: &[u8]) -> (r: TabletId)
        requires
            key@.len() >= TABLET_ID_LEN,
        ensures
            r.encoded(key@.take(TABLET_ID_LEN as int)),
    {
        let (shard, number) = key.split_at(4);
        let ghost b = key@.take(TABLET_ID_LEN as int);
        assert(b.take(4) =~= shard@.take(4));
        assert(b.skip(4) =~= number@.take(8));
        TabletId(ShardId(read_u32_be(shard)), read_u64_be(number))
    }
}

/// A tablet has one encoding, and an encoding is that of one tablet.
pub proof fn law_tablet_encoding(s: TabletId, a: Seq<u8>, t: TabletId, b: Seq<u8>)
    requires
        s.encoded(a),
        t.encoded(b),
    ensures
        s == t <==> a == b,
{
    if s == t {
        lemma_be_value_injective(a.take(4), b.take(4));
        lemma_be_value_injective(a.skip(4), b.skip(4));
        assert(a =~= a.take(4) + a.skip(4));
        assert(b =~= b.take(4) + b.skip(4));
    }
}

impl KeyspaceId {
    pub open spec fn meta_spec() -> KeyspaceId {
        KeyspaceId(ColoGroupId::meta_spec(), 0)
    }

    /// The keyspace of the cluster's metadata.
    #[verifier::when_used_as_spec(meta_spec)]
    pub fn meta() -> (r: KeyspaceId)
        ensures
            r == Self::meta_spec(),
    {
        KeyspaceId(ColoGroupId(0), 0)
    }

    pub open spec fn tx_outcomes_spec() -> KeyspaceId {
        KeyspaceId(ColoGroupId::shard_meta_spec(), 0)
    }

    /// The keyspace of the outcomes of transactions.
    #[verifier::when_used_as_spec(tx_outcomes_spec)]
    pub fn tx_outcomes() -> (r: KeyspaceId)
        ensures
            r == Self::tx_outcomes_spec(),
    {
        KeyspaceId(ColoGroupId(0xffff_ffff), 0)
    }

    pub open spec fn gc_phase_spec() -> KeyspaceId {
        KeyspaceId(ColoGroupId::meta_spec(), 1)
    }

    /// The keyspace of the phase of garbage collection.
    #[verifier::when_used_as_spec(gc_phase_spec)]
    pub fn gc_phase() -> (r: KeyspaceId)
        ensures
            r == Self::gc_phase_spec(),
    {
        KeyspaceId(ColoGroupId(0), 1)
    }

    pub open spec fn gc_candidate_spec() -> KeyspaceId {
        KeyspaceId(ColoGroupId::meta_spec(), 2)
    }

    /// The keyspace of the candidates of garbage collection.
    #[verifier::when_used_as_spec(gc_candidate_spec)]
    pub fn gc_candidate() -> (r: KeyspaceId)
        ensures
            r == Self::gc_candidate_spec(),
    {
        KeyspaceId(ColoGroupId(0), 2)
    }

    /// Whether the keyspace holds the values that users write.
    pub open spec fn userland(self) -> bool {
        self.0.userland() && self.1 < PENDING_MARK
    }

    pub fn is_userland(&self) -> (r: bool)
        ensures
            r == self.userland(),
    {
        self.0 != ColoGroupId::meta() && self.0 != ColoGroupId::shard_meta() && self.0
            != ColoGroupId::tablet_meta() && self.1 < PENDING_MARK
    }

    pub open spec fn pending_spec(&self) -> Option<KeyspaceId> {
        if self.userland() {
            Some(KeyspaceId(self.0, (self.1 + PENDING_MARK) as u32))
        } else {
            None
        }
    }

    /// The keyspace of the undecided mutations of this keyspace.
    #[verifier::when_used_as_spec(pending_spec)]
    pub fn pending(&self) -> (r: Option<KeyspaceId>)
        ensures
            r == self.pending_spec(),
    {
        if self.is_userland() {
            Some(KeyspaceId(self.0, self.1 + PENDING_MARK))
        } else {
            None
        }
    }

    pub open spec fn precond_spec(&self) -> Option<KeyspaceId> {
        if self.userland() {
            Some(KeyspaceId(self.0, (self.1 + PRECOND_MARK) as u32))
        } else {
            None
        }
    }

    /// The keyspace of the preconditions on this keyspace.
    #[verifier::when_used_as_spec(precond_spec)]
    pub fn precond(&self) -> (r: Option<KeyspaceId>)
        ensures
            r == self.precond_spec(),
    {
        if self.is_userland() {
            Some(KeyspaceId(self.0, self.1 + PRECOND_MARK))
        } else {
            None
        }
    }

    pub open spec fn holds_pending(self) -> bool {
        self.0.userland() && PENDING_MARK <= self.1 < PRECOND_MARK
    }

    pub fn is_pending(&self) -> (r: bool)
        ensures
            r == self.holds_pending(),
    {
        self.0 != ColoGroupId::meta() && self.0 != ColoGroupId::shard_meta() && self.0
            != ColoGroupId::tablet_meta() && PENDING_MARK <= self.1 && self.1 < PRECOND_MARK
    }

    pub open spec fn holds_preconds(self) -> bool {
        self.0.userland() && PRECOND_MARK <= self.1 < PRECOND_MARK + PENDING_MARK
    }

    pub fn is_precond(&self) -> (r: bool)
        ensures
            r == self.holds_preconds(),
    {
        self.0 != ColoGroupId::meta() && self.0 != ColoGroupId::shard_meta() && self.0
            != ColoGroupId::tablet_meta() && PRECOND_MARK <= self.1 && self.1 < PRECOND_MARK
            + PENDING_MARK
    }
}

impl KeyspaceId {
    pub open spec fn data_spec(&self) -> KeyspaceId {
        if self.holds_pending() {
            KeyspaceId(self.0, (self.1 - PENDING_MARK) as u32)
        } else if self.holds_preconds() {
            KeyspaceId(self.0, (self.1 - PRECOND_MARK) as u32)
        } else {
            *self
        }
    }

    /// The keyspace of the values that undecided mutations or preconditions are about. Any other
    /// keyspace is about its own values.
    #[verifier::when_used_as_spec(data_spec)]
    pub fn data(&self) -> (r: KeyspaceId)
        ensures
            r == self.data_spec(),
    {
        if self.is_pending() {
            KeyspaceId(self.0, self.1 - PENDING_MARK)
        } else if self.is_precond() {
            KeyspaceId(self.0, self.1 - PRECOND_MARK)
        } else {
            *self
        }
    }
}

/// The keyspace of the values is found again from the keyspaces that come with it.
pub proof fn law_data_keyspace(id: KeyspaceId)
    ensures
        id.pending_spec() matches Some(p) ==> p.data_spec() == id,
        id.precond_spec() matches Some(p) ==> p.data_spec() == id,
        id.holds_pending() ==> id.data_spec().pending_spec() == Some(id),
        id.holds_preconds() ==> id.data_spec().precond_spec() == Some(id),
{
}

/// The keyspaces of values, of undecided mutations and of preconditions are disjoint, and no two
/// keyspaces of values share the others.
pub proof fn law_keyspace_kinds(a: KeyspaceId, b: KeyspaceId)
    requires
        a.userland(),
        b.userland(),
    ensures
        a.pending_spec() matches Some(p) && p.holds_pending() && !p.holds_preconds()
            && !p.userland(),
        a.precond_spec() matches Some(p) && p.holds_preconds() && !p.holds_pending()
            && !p.userland(),
        a != b ==> a.pending_spec() != b.pending_spec() && a.precond_spec() != b.precond_spec(),
{
}

/// The keyspaces that come with a keyspace of values are of its group and have its number, under the
/// upper two bits that tell what they are for.
pub proof fn law_keyspace_marks(id: KeyspaceId)
    ensures
        id.userland() <==> id.0.0 != 0 && id.0.0 < 0xffff_fffe && id.1 < 0x4000_0000,
        id.pending_spec() is Some <==> id.userland(),
        id.precond_spec() is Some <==> id.userland(),
        id.pending_spec() matches Some(p) ==> p.0 == id.0 && p.1 == 0x4000_0000 + id.1,
        id.precond_spec() matches Some(p) ==> p.0 == id.0 && p.1 == 0x8000_0000 + id.1,
{
}

} // verus!
