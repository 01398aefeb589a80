//! The record of what became of a transaction.

use vstd::prelude::*;

use super::pending::DecodeError;
use crate::range::bound::{shared_len, HasPrefix};
use crate::range::order::common_len;
use crate::types::data::{Key, KeySet, KeyView, Timestamp, TxOutcome};
use crate::types::{ColoGroupId, KeyspaceId};
use crate::util::bytes::{
    append_bytes, be_bytes, le_value, lemma_bytes_of_value, read_u64_le, sub_bytes, u64_le,
};
use crate::util::ordmap::{ascending, OrdMap};
use crate::util::varint::{parsed_varint, read_varint, varint, write_varint};

verus! {

/// What became of a transaction, and the keys at which it left something.
#[derive(Debug, PartialEq, Eq)]
pub enum TxOutcomeRecord {
    Committed { ts: Timestamp, precond_keys: KeySet, mut_keys: KeySet },
    Aborted,
}

/// What a record of an outcome is.
pub enum OutcomeView {
    Committed { ts: Timestamp, precond_keys: Set<KeyView>, mut_keys: Set<KeyView> },
    Aborted,
}

impl View for TxOutcomeRecord {
    type V = OutcomeView;

    open spec fn view(&self) -> OutcomeView {
        match self {
            TxOutcomeRecord::Committed { ts, precond_keys, mut_keys } => OutcomeView::Committed {
                ts: *ts,
                precond_keys: precond_keys@.dom(),
                mut_keys: mut_keys@.dom(),
            },
            TxOutcomeRecord::Aborted => OutcomeView::Aborted,
        }
    }
}

/// Which sets of a record a key belongs to.
#[derive(Clone, Copy, Debug, PartialEq, Eq, Structural)]
pub struct Use {
    pub precond: bool,
    pub mutated: bool,
}

impl Use {
    /// The lower two bits of a tag.
    pub open spec fn bits(self) -> nat {
        (if self.precond {
            1nat
        } else {
            0nat
        }) + (if self.mutated {
            2nat
        } else {
            0nat
        })
    }
}

/// A key with the keyspaces in which it occurs.
pub struct KeyGroup {
    pub key: Seq<u8>,
    pub uses: Seq<(KeyspaceId, Use)>,
}

pub open spec fn group_keys(gs: Seq<KeyGroup>) -> Seq<Seq<u8>> {
    gs.map_values(|g: KeyGroup| g.key)
}

pub open spec fn use_keyspaces(us: Seq<(KeyspaceId, Use)>) -> Seq<KeyspaceId> {
    us.map_values(|u: (KeyspaceId, Use)| u.0)
}

/// Whether a group says of a key in a keyspace what it is used for.
pub open spec fn says(gs: Seq<KeyGroup>, i: int, j: int, k: KeyView, u: Use) -> bool {
    &&& 0 <= i < gs.len()
    &&& 0 <= j < gs[i].uses.len()
    &&& gs[i].key == k.1
    &&& gs[i].uses[j] == (k.0, u)
}

/// Whether groups hold two sets of keys: the byte strings in ascending order, and for each the
/// keyspaces in ascending order.
pub open spec fn is_grouping(
    gs: Seq<KeyGroup>,
    preconds: Set<KeyView>,
    muts: Set<KeyView>,
) -> bool {
    &&& ascending::<Vec<u8>>(group_keys(gs))
    &&& gs.len() <= u64::MAX
    &&& forall|i: int|
        0 <= i < gs.len() ==> {
            &&& ascending::<KeyspaceId>(use_keyspaces((#[trigger] gs[i]).uses))
            &&& 0 < gs[i].uses.len() <= u64::MAX
            &&& gs[i].key.len() <= u64::MAX
        }
    &&& forall|i: int, j: int|
        0 <= i < gs.len() && 0 <= j < gs[i].uses.len() ==> {
            let k = (gs[i].uses[j].0, gs[i].key);
            &&& (#[trigger] gs[i].uses[j]).1.precond == preconds.contains(k)
            &&& gs[i].uses[j].1.mutated == muts.contains(k)
            &&& preconds.contains(k) || muts.contains(k)
        }
    &&& forall|k: KeyView|
        preconds.contains(k) || muts.contains(k) ==> exists|i: int, j: int|
            says(
                gs,
                i,
                j,
                k,
                (Use { precond: #[trigger] preconds.contains(k), mutated: muts.contains(k) }),
            )
}

/// The group of a keyspace, then its number with the uses in the lower two bits.
pub open spec fn use_bytes(u: (KeyspaceId, Use)) -> Seq<u8> {
    varint(u.0.0.0 as nat) + varint(u.0.1 as nat * 4 + u.1.bits())
}

pub open spec fn uses_bytes(us: Seq<(KeyspaceId, Use)>) -> Seq<u8>
    decreases us.len(),
{
    if us.len() == 0 {
        Seq::empty()
    } else {
        use_bytes(us[0]) + uses_bytes(us.drop_first())
    }
}

/// How many bytes the key shares with the one before and how many it has more, those bytes, and the
/// keyspaces.
pub open spec fn group_bytes(prev: Seq<u8>, g: KeyGroup) -> Seq<u8> {
    let shared = common_len(prev, g.key);
    varint(shared) + varint((g.key.len() - shared) as nat) + g.key.skip(shared as int) + varint(
        g.uses.len(),
    ) + uses_bytes(g.uses)
}

pub open spec fn groups_bytes(prev: Seq<u8>, gs: Seq<KeyGroup>) -> Seq<u8>
    decreases gs.len(),
{
    if gs.len() == 0 {
        Seq::empty()
    } else {
        group_bytes(prev, gs[0]) + groups_bytes(gs[0].key, gs.drop_first())
    }
}

/// The bytes of a commit: its kind, its time in little-endian bytes, and the keys.
pub open spec fn committed_bytes(ts: Timestamp, gs: Seq<KeyGroup>) -> Seq<u8> {
    seq![1u8] + be_bytes(ts.0 as nat, 8).reverse() + varint(gs.len()) + groups_bytes(
        Seq::empty(),
        gs,
    )
}

/// Whether bytes are the encoding of a commit with two sets of keys.
pub open spec fn commit_encoded(
    b: Seq<u8>,
    ts: Timestamp,
    preconds: Set<KeyView>,
    muts: Set<KeyView>,
) -> bool {
    exists|gs: Seq<KeyGroup>|
        is_grouping(gs, preconds, muts) && b == #[trigger] committed_bytes(ts, gs)
}

impl OutcomeView {
    /// Whether bytes are the encoding of the record.
    pub open spec fn encoded(self, b: Seq<u8>) -> bool {
        match self {
            OutcomeView::Aborted => b == seq![0u8],
            OutcomeView::Committed { ts, precond_keys, mut_keys } => commit_encoded(
                b,
                ts,
                precond_keys,
                mut_keys,
            ),
        }
    }
}

/// Two sets of keys: those of preconditions and those of mutations.
pub struct Keys {
    pub preconds: Set<KeyView>,
    pub muts: Set<KeyView>,
}

impl Keys {
    pub open spec fn none() -> Keys {
        Keys { preconds: Set::empty(), muts: Set::empty() }
    }

    /// The sets with a key in those that a tag names.
    pub open spec fn add_use(self, k: KeyView, tag: nat) -> Keys {
        Keys {
            preconds: if tag % 2 == 1 {
                self.preconds.insert(k)
            } else {
                self.preconds
            },
            muts: if (tag / 2) % 2 == 1 {
                self.muts.insert(k)
            } else {
                self.muts
            },
        }
    }
}

/// The keyspace of which a group and a tag are read.
pub open spec fn tagged_keyspace(group: u64, tag: u64) -> KeyspaceId {
    KeyspaceId(
        ColoGroupId((group as nat % 0x1_0000_0000) as u32),
        ((tag as nat / 4) % 0x1_0000_0000) as u32,
    )
}

/// Reads a number; what follows it comes with it.
pub open spec fn take_number(b: Seq<u8>) -> Result<(u64, Seq<u8>), DecodeError> {
    match parsed_varint(b) {
        Some((n, len)) => Ok((n, b.skip(len as int))),
        None => Err(DecodeError::OutcomeNumber),
    }
}

/// Adds `n` keyspaces of a key; what follows them comes with the sets.
pub open spec fn take_uses(b: Seq<u8>, n: nat, key: Seq<u8>, keys: Keys) -> Result<
    (Keys, Seq<u8>),
    DecodeError,
>
    decreases n,
{
    if n == 0 {
        Ok((keys, b))
    } else {
        match take_number(b) {
            Err(e) => Err(e),
            Ok((group, c)) => match take_number(c) {
                Err(e) => Err(e),
                Ok((tag, d)) => take_uses(
                    d,
                    (n - 1) as nat,
                    key,
                    keys.add_use((tagged_keyspace(group, tag), key), tag as nat),
                ),
            },
        }
    }
}

/// Reads a key that follows another.
pub open spec fn take_key(b: Seq<u8>, prev: Seq<u8>) -> Result<(Seq<u8>, Seq<u8>), DecodeError> {
    match take_number(b) {
        Err(e) => Err(e),
        Ok((shared, c)) => if shared > prev.len() {
            Err(DecodeError::OutcomeSharedTooLong)
        } else {
            match take_number(c) {
                Err(e) => Err(e),
                Ok((more, d)) => if more > d.len() {
                    Err(DecodeError::OutcomeKeyTooShort)
                } else {
                    Ok((prev.take(shared as int) + d.take(more as int), d.skip(more as int)))
                },
            }
        },
    }
}

/// Reads `n` keys with their keyspaces.
pub open spec fn take_groups(b: Seq<u8>, n: nat, prev: Seq<u8>, keys: Keys) -> Result<
    Keys,
    DecodeError,
>
    decreases n,
{
    if n == 0 {
        Ok(keys)
    } else {
        match take_key(b, prev) {
            Err(e) => Err(e),
            Ok((key, c)) => match take_number(c) {
                Err(e) => Err(e),
                Ok((uses, d)) => match take_uses(d, uses as nat, key, keys) {
                    Err(e) => Err(e),
                    Ok((more, e)) => take_groups(e, (n - 1) as nat, key, more),
                },
            },
        }
    }
}

impl OutcomeView {
    /// The record that bytes are read as.
    pub open spec fn of(b: Seq<u8>) -> Result<OutcomeView, DecodeError> {
        if b.len() == 0 {
            Err(DecodeError::OutcomeEmpty)
        } else if b[0] == 0 {
            if b.len() != 1 {
                Err(DecodeError::OutcomeExtraBytes)
            } else {
                Ok(OutcomeView::Aborted)
            }
        } else if b[0] == 1 {
            if b.len() < 9 {
                Err(DecodeError::OutcomeTooShort)
            } else {
                match take_number(b.skip(9)) {
                    Err(e) => Err(e),
                    Ok((n, c)) => match take_groups(c, n as nat, Seq::empty(), Keys::none()) {
                        Err(e) => Err(e),
                        Ok(keys) => Ok(
                            OutcomeView::Committed {
                                ts: Timestamp(le_value(b.subrange(1, 9)) as u64),
                                precond_keys: keys.preconds,
                                mut_keys: keys.muts,
                            },
                        ),
                    },
                }
            }
        } else {
            Err(DecodeError::OutcomeTag)
        }
    }
}

/// What a result of decoding is.
pub open spec fn outcome_result(r: Result<TxOutcomeRecord, DecodeError>) -> Result<
    OutcomeView,
    DecodeError,
> {
    match r {
        Ok(rec) => Ok(rec@),
        Err(e) => Err(e),
    }
}

/// The keys of a record while they are grouped.
type Groups = OrdMap<Vec<u8>, OrdMap<KeyspaceId, Use>>;

/// What groups say of a key.
spec fn lookup(m: Groups, k: KeyView) -> Option<Use> {
    if m@.contains_key(k.1) && m@[k.1]@.contains_key(k.0) {
        Some(m@[k.1]@[k.0])
    } else {
        None
    }
}

spec fn groups_wf(m: Groups) -> bool {
    &&& m.wf()
    &&& forall|key: Seq<u8>| #[trigger]
        m@.contains_key(key) ==> m@[key].wf() && m@[key].entries@.len() > 0
}

/// What two sets say of a key.
spec fn wanted(preconds: Set<KeyView>, muts: Set<KeyView>, k: KeyView) -> Option<Use> {
    if preconds.contains(k) || muts.contains(k) {
        Some(Use { precond: preconds.contains(k), mutated: muts.contains(k) })
    } else {
        None
    }
}

spec fn uses_of(m: OrdMap<KeyspaceId, Use>) -> Seq<(KeyspaceId, Use)> {
    Seq::new(m.entries@.len(), |j: int| (m.entries@[j].0, m.entries@[j].1))
}

spec fn groups_of(m: Groups) -> Seq<KeyGroup> {
    Seq::new(
        m.entries@.len(),
        |i: int| KeyGroup { key: m.entries@[i].0@, uses: uses_of(m.entries@[i].1) },
    )
}

/// Adds a key to the keys of preconditions or of mutations.
fn mark(m: &mut Groups, k: &Key, precond: bool)
    requires
        groups_wf(*old(m)),
    ensures
        groups_wf(*final(m)),
        forall|x: KeyView| #[trigger]
            lookup(*final(m), x) == if x == k@ {
                let prior = match lookup(*old(m), x) {
                    Some(u) => u,
                    None => Use { precond: false, mutated: false },
                };
                Some(
                    Use { precond: prior.precond || precond, mutated: prior.mutated || !precond },
                )
            } else {
                lookup(*old(m), x)
            },
{
    let ghost before = *m;
    let mut uses = match m.remove(&k.1) {
        Some(uses) => uses,
        None => OrdMap::new(),
    };
    let ghost uses_before = uses@;
    let prior = match uses.get(&k.0) {
        Some(u) => *u,
        None => Use { precond: false, mutated: false },
    };
    let next = Use { precond: prior.precond || precond, mutated: prior.mutated || !precond };
    uses.insert(k.0, next);
    proof {
        assert(uses@.contains_key(k.0));
        if uses.entries@.len() == 0 {
            uses.lemma_key(k.0);
        }
    }
    let ghost uses_after = uses;
    m.insert(k.1.copied(), uses);
    assert forall|x: KeyView| #[trigger] lookup(*m, x) == if x == k@ {
        Some(next)
    } else {
        lookup(before, x)
    } by {
        if x.1 == k@.1 {
            assert(m@[x.1] == uses_after);
        }
    }
}

proof fn lemma_grouping(m: Groups, preconds: Set<KeyView>, muts: Set<KeyView>)
    requires
        groups_wf(m),
        m.entries@.len() <= u64::MAX,
        forall|i: int|
            0 <= i < m.entries@.len() ==> (#[trigger] m.entries@[i]).0@.len() <= u64::MAX
                && m.entries@[i].1.entries@.len() <= u64::MAX,
        forall|k: KeyView| #[trigger] lookup(m, k) == wanted(preconds, muts, k),
    ensures
        is_grouping(groups_of(m), preconds, muts),
{
    let gs = groups_of(m);
    assert(group_keys(gs) =~= m.keys());
    assert forall|i: int| 0 <= i < gs.len() implies {
        &&& ascending::<KeyspaceId>(use_keyspaces((#[trigger] gs[i]).uses))
        &&& 0 < gs[i].uses.len() <= u64::MAX
        &&& gs[i].key.len() <= u64::MAX
    } by {
        m.lemma_entry(i);
        assert(use_keyspaces(gs[i].uses) =~= m.entries@[i].1.keys());
    }
    assert forall|i: int, j: int| 0 <= i < gs.len() && 0 <= j < gs[i].uses.len() implies {
        let k = (gs[i].uses[j].0, gs[i].key);
        &&& (#[trigger] gs[i].uses[j]).1.precond == preconds.contains(k)
        &&& gs[i].uses[j].1.mutated == muts.contains(k)
        &&& preconds.contains(k) || muts.contains(k)
    } by {
        let k = (gs[i].uses[j].0, gs[i].key);
        m.lemma_entry(i);
        m.entries@[i].1.lemma_entry(j);
        assert(lookup(m, k) == Some(gs[i].uses[j].1));
    }
    assert forall|k: KeyView| preconds.contains(k) || muts.contains(k) implies exists|
        i: int,
        j: int,
    |
        says(
            gs,
            i,
            j,
            k,
            (Use { precond: #[trigger] preconds.contains(k), mutated: muts.contains(k) }),
        ) by {
        assert(lookup(m, k) == wanted(preconds, muts, k));
        m.lemma_key(k.1);
        let i = choose|i: int| 0 <= i < m.entries@.len() && (#[trigger] m.entries@[i]).0@ == k.1;
        m.lemma_entry(i);
        let inner = m.entries@[i].1;
        inner.lemma_key(k.0);
        let j = choose|j: int| 0 <= j < inner.entries@.len() && (#[trigger] inner.entries@[j]).0@
            == k.0;
        inner.lemma_entry(j);
        assert(says(
            gs,
            i,
            j,
            k,
            Use { precond: preconds.contains(k), mutated: muts.contains(k) },
        ));
    }
}

proof fn lemma_group_lens(m: Groups)
    ensures
        m.entries@.len() <= u64::MAX,
        forall|i: int|
            0 <= i < m.entries@.len() ==> (#[trigger] m.entries@[i]).0@.len() <= u64::MAX
                && m.entries@[i].1.entries@.len() <= u64::MAX,
{
    assert(m.entries.len() == m.entries@.len());
    assert forall|i: int| 0 <= i < m.entries@.len() implies (#[trigger] m.entries@[i]).0@.len()
        <= u64::MAX && m.entries@[i].1.entries@.len() <= u64::MAX by {
        assert(m.entries@[i].0.len() == m.entries@[i].0@.len());
        assert(m.entries@[i].1.entries.len() == m.entries@[i].1.entries@.len());
    }
}

/// Whether a key is among the first `n` of a set.
spec fn listed(keys: KeySet, n: int, x: KeyView) -> bool {
    exists|j: int| 0 <= j < n && (#[trigger] keys.entries@[j]).0@ == x
}

/// Marks every key of a set.
fn mark_all(m: &mut Groups, keys: &KeySet, precond: bool)
    requires
        groups_wf(*old(m)),
        keys.wf(),
    ensures
        groups_wf(*final(m)),
        forall|x: KeyView| #[trigger]
            lookup(*final(m), x) == if keys@.contains_key(x) {
                let prior = match lookup(*old(m), x) {
                    Some(u) => u,
                    None => Use { precond: false, mutated: false },
                };
                Some(
                    Use { precond: prior.precond || precond, mutated: prior.mutated || !precond },
                )
            } else {
                lookup(*old(m), x)
            },
{
    let ghost before = *m;
    let mut i: usize = 0;
    while i < keys.entries.len()
        invariant
            i <= keys.entries@.len(),
            keys.wf(),
            groups_wf(*m),
            forall|x: KeyView| #[trigger]
                lookup(*m, x) == if listed(*keys, i as int, x) {
                    let prior = match lookup(before, x) {
                        Some(u) => u,
                        None => Use { precond: false, mutated: false },
                    };
                    Some(
                        Use {
                            precond: prior.precond || precond,
                            mutated: prior.mutated || !precond,
                        },
                    )
                } else {
                    lookup(before, x)
                },
        decreases keys.entries@.len() - i,
    {
        let ghost half = *m;
        mark(m, &keys.entries[i].0, precond);
        proof {
            let k = keys.entries@[i as int].0@;
            assert forall|x: KeyView| #[trigger]
                listed(*keys, i + 1, x) == (listed(*keys, i as int, x) || x == k) by {
                if x == k {
                    assert(keys.entries@[i as int].0@ == x);
                }
            }
            assert forall|x: KeyView| #[trigger] lookup(*m, x) == if listed(*keys, i + 1, x) {
                let prior = match lookup(before, x) {
                    Some(u) => u,
                    None => Use { precond: false, mutated: false },
                };
                Some(
                    Use { precond: prior.precond || precond, mutated: prior.mutated || !precond },
                )
            } else {
                lookup(before, x)
            } by {
                assert(lookup(half, x) == lookup(half, x));
            }
        }
        i += 1;
    }
    proof {
        assert forall|x: KeyView| keys@.contains_key(x) == #[trigger] listed(*keys, i as int, x) by {
            if keys@.contains_key(x) {
                keys.lemma_key(x);
            }
            if listed(*keys, i as int, x) {
                let j = choose|j: int| 0 <= j < i && (#[trigger] keys.entries@[j]).0@ == x;
                keys.lemma_entry(j);
            }
        }
    }
}

fn write_uses(out: &mut Vec<u8>, uses: &OrdMap<KeyspaceId, Use>)
    ensures
        final(out)@ == old(out)@ + uses_bytes(uses_of(*uses)),
{
    let ghost start = out@;
    let ghost us = uses_of(*uses);
    let mut i: usize = 0;
    assert(us.skip(0) =~= us);
    while i < uses.entries.len()
        invariant
            i <= uses.entries@.len(),
            us == uses_of(*uses),
            out@ + uses_bytes(us.skip(i as int)) == start + uses_bytes(us),
        decreases uses.entries@.len() - i,
    {
        let ghost before = out@;
        let keyspace_id = uses.entries[i].0;
        let u = uses.entries[i].1;
        let bits: u64 = (if u.precond {
            1u64
        } else {
            0u64
        }) + (if u.mutated {
            2u64
        } else {
            0u64
        });
        write_varint(out, keyspace_id.0.0 as u64);
        write_varint(out, keyspace_id.1 as u64 * 4 + bits);
        proof {
            let rest = us.skip(i as int);
            assert(rest[0] == us[i as int]);
            assert(rest.drop_first() =~= us.skip(i + 1));
            assert(out@ =~= before + use_bytes(us[i as int]));
            assert(out@ + uses_bytes(us.skip(i + 1)) =~= before + (use_bytes(us[i as int])
                + uses_bytes(us.skip(i + 1))));
        }
        i += 1;
    }
    assert(us.skip(i as int) =~= Seq::empty());
    assert(out@ + uses_bytes(us.skip(i as int)) =~= out@);
}

fn write_group(
    out: &mut Vec<u8>,
    prev: &[u8],
    key: &Vec<u8>,
    uses: &OrdMap<KeyspaceId, Use>,
)
    ensures
        final(out)@ == old(out)@ + group_bytes(
            prev@,
            (KeyGroup { key: key@, uses: uses_of(*uses) }),
        ),
{
    let ghost start = out@;
    let shared: usize = shared_len(prev, key.as_slice());
    write_varint(out, shared as u64);
    write_varint(out, (key.len() - shared) as u64);
    let more = sub_bytes(key.as_slice(), shared, key.len());
    assert(more@ =~= key@.skip(shared as int));
    append_bytes(out, more.as_slice());
    write_varint(out, uses.entries.len() as u64);
    write_uses(out, uses);
    assert(out@ =~= start + group_bytes(prev@, KeyGroup { key: key@, uses: uses_of(*uses) }));
}

fn write_groups(out: &mut Vec<u8>, m: &Groups)
    ensures
        final(out)@ == old(out)@ + groups_bytes(Seq::empty(), groups_of(*m)),
{
    let ghost start = out@;
    let ghost gs = groups_of(*m);
    let none: Vec<u8> = Vec::new();
    let mut i: usize = 0;
    let ghost mut prev_key: Seq<u8> = Seq::empty();
    assert(gs.skip(0) =~= gs);
    while i < m.entries.len()
        invariant
            i <= m.entries@.len(),
            gs == groups_of(*m),
            none@ == Seq::<u8>::empty(),
            prev_key == if i == 0 {
                Seq::<u8>::empty()
            } else {
                m.entries@[i - 1].0@
            },
            out@ + groups_bytes(prev_key, gs.skip(i as int)) == start + groups_bytes(
                Seq::empty(),
                gs,
            ),
        decreases m.entries@.len() - i,
    {
        let ghost before = out@;
        let prev: &[u8] = if i == 0 {
            none.as_slice()
        } else {
            m.entries[i - 1].0.as_slice()
        };
        write_group(out, prev, &m.entries[i].0, &m.entries[i].1);
        proof {
            let rest = gs.skip(i as int);
            assert(rest[0] == gs[i as int]);
            assert(rest.drop_first() =~= gs.skip(i + 1));
            let tail = groups_bytes(gs[i as int].key, gs.skip(i + 1));
            assert(out@ + tail =~= before + (group_bytes(prev_key, gs[i as int]) + tail));
            prev_key = gs[i as int].key;
        }
        i += 1;
    }
    assert(gs.skip(i as int) =~= Seq::empty());
    assert(out@ + groups_bytes(prev_key, gs.skip(i as int)) =~= out@);
}

fn number_at(b: &[u8], at: usize) -> (r: Result<(u64, usize), DecodeError>)
    requires
        at <= b@.len(),
    ensures
        match take_number(b@.skip(at as int)) {
            Ok((n, rest)) => r matches Ok((m, end)) && m == n && at <= end <= b@.len() && rest
                == b@.skip(end as int),
            Err(e) => r == Err::<(u64, usize), DecodeError>(e),
        },
{
    match read_varint(b, at) {
        Some((n, end)) => {
            assert(b@.skip(at as int).skip(end - at) =~= b@.skip(end as int));
            Ok((n, end))
        },
        None => Err(DecodeError::OutcomeNumber),
    }
}

fn key_at(b: &[u8], at: usize, prev: &Vec<u8>) -> (r: Result<(Vec<u8>, usize), DecodeError>)
    requires
        at <= b@.len(),
    ensures
        match take_key(b@.skip(at as int), prev@) {
            Ok((key, rest)) => r matches Ok((k, end)) && k@ == key && at <= end <= b@.len()
                && rest == b@.skip(end as int),
            Err(e) => r matches Err(e2) && e2 == e,
        },
{
    match number_at(b, at) {
        Err(e) => Err(e),
        Ok((shared, at)) => {
            if shared > prev.len() as u64 {
                return Err(DecodeError::OutcomeSharedTooLong);
            }
            match number_at(b, at) {
                Err(e) => Err(e),
                Ok((more, at)) => {
                    if more > (b.len() - at) as u64 {
                        return Err(DecodeError::OutcomeKeyTooShort);
                    }
                    let end: usize = at + more as usize;
                    let mut key = sub_bytes(prev.as_slice(), 0, shared as usize);
                    let rest = sub_bytes(b, at, end);
                    append_bytes(&mut key, rest.as_slice());
                    proof {
                        let d = b@.skip(at as int);
                        assert(rest@ =~= d.take(more as int));
                        assert(d.skip(more as int) =~= b@.skip(end as int));
                        assert(key@ =~= prev@.take(shared as int) + d.take(more as int));
                    }
                    Ok((key, end))
                },
            }
        },
    }
}

spec fn sets(preconds: KeySet, muts: KeySet) -> Keys {
    Keys { preconds: preconds@.dom(), muts: muts@.dom() }
}

/// Adds `n` keyspaces of a key, and says where they end.
fn uses_at(
    b: &[u8],
    at: usize,
    n: u64,
    key: &Vec<u8>,
    preconds: &mut KeySet,
    muts: &mut KeySet,
) -> (r: Result<usize, DecodeError>)
    requires
        at <= b@.len(),
        old(preconds).wf(),
        old(muts).wf(),
    ensures
        final(preconds).wf(),
        final(muts).wf(),
        match take_uses(b@.skip(at as int), n as nat, key@, sets(*old(preconds), *old(muts))) {
            Ok((keys, rest)) => r matches Ok(end) && at <= end <= b@.len() && rest == b@.skip(
                end as int,
            ) && sets(*final(preconds), *final(muts)) == keys,
            Err(e) => r == Err::<usize, DecodeError>(e),
        },
{
    let ghost goal = take_uses(b@.skip(at as int), n as nat, key@, sets(*preconds, *muts));
    let mut pos: usize = at;
    let mut left: u64 = n;
    while left > 0
        invariant
            at <= pos <= b@.len(),
            preconds.wf(),
            muts.wf(),
            goal == take_uses(
                b@.skip(at as int),
                n as nat,
                key@,
                sets(*old(preconds), *old(muts)),
            ),
            goal == take_uses(b@.skip(pos as int), left as nat, key@, sets(*preconds, *muts)),
        decreases left,
    {
        let (group, after_group) = match number_at(b, pos) {
            Ok(x) => x,
            Err(e) => {
                return Err(e);
            },
        };
        let (tag, after_tag) = match number_at(b, after_group) {
            Ok(x) => x,
            Err(e) => {
                return Err(e);
            },
        };
        let keyspace_id = KeyspaceId(
            ColoGroupId((group % 0x1_0000_0000) as u32),
            ((tag / 4) % 0x1_0000_0000) as u32,
        );
        let ghost k = (keyspace_id, key@);
        let ghost before = sets(*preconds, *muts);
        if tag % 2 == 1 {
            preconds.insert((keyspace_id, key.copied()), ());
        }
        if (tag / 2) % 2 == 1 {
            muts.insert((keyspace_id, key.copied()), ());
        }
        proof {
            assert(keyspace_id == tagged_keyspace(group, tag));
            let after = sets(*preconds, *muts);
            let want = before.add_use(k, tag as nat);
            assert(after.preconds =~= want.preconds);
            assert(after.muts =~= want.muts);
        }
        pos = after_tag;
        left -= 1;
    }
    Ok(pos)
}

impl TxOutcomeRecord {
    pub open spec fn wf(self) -> bool {
        match self {
            TxOutcomeRecord::Committed { ts, precond_keys, mut_keys } => precond_keys.wf()
                && mut_keys.wf(),
            TxOutcomeRecord::Aborted => true,
        }
    }

    /// The outcome without the keys.
    pub open spec fn outcome(self) -> TxOutcome {
        match self {
            TxOutcomeRecord::Committed { ts, precond_keys, mut_keys } => TxOutcome::Committed(ts),
            TxOutcomeRecord::Aborted => TxOutcome::Aborted,
        }
    }

    pub fn tx_outcome(&self) -> (r: TxOutcome)
        ensures
            r == self.outcome(),
    {
        match self {
            TxOutcomeRecord::Committed { ts, .. } => TxOutcome::Committed(*ts),
            TxOutcomeRecord::Aborted => TxOutcome::Aborted,
        }
    }

    pub fn encode(&self) -> (r: Vec<u8>)
        requires
            self.wf(),
        ensures
            self@.encoded(r@),
    {
        let mut out: Vec<u8> = Vec::new();
        match self {
            TxOutcomeRecord::Aborted => {
                out.push(0);
                assert(out@ =~= seq![0u8]);
            },
            TxOutcomeRecord::Committed { ts, precond_keys, mut_keys } => {
                let mut m: Groups = OrdMap::new();
                let ghost empty = m;
                mark_all(&mut m, precond_keys, true);
                let ghost half = m;
                mark_all(&mut m, mut_keys, false);
                out.push(1);
                let ts_bytes = u64_le(ts.0);
                append_bytes(&mut out, &ts_bytes);
                write_varint(&mut out, m.entries.len() as u64);
                write_groups(&mut out, &m);
                proof {
                    let p = precond_keys@.dom();
                    let q = mut_keys@.dom();
                    assert forall|k: KeyView| #[trigger] lookup(m, k) == wanted(p, q, k) by {
                        assert(lookup(empty, k) is None);
                        assert(lookup(half, k) == lookup(half, k));
                    }
                    lemma_group_lens(m);
                    lemma_grouping(m, p, q);
                    lemma_bytes_of_value(ts_bytes@.reverse());
                    assert(ts_bytes@ =~= ts_bytes@.reverse().reverse());
                    assert(out@ =~= committed_bytes(*ts, groups_of(m)));
                    assert(commit_encoded(out@, *ts, p, q));
                }
            },
        }
        out
    }

    pub fn decode(b: &[u8]) -> (r: Result<Self, DecodeError>)
        ensures
            outcome_result(r) == OutcomeView::of(b@),
            r matches Ok(rec) ==> rec.wf(),
    {
        if b.len() == 0 {
            return Err(DecodeError::OutcomeEmpty);
        }
        if b[0] == 0 {
            if b.len() != 1 {
                return Err(DecodeError::OutcomeExtraBytes);
            }
            return Ok(TxOutcomeRecord::Aborted);
        }
        if b[0] != 1 {
            return Err(DecodeError::OutcomeTag);
        }
        if b.len() < 9 {
            return Err(DecodeError::OutcomeTooShort);
        }
        let ts_bytes = sub_bytes(b, 1, 9);
        assert(ts_bytes@.take(8) =~= ts_bytes@);
        let ts = Timestamp(read_u64_le(ts_bytes.as_slice()));
        let (n_keys, start) = match number_at(b, 9) {
            Ok(x) => x,
            Err(e) => {
                return Err(e);
            },
        };
        let mut precond_keys: KeySet = OrdMap::new();
        let mut mut_keys: KeySet = OrdMap::new();
        let mut prev_key: Vec<u8> = Vec::new();
        let mut pos: usize = start;
        let mut left: u64 = n_keys;
        let ghost goal = take_groups(b@.skip(start as int), n_keys as nat, Seq::empty(), Keys::none());
        proof {
            let s = sets(precond_keys, mut_keys);
            assert(s.preconds =~= Keys::none().preconds);
            assert(s.muts =~= Keys::none().muts);
            assert(prev_key@ =~= Seq::<u8>::empty());
        }
        while left > 0
            invariant
                pos <= b@.len(),
                9 <= b@.len(),
                b@[0] == 1,
                take_number(b@.skip(9)) matches Ok((n, rest)) && n == n_keys && rest == b@.skip(
                    start as int,
                ),
                goal == take_groups(
                    b@.skip(start as int),
                    n_keys as nat,
                    Seq::empty(),
                    Keys::none(),
                ),
                precond_keys.wf(),
                mut_keys.wf(),
                goal == take_groups(
                    b@.skip(pos as int),
                    left as nat,
                    prev_key@,
                    sets(precond_keys, mut_keys),
                ),
            decreases left,
        {
            let (key, after_key) = match key_at(b, pos, &prev_key) {
                Ok(x) => x,
                Err(e) => {
                    return Err(e);
                },
            };
            let (n_uses, after_count) = match number_at(b, after_key) {
                Ok(x) => x,
                Err(e) => {
                    return Err(e);
                },
            };
            match uses_at(b, after_count, n_uses, &key, &mut precond_keys, &mut mut_keys) {
                Ok(end) => {
                    pos = end;
                },
                Err(e) => {
                    return Err(e);
                },
            }
            prev_key = key;
            left -= 1;
        }
        Ok(TxOutcomeRecord::Committed { ts, precond_keys, mut_keys })
    }
}

} // verus!
