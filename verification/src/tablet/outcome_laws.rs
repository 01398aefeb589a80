//! Records of outcomes are read back from their encodings.

use vstd::prelude::*;

use super::outcome::{
    committed_bytes, group_keys, groups_bytes, is_grouping, says, tagged_keyspace, take_groups,
    take_key, take_number, take_uses, use_keyspaces, uses_bytes, KeyGroup, Keys, OutcomeView, Use,
};
use super::pending::DecodeError;
use crate::range::order::{common_len, lemma_common_len};
use crate::types::data::KeyView;
use crate::types::KeyspaceId;
use crate::util::bytes::{be_bytes, lemma_byte_range, lemma_value_of_bytes};
use crate::util::ordmap::{ascending, law_ascending_unique, lemma_ascending, OrdKey};
use crate::util::varint::{law_varint_roundtrip, varint};

verus! {

/// The sets with all uses of a key.
spec fn add_uses(keys: Keys, key: Seq<u8>, us: Seq<(KeyspaceId, Use)>) -> Keys
    decreases us.len(),
{
    if us.len() == 0 {
        keys
    } else {
        add_uses(
            keys.add_use((us[0].0, key), us[0].0.1 as nat * 4 + us[0].1.bits()),
            key,
            us.drop_first(),
        )
    }
}

/// The sets with all uses of all keys.
spec fn add_groups(keys: Keys, gs: Seq<KeyGroup>) -> Keys
    decreases gs.len(),
{
    if gs.len() == 0 {
        keys
    } else {
        add_groups(add_uses(keys, gs[0].key, gs[0].uses), gs.drop_first())
    }
}

proof fn lemma_take_number(n: u64, tail: Seq<u8>)
    ensures
        take_number(varint(n as nat) + tail) == Ok::<(u64, Seq<u8>), DecodeError>((n, tail)),
{
    law_varint_roundtrip(n, tail);
    let len = varint(n as nat).len() as int;
    assert((varint(n as nat) + tail).skip(len) =~= tail);
}

proof fn lemma_take_uses(us: Seq<(KeyspaceId, Use)>, key: Seq<u8>, keys: Keys, tail: Seq<u8>)
    ensures
        take_uses(uses_bytes(us) + tail, us.len(), key, keys) == Ok::<(Keys, Seq<u8>), DecodeError>(
            (add_uses(keys, key, us), tail),
        ),
    decreases us.len(),
{
    let b = uses_bytes(us) + tail;
    if us.len() == 0 {
        assert(b =~= tail);
    } else {
        let u = us[0];
        let group = u.0.0.0 as u64;
        let tag = (u.0.1 as nat * 4 + u.1.bits()) as u64;
        let rest = uses_bytes(us.drop_first()) + tail;
        let c = varint(tag as nat) + rest;
        assert(b =~= varint(group as nat) + c);
        lemma_take_number(group, c);
        lemma_take_number(tag, rest);
        assert(tagged_keyspace(group, tag) == u.0);
        lemma_take_uses(us.drop_first(), key, keys.add_use((u.0, key), tag as nat), tail);
    }
}

proof fn lemma_take_key(prev: Seq<u8>, key: Seq<u8>, tail: Seq<u8>)
    requires
        key.len() <= u64::MAX,
    ensures
        ({
            let shared = common_len(prev, key);
            take_key(
                varint(shared) + varint((key.len() - shared) as nat) + key.skip(shared as int)
                    + tail,
                prev,
            ) == Ok::<(Seq<u8>, Seq<u8>), DecodeError>((key, tail))
        }),
{
    let shared = common_len(prev, key);
    lemma_common_len(prev, key);
    let more = (key.len() - shared) as nat;
    let d = key.skip(shared as int) + tail;
    let c = varint(more) + d;
    let b = varint(shared) + varint(more) + key.skip(shared as int) + tail;
    assert(b =~= varint(shared) + c);
    lemma_take_number(shared as u64, c);
    lemma_take_number(more as u64, d);
    assert(d.take(more as int) =~= key.skip(shared as int));
    assert(d.skip(more as int) =~= tail);
    assert(prev.take(shared as int) + d.take(more as int) =~= key);
}

spec fn lens_fit(gs: Seq<KeyGroup>) -> bool {
    forall|i: int|
        0 <= i < gs.len() ==> (#[trigger] gs[i]).uses.len() <= u64::MAX && gs[i].key.len()
            <= u64::MAX
}

proof fn lemma_take_groups(gs: Seq<KeyGroup>, prev: Seq<u8>, keys: Keys)
    requires
        lens_fit(gs),
    ensures
        take_groups(groups_bytes(prev, gs), gs.len(), prev, keys) == Ok::<Keys, DecodeError>(
            add_groups(keys, gs),
        ),
    decreases gs.len(),
{
    if gs.len() > 0 {
        let g = gs[0];
        let shared = common_len(prev, g.key);
        let rest = groups_bytes(g.key, gs.drop_first());
        let b = groups_bytes(prev, gs);
        let d = uses_bytes(g.uses) + rest;
        let c = varint(g.uses.len()) + d;
        assert(b =~= varint(shared) + varint((g.key.len() - shared) as nat) + g.key.skip(
            shared as int,
        ) + c);
        lemma_take_key(prev, g.key, c);
        lemma_take_number(g.uses.len() as u64, d);
        lemma_take_uses(g.uses, g.key, keys, rest);
        assert forall|i: int| 0 <= i < gs.drop_first().len() implies (#[trigger] gs.drop_first()[i]).uses.len()
            <= u64::MAX && gs.drop_first()[i].key.len() <= u64::MAX by {
            assert(gs.drop_first()[i] == gs[i + 1]);
        }
        lemma_take_groups(gs.drop_first(), g.key, add_uses(keys, g.key, g.uses));
    }
}

/// Whether a use of a keyspace is listed.
spec fn in_uses(us: Seq<(KeyspaceId, Use)>, id: KeyspaceId, precond: bool) -> bool {
    exists|j: int|
        0 <= j < us.len() && (#[trigger] us[j]).0 == id && if precond {
            us[j].1.precond
        } else {
            us[j].1.mutated
        }
}

proof fn lemma_add_uses(keys: Keys, key: Seq<u8>, us: Seq<(KeyspaceId, Use)>, k: KeyView)
    ensures
        add_uses(keys, key, us).preconds.contains(k) == (keys.preconds.contains(k) || (k.1 == key
            && in_uses(us, k.0, true))),
        add_uses(keys, key, us).muts.contains(k) == (keys.muts.contains(k) || (k.1 == key
            && in_uses(us, k.0, false))),
    decreases us.len(),
{
    if us.len() > 0 {
        let tag = us[0].0.1 as nat * 4 + us[0].1.bits();
        let next = keys.add_use((us[0].0, key), tag);
        let rest = us.drop_first();
        lemma_add_uses(next, key, rest, k);
        assert(tag % 2 == 1 <==> us[0].1.precond);
        assert((tag / 2) % 2 == 1 <==> us[0].1.mutated);
        lemma_in_uses(us, k.0, true);
        lemma_in_uses(us, k.0, false);
    }
}

proof fn lemma_in_uses(us: Seq<(KeyspaceId, Use)>, id: KeyspaceId, precond: bool)
    requires
        us.len() > 0,
    ensures
        in_uses(us, id, precond) == (in_uses(us.drop_first(), id, precond) || (us[0].0 == id && if precond {
            us[0].1.precond
        } else {
            us[0].1.mutated
        })),
{
    let rest = us.drop_first();
    if in_uses(us, id, precond) {
        let j = choose|j: int|
            0 <= j < us.len() && (#[trigger] us[j]).0 == id && if precond {
                us[j].1.precond
            } else {
                us[j].1.mutated
            };
        if j > 0 {
            assert(rest[j - 1] == us[j]);
        }
    }
    if in_uses(rest, id, precond) {
        let j = choose|j: int|
            0 <= j < rest.len() && (#[trigger] rest[j]).0 == id && if precond {
                rest[j].1.precond
            } else {
                rest[j].1.mutated
            };
        assert(us[j + 1] == rest[j]);
    }
}

/// Whether a use of a key is listed.
spec fn in_groups(gs: Seq<KeyGroup>, k: KeyView, precond: bool) -> bool {
    exists|i: int|
        0 <= i < gs.len() && (#[trigger] gs[i]).key == k.1 && in_uses(gs[i].uses, k.0, precond)
}

proof fn lemma_in_groups(gs: Seq<KeyGroup>, k: KeyView, precond: bool)
    requires
        gs.len() > 0,
    ensures
        in_groups(gs, k, precond) == (in_groups(gs.drop_first(), k, precond) || (gs[0].key == k.1
            && in_uses(gs[0].uses, k.0, precond))),
{
    let rest = gs.drop_first();
    if in_groups(gs, k, precond) {
        let i = choose|i: int|
            0 <= i < gs.len() && (#[trigger] gs[i]).key == k.1 && in_uses(gs[i].uses, k.0, precond);
        if i > 0 {
            assert(rest[i - 1] == gs[i]);
        }
    }
    if in_groups(rest, k, precond) {
        let i = choose|i: int|
            0 <= i < rest.len() && (#[trigger] rest[i]).key == k.1 && in_uses(
                rest[i].uses,
                k.0,
                precond,
            );
        assert(gs[i + 1] == rest[i]);
    }
}

proof fn lemma_add_groups(keys: Keys, gs: Seq<KeyGroup>, k: KeyView)
    ensures
        add_groups(keys, gs).preconds.contains(k) == (keys.preconds.contains(k) || in_groups(
            gs,
            k,
            true,
        )),
        add_groups(keys, gs).muts.contains(k) == (keys.muts.contains(k) || in_groups(gs, k, false)),
    decreases gs.len(),
{
    if gs.len() > 0 {
        lemma_add_uses(keys, gs[0].key, gs[0].uses, k);
        lemma_add_groups(add_uses(keys, gs[0].key, gs[0].uses), gs.drop_first(), k);
        lemma_in_groups(gs, k, true);
        lemma_in_groups(gs, k, false);
    }
}

proof fn lemma_grouped(
    gs: Seq<KeyGroup>,
    preconds: Set<KeyView>,
    muts: Set<KeyView>,
    k: KeyView,
)
    requires
        is_grouping(gs, preconds, muts),
    ensures
        preconds.contains(k) == in_groups(gs, k, true),
        muts.contains(k) == in_groups(gs, k, false),
{
    if preconds.contains(k) || muts.contains(k) {
        let u = Use { precond: preconds.contains(k), mutated: muts.contains(k) };
        assert(exists|i: int, j: int| says(gs, i, j, k, u));
        let (i, j) = choose|i: int, j: int| says(gs, i, j, k, u);
        assert(gs[i].uses[j].0 == k.0);
    }
    if in_groups(gs, k, true) {
        let i = choose|i: int|
            0 <= i < gs.len() && (#[trigger] gs[i]).key == k.1 && in_uses(gs[i].uses, k.0, true);
        let j = choose|j: int|
            0 <= j < gs[i].uses.len() && (#[trigger] gs[i].uses[j]).0 == k.0 && if true {
                gs[i].uses[j].1.precond
            } else {
                gs[i].uses[j].1.mutated
            };
        assert(gs[i].uses[j].1.precond == preconds.contains((gs[i].uses[j].0, gs[i].key)));
    }
    if in_groups(gs, k, false) {
        let i = choose|i: int|
            0 <= i < gs.len() && (#[trigger] gs[i]).key == k.1 && in_uses(gs[i].uses, k.0, false);
        let j = choose|j: int|
            0 <= j < gs[i].uses.len() && (#[trigger] gs[i].uses[j]).0 == k.0 && if false {
                gs[i].uses[j].1.precond
            } else {
                gs[i].uses[j].1.mutated
            };
        assert(gs[i].uses[j].1.mutated == muts.contains((gs[i].uses[j].0, gs[i].key)));
    }
}

/// A record of an outcome is read back from its encoding.
pub proof fn law_outcome_roundtrip(rec: OutcomeView, b: Seq<u8>)
    requires
        rec.encoded(b),
    ensures
        OutcomeView::of(b) == Ok::<OutcomeView, DecodeError>(rec),
{
    match rec {
        OutcomeView::Aborted => {},
        OutcomeView::Committed { ts, precond_keys, mut_keys } => {
            let gs = choose|gs: Seq<KeyGroup>|
                is_grouping(gs, precond_keys, mut_keys) && b == #[trigger] committed_bytes(ts, gs);
            let time = be_bytes(ts.0 as nat, 8);
            lemma_byte_range();
            lemma_value_of_bytes(ts.0 as nat, 8);
            let body = groups_bytes(Seq::empty(), gs);
            let tail = varint(gs.len()) + body;
            assert(b =~= seq![1u8] + time.reverse() + tail);
            assert(b[0] == 1);
            assert(b.subrange(1, 9) =~= time.reverse());
            assert(time.reverse().reverse() =~= time);
            assert(b.skip(9) =~= tail);
            lemma_take_number(gs.len() as u64, body);
            lemma_take_groups(gs, Seq::empty(), Keys::none());
            let keys = add_groups(Keys::none(), gs);
            assert forall|k: KeyView| #[trigger]
                keys.preconds.contains(k) == precond_keys.contains(k) by {
                lemma_add_groups(Keys::none(), gs, k);
                lemma_grouped(gs, precond_keys, mut_keys, k);
            }
            assert forall|k: KeyView| #[trigger] keys.muts.contains(k) == mut_keys.contains(k) by {
                lemma_add_groups(Keys::none(), gs, k);
                lemma_grouped(gs, precond_keys, mut_keys, k);
            }
            assert(keys.preconds =~= precond_keys);
            assert(keys.muts =~= mut_keys);
        },
    }
}

/// Two sets of keys are grouped in one way only.
proof fn lemma_grouping_unique(
    a: Seq<KeyGroup>,
    b: Seq<KeyGroup>,
    preconds: Set<KeyView>,
    muts: Set<KeyView>,
)
    requires
        is_grouping(a, preconds, muts),
        is_grouping(b, preconds, muts),
    ensures
        a == b,
{
    assert forall|x: Seq<u8>|
        group_keys(a).contains(x) <==> #[trigger] group_keys(b).contains(x) by {
        if group_keys(a).contains(x) {
            let i = choose|i: int| 0 <= i < group_keys(a).len() && group_keys(a)[i] == x;
            lemma_group_shared(a, b, preconds, muts, i, 0);
        }
        if group_keys(b).contains(x) {
            let i = choose|i: int| 0 <= i < group_keys(b).len() && group_keys(b)[i] == x;
            lemma_group_shared(b, a, preconds, muts, i, 0);
        }
    }
    law_ascending_unique::<Vec<u8>>(group_keys(a), group_keys(b));
    assert(group_keys(a).len() == a.len());
    assert(group_keys(b).len() == b.len());
    assert forall|i: int| 0 <= i < a.len() implies a[i] == b[i] by {
        assert(group_keys(a)[i] == a[i].key);
        assert(group_keys(b)[i] == b[i].key);
        let s = use_keyspaces(a[i].uses);
        let t = use_keyspaces(b[i].uses);
        assert forall|x: KeyspaceId| s.contains(x) <==> #[trigger] t.contains(x) by {
            if s.contains(x) {
                let j = choose|j: int| 0 <= j < s.len() && s[j] == x;
                lemma_group_shared(a, b, preconds, muts, i, j);
                lemma_same_group(a, b, i);
            }
            if t.contains(x) {
                let j = choose|j: int| 0 <= j < t.len() && t[j] == x;
                lemma_group_shared(b, a, preconds, muts, i, j);
                lemma_same_group(b, a, i);
            }
        }
        law_ascending_unique::<KeyspaceId>(s, t);
        assert(s.len() == a[i].uses.len() && t.len() == b[i].uses.len());
        assert forall|j: int| 0 <= j < a[i].uses.len() implies a[i].uses[j] == b[i].uses[j] by {
            assert(s[j] == a[i].uses[j].0);
            assert(t[j] == b[i].uses[j].0);
            assert(a[i].uses[j].1.precond == b[i].uses[j].1.precond);
            assert(a[i].uses[j].1.mutated == b[i].uses[j].1.mutated);
        }
        assert(a[i].uses =~= b[i].uses);
    }
    assert(a =~= b);
}

/// What one grouping says of a key, another says too.
proof fn lemma_group_shared(
    a: Seq<KeyGroup>,
    b: Seq<KeyGroup>,
    preconds: Set<KeyView>,
    muts: Set<KeyView>,
    i: int,
    j: int,
)
    requires
        is_grouping(a, preconds, muts),
        is_grouping(b, preconds, muts),
        0 <= i < a.len(),
        0 <= j < a[i].uses.len(),
    ensures
        group_keys(b).contains(a[i].key),
        exists|x: int, y: int|
            0 <= x < b.len() && 0 <= y < b[x].uses.len() && b[x].key == a[i].key && (
            #[trigger] b[x].uses[y]).0 == a[i].uses[j].0,
{
    let k = (a[i].uses[j].0, a[i].key);
    assert(a[i].uses[j].1.precond == preconds.contains(k));
    let u = Use { precond: preconds.contains(k), mutated: muts.contains(k) };
    assert(exists|x: int, y: int| says(b, x, y, k, u));
    let (x, y) = choose|x: int, y: int| says(b, x, y, k, u);
    assert(group_keys(b)[x] == a[i].key);
    assert(b[x].uses[y].0 == k.0);
}

/// Groups of the same key stand at the same place.
proof fn lemma_same_group(a: Seq<KeyGroup>, b: Seq<KeyGroup>, i: int)
    requires
        ascending::<Vec<u8>>(group_keys(b)),
        group_keys(a) == group_keys(b),
        0 <= i < a.len(),
        a.len() == b.len(),
    ensures
        forall|x: int| 0 <= x < b.len() && (#[trigger] b[x]).key == a[i].key ==> x == i,
        forall|x: int, y: int|
            0 <= x < b.len() && 0 <= y < b[x].uses.len() && b[x].key == a[i].key ==> use_keyspaces(
                b[i].uses,
            ).contains((#[trigger] b[x].uses[y]).0),
{
    assert(group_keys(a)[i] == a[i].key);
    assert forall|x: int| 0 <= x < b.len() && (#[trigger] b[x]).key == a[i].key implies x == i by {
        assert(group_keys(b)[x] == b[x].key);
        assert(group_keys(b)[i] == b[i].key);
        <Vec<u8> as OrdKey>::lemma_irreflexive(b[x].key);
        let keys = group_keys(b);
        if x < i {
            lemma_ascending::<Vec<u8>>(keys, x, i);
        }
        if i < x {
            lemma_ascending::<Vec<u8>>(keys, i, x);
        }
    }
    assert forall|x: int, y: int|
        0 <= x < b.len() && 0 <= y < b[x].uses.len() && b[x].key == a[i].key implies use_keyspaces(
        b[i].uses,
    ).contains((#[trigger] b[x].uses[y]).0) by {
        assert(b[x].key == a[i].key);
        assert(use_keyspaces(b[i].uses)[y] == b[x].uses[y].0);
    }
}

/// A record of an outcome has one encoding.
pub proof fn law_outcome_encoding_unique(rec: OutcomeView, b: Seq<u8>, c: Seq<u8>)
    requires
        rec.encoded(b),
        rec.encoded(c),
    ensures
        b == c,
{
    if let OutcomeView::Committed { ts, precond_keys, mut_keys } = rec {
        let x = choose|gs: Seq<KeyGroup>|
            is_grouping(gs, precond_keys, mut_keys) && b == #[trigger] committed_bytes(ts, gs);
        let y = choose|gs: Seq<KeyGroup>|
            is_grouping(gs, precond_keys, mut_keys) && c == #[trigger] committed_bytes(ts, gs);
        lemma_grouping_unique(x, y, precond_keys, mut_keys);
    }
}

} // verus!
