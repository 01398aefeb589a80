//! A hash map that grows without long pauses.

use std::collections::HashMap;

use vstd::arithmetic::power2::pow2;
use vstd::prelude::*;

use super::key::{hash_key, hash_of, random_seed, CacheKey};

verus! {

/// How many children a node has: as many as four bits of the hash tell apart, which is what each
/// level of the trie uses.
pub const HASH_TRIE_BRANCH_FACTOR: usize = 16;

/// Leaves are not deeper than this, because no bits of the hash are left there.
pub const HASH_TRIE_MAX_DEPTH: usize = 16;

/// How many entries a leaf holds before it is split.
///
/// A split moves this many entries, so this determines how expensive the most expensive write is. A
/// larger number makes reads slightly cheaper because the trie is lower.
pub const HASH_TRIE_LEAF_MAX: usize = 16384;

/// Entries in one leaf, by hash.
pub struct HashTrieLeaf<K, V> {
    buckets: HashMap<u64, Vec<(K, V)>>,
    n: usize,
}

/// A leaf, or a node with one child for each value of the next bits of the hash.
pub enum HashTrieNode<K, V> {
    Internal(Vec<Option<Box<HashTrieNode<K, V>>>>),
    Leaf(HashTrieLeaf<K, V>),
}

/// A map that behaves mostly like a hash map, but has no occasional very slow insert into a large
/// map, at the cost of being a little slower.
pub struct HashTrie<K, V> {
    seed: Vec<u8>,
    pub root: HashTrieNode<K, V>,
    len: usize,
}

/// The digit of a hash, in base 16 from the top, that decides at a depth.
pub open spec fn digit(h: u64, depth: int) -> int {
    (h as int / pow2((60 - 4 * depth) as nat) as int) % 16
}

/// What a bucket maps keys to. A later entry would win over an earlier one with the same key.
spec fn bucket_map<K: CacheKey, V>(b: Seq<(K, V)>) -> Map<K::V, V>
    decreases b.len(),
{
    if b.len() == 0 {
        Map::empty()
    } else {
        bucket_map(b.drop_last()).insert(b.last().0@, b.last().1)
    }
}

/// Whether no key occurs twice.
spec fn distinct_keys<K: CacheKey, V>(b: Seq<(K, V)>) -> bool {
    forall|i: int, j: int|
        0 <= i < j < b.len() ==> (#[trigger] b[i]).0@ != (#[trigger] b[j]).0@
}

proof fn lemma_bucket_map<K: CacheKey, V>(b: Seq<(K, V)>)
    requires
        distinct_keys(b),
    ensures
        forall|i: int|
            0 <= i < b.len() ==> bucket_map(b).contains_key((#[trigger] b[i]).0@) && bucket_map(
                b,
            )[b[i].0@] == b[i].1,
        forall|k: K::V| #[trigger]
            bucket_map(b).contains_key(k) ==> exists|i: int|
                0 <= i < b.len() && (#[trigger] b[i]).0@ == k,
        bucket_map(b).dom().finite(),
        bucket_map(b).dom().len() == b.len(),
    decreases b.len(),
{
    if b.len() > 0 {
        let r = b.drop_last();
        lemma_bucket_map(r);
        assert forall|i: int| 0 <= i < b.len() implies bucket_map(b).contains_key(
            (#[trigger] b[i]).0@,
        ) && bucket_map(b)[b[i].0@] == b[i].1 by {
            if i < r.len() {
                assert(r[i] == b[i]);
                assert(b[i].0@ != b[b.len() - 1].0@);
            }
        }
        assert forall|k: K::V| #[trigger] bucket_map(b).contains_key(k) implies exists|i: int|
            0 <= i < b.len() && (#[trigger] b[i]).0@ == k by {
            if k == b.last().0@ {
                assert(b[b.len() - 1].0@ == k);
            } else {
                assert(bucket_map(r).contains_key(k));
                let i = choose|i: int| 0 <= i < r.len() && (#[trigger] r[i]).0@ == k;
                assert(b[i].0@ == k);
            }
        }
        assert(!bucket_map(r).contains_key(b.last().0@)) by {
            if bucket_map(r).contains_key(b.last().0@) {
                let i = choose|i: int| 0 <= i < r.len() && (#[trigger] r[i]).0@ == b.last().0@;
                assert(b[i].0@ != b[b.len() - 1].0@);
            }
        }
    }
}

/// What a leaf holds for a key with a given hash.
spec fn leaf_get<K: CacheKey, V>(m: Map<u64, Vec<(K, V)>>, h: u64, k: K::V) -> Option<V> {
    if m.contains_key(h) && bucket_map(m[h]@).contains_key(k) {
        Some(bucket_map(m[h]@)[k])
    } else {
        None
    }
}

/// What is held below a node for a key with a given hash.
spec fn node_get<K: CacheKey, V>(
    node: HashTrieNode<K, V>,
    depth: int,
    h: u64,
    k: K::V,
) -> Option<V>
    decreases node,
{
    match node {
        HashTrieNode::Leaf(leaf) => leaf_get(leaf.buckets@, h, k),
        HashTrieNode::Internal(children) => {
            let c = digit(h, depth);
            if 0 <= c < children@.len() {
                match children@[c] {
                    Some(child) => node_get(*child, depth + 1, h, k),
                    None => None,
                }
            } else {
                None
            }
        },
    }
}

/// What is held below a node.
spec fn node_map<K: CacheKey, V>(seed: Seq<u8>, node: HashTrieNode<K, V>, depth: int) -> Map<
    K::V,
    V,
> {
    Map::new(
        |k: K::V| node_get(node, depth, hash_of::<K>(seed, k), k) is Some,
        |k: K::V| node_get(node, depth, hash_of::<K>(seed, k), k)->0,
    )
}

/// What is held below a child, or below none.
spec fn child_map<K: CacheKey, V>(
    seed: Seq<u8>,
    child: Option<Box<HashTrieNode<K, V>>>,
    depth: int,
) -> Map<K::V, V> {
    match child {
        Some(node) => node_map(seed, *node, depth),
        None => Map::empty(),
    }
}

/// Buckets hold each key once, under its hash, and none is empty.
spec fn buckets_wf<K: CacheKey, V>(seed: Seq<u8>, m: Map<u64, Vec<(K, V)>>) -> bool {
    forall|h: u64| #[trigger]
        m.contains_key(h) ==> m[h]@.len() > 0 && distinct_keys(m[h]@) && forall|i: int|
            0 <= i < m[h]@.len() ==> hash_of::<K>(seed, (#[trigger] m[h]@[i]).0@) == h
}

/// A leaf knows how many entries it holds. A node with children holds at least half of what a leaf
/// may hold, and each child holds only what the hash leads to it.
spec fn node_wf<K: CacheKey, V>(seed: Seq<u8>, node: HashTrieNode<K, V>, depth: int) -> bool
    decreases node,
{
    &&& node_map(seed, node, depth).dom().finite()
    &&& match node {
        HashTrieNode::Leaf(leaf) => {
            &&& buckets_wf(seed, leaf.buckets@)
            &&& leaf.n == node_map(seed, node, depth).dom().len()
        },
        HashTrieNode::Internal(children) => {
            &&& 0 <= depth < HASH_TRIE_MAX_DEPTH
            &&& children@.len() == HASH_TRIE_BRANCH_FACTOR
            &&& node_map(seed, node, depth).dom().len() >= HASH_TRIE_LEAF_MAX / 2
            &&& forall|c: int|
                #![trigger children@[c]]
                0 <= c < children@.len() ==> match children@[c] {
                    Some(child) => node_wf(seed, *child, depth + 1),
                    None => true,
                }
            &&& forall|c: int, k: K::V|
                0 <= c < children@.len() && #[trigger] child_map(
                    seed,
                    children@[c],
                    depth + 1,
                ).contains_key(k) ==> digit(hash_of::<K>(seed, k), depth) == c
        },
    }
}

impl<K, V> HashTrie<K, V> {
    /// The digit of a hash, in base 16 from the top, that decides at a depth.
    pub fn child_idx(h: u64, depth: usize) -> (r: usize)
        requires
            depth < HASH_TRIE_MAX_DEPTH,
        ensures
            r == digit(h, depth as int),
            r < HASH_TRIE_BRANCH_FACTOR,
    {
        let shift: u64 = 64 - (depth as u64 + 1) * 4;
        let q: u64 = h >> shift;
        proof {
            vstd::bits::lemma_u64_shr_is_div(h, shift);
            assert(q & 15 == q % 16) by (bit_vector);
            assert(shift == 60 - 4 * depth);
        }
        (q & 15) as usize
    }
}

/// The position of a key in a bucket.
fn find_in_bucket<K: CacheKey, V>(b: &Vec<(K, V)>, k: &K) -> (r: Option<usize>)
    requires
        distinct_keys(b@),
    ensures
        match r {
            Some(i) => i < b@.len() && b@[i as int].0@ == k@ && bucket_map(b@).contains_key(k@)
                && bucket_map(b@)[k@] == b@[i as int].1,
            None => !bucket_map(b@).contains_key(k@),
        },
{
    let mut i: usize = 0;
    while i < b.len()
        invariant
            distinct_keys(b@),
            i <= b@.len(),
            forall|j: int| 0 <= j < i ==> (#[trigger] b@[j]).0@ != k@,
        decreases b@.len() - i,
    {
        if b[i].0.same_key(k) {
            proof {
                lemma_bucket_map(b@);
            }
            return Some(i);
        }
        i += 1;
    }
    proof {
        lemma_bucket_map(b@);
    }
    None
}

proof fn lemma_subset_len<A>(a: Set<A>, b: Set<A>)
    requires
        b.finite(),
        a.subset_of(b),
    ensures
        a.finite(),
        a.len() <= b.len(),
{
    vstd::set_lib::lemma_len_subset(a, b);
}

/// Inserts into a leaf.
fn leaf_insert<K: CacheKey, V>(
    leaf: HashTrieLeaf<K, V>,
    Ghost(seed): Ghost<Seq<u8>>,
    Ghost(depth): Ghost<int>,
    h: u64,
    k: K,
    v: V,
) -> (r: (HashTrieLeaf<K, V>, bool))
    requires
        node_wf(seed, HashTrieNode::Leaf(leaf), depth),
        h == hash_of::<K>(seed, k@),
        node_map(seed, HashTrieNode::Leaf(leaf), depth).dom().len() < usize::MAX,
    ensures
        node_wf(seed, HashTrieNode::Leaf(r.0), depth),
        node_map(seed, HashTrieNode::Leaf(r.0), depth) == node_map(
            seed,
            HashTrieNode::Leaf(leaf),
            depth,
        ).insert(k@, v),
        r.1 == !node_map(seed, HashTrieNode::Leaf(leaf), depth).contains_key(k@),
{
    let ghost before = node_map(seed, HashTrieNode::Leaf(leaf), depth);
    let ghost old_buckets = leaf.buckets@;
    let ghost key = k@;
    let mut buckets = leaf.buckets;
    let mut b: Vec<(K, V)> = match buckets.remove(&h) {
        Some(b) => b,
        None => Vec::new(),
    };
    let ghost old_b = b@;
    proof {
        assert(old_buckets.contains_key(h) ==> old_b == old_buckets[h]@);
        assert(distinct_keys(old_b));
        lemma_bucket_map(old_b);
    }
    let found = find_in_bucket(&b, &k);
    let added = match found {
        Some(i) => {
            b.set(i, (k, v));
            false
        },
        None => {
            b.push((k, v));
            true
        },
    };
    proof {
        if found is None {
            assert forall|i: int, j: int| 0 <= i < j < b@.len() implies (#[trigger] b@[i]).0@ != (
            #[trigger] b@[j]).0@ by {
                assert(b@[i] == old_b[i]);
                if j < old_b.len() {
                    assert(b@[j] == old_b[j]);
                } else {
                    assert(bucket_map(old_b).contains_key(old_b[i].0@));
                }
            }
        } else {
            assert forall|i: int, j: int| 0 <= i < j < b@.len() implies (#[trigger] b@[i]).0@ != (
            #[trigger] b@[j]).0@ by {
                assert(b@[i].0@ == old_b[i].0@);
                assert(b@[j].0@ == old_b[j].0@);
            }
        }
        assert(distinct_keys(b@));
        lemma_bucket_map(b@);
        assert(bucket_map(b@) =~= bucket_map(old_b).insert(key, v)) by {
            assert forall|x: K::V| #[trigger] bucket_map(b@).contains_key(x) == bucket_map(
                old_b,
            ).insert(key, v).contains_key(x) by {
                if bucket_map(b@).contains_key(x) {
                    let i = choose|i: int| 0 <= i < b@.len() && (#[trigger] b@[i]).0@ == x;
                    if i < old_b.len() {
                        assert(old_b[i].0@ == b@[i].0@);
                        assert(bucket_map(old_b).contains_key(old_b[i].0@));
                    }
                }
                if bucket_map(old_b).contains_key(x) {
                    let i = choose|i: int| 0 <= i < old_b.len() && (#[trigger] old_b[i]).0@ == x;
                    assert(b@[i].0@ == x);
                }
                if x == key {
                    if found is Some {
                        assert(b@[found->0 as int].0@ == key);
                    } else {
                        assert(b@[old_b.len() as int].0@ == key);
                    }
                }
            }
            assert forall|x: K::V| #[trigger] bucket_map(b@).contains_key(x) implies bucket_map(
                b@,
            )[x] == bucket_map(old_b).insert(key, v)[x] by {
                let i = choose|i: int| 0 <= i < b@.len() && (#[trigger] b@[i]).0@ == x;
                if x == key {
                    if found is Some {
                        assert(b@[found->0 as int].0@ == key);
                    } else {
                        assert(b@[old_b.len() as int].0@ == key);
                    }
                } else {
                    assert(old_b[i] == b@[i]);
                }
            }
        }
    }
    let ghost new_b = b@;
    buckets.insert(h, b);
    let r = HashTrieLeaf {
        buckets,
        n: if added {
            leaf.n + 1
        } else {
            leaf.n
        },
    };
    proof {
        let after = node_map(seed, HashTrieNode::Leaf(r), depth);
        assert(r.buckets@ =~= old_buckets.insert(h, r.buckets@[h]));
        assert forall|x: K::V| leaf_get::<K, V>(
            r.buckets@,
            #[trigger] hash_of::<K>(seed, x),
            x,
        ) == if x == key {
            Some(v)
        } else {
            leaf_get::<K, V>(old_buckets, hash_of::<K>(seed, x), x)
        } by {}
        assert(after =~= before.insert(key, v));
        assert forall|g: u64| #[trigger] r.buckets@.contains_key(g) implies r.buckets@[g]@.len()
            > 0 && distinct_keys(r.buckets@[g]@) && forall|i: int|
            0 <= i < r.buckets@[g]@.len() ==> hash_of::<K>(
                seed,
                (#[trigger] r.buckets@[g]@[i]).0@,
            ) == g by {
            if g == h {
                assert forall|i: int| 0 <= i < new_b.len() implies hash_of::<K>(
                    seed,
                    (#[trigger] new_b[i]).0@,
                ) == h by {
                    if i < old_b.len() && !(found is Some && i == found->0) {
                        assert(new_b[i] == old_b[i]);
                        assert(old_buckets.contains_key(h));
                    }
                }
            } else {
                assert(old_buckets.contains_key(g));
                assert(r.buckets@[g] == old_buckets[g]);
            }
        }
        assert(before.contains_key(key) == bucket_map(old_b).contains_key(key));
    }
    (r, added)
}

/// The buckets of a leaf, or none.
spec fn buckets_of<K: CacheKey, V>(child: Option<Box<HashTrieNode<K, V>>>) -> Map<
    u64,
    Vec<(K, V)>,
> {
    match child {
        Some(node) => match *node {
            HashTrieNode::Leaf(leaf) => leaf.buckets@,
            HashTrieNode::Internal(_) => Map::empty(),
        },
        None => Map::empty(),
    }
}

/// What buckets hold.
spec fn buckets_map<K: CacheKey, V>(seed: Seq<u8>, m: Map<u64, Vec<(K, V)>>) -> Map<K::V, V> {
    Map::new(
        |k: K::V| leaf_get::<K, V>(m, hash_of::<K>(seed, k), k) is Some,
        |k: K::V| leaf_get::<K, V>(m, hash_of::<K>(seed, k), k)->0,
    )
}

proof fn lemma_leaf_map<K: CacheKey, V>(seed: Seq<u8>, leaf: HashTrieLeaf<K, V>, depth: int)
    ensures
        node_map(seed, HashTrieNode::Leaf(leaf), depth) == buckets_map::<K, V>(
            seed,
            leaf.buckets@,
        ),
{
    assert(node_map(seed, HashTrieNode::Leaf(leaf), depth) =~= buckets_map::<K, V>(
        seed,
        leaf.buckets@,
    ));
}

/// A new bucket adds its entries.
proof fn lemma_add_bucket<K: CacheKey, V>(
    seed: Seq<u8>,
    m: Map<u64, Vec<(K, V)>>,
    h: u64,
    b: Vec<(K, V)>,
)
    requires
        buckets_wf(seed, m),
        buckets_map::<K, V>(seed, m).dom().finite(),
        !m.contains_key(h),
        b@.len() > 0,
        distinct_keys(b@),
        forall|i: int| 0 <= i < b@.len() ==> hash_of::<K>(seed, (#[trigger] b@[i]).0@) == h,
    ensures
        buckets_wf(seed, m.insert(h, b)),
        buckets_map::<K, V>(seed, m.insert(h, b)).dom().finite(),
        buckets_map::<K, V>(seed, m.insert(h, b)).dom().len() == buckets_map::<K, V>(
            seed,
            m,
        ).dom().len() + b@.len(),
{
    let before = buckets_map::<K, V>(seed, m).dom();
    let after = buckets_map::<K, V>(seed, m.insert(h, b)).dom();
    let added = bucket_map(b@).dom();
    lemma_bucket_map(b@);
    assert forall|k: K::V| #[trigger] after.contains(k) == (before.contains(k) || added.contains(
        k,
    )) by {
        if added.contains(k) {
            assert(bucket_map(b@).contains_key(k));
            let i = choose|i: int| 0 <= i < b@.len() && (#[trigger] b@[i]).0@ == k;
            assert(hash_of::<K>(seed, k) == h);
        }
    }
    assert(after =~= before.union(added));
    assert forall|k: K::V| !(before.contains(k) && #[trigger] added.contains(k)) by {
        if added.contains(k) {
            assert(bucket_map(b@).contains_key(k));
            let i = choose|i: int| 0 <= i < b@.len() && (#[trigger] b@[i]).0@ == k;
            assert(hash_of::<K>(seed, k) == h);
        }
    }
    vstd::set_lib::lemma_set_disjoint_lens(before, added);
    assert forall|g: u64| #[trigger] m.insert(h, b).contains_key(g) implies m.insert(
        h,
        b,
    )[g]@.len() > 0 && distinct_keys(m.insert(h, b)[g]@) && forall|i: int|
        0 <= i < m.insert(h, b)[g]@.len() ==> hash_of::<K>(
            seed,
            (#[trigger] m.insert(h, b)[g]@[i]).0@,
        ) == g by {
        if g != h {
            assert(m.contains_key(g));
        }
    }
}

/// The hashes under which there are buckets.
fn bucket_hashes<K, V>(m: &HashMap<u64, Vec<(K, V)>>) -> (r: Vec<u64>)
    ensures
        r@.no_duplicates(),
        forall|h: u64| #[trigger] r@.contains(h) <==> m@.contains_key(h),
{
    let mut r: Vec<u64> = Vec::new();
    for h in it: m.keys()
        invariant
            r@ == it.seq().unref().take(it.index() as int),
            it.seq().unref().no_duplicates(),
            it.seq().unref().to_set() == m@.dom(),
            it.index() == it.seq().len() ==> r@ == it.seq().unref(),
            it.index() == it.seq().len() ==> r@.no_duplicates() && r@.to_set() == m@.dom(),
    {
        r.push(*h);
        assert(r@ =~= it.seq().unref().take(it.index() + 1));
        assert(it.index() + 1 == it.seq().len() ==> r@ =~= it.seq().unref());
    }
    proof {
        assert forall|h: u64| #[trigger] r@.contains(h) <==> m@.contains_key(h) by {
            assert(r@.to_set().contains(h) == m@.dom().contains(h));
        }
    }
    r
}

/// Takes a child out of its place.
fn take_child<K, V>(
    children: &mut Vec<Option<Box<HashTrieNode<K, V>>>>,
    c: usize,
) -> (r: Option<Box<HashTrieNode<K, V>>>)
    requires
        c < old(children)@.len(),
    ensures
        r == old(children)@[c as int],
        final(children)@ == old(children)@.update(c as int, None),
{
    children.push(None);
    let r = children.swap_remove(c);
    assert(children@ =~= old(children)@.update(c as int, None));
    r
}

/// Whether children are leaves that hold the buckets of some hashes, each where it belongs.
spec fn dealt<K: CacheKey, V>(
    seed: Seq<u8>,
    all: Map<u64, Vec<(K, V)>>,
    done: Seq<u64>,
    children: Seq<Option<Box<HashTrieNode<K, V>>>>,
    depth: int,
) -> bool {
    &&& children.len() == HASH_TRIE_BRANCH_FACTOR
    &&& forall|c: int|
        #![trigger children[c]]
        0 <= c < children.len() ==> match children[c] {
            Some(child) => *child is Leaf && node_wf(seed, *child, depth + 1),
            None => true,
        }
    &&& forall|c: int, h: u64|
        0 <= c < children.len() ==> (#[trigger] buckets_of(children[c]).contains_key(h) <==> (
        done.contains(h) && digit(h, depth) == c))
    &&& forall|c: int, h: u64|
        0 <= c < children.len() && #[trigger] buckets_of(children[c]).contains_key(h)
            ==> buckets_of(children[c])[h] == all[h]
}

proof fn lemma_dealt_all<K: CacheKey, V>(
    seed: Seq<u8>,
    leaf: HashTrieLeaf<K, V>,
    done: Seq<u64>,
    children: Vec<Option<Box<HashTrieNode<K, V>>>>,
    depth: int,
)
    requires
        node_wf(seed, HashTrieNode::Leaf(leaf), depth),
        0 <= depth < HASH_TRIE_MAX_DEPTH,
        leaf.n >= HASH_TRIE_LEAF_MAX / 2,
        forall|h: u64| #[trigger] done.contains(h) <==> leaf.buckets@.contains_key(h),
        dealt(seed, leaf.buckets@, done, children@, depth),
    ensures
        node_wf(seed, HashTrieNode::Internal(children), depth),
        node_map(seed, HashTrieNode::Internal(children), depth) == node_map(
            seed,
            HashTrieNode::Leaf(leaf),
            depth,
        ),
{
    let node = HashTrieNode::Internal(children);
    assert forall|k: K::V| #[trigger] node_get(node, depth, hash_of::<K>(seed, k), k) == leaf_get::<
        K,
        V,
    >(leaf.buckets@, hash_of::<K>(seed, k), k) by {
        let h = hash_of::<K>(seed, k);
        lemma_digit_range(h, depth);
        let c = digit(h, depth);
        assert(buckets_of(children@[c]).contains_key(h) <==> done.contains(h));
        lemma_leaf_child(children@[c], depth + 1, h, k);
    }
    assert(node_map(seed, node, depth) =~= node_map(seed, HashTrieNode::Leaf(leaf), depth));
    assert forall|c: int, k: K::V| 0 <= c < children@.len() && #[trigger] child_map(
        seed,
        children@[c],
        depth + 1,
    ).contains_key(k) implies digit(hash_of::<K>(seed, k), depth) == c by {
        let h = hash_of::<K>(seed, k);
        lemma_leaf_child(children@[c], depth + 1, h, k);
        assert(buckets_of(children@[c]).contains_key(h));
    }
}

proof fn lemma_digit_range(h: u64, depth: int)
    ensures
        0 <= digit(h, depth) < HASH_TRIE_BRANCH_FACTOR,
{
}

proof fn lemma_leaf_child<K: CacheKey, V>(
    child: Option<Box<HashTrieNode<K, V>>>,
    depth: int,
    h: u64,
    k: K::V,
)
    requires
        child matches Some(node) ==> *node is Leaf,
    ensures
        (match child {
            Some(node) => node_get(*node, depth, h, k),
            None => None,
        }) == leaf_get::<K, V>(buckets_of(child), h, k),
{
}

/// Puts the buckets of a leaf into leaves one level down.
fn split_leaf<K: CacheKey, V>(
    leaf: HashTrieLeaf<K, V>,
    Ghost(seed): Ghost<Seq<u8>>,
    depth: usize,
) -> (children: Vec<Option<Box<HashTrieNode<K, V>>>>)
    requires
        node_wf(seed, HashTrieNode::Leaf(leaf), depth as int),
        depth < HASH_TRIE_MAX_DEPTH,
        leaf.n >= HASH_TRIE_LEAF_MAX / 2,
    ensures
        node_wf(seed, HashTrieNode::Internal(children), depth as int),
        node_map(seed, HashTrieNode::Internal(children), depth as int) == node_map(
            seed,
            HashTrieNode::Leaf(leaf),
            depth as int,
        ),
{
    let ghost all = leaf.buckets@;
    let ghost total = buckets_map::<K, V>(seed, all).dom();
    proof {
        lemma_leaf_map(seed, leaf, depth as int);
    }
    let mut children: Vec<Option<Box<HashTrieNode<K, V>>>> = Vec::new();
    let mut i: usize = 0;
    while i < HASH_TRIE_BRANCH_FACTOR
        invariant
            i <= HASH_TRIE_BRANCH_FACTOR,
            children@.len() == i,
            forall|c: int| 0 <= c < i ==> (#[trigger] children@[c]) is None,
        decreases HASH_TRIE_BRANCH_FACTOR - i,
    {
        children.push(None);
        i += 1;
    }
    let hashes = bucket_hashes(&leaf.buckets);
    let mut buckets = leaf.buckets;
    let mut j: usize = 0;
    while j < hashes.len()
        invariant
            j <= hashes@.len(),
            depth < HASH_TRIE_MAX_DEPTH,
            hashes@.no_duplicates(),
            forall|h: u64| #[trigger] hashes@.contains(h) <==> all.contains_key(h),
            forall|h: u64| #[trigger]
                buckets@.contains_key(h) <==> all.contains_key(h) && !hashes@.take(
                    j as int,
                ).contains(h),
            forall|h: u64| #[trigger] buckets@.contains_key(h) ==> buckets@[h] == all[h],
            buckets_wf(seed, all),
            total == buckets_map::<K, V>(seed, all).dom(),
            total.finite(),
            total.len() <= usize::MAX,
            dealt(seed, all, hashes@.take(j as int), children@, depth as int),
        decreases hashes@.len() - j,
    {
        let h: u64 = hashes[j];
        let ghost done = hashes@.take(j as int);
        let ghost before = children@;
        proof {
            assert(hashes@.contains(h));
            assert(!done.contains(h)) by {
                if done.contains(h) {
                    let l = choose|l: int| 0 <= l < done.len() && done[l] == h;
                    assert(hashes@[l] == hashes@[j as int]);
                }
            }
        }
        if let Some(b) = buckets.remove(&h) {
            let c: usize = HashTrie::<K, V>::child_idx(h, depth);
            let leaf = match take_child(&mut children, c) {
                Some(node) => match *node {
                    HashTrieNode::Leaf(leaf) => leaf,
                    HashTrieNode::Internal(_) => empty_leaf(Ghost(seed), Ghost(depth + 1)),
                },
                None => empty_leaf(Ghost(seed), Ghost(depth + 1)),
            };
            let ghost old_leaf = leaf;
            let ghost m = leaf.buckets@;
            proof {
                lemma_leaf_map(seed, leaf, depth + 1);
                assert(m == buckets_of(before[c as int]));
                assert(!m.contains_key(h));
                assert(b == all[h]);
                lemma_add_bucket(seed, m, h, b);
                let part = buckets_map::<K, V>(seed, m.insert(h, b)).dom();
                assert forall|k: K::V| #[trigger] part.contains(k) implies total.contains(k) by {
                    let g = hash_of::<K>(seed, k);
                    if g != h {
                        assert(buckets_of(before[c as int]).contains_key(g));
                        let l = choose|l: int| 0 <= l < done.len() && done[l] == g;
                        assert(hashes@[l] == g);
                        assert(hashes@.contains(g));
                    }
                    assert(all.contains_key(g));
                    assert(leaf_get::<K, V>(all, g, k) is Some);
                }
                lemma_subset_len(part, total);
            }
            let n: usize = leaf.n + b.len();
            let mut inner = leaf.buckets;
            let ghost bucket = b;
            inner.insert(h, b);
            let new_leaf = HashTrieLeaf { buckets: inner, n };
            proof {
                lemma_leaf_map(seed, new_leaf, depth + 1);
                assert(new_leaf.buckets@ == m.insert(h, bucket));
            }
            children.set(c, Some(Box::new(HashTrieNode::Leaf(new_leaf))));
            proof {
                let next = hashes@.take(j + 1);
                assert(next =~= done.push(h));
                assert forall|g: u64| #[trigger] next.contains(g) == (done.contains(g) || g == h) by {
                    if g == h {
                        assert(next[j as int] == h);
                    } else if done.contains(g) {
                        let l = choose|l: int| 0 <= l < done.len() && done[l] == g;
                        assert(next[l] == g);
                    } else if next.contains(g) {
                        let l = choose|l: int| 0 <= l < next.len() && next[l] == g;
                        assert(done[l] == g);
                    }
                }
                assert(children@ =~= before.update(
                    c as int,
                    Some(Box::new(HashTrieNode::Leaf(new_leaf))),
                ));
                assert forall|d: int, g: u64| 0 <= d < children@.len() implies (
                #[trigger] buckets_of(children@[d]).contains_key(g) <==> (next.contains(g)
                    && digit(g, depth as int) == d)) by {
                    if d != c {
                        assert(children@[d] == before[d]);
                        assert(buckets_of(before[d]).contains_key(g) <==> (done.contains(g)
                            && digit(g, depth as int) == d));
                    } else {
                        assert(buckets_of(before[d]).contains_key(g) <==> (done.contains(g)
                            && digit(g, depth as int) == d));
                    }
                }
                assert forall|d: int, g: u64|
                    0 <= d < children@.len() && #[trigger] buckets_of(children@[d]).contains_key(
                        g,
                    ) implies buckets_of(children@[d])[g] == all[g] by {
                    if d != c {
                        assert(children@[d] == before[d]);
                        assert(buckets_of(before[d]).contains_key(g));
                    } else if g != h {
                        assert(buckets_of(before[d]).contains_key(g));
                    }
                }
            }
        }
        j += 1;
    }
    proof {
        assert(hashes@.take(j as int) =~= hashes@);
        lemma_dealt_all(seed, leaf, hashes@, children, depth as int);
    }
    children
}

fn empty_leaf<K: CacheKey, V>(Ghost(seed): Ghost<Seq<u8>>, Ghost(depth): Ghost<int>) -> (r:
    HashTrieLeaf<K, V>)
    ensures
        node_wf(seed, HashTrieNode::Leaf(r), depth),
        r.buckets@ == Map::<u64, Vec<(K, V)>>::empty(),
        node_map(seed, HashTrieNode::Leaf(r), depth) == Map::<K::V, V>::empty(),
{
    let r = HashTrieLeaf { buckets: HashMap::new(), n: 0 };
    assert(node_map(seed, HashTrieNode::Leaf(r), depth) =~= Map::<K::V, V>::empty());
    r
}

/// The children of a node, apart from how much they hold together.
spec fn children_wf<K: CacheKey, V>(
    seed: Seq<u8>,
    children: Seq<Option<Box<HashTrieNode<K, V>>>>,
    depth: int,
) -> bool {
    &&& 0 <= depth < HASH_TRIE_MAX_DEPTH
    &&& children.len() == HASH_TRIE_BRANCH_FACTOR
    &&& forall|c: int|
        #![trigger children[c]]
        0 <= c < children.len() ==> match children[c] {
            Some(child) => node_wf(seed, *child, depth + 1),
            None => true,
        }
    &&& forall|c: int, k: K::V|
        0 <= c < children.len() && #[trigger] child_map(
            seed,
            children[c],
            depth + 1,
        ).contains_key(k) ==> digit(hash_of::<K>(seed, k), depth) == c
}

/// How many entries the first children hold.
spec fn held_by<K: CacheKey, V>(
    seed: Seq<u8>,
    children: Seq<Option<Box<HashTrieNode<K, V>>>>,
    depth: int,
    c: int,
) -> nat
    decreases c,
{
    if c <= 0 {
        0
    } else {
        held_by(seed, children, depth, c - 1) + child_map(
            seed,
            children[c - 1],
            depth + 1,
        ).dom().len()
    }
}

proof fn lemma_held_by<K: CacheKey, V>(
    seed: Seq<u8>,
    children: Vec<Option<Box<HashTrieNode<K, V>>>>,
    depth: int,
    c: int,
) -> (below: Set<K::V>)
    requires
        children_wf(seed, children@, depth),
        0 <= c <= HASH_TRIE_BRANCH_FACTOR,
    ensures
        below.finite(),
        below.len() == held_by(seed, children@, depth, c),
        forall|k: K::V| #[trigger]
            below.contains(k) <==> node_map(
                seed,
                HashTrieNode::Internal(children),
                depth,
            ).contains_key(k) && digit(hash_of::<K>(seed, k), depth) < c,
    decreases c,
{
    let whole = node_map(seed, HashTrieNode::Internal(children), depth);
    if c == 0 {
        assert forall|k: K::V| #[trigger] whole.contains_key(k) implies digit(
            hash_of::<K>(seed, k),
            depth,
        ) >= 0 by {
            lemma_digit_range(hash_of::<K>(seed, k), depth);
        }
        Set::empty()
    } else {
        let before = lemma_held_by(seed, children, depth, c - 1);
        let last = child_map(seed, children@[c - 1], depth + 1).dom();
        assert(last.finite());
        assert forall|k: K::V| #[trigger] last.contains(k) implies whole.contains_key(k) && digit(
            hash_of::<K>(seed, k),
            depth,
        ) == c - 1 by {
            assert(child_map(seed, children@[c - 1], depth + 1).contains_key(k));
        }
        let below = before.union(last);
        assert forall|k: K::V|
            whole.contains_key(k) && digit(hash_of::<K>(seed, k), depth) == c
                - 1 implies #[trigger] last.contains(k) by {}
        vstd::set_lib::lemma_set_disjoint_lens(before, last);
        below
    }
}

proof fn lemma_held_total<K: CacheKey, V>(
    seed: Seq<u8>,
    children: Vec<Option<Box<HashTrieNode<K, V>>>>,
    depth: int,
)
    requires
        children_wf(seed, children@, depth),
    ensures
        node_map(seed, HashTrieNode::Internal(children), depth).dom().finite(),
        node_map(seed, HashTrieNode::Internal(children), depth).dom().len() == held_by(
            seed,
            children@,
            depth,
            HASH_TRIE_BRANCH_FACTOR as int,
        ),
{
    let whole = node_map(seed, HashTrieNode::Internal(children), depth);
    let below = lemma_held_by(seed, children, depth, HASH_TRIE_BRANCH_FACTOR as int);
    assert forall|k: K::V| #[trigger] below.contains(k) == whole.dom().contains(k) by {
        lemma_digit_range(hash_of::<K>(seed, k), depth);
    }
    assert(below =~= whole.dom());
}

proof fn lemma_held_monotone<K: CacheKey, V>(
    seed: Seq<u8>,
    children: Seq<Option<Box<HashTrieNode<K, V>>>>,
    depth: int,
    c: int,
    d: int,
)
    requires
        0 <= c <= d,
    ensures
        held_by(seed, children, depth, c) <= held_by(seed, children, depth, d),
    decreases d - c,
{
    if c < d {
        lemma_held_monotone(seed, children, depth, c, d - 1);
    }
}

/// Moves all buckets from one map to another that has none of their hashes.
fn move_buckets<K: CacheKey, V>(
    from: HashMap<u64, Vec<(K, V)>>,
    into: HashMap<u64, Vec<(K, V)>>,
) -> (r: HashMap<u64, Vec<(K, V)>>)
    requires
        forall|h: u64| #[trigger] from@.contains_key(h) ==> !into@.contains_key(h),
    ensures
        r@ == into@.union_prefer_right(from@),
{
    let ghost all = from@;
    let ghost start = into@;
    let hashes = bucket_hashes(&from);
    let mut from = from;
    let mut into = into;
    let mut j: usize = 0;
    while j < hashes.len()
        invariant
            j <= hashes@.len(),
            hashes@.no_duplicates(),
            forall|h: u64| #[trigger] hashes@.contains(h) <==> all.contains_key(h),
            forall|h: u64| #[trigger]
                from@.contains_key(h) <==> all.contains_key(h) && !hashes@.take(
                    j as int,
                ).contains(h),
            forall|h: u64| #[trigger] from@.contains_key(h) ==> from@[h] == all[h],
            forall|h: u64| #[trigger]
                into@.contains_key(h) <==> start.contains_key(h) || hashes@.take(
                    j as int,
                ).contains(h),
            forall|h: u64| #[trigger]
                into@.contains_key(h) ==> into@[h] == if hashes@.take(j as int).contains(h) {
                    all[h]
                } else {
                    start[h]
                },
        decreases hashes@.len() - j,
    {
        let h: u64 = hashes[j];
        let ghost done = hashes@.take(j as int);
        let ghost next = hashes@.take(j + 1);
        proof {
            assert(hashes@.contains(h));
            assert(!done.contains(h)) by {
                if done.contains(h) {
                    let l = choose|l: int| 0 <= l < done.len() && done[l] == h;
                    assert(hashes@[l] == hashes@[j as int]);
                }
            }
            assert forall|g: u64| #[trigger] next.contains(g) == (done.contains(g) || g == h) by {
                if g == h {
                    assert(next[j as int] == h);
                } else if done.contains(g) {
                    let l = choose|l: int| 0 <= l < done.len() && done[l] == g;
                    assert(next[l] == g);
                } else if next.contains(g) {
                    let l = choose|l: int| 0 <= l < next.len() && next[l] == g;
                    assert(done[l] == g);
                }
            }
        }
        if let Some(b) = from.remove(&h) {
            into.insert(h, b);
        }
        j += 1;
    }
    proof {
        assert(hashes@.take(j as int) =~= hashes@);
        assert(into@ =~= start.union_prefer_right(all));
    }
    into
}

/// Joins leaves into one.
fn merge_leaves<K: CacheKey, V>(
    children: Vec<Option<Box<HashTrieNode<K, V>>>>,
    Ghost(seed): Ghost<Seq<u8>>,
    Ghost(depth): Ghost<int>,
    n: usize,
) -> (r: HashTrieLeaf<K, V>)
    requires
        children_wf(seed, children@, depth),
        forall|c: int|
            #![trigger children@[c]]
            0 <= c < children@.len() ==> match children@[c] {
                Some(child) => *child is Leaf,
                None => true,
            },
        n == held_by(seed, children@, depth, HASH_TRIE_BRANCH_FACTOR as int),
    ensures
        node_wf(seed, HashTrieNode::Leaf(r), depth),
        node_map(seed, HashTrieNode::Leaf(r), depth) == node_map(
            seed,
            HashTrieNode::Internal(children),
            depth,
        ),
{
    let ghost all = children@;
    let ghost whole = children;
    proof {
        assert forall|c: int, h: u64| 0 <= c < all.len() && #[trigger] buckets_of(
            all[c],
        ).contains_key(h) implies digit(h, depth) == c by {
            lemma_bucket_place(seed, all, depth, c, h);
        }
    }
    let mut children = children;
    let mut m: HashMap<u64, Vec<(K, V)>> = HashMap::new();
    let mut c: usize = 0;
    while c < HASH_TRIE_BRANCH_FACTOR
        invariant
            c <= HASH_TRIE_BRANCH_FACTOR,
            children_wf(seed, all, depth),
            children@.len() == HASH_TRIE_BRANCH_FACTOR,
            forall|d: int| c <= d < children@.len() ==> (#[trigger] children@[d]) == all[d],
            forall|d: int|
                #![trigger all[d]]
                0 <= d < all.len() ==> match all[d] {
                    Some(child) => *child is Leaf,
                    None => true,
                },
            forall|d: int, h: u64|
                0 <= d < all.len() && #[trigger] buckets_of(all[d]).contains_key(h) ==> digit(
                    h,
                    depth,
                ) == d,
            forall|h: u64| #[trigger]
                m@.contains_key(h) <==> digit(h, depth) < c && buckets_of(
                    all[digit(h, depth)],
                ).contains_key(h),
            forall|h: u64| #[trigger]
                m@.contains_key(h) ==> m@[h] == buckets_of(all[digit(h, depth)])[h],
        decreases HASH_TRIE_BRANCH_FACTOR - c,
    {
        let ghost before = m@;
        proof {
            assert forall|h: u64| 0 <= #[trigger] digit(h, depth) < HASH_TRIE_BRANCH_FACTOR by {
                lemma_digit_range(h, depth);
            }
        }
        if let Some(node) = take_child(&mut children, c) {
            assert(all[c as int] == Some(node));
            if let HashTrieNode::Leaf(leaf) = *node {
                assert(buckets_of(all[c as int]) == leaf.buckets@);
                m = move_buckets(leaf.buckets, m);
                proof {
                    assert forall|h: u64| #[trigger] m@.contains_key(h) <==> digit(h, depth) < c + 1
                        && buckets_of(all[digit(h, depth)]).contains_key(h) by {
                        if buckets_of(all[c as int]).contains_key(h) {
                            assert(digit(h, depth) == c);
                        }
                    }
                }
            }
        } else {
            assert(all[c as int] is None);
        }
        c += 1;
    }
    let r = HashTrieLeaf { buckets: m, n };
    proof {
        lemma_held_total(seed, whole, depth);
        assert forall|k: K::V| leaf_get::<K, V>(
            r.buckets@,
            #[trigger] hash_of::<K>(seed, k),
            k,
        ) == node_get(HashTrieNode::Internal(whole), depth, hash_of::<K>(seed, k), k) by {
            let h = hash_of::<K>(seed, k);
            let d = digit(h, depth);
            lemma_digit_range(h, depth);
            assert(all[d] matches Some(child) ==> *child is Leaf);
            lemma_leaf_child(all[d], depth + 1, h, k);
            assert(r.buckets@.contains_key(h) == buckets_of(all[d]).contains_key(h));
            assert(whole@[d] == all[d]);
        }
        assert(node_map(seed, HashTrieNode::Leaf(r), depth) =~= node_map(
            seed,
            HashTrieNode::Internal(whole),
            depth,
        ));
        assert forall|h: u64| #[trigger] r.buckets@.contains_key(h) implies r.buckets@[h]@.len()
            > 0 && distinct_keys(r.buckets@[h]@) && forall|i: int|
            0 <= i < r.buckets@[h]@.len() ==> hash_of::<K>(
                seed,
                (#[trigger] r.buckets@[h]@[i]).0@,
            ) == h by {
            let d = digit(h, depth);
            lemma_digit_range(h, depth);
            assert(buckets_of(all[d]).contains_key(h));
            assert(r.buckets@[h] == buckets_of(all[d])[h]);
        }
    }
    r
}

proof fn lemma_bucket_place<K: CacheKey, V>(
    seed: Seq<u8>,
    children: Seq<Option<Box<HashTrieNode<K, V>>>>,
    depth: int,
    c: int,
    h: u64,
)
    requires
        children_wf(seed, children, depth),
        0 <= c < children.len(),
        buckets_of(children[c]).contains_key(h),
    ensures
        digit(h, depth) == c,
{
    let b = buckets_of(children[c])[h]@;
    lemma_bucket_map(b);
    let k = b[0].0@;
    assert(hash_of::<K>(seed, k) == h);
    assert(child_map(seed, children[c], depth + 1).contains_key(k));
}

/// What a node holds once one child is replaced.
proof fn lemma_replace_child<K: CacheKey, V>(
    seed: Seq<u8>,
    children: Vec<Option<Box<HashTrieNode<K, V>>>>,
    depth: int,
    c: int,
    after: Vec<Option<Box<HashTrieNode<K, V>>>>,
)
    requires
        children_wf(seed, children@, depth),
        0 <= c < children@.len(),
        after@ == children@.update(c, after@[c]),
        after@[c] matches Some(child) && node_wf(seed, *child, depth + 1),
        forall|k: K::V| #[trigger]
            child_map(seed, after@[c], depth + 1).contains_key(k) ==> digit(
                hash_of::<K>(seed, k),
                depth,
            ) == c,
    ensures
        children_wf(seed, after@, depth),
        forall|k: K::V| #[trigger]
            node_map(seed, HashTrieNode::Internal(after), depth).contains_key(k) <==> if digit(
                hash_of::<K>(seed, k),
                depth,
            ) == c {
                child_map(seed, after@[c], depth + 1).contains_key(k)
            } else {
                node_map(seed, HashTrieNode::Internal(children), depth).contains_key(k)
            },
        forall|k: K::V|
            node_map(seed, HashTrieNode::Internal(after), depth).contains_key(k) ==> #[trigger] node_map(
                seed,
                HashTrieNode::Internal(after),
                depth,
            )[k] == if digit(hash_of::<K>(seed, k), depth) == c {
                child_map(seed, after@[c], depth + 1)[k]
            } else {
                node_map(seed, HashTrieNode::Internal(children), depth)[k]
            },
        forall|k: K::V| #[trigger]
            child_map(seed, children@[c], depth + 1).contains_key(k) <==> node_map(
                seed,
                HashTrieNode::Internal(children),
                depth,
            ).contains_key(k) && digit(hash_of::<K>(seed, k), depth) == c,
        forall|k: K::V| #[trigger]
            child_map(seed, children@[c], depth + 1).contains_key(k) ==> child_map(
                seed,
                children@[c],
                depth + 1,
            )[k] == node_map(seed, HashTrieNode::Internal(children), depth)[k],
{
    assert forall|d: int|
        #![trigger after@[d]]
        0 <= d < after@.len() implies match after@[d] {
        Some(child) => node_wf(seed, *child, depth + 1),
        None => true,
    } by {
        if d != c {
            assert(after@[d] == children@[d]);
        }
    }
    assert forall|d: int, k: K::V| 0 <= d < after@.len() && #[trigger] child_map(
        seed,
        after@[d],
        depth + 1,
    ).contains_key(k) implies digit(hash_of::<K>(seed, k), depth) == d by {
        if d != c {
            assert(after@[d] == children@[d]);
            assert(child_map(seed, children@[d], depth + 1).contains_key(k));
        }
    }
    assert forall|k: K::V| true implies 0 <= digit(#[trigger] hash_of::<K>(seed, k), depth)
        < after@.len() by {
        lemma_digit_range(hash_of::<K>(seed, k), depth);
    }
}

fn insert_inner<K: CacheKey, V>(
    node: HashTrieNode<K, V>,
    Ghost(seed): Ghost<Seq<u8>>,
    depth: usize,
    h: u64,
    k: K,
    v: V,
) -> (r: (HashTrieNode<K, V>, bool))
    requires
        node_wf(seed, node, depth as int),
        depth <= HASH_TRIE_MAX_DEPTH,
        h == hash_of::<K>(seed, k@),
        node_map(seed, node, depth as int).dom().len() < usize::MAX,
    ensures
        node_wf(seed, r.0, depth as int),
        node_map(seed, r.0, depth as int) == node_map(seed, node, depth as int).insert(k@, v),
        r.1 == !node_map(seed, node, depth as int).contains_key(k@),
    decreases HASH_TRIE_MAX_DEPTH - depth,
{
    let ghost key = k@;
    let ghost start = node_map(seed, node, depth as int);
    let children = match node {
        HashTrieNode::Internal(children) => children,
        HashTrieNode::Leaf(leaf) => {
            let held = leaf_contains(&leaf, Ghost(seed), Ghost(depth as int), h, &k);
            // At the greatest depth no bits of the hash are left, so the leaf just grows.
            if depth == HASH_TRIE_MAX_DEPTH || leaf.n < HASH_TRIE_LEAF_MAX || held {
                let (leaf, added) = leaf_insert(leaf, Ghost(seed), Ghost(depth as int), h, k, v);
                return (HashTrieNode::Leaf(leaf), added);
            }
            split_leaf(leaf, Ghost(seed), depth)
        },
    };
    let ghost before = children;
    assert(node_wf(seed, HashTrieNode::Internal(before), depth as int));
    let mut children = children;
    let c: usize = HashTrie::<K, V>::child_idx(h, depth);
    let child = match take_child(&mut children, c) {
        Some(child) => *child,
        None => HashTrieNode::Leaf(empty_leaf(Ghost(seed), Ghost(depth + 1))),
    };
    let ghost part = node_map(seed, child, depth + 1);
    proof {
        assert(part =~= child_map(seed, before@[c as int], depth + 1));
        assert forall|x: K::V| #[trigger] part.dom().contains(x) implies start.dom().contains(
            x,
        ) by {
            assert(child_map(seed, before@[c as int], depth + 1).contains_key(x));
        }
        lemma_subset_len(part.dom(), start.dom());
    }
    let (child, added) = insert_inner(child, Ghost(seed), depth + 1, h, k, v);
    children.set(c, Some(Box::new(child)));
    proof {
        assert(children@ =~= before@.update(c as int, children@[c as int]));
        assert(child_map(seed, children@[c as int], depth + 1) == part.insert(key, v));
        assert forall|x: K::V| #[trigger] child_map(
            seed,
            children@[c as int],
            depth + 1,
        ).contains_key(x) implies digit(hash_of::<K>(seed, x), depth as int) == c by {
            if x != key {
                assert(child_map(seed, before@[c as int], depth + 1).contains_key(x));
            }
        }
        lemma_replace_child(seed, before, depth as int, c as int, children);
        let after = node_map(seed, HashTrieNode::Internal(children), depth as int);
        assert forall|x: K::V| #[trigger] after.contains_key(x) == start.insert(
            key,
            v,
        ).contains_key(x) by {
            let held = child_map(seed, before@[c as int], depth + 1).contains_key(x);
        }
        assert forall|x: K::V| #[trigger] after.contains_key(x) implies after[x] == start.insert(
            key,
            v,
        )[x] by {
            let held = child_map(seed, before@[c as int], depth + 1).contains_key(x);
        }
        assert(after =~= start.insert(key, v));
        lemma_subset_len(start.dom(), after.dom());
    }
    (HashTrieNode::Internal(children), added)
}

/// Whether a leaf holds a key.
fn leaf_contains<K: CacheKey, V>(
    leaf: &HashTrieLeaf<K, V>,
    Ghost(seed): Ghost<Seq<u8>>,
    Ghost(depth): Ghost<int>,
    h: u64,
    k: &K,
) -> (r: bool)
    requires
        node_wf(seed, HashTrieNode::Leaf(*leaf), depth),
        h == hash_of::<K>(seed, k@),
    ensures
        r == node_map(seed, HashTrieNode::Leaf(*leaf), depth).contains_key(k@),
{
    match leaf.buckets.get(&h) {
        Some(b) => {
            assert(leaf.buckets@.contains_key(h));
            find_in_bucket(b, k).is_some()
        },
        None => false,
    }
}

/// Removes from a leaf.
fn leaf_remove<K: CacheKey, V>(
    leaf: HashTrieLeaf<K, V>,
    Ghost(seed): Ghost<Seq<u8>>,
    Ghost(depth): Ghost<int>,
    h: u64,
    k: &K,
) -> (r: (HashTrieLeaf<K, V>, Option<V>))
    requires
        node_wf(seed, HashTrieNode::Leaf(leaf), depth),
        h == hash_of::<K>(seed, k@),
    ensures
        node_wf(seed, HashTrieNode::Leaf(r.0), depth),
        ({
            let m = node_map(seed, HashTrieNode::Leaf(leaf), depth);
            &&& node_map(seed, HashTrieNode::Leaf(r.0), depth) == m.remove(k@)
            &&& r.1 == if m.contains_key(k@) {
                Some(m[k@])
            } else {
                None
            }
        }),
{
    let ghost before = node_map(seed, HashTrieNode::Leaf(leaf), depth);
    let ghost old_buckets = leaf.buckets@;
    let n: usize = leaf.n;
    let mut buckets = leaf.buckets;
    match buckets.remove(&h) {
        None => {
            let r = HashTrieLeaf { buckets, n };
            proof {
                assert(r.buckets@ =~= old_buckets);
                assert(node_map(seed, HashTrieNode::Leaf(r), depth) =~= before);
                assert(before.remove(k@) =~= before);
            }
            (r, None)
        },
        Some(b) => {
            let ghost old_b = b@;
            assert(old_buckets.contains_key(h) && old_buckets[h] == b);
            match find_in_bucket(&b, k) {
                None => {
                    buckets.insert(h, b);
                    let r = HashTrieLeaf { buckets, n };
                    proof {
                        assert(r.buckets@ =~= old_buckets);
                        assert(node_map(seed, HashTrieNode::Leaf(r), depth) =~= before);
                        assert(before.remove(k@) =~= before);
                    }
                    (r, None)
                },
                Some(i) => {
                    let mut b = b;
                    let (_, v) = b.remove(i);
                    proof {
                        lemma_remove_from_bucket(old_b, i as int);
                        assert(before.contains_key(k@));
                    }
                    let ghost new_b = b@;
                    if b.len() > 0 {
                        buckets.insert(h, b);
                    }
                    let r = HashTrieLeaf { buckets, n: n - 1 };
                    proof {
                        assert forall|x: K::V| leaf_get::<K, V>(
                            r.buckets@,
                            #[trigger] hash_of::<K>(seed, x),
                            x,
                        ) == if x == k@ {
                            None
                        } else {
                            leaf_get::<K, V>(old_buckets, hash_of::<K>(seed, x), x)
                        } by {
                            lemma_bucket_map(new_b);
                        }
                        assert(node_map(seed, HashTrieNode::Leaf(r), depth) =~= before.remove(k@));
                        assert forall|g: u64| #[trigger]
                            r.buckets@.contains_key(g) implies r.buckets@[g]@.len() > 0
                            && distinct_keys(r.buckets@[g]@) && forall|j: int|
                            0 <= j < r.buckets@[g]@.len() ==> hash_of::<K>(
                                seed,
                                (#[trigger] r.buckets@[g]@[j]).0@,
                            ) == g by {
                            if g == h {
                                assert forall|j: int| 0 <= j < new_b.len() implies hash_of::<K>(
                                    seed,
                                    (#[trigger] new_b[j]).0@,
                                ) == h by {
                                    if j < i {
                                        assert(new_b[j] == old_b[j]);
                                    } else {
                                        assert(new_b[j] == old_b[j + 1]);
                                    }
                                }
                            } else {
                                assert(old_buckets.contains_key(g));
                            }
                        }
                    }
                    (r, Some(v))
                },
            }
        },
    }
}

proof fn lemma_remove_from_bucket<K: CacheKey, V>(b: Seq<(K, V)>, i: int)
    requires
        distinct_keys(b),
        0 <= i < b.len(),
    ensures
        distinct_keys(b.remove(i)),
        bucket_map(b.remove(i)) == bucket_map(b).remove(b[i].0@),
{
    let r = b.remove(i);
    assert forall|p: int, q: int| 0 <= p < q < r.len() implies (#[trigger] r[p]).0@ != (
    #[trigger] r[q]).0@ by {
        let (x, y) = (if p < i { p } else { p + 1 }, if q < i { q } else { q + 1 });
        assert(r[p] == b[x] && r[q] == b[y]);
    }
    lemma_bucket_map(b);
    lemma_bucket_map(r);
    assert forall|x: K::V| #[trigger] bucket_map(r).contains_key(x) <==> bucket_map(b).remove(
        b[i].0@,
    ).contains_key(x) by {
        if bucket_map(r).contains_key(x) {
            let p = choose|p: int| 0 <= p < r.len() && (#[trigger] r[p]).0@ == x;
            let y = if p < i { p } else { p + 1 };
            assert(r[p] == b[y]);
            assert(b[y].0@ != b[i].0@);
        }
        if bucket_map(b).contains_key(x) && x != b[i].0@ {
            let p = choose|p: int| 0 <= p < b.len() && (#[trigger] b[p]).0@ == x;
            let y = if p < i { p } else { p - 1 };
            assert(r[y] == b[p]);
        }
    }
    assert forall|x: K::V| #[trigger] bucket_map(r).contains_key(x) implies bucket_map(r)[x]
        == bucket_map(b).remove(b[i].0@)[x] by {
        let p = choose|p: int| 0 <= p < r.len() && (#[trigger] r[p]).0@ == x;
        let y = if p < i { p } else { p + 1 };
        assert(r[p] == b[y]);
    }
    assert(bucket_map(r) =~= bucket_map(b).remove(b[i].0@));
}

/// How many entries children hold, where all of them are leaves.
fn count_leaves<K: CacheKey, V>(
    children: &Vec<Option<Box<HashTrieNode<K, V>>>>,
    Ghost(seed): Ghost<Seq<u8>>,
    Ghost(depth): Ghost<int>,
) -> (r: Option<usize>)
    requires
        children_wf(seed, children@, depth),
        held_by(seed, children@, depth, HASH_TRIE_BRANCH_FACTOR as int) <= usize::MAX,
    ensures
        match r {
            Some(n) => {
                &&& n == held_by(seed, children@, depth, HASH_TRIE_BRANCH_FACTOR as int)
                &&& forall|c: int|
                    #![trigger children@[c]]
                    0 <= c < children@.len() ==> match children@[c] {
                        Some(child) => *child is Leaf,
                        None => true,
                    }
            },
            None => exists|c: int|
                #![trigger children@[c]]
                0 <= c < children@.len() && children@[c] is Some && !(*(children@[c]->0) is Leaf),
        },
{
    let mut n: usize = 0;
    let mut c: usize = 0;
    while c < HASH_TRIE_BRANCH_FACTOR
        invariant
            c <= HASH_TRIE_BRANCH_FACTOR,
            children_wf(seed, children@, depth),
            n == held_by(seed, children@, depth, c as int),
            held_by(seed, children@, depth, HASH_TRIE_BRANCH_FACTOR as int) <= usize::MAX,
            forall|d: int|
                #![trigger children@[d]]
                0 <= d < c ==> match children@[d] {
                    Some(child) => *child is Leaf,
                    None => true,
                },
        decreases HASH_TRIE_BRANCH_FACTOR - c,
    {
        proof {
            lemma_held_monotone(
                seed,
                children@,
                depth,
                c + 1,
                HASH_TRIE_BRANCH_FACTOR as int,
            );
        }
        match &children[c] {
            Some(child) => match &**child {
                HashTrieNode::Leaf(leaf) => {
                    assert(children@[c as int] is Some);
                    n += leaf.n;
                },
                HashTrieNode::Internal(_) => {
                    assert(children@[c as int] is Some);
                    return None;
                },
            },
            None => {
                assert(children@[c as int] is None);
            },
        }
        c += 1;
    }
    Some(n)
}

fn remove_inner<K: CacheKey, V>(
    node: HashTrieNode<K, V>,
    Ghost(seed): Ghost<Seq<u8>>,
    depth: usize,
    h: u64,
    k: &K,
) -> (r: (HashTrieNode<K, V>, Option<V>))
    requires
        node_wf(seed, node, depth as int),
        depth <= HASH_TRIE_MAX_DEPTH,
        h == hash_of::<K>(seed, k@),
        node_map(seed, node, depth as int).dom().len() <= usize::MAX,
    ensures
        node_wf(seed, r.0, depth as int),
        ({
            let m = node_map(seed, node, depth as int);
            &&& node_map(seed, r.0, depth as int) == m.remove(k@)
            &&& r.1 == if m.contains_key(k@) {
                Some(m[k@])
            } else {
                None
            }
        }),
    decreases HASH_TRIE_MAX_DEPTH - depth,
{
    let ghost start = node_map(seed, node, depth as int);
    let children = match node {
        HashTrieNode::Leaf(leaf) => {
            let (leaf, v) = leaf_remove(leaf, Ghost(seed), Ghost(depth as int), h, k);
            return (HashTrieNode::Leaf(leaf), v);
        },
        HashTrieNode::Internal(children) => children,
    };
    let ghost before = children;
    let mut children = children;
    let c: usize = HashTrie::<K, V>::child_idx(h, depth);
    let child = match take_child(&mut children, c) {
        Some(child) => *child,
        None => {
            proof {
                assert(children@ =~= before@);
                assert(start.remove(k@) =~= start);
                lemma_same_children(seed, before, children, depth as int);
            }
            return (HashTrieNode::Internal(children), None);
        },
    };
    let ghost part = node_map(seed, child, depth + 1);
    proof {
        assert(part =~= child_map(seed, before@[c as int], depth + 1));
        assert forall|x: K::V| #[trigger] part.dom().contains(x) implies start.dom().contains(
            x,
        ) by {
            assert(child_map(seed, before@[c as int], depth + 1).contains_key(x));
        }
        lemma_subset_len(part.dom(), start.dom());
    }
    let (child, removed) = remove_inner(child, Ghost(seed), depth + 1, h, k);
    children.set(c, Some(Box::new(child)));
    let ghost whole = children;
    let ghost after = node_map(seed, HashTrieNode::Internal(children), depth as int);
    proof {
        assert(children@ =~= before@.update(c as int, children@[c as int]));
        assert(child_map(seed, children@[c as int], depth + 1) == part.remove(k@));
        assert forall|x: K::V| #[trigger] child_map(
            seed,
            children@[c as int],
            depth + 1,
        ).contains_key(x) implies digit(hash_of::<K>(seed, x), depth as int) == c by {
            assert(child_map(seed, before@[c as int], depth + 1).contains_key(x));
        }
        lemma_replace_child(seed, before, depth as int, c as int, children);
        assert forall|x: K::V| #[trigger] after.contains_key(x) == start.remove(k@).contains_key(
            x,
        ) by {
            let held = child_map(seed, before@[c as int], depth + 1).contains_key(x);
        }
        assert forall|x: K::V| #[trigger] after.contains_key(x) implies after[x] == start.remove(
            k@,
        )[x] by {
            let held = child_map(seed, before@[c as int], depth + 1).contains_key(x);
        }
        assert(after =~= start.remove(k@));
        lemma_subset_len(after.dom(), start.dom());
        lemma_held_total(seed, whole, depth as int);
        assert(part.contains_key(k@) == start.contains_key(k@)) by {
            let held = child_map(seed, before@[c as int], depth + 1).contains_key(k@);
        }
    }
    if removed.is_some() {
        // Children that are all leaves and hold little together are joined. The limit is half of
        // what a leaf may hold, to keep repeated inserts and removes from thrashing.
        match count_leaves(&children, Ghost(seed), Ghost(depth as int)) {
            Some(n) => {
                if n < HASH_TRIE_LEAF_MAX / 2 {
                    let leaf = merge_leaves(children, Ghost(seed), Ghost(depth as int), n);
                    return (HashTrieNode::Leaf(leaf), removed);
                }
            },
            None => {
                proof {
                    let d = choose|d: int|
                        #![trigger children@[d]]
                        0 <= d < children@.len() && children@[d] is Some && !(*(children@[d]->0)
                            is Leaf);
                    let inner = child_map(seed, children@[d], depth + 1);
                    assert forall|x: K::V| #[trigger] inner.dom().contains(
                        x,
                    ) implies after.dom().contains(x) by {
                        assert(child_map(seed, children@[d], depth + 1).contains_key(x));
                    }
                    lemma_subset_len(inner.dom(), after.dom());
                }
            },
        }
    } else {
        assert(start.remove(k@) =~= start);
    }
    (HashTrieNode::Internal(children), removed)
}

proof fn lemma_same_children<K: CacheKey, V>(
    seed: Seq<u8>,
    a: Vec<Option<Box<HashTrieNode<K, V>>>>,
    b: Vec<Option<Box<HashTrieNode<K, V>>>>,
    depth: int,
)
    requires
        a@ == b@,
        node_wf(seed, HashTrieNode::Internal(a), depth),
    ensures
        node_wf(seed, HashTrieNode::Internal(b), depth),
        node_map(seed, HashTrieNode::Internal(a), depth) == node_map(
            seed,
            HashTrieNode::Internal(b),
            depth,
        ),
{
    assert(node_map(seed, HashTrieNode::Internal(a), depth) =~= node_map(
        seed,
        HashTrieNode::Internal(b),
        depth,
    ));
}

impl<K: CacheKey, V> View for HashTrie<K, V> {
    type V = Map<K::V, V>;

    closed spec fn view(&self) -> Map<K::V, V> {
        node_map(self.seed@, self.root, 0)
    }
}

impl<K: CacheKey, V> HashTrie<K, V> {
    /// Every entry is where its hash leads, leaves know how many entries they hold, nodes with
    /// children hold enough, and the trie knows how many entries there are.
    pub closed spec fn wf(&self) -> bool {
        node_wf(self.seed@, self.root, 0) && self.len == self@.dom().len()
    }

    /// The bytes that keys are hashed with.
    pub closed spec fn seed(&self) -> Seq<u8> {
        self.seed@
    }

    /// Whether all entries are in one leaf.
    pub closed spec fn single_leaf(&self) -> bool {
        self.root is Leaf
    }

    /// An empty map that hashes with a seed of its own.
    pub fn new() -> (r: Self)
        ensures
            r.wf(),
            r@ == Map::<K::V, V>::empty(),
    {
        HashTrie::with_seed(random_seed())
    }

    /// An empty map that hashes with a given seed.
    pub fn with_seed(seed: Vec<u8>) -> (r: Self)
        ensures
            r.wf(),
            r.seed() == seed@,
            r.single_leaf(),
            r@ == Map::<K::V, V>::empty(),
    {
        let leaf = empty_leaf(Ghost(seed@), Ghost(0));
        HashTrie { seed, root: HashTrieNode::Leaf(leaf), len: 0 }
    }

    /// Maps a key to a value.
    pub fn insert(&mut self, k: K, v: V)
        requires
            old(self).wf(),
            old(self)@.dom().len() < usize::MAX,
        ensures
            final(self).wf(),
            final(self).seed() == old(self).seed(),
            final(self)@ == old(self)@.insert(k@, v),
            final(self)@.dom().finite(),
            final(self)@.dom().len() == old(self)@.dom().len() + if old(self)@.contains_key(k@) {
                0nat
            } else {
                1
            },
    {
        let ghost key = k@;
        let h: u64 = hash_key(&self.seed, &k);
        let mut root = HashTrieNode::Leaf(empty_leaf(Ghost(self.seed@), Ghost(0)));
        std::mem::swap(&mut root, &mut self.root);
        let (root, added) = insert_inner(root, Ghost(self.seed@), 0, h, k, v);
        self.root = root;
        if added {
            self.len = self.len + 1;
        }
    }

    /// The value that a key is mapped to.
    pub fn get(&self, k: &K) -> (r: Option<&V>)
        requires
            self.wf(),
        ensures
            match r {
                Some(v) => self@.contains_key(k@) && *v == self@[k@],
                None => !self@.contains_key(k@),
            },
    {
        let mut node = &self.root;
        let mut depth: usize = 0;
        let h: u64 = hash_key(&self.seed, k);
        loop
            invariant
                depth <= HASH_TRIE_MAX_DEPTH,
                h == hash_of::<K>(self.seed@, k@),
                node_wf(self.seed@, *node, depth as int),
                node_get(*node, depth as int, h, k@) == node_get(self.root, 0, h, k@),
            decreases HASH_TRIE_MAX_DEPTH - depth,
        {
            match node {
                HashTrieNode::Internal(children) => {
                    let c: usize = Self::child_idx(h, depth);
                    match &children[c] {
                        Some(child) => {
                            assert(children@[c as int] is Some);
                            node = &**child;
                            depth += 1;
                        },
                        None => {
                            assert(children@[c as int] is None);
                            return None;
                        },
                    }
                },
                HashTrieNode::Leaf(leaf) => {
                    return match leaf.buckets.get(&h) {
                        Some(b) => {
                            assert(leaf.buckets@.contains_key(h));
                            match find_in_bucket(b, k) {
                                Some(i) => Some(&b[i].1),
                                None => None,
                            }
                        },
                        None => None,
                    };
                },
            }
        }
    }

    /// Takes a key out and returns the value that it was mapped to.
    pub fn remove(&mut self, k: &K) -> (r: Option<V>)
        requires
            old(self).wf(),
        ensures
            final(self).wf(),
            final(self).seed() == old(self).seed(),
            final(self)@ == old(self)@.remove(k@),
            r == if old(self)@.contains_key(k@) {
                Some(old(self)@[k@])
            } else {
                None
            },
            final(self)@.dom().finite(),
            final(self)@.dom().len() == old(self)@.dom().len() - if r is Some {
                1nat
            } else {
                0
            },
    {
        let h: u64 = hash_key(&self.seed, k);
        let mut root = HashTrieNode::Leaf(empty_leaf(Ghost(self.seed@), Ghost(0)));
        std::mem::swap(&mut root, &mut self.root);
        let (root, removed) = remove_inner(root, Ghost(self.seed@), 0, h, k);
        self.root = root;
        if removed.is_some() {
            self.len = self.len - 1;
        } else {
            assert(old(self)@.remove(k@) =~= old(self)@);
        }
        removed
    }

    /// How many keys are mapped.
    pub fn len(&self) -> (r: usize)
        requires
            self.wf(),
        ensures
            r == self@.dom().len(),
    {
        self.len
    }
}

/// A map holds finitely many keys, so its length tells how many.
pub proof fn law_trie_is_finite<K: CacheKey, V>(t: HashTrie<K, V>)
    requires
        t.wf(),
    ensures
        t@.dom().finite(),
{
}

/// A map with fewer entries than half of what a leaf may hold is a single leaf.
pub proof fn law_small_trie_is_leaf<K: CacheKey, V>(t: HashTrie<K, V>)
    requires
        t.wf(),
        t@.dom().len() < HASH_TRIE_LEAF_MAX / 2,
    ensures
        t.single_leaf(),
{
}

} // verus!
