//! Bounds of key ranges and their order.

use std::cmp::Ordering;

use vstd::prelude::*;

use super::order::{
    common_len, is_prefix, key_lt, lemma_lex_irreflexive, lemma_lex_total, lemma_lex_transitive,
    lemma_common_len, lemma_marked_order, lex_lt, marked, symbols,
};

verus! {

/// A key made of bytes, ordered lexicographically.
pub trait HasPrefix: Sized {
    /// The bytes of the key.
    spec fn key(&self) -> Seq<u8>;

    /// Whether the key starts with `pfx`.
    fn has_prefix(&self, pfx: &Self) -> (r: bool)
        ensures
            r == is_prefix(pfx.key(), self.key()),
    ;

    /// Lexicographic order of the bytes.
    fn compare(&self, other: &Self) -> (r: Ordering)
        ensures
            r == key_order(self.key(), other.key()),
    ;

    /// A key with the same bytes.
    fn copied(&self) -> (r: Self)
        ensures
            r.key() == self.key(),
    ;
}

/// The lexicographic order of two keys.
pub open spec fn key_order(a: Seq<u8>, b: Seq<u8>) -> Ordering {
    if key_lt(a, b) {
        Ordering::Less
    } else if a == b {
        Ordering::Equal
    } else {
        Ordering::Greater
    }
}

/// The length of the longest common prefix of two byte strings.
pub fn shared_len(a: &[u8], b: &[u8]) -> (n: usize)
    ensures
        n == common_len(a@, b@),
        n <= a@.len(),
        n <= b@.len(),
{
    let mut n: usize = 0;
    proof {
        assert(a@.skip(0) =~= a@);
        assert(b@.skip(0) =~= b@);
    }
    while n < a.len() && n < b.len() && a[n] == b[n]
        invariant
            n <= a@.len(),
            n <= b@.len(),
            common_len(a@, b@) == n + common_len(a@.skip(n as int), b@.skip(n as int)),
        decreases a@.len() - n,
    {
        proof {
            assert(a@.skip(n as int)[0] == a@[n as int]);
            assert(b@.skip(n as int)[0] == b@[n as int]);
            assert(a@.skip(n as int).drop_first() =~= a@.skip(n + 1));
            assert(b@.skip(n as int).drop_first() =~= b@.skip(n + 1));
        }
        n += 1;
    }
    proof {
        if n < a@.len() && n < b@.len() {
            assert(a@.skip(n as int)[0] == a@[n as int]);
            assert(b@.skip(n as int)[0] == b@[n as int]);
        }
    }
    n
}

fn slice_has_prefix(key: &[u8], pfx: &[u8]) -> (r: bool)
    ensures
        r == is_prefix(pfx@, key@),
{
    let n: usize = shared_len(pfx, key);
    proof {
        lemma_marked_order(pfx@, -1, key@, -1);
    }
    n == pfx.len()
}

fn slice_order(a: &[u8], b: &[u8]) -> (r: Ordering)
    ensures
        r == key_order(a@, b@),
{
    let n: usize = shared_len(a, b);
    proof {
        lemma_marked_order(a@, -1, b@, -1);
        lemma_common_len(a@, b@);
    }
    if n < a.len() {
        if n < b.len() && a[n] < b[n] {
            Ordering::Less
        } else {
            Ordering::Greater
        }
    } else if n < b.len() {
        Ordering::Less
    } else {
        Ordering::Equal
    }
}

impl HasPrefix for Vec<u8> {
    open spec fn key(&self) -> Seq<u8> {
        self@
    }

    fn has_prefix(&self, pfx: &Self) -> (r: bool) {
        slice_has_prefix(self.as_slice(), pfx.as_slice())
    }

    fn compare(&self, other: &Self) -> (r: Ordering) {
        slice_order(self.as_slice(), other.as_slice())
    }

    fn copied(&self) -> (r: Self) {
        let r = self.clone();
        assert(r@ =~= self@);
        r
    }
}

impl<'a> HasPrefix for &'a [u8] {
    open spec fn key(&self) -> Seq<u8> {
        self@
    }

    fn has_prefix(&self, pfx: &Self) -> (r: bool) {
        slice_has_prefix(*self, *pfx)
    }

    fn compare(&self, other: &Self) -> (r: Ordering) {
        slice_order(*self, *other)
    }

    fn copied(&self) -> (r: Self) {
        *self
    }
}

/// A gap in the line of keys.
#[derive(PartialEq, Eq, Debug)]
pub enum Bound<K> {
    /// Before every key.
    BeforeAll,
    /// Directly before a key.
    Before(K),
    /// Directly behind a key, before its extensions.
    After(K),
    /// Behind a key and all of its extensions.
    AfterPrefix(K),
    /// Behind every key.
    AfterAll,
}

impl<K: HasPrefix> View for Bound<K> {
    type V = Bound<Seq<u8>>;

    open spec fn view(&self) -> Bound<Seq<u8>> {
        match self {
            Bound::BeforeAll => Bound::BeforeAll,
            Bound::Before(k) => Bound::Before(k.key()),
            Bound::After(k) => Bound::After(k.key()),
            Bound::AfterPrefix(k) => Bound::AfterPrefix(k.key()),
            Bound::AfterAll => Bound::AfterAll,
        }
    }
}

/// The place of a key on the line that bounds and keys share.
pub open spec fn key_place(k: Seq<u8>) -> Seq<int> {
    marked(k, -2)
}

impl Bound<Seq<u8>> {
    /// The bytes that the place of the bound starts with.
    pub open spec fn stem(self) -> Seq<u8> {
        match self {
            Bound::BeforeAll => Seq::empty(),
            Bound::Before(k) => k,
            Bound::After(k) => k,
            Bound::AfterPrefix(k) => k,
            Bound::AfterAll => Seq::empty(),
        }
    }

    /// The mark that the place of the bound ends with.
    pub open spec fn mark(self) -> int {
        match self {
            Bound::BeforeAll => -4,
            Bound::Before(k) => -3,
            Bound::After(k) => -1,
            Bound::AfterPrefix(k) => 256,
            Bound::AfterAll => 257,
        }
    }

    /// The place of the bound on the line that bounds and keys share.
    pub open spec fn place(self) -> Seq<int> {
        marked(self.stem(), self.mark())
    }

    /// Whether the bound stands before another.
    #[verifier::opaque]
    pub open spec fn before(self, other: Self) -> bool {
        lex_lt(self.place(), other.place())
    }

    /// Whether the bound stands before another or is the same.
    pub open spec fn at_most(self, other: Self) -> bool {
        self == other || self.before(other)
    }

    /// Whether the bound stands before a key.
    #[verifier::opaque]
    pub open spec fn before_key(self, k: Seq<u8>) -> bool {
        lex_lt(self.place(), key_place(k))
    }
}

/// The order of two bounds.
pub open spec fn bound_order(a: Bound<Seq<u8>>, b: Bound<Seq<u8>>) -> Ordering {
    if a.before(b) {
        Ordering::Less
    } else if a == b {
        Ordering::Equal
    } else {
        Ordering::Greater
    }
}

/// Places with equal bytes and equal marks are equal, and no others.
pub proof fn lemma_marked_injective(a: Seq<u8>, s: int, b: Seq<u8>, t: int)
    requires
        marked(a, s) == marked(b, t),
    ensures
        a == b,
        s == t,
{
    assert(marked(a, s).last() == s);
    assert(marked(b, t).last() == t);
    assert(marked(a, s).len() == a.len() + 1);
    assert(marked(b, t).len() == b.len() + 1);
    assert forall|i: int| 0 <= i < a.len() implies a[i] == b[i] by {
        assert(marked(a, s)[i] == a[i] as int);
        assert(marked(b, t)[i] == b[i] as int);
    }
    assert(a =~= b);
}

proof fn lemma_place_injective(a: Bound<Seq<u8>>, b: Bound<Seq<u8>>)
    requires
        a.place() == b.place(),
    ensures
        a == b,
{
    lemma_marked_injective(a.stem(), a.mark(), b.stem(), b.mark());
}

/// No bound stands before itself.
pub broadcast proof fn law_bound_irreflexive(a: Bound<Seq<u8>>)
    ensures
        !#[trigger] a.before(a),
{
    reveal(Bound::before);
    lemma_lex_irreflexive(a.place());
}

/// Of two bounds one stands before the other, or they are the same.
pub broadcast proof fn law_bound_total(a: Bound<Seq<u8>>, b: Bound<Seq<u8>>)
    ensures
        #[trigger] a.before(b) || a == b || b.before(a),
{
    reveal(Bound::before);
    lemma_lex_total(a.place(), b.place());
    if a.place() == b.place() {
        lemma_place_injective(a, b);
    }
}

/// The order of bounds is transitive.
pub broadcast proof fn law_bound_transitive(
    a: Bound<Seq<u8>>,
    b: Bound<Seq<u8>>,
    c: Bound<Seq<u8>>,
)
    requires
        #[trigger] a.before(b),
        #[trigger] b.before(c),
    ensures
        a.before(c),
{
    reveal(Bound::before);
    lemma_lex_transitive(a.place(), b.place(), c.place());
}

/// `BeforeAll` is the least bound and `AfterAll` the greatest.
pub proof fn law_bound_extremes(a: Bound<Seq<u8>>)
    ensures
        Bound::<Seq<u8>>::BeforeAll.at_most(a),
        a.at_most(Bound::AfterAll),
{
    reveal(Bound::before);
    lemma_marked_order(Seq::empty(), -4, a.stem(), a.mark());
    lemma_marked_order(a.stem(), a.mark(), Seq::empty(), 257);
    lemma_common_len(Seq::empty(), a.stem());
    lemma_common_len(a.stem(), Seq::empty());
}

/// A key lies directly behind the bound before it and directly before the bound after it: a bound
/// stands before the key exactly when it is at most `Before` of the key.
pub proof fn law_key_between_bounds(a: Bound<Seq<u8>>, k: Seq<u8>)
    ensures
        a.before_key(k) == a.at_most(Bound::Before(k)),
        !a.before_key(k) == Bound::After(k).at_most(a),
{
    reveal(Bound::before);
    reveal(Bound::before_key);
    lemma_marked_order(a.stem(), a.mark(), k, -2);
    lemma_marked_order(a.stem(), a.mark(), k, -3);
    lemma_marked_order(k, -1, a.stem(), a.mark());
    lemma_common_len(a.stem(), k);
    lemma_common_len_symmetric(a.stem(), k);
    if a.place() == Bound::Before(k).place() {
        lemma_place_injective(a, Bound::Before(k));
    }
    if a.place() == Bound::After(k).place() {
        lemma_place_injective(a, Bound::After(k));
    }
}

proof fn lemma_common_len_symmetric(a: Seq<u8>, b: Seq<u8>)
    ensures
        common_len(a, b) == common_len(b, a),
    decreases a.len(),
{
    if a.len() > 0 && b.len() > 0 && a[0] == b[0] {
        lemma_common_len_symmetric(a.drop_first(), b.drop_first());
    }
}

/// The bounds about one key stand in the order before, after, after all extensions, and the
/// bounds about an extension of a key stand between the last two.
pub proof fn law_prefix_encloses(pfx: Seq<u8>, b: Bound<Seq<u8>>)
    ensures
        Bound::Before(pfx).before(Bound::After(pfx)),
        Bound::After(pfx).before(Bound::AfterPrefix(pfx)),
        (b is Before || b is After || b is AfterPrefix) && is_prefix(pfx, b.stem()) && b.stem()
            != pfx ==> Bound::After(pfx).before(b) && b.before(Bound::AfterPrefix(pfx)),
{
    reveal(Bound::before);
    lemma_marked_order(pfx, -3, pfx, -1);
    lemma_marked_order(pfx, -1, pfx, 256);
    lemma_marked_order(pfx, -1, b.stem(), b.mark());
    lemma_marked_order(b.stem(), b.mark(), pfx, 256);
}

/// A key lies between the bound before a prefix and the bound behind its extensions exactly when
/// it starts with the prefix.
pub proof fn law_key_around_prefix(pfx: Seq<u8>, k: Seq<u8>)
    ensures
        (Bound::Before(pfx).before_key(k) && !Bound::AfterPrefix(pfx).before_key(k)) == is_prefix(
            pfx,
            k,
        ),
{
    reveal(Bound::before_key);
    lemma_marked_order(pfx, -3, k, -2);
    lemma_marked_order(pfx, 256, k, -2);
    lemma_common_len(pfx, k);
}

pub broadcast group group_bound_order {
    law_bound_irreflexive,
    law_bound_total,
    law_bound_transitive,
}

impl<K: HasPrefix> Clone for Bound<K> {
    fn clone(&self) -> (r: Self)
        ensures
            r@ == self@,
    {
        match self {
            Bound::BeforeAll => Bound::BeforeAll,
            Bound::Before(k) => Bound::Before(k.copied()),
            Bound::After(k) => Bound::After(k.copied()),
            Bound::AfterPrefix(k) => Bound::AfterPrefix(k.copied()),
            Bound::AfterAll => Bound::AfterAll,
        }
    }
}

impl<K> Bound<K> {
    /// The same bound about the key that `f` makes of the key.
    pub fn map<K2, F: FnOnce(K) -> K2>(self, f: F) -> (r: Bound<K2>)
        requires
            match self {
                Bound::Before(k) => call_requires(f, (k,)),
                Bound::After(k) => call_requires(f, (k,)),
                Bound::AfterPrefix(k) => call_requires(f, (k,)),
                _ => true,
            },
        ensures
            match (self, r) {
                (Bound::BeforeAll, Bound::BeforeAll) => true,
                (Bound::Before(k), Bound::Before(k2)) => call_ensures(f, (k,), k2),
                (Bound::After(k), Bound::After(k2)) => call_ensures(f, (k,), k2),
                (Bound::AfterPrefix(k), Bound::AfterPrefix(k2)) => call_ensures(f, (k,), k2),
                (Bound::AfterAll, Bound::AfterAll) => true,
                _ => false,
            },
    {
        match self {
            Bound::BeforeAll => Bound::BeforeAll,
            Bound::Before(v) => Bound::Before(f(v)),
            Bound::After(v) => Bound::After(f(v)),
            Bound::AfterPrefix(v) => Bound::AfterPrefix(f(v)),
            Bound::AfterAll => Bound::AfterAll,
        }
    }
}

impl<K: HasPrefix> Bound<K> {
    /// The order of the bound and a key. No bound is at a key.
    pub fn cmp_key(&self, other: &K) -> (r: Ordering)
        ensures
            r == if self@.before_key(other.key()) {
                Ordering::Less
            } else {
                Ordering::Greater
            },
    {
        proof {
            reveal(Bound::before_key);
            lemma_marked_order(self@.stem(), self@.mark(), other.key(), -2);
            lemma_common_len(self@.stem(), other.key());
        }
        match self {
            Bound::BeforeAll => Ordering::Less,
            Bound::Before(k) => match k.compare(other) {
                Ordering::Equal => Ordering::Less,
                order => order,
            },
            Bound::After(k) => match k.compare(other) {
                Ordering::Equal => Ordering::Greater,
                order => order,
            },
            Bound::AfterPrefix(k) => {
                if other.has_prefix(k) {
                    Ordering::Greater
                } else {
                    k.compare(other)
                }
            },
            Bound::AfterAll => Ordering::Greater,
        }
    }

    /// The order of two bounds.
    pub fn cmp(&self, other: &Bound<K>) -> (r: Ordering)
        ensures
            r == bound_order(self@, other@),
    {
        proof {
            reveal(Bound::before);
            lemma_marked_order(self@.stem(), self@.mark(), other@.stem(), other@.mark());
            lemma_common_len(self@.stem(), other@.stem());
        }
        match (self, other) {
            (Bound::BeforeAll, Bound::BeforeAll) => Ordering::Equal,
            (Bound::BeforeAll, _) => Ordering::Less,
            (_, Bound::BeforeAll) => Ordering::Greater,
            (Bound::AfterAll, Bound::AfterAll) => Ordering::Equal,
            (Bound::AfterAll, _) => Ordering::Greater,
            (_, Bound::AfterAll) => Ordering::Less,
            (Bound::Before(a), Bound::Before(b)) => a.compare(b),
            (Bound::After(a), Bound::After(b)) => a.compare(b),
            (Bound::Before(a), Bound::After(b)) => match a.compare(b) {
                Ordering::Equal => Ordering::Less,
                order => order,
            },
            (Bound::After(a), Bound::Before(b)) => match a.compare(b) {
                Ordering::Equal => Ordering::Greater,
                order => order,
            },
            (Bound::AfterPrefix(a), Bound::AfterPrefix(b)) => match a.compare(b) {
                Ordering::Equal => Ordering::Equal,
                order => {
                    if a.has_prefix(b) {
                        Ordering::Less
                    } else if b.has_prefix(a) {
                        Ordering::Greater
                    } else {
                        order
                    }
                },
            },
            (Bound::AfterPrefix(a), Bound::Before(b)) => {
                if b.has_prefix(a) {
                    Ordering::Greater
                } else {
                    a.compare(b)
                }
            },
            (Bound::AfterPrefix(a), Bound::After(b)) => {
                if b.has_prefix(a) {
                    Ordering::Greater
                } else {
                    a.compare(b)
                }
            },
            (Bound::Before(a), Bound::AfterPrefix(b)) => {
                if a.has_prefix(b) {
                    Ordering::Less
                } else {
                    a.compare(b)
                }
            },
            (Bound::After(a), Bound::AfterPrefix(b)) => {
                if a.has_prefix(b) {
                    Ordering::Less
                } else {
                    a.compare(b)
                }
            },
        }
    }

    /// Whether the bound stands before another.
    pub fn is_before(&self, other: &Bound<K>) -> (r: bool)
        ensures
            r == self@.before(other@),
    {
        match self.cmp(other) {
            Ordering::Less => true,
            _ => false,
        }
    }

    /// Whether the bound stands before another or is the same.
    pub fn is_at_most(&self, other: &Bound<K>) -> (r: bool)
        ensures
            r == self@.at_most(other@),
    {
        match self.cmp(other) {
            Ordering::Greater => false,
            _ => true,
        }
    }

    /// Whether the bound stands before a key.
    pub fn is_before_key(&self, k: &K) -> (r: bool)
        ensures
            r == self@.before_key(k.key()),
    {
        match self.cmp_key(k) {
            Ordering::Less => true,
            _ => false,
        }
    }

    /// Whether two bounds are the same.
    pub fn same(&self, other: &Bound<K>) -> (r: bool)
        ensures
            r == (self@ == other@),
    {
        proof {
            law_bound_irreflexive(self@);
        }
        match self.cmp(other) {
            Ordering::Equal => true,
            _ => false,
        }
    }
}

impl<'a, K: Clone> Bound<&'a K> {
    /// The same bound about a clone of the key.
    pub fn cloned(&self) -> (r: Bound<K>)
        ensures
            match (*self, r) {
                (Bound::BeforeAll, Bound::BeforeAll) => true,
                (Bound::Before(k), Bound::Before(k2)) => cloned(*k, k2),
                (Bound::After(k), Bound::After(k2)) => cloned(*k, k2),
                (Bound::AfterPrefix(k), Bound::AfterPrefix(k2)) => cloned(*k, k2),
                (Bound::AfterAll, Bound::AfterAll) => true,
                _ => false,
            },
    {
        match self {
            Bound::BeforeAll => Bound::BeforeAll,
            Bound::Before(k) => Bound::Before((*k).clone()),
            Bound::After(k) => Bound::After((*k).clone()),
            Bound::AfterPrefix(k) => Bound::AfterPrefix((*k).clone()),
            Bound::AfterAll => Bound::AfterAll,
        }
    }
}

/// A key, or a gap between keys.
#[derive(PartialEq, Eq, Debug)]
pub enum KeyOrBound<K> {
    Key(K),
    Bound(Bound<K>),
}

impl<K: HasPrefix> View for KeyOrBound<K> {
    type V = KeyOrBound<Seq<u8>>;

    open spec fn view(&self) -> KeyOrBound<Seq<u8>> {
        match self {
            KeyOrBound::Key(k) => KeyOrBound::Key(k.key()),
            KeyOrBound::Bound(b) => KeyOrBound::Bound(b@),
        }
    }
}

impl KeyOrBound<Seq<u8>> {
    /// The place of the key or the bound on the line that they share.
    pub open spec fn place(self) -> Seq<int> {
        match self {
            KeyOrBound::Key(k) => key_place(k),
            KeyOrBound::Bound(b) => b.place(),
        }
    }

    /// Whether this stands before another.
    pub open spec fn before(self, other: Self) -> bool {
        lex_lt(self.place(), other.place())
    }
}

/// The order of two keys or bounds.
pub open spec fn key_or_bound_order(
    a: KeyOrBound<Seq<u8>>,
    b: KeyOrBound<Seq<u8>>,
) -> Ordering {
    if a.before(b) {
        Ordering::Less
    } else if a == b {
        Ordering::Equal
    } else {
        Ordering::Greater
    }
}

/// Keys and bounds together are totally ordered.
pub proof fn law_key_or_bound_order(
    a: KeyOrBound<Seq<u8>>,
    b: KeyOrBound<Seq<u8>>,
    c: KeyOrBound<Seq<u8>>,
)
    ensures
        !a.before(a),
        a.before(b) || a == b || b.before(a),
        a.before(b) && b.before(c) ==> a.before(c),
{
    lemma_lex_irreflexive(a.place());
    lemma_lex_total(a.place(), b.place());
    if a.before(b) && b.before(c) {
        lemma_lex_transitive(a.place(), b.place(), c.place());
    }
    if a.place() == b.place() {
        match (a, b) {
            (KeyOrBound::Key(k), KeyOrBound::Key(l)) => {
                lemma_marked_injective(k, -2, l, -2);
            },
            (KeyOrBound::Key(k), KeyOrBound::Bound(l)) => {
                lemma_marked_injective(k, -2, l.stem(), l.mark());
            },
            (KeyOrBound::Bound(k), KeyOrBound::Key(l)) => {
                lemma_marked_injective(k.stem(), k.mark(), l, -2);
            },
            (KeyOrBound::Bound(k), KeyOrBound::Bound(l)) => {
                lemma_place_injective(k, l);
            },
        }
    }
}

/// The order of bounds is the order of keys and bounds, on the bounds.
pub proof fn law_bound_order_agrees(a: Bound<Seq<u8>>, b: Bound<Seq<u8>>, k: Seq<u8>)
    ensures
        KeyOrBound::Bound(a).before(KeyOrBound::Bound(b)) == a.before(b),
        KeyOrBound::Bound(a).before(KeyOrBound::Key(k)) == a.before_key(k),
{
    reveal(Bound::before);
    reveal(Bound::before_key);
}

impl<K> KeyOrBound<K> {
    /// The key, where this is one.
    pub fn as_key(self) -> (r: Option<K>)
        ensures
            r == match self {
                KeyOrBound::Key(k) => Some(k),
                KeyOrBound::Bound(_) => None,
            },
    {
        match self {
            KeyOrBound::Key(k) => Some(k),
            _ => None,
        }
    }
}

impl<K: HasPrefix> KeyOrBound<K> {
    /// The order of two keys or bounds.
    pub fn cmp(&self, other: &Self) -> (r: Ordering)
        ensures
            r == key_or_bound_order(self@, other@),
    {
        proof {
            reveal(Bound::before);
            reveal(Bound::before_key);
            law_key_or_bound_order(self@, other@, self@);
            law_key_or_bound_order(other@, self@, other@);
        }
        match (self, other) {
            (KeyOrBound::Key(a), KeyOrBound::Key(b)) => {
                proof {
                    lemma_marked_order(a.key(), -2, b.key(), -2);
                }
                a.compare(b)
            },
            (KeyOrBound::Key(a), KeyOrBound::Bound(b)) => match b.cmp_key(a) {
                Ordering::Less => Ordering::Greater,
                Ordering::Equal => Ordering::Equal,
                Ordering::Greater => Ordering::Less,
            },
            (KeyOrBound::Bound(a), KeyOrBound::Key(b)) => a.cmp_key(b),
            (KeyOrBound::Bound(a), KeyOrBound::Bound(b)) => a.cmp(b),
        }
    }
}

impl<K: HasPrefix> Clone for KeyOrBound<K> {
    fn clone(&self) -> (r: Self)
        ensures
            r@ == self@,
    {
        match self {
            KeyOrBound::Key(k) => KeyOrBound::Key(k.copied()),
            KeyOrBound::Bound(b) => KeyOrBound::Bound(b.clone()),
        }
    }
}

} // verus!
