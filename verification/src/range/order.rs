//! The order of keys and of the gaps between them.
//!
//! Keys and bounds are placed on one line. A place on that line is a sequence of integers: the
//! bytes of a key followed by one mark that no byte equals. Places are ordered
//! lexicographically, so a mark below every byte stands before all extensions of the key and a
//! mark above every byte stands behind them.

use vstd::prelude::*;

verus! {

/// Lexicographic order on sequences of integers.
pub open spec fn lex_lt(a: Seq<int>, b: Seq<int>) -> bool
    decreases a.len(),
{
    if b.len() == 0 {
        false
    } else if a.len() == 0 {
        true
    } else if a[0] != b[0] {
        a[0] < b[0]
    } else {
        lex_lt(a.drop_first(), b.drop_first())
    }
}

/// Whether `pfx` is a prefix of `key`.
pub open spec fn is_prefix(pfx: Seq<u8>, key: Seq<u8>) -> bool {
    pfx.len() <= key.len() && key.subrange(0, pfx.len() as int) == pfx
}

/// The bytes of a key as integers.
pub open spec fn symbols(key: Seq<u8>) -> Seq<int> {
    Seq::new(key.len(), |i: int| key[i] as int)
}

/// Whether `a` comes before `b` in the lexicographic order of byte strings.
pub open spec fn key_lt(a: Seq<u8>, b: Seq<u8>) -> bool {
    lex_lt(symbols(a), symbols(b))
}

/// The place of a mark that follows the bytes of a key.
pub open spec fn marked(key: Seq<u8>, mark: int) -> Seq<int> {
    symbols(key).push(mark)
}

pub proof fn lemma_lex_irreflexive(a: Seq<int>)
    ensures
        !lex_lt(a, a),
    decreases a.len(),
{
    if a.len() > 0 {
        lemma_lex_irreflexive(a.drop_first());
    }
}

pub proof fn lemma_lex_total(a: Seq<int>, b: Seq<int>)
    ensures
        lex_lt(a, b) || a == b || lex_lt(b, a),
    decreases a.len(),
{
    if a.len() > 0 && b.len() > 0 && a[0] == b[0] {
        lemma_lex_total(a.drop_first(), b.drop_first());
        if a.drop_first() == b.drop_first() {
            assert(a =~= seq![a[0]] + a.drop_first());
            assert(b =~= seq![b[0]] + b.drop_first());
        }
    } else if a.len() == 0 && b.len() == 0 {
        assert(a =~= b);
    }
}

pub proof fn lemma_lex_transitive(a: Seq<int>, b: Seq<int>, c: Seq<int>)
    requires
        lex_lt(a, b),
        lex_lt(b, c),
    ensures
        lex_lt(a, c),
    decreases a.len(),
{
    if a.len() > 0 && b.len() > 0 && c.len() > 0 && a[0] == b[0] && b[0] == c[0] {
        lemma_lex_transitive(a.drop_first(), b.drop_first(), c.drop_first());
    }
}

/// Dropping a shared first element does not change an order.
pub proof fn lemma_lex_at(a: Seq<int>, b: Seq<int>, n: int)
    requires
        0 <= n <= a.len(),
        n <= b.len(),
        forall|i: int| 0 <= i < n ==> a[i] == b[i],
    ensures
        lex_lt(a, b) == lex_lt(a.skip(n), b.skip(n)),
    decreases n,
{
    if n == 0 {
        assert(a.skip(0) =~= a);
        assert(b.skip(0) =~= b);
    } else {
        lemma_lex_at(a.drop_first(), b.drop_first(), n - 1);
        assert(a.drop_first().skip(n - 1) =~= a.skip(n));
        assert(b.drop_first().skip(n - 1) =~= b.skip(n));
    }
}

/// The length of the longest common prefix.
pub open spec fn common_len(a: Seq<u8>, b: Seq<u8>) -> nat
    decreases a.len(),
{
    if a.len() == 0 || b.len() == 0 || a[0] != b[0] {
        0
    } else {
        1 + common_len(a.drop_first(), b.drop_first())
    }
}

pub proof fn lemma_common_len(a: Seq<u8>, b: Seq<u8>)
    ensures
        common_len(a, b) <= a.len(),
        common_len(a, b) <= b.len(),
        forall|i: int| 0 <= i < common_len(a, b) ==> a[i] == b[i],
        common_len(a, b) < a.len() && common_len(a, b) < b.len() ==> a[common_len(a, b) as int]
            != b[common_len(a, b) as int],
    decreases a.len(),
{
    if !(a.len() == 0 || b.len() == 0 || a[0] != b[0]) {
        lemma_common_len(a.drop_first(), b.drop_first());
        let n = common_len(a.drop_first(), b.drop_first());
        assert forall|i: int| 0 <= i < n + 1 implies a[i] == b[i] by {
            if i > 0 {
                assert(a.drop_first()[i - 1] == b.drop_first()[i - 1]);
            }
        }
    }
}

/// How the places of two marks compare, by the point where the keys first differ.
pub proof fn lemma_marked_order(a: Seq<u8>, s: int, b: Seq<u8>, t: int)
    requires
        s < 0 || s > 255,
        t < 0 || t > 255,
    ensures
        ({
            let n = common_len(a, b) as int;
            &&& lex_lt(marked(a, s), marked(b, t)) == if n < a.len() && n < b.len() {
                a[n] < b[n]
            } else if n < b.len() {
                s < b[n]
            } else if n < a.len() {
                a[n] < t
            } else {
                s < t
            }
            &&& key_lt(a, b) == if n < a.len() && n < b.len() {
                a[n] < b[n]
            } else {
                n < b.len()
            }
            &&& is_prefix(a, b) == (n == a.len())
            &&& is_prefix(b, a) == (n == b.len())
            &&& (a == b) == (n == a.len() && n == b.len())
        }),
{
    reveal_with_fuel(lex_lt, 2);
    lemma_common_len(a, b);
    let n = common_len(a, b) as int;
    let ma = marked(a, s);
    let mb = marked(b, t);
    lemma_lex_at(ma, mb, n);
    let ra = ma.skip(n);
    let rb = mb.skip(n);
    assert(ra.len() == a.len() + 1 - n && rb.len() == b.len() + 1 - n);
    assert(ra[0] == if n < a.len() { a[n] as int } else { s });
    assert(rb[0] == if n < b.len() { b[n] as int } else { t });
    if n >= a.len() {
        assert(ra.drop_first().len() == 0);
    }
    if n >= b.len() {
        assert(rb.drop_first().len() == 0);
    }
    lemma_lex_at(symbols(a), symbols(b), n);
    let ka = symbols(a).skip(n);
    let kb = symbols(b).skip(n);
    if n < a.len() {
        assert(ka[0] == a[n] as int);
    }
    if n < b.len() {
        assert(kb[0] == b[n] as int);
    }
    if n == a.len() {
        assert(b.subrange(0, a.len() as int) =~= a);
    } else if a.len() <= b.len() {
        assert(b.subrange(0, a.len() as int)[n] == b[n]);
    }
    if n == b.len() {
        assert(a.subrange(0, b.len() as int) =~= b);
    } else if b.len() <= a.len() {
        assert(a.subrange(0, b.len() as int)[n] == a[n]);
    }
    if n == a.len() && n == b.len() {
        assert(a =~= b);
    }
}

} // verus!
