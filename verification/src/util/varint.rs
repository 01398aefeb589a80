//! Integers as bytes of seven bits each.

use vstd::prelude::*;

verus! {

/// The most bytes that an integer of 64 bits takes.
pub const MAX_VARINT_LEN: usize = 10;

/// The bytes of a number: seven bits in each, the lowest first, and a mark on each but the last.
pub open spec fn varint(n: nat) -> Seq<u8>
    decreases n,
{
    if n < 128 {
        seq![n as u8]
    } else {
        seq![(n % 128 + 128) as u8] + varint(n / 128)
    }
}

/// The number that bytes start with, and how many bytes it takes.
pub open spec fn leading_varint(b: Seq<u8>) -> Option<(nat, nat)>
    decreases b.len(),
{
    if b.len() == 0 {
        None
    } else if b[0] < 128 {
        Some((b[0] as nat, 1))
    } else {
        match leading_varint(b.skip(1)) {
            Some((n, len)) => Some(((b[0] - 128 + 128 * n) as nat, len + 1)),
            None => None,
        }
    }
}

/// The integer of 64 bits that bytes start with, and how many bytes it takes.
pub open spec fn parsed_varint(b: Seq<u8>) -> Option<(u64, nat)> {
    match leading_varint(b) {
        Some((n, len)) => if n <= u64::MAX && len <= MAX_VARINT_LEN {
            Some((n as u64, len))
        } else {
            None
        },
        None => None,
    }
}

proof fn lemma_leading(b: Seq<u8>)
    ensures
        leading_varint(b) matches Some((n, len)) ==> 1 <= len <= b.len(),
    decreases b.len(),
{
    if b.len() > 0 && b[0] >= 128 {
        lemma_leading(b.skip(1));
    }
}

/// One more than the largest number that takes so many bytes.
spec fn cap(k: nat) -> nat
    decreases k,
{
    if k == 0 {
        1
    } else {
        128 * cap((k - 1) as nat)
    }
}

proof fn lemma_varint_len(n: nat, k: nat)
    requires
        n < cap(k),
        k > 0,
    ensures
        1 <= varint(n).len() <= k,
    decreases k,
{
    if n >= 128 {
        if k == 1 {
            reveal_with_fuel(cap, 2);
        } else {
            lemma_varint_len(n / 128, (k - 1) as nat);
        }
    }
}

/// What is written of a number is read back.
pub proof fn law_varint_roundtrip(n: u64, tail: Seq<u8>)
    ensures
        parsed_varint(varint(n as nat) + tail) == Some((n, varint(n as nat).len())),
        1 <= varint(n as nat).len() <= MAX_VARINT_LEN,
{
    lemma_roundtrip(n as nat, tail);
    reveal_with_fuel(cap, 11);
    lemma_varint_len(n as nat, 10);
}

proof fn lemma_roundtrip(n: nat, tail: Seq<u8>)
    ensures
        leading_varint(varint(n) + tail) == Some((n, varint(n).len())),
    decreases n,
{
    let b = varint(n) + tail;
    if n >= 128 {
        lemma_roundtrip(n / 128, tail);
        assert(b.skip(1) =~= varint(n / 128) + tail);
        assert(b[0] == (n % 128 + 128) as u8);
    } else {
        assert(b[0] == n as u8);
    }
}

/// Appends the bytes of a number.
pub fn write_varint(out: &mut Vec<u8>, n: u64)
    ensures
        final(out)@ == old(out)@ + varint(n as nat),
{
    let ghost prior = out@;
    let mut rest: u64 = n;
    while rest >= 128
        invariant
            out@ + varint(rest as nat) == prior + varint(n as nat),
        decreases rest,
    {
        let ghost before = out@;
        out.push((rest % 128 + 128) as u8);
        proof {
            assert(varint(rest as nat) == seq![(rest as nat % 128 + 128) as u8] + varint(
                rest as nat / 128,
            ));
            assert(out@ + varint(rest as nat / 128) =~= before + varint(rest as nat));
        }
        rest = rest / 128;
    }
    let ghost before = out@;
    out.push(rest as u8);
    assert(out@ =~= before + varint(rest as nat));
}

/// Reads the number that starts at `at`, and says where it ends.
pub fn read_varint(b: &[u8], at: usize) -> (r: Option<(u64, usize)>)
    requires
        at <= b@.len(),
    ensures
        match parsed_varint(b@.skip(at as int)) {
            Some((n, len)) => r matches Some((m, end)) && m == n && end == at + len && end
                <= b@.len(),
            None => r is None,
        },
{
    let ghost s = b@.skip(at as int);
    let mut end: usize = at;
    proof {
        lemma_leading(s);
        assert(s.skip(0) =~= s);
    }
    while end < b.len() && b[end] >= 128
        invariant
            at <= end <= b@.len(),
            s == b@.skip(at as int),
            forall|i: int| at <= i < end ==> b@[i] >= 128,
        decreases b@.len() - end,
    {
        end += 1;
    }
    proof {
        lemma_last_byte(s, end - at);
    }
    if end >= b.len() || end - at >= MAX_VARINT_LEN {
        return None;
    }
    let mut n: u64 = b[end] as u64;
    let mut i: usize = end;
    while i > at
        invariant
            at <= i <= end < b@.len(),
            end - at < MAX_VARINT_LEN,
            s == b@.skip(at as int),
            forall|j: int| at <= j < end ==> b@[j] >= 128,
            b@[end as int] < 128,
            leading_varint(s.skip(i - at)) == Some((n as nat, (end - i + 1) as nat)),
            leading_varint(s) is Some,
            (leading_varint(s)->0).1 == end - at + 1,
        decreases i,
    {
        i -= 1;
        let digit: u64 = (b[i] - 128) as u64;
        proof {
            assert(s.skip(i - at)[0] == b@[i as int]);
            assert(s.skip(i - at).skip(1) =~= s.skip(i + 1 - at));
        }
        if n > (u64::MAX - digit) / 128 {
            proof {
                assert(digit + 128 * n > u64::MAX);
                lemma_outer_larger(s, i - at);
            }
            return None;
        }
        n = digit + 128 * n;
    }
    assert(s.skip(0) =~= s);
    Some((n, end + 1))
}

/// The number ends with the first byte without a mark.
proof fn lemma_last_byte(s: Seq<u8>, j: int)
    requires
        0 <= j <= s.len(),
        forall|i: int| 0 <= i < j ==> s[i] >= 128,
        j < s.len() ==> s[j] < 128,
    ensures
        j < s.len() ==> leading_varint(s) is Some && (leading_varint(s)->0).1 == j + 1,
        j < s.len() ==> leading_varint(s.skip(j)) == Some((s[j] as nat, 1nat)),
        j == s.len() ==> leading_varint(s) is None,
    decreases j,
{
    if j < s.len() {
        assert(s.skip(j)[0] == s[j]);
    }
    if j > 0 {
        lemma_last_byte(s.skip(1), j - 1);
        assert(s.skip(1).skip(j - 1) =~= s.skip(j));
    } else if j < s.len() {
        assert(s.skip(0) =~= s);
    }
}

/// What follows the first bytes of a number is no larger than the number.
proof fn lemma_outer_larger(s: Seq<u8>, i: int)
    requires
        0 <= i <= s.len(),
        forall|j: int| 0 <= j < i ==> s[j] >= 128,
        leading_varint(s.skip(i)) is Some,
    ensures
        leading_varint(s) matches Some((n, _)) && n >= (leading_varint(s.skip(i))->0).0,
    decreases i,
{
    if i > 0 {
        assert(s.skip(1).skip(i - 1) =~= s.skip(i));
        lemma_outer_larger(s.skip(1), i - 1);
    } else {
        assert(s.skip(0) =~= s);
    }
}

} // verus!
