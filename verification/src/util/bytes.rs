//! Fixed-width integers as bytes.

use byteorder::{BigEndian, ByteOrder, LittleEndian};
use vstd::prelude::*;

verus! {

/// The number that big-endian bytes stand for.
pub open spec fn be_value(b: Seq<u8>) -> nat
    decreases b.len(),
{
    if b.len() == 0 {
        0
    } else {
        be_value(b.drop_last()) * 256 + b.last() as nat
    }
}

/// The number that little-endian bytes stand for.
pub open spec fn le_value(b: Seq<u8>) -> nat {
    be_value(b.reverse())
}

/// Byte strings of one length that stand for the same number are the same.
pub proof fn lemma_be_value_injective(a: Seq<u8>, b: Seq<u8>)
    requires
        a.len() == b.len(),
        be_value(a) == be_value(b),
    ensures
        a == b,
    decreases a.len(),
{
    if a.len() > 0 {
        assert(be_value(a.drop_last()) == be_value(b.drop_last()) && a.last() == b.last()) by {
            let (x, y) = (be_value(a.drop_last()), be_value(b.drop_last()));
            let (s, t) = (a.last() as nat, b.last() as nat);
            assert(x * 256 + s == y * 256 + t);
            assert(0 <= s < 256 && 0 <= t < 256);
        }
        lemma_be_value_injective(a.drop_last(), b.drop_last());
        assert(a =~= a.drop_last().push(a.last()));
        assert(b =~= b.drop_last().push(b.last()));
    } else {
        assert(a =~= b);
    }
}

/// The big-endian bytes of a number, as many as are asked for.
pub open spec fn be_bytes(n: nat, len: nat) -> Seq<u8>
    decreases len,
{
    if len == 0 {
        Seq::empty()
    } else {
        be_bytes(n / 256, (len - 1) as nat).push((n % 256) as u8)
    }
}

/// How many numbers so many bytes can stand for.
pub open spec fn byte_range(len: nat) -> nat
    decreases len,
{
    if len == 0 {
        1
    } else {
        256 * byte_range((len - 1) as nat)
    }
}

pub proof fn lemma_byte_range()
    ensures
        byte_range(4) == u32::MAX + 1,
        byte_range(8) == u64::MAX + 1,
        byte_range(16) == u128::MAX + 1,
{
    reveal_with_fuel(byte_range, 17);
}

/// Bytes are those of the number that they stand for.
pub proof fn lemma_bytes_of_value(b: Seq<u8>)
    ensures
        be_bytes(be_value(b), b.len()) == b,
        be_value(b) < byte_range(b.len()),
    decreases b.len(),
{
    if b.len() > 0 {
        lemma_bytes_of_value(b.drop_last());
        let x = be_value(b.drop_last());
        let n = x * 256 + b.last() as nat;
        assert(n / 256 == x && n % 256 == b.last());
        assert(b =~= b.drop_last().push(b.last()));
    } else {
        assert(b =~= Seq::<u8>::empty());
    }
}

/// The bytes of a number stand for it.
pub proof fn lemma_value_of_bytes(n: nat, len: nat)
    requires
        n < byte_range(len),
    ensures
        be_bytes(n, len).len() == len,
        be_value(be_bytes(n, len)) == n,
    decreases len,
{
    if len > 0 {
        lemma_value_of_bytes(n / 256, (len - 1) as nat);
        let b = be_bytes(n, len);
        assert(b.drop_last() =~= be_bytes(n / 256, (len - 1) as nat));
    }
}

pub proof fn lemma_le_value_injective(a: Seq<u8>, b: Seq<u8>)
    requires
        a.len() == b.len(),
        le_value(a) == le_value(b),
    ensures
        a == b,
{
    lemma_be_value_injective(a.reverse(), b.reverse());
    assert forall|i: int| 0 <= i < a.len() implies a[i] == b[i] by {
        assert(a.reverse()[a.len() - 1 - i] == a[i]);
        assert(b.reverse()[a.len() - 1 - i] == b[i]);
    }
    assert(a =~= b);
}

/// Calls `byteorder::BigEndian::read_u32`: the number that the first four bytes stand for.
#[verifier::external_body]
pub(crate) fn read_u32_be(b: &[u8]) -> (r: u32)
    requires
        b@.len() >= 4,
    ensures
        r as nat == be_value(b@.take(4)),
{
    BigEndian::read_u32(b)
}

/// Calls `byteorder::BigEndian::write_u32`: four bytes that stand for the number.
#[verifier::external_body]
pub(crate) fn u32_be(n: u32) -> (r: [u8; 4])
    ensures
        be_value(r@) == n as nat,
{
    let mut b = [0u8; 4];
    BigEndian::write_u32(&mut b, n);
    b
}

/// Calls `byteorder::BigEndian::read_u64`: the number that the first eight bytes stand for.
#[verifier::external_body]
pub(crate) fn read_u64_be(b: &[u8]) -> (r: u64)
    requires
        b@.len() >= 8,
    ensures
        r as nat == be_value(b@.take(8)),
{
    BigEndian::read_u64(b)
}

/// Calls `byteorder::BigEndian::write_u64`: eight bytes that stand for the number.
#[verifier::external_body]
pub(crate) fn u64_be(n: u64) -> (r: [u8; 8])
    ensures
        be_value(r@) == n as nat,
{
    let mut b = [0u8; 8];
    BigEndian::write_u64(&mut b, n);
    b
}

/// Calls `byteorder::BigEndian::read_u128`: the number that the first sixteen bytes stand for.
#[verifier::external_body]
pub(crate) fn read_u128_be(b: &[u8]) -> (r: u128)
    requires
        b@.len() >= 16,
    ensures
        r as nat == be_value(b@.take(16)),
{
    BigEndian::read_u128(b)
}

/// Calls `byteorder::BigEndian::write_u128`: sixteen bytes that stand for the number.
#[verifier::external_body]
pub(crate) fn u128_be(n: u128) -> (r: [u8; 16])
    ensures
        be_value(r@) == n as nat,
{
    let mut b = [0u8; 16];
    BigEndian::write_u128(&mut b, n);
    b
}

/// Calls `byteorder::LittleEndian::read_u64`: the number that the first eight bytes stand for.
#[verifier::external_body]
pub(crate) fn read_u64_le(b: &[u8]) -> (r: u64)
    requires
        b@.len() >= 8,
    ensures
        r as nat == le_value(b@.take(8)),
{
    LittleEndian::read_u64(b)
}

/// Calls `byteorder::LittleEndian::write_u64`: eight bytes that stand for the number.
#[verifier::external_body]
pub(crate) fn u64_le(n: u64) -> (r: [u8; 8])
    ensures
        le_value(r@) == n as nat,
{
    let mut b = [0u8; 8];
    LittleEndian::write_u64(&mut b, n);
    b
}

/// Appends bytes to a vector.
pub fn append_bytes(out: &mut Vec<u8>, b: &[u8])
    ensures
        final(out)@ == old(out)@ + b@,
{
    let ghost prior = out@;
    out.extend_from_slice(b);
    assert(out@ =~= prior + b@);
}

/// The bytes from `from` up to `to`.
pub fn sub_bytes(b: &[u8], from: usize, to: usize) -> (r: Vec<u8>)
    requires
        from <= to <= b@.len(),
    ensures
        r@ == b@.subrange(from as int, to as int),
{
    let mut out: Vec<u8> = Vec::new();
    let mut i: usize = from;
    while i < to
        invariant
            from <= i <= to <= b@.len(),
            out@ == b@.subrange(from as int, i as int),
        decreases to - i,
    {
        out.push(b[i]);
        i += 1;
        assert(out@ =~= b@.subrange(from as int, i as int));
    }
    out
}

/// Whether two byte strings are the same.
pub fn same_bytes(a: &[u8], b: &[u8]) -> (r: bool)
    ensures
        r == (a@ == b@),
{
    if a.len() != b.len() {
        return false;
    }
    let mut i: usize = 0;
    while i < a.len()
        invariant
            i <= a@.len(),
            a@.len() == b@.len(),
            forall|j: int| 0 <= j < i ==> a@[j] == b@[j],
        decreases a@.len() - i,
    {
        if a[i] != b[i] {
            return false;
        }
        i += 1;
    }
    assert(a@ =~= b@);
    true
}

} // verus!
