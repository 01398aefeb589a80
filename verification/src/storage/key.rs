//! Keys of the cache.

use std::collections::hash_map::{DefaultHasher, RandomState};
use std::hash::{BuildHasher, Hasher};
use std::sync::Arc;

use vstd::prelude::*;
use vstd::std_specs::hash::DefaultHasherAdditionalSpecFns;
use vstd::string::StrSliceExecFns;
use vstd::utf8::{encode_utf8, encode_utf8_decode_utf8};

use crate::util::bytes::{append_bytes, le_value, lemma_le_value_injective, same_bytes, u64_le};

verus! {

/// A key that can be hashed. Keys with the same view are the same key.
pub trait CacheKey: View + Sized {
    /// The bytes that are hashed for a key.
    spec fn hashed_bytes(key: Self::V) -> Seq<u8>;

    fn to_hashed_bytes(&self) -> (r: Vec<u8>)
        ensures
            r@ == Self::hashed_bytes(self@),
    ;

    fn same_key(&self, other: &Self) -> (r: bool)
        ensures
            r == (self@ == other@),
    ;

    fn copied_key(&self) -> (r: Self)
        ensures
            r@ == self@,
    ;
}

/// The eight little-endian bytes of a number.
pub open spec fn number_bytes(n: nat) -> Seq<u8> {
    choose|b: Seq<u8>| b.len() == 8 && le_value(b) == n
}

fn bytes_of_number(n: u64) -> (r: Vec<u8>)
    ensures
        r@ == number_bytes(n as nat),
{
    let b = u64_le(n);
    let mut out: Vec<u8> = Vec::new();
    append_bytes(&mut out, &b);
    proof {
        assert(out@ =~= b@);
        let c = number_bytes(n as nat);
        assert(b@.len() == 8 && le_value(b@) == n as nat);
        lemma_le_value_injective(b@, c);
    }
    out
}

impl CacheKey for usize {
    open spec fn hashed_bytes(key: usize) -> Seq<u8> {
        number_bytes(key as nat)
    }

    fn to_hashed_bytes(&self) -> (r: Vec<u8>) {
        bytes_of_number(*self as u64)
    }

    fn same_key(&self, other: &Self) -> (r: bool) {
        *self == *other
    }

    fn copied_key(&self) -> (r: Self) {
        *self
    }
}

fn same_str(a: &str, b: &str) -> (r: bool)
    ensures
        r == (a@ == b@),
{
    proof {
        encode_utf8_decode_utf8(a@);
        encode_utf8_decode_utf8(b@);
    }
    same_bytes(a.as_bytes(), b.as_bytes())
}

impl<'a> CacheKey for &'a str {
    open spec fn hashed_bytes(key: Seq<char>) -> Seq<u8> {
        encode_utf8(key)
    }

    fn to_hashed_bytes(&self) -> (r: Vec<u8>) {
        self.as_bytes_vec()
    }

    fn same_key(&self, other: &Self) -> (r: bool) {
        same_str(*self, *other)
    }

    fn copied_key(&self) -> (r: Self) {
        *self
    }
}

impl CacheKey for String {
    open spec fn hashed_bytes(key: Seq<char>) -> Seq<u8> {
        encode_utf8(key)
    }

    fn to_hashed_bytes(&self) -> (r: Vec<u8>) {
        self.as_str().as_bytes_vec()
    }

    fn same_key(&self, other: &Self) -> (r: bool) {
        same_str(self.as_str(), other.as_str())
    }

    fn copied_key(&self) -> (r: Self) {
        self.clone()
    }
}

impl CacheKey for (Arc<String>, u64) {
    open spec fn hashed_bytes(key: (Seq<char>, u64)) -> Seq<u8> {
        encode_utf8(key.0) + number_bytes(key.1 as nat)
    }

    fn to_hashed_bytes(&self) -> (r: Vec<u8>) {
        let mut out = self.0.as_str().as_bytes_vec();
        let number = bytes_of_number(self.1);
        append_bytes(&mut out, number.as_slice());
        out
    }

    fn same_key(&self, other: &Self) -> (r: bool) {
        self.1 == other.1 && same_str(self.0.as_str(), other.0.as_str())
    }

    fn copied_key(&self) -> (r: Self) {
        (self.0.clone(), self.1)
    }
}

/// The hash of bytes under a seed.
pub open spec fn seeded_hash(seed: Seq<u8>, b: Seq<u8>) -> u64 {
    DefaultHasher::spec_finish(seq![seed, b])
}

/// The hash of a key under a seed.
pub open spec fn hash_of<K: CacheKey>(seed: Seq<u8>, key: K::V) -> u64 {
    seeded_hash(seed, K::hashed_bytes(key))
}

/// Hashes a key under a seed.
pub fn hash_key<K: CacheKey>(seed: &Vec<u8>, key: &K) -> (r: u64)
    ensures
        r == hash_of::<K>(seed@, key@),
{
    let bytes = key.to_hashed_bytes();
    let mut hasher = DefaultHasher::new();
    hasher.write(seed.as_slice());
    hasher.write(bytes.as_slice());
    assert(hasher@ =~= seq![seed@, bytes@]);
    hasher.finish()
}

/// Calls `std::collections::hash_map::RandomState::new`, which draws keys to hash with. Nothing is
/// said of them.
#[verifier::external_body]
fn random_state() -> (r: RandomState) {
    RandomState::new()
}

/// Calls `std::hash::BuildHasher::hash_one` on a fixed value. Nothing is said of the number, which
/// depends on the keys that the state drew.
#[verifier::external_body]
fn number_from(state: &RandomState) -> (r: u64) {
    state.hash_one(0u8)
}

/// Bytes to hash with that differ from one call to another.
pub fn random_seed() -> (r: Vec<u8>)
    ensures
        r@.len() == 8,
{
    let b = u64_le(number_from(&random_state()));
    let mut out: Vec<u8> = Vec::new();
    append_bytes(&mut out, &b);
    out
}

} // verus!
