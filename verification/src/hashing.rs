//! Deterministic, seed-parameterized hashing of byte strings to 64-bit
//! values.  Every algorithm in this crate draws its randomness from these
//! functions alone, so construction and query always agree on where a key
//! lands.

use vstd::prelude::*;

verus! {

pub const HASH_BASIS: u64 = 0xcbf29ce484222325;
pub const HASH_PRIME: u64 = 0x100000001b3;
pub const MIX_MUL_1: u64 = 0xff51afd7ed558ccd;
pub const MIX_MUL_2: u64 = 0xc4ceb9fe1a85ec53;

/// One absorption step of the byte-string hash.
pub open spec fn hash_step(h: u64, b: u8) -> u64 {
    (h ^ (b as u64)).wrapping_mul(HASH_PRIME)
}

/// Final avalanche so that nearby inputs spread over the whole range.
pub open spec fn hash_finish(h0: u64) -> u64 {
    let h1 = (h0 ^ (h0 >> 33)).wrapping_mul(MIX_MUL_1);
    let h2 = (h1 ^ (h1 >> 29)).wrapping_mul(MIX_MUL_2);
    h2 ^ (h2 >> 32)
}

/// State of the hash after absorbing the first `i` bytes of `key`.
pub open spec fn hash_state(key: Seq<u8>, i: int, seed: u64) -> u64
    decreases i,
{
    if i <= 0 {
        seed ^ HASH_BASIS
    } else {
        hash_step(hash_state(key, i - 1, seed), key[i - 1])
    }
}

/// The 64-bit hash of `key` under `seed`.
pub open spec fn spec_hash(key: Seq<u8>, seed: u64) -> u64 {
    hash_finish(hash_state(key, key.len() as int, seed))
}

/// Mix two 64-bit words into one; used to derive level and pilot seeds.
pub open spec fn spec_mix(a: u64, b: u64) -> u64 {
    hash_finish(a.wrapping_mul(MIX_MUL_1).wrapping_add(b.wrapping_mul(MIX_MUL_2)))
}

pub fn hash_bytes(key: &[u8], seed: u64) -> (r: u64)
    ensures
        r == spec_hash(key@, seed),
{
    let mut h: u64 = seed ^ HASH_BASIS;
    let mut i: usize = 0;
    while i < key.len()
        invariant
            i <= key@.len(),
            h == hash_state(key@, i as int, seed),
        decreases key@.len() - i,
    {
        h = (h ^ (key[i] as u64)).wrapping_mul(HASH_PRIME);
        i = i + 1;
    }
    let h1 = (h ^ (h >> 33)).wrapping_mul(MIX_MUL_1);
    let h2 = (h1 ^ (h1 >> 29)).wrapping_mul(MIX_MUL_2);
    h2 ^ (h2 >> 32)
}

pub fn mix(a: u64, b: u64) -> (r: u64)
    ensures
        r == spec_mix(a, b),
{
    let h = a.wrapping_mul(MIX_MUL_1).wrapping_add(b.wrapping_mul(MIX_MUL_2));
    let h1 = (h ^ (h >> 33)).wrapping_mul(MIX_MUL_1);
    let h2 = (h1 ^ (h1 >> 29)).wrapping_mul(MIX_MUL_2);
    h2 ^ (h2 >> 32)
}

} // verus!
