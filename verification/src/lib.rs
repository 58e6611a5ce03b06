//! Minimal perfect hash functions over fixed sets of byte-string keys.
//!
//! Two independent families are provided: a fingerprint/eviction multi-level
//! scheme (`fmph`, with a plain and a group-ordered variant) and a
//! bucket-and-pilot displacement scheme (`ptrhash`, with a dense and a
//! compact pilot encoding).  Each maps the n keys it was built from
//! bijectively onto `[0, n)`.

use vstd::prelude::*;

pub mod bitrank;
pub mod cardinality;
pub mod counting;
pub mod errors;
pub mod fmph;
pub mod ptrhash;
pub mod hashing;
pub mod mphf;

verus! {

} // verus!
