//! Counting occurrences of a value in a sequence of slot indices.
//!
//! The fingerprint builder places a key at a slot exactly when that slot is
//! hit by precisely one remaining key; these lemmas relate that rule to the
//! per-slot occurrence count.

use vstd::prelude::*;

verus! {

/// Number of positions of `s` that hold `v`.
pub open spec fn count_eq(s: Seq<int>, v: int) -> int
    decreases s.len(),
{
    if s.len() == 0 {
        0
    } else {
        count_eq(s.drop_last(), v) + if s.last() == v {
            1int
        } else {
            0int
        }
    }
}

pub proof fn lemma_count_nonneg(s: Seq<int>, v: int)
    ensures
        count_eq(s, v) >= 0,
    decreases s.len(),
{
    if s.len() > 0 {
        lemma_count_nonneg(s.drop_last(), v);
    }
}

pub proof fn lemma_count_push(s: Seq<int>, x: int, v: int)
    ensures
        count_eq(s.push(x), v) == count_eq(s, v) + if x == v {
            1int
        } else {
            0int
        },
{
    assert(s.push(x).drop_last() =~= s);
}
} // verus!
