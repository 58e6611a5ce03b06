//! Pigeonhole facts about injective maps on integer ranges.
//!
//! Both hash families place n keys injectively into a range of indices;
//! these lemmas turn that into the counting facts a minimal perfect hash
//! needs: the range cannot be smaller than n, and an injection of `[0, n)`
//! into itself is onto.

use vstd::prelude::*;
use vstd::set_lib::lemma_int_range;
use vstd::set_lib::lemma_len_subset;
use vstd::set_lib::set_int_range;

verus! {

/// The set of values `f` takes on `[0, k)`.
pub open spec fn image_upto(f: spec_fn(int) -> int, k: int) -> Set<int>
    decreases k,
{
    if k <= 0 {
        Set::empty()
    } else {
        image_upto(f, k - 1).insert(f(k - 1))
    }
}

pub proof fn lemma_image_upto(f: spec_fn(int) -> int, n: int)
    requires
        n >= 0,
        forall|i: int, j: int| 0 <= i < j < n ==> #[trigger] f(i) != #[trigger] f(j),
    ensures
        image_upto(f, n).finite(),
        image_upto(f, n).len() == n,
        forall|v: int| image_upto(f, n).contains(v) <==> exists|i: int| 0 <= i < n && #[trigger] f(i) == v,
    decreases n,
{
    if n > 0 {
        lemma_image_upto(f, n - 1);
        assert(!image_upto(f, n - 1).contains(f(n - 1)));
    }
}

/// An injection of `[0, n)` into `[0, t)` forces `n <= t`.
pub proof fn lemma_inj_le(f: spec_fn(int) -> int, n: int, t: int)
    requires
        n >= 0,
        t >= 0,
        forall|i: int| 0 <= i < n ==> 0 <= #[trigger] f(i) < t,
        forall|i: int, j: int| 0 <= i < j < n ==> #[trigger] f(i) != #[trigger] f(j),
    ensures
        n <= t,
{
    lemma_image_upto(f, n);
    lemma_int_range(0, t);
    lemma_len_subset(image_upto(f, n), set_int_range(0, t));
}

/// Whether `r` is taken by `f` somewhere on `[0, n)`.
pub open spec fn hit_by(f: spec_fn(int) -> int, n: int, r: int) -> bool {
    exists|i: int| 0 <= i < n && #[trigger] f(i) == r
}

/// An injection of `[0, n)` into `[0, n)` is onto `[0, n)`.
pub proof fn lemma_inj_onto(f: spec_fn(int) -> int, n: int)
    requires
        n >= 0,
        forall|i: int| 0 <= i < n ==> 0 <= #[trigger] f(i) < n,
        forall|i: int, j: int| 0 <= i < j < n ==> #[trigger] f(i) != #[trigger] f(j),
    ensures
        forall|r: int| 0 <= r < n ==> #[trigger] hit_by(f, n, r),
{
    lemma_image_upto(f, n);
    assert forall|r: int| 0 <= r < n implies #[trigger] hit_by(f, n, r) by {
        if !image_upto(f, n).contains(r) {
            lemma_int_range(0, n);
            assert(image_upto(f, n).subset_of(set_int_range(0, n).remove(r)));
            lemma_len_subset(image_upto(f, n), set_int_range(0, n).remove(r));
            assert(set_int_range(0, n).remove(r).len() == n - 1);
            assert(false);
        }
    }
}

/// A map of `[0, n)` onto `[0, t)` forces `t <= n`.
pub proof fn lemma_surj_le(f: spec_fn(int) -> int, n: int, t: int)
    requires
        n >= 0,
        t >= 0,
        forall|r: int| 0 <= r < t ==> #[trigger] hit_by(f, n, r),
    ensures
        t <= n,
{
    let g = |r: int| choose|i: int| 0 <= i < n && #[trigger] f(i) == r;
    assert forall|r: int| 0 <= r < t implies 0 <= #[trigger] g(r) < n && f(g(r)) == r by {
        assert(hit_by(f, n, r));
        let i = choose|i: int| 0 <= i < n && #[trigger] f(i) == r;
        assert(0 <= i < n && f(i) == r);
    }
    lemma_inj_le(g, t, n);
}

} // verus!
