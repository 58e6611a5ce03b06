//! Occupancy bit vectors with rank support.
//!
//! Each level of the fingerprint builder stores which of its slots are
//! occupied, together with a sampled prefix-count structure so that
//! "how many occupied slots before position p" is answered by one table
//! lookup plus a bounded scan.

use vstd::prelude::*;

verus! {

/// Number of set positions among the first `p` entries of `bs`.
pub open spec fn rank(bs: Seq<bool>, p: int) -> int
    decreases p,
{
    if p <= 0 {
        0
    } else {
        rank(bs, p - 1) + if bs[p - 1] {
            1int
        } else {
            0int
        }
    }
}

pub proof fn lemma_rank_bounds(bs: Seq<bool>, p: int)
    requires
        0 <= p,
    ensures
        0 <= rank(bs, p) <= p,
    decreases p,
{
    if p > 0 {
        lemma_rank_bounds(bs, p - 1);
    }
}

pub proof fn lemma_rank_mono(bs: Seq<bool>, p: int, q: int)
    requires
        0 <= p <= q,
    ensures
        rank(bs, p) <= rank(bs, q),
    decreases q,
{
    if p < q {
        lemma_rank_mono(bs, p, q - 1);
    }
}

/// How many entries a sampled prefix table has for `len` bits.
pub open spec fn sample_len(len: int) -> int {
    (len + 63) / 64
}

/// An immutable bit vector with sampled prefix counts: entry `w` of
/// `samples` holds the number of set bits before position `64 * w`.
pub struct BitRank {
    pub occ: Vec<bool>,
    pub samples: Vec<u64>,
    pub total: u64,
}

impl BitRank {
    pub open spec fn view(&self) -> Seq<bool> {
        self.occ@
    }

    pub open spec fn wf(&self) -> bool {
        &&& self.samples@.len() == sample_len(self.occ@.len() as int)
        &&& forall|w: int|
            0 <= w < self.samples@.len() ==> self.samples@[w] as int == rank(self.occ@, 64 * w)
        &&& self.total as int == rank(self.occ@, self.occ@.len() as int)
    }

    pub open spec fn len(&self) -> int {
        self.occ@.len() as int
    }

    /// Resident bytes: one per slot plus eight per sampled prefix count,
    /// saturating at the largest representable count.
    pub open spec fn spec_size(&self) -> int {
        let t = self.occ@.len() + 8 * sample_len(self.occ@.len() as int);
        if t > u64::MAX as int {
            u64::MAX as int
        } else {
            t
        }
    }

    /// Total number of set bits.
    pub fn ones(&self) -> (r: u64)
        requires
            self.wf(),
        ensures
            r as int == rank(self@, self.len()),
    {
        self.total
    }

    /// Resident bytes: one per slot plus eight per sampled prefix count.
    pub fn size(&self) -> (r: u64)
        requires
            self.wf(),
        ensures
            r as int == self.spec_size(),
    {
        let words: u64 = self.samples.len() as u64;
        let bytes: u64 = self.occ.len() as u64;
        proof {
            assert(self.samples@.len() <= usize::MAX);
            assert(words <= 0x2000_0000_0000_0000);
        }
        let sw: u64 = words * 8;
        if bytes > u64::MAX - sw {
            u64::MAX
        } else {
            bytes + sw
        }
    }

    pub fn get(&self, i: usize) -> (r: bool)
        requires
            self.wf(),
            i < self.len(),
        ensures
            r == self@[i as int],
    {
        self.occ[i]
    }

    /// Number of set bits strictly before position `i`.
    pub fn rank_at(&self, i: usize) -> (r: u64)
        requires
            self.wf(),
            i < self.len(),
        ensures
            r as int == rank(self@, i as int),
    {
        let w: usize = i / 64;
        let base: usize = w * 64;
        let mut r: u64 = self.samples[w];
        let mut p: usize = base;
        proof {
            lemma_rank_bounds(self@, i as int);
            lemma_rank_mono(self@, base as int, i as int);
            lemma_rank_bounds(self@, base as int);
        }
        while p < i
            invariant
                self.wf(),
                base <= p <= i,
                i < self.len(),
                r as int == rank(self@, p as int),
                rank(self@, p as int) <= rank(self@, i as int) <= i,
            decreases i - p,
        {
            proof {
                lemma_rank_mono(self@, p as int + 1, i as int);
            }
            if self.occ[p] {
                r = r + 1;
            }
            p = p + 1;
        }
        r
    }

    /// Build the structure marking exactly the slots whose count is one.
    pub fn from_counts(counts: &Vec<u8>) -> (r: BitRank)
        ensures
            r.wf(),
            r.len() == counts@.len(),
            forall|s: int| 0 <= s < counts@.len() ==> r@[s] == (counts@[s] == 1),
    {
        let mut occ: Vec<bool> = Vec::new();
        let mut s: usize = 0;
        while s < counts.len()
            invariant
                s <= counts@.len(),
                occ@.len() == s,
                forall|t: int| 0 <= t < s ==> occ@[t] == (counts@[t] == 1),
            decreases counts@.len() - s,
        {
            occ.push(counts[s] == 1);
            s = s + 1;
        }
        let mut samples: Vec<u64> = Vec::new();
        let mut p: usize = 0;
        let mut run: u64 = 0;
        while p < occ.len()
            invariant
                p <= occ@.len(),
                run as int == rank(occ@, p as int),
                samples@.len() == (p + 63) / 64,
                p % 64 == 0 ==> samples@.len() == p / 64,
                forall|w: int| 0 <= w < samples@.len() ==> samples@[w] as int == rank(occ@, 64 * w),
            decreases occ@.len() - p,
        {
            if p % 64 == 0 {
                samples.push(run);
            }
            proof {
                lemma_rank_bounds(occ@, p as int + 1);
            }
            if occ[p] {
                run = run + 1;
            }
            p = p + 1;
        }
        BitRank { occ, samples, total: run }
    }
}

} // verus!
