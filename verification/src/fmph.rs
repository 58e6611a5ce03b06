//! The fingerprint/eviction multi-level hash family.
//!
//! Construction partitions the keys into levels: each level hashes the
//! still-unplaced keys into a fresh bit vector and keeps exactly the keys
//! that land on a slot no other unplaced key hits; the rest are evicted to
//! the next level.  A key's final index is the number of occupied slots
//! before its own across the concatenation of all levels, so the built
//! structure maps the n keys bijectively onto `[0, n)`.
//!
//! The ordered variant additionally partitions each level's keys into small
//! groups and searches, per group, for a seed adjustment that lets more keys
//! land on distinct slots, shrinking the number of levels at extra
//! construction cost.  Both variants share the query path.

use vstd::prelude::*;

use crate::bitrank::rank;
use crate::bitrank::sample_len;
use crate::bitrank::lemma_rank_bounds;
use crate::bitrank::lemma_rank_mono;
use crate::bitrank::BitRank;
use crate::cardinality::hit_by;
use crate::cardinality::lemma_inj_le;
use crate::cardinality::lemma_inj_onto;
use crate::counting::count_eq;
use crate::counting::lemma_count_push;
use crate::counting::lemma_count_nonneg;
use crate::errors::MphfError;
use crate::hashing::spec_hash;
use crate::hashing::hash_bytes;
use crate::hashing::mix;

verus! {

/// Salt distinguishing the group hash from the slot hash of a level.
pub const GROUP_SALT: u64 = 0x9e3779b97f4a7c15;

/// Spacing between the seeds selected by consecutive group adjustments.
pub const SEED_STEP: u64 = 0x2545f4914f6cdd1d;

/// Candidate level seeds tried before construction gives up.
pub const LEVEL_TRIES: usize = 256;

/// Byte views of a sequence of owned keys.
pub open spec fn kview(keys: Seq<Vec<u8>>) -> Seq<Seq<u8>> {
    keys.map_values(|k: Vec<u8>| k@)
}

/// Slot indices as mathematical integers.
pub open spec fn iview(s: Seq<usize>) -> Seq<int> {
    s.map_values(|x: usize| x as int)
}

/// Whether `v` occurs in `s`.
pub open spec fn in_seq(s: Seq<usize>, v: int) -> bool {
    exists|k: int| 0 <= k < s.len() && #[trigger] s[k] as int == v
}

/// The slot a key hashes to at a level with the given parameters: the
/// key's group picks a seed adjustment, and the adjusted seed hashes the
/// key into `[0, nslots)`.
pub open spec fn slot_spec(seed: u64, gseeds: Seq<u8>, nslots: int, key: Seq<u8>) -> int
    recommends
        gseeds.len() >= 1,
        nslots >= 1,
{
    let g = (spec_hash(key, seed ^ GROUP_SALT) as int) % (gseeds.len() as int);
    (spec_hash(key, seed.wrapping_add((gseeds[g] as u64).wrapping_mul(SEED_STEP))) as int)
        % nslots
}

pub fn slot_exec(key: &[u8], seed: u64, gseeds: &Vec<u8>, nslots: usize) -> (s: usize)
    requires
        gseeds@.len() >= 1,
        nslots >= 1,
    ensures
        s as int == slot_spec(seed, gseeds@, nslots as int, key@),
        s < nslots,
{
    let h0: u64 = hash_bytes(key, seed ^ GROUP_SALT);
    let g: usize = (h0 % (gseeds.len() as u64)) as usize;
    let gs: u8 = gseeds[g];
    let h: u64 = hash_bytes(key, seed.wrapping_add((gs as u64).wrapping_mul(SEED_STEP)));
    (h % (nslots as u64)) as usize
}

/// One level: its seed, its per-group seed adjustments, and which of its
/// slots are occupied by a placed key.
pub struct Level {
    pub seed: u64,
    pub group_seeds: Vec<u8>,
    pub bits: BitRank,
}

impl Level {
    pub open spec fn wf(&self) -> bool {
        &&& self.group_seeds@.len() >= 1
        &&& self.bits.wf()
        &&& self.bits.len() >= 1
    }

    pub open spec fn slot(&self, key: Seq<u8>) -> int {
        slot_spec(self.seed, self.group_seeds@, self.bits.len(), key)
    }

    /// Whether querying `key` stops at this level.
    pub open spec fn hits(&self, key: Seq<u8>) -> bool {
        self.bits@[self.slot(key)]
    }

    /// Number of occupied slots of this level.
    pub open spec fn ones(&self) -> int {
        rank(self.bits@, self.bits.len())
    }
}

/// Index of the first level whose bit vector is set at the key's slot.
pub open spec fn first_hit(levels: Seq<Level>, key: Seq<u8>) -> Option<int>
    decreases levels.len(),
{
    if levels.len() == 0 {
        Option::None
    } else if levels[0].hits(key) {
        Option::Some(0int)
    } else {
        match first_hit(levels.drop_first(), key) {
            Option::Some(l) => Option::Some(l + 1),
            Option::None => Option::None,
        }
    }
}

/// Occupied slots in all levels before level `l`.
pub open spec fn offset_of(levels: Seq<Level>, l: int) -> int
    decreases l,
{
    if l <= 0 {
        0
    } else {
        offset_of(levels, l - 1) + levels[l - 1].ones()
    }
}

/// The global index assigned to a key that stops at level `l`.
pub open spec fn index_at(levels: Seq<Level>, l: int, key: Seq<u8>) -> int {
    offset_of(levels, l) + rank(levels[l].bits@, levels[l].slot(key))
}

/// The index the query algorithm computes for `key`.
pub open spec fn spec_index(levels: Seq<Level>, key: Seq<u8>) -> int {
    match first_hit(levels, key) {
        Option::Some(l) => index_at(levels, l, key),
        Option::None => 0,
    }
}

pub proof fn lemma_first_hit_push(levels: Seq<Level>, lv: Level, key: Seq<u8>)
    ensures
        first_hit(levels.push(lv), key) == (match first_hit(levels, key) {
            Option::Some(l) => Option::Some(l),
            Option::None => if lv.hits(key) {
                Option::Some(levels.len() as int)
            } else {
                Option::<int>::None
            },
        }),
    decreases levels.len(),
{
    let ext = levels.push(lv);
    if levels.len() == 0 {
        assert(ext[0] == lv);
        if !lv.hits(key) {
            assert(first_hit(ext.drop_first(), key) == Option::<int>::None);
        }
    } else {
        assert(ext[0] == levels[0]);
        assert(ext.drop_first() =~= levels.drop_first().push(lv));
        lemma_first_hit_push(levels.drop_first(), lv, key);
    }
}

pub proof fn lemma_first_hit_props(levels: Seq<Level>, key: Seq<u8>)
    requires
        first_hit(levels, key).is_some(),
    ensures
        0 <= first_hit(levels, key).unwrap() < levels.len(),
        levels[first_hit(levels, key).unwrap()].hits(key),
        forall|l: int| 0 <= l < first_hit(levels, key).unwrap() ==> !levels[l].hits(key),
    decreases levels.len(),
{
    if !levels[0].hits(key) {
        lemma_first_hit_props(levels.drop_first(), key);
        let l0 = first_hit(levels.drop_first(), key).unwrap();
        assert(levels.drop_first()[l0] == levels[l0 + 1]);
        assert forall|l: int| 0 <= l < l0 + 1 implies !levels[l].hits(key) by {
            if l > 0 {
                assert(levels.drop_first()[l - 1] == levels[l]);
            }
        }
    }
}

/// A hit at `l` with misses before it pins the first hit at `l`.
pub proof fn lemma_first_hit_at(levels: Seq<Level>, key: Seq<u8>, l: int)
    requires
        0 <= l < levels.len(),
        levels[l].hits(key),
        forall|k: int| 0 <= k < l ==> !levels[k].hits(key),
    ensures
        first_hit(levels, key) == Option::Some(l),
    decreases l,
{
    if l == 0 {
    } else {
        assert(!levels[0].hits(key));
        assert(levels.drop_first()[l - 1] == levels[l]);
        assert forall|k: int| 0 <= k < l - 1 implies !levels.drop_first()[k].hits(key) by {
            assert(levels.drop_first()[k] == levels[k + 1]);
        }
        lemma_first_hit_at(levels.drop_first(), key, l - 1);
    }
}

/// With no hit at any level there is no first hit.
pub proof fn lemma_first_hit_none(levels: Seq<Level>, key: Seq<u8>)
    requires
        forall|l: int| 0 <= l < levels.len() ==> !levels[l].hits(key),
    ensures
        first_hit(levels, key) == Option::<int>::None,
{
    if first_hit(levels, key).is_some() {
        lemma_first_hit_props(levels, key);
    }
}

pub proof fn lemma_offset_push(levels: Seq<Level>, lv: Level, l: int)
    requires
        0 <= l <= levels.len(),
    ensures
        offset_of(levels.push(lv), l) == offset_of(levels, l),
    decreases l,
{
    if l > 0 {
        lemma_offset_push(levels, lv, l - 1);
        assert(levels.push(lv)[l - 1] == levels[l - 1]);
    }
}

pub proof fn lemma_offset_mono(levels: Seq<Level>, l: int, l2: int)
    requires
        0 <= l <= l2 <= levels.len(),
    ensures
        offset_of(levels, l) <= offset_of(levels, l2),
    decreases l2,
{
    if l < l2 {
        lemma_offset_mono(levels, l, l2 - 1);
        lemma_rank_bounds(levels[l2 - 1].bits@, levels[l2 - 1].bits.len());
    }
}

/// Resident bytes of one level: its bit vector with prefix counts, its
/// group seed table, and a fixed per-level overhead.
pub open spec fn spec_level_size(lv: Level) -> int {
    lv.bits.spec_size() + lv.group_seeds@.len() + 16
}

/// Resident bytes of the first `l` levels.
pub open spec fn spec_fmph_size(levels: Seq<Level>, l: int) -> int
    decreases l,
{
    if l <= 0 {
        0
    } else {
        spec_fmph_size(levels, l - 1) + spec_level_size(levels[l - 1])
    }
}

/// A built fingerprint function.  `keys` records, in ghost state, the key
/// set it was built from; `wf` states that the structure is a minimal
/// perfect hash function for exactly that set.
pub struct FmphFunction {
    pub levels: Vec<Level>,
    pub n: u64,
    pub total: u64,
    pub keys: Ghost<Seq<Seq<u8>>>,
}

/// The map from key positions to indices that `wf` constrains.
pub open spec fn index_fn(f: FmphFunction) -> spec_fn(int) -> int {
    |i: int| spec_index(f.levels@, f.keys@[i])
}

impl FmphFunction {
    pub open spec fn spec_index_of(&self, key: Seq<u8>) -> int {
        spec_index(self.levels@, key)
    }

    pub open spec fn contains_key(&self, key: Seq<u8>) -> bool {
        exists|i: int| 0 <= i < self.keys@.len() && self.keys@[i] == key
    }

    /// Structural soundness: levels are well formed and `total` counts the
    /// occupied slots of all of them.
    pub open spec fn swf(&self) -> bool {
        &&& forall|l: int| 0 <= l < self.levels@.len() ==> (#[trigger] self.levels@[l]).wf()
        &&& self.total as int == offset_of(self.levels@, self.levels@.len() as int)
        &&& self.levels@.len() <= 256
        &&& forall|l: int|
            0 <= l < self.levels@.len() ==> (#[trigger] self.levels@[l]).bits@.len()
                < 0x8000_0000 && self.levels@[l].group_seeds@.len() < 0x0100_0000
    }

    /// The structure is a minimal perfect hash function for `keys`: every
    /// key stops at some level, indices lie in `[0, n)`, and they are
    /// pairwise distinct and exhaust the range.
    pub open spec fn wf(&self) -> bool {
        &&& self.swf()
        &&& self.n as int == self.keys@.len()
        &&& forall|i: int|
            0 <= i < self.keys@.len() ==> (#[trigger] first_hit(
                self.levels@,
                self.keys@[i],
            )).is_some()
        &&& forall|i: int|
            0 <= i < self.keys@.len() ==> 0 <= #[trigger] spec_index(self.levels@, self.keys@[i])
                < self.keys@.len()
        &&& forall|i: int, j: int|
            0 <= i < j < self.keys@.len() ==> #[trigger] spec_index(self.levels@, self.keys@[i])
                != #[trigger] spec_index(self.levels@, self.keys@[j])
        &&& forall|r: int|
            0 <= r < self.keys@.len() ==> #[trigger] hit_by(
                index_fn(*self),
                self.keys@.len() as int,
                r,
            )
    }

    /// Walk the levels; the index of the first hit, if any.
    pub fn query_any(&self, key: &[u8]) -> (r: Option<u64>)
        requires
            self.swf(),
        ensures
            match r {
                Option::Some(v) => first_hit(self.levels@, key@).is_some() && v as int
                    == spec_index(self.levels@, key@),
                Option::None => first_hit(self.levels@, key@) == Option::<int>::None,
            },
    {
        let mut l: usize = 0;
        let mut off: u64 = 0;
        proof {
            lemma_offset_mono(self.levels@, 0, self.levels@.len() as int);
        }
        while l < self.levels.len()
            invariant
                self.swf(),
                l <= self.levels@.len(),
                off as int == offset_of(self.levels@, l as int),
                off <= self.total,
                forall|k: int| 0 <= k < l ==> !self.levels@[k].hits(key@),
            decreases self.levels@.len() - l,
        {
            let lv = &self.levels[l];
            let s: usize = slot_exec(key, lv.seed, &lv.group_seeds, lv.bits.occ.len());
            if lv.bits.get(s) {
                proof {
                    lemma_first_hit_at(self.levels@, key@, l as int);
                    lemma_rank_bounds(lv.bits@, s as int);
                    lemma_rank_mono(lv.bits@, s as int, lv.bits.len());
                    lemma_offset_mono(self.levels@, l as int + 1, self.levels@.len() as int);
                    assert(offset_of(self.levels@, l as int + 1) == off + self.levels@[
                        l as int
                    ].ones());
                }
                let rk: u64 = lv.bits.rank_at(s);
                return Option::Some(off + rk);
            }
            proof {
                lemma_offset_mono(self.levels@, l as int + 1, self.levels@.len() as int);
                lemma_rank_bounds(lv.bits@, lv.bits.len());
            }
            let t: u64 = lv.bits.ones();
            off = off + t;
            l = l + 1;
        }
        proof {
            lemma_first_hit_none(self.levels@, key@);
        }
        Option::None
    }

    /// The index of a key of the set the function was built from.
    pub fn query(&self, key: &[u8]) -> (r: u64)
        requires
            self.wf(),
            self.contains_key(key@),
        ensures
            r as int == self.spec_index_of(key@),
            r < self.n,
    {
        let ghost ki = choose|i: int| 0 <= i < self.keys@.len() && self.keys@[i] == key@;
        match self.query_any(key) {
            Option::Some(v) => {
                proof {
                    assert(0 <= spec_index(self.levels@, self.keys@[ki]) < self.keys@.len());
                }
                v
            },
            Option::None => {
                proof {
                    assert(first_hit(self.levels@, self.keys@[ki]).is_some());
                    assert(false);
                }
                0
            },
        }
    }

    /// Resident bytes of the built structure: the sum of its levels'
    /// bit vectors, prefix-count tables, group seed tables and per-level
    /// overheads.
    pub fn size_bytes(&self) -> (r: u64)
        requires
            self.swf(),
        ensures
            r as int == spec_fmph_size(self.levels@, self.levels@.len() as int),
    {
        let mut l: usize = 0;
        let mut acc: u64 = 0;
        while l < self.levels.len()
            invariant
                self.swf(),
                l <= self.levels@.len(),
                acc as int == spec_fmph_size(self.levels@, l as int),
                acc as int <= l * 0x2_0000_0000,
            decreases self.levels@.len() - l,
        {
            let lv = &self.levels[l];
            let part: u64 = lv.bits.size();
            proof {
                assert(lv.bits@.len() < 0x8000_0000);
                assert(sample_len(lv.bits@.len() as int) <= 0x200_0000);
                assert(part as int == lv.bits.spec_size());
                assert(part < 0x1_0000_0000);
            }
            let gs: u64 = lv.group_seeds.len() as u64;
            acc = acc + part + gs + 16;
            l = l + 1;
        }
        acc
    }
}

/// Occurrence counts capped at two: one means "uniquely placed".
pub open spec fn min2(c: int) -> int {
    if c >= 2 {
        2
    } else {
        c
    }
}

/// No element of `s` occurs twice.
pub open spec fn distinct_seq(s: Seq<usize>) -> bool {
    forall|a: int, b: int| 0 <= a < b < s.len() ==> s[a] != s[b]
}

/// Every element of `s` is below `n`.
pub open spec fn bounded_seq(s: Seq<usize>, n: int) -> bool {
    forall|a: int| 0 <= a < s.len() ==> (#[trigger] s[a]) < n
}

/// Slots of the still-unplaced keys under the given level parameters.
fn compute_slots(
    keys: &Vec<Vec<u8>>,
    rem: &Vec<usize>,
    seed: u64,
    gseeds: &Vec<u8>,
    nslots: usize,
) -> (slots: Vec<usize>)
    requires
        gseeds@.len() >= 1,
        nslots >= 1,
        bounded_seq(rem@, keys@.len() as int),
    ensures
        slots@.len() == rem@.len(),
        forall|a: int|
            0 <= a < rem@.len() ==> (#[trigger] slots@[a]) < nslots && slots@[a] as int
                == slot_spec(seed, gseeds@, nslots as int, kview(keys@)[rem@[a] as int]),
{
    let mut slots: Vec<usize> = Vec::new();
    let mut a: usize = 0;
    while a < rem.len()
        invariant
            a <= rem@.len(),
            gseeds@.len() >= 1,
            nslots >= 1,
            bounded_seq(rem@, keys@.len() as int),
            slots@.len() == a,
            forall|b: int|
                0 <= b < a ==> (#[trigger] slots@[b]) < nslots && slots@[b] as int == slot_spec(
                    seed,
                    gseeds@,
                    nslots as int,
                    kview(keys@)[rem@[b] as int],
                ),
        decreases rem@.len() - a,
    {
        let i: usize = rem[a];
        let s: usize = slot_exec(keys[i].as_slice(), seed, gseeds, nslots);
        proof {
            assert(kview(keys@)[i as int] == keys@[i as int]@);
        }
        slots.push(s);
        a = a + 1;
    }
    slots
}

/// Per-slot occurrence counts, capped at two.
fn count_slots(slots: &Vec<usize>, nslots: usize) -> (counts: Vec<u8>)
    requires
        forall|a: int| 0 <= a < slots@.len() ==> (#[trigger] slots@[a]) < nslots,
    ensures
        counts@.len() == nslots,
        forall|s: int|
            0 <= s < nslots ==> (#[trigger] counts@[s]) as int == min2(
                count_eq(iview(slots@), s),
            ),
{
    let mut counts: Vec<u8> = Vec::new();
    let mut s: usize = 0;
    while s < nslots
        invariant
            s <= nslots,
            counts@.len() == s,
            forall|t: int| 0 <= t < s ==> (#[trigger] counts@[t]) == 0,
        decreases nslots - s,
    {
        counts.push(0);
        s = s + 1;
    }
    let ghost sv = iview(slots@);
    let mut a: usize = 0;
    proof {
        assert(sv.take(0) =~= Seq::<int>::empty());
        assert forall|t: int| 0 <= t < nslots implies (#[trigger] counts@[t]) as int == min2(
            count_eq(sv.take(0), t),
        ) by {
            assert(count_eq(sv.take(0), t) == 0);
        }
    }
    while a < slots.len()
        invariant
            a <= slots@.len(),
            sv == iview(slots@),
            counts@.len() == nslots,
            forall|b: int| 0 <= b < slots@.len() ==> (#[trigger] slots@[b]) < nslots,
            forall|t: int|
                0 <= t < nslots ==> (#[trigger] counts@[t]) as int == min2(
                    count_eq(sv.take(a as int), t),
                ),
        decreases slots@.len() - a,
    {
        let v: usize = slots[a];
        let c: u8 = counts[v];
        proof {
            assert(sv.take(a + 1) =~= sv.take(a as int).push(sv[a as int]));
            assert(sv[a as int] == slots@[a as int] as int);
            assert forall|t: int| 0 <= t < nslots implies min2(count_eq(sv.take(a + 1), t))
                == min2(
                count_eq(sv.take(a as int), t) + if t == slots@[a as int] as int {
                    1int
                } else {
                    0int
                },
            ) by {
                lemma_count_push(sv.take(a as int), sv[a as int], t);
            }
            assert forall|t: int| 0 <= t < nslots implies count_eq(sv.take(a as int), t) >= 0 by {
                lemma_count_nonneg(sv.take(a as int), t);
            }
        }
        if c < 2 {
            counts[v] = c + 1;
        }
        a = a + 1;
    }
    proof {
        assert(sv.take(slots@.len() as int) =~= sv);
    }
    counts
}

/// Whether the candidate level places at least one key.
fn any_placed(slots: &Vec<usize>, counts: &Vec<u8>) -> (r: bool)
    requires
        forall|a: int| 0 <= a < slots@.len() ==> (#[trigger] slots@[a]) < counts@.len(),
    ensures
        r == exists|a: int|
            0 <= a < slots@.len() && counts@[#[trigger] slots@[a] as int] == 1,
{
    let mut a: usize = 0;
    while a < slots.len()
        invariant
            a <= slots@.len(),
            forall|b: int| 0 <= b < slots@.len() ==> (#[trigger] slots@[b]) < counts@.len(),
            forall|b: int| 0 <= b < a ==> counts@[#[trigger] slots@[b] as int] != 1,
        decreases slots@.len() - a,
    {
        if counts[slots[a]] == 1 {
            return true;
        }
        a = a + 1;
    }
    false
}

/// A value `rem[b]` stays in `out` exactly when its slot was not uniquely
/// claimed, for all `b` below `a`.
pub open spec fn kept_iff(
    out: Seq<usize>,
    rem: Seq<usize>,
    slots: Seq<usize>,
    counts: Seq<u8>,
    a: int,
) -> bool {
    forall|b: int|
        0 <= b < a ==> (in_seq(out, #[trigger] rem[b] as int) <==> counts[slots[b] as int] != 1)
}

/// Keep exactly the positions whose slot was not uniquely claimed.
fn partition_rem(rem: &Vec<usize>, slots: &Vec<usize>, counts: &Vec<u8>) -> (out: Vec<usize>)
    requires
        slots@.len() == rem@.len(),
        distinct_seq(rem@),
        forall|a: int| 0 <= a < slots@.len() ==> (#[trigger] slots@[a]) < counts@.len(),
    ensures
        distinct_seq(out@),
        forall|i: int| #[trigger] in_seq(out@, i) ==> in_seq(rem@, i),
        kept_iff(out@, rem@, slots@, counts@, rem@.len() as int),
{
    let mut out: Vec<usize> = Vec::new();
    // Ghost record of where each kept entry came from.
    let ghost mut src: Seq<int> = Seq::empty();
    let mut a: usize = 0;
    while a < rem.len()
        invariant
            a <= rem@.len(),
            slots@.len() == rem@.len(),
            distinct_seq(rem@),
            forall|b: int| 0 <= b < slots@.len() ==> (#[trigger] slots@[b]) < counts@.len(),
            src.len() == out@.len(),
            forall|c: int|
                #![trigger src[c]]
                0 <= c < src.len() ==> 0 <= src[c] < a && out@[c] == rem@[src[c]] && counts@[
                    slots@[src[c]] as int
                ] != 1,
            forall|c: int, d: int| 0 <= c < d < src.len() ==> src[c] < src[d],
            kept_iff(out@, rem@, slots@, counts@, a as int),
        decreases rem@.len() - a,
    {
        let i: usize = rem[a];
        let ghost old_out = out@;
        proof {
            assert forall|c: int| #![trigger old_out[c]] 0 <= c < old_out.len() implies old_out[c]
                != i by {
                assert(old_out[c] == rem@[src[c]]);
                assert(rem@[src[c]] != rem@[a as int]);
            }
            assert(!in_seq(old_out, rem@[a as int] as int));
        }
        if counts[slots[a]] != 1 {
            out.push(i);
            proof {
                src = src.push(a as int);
                assert(out@ == old_out.push(i));
                assert(out@[out@.len() - 1] == rem@[a as int]);
                assert(in_seq(out@, rem@[a as int] as int));
                assert forall|b: int| 0 <= b < a + 1 implies (in_seq(
                    out@,
                    #[trigger] rem@[b] as int,
                ) <==> counts@[slots@[b] as int] != 1) by {
                    if b < a {
                        if in_seq(out@, rem@[b] as int) {
                            let k = choose|k: int|
                                0 <= k < out@.len() && #[trigger] out@[k] as int == rem@[b] as int;
                            if k < old_out.len() {
                                assert(old_out[k] == out@[k]);
                                assert(in_seq(old_out, rem@[b] as int));
                            } else {
                                assert(out@[k] == rem@[a as int]);
                                assert(rem@[b] != rem@[a as int]);
                                assert(in_seq(old_out, rem@[b] as int));
                            }
                        }
                        if counts@[slots@[b] as int] != 1 {
                            assert(in_seq(old_out, rem@[b] as int));
                            let k = choose|k: int|
                                0 <= k < old_out.len() && #[trigger] old_out[k] as int == rem@[
                                    b
                                ] as int;
                            assert(out@[k] as int == rem@[b] as int);
                            assert(in_seq(out@, rem@[b] as int));
                        }
                    }
                }
            }
        } else {
            proof {
                assert forall|b: int| 0 <= b < a + 1 implies (in_seq(
                    out@,
                    #[trigger] rem@[b] as int,
                ) <==> counts@[slots@[b] as int] != 1) by {}
            }
        }
        a = a + 1;
    }
    proof {
        assert forall|c: int, d: int| 0 <= c < d < out@.len() implies out@[c] != out@[d] by {
            assert(out@[c] == rem@[src[c]]);
            assert(out@[d] == rem@[src[d]]);
            assert(src[c] < src[d]);
        }
        assert forall|i: int| #[trigger] in_seq(out@, i) implies in_seq(rem@, i) by {
            let k = choose|k: int| 0 <= k < out@.len() && #[trigger] out@[k] as int == i;
            assert(out@[k] == rem@[src[k]]);
            assert(rem@[src[k]] as int == i);
        }
    }
    out
}

/// Slot of `key` under a candidate group adjustment; only used while
/// searching for good adjustments, so nothing beyond the range is needed.
fn adj_slot(key: &[u8], seed: u64, gsv: u8, nslots: usize) -> (s: usize)
    requires
        nslots >= 1,
    ensures
        s < nslots,
{
    let h: u64 = hash_bytes(key, seed.wrapping_add((gsv as u64).wrapping_mul(SEED_STEP)));
    (h % (nslots as u64)) as usize
}

/// Greedy search for one seed adjustment per group of remaining keys: for
/// each group in turn, the candidate placing the most of its keys on slots
/// not yet claimed by earlier groups is kept.  Any choice is correct - the
/// level is afterwards rebuilt and checked against the chosen seeds - so
/// only the length of the result matters here.
fn choose_group_seeds(
    keys: &Vec<Vec<u8>>,
    rem: &Vec<usize>,
    seed: u64,
    nslots: usize,
    gcount: usize,
) -> (gs: Vec<u8>)
    requires
        gcount >= 1,
        nslots >= 1,
        bounded_seq(rem@, keys@.len() as int),
    ensures
        gs@.len() == gcount,
{
    let rlen: usize = rem.len();
    let mut ga: Vec<usize> = Vec::new();
    let mut a: usize = 0;
    while a < rlen
        invariant
            a <= rlen,
            rlen == rem@.len(),
            bounded_seq(rem@, keys@.len() as int),
            gcount >= 1,
            ga@.len() == a,
            forall|b: int| 0 <= b < a ==> (#[trigger] ga@[b]) < gcount,
        decreases rlen - a,
    {
        let i: usize = rem[a];
        let h: u64 = hash_bytes(keys[i].as_slice(), seed ^ GROUP_SALT);
        ga.push((h % (gcount as u64)) as usize);
        a = a + 1;
    }
    let mut gcnt: Vec<usize> = Vec::new();
    let mut g: usize = 0;
    while g < gcount
        invariant
            g <= gcount,
            gcnt@.len() == g,
            forall|w: int| 0 <= w < g ==> (#[trigger] gcnt@[w]) == 0,
        decreases gcount - g,
    {
        gcnt.push(0);
        g = g + 1;
    }
    a = 0;
    while a < rlen
        invariant
            a <= rlen,
            ga@.len() == rlen,
            gcnt@.len() == gcount,
            forall|b: int| 0 <= b < rlen ==> (#[trigger] ga@[b]) < gcount,
            forall|w: int| 0 <= w < gcount ==> (#[trigger] gcnt@[w]) <= a,
        decreases rlen - a,
    {
        let gg: usize = ga[a];
        let c: usize = gcnt[gg];
        gcnt[gg] = c + 1;
        a = a + 1;
    }
    let mut gstart: Vec<usize> = Vec::new();
    gstart.push(0);
    let mut acc: usize = 0;
    g = 0;
    while g < gcount
        invariant
            g <= gcount,
            gcnt@.len() == gcount,
            gstart@.len() == g + 1,
            acc <= rlen,
            gstart@[g as int] == acc,
            forall|w: int| 0 <= w <= g ==> (#[trigger] gstart@[w]) <= rlen,
            forall|w: int| 0 <= w < g ==> (#[trigger] gstart@[w]) <= gstart@[w + 1],
        decreases gcount - g,
    {
        let c: usize = gcnt[g];
        if c > rlen - acc {
            acc = rlen;
        } else {
            acc = acc + c;
        }
        gstart.push(acc);
        g = g + 1;
    }
    let mut cursor: Vec<usize> = Vec::new();
    g = 0;
    while g < gcount
        invariant
            g <= gcount,
            gstart@.len() == gcount + 1,
            forall|w: int| 0 <= w <= gcount ==> (#[trigger] gstart@[w]) <= rlen,
            cursor@.len() == g,
            forall|w: int| 0 <= w < g ==> (#[trigger] cursor@[w]) <= rlen,
        decreases gcount - g,
    {
        cursor.push(gstart[g]);
        g = g + 1;
    }
    let mut order: Vec<usize> = Vec::new();
    a = 0;
    while a < rlen
        invariant
            a <= rlen,
            order@.len() == a,
            forall|b: int| 0 <= b < a ==> (#[trigger] order@[b]) < rlen,
        decreases rlen - a,
    {
        order.push(a);
        a = a + 1;
    }
    a = 0;
    while a < rlen
        invariant
            a <= rlen,
            rlen >= 1 ==> rlen == order@.len(),
            order@.len() == rlen,
            ga@.len() == rlen,
            cursor@.len() == gcount,
            forall|b: int| 0 <= b < rlen ==> (#[trigger] ga@[b]) < gcount,
            forall|b: int| 0 <= b < rlen ==> (#[trigger] order@[b]) < rlen,
            forall|w: int| 0 <= w < gcount ==> (#[trigger] cursor@[w]) <= rlen,
        decreases rlen - a,
    {
        let gg: usize = ga[a];
        let cu: usize = cursor[gg];
        if cu < rlen {
            order[cu] = a;
            cursor[gg] = cu + 1;
        }
        a = a + 1;
    }
    let mut committed: Vec<u8> = Vec::new();
    let mut s: usize = 0;
    while s < nslots
        invariant
            s <= nslots,
            committed@.len() == s,
        decreases nslots - s,
    {
        committed.push(0);
        s = s + 1;
    }
    let mut gs: Vec<u8> = Vec::new();
    g = 0;
    while g < gcount
        invariant
            g <= gcount,
            gs@.len() == g,
            nslots >= 1,
            rlen == rem@.len(),
            bounded_seq(rem@, keys@.len() as int),
            committed@.len() == nslots,
            gstart@.len() == gcount + 1,
            order@.len() == rlen,
            forall|w: int| 0 <= w <= gcount ==> (#[trigger] gstart@[w]) <= rlen,
            forall|w: int| 0 <= w < gcount ==> (#[trigger] gstart@[w]) <= gstart@[w + 1],
            forall|b: int| 0 <= b < rlen ==> (#[trigger] order@[b]) < rlen,
        decreases gcount - g,
    {
        let lo: usize = gstart[g];
        let hi: usize = gstart[g + 1];
        let mut best: u8 = 0;
        let mut best_score: usize = 0;
        let mut cand: u8 = 0;
        while cand < 16
            invariant
                cand <= 16,
                nslots >= 1,
                rlen == rem@.len(),
                bounded_seq(rem@, keys@.len() as int),
                committed@.len() == nslots,
                order@.len() == rlen,
                forall|b: int| 0 <= b < rlen ==> (#[trigger] order@[b]) < rlen,
                lo <= hi <= rlen,
            decreases 16 - cand,
        {
            let mut score: usize = 0;
            let mut idx: usize = lo;
            while idx < hi
                invariant
                    lo <= idx <= hi <= rlen,
                    nslots >= 1,
                    rlen == rem@.len(),
                    bounded_seq(rem@, keys@.len() as int),
                    committed@.len() == nslots,
                    order@.len() == rlen,
                    forall|b: int| 0 <= b < rlen ==> (#[trigger] order@[b]) < rlen,
                    score <= idx,
                decreases hi - idx,
            {
                let aa: usize = order[idx];
                let i: usize = rem[aa];
                let sl: usize = adj_slot(keys[i].as_slice(), seed, cand, nslots);
                if committed[sl] == 0 {
                    score = score + 1;
                }
                idx = idx + 1;
            }
            if cand == 0 || score > best_score {
                best = cand;
                best_score = score;
            }
            cand = cand + 1;
        }
        gs.push(best);
        let mut idx: usize = lo;
        while idx < hi
            invariant
                lo <= idx <= hi <= rlen,
                nslots >= 1,
                rlen == rem@.len(),
                bounded_seq(rem@, keys@.len() as int),
                committed@.len() == nslots,
                order@.len() == rlen,
                forall|b: int| 0 <= b < rlen ==> (#[trigger] order@[b]) < rlen,
            decreases hi - idx,
        {
            let aa: usize = order[idx];
            let i: usize = rem[aa];
            let sl: usize = adj_slot(keys[i].as_slice(), seed, best, nslots);
            let c: u8 = committed[sl];
            if c < 2 {
                committed[sl] = c + 1;
            }
            idx = idx + 1;
        }
        g = g + 1;
    }
    gs
}

/// Check that the structure maps its keys bijectively onto `[0, n)`:
/// every key finds a level, lands inside the range, and no index repeats.
/// A `true` answer establishes the full correctness statement.
fn validate(f: &FmphFunction, keys: &Vec<Vec<u8>>) -> (r: bool)
    requires
        f.swf(),
        f.keys@ == kview(keys@),
        f.n as int == keys@.len(),
    ensures
        r ==> f.wf(),
{
    let ghost kv = kview(keys@);
    let n: usize = keys.len();
    let mut seen: Vec<bool> = Vec::new();
    let mut t: usize = 0;
    while t < n
        invariant
            t <= n,
            seen@.len() == t,
            forall|q: int| 0 <= q < t ==> !(#[trigger] seen@[q]),
        decreases n - t,
    {
        seen.push(false);
        t = t + 1;
    }
    let mut i: usize = 0;
    while i < n
        invariant
            i <= n,
            n == keys@.len(),
            kv == kview(keys@),
            f.swf(),
            f.keys@ == kv,
            seen@.len() == n,
            forall|i2: int|
                0 <= i2 < i ==> (#[trigger] first_hit(f.levels@, kv[i2])).is_some(),
            forall|i2: int|
                0 <= i2 < i ==> 0 <= #[trigger] spec_index(f.levels@, kv[i2]) < n,
            forall|i2: int| 0 <= i2 < i ==> seen@[#[trigger] spec_index(f.levels@, kv[i2])],
            forall|i1: int, i2: int|
                0 <= i1 < i2 < i ==> #[trigger] spec_index(f.levels@, kv[i1])
                    != #[trigger] spec_index(f.levels@, kv[i2]),
        decreases n - i,
    {
        proof {
            assert(kv[i as int] == keys@[i as int]@);
        }
        match f.query_any(keys[i].as_slice()) {
            Option::Some(v) => {
                if v >= n as u64 {
                    return false;
                }
                let vu: usize = v as usize;
                if seen[vu] {
                    return false;
                }
                let ghost old_seen = seen@;
                seen[vu] = true;
                proof {
                    assert(seen@ == old_seen.update(vu as int, true));
                    assert forall|i1: int, i2: int| 0 <= i1 < i2 < i + 1 implies #[trigger] spec_index(
                        f.levels@,
                        kv[i1],
                    ) != #[trigger] spec_index(f.levels@, kv[i2]) by {
                        if i2 == i {
                            assert(old_seen[spec_index(f.levels@, kv[i1])]);
                            assert(!old_seen[vu as int]);
                        }
                    }
                }
            },
            Option::None => {
                return false;
            },
        }
        i = i + 1;
    }
    proof {
        let fx = |i2: int| spec_index(f.levels@, kv[i2]);
        assert forall|i2: int| 0 <= i2 < n implies 0 <= #[trigger] fx(i2) < n by {
            assert(0 <= spec_index(f.levels@, kv[i2]) < n);
        }
        assert forall|i1: int, i2: int| 0 <= i1 < i2 < n implies #[trigger] fx(i1)
            != #[trigger] fx(i2) by {
            assert(spec_index(f.levels@, kv[i1]) != spec_index(f.levels@, kv[i2]));
        }
        lemma_inj_onto(fx, n as int);
        assert forall|r2: int| 0 <= r2 < f.keys@.len() implies #[trigger] hit_by(
            index_fn(*f),
            f.keys@.len() as int,
            r2,
        ) by {
            assert(hit_by(fx, n as int, r2));
            let w = choose|w: int| 0 <= w < n && #[trigger] fx(w) == r2;
            assert(index_fn(*f)(w) == fx(w));
            assert(hit_by(index_fn(*f), f.keys@.len() as int, r2));
        }
    }
    true
}

/// Build a fingerprint function over `keys`.  `gamma` is the fill factor
/// in percent: each level allocates `100 / gamma` slots per remaining key,
/// so a smaller `gamma` means fewer, larger levels.  `ordered` selects the
/// group-optimized variant.  On success the result is a minimal perfect
/// hash function for `keys`, checked slot by slot before it is returned.
pub fn build_fmph_with(
    keys: &Vec<Vec<u8>>,
    gamma: u16,
    seed0: u64,
    ordered: bool,
) -> (r: Result<FmphFunction, MphfError>)
    requires
        1 <= gamma <= 100,
        keys@.len() < 0x0100_0000,
    ensures
        match r {
            Result::Ok(f) => f.wf() && f.keys@ == kview(keys@) && f.n as int == keys@.len(),
            Result::Err(e) => e == MphfError::ConstructionExhausted,
        },
        keys@.len() <= 1 ==> r.is_ok(),
{
    let ghost kv = kview(keys@);
    let n: usize = keys.len();
    if n == 0 {
        let ff = FmphFunction { levels: Vec::new(), n: 0, total: 0, keys: Ghost(kv) };
        proof {
            assert(kv.len() == 0);
            assert(ff.wf());
        }
        return Result::Ok(ff);
    }
    if n == 1 {
        // a single key always occupies the only slot of a one-slot level
        let mut counts: Vec<u8> = Vec::new();
        counts.push(1);
        let bits = BitRank::from_counts(&counts);
        let mut gseeds: Vec<u8> = Vec::new();
        gseeds.push(0);
        let lv = Level { seed: seed0, group_seeds: gseeds, bits };
        let mut levels: Vec<Level> = Vec::new();
        proof {
            assert(lv.wf());
        }
        levels.push(lv);
        let ff = FmphFunction { levels, n: 1, total: 1, keys: Ghost(kv) };
        proof {
            assert(kv.len() == 1);
            assert(ff.levels@[0] == lv);
            assert(lv.bits@[0]);
            assert(rank(lv.bits@, 0) == 0);
            assert(rank(lv.bits@, 1) == rank(lv.bits@, 0) + 1);
            assert(offset_of(ff.levels@, 1) == offset_of(ff.levels@, 0) + ff.levels@[0].ones());
            assert(ff.swf());
            assert(lv.slot(kv[0]) == 0);
            assert(lv.hits(kv[0]));
            assert(first_hit(ff.levels@, kv[0]) == Option::Some(0int));
            assert(rank(lv.bits@, 0) == 0);
            assert(spec_index(ff.levels@, kv[0]) == 0);
            assert forall|r2: int| 0 <= r2 < 1 implies #[trigger] hit_by(
                index_fn(ff),
                1int,
                r2,
            ) by {
                assert(index_fn(ff)(0int) == spec_index(ff.levels@, ff.keys@[0]));
                assert(index_fn(ff)(0int) == 0);
                assert(hit_by(index_fn(ff), 1int, r2));
            }
            assert(ff.wf());
        }
        return Result::Ok(ff);
    }
    let mut rem: Vec<usize> = Vec::new();
    let mut i: usize = 0;
    while i < n
        invariant
            i <= n,
            rem@.len() == i,
            forall|a: int| 0 <= a < i ==> (#[trigger] rem@[a]) == a,
        decreases n - i,
    {
        rem.push(i);
        i = i + 1;
    }
    let mut levels: Vec<Level> = Vec::new();
    let mut total: u64 = 0;
    let mut tries: usize = 0;
    while rem.len() > 0 && tries < LEVEL_TRIES
        invariant
            n == keys@.len(),
            n < 0x0100_0000,
            1 <= gamma <= 100,
            forall|l: int| 0 <= l < levels@.len() ==> (#[trigger] levels@[l]).wf(),
            total as int == offset_of(levels@, levels@.len() as int),
            total as int <= tries * 0x8000_0000,
            tries <= LEVEL_TRIES,
            levels@.len() <= tries,
            forall|l: int|
                0 <= l < levels@.len() ==> (#[trigger] levels@[l]).bits@.len() < 0x8000_0000
                    && levels@[l].group_seeds@.len() < 0x0100_0000,
            distinct_seq(rem@),
            bounded_seq(rem@, n as int),
        decreases LEVEL_TRIES - tries,
    {
        tries = tries + 1;
        let seed: u64 = mix(seed0, tries as u64);
        let rlen: usize = rem.len();
        proof {
            let fr = |a: int| rem@[a] as int;
            assert forall|a: int| 0 <= a < rlen implies 0 <= #[trigger] fr(a) < n by {
                assert(rem@[a] < n);
            }
            assert forall|a: int, b: int| 0 <= a < b < rlen implies #[trigger] fr(a)
                != #[trigger] fr(b) by {
                assert(rem@[a] != rem@[b]);
            }
            lemma_inj_le(fr, rlen as int, n as int);
        }
        let nslots_u64: u64 = (rlen as u64) * 100 / (gamma as u64) + 1;
        proof {
            assert(nslots_u64 <= (rlen as u64) * 100 + 1);
        }
        let nslots: usize = nslots_u64 as usize;
        let gcount: usize = if ordered {
            rlen / 32 + 1
        } else {
            1
        };
        let mut gseeds: Vec<u8>;
        if ordered {
            gseeds = choose_group_seeds(keys, &rem, seed, nslots, gcount);
        } else {
            gseeds = Vec::new();
            gseeds.push(0);
        }
        let slots = compute_slots(keys, &rem, seed, &gseeds, nslots);
        let counts = count_slots(&slots, nslots);
        if any_placed(&slots, &counts) {
            let bits = BitRank::from_counts(&counts);
            let t1: u64 = bits.ones();
            proof {
                lemma_rank_bounds(bits@, bits.len());
                assert(t1 as int <= nslots as int);
                assert(nslots < 0x8000_0000);
                assert(gseeds@.len() < 0x0100_0000);
            }
            let total2: u64 = total + t1;
            let lv = Level { seed, group_seeds: gseeds, bits };
            let ghost big_l = levels@;
            let new_rem = partition_rem(&rem, &slots, &counts);
            proof {
                lemma_offset_push(big_l, lv, big_l.len() as int);
                assert(big_l.push(lv)[big_l.len() as int] == lv);
                assert forall|l: int| 0 <= l < big_l.len() implies #[trigger] big_l.push(lv)[l]
                    == big_l[l] by {}
                assert forall|j: int| #[trigger] in_seq(new_rem@, j) implies j < n by {
                    assert(in_seq(rem@, j));
                    let a = choose|a: int|
                        0 <= a < rem@.len() && #[trigger] rem@[a] as int == j;
                    assert(rem@[a] < n);
                }
                assert forall|a: int| 0 <= a < new_rem@.len() implies (#[trigger] new_rem@[a])
                    < n by {
                    assert(in_seq(new_rem@, new_rem@[a] as int));
                }
            }
            rem = new_rem;
            levels.push(lv);
            total = total2;
        }
    }
    if rem.len() == 0 {
        let ff = FmphFunction { levels, n: n as u64, total, keys: Ghost(kv) };
        if validate(&ff, keys) {
            return Result::Ok(ff);
        }
        return Result::Err(MphfError::ConstructionExhausted);
    }
    Result::Err(MphfError::ConstructionExhausted)
}

} // verus!
