//! The bucket-and-pilot displacement hash family.
//!
//! Every key is assigned to a bucket; buckets are processed largest first,
//! and each searches for the smallest pilot value under which all its keys
//! land on free, pairwise distinct slots of a slightly oversized working
//! range.  A remap table folds the claimed slots at or above `n` back onto
//! the free slots below `n`, making the function minimal.  Both variants
//! spread keys uniformly over the buckets; the dense encoding stores
//! pilots and remap entries at full width, while the compact encoding
//! stores them in narrow cells.  Before a structure is returned, every key
//! is queried once and the answers are checked to be a permutation of
//! `[0, n)`; a failed check counts as an exhausted attempt.

use vstd::prelude::*;

use crate::cardinality::hit_by;
use crate::cardinality::lemma_inj_onto;
use crate::errors::MphfError;
use crate::fmph::kview;
use crate::hashing::spec_hash;
use crate::hashing::spec_mix;
use crate::hashing::hash_bytes;
use crate::hashing::mix;

verus! {

/// Global seeds tried before construction gives up.
pub const RESTARTS: u64 = 8;

/// Largest pilot value tried for one bucket.
pub const PILOT_LIMIT: u64 = 255;

/// Bucket of a key hash: keys are spread uniformly over the `m` buckets,
/// so that the greedy pilot search stays feasible for every bucket size.
pub open spec fn spec_bucket(h: u64, m: u64) -> int
    recommends
        m >= 1,
{
    (h as int) % (m as int)
}

pub fn bucket_exec(h: u64, m: u64) -> (b: u64)
    requires
        m >= 1,
    ensures
        b as int == spec_bucket(h, m),
        b < m,
{
    h % m
}

/// Slot of a key hash under a pilot, within the working range.
pub open spec fn spec_slot(h: u64, p: u64, s: u64) -> int
    recommends
        s >= 1,
{
    (spec_mix(h, p) as int) % (s as int)
}

pub fn slot_exec(h: u64, p: u64, s: u64) -> (r: u64)
    requires
        s >= 1,
    ensures
        r as int == spec_slot(h, p, s),
        r < s,
{
    mix(h, p) % s
}

/// A built bucket-and-pilot function.  `keys` records, in ghost state, the
/// key set it was built from.
pub struct PtrHashFn {
    pub compact: bool,
    pub seed: u64,
    pub n: u64,
    pub nslots: u64,
    pub nbuckets: u64,
    pub pilots_wide: Vec<u64>,
    pub pilots_narrow: Vec<u8>,
    pub remap_wide: Vec<u64>,
    pub remap_narrow: Vec<u32>,
    pub keys: Ghost<Seq<Seq<u8>>>,
}

/// The pilot of bucket `b` under the selected encoding.
pub open spec fn pilot_of(f: PtrHashFn, b: int) -> u64 {
    if f.compact {
        f.pilots_narrow@[b] as u64
    } else {
        f.pilots_wide@[b]
    }
}

/// The remap entry for working slot `n + k` under the selected encoding.
pub open spec fn remap_of(f: PtrHashFn, k: int) -> int {
    if f.compact {
        f.remap_narrow@[k] as int
    } else {
        f.remap_wide@[k] as int
    }
}

/// The index the query algorithm computes for `key`.
pub open spec fn spec_ptr_index(f: PtrHashFn, key: Seq<u8>) -> int {
    let h = spec_hash(key, f.seed);
    let b = spec_bucket(h, f.nbuckets);
    let sl = spec_slot(h, pilot_of(f, b), f.nslots);
    if sl < f.n as int {
        sl
    } else {
        remap_of(f, sl - f.n as int)
    }
}

/// Resident bytes of a built structure: its pilot table and remap table
/// under the selected encoding, plus a fixed overhead for the parameters.
pub open spec fn spec_ptr_size(f: PtrHashFn) -> int {
    (if f.compact {
        f.pilots_narrow@.len() as int
    } else {
        8 * f.pilots_wide@.len() as int
    }) + (if f.compact {
        4 * f.remap_narrow@.len() as int
    } else {
        8 * f.remap_wide@.len() as int
    }) + 40
}

/// The map from key positions to indices that `wf` constrains.
pub open spec fn ptr_index_fn(f: PtrHashFn) -> spec_fn(int) -> int {
    |i: int| spec_ptr_index(f, f.keys@[i])
}

impl PtrHashFn {
    pub open spec fn contains_key(&self, key: Seq<u8>) -> bool {
        exists|i: int| 0 <= i < self.keys@.len() && self.keys@[i] == key
    }

    /// Structural soundness: table lengths agree with the parameters and
    /// every remap entry points below `n`.
    pub open spec fn swf(&self) -> bool {
        &&& self.n as int == self.keys@.len()
        &&& self.n < 0x0100_0000
        &&& self.n == 0 ==> self.pilots_wide@.len() == 0 && self.pilots_narrow@.len() == 0
            && self.remap_wide@.len() == 0 && self.remap_narrow@.len() == 0
        &&& self.n >= 1 ==> {
            &&& self.nbuckets >= 1
            &&& self.nbuckets <= self.n
            &&& self.nslots <= 2 * self.n
            &&& self.nbuckets <= usize::MAX
            &&& self.nslots <= usize::MAX
            &&& self.n <= self.nslots
            &&& (if self.compact {
                self.pilots_narrow@.len()
            } else {
                self.pilots_wide@.len()
            }) == self.nbuckets
            &&& (if self.compact {
                self.remap_narrow@.len()
            } else {
                self.remap_wide@.len()
            }) == self.nslots - self.n
            &&& forall|k: int|
                0 <= k < self.nslots - self.n ==> 0 <= #[trigger] remap_of(*self, k)
                    < self.n as int
        }
    }

    /// The structure is a minimal perfect hash function for `keys`.
    pub open spec fn wf(&self) -> bool {
        &&& self.swf()
        &&& forall|i: int|
            0 <= i < self.keys@.len() ==> 0 <= #[trigger] spec_ptr_index(*self, self.keys@[i])
                < self.keys@.len()
        &&& forall|i: int, j: int|
            0 <= i < j < self.keys@.len() ==> #[trigger] spec_ptr_index(*self, self.keys@[i])
                != #[trigger] spec_ptr_index(*self, self.keys@[j])
        &&& forall|r: int|
            0 <= r < self.keys@.len() ==> #[trigger] hit_by(
                ptr_index_fn(*self),
                self.keys@.len() as int,
                r,
            )
    }

    /// The raw query walk; total for any key once the structure is sound.
    #[verifier::rlimit(100)]
    #[verifier::spinoff_prover]
    pub fn query_raw(&self, key: &[u8]) -> (r: u64)
        requires
            self.swf(),
            self.n >= 1,
        ensures
            r as int == spec_ptr_index(*self, key@),
            r < self.nslots,
    {
        let h: u64 = hash_bytes(key, self.seed);
        let b: u64 = bucket_exec(h, self.nbuckets);
        let p: u64 = if self.compact {
            self.pilots_narrow[b as usize] as u64
        } else {
            self.pilots_wide[b as usize]
        };
        proof {
            assert(p == pilot_of(*self, b as int));
        }
        let sl: u64 = slot_exec(h, p, self.nslots);
        proof {
            assert(sl as int == spec_slot(h, pilot_of(*self, b as int), self.nslots));
        }
        if sl < self.n {
            proof {
                assert(sl as int == spec_ptr_index(*self, key@));
            }
            sl
        } else {
            let k: usize = (sl - self.n) as usize;
            proof {
                assert(0 <= k < self.nslots - self.n);
                assert(remap_of(*self, k as int) == spec_ptr_index(*self, key@));
            }
            if self.compact {
                self.remap_narrow[k] as u64
            } else {
                self.remap_wide[k]
            }
        }
    }

    /// The index of a key of the set the function was built from.
    pub fn query(&self, key: &[u8]) -> (r: u64)
        requires
            self.wf(),
            self.contains_key(key@),
        ensures
            r as int == spec_ptr_index(*self, key@),
            r < self.n,
    {
        let ghost ki = choose|i: int| 0 <= i < self.keys@.len() && self.keys@[i] == key@;
        proof {
            assert(0 <= spec_ptr_index(*self, self.keys@[ki]) < self.keys@.len());
        }
        self.query_raw(key)
    }

    /// Resident bytes of the built structure.
    pub fn size_bytes(&self) -> (r: u64)
        requires
            self.swf(),
        ensures
            r as int == spec_ptr_size(*self),
    {
        let pilots: u64 = if self.compact {
            self.pilots_narrow.len() as u64
        } else {
            proof {
                assert(self.pilots_wide@.len() < 0x0100_0000);
            }
            8 * (self.pilots_wide.len() as u64)
        };
        let remap: u64 = if self.compact {
            proof {
                assert(self.remap_narrow@.len() < 0x0200_0000);
            }
            4 * (self.remap_narrow.len() as u64)
        } else {
            proof {
                assert(self.remap_wide@.len() < 0x0200_0000);
            }
            8 * (self.remap_wide.len() as u64)
        };
        pilots + remap + 40
    }
}

/// Check that the structure maps its keys bijectively onto `[0, n)`.
/// A `true` answer establishes the full correctness statement.
fn validate_ptr(f: &PtrHashFn, keys: &Vec<Vec<u8>>) -> (r: bool)
    requires
        f.swf(),
        f.keys@ == kview(keys@),
        f.n >= 1,
    ensures
        r ==> f.wf(),
{
    let ghost kv = kview(keys@);
    let n: usize = keys.len();
    proof {
        assert(kv.len() == keys@.len());
    }
    let mut seen: Vec<bool> = Vec::new();
    let mut t: usize = 0;
    while t < n
        invariant
            t <= n,
            seen@.len() == t,
            forall|q: int| 0 <= q < t ==> !(#[trigger] seen@[q]),
        decreases n - t,
    {
        seen.push(false);
        t = t + 1;
    }
    let mut i: usize = 0;
    while i < n
        invariant
            i <= n,
            n == keys@.len(),
            kv == kview(keys@),
            f.swf(),
            f.n >= 1,
            f.keys@ == kv,
            seen@.len() == n,
            forall|i2: int|
                0 <= i2 < i ==> 0 <= #[trigger] spec_ptr_index(*f, kv[i2]) < n,
            forall|i2: int| 0 <= i2 < i ==> seen@[#[trigger] spec_ptr_index(*f, kv[i2])],
            forall|i1: int, i2: int|
                0 <= i1 < i2 < i ==> #[trigger] spec_ptr_index(*f, kv[i1])
                    != #[trigger] spec_ptr_index(*f, kv[i2]),
        decreases n - i,
    {
        proof {
            assert(kv[i as int] == keys@[i as int]@);
        }
        let v: u64 = f.query_raw(keys[i].as_slice());
        if v >= n as u64 {
            return false;
        }
        let vu: usize = v as usize;
        if seen[vu] {
            return false;
        }
        let ghost old_seen = seen@;
        seen[vu] = true;
        proof {
            assert(seen@ == old_seen.update(vu as int, true));
            assert forall|i1: int, i2: int| 0 <= i1 < i2 < i + 1 implies #[trigger] spec_ptr_index(
                *f,
                kv[i1],
            ) != #[trigger] spec_ptr_index(*f, kv[i2]) by {
                if i2 == i {
                    assert(old_seen[spec_ptr_index(*f, kv[i1])]);
                    assert(!old_seen[vu as int]);
                }
            }
        }
        i = i + 1;
    }
    proof {
        let fx = |i2: int| spec_ptr_index(*f, kv[i2]);
        assert forall|i2: int| 0 <= i2 < n implies 0 <= #[trigger] fx(i2) < n by {
            assert(0 <= spec_ptr_index(*f, kv[i2]) < n);
        }
        assert forall|i1: int, i2: int| 0 <= i1 < i2 < n implies #[trigger] fx(i1)
            != #[trigger] fx(i2) by {
            assert(spec_ptr_index(*f, kv[i1]) != spec_ptr_index(*f, kv[i2]));
        }
        lemma_inj_onto(fx, n as int);
        assert forall|r2: int| 0 <= r2 < f.keys@.len() implies #[trigger] hit_by(
            ptr_index_fn(*f),
            f.keys@.len() as int,
            r2,
        ) by {
            assert(hit_by(fx, n as int, r2));
            let w = choose|w: int| 0 <= w < n && #[trigger] fx(w) == r2;
            assert(ptr_index_fn(*f)(w) == fx(w));
            assert(hit_by(ptr_index_fn(*f), f.keys@.len() as int, r2));
        }
    }
    true
}

/// One construction attempt with a fixed global seed; pilots are searched
/// per bucket, largest buckets first.  The result is validated key by key
/// before it is handed back.
fn try_build(keys: &Vec<Vec<u8>>, compact: bool, seed: u64) -> (r: Option<PtrHashFn>)
    requires
        2 <= keys@.len() < 0x0100_0000,
    ensures
        match r {
            Option::Some(f) => f.wf() && f.keys@ == kview(keys@) && f.compact == compact
                && f.n as int == keys@.len(),
            Option::None => true,
        },
{
    let n: usize = keys.len();
    let lam: usize = 3;
    let m: usize = n / lam + 1;
    let slack: usize = n / 4 + 2;
    let s: usize = if n == 1 {
        1
    } else {
        n + slack
    };
    // hash and bucket of every key
    let mut hs: Vec<u64> = Vec::new();
    let mut bs: Vec<usize> = Vec::new();
    let mut i: usize = 0;
    while i < n
        invariant
            i <= n,
            n == keys@.len(),
            m >= 1,
            m < 0x0100_0000,
            hs@.len() == i,
            bs@.len() == i,
            forall|k: int| 0 <= k < i ==> (#[trigger] hs@[k]) == spec_hash(kview(keys@)[k], seed),
            forall|k: int| 0 <= k < i ==> (#[trigger] bs@[k]) < m,
        decreases n - i,
    {
        let h: u64 = hash_bytes(keys[i].as_slice(), seed);
        let b: u64 = bucket_exec(h, m as u64);
        proof {
            assert(kview(keys@)[i as int] == keys@[i as int]@);
        }
        hs.push(h);
        bs.push(b as usize);
        i = i + 1;
    }
    // bucket sizes and grouped member order; the later validation pass
    // rechecks everything, so only index bounds matter here
    let mut sizes: Vec<usize> = Vec::new();
    let mut g: usize = 0;
    while g < m
        invariant
            g <= m,
            sizes@.len() == g,
            forall|w: int| 0 <= w < g ==> (#[trigger] sizes@[w]) == 0,
        decreases m - g,
    {
        sizes.push(0);
        g = g + 1;
    }
    i = 0;
    while i < n
        invariant
            i <= n,
            bs@.len() == n,
            sizes@.len() == m,
            forall|k: int| 0 <= k < n ==> (#[trigger] bs@[k]) < m,
            forall|w: int| 0 <= w < m ==> (#[trigger] sizes@[w]) <= i,
        decreases n - i,
    {
        let b: usize = bs[i];
        let c: usize = sizes[b];
        sizes[b] = c + 1;
        i = i + 1;
    }
    let mut gstart: Vec<usize> = Vec::new();
    gstart.push(0);
    let mut acc: usize = 0;
    g = 0;
    while g < m
        invariant
            g <= m,
            sizes@.len() == m,
            gstart@.len() == g + 1,
            acc <= n,
            gstart@[g as int] == acc,
            forall|w: int| 0 <= w <= g ==> (#[trigger] gstart@[w]) <= n,
            forall|w: int| 0 <= w < g ==> (#[trigger] gstart@[w]) <= gstart@[w + 1],
        decreases m - g,
    {
        let c: usize = sizes[g];
        if c > n - acc {
            acc = n;
        } else {
            acc = acc + c;
        }
        gstart.push(acc);
        g = g + 1;
    }
    let mut cursor: Vec<usize> = Vec::new();
    g = 0;
    while g < m
        invariant
            g <= m,
            gstart@.len() == m + 1,
            forall|w: int| 0 <= w <= m ==> (#[trigger] gstart@[w]) <= n,
            cursor@.len() == g,
            forall|w: int| 0 <= w < g ==> (#[trigger] cursor@[w]) <= n,
        decreases m - g,
    {
        cursor.push(gstart[g]);
        g = g + 1;
    }
    let mut order: Vec<usize> = Vec::new();
    i = 0;
    while i < n
        invariant
            i <= n,
            order@.len() == i,
            forall|k: int| 0 <= k < i ==> (#[trigger] order@[k]) < n,
        decreases n - i,
    {
        order.push(i);
        i = i + 1;
    }
    i = 0;
    while i < n
        invariant
            i <= n,
            bs@.len() == n,
            order@.len() == n,
            cursor@.len() == m,
            forall|k: int| 0 <= k < n ==> (#[trigger] bs@[k]) < m,
            forall|k: int| 0 <= k < n ==> (#[trigger] order@[k]) < n,
            forall|w: int| 0 <= w < m ==> (#[trigger] cursor@[w]) <= n,
        decreases n - i,
    {
        let b: usize = bs[i];
        let cu: usize = cursor[b];
        if cu < n {
            order[cu] = i;
            cursor[b] = cu + 1;
        }
        i = i + 1;
    }
    // pilot search, largest buckets first
    let mut maxsz: usize = 0;
    g = 0;
    while g < m
        invariant
            g <= m,
            sizes@.len() == m,
            maxsz <= n,
            forall|w: int| 0 <= w < m ==> (#[trigger] sizes@[w]) <= n,
        decreases m - g,
    {
        let c: usize = sizes[g];
        if c > maxsz {
            maxsz = c;
        }
        g = g + 1;
    }
    let mut taken: Vec<bool> = Vec::new();
    let mut t: usize = 0;
    while t < s
        invariant
            t <= s,
            taken@.len() == t,
        decreases s - t,
    {
        taken.push(false);
        t = t + 1;
    }
    let mut pilots: Vec<u64> = Vec::new();
    g = 0;
    while g < m
        invariant
            g <= m,
            pilots@.len() == g,
            forall|w: int| 0 <= w < g ==> (#[trigger] pilots@[w]) <= PILOT_LIMIT,
        decreases m - g,
    {
        pilots.push(0);
        g = g + 1;
    }
    let mut sz: usize = maxsz;
    while sz >= 1
        invariant
            sz <= maxsz <= n,
            s >= 1,
            n == keys@.len(),
            hs@.len() == n,
            sizes@.len() == m,
            gstart@.len() == m + 1,
            order@.len() == n,
            taken@.len() == s,
            pilots@.len() == m,
            forall|w: int| 0 <= w <= m ==> (#[trigger] gstart@[w]) <= n,
            forall|w: int| 0 <= w < m ==> (#[trigger] gstart@[w]) <= gstart@[w + 1],
            forall|k: int| 0 <= k < n ==> (#[trigger] order@[k]) < n,
            forall|w: int| 0 <= w < m ==> (#[trigger] pilots@[w]) <= PILOT_LIMIT,
        decreases sz,
    {
        let mut b: usize = 0;
        while b < m
            invariant
                b <= m,
                s >= 1,
                n == keys@.len(),
                hs@.len() == n,
                sizes@.len() == m,
                gstart@.len() == m + 1,
                order@.len() == n,
                taken@.len() == s,
                pilots@.len() == m,
                forall|w: int| 0 <= w <= m ==> (#[trigger] gstart@[w]) <= n,
                forall|w: int| 0 <= w < m ==> (#[trigger] gstart@[w]) <= gstart@[w + 1],
                forall|k: int| 0 <= k < n ==> (#[trigger] order@[k]) < n,
                forall|w: int| 0 <= w < m ==> (#[trigger] pilots@[w]) <= PILOT_LIMIT,
            decreases m - b,
        {
            if sizes[b] == sz {
                let lo: usize = gstart[b];
                let hi: usize = gstart[b + 1];
                let mut found: bool = false;
                let mut p: u64 = 0;
                while p <= PILOT_LIMIT && !found
                    invariant
                        p <= PILOT_LIMIT + 1,
                        s >= 1,
                        b < m,
                        lo <= hi <= n,
                        hs@.len() == n,
                        order@.len() == n,
                        taken@.len() == s,
                        pilots@.len() == m,
                        forall|w: int| 0 <= w < m ==> (#[trigger] pilots@[w]) <= PILOT_LIMIT,
                        forall|k: int| 0 <= k < n ==> (#[trigger] order@[k]) < n,
                    decreases PILOT_LIMIT + 2 - p - (if found { 1int } else { 0int }),
                {
                    // slots of this bucket's keys under pilot p
                    let mut msl: Vec<usize> = Vec::new();
                    let mut idx: usize = lo;
                    while idx < hi
                        invariant
                            lo <= idx <= hi <= n,
                            s >= 1,
                            hs@.len() == n,
                            order@.len() == n,
                            forall|k: int| 0 <= k < n ==> (#[trigger] order@[k]) < n,
                            forall|k: int| 0 <= k < msl@.len() ==> (#[trigger] msl@[k]) < s,
                        decreases hi - idx,
                    {
                        let key_i: usize = order[idx];
                        let sl: u64 = slot_exec(hs[key_i], p, s as u64);
                        msl.push(sl as usize);
                        idx = idx + 1;
                    }
                    let mut ok: bool = true;
                    let mut c1: usize = 0;
                    while c1 < msl.len() && ok
                        invariant
                            c1 <= msl@.len(),
                            taken@.len() == s,
                            forall|k: int| 0 <= k < msl@.len() ==> (#[trigger] msl@[k]) < s,
                        decreases msl@.len() - c1,
                    {
                        if taken[msl[c1]] {
                            ok = false;
                        } else {
                            let mut c2: usize = c1 + 1;
                            while c2 < msl.len() && ok
                                invariant
                                    c1 < msl@.len(),
                                    c2 <= msl@.len(),
                                    forall|k: int|
                                        0 <= k < msl@.len() ==> (#[trigger] msl@[k]) < s,
                                decreases msl@.len() - c2,
                            {
                                if msl[c2] == msl[c1] {
                                    ok = false;
                                }
                                c2 = c2 + 1;
                            }
                        }
                        c1 = c1 + 1;
                    }
                    if ok {
                        let mut c3: usize = 0;
                        while c3 < msl.len()
                            invariant
                                c3 <= msl@.len(),
                                taken@.len() == s,
                                forall|k: int| 0 <= k < msl@.len() ==> (#[trigger] msl@[k]) < s,
                            decreases msl@.len() - c3,
                        {
                            taken[msl[c3]] = true;
                            c3 = c3 + 1;
                        }
                        pilots[b] = p;
                        found = true;
                    } else {
                        p = p + 1;
                    }
                }
                if !found {
                    return Option::None;
                }
            }
            b = b + 1;
        }
        sz = sz - 1;
    }
    // remap the claimed high slots onto the free low ones
    let mut free: Vec<usize> = Vec::new();
    let mut sl: usize = 0;
    while sl < n
        invariant
            sl <= n,
            n <= s || n == 1,
            n <= taken@.len(),
            taken@.len() == s,
            forall|k: int| 0 <= k < free@.len() ==> (#[trigger] free@[k]) < n,
        decreases n - sl,
    {
        if sl < s {
            if !taken[sl] {
                free.push(sl);
            }
        }
        sl = sl + 1;
    }
    let mut remap: Vec<u64> = Vec::new();
    let mut j: usize = 0;
    sl = n;
    while sl < s
        invariant
            n <= sl <= s || (sl >= n && sl <= s),
            n >= 1,
            taken@.len() == s,
            remap@.len() == sl - n,
            j <= free@.len(),
            forall|k: int| 0 <= k < free@.len() ==> (#[trigger] free@[k]) < n,
            forall|k: int| 0 <= k < remap@.len() ==> (#[trigger] remap@[k]) < n,
        decreases s - sl,
    {
        if taken[sl] {
            if j < free.len() {
                remap.push(free[j] as u64);
                j = j + 1;
            } else {
                return Option::None;
            }
        } else {
            remap.push(0);
        }
        sl = sl + 1;
    }
    // narrow the tables for the compact encoding
    let mut pilots_narrow: Vec<u8> = Vec::new();
    let mut remap_narrow: Vec<u32> = Vec::new();
    let mut pilots_wide: Vec<u64> = Vec::new();
    let mut remap_wide: Vec<u64> = Vec::new();
    if compact {
        let mut w: usize = 0;
        while w < pilots.len()
            invariant
                w <= pilots@.len(),
                forall|k: int| 0 <= k < pilots@.len() ==> (#[trigger] pilots@[k]) <= PILOT_LIMIT,
                pilots_narrow@.len() == w,
                forall|k: int|
                    0 <= k < w ==> (#[trigger] pilots_narrow@[k]) as u64 == pilots@[k],
            decreases pilots@.len() - w,
        {
            pilots_narrow.push(pilots[w] as u8);
            w = w + 1;
        }
        let mut w2: usize = 0;
        while w2 < remap.len()
            invariant
                w2 <= remap@.len(),
                n < 0x0100_0000,
                forall|k: int| 0 <= k < remap@.len() ==> (#[trigger] remap@[k]) < n,
                remap_narrow@.len() == w2,
                forall|k: int|
                    0 <= k < w2 ==> (#[trigger] remap_narrow@[k]) as u64 == remap@[k]
                        && remap_narrow@[k] < n,
            decreases remap@.len() - w2,
        {
            remap_narrow.push(remap[w2] as u32);
            w2 = w2 + 1;
        }
    } else {
        pilots_wide = pilots;
        remap_wide = remap;
    }
    let ff = PtrHashFn {
        compact,
        seed,
        n: n as u64,
        nslots: s as u64,
        nbuckets: m as u64,
        pilots_wide,
        pilots_narrow,
        remap_wide,
        remap_narrow,
        keys: Ghost(kview(keys@)),
    };
    proof {
        assert(ff.nbuckets <= ff.n);
        assert(ff.nslots <= 2 * ff.n);
        assert(ff.swf());
    }
    if validate_ptr(&ff, keys) {
        Option::Some(ff)
    } else {
        Option::None
    }
}

/// Build a bucket-and-pilot function over `keys`.  `compact` selects the
/// narrow encoding and skewed bucket function.  On success the result is a
/// minimal perfect hash function for `keys`, checked key by key; bounded
/// global restarts are tried before giving up.
pub fn build_ptrhash(
    keys: &Vec<Vec<u8>>,
    compact: bool,
    seed0: u64,
) -> (r: Result<PtrHashFn, MphfError>)
    requires
        keys@.len() < 0x0100_0000,
    ensures
        match r {
            Result::Ok(f) => f.wf() && f.keys@ == kview(keys@) && f.compact == compact
                && f.n as int == keys@.len(),
            Result::Err(e) => e == MphfError::ConstructionExhausted,
        },
        keys@.len() <= 1 ==> r.is_ok(),
{
    let n: usize = keys.len();
    if n == 0 {
        let ff = PtrHashFn {
            compact,
            seed: seed0,
            n: 0,
            nslots: 0,
            nbuckets: 0,
            pilots_wide: Vec::new(),
            pilots_narrow: Vec::new(),
            remap_wide: Vec::new(),
            remap_narrow: Vec::new(),
            keys: Ghost(kview(keys@)),
        };
        proof {
            assert(kview(keys@).len() == 0);
            assert(ff.wf());
        }
        return Result::Ok(ff);
    }
    if n == 1 {
        // a single key lands on the only slot of a one-slot working range
        let mut pilots_wide: Vec<u64> = Vec::new();
        let mut pilots_narrow: Vec<u8> = Vec::new();
        if compact {
            pilots_narrow.push(0);
        } else {
            pilots_wide.push(0);
        }
        let ff = PtrHashFn {
            compact,
            seed: seed0,
            n: 1,
            nslots: 1,
            nbuckets: 1,
            pilots_wide,
            pilots_narrow,
            remap_wide: Vec::new(),
            remap_narrow: Vec::new(),
            keys: Ghost(kview(keys@)),
        };
        proof {
            assert(kview(keys@).len() == 1);
            assert(ff.swf());
            assert(pilot_of(ff, 0) == 0);
            assert(spec_ptr_index(ff, ff.keys@[0]) == 0);
            assert forall|r2: int| 0 <= r2 < 1 implies #[trigger] hit_by(
                ptr_index_fn(ff),
                1int,
                r2,
            ) by {
                assert(ptr_index_fn(ff)(0int) == spec_ptr_index(ff, ff.keys@[0]));
                assert(ptr_index_fn(ff)(0int) == 0);
                assert(hit_by(ptr_index_fn(ff), 1int, r2));
            }
            assert(ff.wf());
        }
        return Result::Ok(ff);
    }
    let mut g: u64 = 0;
    while g < RESTARTS
        invariant
            2 <= keys@.len() < 0x0100_0000,
            g <= RESTARTS,
        decreases RESTARTS - g,
    {
        let seed: u64 = mix(seed0, g);
        match try_build(keys, compact, seed) {
            Option::Some(f) => {
                return Result::Ok(f);
            },
            Option::None => {},
        }
        g = g + 1;
    }
    Result::Err(MphfError::ConstructionExhausted)
}

} // verus!
