//! Algorithm selection and the handle types callers construct through.

use vstd::prelude::*;

use crate::cardinality::hit_by;
use crate::errors::MphfError;
use crate::fmph::FmphFunction;
use crate::fmph::build_fmph_with;
use crate::fmph::index_fn;
use crate::fmph::kview;
use crate::fmph::spec_fmph_size;
use crate::fmph::spec_index;
use crate::ptrhash::PtrHashFn;
use crate::ptrhash::build_ptrhash;
use crate::ptrhash::ptr_index_fn;
use crate::ptrhash::spec_ptr_index;
use crate::ptrhash::spec_ptr_size;

verus! {

/// The four structure kinds a handle can be built into.
#[derive(Clone, Copy, Debug, PartialEq, Eq, Structural)]
pub enum MphfAlgorithm {
    Fmph,
    FmphGo,
    PtrHashFast,
    PtrHashCompact,
}

/// Law: a built fingerprint function is a bijection of its key set onto
/// `[0, n)`: indices are in range, two distinct key positions never share
/// an index, and every index below `n` is taken.
pub proof fn lemma_fmph_bijective(f: FmphFunction, i: int, j: int, r: int)
    requires
        f.wf(),
        0 <= i < f.keys@.len(),
        0 <= j < f.keys@.len(),
        i != j,
        0 <= r < f.keys@.len(),
    ensures
        0 <= spec_index(f.levels@, f.keys@[i]) < f.keys@.len(),
        spec_index(f.levels@, f.keys@[i]) != spec_index(f.levels@, f.keys@[j]),
        hit_by(index_fn(f), f.keys@.len() as int, r),
{
    if i < j {
        assert(spec_index(f.levels@, f.keys@[i]) != spec_index(f.levels@, f.keys@[j]));
    } else {
        assert(spec_index(f.levels@, f.keys@[j]) != spec_index(f.levels@, f.keys@[i]));
    }
}

/// Law: a built bucket-and-pilot function is a bijection of its key set
/// onto `[0, n)`, in the same three parts.
pub proof fn lemma_ptrhash_bijective(f: PtrHashFn, i: int, j: int, r: int)
    requires
        f.wf(),
        0 <= i < f.keys@.len(),
        0 <= j < f.keys@.len(),
        i != j,
        0 <= r < f.keys@.len(),
    ensures
        0 <= spec_ptr_index(f, f.keys@[i]) < f.keys@.len(),
        spec_ptr_index(f, f.keys@[i]) != spec_ptr_index(f, f.keys@[j]),
        hit_by(ptr_index_fn(f), f.keys@.len() as int, r),
{
    if i < j {
        assert(spec_ptr_index(f, f.keys@[i]) != spec_ptr_index(f, f.keys@[j]));
    } else {
        assert(spec_ptr_index(f, f.keys@[j]) != spec_ptr_index(f, f.keys@[i]));
    }
}

/// Law: a function built over a single key maps that key to index zero.
pub proof fn lemma_single_key_zero(f: FmphFunction)
    requires
        f.wf(),
        f.keys@.len() == 1,
    ensures
        spec_index(f.levels@, f.keys@[0]) == 0,
{
    assert(0 <= spec_index(f.levels@, f.keys@[0]) < 1);
}

/// A built structure of any of the four kinds.
pub enum Mphf {
    Fingerprint(FmphFunction),
    FingerprintOrdered(FmphFunction),
    BucketPilot(PtrHashFn),
    BucketPilotCompact(PtrHashFn),
}

impl Mphf {
    pub open spec fn wf(&self) -> bool {
        match *self {
            Mphf::Fingerprint(f) => f.wf(),
            Mphf::FingerprintOrdered(f) => f.wf(),
            Mphf::BucketPilot(f) => f.wf(),
            Mphf::BucketPilotCompact(f) => f.wf(),
        }
    }

    pub open spec fn spec_keys(&self) -> Seq<Seq<u8>> {
        match *self {
            Mphf::Fingerprint(f) => f.keys@,
            Mphf::FingerprintOrdered(f) => f.keys@,
            Mphf::BucketPilot(f) => f.keys@,
            Mphf::BucketPilotCompact(f) => f.keys@,
        }
    }

    pub open spec fn spec_query(&self, key: Seq<u8>) -> int {
        match *self {
            Mphf::Fingerprint(f) => spec_index(f.levels@, key),
            Mphf::FingerprintOrdered(f) => spec_index(f.levels@, key),
            Mphf::BucketPilot(f) => spec_ptr_index(f, key),
            Mphf::BucketPilotCompact(f) => spec_ptr_index(f, key),
        }
    }

    pub open spec fn contains_key(&self, key: Seq<u8>) -> bool {
        exists|i: int| 0 <= i < self.spec_keys().len() && self.spec_keys()[i] == key
    }

    /// Build a structure of the selected kind over `keys`.  `gamma` is the
    /// fill factor in percent for the fingerprint family and ignored by
    /// the bucket-and-pilot family.
    pub fn construct(
        keys: &Vec<Vec<u8>>,
        algorithm: MphfAlgorithm,
        gamma: u16,
        seed0: u64,
    ) -> (r: Result<Mphf, MphfError>)
        requires
            1 <= gamma <= 100,
            keys@.len() < 0x0100_0000,
        ensures
            match r {
                Result::Ok(f) => f.wf() && f.spec_keys() == kview(keys@),
                Result::Err(e) => e == MphfError::ConstructionExhausted,
            },
            keys@.len() <= 1 ==> r.is_ok(),
    {
        match algorithm {
            MphfAlgorithm::Fmph => match build_fmph_with(keys, gamma, seed0, false) {
                Result::Ok(f) => Result::Ok(Mphf::Fingerprint(f)),
                Result::Err(e) => Result::Err(e),
            },
            MphfAlgorithm::FmphGo => match build_fmph_with(keys, gamma, seed0, true) {
                Result::Ok(f) => Result::Ok(Mphf::FingerprintOrdered(f)),
                Result::Err(e) => Result::Err(e),
            },
            MphfAlgorithm::PtrHashFast => match build_ptrhash(keys, false, seed0) {
                Result::Ok(f) => Result::Ok(Mphf::BucketPilot(f)),
                Result::Err(e) => Result::Err(e),
            },
            MphfAlgorithm::PtrHashCompact => match build_ptrhash(keys, true, seed0) {
                Result::Ok(f) => Result::Ok(Mphf::BucketPilotCompact(f)),
                Result::Err(e) => Result::Err(e),
            },
        }
    }

    /// The index of a key of the set the structure was built from.
    pub fn query(&self, key: &[u8]) -> (r: u64)
        requires
            self.wf(),
            self.contains_key(key@),
        ensures
            r as int == self.spec_query(key@),
            r < self.spec_keys().len(),
    {
        match self {
            Mphf::Fingerprint(f) => f.query(key),
            Mphf::FingerprintOrdered(f) => f.query(key),
            Mphf::BucketPilot(f) => f.query(key),
            Mphf::BucketPilotCompact(f) => f.query(key),
        }
    }

    /// Resident bytes of the built structure, as the byte formula of the
    /// selected variant.
    pub fn size_bytes(&self) -> (r: u64)
        requires
            self.wf(),
        ensures
            r as int == (match *self {
                Mphf::Fingerprint(f) => spec_fmph_size(f.levels@, f.levels@.len() as int),
                Mphf::FingerprintOrdered(f) => spec_fmph_size(f.levels@, f.levels@.len() as int),
                Mphf::BucketPilot(f) => spec_ptr_size(f),
                Mphf::BucketPilotCompact(f) => spec_ptr_size(f),
            }),
    {
        match self {
            Mphf::Fingerprint(f) => f.size_bytes(),
            Mphf::FingerprintOrdered(f) => f.size_bytes(),
            Mphf::BucketPilot(f) => f.size_bytes(),
            Mphf::BucketPilotCompact(f) => f.size_bytes(),
        }
    }

    /// Number of levels of a fingerprint structure; zero for the others.
    pub fn level_count(&self) -> (r: usize)
        ensures
            r as int == (match *self {
                Mphf::Fingerprint(f) => f.levels@.len() as int,
                Mphf::FingerprintOrdered(f) => f.levels@.len() as int,
                Mphf::BucketPilot(f) => 0int,
                Mphf::BucketPilotCompact(f) => 0int,
            }),
    {
        match self {
            Mphf::Fingerprint(f) => f.levels.len(),
            Mphf::FingerprintOrdered(f) => f.levels.len(),
            Mphf::BucketPilot(_) => 0,
            Mphf::BucketPilotCompact(_) => 0,
        }
    }
}

} // verus!
