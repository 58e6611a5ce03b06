use mphf::errors::MphfError;
use mphf::mphf::Mphf;
use mphf::mphf::MphfAlgorithm;

fn keys_of(strs: &[&str]) -> Vec<Vec<u8>> {
    let mut v: Vec<Vec<u8>> = Vec::new();
    for s in strs {
        v.push(s.as_bytes().to_vec());
    }
    v
}

// Deterministic pseudo-random byte strings for the large scenarios.
fn random_keys(n: usize, len: usize, seed: u64) -> Vec<Vec<u8>> {
    let mut v: Vec<Vec<u8>> = Vec::new();
    let mut state: u64 = seed | 1;
    for i in 0..n {
        let mut k: Vec<u8> = Vec::with_capacity(len);
        // put the index first so keys are certainly distinct
        k.extend_from_slice(&(i as u64).to_le_bytes());
        while k.len() < len {
            state = state.wrapping_mul(6364136223846793005).wrapping_add(1442695040888963407);
            k.push((state >> 33) as u8);
        }
        k.truncate(len);
        v.push(k);
    }
    v
}

fn assert_bijective(f: &Mphf, keys: &Vec<Vec<u8>>) {
    let n = keys.len();
    let mut seen = vec![false; n];
    for k in keys {
        let idx = f.query(k.as_slice()) as usize;
        assert!(idx < n, "index out of range");
        assert!(!seen[idx], "index repeated");
        seen[idx] = true;
    }
    for s in seen {
        assert!(s, "index missing");
    }
}

const ALL: [MphfAlgorithm; 4] = [
    MphfAlgorithm::Fmph,
    MphfAlgorithm::FmphGo,
    MphfAlgorithm::PtrHashFast,
    MphfAlgorithm::PtrHashCompact,
];

#[test]
fn bijectivity_all_algorithms() {
    let keys = random_keys(2000, 12, 7);
    for alg in ALL {
        let f = Mphf::construct(&keys, alg, 100, 42).expect("construction");
        assert_bijective(&f, &keys);
    }
}

#[test]
fn determinism_same_seed_same_structure() {
    let keys = random_keys(1500, 10, 11);
    for alg in ALL {
        let f1 = Mphf::construct(&keys, alg, 100, 9).expect("construction");
        let f2 = Mphf::construct(&keys, alg, 100, 9).expect("construction");
        for k in &keys {
            assert_eq!(f1.query(k.as_slice()), f2.query(k.as_slice()));
        }
        assert_eq!(f1.size_bytes(), f2.size_bytes());
    }
}

#[test]
fn size_ordering_compact_below_fast() {
    let keys = random_keys(10000, 16, 3);
    let fast = Mphf::construct(&keys, MphfAlgorithm::PtrHashFast, 100, 5).expect("fast");
    let compact = Mphf::construct(&keys, MphfAlgorithm::PtrHashCompact, 100, 5).expect("compact");
    assert!(compact.size_bytes() <= fast.size_bytes());
}

#[test]
fn size_ordering_ordered_below_plain() {
    let keys = random_keys(10000, 16, 13);
    let plain = Mphf::construct(&keys, MphfAlgorithm::Fmph, 100, 5).expect("plain");
    let ordered = Mphf::construct(&keys, MphfAlgorithm::FmphGo, 100, 5).expect("ordered");
    assert!(ordered.size_bytes() <= plain.size_bytes());
}

#[test]
fn boundary_empty_and_single() {
    let empty: Vec<Vec<u8>> = Vec::new();
    let one = keys_of(&["solo"]);
    for alg in ALL {
        Mphf::construct(&empty, alg, 100, 1).expect("empty set");
        let f = Mphf::construct(&one, alg, 100, 1).expect("single key");
        assert_eq!(f.query(b"solo"), 0);
    }
}

#[test]
fn scenario_three_keys_fmph() {
    let keys = keys_of(&["a", "b", "c"]);
    let f = Mphf::construct(&keys, MphfAlgorithm::Fmph, 50, 123).expect("construction");
    let mut seen = [false; 3];
    for k in &keys {
        let idx = f.query(k.as_slice()) as usize;
        assert!(idx < 3);
        assert!(!seen[idx]);
        seen[idx] = true;
    }
    let first = f.query(b"a");
    let second = f.query(b"a");
    assert_eq!(first, second);
}

#[test]
fn scenario_large_compact_ptrhash() {
    let n = 100000;
    let keys = random_keys(n, 16, 99);
    let f = Mphf::construct(&keys, MphfAlgorithm::PtrHashCompact, 100, 21).expect("construction");
    assert_bijective(&f, &keys);
    let bits_per_key = (f.size_bytes() as f64) * 8.0 / (n as f64);
    assert!(bits_per_key < 12.0, "compact structure too large: {} bits/key", bits_per_key);
}

#[test]
fn scenario_gamma_tradeoff() {
    let n = 50000;
    let keys = random_keys(n, 12, 17);
    let half = Mphf::construct(&keys, MphfAlgorithm::Fmph, 50, 31).expect("gamma 50");
    let tight = Mphf::construct(&keys, MphfAlgorithm::Fmph, 99, 31).expect("gamma 99");
    assert_bijective(&half, &keys);
    assert_bijective(&tight, &keys);
    // smaller gamma means larger levels, hence fewer of them but more slots
    assert!(half.level_count() <= tight.level_count());
    assert!(half.size_bytes() >= tight.size_bytes());
}

#[test]
fn duplicate_keys_exhaust_construction() {
    let keys = keys_of(&["twin", "twin"]);
    for alg in ALL {
        match Mphf::construct(&keys, alg, 100, 1) {
            Ok(_) => panic!("duplicate keys must not construct"),
            Err(e) => assert_eq!(e, MphfError::ConstructionExhausted),
        }
    }
}

#[test]
fn error_description() {
    assert_eq!(
        MphfError::ConstructionExhausted.describe(),
        "construction exhausted its retry budget"
    );
}

#[test]
fn single_key_structure_sizes() {
    // one key: FMPH holds one one-slot level (1 occupancy byte + one
    // 8-byte prefix count + 1 group seed + 16 bytes overhead); PtrHash
    // holds one pilot cell, an empty remap table and 40 bytes of
    // parameters
    let one = keys_of(&["solo"]);
    let fmph = Mphf::construct(&one, MphfAlgorithm::Fmph, 100, 1).expect("fmph");
    assert_eq!(fmph.size_bytes(), 26);
    let fast = Mphf::construct(&one, MphfAlgorithm::PtrHashFast, 100, 1).expect("fast");
    assert_eq!(fast.size_bytes(), 48);
    let compact = Mphf::construct(&one, MphfAlgorithm::PtrHashCompact, 100, 1).expect("compact");
    assert_eq!(compact.size_bytes(), 41);
}
