use rand::rngs::OsRng;
use rand::{Rng, RngCore};
use smt::compressed_smt::CompressedSMT;
use smt::field::PrimeField;
use smt::fp::Fp;
use smt::poseidon::Poseidon;
use smt::smt::SparseMerkleTree;
use std::collections::BTreeMap;

fn random() -> Fp {
    let mut bytes = [0u8; 64];
    OsRng.fill_bytes(&mut bytes);
    Fp::from_uniform_bytes(&bytes)
}

type TestHasher = Poseidon<Fp, 2>;

/// A tree and a compressed tree with the same leaves.
fn create_both<const N: usize>(
    leaves: &BTreeMap<u32, Fp>,
) -> (
    SparseMerkleTree<Fp, TestHasher, N>,
    CompressedSMT<Fp, TestHasher, N>,
) {
    let hasher = Poseidon::<Fp, 2>::new();
    let empty_leaf = [0u8; 64];
    let smt = SparseMerkleTree::new(leaves, &hasher, &empty_leaf).unwrap();
    let csmt = CompressedSMT::new_from_u32(leaves, &hasher, &empty_leaf).unwrap();
    (smt, csmt)
}

#[test]
fn test_root_matches_height_3() {
    let leaves: BTreeMap<u32, Fp> =
        (0..3).map(|i| (i, random())).collect();
    let (smt, csmt) = create_both::<3>(&leaves);
    assert_eq!(smt.root(), csmt.root());
}

#[test]
fn test_root_matches_height_10() {
    let leaves: BTreeMap<u32, Fp> =
        (0..50).map(|i| (i, random())).collect();
    let (smt, csmt) = create_both::<10>(&leaves);
    assert_eq!(smt.root(), csmt.root());
}

#[test]
fn test_root_matches_sparse_leaves() {
    let indices = [0u32, 5, 13, 100, 500, 1000];
    let leaves: BTreeMap<u32, Fp> =
        indices.iter().map(|&i| (i, random())).collect();
    let (smt, csmt) = create_both::<20>(&leaves);
    assert_eq!(smt.root(), csmt.root());
}

#[test]
fn test_root_single_leaf() {
    let leaves: BTreeMap<u32, Fp> = [(0, random())].into_iter().collect();
    let (smt, csmt) = create_both::<10>(&leaves);
    assert_eq!(smt.root(), csmt.root());
}

#[test]
fn test_root_two_leaves() {
    let leaves: BTreeMap<u32, Fp> = [(0, random()), (1, random())]
        .into_iter()
        .collect();
    let (smt, csmt) = create_both::<10>(&leaves);
    assert_eq!(smt.root(), csmt.root());
}

#[test]
fn test_root_two_leaves_wide_separation() {
    let leaves: BTreeMap<u32, Fp> =
        [(0, random()), (1023, random())]
            .into_iter()
            .collect();
    let (smt, csmt) = create_both::<10>(&leaves);
    assert_eq!(smt.root(), csmt.root());
}

#[test]
fn test_root_empty_tree() {
    let leaves: BTreeMap<u32, Fp> = BTreeMap::new();
    let (smt, csmt) = create_both::<10>(&leaves);
    assert_eq!(smt.root(), csmt.root());
}

#[test]
fn test_node_classification() {
    let hasher = Poseidon::<Fp, 2>::new();
    let empty_leaf = [0u8; 64];

    // 0 leaves: Zero
    let leaves0: BTreeMap<u64, Fp> = BTreeMap::new();
    let csmt0 =
        CompressedSMT::<Fp, TestHasher, 5>::new(&leaves0, &hasher, &empty_leaf)
            .unwrap();
    assert_eq!(csmt0.root_node().variant_name(), "Zero");

    // 1 leaf: Single
    let leaves1: BTreeMap<u64, Fp> = [(0, Fp::from_u64(42))].into_iter().collect();
    let csmt1 =
        CompressedSMT::<Fp, TestHasher, 5>::new(&leaves1, &hasher, &empty_leaf)
            .unwrap();
    assert_eq!(csmt1.root_node().variant_name(), "Single");

    // 2 leaves: Double
    let leaves2: BTreeMap<u64, Fp> =
        [(0, Fp::from_u64(42)), (1, Fp::from_u64(43))].into_iter().collect();
    let csmt2 =
        CompressedSMT::<Fp, TestHasher, 5>::new(&leaves2, &hasher, &empty_leaf)
            .unwrap();
    assert_eq!(csmt2.root_node().variant_name(), "Double");

    // 3 leaves: Multi
    let leaves3: BTreeMap<u64, Fp> = [
        (0, Fp::from_u64(42)),
        (1, Fp::from_u64(43)),
        (2, Fp::from_u64(44)),
    ]
    .into_iter()
    .collect();
    let csmt3 =
        CompressedSMT::<Fp, TestHasher, 5>::new(&leaves3, &hasher, &empty_leaf)
            .unwrap();
    assert_eq!(csmt3.root_node().variant_name(), "Multi");
}

#[test]
fn test_dense_proof_matches_original() {
    let leaves: BTreeMap<u32, Fp> =
        (0..5).map(|i| (i, random())).collect();
    let (smt, csmt) = create_both::<10>(&leaves);

    for &idx in leaves.keys() {
        let smt_proof = smt.generate_membership_proof(idx as u64);
        let csmt_proof = csmt.generate_membership_proof(idx as u64);

        for level in 0..10 {
            assert_eq!(
                smt_proof.path[level], csmt_proof.path[level],
                "path mismatch at level {} for leaf {}",
                level, idx
            );
            assert_eq!(
                smt_proof.direction_bits[level], csmt_proof.direction_bits[level],
                "direction_bit mismatch at level {} for leaf {}",
                level, idx
            );
        }
    }
}

#[test]
fn test_dense_proof_membership_check() {
    let poseidon = Poseidon::<Fp, 2>::new();
    let leaves: BTreeMap<u32, Fp> =
        (0..8).map(|i| (i, random())).collect();
    let (_, csmt) = create_both::<10>(&leaves);

    for (&idx, &val) in &leaves {
        let proof = csmt.generate_membership_proof(idx as u64);
        let ok = proof
            .check_membership(&csmt.root(), &val, &poseidon)
            .unwrap();
        assert!(ok, "membership check failed for leaf {}", idx);
    }
}

#[test]
fn test_dense_proof_sparse_leaves() {
    let indices = [0u32, 5, 13, 100, 500, 1000];
    let leaves: BTreeMap<u32, Fp> =
        indices.iter().map(|&i| (i, random())).collect();
    let (smt, csmt) = create_both::<20>(&leaves);
    let poseidon = Poseidon::<Fp, 2>::new();

    for &idx in &indices {
        let smt_proof = smt.generate_membership_proof(idx as u64);
        let csmt_proof = csmt.generate_membership_proof(idx as u64);

        for level in 0..20 {
            assert_eq!(
                smt_proof.path[level], csmt_proof.path[level],
                "path mismatch at level {} for leaf {}",
                level, idx
            );
        }

        let ok = csmt_proof
            .check_membership(&csmt.root(), &leaves[&idx], &poseidon)
            .unwrap();
        assert!(ok, "membership check failed for leaf {}", idx);
    }
}

#[test]
fn test_sparse_proof_matches_original() {
    let leaves: BTreeMap<u32, Fp> =
        (0..5).map(|i| (i, random())).collect();
    let (smt, csmt) = create_both::<20>(&leaves);

    for &idx in leaves.keys() {
        let smt_sparse = smt.generate_sparse_membership_proof(idx as u64);
        let csmt_sparse = csmt.generate_sparse_membership_proof(idx as u64);

        assert_eq!(
            smt_sparse.entries.len(),
            csmt_sparse.entries.len(),
            "entry count mismatch for leaf {}",
            idx
        );

        for (i, (s, c)) in smt_sparse
            .entries
            .iter()
            .zip(csmt_sparse.entries.iter())
            .enumerate()
        {
            assert_eq!(
                s.sibling, c.sibling,
                "sibling mismatch at entry {} for leaf {}",
                i, idx
            );
            assert_eq!(
                s.direction_bit, c.direction_bit,
                "direction_bit mismatch at entry {} for leaf {}",
                i, idx
            );
            assert_eq!(
                s.level, c.level,
                "level mismatch at entry {} for leaf {}",
                i, idx
            );
        }
    }
}

#[test]
fn test_sparse_proof_full_root() {
    let poseidon = Poseidon::<Fp, 2>::new();
    let leaves: BTreeMap<u32, Fp> =
        (0..8).map(|i| (i, random())).collect();
    let (_, csmt) = create_both::<20>(&leaves);

    for (&idx, &val) in &leaves {
        let sparse = csmt.generate_sparse_membership_proof(idx as u64);
        let full_root = sparse
            .calculate_full_root(&val, &poseidon, idx as u64)
            .unwrap();
        assert_eq!(
            full_root,
            csmt.root(),
            "full root mismatch for leaf {}",
            idx
        );
    }
}

#[test]
fn test_sparse_proof_compact_root() {
    let poseidon = Poseidon::<Fp, 2>::new();
    let leaves: BTreeMap<u32, Fp> =
        (0..8).map(|i| (i, random())).collect();
    let (smt, csmt) = create_both::<20>(&leaves);

    for (&idx, &val) in &leaves {
        let smt_sparse = smt.generate_sparse_membership_proof(idx as u64);
        let csmt_sparse = csmt.generate_sparse_membership_proof(idx as u64);

        let smt_compact = smt_sparse
            .calculate_compact_root(&val, &poseidon)
            .unwrap();
        let csmt_compact = csmt_sparse
            .calculate_compact_root(&val, &poseidon)
            .unwrap();

        assert_eq!(
            smt_compact, csmt_compact,
            "compact root mismatch for leaf {}",
            idx
        );
    }
}

#[test]
fn test_scale_1k_leaves() {
    let poseidon = Poseidon::<Fp, 2>::new();
    let leaves: BTreeMap<u32, Fp> =
        (0..1000).map(|i| (i, random())).collect();
    let (smt, csmt) = create_both::<20>(&leaves);

    assert_eq!(smt.root(), csmt.root(), "roots should match for 1000 leaves");

    // Check a sample of proofs
    for idx in [0u32, 42, 500, 999] {
        let proof = csmt.generate_membership_proof(idx as u64);
        let ok = proof
            .check_membership(&csmt.root(), &leaves[&idx], &poseidon)
            .unwrap();
        assert!(ok, "membership check failed for leaf {}", idx);

        let sparse = csmt.generate_sparse_membership_proof(idx as u64);
        let full_root = sparse
            .calculate_full_root(&leaves[&idx], &poseidon, idx as u64)
            .unwrap();
        assert_eq!(
            full_root,
            csmt.root(),
            "sparse full root mismatch for leaf {}",
            idx
        );
    }
}

#[test]
fn test_scale_height_53() {
    let mut rng = OsRng;
    let poseidon = Poseidon::<Fp, 2>::new();
    let empty_leaf = [0u8; 64];

    // Create 10,000 leaves with random u64 indices in the 2^53 space
    let mut leaves: BTreeMap<u64, Fp> = BTreeMap::new();
    for _ in 0..10_000 {
        let idx: u64 = rng.gen_range(0..(1u64 << 53));
        let val = random();
        leaves.insert(idx, val);
    }

    let csmt = CompressedSMT::<Fp, TestHasher, 53>::new(
        &leaves,
        &poseidon,
        &empty_leaf,
    )
    .unwrap();

    // Root should be non-zero
    assert_ne!(csmt.root(), Fp::zero());

    // Sample a few leaves and verify proofs
    let sample_indices: Vec<u64> = leaves.keys().take(5).copied().collect();
    for &idx in &sample_indices {
        let proof = csmt.generate_membership_proof(idx);
        let ok = proof
            .check_membership(&csmt.root(), &leaves[&idx], &poseidon)
            .unwrap();
        assert!(ok, "membership check failed for leaf {}", idx);

        let sparse = csmt.generate_sparse_membership_proof(idx);
        let full_root = sparse
            .calculate_full_root(&leaves[&idx], &poseidon, idx)
            .unwrap();
        assert_eq!(
            full_root,
            csmt.root(),
            "sparse full root mismatch for leaf {}",
            idx
        );
    }
}
