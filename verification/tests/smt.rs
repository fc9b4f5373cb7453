use rand::rngs::OsRng;
use rand::RngCore;
use smt::field::PrimeField;
use smt::fp::Fp;
use smt::poseidon::{FieldHasher, Poseidon};
use smt::smt::{gen_empty_hashes, SparseMerkleTree};
use std::collections::BTreeMap;

fn random() -> Fp {
    let mut bytes = [0u8; 64];
    OsRng.fill_bytes(&mut bytes);
    Fp::from_uniform_bytes(&bytes)
}

fn create_merkle_tree<F: PrimeField + std::fmt::Debug, H: FieldHasher<F, 2>, const N: usize>(
    hasher: H,
    leaves: &[F],
    default_leaf: &[u8; 64],
) -> SparseMerkleTree<F, H, N> {
    let pairs: BTreeMap<u32, F> = leaves
        .iter()
        .enumerate()
        .map(|(i, l)| (i as u32, *l))
        .collect();

    SparseMerkleTree::<F, H, N>::new(&pairs, &hasher, default_leaf).unwrap()
}

#[test]
fn should_create_tree_poseidon() {
    let poseidon = Poseidon::<Fp, 2>::new();
    let default_leaf = [0u8; 64];
    let leaves = [random(), random(), random()];
    const HEIGHT: usize = 3;
    let smt = create_merkle_tree::<Fp, Poseidon<Fp, 2>, HEIGHT>(
        poseidon.clone(),
        &leaves,
        &default_leaf,
    );

    let root = smt.root();

    let empty_hashes =
        gen_empty_hashes::<Fp, Poseidon<Fp, 2>, HEIGHT>(&poseidon, &default_leaf).unwrap();
    let hash1 = leaves[0];
    let hash2 = leaves[1];
    let hash3 = leaves[2];

    let hash12 = poseidon.hash([hash1, hash2]).unwrap();
    let hash34 = poseidon.hash([hash3, empty_hashes[0]]).unwrap();

    let hash1234 = poseidon.hash([hash12, hash34]).unwrap();
    let calc_root = poseidon.hash([hash1234, empty_hashes[2]]).unwrap();

    assert_eq!(root, calc_root);
}

#[test]
fn should_generate_and_validate_proof_poseidon() {
    let poseidon = Poseidon::<Fp, 2>::new();
    let default_leaf = [0u8; 64];
    let leaves = [random(), random(), random()];
    const HEIGHT: usize = 3;
    let smt = create_merkle_tree::<Fp, Poseidon<Fp, 2>, HEIGHT>(
        poseidon.clone(),
        &leaves,
        &default_leaf,
    );

    let proof = smt.generate_membership_proof(0);

    let res = proof
        .check_membership(&smt.root(), &leaves[0], &poseidon)
        .unwrap();
    assert!(res);
}

#[test]
fn should_find_the_index_poseidon() {
    let poseidon = Poseidon::<Fp, 2>::new();
    let default_leaf = [0u8; 64];
    let leaves = [random(), random(), random()];
    const HEIGHT: usize = 3;
    let smt = create_merkle_tree::<Fp, Poseidon<Fp, 2>, HEIGHT>(
        poseidon.clone(),
        &leaves,
        &default_leaf,
    );

    let index = 2;

    let proof = smt.generate_membership_proof(index);

    let res = proof
        .get_index(&smt.root(), &leaves[index as usize], &poseidon)
        .unwrap();
    let desired_res = Fp::from_u64(index);

    assert_eq!(res, desired_res);
}

#[test]
fn test_sparse_proof_generation() {
    let poseidon = Poseidon::<Fp, 2>::new();
    let default_leaf = [0u8; 64];
    let leaves = [random(), random(), random()];
    const HEIGHT: usize = 20;
    let smt = create_merkle_tree::<Fp, Poseidon<Fp, 2>, HEIGHT>(
        poseidon.clone(),
        &leaves,
        &default_leaf,
    );

    let sparse_proof = smt.generate_sparse_membership_proof(0);

    println!(
        "Sparse proof entries: {} out of {} levels",
        sparse_proof.entries.len(),
        HEIGHT
    );
    assert!(sparse_proof.entries.len() < HEIGHT);
    assert!(!sparse_proof.entries.is_empty());

    // The entries are in ascending order of their levels.
    for i in 1..sparse_proof.entries.len() {
        assert!(sparse_proof.entries[i].level > sparse_proof.entries[i - 1].level);
    }
}

#[test]
fn test_compact_root_matches() {
    let poseidon = Poseidon::<Fp, 2>::new();
    let default_leaf = [0u8; 64];
    let leaves = [random(), random(), random()];
    const HEIGHT: usize = 20;
    let smt = create_merkle_tree::<Fp, Poseidon<Fp, 2>, HEIGHT>(
        poseidon.clone(),
        &leaves,
        &default_leaf,
    );

    let sparse_proof = smt.generate_sparse_membership_proof(0);
    let compact_root = sparse_proof
        .calculate_compact_root(&leaves[0], &poseidon)
        .unwrap();

    let mut prev = leaves[0];
    for entry in &sparse_proof.entries {
        let (left, right) = if entry.direction_bit {
            (entry.sibling, prev)
        } else {
            (prev, entry.sibling)
        };
        prev = poseidon.hash([left, right]).unwrap();
    }
    assert_eq!(compact_root, prev);
}

#[test]
fn test_full_root_matches_standard() {
    let poseidon = Poseidon::<Fp, 2>::new();
    let default_leaf = [0u8; 64];
    let leaves = [random(), random(), random()];
    const HEIGHT: usize = 20;
    let smt = create_merkle_tree::<Fp, Poseidon<Fp, 2>, HEIGHT>(
        poseidon.clone(),
        &leaves,
        &default_leaf,
    );

    for index in 0..3u64 {
        let sparse_proof = smt.generate_sparse_membership_proof(index);
        let full_root = sparse_proof
            .calculate_full_root(&leaves[index as usize], &poseidon, index)
            .unwrap();
        assert_eq!(
            full_root,
            smt.root(),
            "Full root mismatch for leaf index {}",
            index
        );
    }
}

#[test]
fn test_sparse_roundtrip() {
    let poseidon = Poseidon::<Fp, 2>::new();
    let default_leaf = [0u8; 64];
    let leaves = [random(), random(), random()];
    const HEIGHT: usize = 20;
    let smt = create_merkle_tree::<Fp, Poseidon<Fp, 2>, HEIGHT>(
        poseidon.clone(),
        &leaves,
        &default_leaf,
    );

    for index in 0..3u64 {
        let sparse_proof = smt.generate_sparse_membership_proof(index);

        let result = sparse_proof
            .verify_against_root(&leaves[index as usize], &poseidon, index, &smt.root())
            .unwrap();
        assert!(result, "Sparse roundtrip failed for leaf index {}", index);

        let (siblings, dir_bits, is_active) = sparse_proof.to_padded_arrays::<32>();
        let k = sparse_proof.entries.len();
        for i in 0..k {
            assert!(is_active[i]);
            assert_eq!(siblings[i], sparse_proof.entries[i].sibling);
            assert_eq!(dir_bits[i], sparse_proof.entries[i].direction_bit);
        }
        for i in k..32 {
            assert!(!is_active[i]);
            assert_eq!(siblings[i], Fp::zero());
        }
    }
}
