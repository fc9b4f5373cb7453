use smt::circuit::poseidon2::{hash_trace, row_constants, row_kind, trace, RowKind, ROWS};
use smt::compressed_smt::CompressedSMT;
use smt::field::PrimeField;
use smt::fp::Fp;
use smt::path::{Error, MerkleError, Path, SparsePath, SparsePathEntry};
use smt::poseidon::{FieldHasher, HashError, Poseidon};
use smt::poseidon2::{Poseidon2, Poseidon2Params};
use smt::smt::{gen_empty_hashes, SparseMerkleTree};
use std::collections::BTreeMap;
use std::marker::PhantomData;

/// Adds the inputs with weights. Fails on the pairs that `fails_on` tells.
#[derive(Clone, Copy, PartialEq)]
enum Weighted {
    Total,
    FailsOnRight(u64),
}

impl FieldHasher<Fp, 2> for Weighted {
    fn hash(&self, inputs: [Fp; 2]) -> Result<Fp, HashError> {
        if let Weighted::FailsOnRight(bad) = self {
            if inputs[1] == Fp::from_u64(*bad) {
                return Err(HashError { message: format!("cannot hash {}", bad) });
            }
        }
        Ok(inputs[0]
            .times(Fp::from_u64(3))
            .plus(inputs[1].times(Fp::from_u64(5)))
            .plus(Fp::one()))
    }

    fn hasher() -> Self {
        Weighted::Total
    }
}

fn fp(n: u64) -> Fp {
    Fp::from_u64(n)
}

fn leaves(entries: &[(u32, u64)]) -> BTreeMap<u32, Fp> {
    entries.iter().map(|(k, v)| (*k, fp(*v))).collect()
}

fn tree<const N: usize>(entries: &[(u32, u64)]) -> SparseMerkleTree<Fp, Weighted, N> {
    SparseMerkleTree::new(&leaves(entries), &Weighted::Total, &[0u8; 64]).unwrap()
}

fn compressed<const N: usize>(entries: &[(u32, u64)]) -> CompressedSMT<Fp, Weighted, N> {
    CompressedSMT::new_from_u32(&leaves(entries), &Weighted::Total, &[0u8; 64]).unwrap()
}

#[test]
fn empty_values_are_hashed_with_themselves() {
    let hashes = gen_empty_hashes::<Fp, Weighted, 4>(&Weighted::Total, &[0u8; 64]).unwrap();
    assert_eq!(hashes, [fp(0), fp(1), fp(9), fp(73)]);
    let mut leaf = [0u8; 64];
    leaf[0] = 7;
    let hashes = gen_empty_hashes::<Fp, Weighted, 2>(&Weighted::Total, &leaf).unwrap();
    assert_eq!(hashes, [fp(7), fp(57)]);
}

#[test]
fn the_first_empty_value_that_fails_gives_the_error() {
    let error = gen_empty_hashes::<Fp, Weighted, 4>(&Weighted::FailsOnRight(9), &[0u8; 64]);
    let expected = HashError { message: "cannot hash 9".to_string() };
    assert_eq!(error.unwrap_err(), Error::Hash(expected));
    let fine = gen_empty_hashes::<Fp, Weighted, 2>(&Weighted::FailsOnRight(9), &[0u8; 64]);
    assert!(fine.is_ok());
}

#[test]
fn nodes_of_a_small_tree() {
    let smt = tree::<2>(&[(0, 10), (3, 20)]);
    let nodes: Vec<(u64, Fp)> = smt.tree.iter().map(|(k, v)| (*k, *v)).collect();
    // 3 * 10 + 5 * 0 + 1, 3 * 0 + 5 * 20 + 1, and 3 * 31 + 5 * 101 + 1.
    assert_eq!(
        nodes,
        vec![(0, fp(599)), (1, fp(31)), (2, fp(101)), (3, fp(10)), (6, fp(20))]
    );
    assert_eq!(smt.root(), fp(599));
}

#[test]
fn batches_give_the_tree_of_all_leaves() {
    let all = tree::<5>(&[(0, 4), (3, 9), (7, 5), (17, 6), (30, 1)]);
    let mut parts = tree::<5>(&[(7, 77), (0, 4)]);
    parts.insert_batch(&leaves(&[(30, 1), (3, 9)]), &Weighted::Total).unwrap();
    parts.insert_batch(&leaves(&[(17, 6), (7, 5)]), &Weighted::Total).unwrap();
    parts.insert_batch(&leaves(&[]), &Weighted::Total).unwrap();
    assert_eq!(parts.tree, all.tree);
    assert_eq!(parts.root(), all.root());
}

#[test]
fn a_failed_batch_keeps_what_was_done() {
    let mut smt = tree::<2>(&[(0, 10)]);
    // The hash of the pair (40, 0) is 121 and cannot be hashed on the right.
    let hasher = Weighted::FailsOnRight(121);
    let error = smt.insert_batch(&leaves(&[(1, 2), (2, 40)]), &hasher).unwrap_err();
    assert_eq!(error, Error::Hash(HashError { message: "cannot hash 121".to_string() }));
    let nodes: Vec<(u64, Fp)> = smt.tree.iter().map(|(k, v)| (*k, *v)).collect();
    // The root is the one from before: 3 * 31 + 5 * 1 + 1.
    assert_eq!(
        nodes,
        vec![(0, fp(99)), (1, fp(41)), (2, fp(121)), (3, fp(10)), (4, fp(2)), (5, fp(40))]
    );
}

#[test]
fn a_tree_that_cannot_be_hashed_is_an_error() {
    let hasher = Weighted::FailsOnRight(121);
    let error =
        SparseMerkleTree::<Fp, Weighted, 2>::new(&leaves(&[(2, 40)]), &hasher, &[0u8; 64]);
    assert_eq!(
        error.err().unwrap(),
        Error::Hash(HashError { message: "cannot hash 121".to_string() })
    );
    let error = CompressedSMT::<Fp, Weighted, 2>::new(
        &BTreeMap::new(),
        &Weighted::FailsOnRight(0),
        &[0u8; 64],
    );
    assert_eq!(
        error.err().unwrap(),
        Error::Hash(HashError { message: "cannot hash 0".to_string() })
    );
}

#[test]
fn leaves_beyond_the_last_level_become_lower_nodes() {
    // Leaf 4 of a tree of height 2 has index 7, below node 3.
    let smt = tree::<2>(&[(4, 10)]);
    let nodes: Vec<(u64, Fp)> = smt.tree.iter().map(|(k, v)| (*k, *v)).collect();
    assert_eq!(nodes, vec![(1, fp(99)), (3, fp(31)), (7, fp(10))]);
}

#[test]
fn sequential_leaves_are_numbered_in_order() {
    let values = [fp(4), fp(9), fp(5)];
    let smt =
        SparseMerkleTree::<Fp, Weighted, 3>::new_sequential(&values, &Weighted::Total, &[0u8; 64])
            .unwrap();
    assert_eq!(smt.tree, tree::<3>(&[(0, 4), (1, 9), (2, 5)]).tree);
}

#[test]
fn the_root_of_an_empty_tree_is_the_last_empty_value() {
    assert_eq!(tree::<3>(&[]).root(), fp(9));
    assert_eq!(compressed::<3>(&[]).root(), fp(9));
}

#[test]
fn proofs_of_set_and_unset_leaves_lead_to_the_root() {
    let entries = [(0, 4), (3, 9), (7, 5), (17, 6), (30, 1)];
    let smt = tree::<5>(&entries);
    let set = leaves(&entries);
    for index in 0..32u32 {
        let leaf = *set.get(&index).unwrap_or(&fp(0));
        let path = smt.generate_membership_proof(index as u64);
        assert_eq!(path.calculate_root(&leaf, &Weighted::Total).unwrap(), smt.root());
        assert!(path.check_membership(&smt.root(), &leaf, &Weighted::Total).unwrap());
        assert!(!path.check_membership(&fp(1), &leaf, &Weighted::Total).unwrap());
        for level in 0..5 {
            assert_eq!(path.direction_bits[level], (index >> level) & 1 == 1);
        }
        let sparse = smt.generate_sparse_membership_proof(index as u64);
        assert!(sparse
            .verify_against_root(&leaf, &Weighted::Total, index as u64, &smt.root())
            .unwrap());
        assert!(!sparse
            .verify_against_root(&leaf, &Weighted::Total, index as u64, &fp(1))
            .unwrap());
        assert_eq!(sparse.tree_height, 5);
        for pair in sparse.entries.windows(2) {
            assert!(pair[0].level < pair[1].level);
        }
        for level in 0..5 {
            let sibling = if path.direction_bits[level] {
                path.path[level].0
            } else {
                path.path[level].1
            };
            match sparse.entries.iter().find(|entry| entry.level == level) {
                Some(entry) => {
                    assert_eq!(entry.sibling, sibling);
                    assert_eq!(entry.direction_bit, path.direction_bits[level]);
                    assert_ne!(sibling, sparse.empty_hashes[level]);
                }
                None => assert_eq!(sibling, sparse.empty_hashes[level]),
            }
        }
    }
}

#[test]
fn other_leaves_do_not_lead_to_the_root() {
    let smt = tree::<4>(&[(0, 4), (3, 9), (7, 5)]);
    let hasher = Weighted::Total;
    let sparse = smt.generate_sparse_membership_proof(3);
    assert!(sparse.verify_against_root(&fp(9), &hasher, 3, &smt.root()).unwrap());
    for other in [0, 4, 5, 8, 10] {
        assert!(!sparse.verify_against_root(&fp(other), &hasher, 3, &smt.root()).unwrap());
    }
    let path = smt.generate_membership_proof(3);
    assert!(path.check_membership(&smt.root(), &fp(4), &hasher).is_err());
    // The sibling of leaf 3 is on the path as well.
    assert!(path.check_membership(&smt.root(), &fp(0), &hasher).unwrap());
}

#[test]
fn two_batches_combine() {
    let mut both = tree::<4>(&[(1, 1)]);
    both.insert_batch(&leaves(&[(2, 2), (5, 5)]), &Weighted::Total).unwrap();
    both.insert_batch(&leaves(&[(5, 6), (9, 9)]), &Weighted::Total).unwrap();
    let mut union = tree::<4>(&[(1, 1)]);
    union.insert_batch(&leaves(&[(2, 2), (5, 6), (9, 9)]), &Weighted::Total).unwrap();
    assert_eq!(both.tree, union.tree);
}

#[test]
fn the_index_is_read_off_the_path() {
    let smt = tree::<5>(&[(0, 4), (3, 9), (7, 5), (17, 6), (30, 1)]);
    for (index, value) in [(0u64, 4), (3, 9), (7, 5), (17, 6), (30, 1)] {
        let path = smt.generate_membership_proof(index);
        let found = path.get_index(&smt.root(), &fp(value), &Weighted::Total);
        assert_eq!(found.unwrap(), fp(index));
    }
}

#[test]
fn equal_siblings_hide_the_side() {
    let smt = tree::<2>(&[(0, 4), (1, 4)]);
    let path = smt.generate_membership_proof(1);
    assert_eq!(path.get_index(&smt.root(), &fp(4), &Weighted::Total).unwrap(), fp(0));
}

#[test]
fn path_errors() {
    let smt = tree::<3>(&[(0, 4), (1, 9)]);
    let path = smt.generate_membership_proof(0);
    let hasher = Weighted::Total;
    let invalid_leaf = Error::Merkle(MerkleError::InvalidLeaf);
    assert_eq!(path.calculate_root(&fp(5), &hasher).unwrap_err(), invalid_leaf);
    assert_eq!(path.check_membership(&smt.root(), &fp(5), &hasher).unwrap_err(), invalid_leaf);
    assert_eq!(path.get_index(&smt.root(), &fp(5), &hasher).unwrap_err(), invalid_leaf);
    assert_eq!(path.get_index(&fp(1), &fp(4), &hasher).unwrap_err(), invalid_leaf);

    let mut broken = path.clone();
    broken.path[1] = (fp(1), fp(2));
    assert_eq!(
        broken.calculate_root(&fp(4), &hasher).unwrap_err(),
        Error::Merkle(MerkleError::InvalidPathNodes)
    );
    assert_eq!(
        path.calculate_root(&fp(4), &Weighted::FailsOnRight(9)).unwrap_err(),
        Error::Hash(HashError { message: "cannot hash 9".to_string() })
    );
    assert_eq!(MerkleError::InvalidLeaf.to_string(), "Invalid leaf");
    assert_eq!(MerkleError::InvalidPathNodes.to_string(), "Path nodes are not consistent");
}

#[test]
fn a_path_by_hand() {
    // The tree with the leaves d = 1, e = 2 and the node c = 3.
    let path: Path<Fp, Weighted, 2> = Path {
        path: [(fp(1), fp(2)), (fp(14), fp(3))],
        direction_bits: [true, false],
        marker: PhantomData,
    };
    assert_eq!(path.calculate_root(&fp(2), &Weighted::Total).unwrap(), fp(58));
    assert_eq!(path.get_index(&fp(58), &fp(2), &Weighted::Total).unwrap(), fp(1));
    assert_eq!(path.get_index(&fp(58), &fp(1), &Weighted::Total).unwrap(), fp(0));
}

#[test]
fn sparse_roots_by_hand() {
    let sparse: SparsePath<Fp, Weighted> = SparsePath {
        entries: vec![
            SparsePathEntry { sibling: fp(2), direction_bit: true, level: 1 },
            SparsePathEntry { sibling: fp(7), direction_bit: false, level: 2 },
        ],
        tree_height: 3,
        empty_hashes: vec![fp(0), fp(1), fp(9)],
        marker: PhantomData,
    };
    let hasher = Weighted::Total;
    // 3 * 2 + 5 * 4 + 1 = 27, and 3 * 27 + 5 * 7 + 1 = 117.
    assert_eq!(sparse.calculate_compact_root(&fp(4), &hasher).unwrap(), fp(117));
    // 3 * 4 + 5 * 0 + 1 = 13, 3 * 2 + 5 * 13 + 1 = 72, and 3 * 72 + 5 * 7 + 1 = 252.
    assert_eq!(sparse.calculate_full_root(&fp(4), &hasher, 2).unwrap(), fp(252));
    assert!(sparse.verify_against_root(&fp(4), &hasher, 2, &fp(252)).unwrap());
    assert_eq!(
        sparse.calculate_compact_root(&fp(4), &Weighted::FailsOnRight(7)).unwrap_err(),
        Error::Hash(HashError { message: "cannot hash 7".to_string() })
    );
    assert_eq!(
        sparse.calculate_full_root(&fp(4), &Weighted::FailsOnRight(0), 2).unwrap_err(),
        Error::Hash(HashError { message: "cannot hash 0".to_string() })
    );
    let copy = sparse.clone();
    assert_eq!(copy.empty_hashes, sparse.empty_hashes);
    assert_eq!(copy.entries.len(), 2);
    let (siblings, bits, active) = copy.to_padded_arrays::<3>();
    assert_eq!(siblings, [fp(2), fp(7), fp(0)]);
    assert_eq!(bits, [true, false, false]);
    assert_eq!(active, [true, true, false]);
}

#[test]
fn the_compact_root_leads_on_to_the_root() {
    // The entries of leaf 1 are on the two lowest levels.
    let smt = tree::<5>(&[(0, 4), (1, 9), (2, 5)]);
    let sparse = smt.generate_sparse_membership_proof(1);
    assert_eq!(sparse.entries.iter().map(|e| e.level).collect::<Vec<_>>(), vec![0, 1]);
    let mut node = sparse.calculate_compact_root(&fp(9), &Weighted::Total).unwrap();
    for level in 2..5 {
        node = Weighted::Total.hash([node, sparse.empty_hashes[level]]).unwrap();
    }
    assert_eq!(node, smt.root());
}

#[test]
fn compressed_trees_match_for_every_number_of_leaves() {
    let cases: [&[(u32, u64)]; 7] = [
        &[(5, 8)],
        &[(5, 8), (4, 3)],
        &[(0, 8), (31, 3)],
        &[(0, 8), (1, 3), (2, 9)],
        &[(3, 8), (12, 3), (13, 9), (30, 1)],
        // Leaves with the value of the empty leaf.
        &[(6, 0), (9, 3)],
        &[(6, 0), (7, 3), (20, 0), (21, 0)],
    ];
    for entries in cases {
        let smt = tree::<5>(entries);
        let csmt = compressed::<5>(entries);
        assert_eq!(smt.root(), csmt.root());
        for (index, value) in entries {
            let path = smt.generate_membership_proof(*index as u64);
            let compressed_path = csmt.generate_membership_proof(*index as u64);
            assert_eq!(path.path, compressed_path.path);
            assert_eq!(path.direction_bits, compressed_path.direction_bits);
            let sparse = smt.generate_sparse_membership_proof(*index as u64);
            let compressed_sparse = csmt.generate_sparse_membership_proof(*index as u64);
            assert_eq!(sparse.entries.len(), compressed_sparse.entries.len());
            for (a, b) in sparse.entries.iter().zip(&compressed_sparse.entries) {
                assert_eq!((a.sibling, a.direction_bit, a.level), (b.sibling, b.direction_bit, b.level));
            }
            assert_eq!(sparse.tree_height, compressed_sparse.tree_height);
            assert_eq!(sparse.empty_hashes, compressed_sparse.empty_hashes);
            assert!(compressed_path
                .check_membership(&csmt.root(), &fp(*value), &Weighted::Total)
                .unwrap());
            assert!(compressed_sparse
                .verify_against_root(&fp(*value), &Weighted::Total, *index as u64, &csmt.root())
                .unwrap());
        }
    }
}

#[test]
fn a_compressed_tree_takes_every_64_bit_index() {
    let mut leaves: BTreeMap<u64, Fp> = BTreeMap::new();
    leaves.insert(0, fp(3));
    leaves.insert(u64::MAX, fp(4));
    leaves.insert(1 << 63, fp(5));
    let csmt = CompressedSMT::<Fp, Weighted, 64>::new(&leaves, &Weighted::Total, &[0u8; 64]).unwrap();
    for (index, value) in &leaves {
        let path = csmt.generate_membership_proof(*index);
        assert!(path.check_membership(&csmt.root(), value, &Weighted::Total).unwrap());
        let sparse = csmt.generate_sparse_membership_proof(*index);
        assert!(sparse.verify_against_root(value, &Weighted::Total, *index, &csmt.root()).unwrap());
    }
}

#[test]
fn a_compressed_tree_knows_its_leaves() {
    let set = [3, 8, 9, 30, 31];
    for n in 0..=set.len() {
        let entries: Vec<(u32, u64)> = set[..n].iter().map(|k| (*k, 5)).collect();
        let csmt = compressed::<5>(&entries);
        for index in 0..40u64 {
            assert_eq!(csmt.contains(index), entries.iter().any(|(k, _)| *k as u64 == index));
        }
    }
}

#[test]
fn empty_leaves_add_nothing() {
    let empty = gen_empty_hashes::<Fp, Weighted, 5>(&Weighted::Total, &[0u8; 64]).unwrap();
    assert_eq!(compressed::<4>(&[(6, 0)]).root(), empty[4]);
    for other in [0, 7, 9, 15] {
        assert_eq!(
            compressed::<4>(&[(6, 8), (other, 0)]).root(),
            compressed::<4>(&[(6, 8)]).root()
        );
    }
}

#[test]
fn a_compressed_tree_of_height_zero_is_its_leaf() {
    let csmt = compressed::<0>(&[(0, 8)]);
    assert_eq!(csmt.root(), fp(8));
}

#[test]
fn the_trace_of_a_hash_ends_with_the_digest() {
    let params = Poseidon2Params::new();
    let hasher = Poseidon2::<Fp, 2>::new();
    let (states, sboxes) = trace(&params, [fp(3), fp(2), fp(2)]);
    assert_eq!(states.len(), ROWS);
    assert_eq!(sboxes.len(), 56);
    assert_eq!(states[0], [fp(3), fp(2), fp(2)]);
    assert_eq!(states[1], [fp(10), fp(9), fp(9)]);
    assert_eq!(states[23][0], hasher.hash([fp(3), fp(2)]).unwrap());
}

#[test]
fn the_traces_of_a_longer_hash_end_with_the_digest() {
    let params = Poseidon2Params::new();
    let message = [fp(6), fp(42), fp(7)];
    let traces = hash_trace(&params, &message);
    assert_eq!(traces.len(), 2);
    assert_eq!(traces[0].0[0], [fp(6), fp(42), fp(3)]);
    let last = traces[0].0[23];
    assert_eq!(traces[1].0[0], [last[0].plus(fp(7)), last[1], last[2]]);
    assert_eq!(traces[1].0[23][0], Poseidon2::<Fp, 3>::new().hash(message).unwrap());
    assert_eq!(hash_trace(&params, &[fp(6)])[0].0[0], [fp(6), fp(0), fp(1)]);
    assert_eq!(hash_trace(&params, &[fp(6), fp(42)]).len(), 1);
}

#[test]
fn the_rows_of_a_hash() {
    let params = Poseidon2Params::new();
    assert_eq!(row_kind(0), RowKind::First);
    assert_eq!(row_kind(1), RowKind::Full { round: 0 });
    assert_eq!(row_kind(4), RowKind::Full { round: 3 });
    assert_eq!(row_kind(5), RowKind::Partial { round: 4, sbox: 0 });
    assert_eq!(row_kind(18), RowKind::Partial { round: 56, sbox: 52 });
    assert_eq!(row_kind(19), RowKind::Full { round: 60 });
    assert_eq!(row_kind(22), RowKind::Full { round: 63 });
    assert_eq!(row_kind(23), RowKind::Last);
    assert!(row_constants(&params, 0).is_empty());
    assert_eq!(row_constants(&params, 19), params.round_constants[60].to_vec());
    assert_eq!(
        row_constants(&params, 6),
        (8..12).map(|r| params.round_constants[r][0]).collect::<Vec<Fp>>()
    );
    assert!(row_constants(&params, 23).is_empty());
}

#[test]
fn poseidon_is_its_own_default() {
    let a = Poseidon::<Fp, 2>::hasher().hash([fp(1), fp(2)]).unwrap();
    let b = Poseidon::<Fp, 2>::default().hash([fp(1), fp(2)]).unwrap();
    assert_eq!(a, b);
}
