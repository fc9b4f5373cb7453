use smt::circuit::elements::{
    are_bits, is_equal_row_holds, path_circuit_bits, select_row_holds, sparse_circuit_bits,
    swap_row_holds,
};
use smt::circuit::poseidon2::{absorbs, permutation_count, word_cell};
use smt::circuit::utilities::{conditional_select, is_eq_with_output, swap};
use smt::compressed_smt::{
    build, collect_sparse_entries, compute_double_hash, compute_single_hash, fill_path,
};
use smt::field::{has_inverse, PrimeField};
use smt::fp::Fp;
use smt::poseidon::{FieldHasher, Poseidon};
use smt::smt::gen_empty_hashes;

fn fp(n: u64) -> Fp {
    Fp::from_u64(n)
}

#[test]
fn every_element_but_zero_has_an_inverse() {
    assert!(!has_inverse(fp(0)));
    assert!(has_inverse(fp(1)));
    assert!(has_inverse(Fp::zero().minus(fp(1))));
}

#[test]
fn rows_of_the_utility_gates() {
    let (a, b) = (fp(5), fp(8));
    for bit in [fp(0), fp(1)] {
        assert!(select_row_holds(a, b, conditional_select(a, b, bit), bit));
        let (out_a, out_b) = swap(a, b, bit);
        assert!(swap_row_holds(a, b, bit, out_a, out_b));
        assert!(!swap_row_holds(a, b, bit, out_b, out_a));
    }
    assert!(!select_row_holds(a, b, b, fp(1)));
    assert!(!select_row_holds(a, b, a, fp(0)));
    assert!(!select_row_holds(a, b, a, fp(2)));
    assert!(!swap_row_holds(a, b, fp(2), a, b));
    for (x, y) in [(a, a), (a, b)] {
        let (out, delta_invert) = is_eq_with_output(x, y);
        assert!(is_equal_row_holds(x, y, out, delta_invert));
        assert!(!is_equal_row_holds(x, y, fp(1).minus(out), delta_invert));
    }
    assert!(is_equal_row_holds(a, a, fp(1), fp(77)));
    assert!(!is_equal_row_holds(a, b, fp(0), fp(77)));
}

#[test]
fn bits_of_circuits() {
    let bits = vec![fp(0), fp(1), fp(1)];
    let others = vec![fp(0), fp(2), fp(1)];
    assert!(are_bits(&bits));
    assert!(!are_bits(&others));
    assert!(path_circuit_bits(&bits));
    assert!(!path_circuit_bits(&others));
    assert!(sparse_circuit_bits(&bits, &bits));
    assert!(!sparse_circuit_bits(&bits, &others));
    assert!(!sparse_circuit_bits(&others, &bits));
}

#[test]
fn cells_of_the_words_of_a_message() {
    assert_eq!(word_cell(0), (0, 0));
    assert_eq!(word_cell(1), (1, 0));
    assert_eq!(word_cell(2), (3, 23));
    assert_eq!(word_cell(3), (4, 23));
    assert_eq!(word_cell(4), (3, 47));
    assert_eq!((0..6).map(permutation_count).collect::<Vec<_>>(), vec![0, 1, 1, 2, 2, 3]);
    let rows: Vec<usize> = (0..72).filter(|row| absorbs(*row, 5)).collect();
    assert_eq!(rows, vec![23, 47]);
    assert!((0..24).all(|row| !absorbs(row, 2)));
}

#[test]
fn subtrees_of_compressed_trees() {
    let hasher = Poseidon::<Fp, 2>::new();
    let eh = gen_empty_hashes::<Fp, Poseidon<Fp, 2>, 4>(&hasher, &[0u8; 64]).unwrap();
    let hash = |a: Fp, b: Fp| hasher.hash([a, b]).unwrap();

    // Leaf 5 is the right one of its pair, and the pair the left one of the next.
    let a = (5, fp(3));
    let single = hash(hash(eh[0], fp(3)), eh[1]);
    assert_eq!(compute_single_hash(a, 0, &hasher, &eh), fp(3));
    assert_eq!(compute_single_hash(a, 2, &hasher, &eh), single);
    for level in 0..4 {
        assert_eq!(compute_single_hash((6, eh[0]), level, &hasher, &eh), eh[level]);
    }

    let b = (6, fp(4));
    let double = hash(hash(eh[0], fp(3)), hash(fp(4), eh[0]));
    assert_eq!(compute_double_hash(a, b, 2, &hasher, &eh), double);
    assert_eq!(compute_double_hash(b, a, 2, &hasher, &eh), double);
    assert_eq!(compute_double_hash(a, (6, eh[0]), 2, &hasher, &eh), single);

    let c = (7, fp(9));
    let names: Vec<&str> = (0..4)
        .map(|n| build(&[a, b, c][..n], 2, &hasher, &eh).variant_name())
        .collect();
    assert_eq!(names, vec!["Zero", "Single", "Double", "Multi"]);

    let node = build(&[a, b, c], 2, &hasher, &eh);
    let mut path = [(fp(0), fp(0)); 3];
    let mut bits = [true; 3];
    fill_path(&node, 6, 2, &hasher, &eh, &mut path, &mut bits);
    assert_eq!(path[0], (fp(4), fp(9)));
    assert_eq!(path[1], (hash(eh[0], fp(3)), hash(fp(4), fp(9))));
    assert_eq!(path[2], (fp(0), fp(0)));
    assert_eq!(bits, [false, true, true]);

    let mut entries = Vec::new();
    collect_sparse_entries(&node, 5, 2, &hasher, &eh, &mut entries);
    assert_eq!(entries.len(), 1);
    assert_eq!(entries[0].level, 1);
    assert_eq!(entries[0].sibling, hash(fp(4), fp(9)));
    assert!(!entries[0].direction_bit);
}
