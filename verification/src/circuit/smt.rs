//! The cells of a membership proof and the values that follow from them.
//!
//! A path is put in cells as siblings and bits. On each level the node so far and its
//! sibling are swapped by the bit and hashed. A sparse path has a fixed number of places;
//! on a place that is not active the node passes unchanged.
use vstd::prelude::*;

use crate::circuit::utilities::{bit_element, conditional_select, is_eq_with_output, swap};
use crate::field::PrimeField;
use crate::path;
use crate::path::{Error, Path, SparsePath, SparsePathEntry};
use crate::poseidon;
use crate::poseidon::{hash_pair, FieldHasher, HashError};

verus! {

/// The element of a bit.
pub open spec fn spec_bit_element<F: PrimeField>(bit: bool) -> F {
    if bit {
        F::of_int(1)
    } else {
        F::of_int(0)
    }
}

/// The cells of a path hold its siblings and bits.
pub open spec fn are_path_cells<F: PrimeField, H: FieldHasher<F, 2>, const N: usize>(
    path: &Path<F, H, N>,
    siblings: Seq<F>,
    bits: Seq<F>,
) -> bool {
    &&& siblings.len() == N
    &&& bits.len() == N
    &&& forall|i: int|
        0 <= i < N ==> #[trigger] siblings[i] == if path.direction_bits@[i] {
            path.path@[i].0
        } else {
            path.path@[i].1
        }
    &&& forall|i: int|
        0 <= i < N ==> #[trigger] bits[i] == spec_bit_element::<F>(path.direction_bits@[i])
}

/// The cells of a sparse path hold its entries, with marks, and zeros after them.
pub open spec fn are_sparse_cells<F: PrimeField>(
    entries: Seq<SparsePathEntry<F>>,
    siblings: Seq<F>,
    bits: Seq<F>,
    active: Seq<F>,
) -> bool {
    &&& entries.len() <= siblings.len()
    &&& bits.len() == siblings.len()
    &&& active.len() == siblings.len()
    &&& forall|i: int|
        0 <= i < entries.len() ==> #[trigger] siblings[i] == entries[i].sibling
    &&& forall|i: int|
        0 <= i < entries.len() ==> #[trigger] bits[i] == spec_bit_element::<F>(
            entries[i].direction_bit,
        )
    &&& forall|i: int| 0 <= i < entries.len() ==> #[trigger] active[i] == F::of_int(1)
    &&& forall|i: int|
        entries.len() <= i < siblings.len() ==> #[trigger] siblings[i] == F::of_int(0)
    &&& forall|i: int| entries.len() <= i < siblings.len() ==> #[trigger] bits[i] == F::of_int(0)
    &&& forall|i: int|
        entries.len() <= i < siblings.len() ==> #[trigger] active[i] == F::of_int(0)
}

/// The sibling and the bit of each level of a path, as they are put in cells.
pub fn path_cells<F: PrimeField, H: FieldHasher<F, 2>, const N: usize>(
    native: &Path<F, H, N>,
) -> (r: ([F; N], [F; N]))
    ensures
        are_path_cells(native, r.0@, r.1@),
        forall|i: int|
            0 <= i < N ==> #[trigger] r.0@[i] == if native.direction_bits@[i] {
                native.path@[i].0
            } else {
                native.path@[i].1
            },
        forall|i: int|
            0 <= i < N ==> #[trigger] r.1@[i] == if native.direction_bits@[i] {
                F::of_int(1)
            } else {
                F::of_int(0)
            },
{
    let mut siblings: [F; N] = [F::zero(); N];
    let mut bits: [F; N] = [F::zero(); N];
    for i in 0..N
        invariant
            forall|k: int|
                0 <= k < i ==> #[trigger] siblings@[k] == if native.direction_bits@[k] {
                    native.path@[k].0
                } else {
                    native.path@[k].1
                },
            forall|k: int|
                0 <= k < i ==> #[trigger] bits@[k] == spec_bit_element::<F>(
                    native.direction_bits@[k],
                ),
    {
        siblings[i] = if native.direction_bits[i] {
            native.path[i].0
        } else {
            native.path[i].1
        };
        bits[i] = bit_element(native.direction_bits[i]);
    }
    (siblings, bits)
}

/// The sibling, the bit and the mark of each place of a sparse path, as they are put in
/// cells. Places without an entry hold zeros.
pub fn sparse_path_cells<F: PrimeField, H: FieldHasher<F, 2>, const MAX_K: usize>(
    native: &SparsePath<F, H>,
) -> (r: ([F; MAX_K], [F; MAX_K], [F; MAX_K]))
    requires
        native.entries@.len() <= MAX_K,
    ensures
        are_sparse_cells(native.entries@, r.0@, r.1@, r.2@),
        forall|i: int|
            0 <= i < MAX_K ==> #[trigger] r.0@[i] == if i < native.entries@.len() {
                native.entries@[i].sibling
            } else {
                F::of_int(0)
            },
        forall|i: int|
            0 <= i < MAX_K ==> #[trigger] r.1@[i] == if i < native.entries@.len()
                && native.entries@[i].direction_bit {
                F::of_int(1)
            } else {
                F::of_int(0)
            },
        forall|i: int|
            0 <= i < MAX_K ==> #[trigger] r.2@[i] == if i < native.entries@.len() {
                F::of_int(1)
            } else {
                F::of_int(0)
            },
{
    let (siblings, direction_bits, is_active) = native.to_padded_arrays::<MAX_K>();
    let mut bits: [F; MAX_K] = [F::zero(); MAX_K];
    let mut active: [F; MAX_K] = [F::zero(); MAX_K];
    for i in 0..MAX_K
        invariant
            forall|k: int|
                0 <= k < i ==> #[trigger] bits@[k] == spec_bit_element::<F>(direction_bits@[k]),
            forall|k: int|
                0 <= k < i ==> #[trigger] active@[k] == spec_bit_element::<F>(is_active@[k]),
    {
        bits[i] = bit_element(direction_bits[i]);
        active[i] = bit_element(is_active[i]);
    }
    (siblings, bits, active)
}

/// What swapping a node and its sibling by a bit and hashing them gives.
pub open spec fn swap_hash<F: PrimeField, H: FieldHasher<F, 2>>(
    hasher: &H,
    node: F,
    sibling: F,
    bit: F,
) -> Result<F, HashError> {
    if bit == F::of_int(0) {
        poseidon::pair_hash::<F, H>(hasher, node, sibling)
    } else {
        poseidon::pair_hash::<F, H>(hasher, sibling, node)
    }
}

/// The value of the node above the first `n` siblings.
pub open spec fn dense_root<F: PrimeField, H: FieldHasher<F, 2>>(
    hasher: &H,
    siblings: Seq<F>,
    bits: Seq<F>,
    leaf: F,
    n: int,
) -> Result<F, HashError>
    decreases n,
{
    if n <= 0 {
        Ok(leaf)
    } else {
        match dense_root::<F, H>(hasher, siblings, bits, leaf, n - 1) {
            Ok(prev) => swap_hash::<F, H>(hasher, prev, siblings[n - 1], bits[n - 1]),
            Err(e) => Err(e),
        }
    }
}

/// The value of the node above the first `n` places, of which only those with the mark 1
/// count. The hash is computed on every place.
pub open spec fn sparse_root<F: PrimeField, H: FieldHasher<F, 2>>(
    hasher: &H,
    siblings: Seq<F>,
    bits: Seq<F>,
    active: Seq<F>,
    leaf: F,
    n: int,
) -> Result<F, HashError>
    decreases n,
{
    if n <= 0 {
        Ok(leaf)
    } else {
        match sparse_root::<F, H>(hasher, siblings, bits, active, leaf, n - 1) {
            Ok(prev) => match swap_hash::<F, H>(hasher, prev, siblings[n - 1], bits[n - 1]) {
                Ok(hash) => Ok(
                    if active[n - 1] == F::of_int(1) {
                        hash
                    } else {
                        prev
                    },
                ),
                Err(e) => Err(e),
            },
            Err(e) => Err(e),
        }
    }
}

/// The value of the root cell of a path: on each level the node and its sibling are swapped
/// by the bit and hashed.
pub fn calculate_root<F: PrimeField, H: FieldHasher<F, 2>, const N: usize>(
    siblings: &[F; N],
    bits: &[F; N],
    leaf: F,
    hasher: &H,
) -> (r: Result<F, Error>)
    ensures
        r == path::lift(dense_root::<F, H>(hasher, siblings@, bits@, leaf, N as int)),
{
    let mut prev: F = leaf;
    for i in 0..N
        invariant
            dense_root::<F, H>(hasher, siblings@, bits@, leaf, i as int) == Ok::<F, HashError>(
                prev,
            ),
    {
        let (left, right) = swap(prev, siblings[i], bits[i]);
        match hash_pair(hasher, left, right) {
            Ok(next) => {
                prev = next;
            },
            Err(e) => {
                proof {
                    lemma_dense_root_fails::<F, H>(
                        hasher,
                        siblings@,
                        bits@,
                        leaf,
                        i + 1,
                        N as int,
                    );
                }
                return Err(Error::Hash(e));
            },
        }
    }
    Ok(prev)
}

/// The value of the root cell of a sparse path: on each place the node and the sibling are
/// swapped by the bit and hashed, and the mark selects the hash or the node itself.
pub fn calculate_sparse_root<F: PrimeField, H: FieldHasher<F, 2>, const MAX_K: usize>(
    siblings: &[F; MAX_K],
    bits: &[F; MAX_K],
    active: &[F; MAX_K],
    leaf: F,
    hasher: &H,
) -> (r: Result<F, Error>)
    ensures
        r == path::lift(
            sparse_root::<F, H>(hasher, siblings@, bits@, active@, leaf, MAX_K as int),
        ),
{
    let mut prev: F = leaf;
    for i in 0..MAX_K
        invariant
            sparse_root::<F, H>(hasher, siblings@, bits@, active@, leaf, i as int) == Ok::<
                F,
                HashError,
            >(prev),
    {
        let (left, right) = swap(prev, siblings[i], bits[i]);
        match hash_pair(hasher, left, right) {
            Ok(hash_result) => {
                prev = conditional_select(hash_result, prev, active[i]);
            },
            Err(e) => {
                proof {
                    lemma_sparse_root_fails::<F, H>(
                        hasher,
                        siblings@,
                        bits@,
                        active@,
                        leaf,
                        i + 1,
                        MAX_K as int,
                    );
                }
                return Err(Error::Hash(e));
            },
        }
    }
    Ok(prev)
}

/// The value of the cell that tells whether a computed root is the expected one.
pub fn check_membership<F: PrimeField>(computed_root: F, root_hash: F) -> (r: F)
    ensures
        r == spec_bit_element::<F>(computed_root == root_hash),
        computed_root == root_hash ==> r == F::of_int(1),
        computed_root != root_hash ==> r == F::of_int(0),
{
    is_eq_with_output(computed_root, root_hash).0
}

pub(crate) proof fn lemma_dense_root_fails<F: PrimeField, H: FieldHasher<F, 2>>(
    hasher: &H,
    siblings: Seq<F>,
    bits: Seq<F>,
    leaf: F,
    n: int,
    total: int,
)
    requires
        n <= total,
        dense_root::<F, H>(hasher, siblings, bits, leaf, n) is Err,
    ensures
        dense_root::<F, H>(hasher, siblings, bits, leaf, total) == dense_root::<F, H>(
            hasher,
            siblings,
            bits,
            leaf,
            n,
        ),
    decreases total - n,
{
    if n < total {
        lemma_dense_root_fails::<F, H>(hasher, siblings, bits, leaf, n, total - 1);
    }
}

pub(crate) proof fn lemma_sparse_root_fails<F: PrimeField, H: FieldHasher<F, 2>>(
    hasher: &H,
    siblings: Seq<F>,
    bits: Seq<F>,
    active: Seq<F>,
    leaf: F,
    n: int,
    total: int,
)
    requires
        n <= total,
        sparse_root::<F, H>(hasher, siblings, bits, active, leaf, n) is Err,
    ensures
        sparse_root::<F, H>(hasher, siblings, bits, active, leaf, total) == sparse_root::<F, H>(
            hasher,
            siblings,
            bits,
            active,
            leaf,
            n,
        ),
    decreases total - n,
{
    if n < total {
        lemma_sparse_root_fails::<F, H>(hasher, siblings, bits, active, leaf, n, total - 1);
    }
}

} // verus!
