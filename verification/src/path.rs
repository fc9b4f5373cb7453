//! Membership proofs.
//!
//! A [`Path`] lists, from the leaf level up, the pair of siblings on each level between a
//! leaf and the root. In the tree
//! ```text
//!           a
//!         /   \
//!        b     c
//!       / \   / \
//!      d   e f   g
//! ```
//! the path from the leaf `e` to the root `a` is `[(d, e), (b, c)]`. A [`SparsePath`] keeps
//! only the siblings that are not the empty value of their level.
use std::marker::PhantomData;
use vstd::arithmetic::power2::*;
use vstd::prelude::*;

use crate::field;
use crate::field::PrimeField;
use crate::index;
use crate::poseidon;
use crate::poseidon::{hash_pair, FieldHasher, HashError};

verus! {

/// What can be wrong with a leaf or a path.
#[derive(Debug, PartialEq, Eq)]
pub enum MerkleError {
    /// The leaf is not in the tree or not on the path.
    InvalidLeaf,
    /// The nodes of the path do not fit together.
    InvalidPathNodes,
}

impl MerkleError {
    /// The error in words.
    pub fn to_string(&self) -> (r: String)
        ensures
            *self is InvalidLeaf ==> r@ == "Invalid leaf"@,
            *self is InvalidPathNodes ==> r@ == "Path nodes are not consistent"@,
    {
        match self {
            MerkleError::InvalidLeaf => "Invalid leaf".to_owned(),
            MerkleError::InvalidPathNodes => "Path nodes are not consistent".to_owned(),
        }
    }
}

/// What can go wrong when a tree is built or a path is followed.
#[derive(Debug, PartialEq, Eq)]
pub enum Error {
    /// The leaf or the path is wrong.
    Merkle(MerkleError),
    /// The hash function failed.
    Hash(HashError),
}

/// The result of a hash, with its error among the errors of paths.
pub open spec fn lift<F>(r: Result<F, HashError>) -> Result<F, Error> {
    match r {
        Ok(value) => Ok(value),
        Err(e) => Err(Error::Hash(e)),
    }
}

/// The root that the pairs from `level` up lead to, starting from the node `prev`. Each
/// node has to be one of the pair on its level.
pub open spec fn path_root<F: PrimeField, H: FieldHasher<F, 2>>(
    hasher: &H,
    pairs: Seq<(F, F)>,
    prev: F,
    level: int,
) -> Result<F, Error>
    decreases pairs.len() - level,
{
    if level >= pairs.len() {
        Ok(prev)
    } else if prev != pairs[level].0 && prev != pairs[level].1 {
        Err(Error::Merkle(MerkleError::InvalidPathNodes))
    } else {
        match poseidon::pair_hash::<F, H>(hasher, pairs[level].0, pairs[level].1) {
            Ok(next) => path_root::<F, H>(hasher, pairs, next, level + 1),
            Err(e) => Err(Error::Hash(e)),
        }
    }
}

/// The root that a path gives for a leaf, which has to be one of the first pair.
pub open spec fn root_of<F: PrimeField, H: FieldHasher<F, 2>>(
    hasher: &H,
    pairs: Seq<(F, F)>,
    leaf: F,
) -> Result<F, Error> {
    if leaf != pairs[0].0 && leaf != pairs[0].1 {
        Err(Error::Merkle(MerkleError::InvalidLeaf))
    } else {
        path_root::<F, H>(hasher, pairs, leaf, 0)
    }
}

/// The node on `level` of the way that a path leads up from a leaf.
pub open spec fn path_node<F: PrimeField, H: FieldHasher<F, 2>>(
    hasher: &H,
    pairs: Seq<(F, F)>,
    leaf: F,
    level: int,
) -> F {
    if level <= 0 {
        leaf
    } else {
        poseidon::node_hash::<F, H>(hasher, pairs[level - 1].0, pairs[level - 1].1)
    }
}

/// The binary number whose digit on each of the first `levels` levels is 1 where the node
/// on the way up is not the left one of its pair.
pub open spec fn path_index<F: PrimeField, H: FieldHasher<F, 2>>(
    hasher: &H,
    pairs: Seq<(F, F)>,
    leaf: F,
    levels: int,
) -> int
    decreases levels,
{
    if levels <= 0 {
        0
    } else {
        path_index::<F, H>(hasher, pairs, leaf, levels - 1) + if path_node::<F, H>(
            hasher,
            pairs,
            leaf,
            levels - 1,
        ) != pairs[levels - 1].0 {
            pow2((levels - 1) as nat) as int
        } else {
            0
        }
    }
}

/// The pairs of siblings on the way from a leaf to the root.
pub struct Path<F: PrimeField, H: FieldHasher<F, 2>, const N: usize> {
    /// The pair on each level, the left node first.
    pub path: [(F, F); N],
    /// On which side of its pair the way up passes: `false` is left, `true` is right.
    pub direction_bits: [bool; N],
    /// The hash function of the tree.
    pub marker: PhantomData<H>,
}

impl<F: PrimeField, H: FieldHasher<F, 2>, const N: usize> Clone for Path<F, H, N> {
    fn clone(&self) -> (r: Self)
        ensures
            r == *self,
    {
        Path { path: self.path, direction_bits: self.direction_bits, marker: PhantomData }
    }
}

impl<F: PrimeField, H: FieldHasher<F, 2>, const N: usize> Path<F, H, N> {
    /// Whether the path leads from `leaf` to `root_hash`.
    pub fn check_membership(&self, root_hash: &F, leaf: &F, hasher: &H) -> (r: Result<bool, Error>)
        requires
            N > 0,
        ensures
            r == match root_of::<F, H>(hasher, self.path@, *leaf) {
                Ok(root) => Ok(root == *root_hash),
                Err(e) => Err(e),
            },
    {
        match self.calculate_root(leaf, hasher) {
            Ok(root) => Ok(root.equals(root_hash)),
            Err(e) => Err(e),
        }
    }

    /// The root that the path leads to from `leaf`.
    pub fn calculate_root(&self, leaf: &F, hasher: &H) -> (r: Result<F, Error>)
        requires
            N > 0,
        ensures
            r == root_of::<F, H>(hasher, self.path@, *leaf),
    {
        if !leaf.equals(&self.path[0].0) && !leaf.equals(&self.path[0].1) {
            return Err(Error::Merkle(MerkleError::InvalidLeaf));
        }
        let mut prev: F = *leaf;
        for level in 0..N
            invariant
                *leaf == self.path@[0].0 || *leaf == self.path@[0].1,
                path_root::<F, H>(hasher, self.path@, *leaf, 0) == path_root::<F, H>(
                    hasher,
                    self.path@,
                    prev,
                    level as int,
                ),
        {
            let (left_hash, right_hash) = self.path[level];
            if !prev.equals(&left_hash) && !prev.equals(&right_hash) {
                return Err(Error::Merkle(MerkleError::InvalidPathNodes));
            }
            match hash_pair(hasher, left_hash, right_hash) {
                Ok(next) => {
                    prev = next;
                },
                Err(e) => {
                    return Err(Error::Hash(e));
                },
            }
        }
        Ok(prev)
    }

    /// The index of `leaf` in the tree with the root `root_hash`, read off the path. On
    /// each level where the node on the way up is not the left one of its pair, the index
    /// has a 1 in that binary place.
    pub fn get_index(&self, root_hash: &F, leaf: &F, hasher: &H) -> (r: Result<F, Error>)
        requires
            N > 0,
        ensures
            r == match root_of::<F, H>(hasher, self.path@, *leaf) {
                Ok(root) => if root == *root_hash {
                    Ok(F::of_int(path_index::<F, H>(hasher, self.path@, *leaf, N as int)))
                } else {
                    Err(Error::Merkle(MerkleError::InvalidLeaf))
                },
                Err(e) => Err(e),
            },
    {
        match self.check_membership(root_hash, leaf, hasher) {
            Ok(is_member) => {
                if !is_member {
                    return Err(Error::Merkle(MerkleError::InvalidLeaf));
                }
            },
            Err(e) => {
                return Err(e);
            },
        }
        let mut prev: F = *leaf;
        let mut index: F = F::zero();
        let mut twopower: F = F::one();
        proof {
            lemma2_to64();
        }
        for level in 0..N
            invariant
                prev == path_node::<F, H>(hasher, self.path@, *leaf, level as int),
                path_root::<F, H>(hasher, self.path@, prev, level as int) is Ok,
                index == F::of_int(path_index::<F, H>(hasher, self.path@, *leaf, level as int)),
                twopower == F::of_int(pow2(level as nat) as int),
        {
            let (left_hash, right_hash) = self.path[level];
            proof {
                let power = pow2(level as nat) as int;
                field::lemma_plus_of_int::<F>(
                    path_index::<F, H>(hasher, self.path@, *leaf, level as int),
                    power,
                );
                field::lemma_plus_of_int::<F>(power, power);
                lemma_pow2_unfold((level + 1) as nat);
            }
            if !prev.equals(&left_hash) {
                index = index.plus(twopower);
            }
            twopower = twopower.plus(twopower);
            match hash_pair(hasher, left_hash, right_hash) {
                Ok(next) => {
                    prev = next;
                },
                Err(e) => {
                    return Err(Error::Hash(e));
                },
            }
        }
        Ok(index)
    }
}

/// A sibling on the way from a leaf to the root.
#[derive(Debug)]
pub struct SparsePathEntry<F: PrimeField> {
    /// The sibling.
    pub sibling: F,
    /// On which side of the pair the way up passes: `false` is left, `true` is right.
    pub direction_bit: bool,
    /// The level of the pair; the leaves are on level 0.
    pub level: usize,
}

impl<F: PrimeField> Clone for SparsePathEntry<F> {
    fn clone(&self) -> (r: Self)
        ensures
            r == *self,
    {
        SparsePathEntry {
            sibling: self.sibling,
            direction_bit: self.direction_bit,
            level: self.level,
        }
    }
}

/// The entry that a sparse path has for a sibling on `level`: none for an empty one.
pub open spec fn entry_for<F: PrimeField>(
    empties: Seq<F>,
    target: int,
    level: nat,
    sibling: F,
) -> Seq<SparsePathEntry<F>> {
    if sibling != empties[level as int] {
        seq![
            SparsePathEntry {
                sibling,
                direction_bit: index::above(target, level) % 2 == 1,
                level: level as usize,
            },
        ]
    } else {
        Seq::empty()
    }
}

/// What hashing `prev` with its sibling gives; `right` says that `prev` is the right one.
pub open spec fn side_hash<F: PrimeField, H: FieldHasher<F, 2>>(
    hasher: &H,
    right: bool,
    prev: F,
    sibling: F,
) -> Result<F, HashError> {
    if right {
        poseidon::pair_hash::<F, H>(hasher, sibling, prev)
    } else {
        poseidon::pair_hash::<F, H>(hasher, prev, sibling)
    }
}

/// The node that the first `n` entries lead to from `leaf`, with no level between them.
pub open spec fn compact_root<F: PrimeField, H: FieldHasher<F, 2>>(
    hasher: &H,
    entries: Seq<SparsePathEntry<F>>,
    leaf: F,
    n: int,
) -> Result<F, HashError>
    decreases n,
{
    if n <= 0 {
        Ok(leaf)
    } else {
        match compact_root::<F, H>(hasher, entries, leaf, n - 1) {
            Ok(prev) => side_hash::<F, H>(
                hasher,
                entries[n - 1].direction_bit,
                prev,
                entries[n - 1].sibling,
            ),
            Err(e) => Err(e),
        }
    }
}

/// Whether the entry under the cursor is that of `level`.
pub open spec fn entry_matches<F: PrimeField>(
    entries: Seq<SparsePathEntry<F>>,
    cursor: int,
    level: int,
) -> bool {
    cursor < entries.len() && entries[cursor].level == level
}

/// How far the cursor is after `level` levels: it moves past an entry on the entry's level.
pub open spec fn cursor_at<F: PrimeField>(entries: Seq<SparsePathEntry<F>>, level: int) -> int
    decreases level,
{
    if level <= 0 {
        0
    } else {
        let cursor = cursor_at(entries, level - 1);
        if entry_matches(entries, cursor, level - 1) {
            cursor + 1
        } else {
            cursor
        }
    }
}

/// The sibling on `level`: that of the entry of this level, or the empty value.
pub open spec fn sibling_at<F: PrimeField>(
    entries: Seq<SparsePathEntry<F>>,
    empties: Seq<F>,
    level: int,
) -> F {
    let cursor = cursor_at(entries, level);
    if entry_matches(entries, cursor, level) {
        entries[cursor].sibling
    } else {
        empties[level]
    }
}

/// The node that the first `levels` levels lead to from the leaf at `leaf_index`.
pub open spec fn full_root<F: PrimeField, H: FieldHasher<F, 2>>(
    hasher: &H,
    entries: Seq<SparsePathEntry<F>>,
    empties: Seq<F>,
    leaf: F,
    leaf_index: int,
    levels: int,
) -> Result<F, HashError>
    decreases levels,
{
    if levels <= 0 {
        Ok(leaf)
    } else {
        match full_root::<F, H>(hasher, entries, empties, leaf, leaf_index, levels - 1) {
            Ok(prev) => side_hash::<F, H>(
                hasher,
                index::above(leaf_index, (levels - 1) as nat) % 2 == 1,
                prev,
                sibling_at(entries, empties, levels - 1),
            ),
            Err(e) => Err(e),
        }
    }
}

/// A path that keeps only the siblings which are not the empty value of their level.
pub struct SparsePath<F: PrimeField, H: FieldHasher<F, 2>> {
    /// The siblings that are kept, from the leaf to the root.
    pub entries: Vec<SparsePathEntry<F>>,
    /// The height of the tree.
    pub tree_height: usize,
    /// The empty value of each level.
    pub empty_hashes: Vec<F>,
    /// The hash function of the tree.
    pub marker: PhantomData<H>,
}

impl<F: PrimeField, H: FieldHasher<F, 2>> Clone for SparsePath<F, H> {
    fn clone(&self) -> (r: Self)
        ensures
            r.entries@ == self.entries@,
            r.tree_height == self.tree_height,
            r.empty_hashes@ == self.empty_hashes@,
    {
        let mut entries: Vec<SparsePathEntry<F>> = Vec::new();
        for i in 0..self.entries.len()
            invariant
                entries@ == self.entries@.take(i as int),
        {
            entries.push(self.entries[i].clone());
            assert(entries@ =~= self.entries@.take(i + 1));
        }
        let mut empty_hashes: Vec<F> = Vec::new();
        for i in 0..self.empty_hashes.len()
            invariant
                empty_hashes@ == self.empty_hashes@.take(i as int),
        {
            empty_hashes.push(self.empty_hashes[i]);
            assert(empty_hashes@ =~= self.empty_hashes@.take(i + 1));
        }
        assert(entries@ =~= self.entries@);
        assert(empty_hashes@ =~= self.empty_hashes@);
        SparsePath { entries, tree_height: self.tree_height, empty_hashes, marker: PhantomData }
    }
}

impl<F: PrimeField, H: FieldHasher<F, 2>> SparsePath<F, H> {
    /// Every level that [`SparsePath::calculate_full_root`] reaches has a place in the
    /// index and a sibling.
    pub open spec fn covers_levels(&self, leaf: F, hasher: &H, leaf_index: u64) -> bool {
        forall|level: int|
            #![trigger cursor_at(self.entries@, level)]
            0 <= level < self.tree_height && full_root::<F, H>(
                hasher,
                self.entries@,
                self.empty_hashes@,
                leaf,
                leaf_index as int,
                level,
            ) is Ok ==> level < 64 && (entry_matches(
                self.entries@,
                cursor_at(self.entries@, level),
                level,
            ) || level < self.empty_hashes@.len())
    }

    /// The root over the kept entries alone: each one is hashed with the result so far.
    pub fn calculate_compact_root(&self, leaf: &F, hasher: &H) -> (r: Result<F, Error>)
        ensures
            r == lift(
                compact_root::<F, H>(hasher, self.entries@, *leaf, self.entries@.len() as int),
            ),
    {
        let mut prev: F = *leaf;
        for i in 0..self.entries.len()
            invariant
                compact_root::<F, H>(hasher, self.entries@, *leaf, i as int) == Ok::<F, HashError>(
                    prev,
                ),
        {
            let entry = &self.entries[i];
            let (left, right) = if entry.direction_bit {
                (entry.sibling, prev)
            } else {
                (prev, entry.sibling)
            };
            match hash_pair(hasher, left, right) {
                Ok(next) => {
                    prev = next;
                },
                Err(e) => {
                    proof {
                        lemma_compact_root_fails::<F, H>(
                            hasher,
                            self.entries@,
                            *leaf,
                            i + 1,
                            self.entries@.len() as int,
                        );
                    }
                    return Err(Error::Hash(e));
                },
            }
        }
        Ok(prev)
    }

    /// The root of the tree: every level is hashed, one without an entry with the empty
    /// value of the level.
    pub fn calculate_full_root(&self, leaf: &F, hasher: &H, leaf_index: u64) -> (r: Result<
        F,
        Error,
    >)
        requires
            self.covers_levels(*leaf, hasher, leaf_index),
        ensures
            r == lift(
                full_root::<F, H>(
                    hasher,
                    self.entries@,
                    self.empty_hashes@,
                    *leaf,
                    leaf_index as int,
                    self.tree_height as int,
                ),
            ),
    {
        let mut prev: F = *leaf;
        let mut entry_idx: usize = 0;
        for level in 0..self.tree_height
            invariant
                self.covers_levels(*leaf, hasher, leaf_index),
                entry_idx == cursor_at(self.entries@, level as int),
                entry_idx <= self.entries@.len(),
                full_root::<F, H>(
                    hasher,
                    self.entries@,
                    self.empty_hashes@,
                    *leaf,
                    leaf_index as int,
                    level as int,
                ) == Ok::<F, HashError>(prev),
        {
            proof {
                index::lemma_shr_above(leaf_index, level as u64);
                index::lemma_bit(leaf_index >> (level as u64));
            }
            let direction_bit = (leaf_index >> level) & 1 == 1;
            let sibling = if entry_idx < self.entries.len() && self.entries[entry_idx].level
                == level {
                let s = self.entries[entry_idx].sibling;
                entry_idx = entry_idx + 1;
                s
            } else {
                self.empty_hashes[level]
            };
            let (left, right) = if direction_bit {
                (sibling, prev)
            } else {
                (prev, sibling)
            };
            match hash_pair(hasher, left, right) {
                Ok(next) => {
                    prev = next;
                },
                Err(e) => {
                    proof {
                        lemma_full_root_fails::<F, H>(
                            hasher,
                            self.entries@,
                            self.empty_hashes@,
                            *leaf,
                            leaf_index as int,
                            level + 1,
                            self.tree_height as int,
                        );
                    }
                    return Err(Error::Hash(e));
                },
            }
        }
        Ok(prev)
    }

    /// Whether the path leads from the leaf at `leaf_index` to `expected_root`.
    pub fn verify_against_root(
        &self,
        leaf: &F,
        hasher: &H,
        leaf_index: u64,
        expected_root: &F,
    ) -> (r: Result<bool, Error>)
        requires
            self.covers_levels(*leaf, hasher, leaf_index),
        ensures
            r == match full_root::<F, H>(
                hasher,
                self.entries@,
                self.empty_hashes@,
                *leaf,
                leaf_index as int,
                self.tree_height as int,
            ) {
                Ok(root) => Ok(root == *expected_root),
                Err(e) => Err(Error::Hash(e)),
            },
    {
        match self.calculate_full_root(leaf, hasher, leaf_index) {
            Ok(full_root) => Ok(full_root.equals(expected_root)),
            Err(e) => Err(e),
        }
    }

    /// The siblings, the direction bits and the marks of the entries in arrays of a fixed
    /// length. Places without an entry hold zero, `false` and `false`.
    pub fn to_padded_arrays<const MAX_K: usize>(&self) -> (r: (
        [F; MAX_K],
        [bool; MAX_K],
        [bool; MAX_K],
    ))
        requires
            self.entries@.len() <= MAX_K,
        ensures
            forall|i: int|
                0 <= i < self.entries@.len() ==> #[trigger] r.0@[i] == self.entries@[i].sibling,
            forall|i: int|
                0 <= i < self.entries@.len() ==> #[trigger] r.1@[i]
                    == self.entries@[i].direction_bit,
            forall|i: int| 0 <= i < self.entries@.len() ==> #[trigger] r.2@[i],
            forall|i: int| self.entries@.len() <= i < MAX_K ==> #[trigger] r.0@[i] == F::of_int(0),
            forall|i: int| self.entries@.len() <= i < MAX_K ==> !#[trigger] r.1@[i],
            forall|i: int| self.entries@.len() <= i < MAX_K ==> !#[trigger] r.2@[i],
    {
        let mut siblings: [F; MAX_K] = [F::zero(); MAX_K];
        let mut direction_bits: [bool; MAX_K] = [false; MAX_K];
        let mut is_active: [bool; MAX_K] = [false; MAX_K];
        for i in 0..self.entries.len()
            invariant
                self.entries@.len() <= MAX_K,
                forall|j: int|
                    0 <= j < i ==> #[trigger] siblings@[j] == self.entries@[j].sibling,
                forall|j: int|
                    0 <= j < i ==> #[trigger] direction_bits@[j] == self.entries@[j].direction_bit,
                forall|j: int| 0 <= j < i ==> #[trigger] is_active@[j],
                forall|j: int| i <= j < MAX_K ==> #[trigger] siblings@[j] == F::of_int(0),
                forall|j: int| i <= j < MAX_K ==> !#[trigger] direction_bits@[j],
                forall|j: int| i <= j < MAX_K ==> !#[trigger] is_active@[j],
        {
            let entry = &self.entries[i];
            siblings[i] = entry.sibling;
            direction_bits[i] = entry.direction_bit;
            is_active[i] = true;
        }
        (siblings, direction_bits, is_active)
    }
}

/// A hash that fails makes the compact root fail.
pub(crate) proof fn lemma_compact_root_fails<F: PrimeField, H: FieldHasher<F, 2>>(
    hasher: &H,
    entries: Seq<SparsePathEntry<F>>,
    leaf: F,
    n: int,
    total: int,
)
    requires
        n <= total,
        compact_root::<F, H>(hasher, entries, leaf, n) is Err,
    ensures
        compact_root::<F, H>(hasher, entries, leaf, total) == compact_root::<F, H>(
            hasher,
            entries,
            leaf,
            n,
        ),
    decreases total - n,
{
    if n < total {
        lemma_compact_root_fails::<F, H>(hasher, entries, leaf, n, total - 1);
    }
}

/// A hash that fails makes the full root fail.
pub(crate) proof fn lemma_full_root_fails<F: PrimeField, H: FieldHasher<F, 2>>(
    hasher: &H,
    entries: Seq<SparsePathEntry<F>>,
    empties: Seq<F>,
    leaf: F,
    leaf_index: int,
    levels: int,
    total: int,
)
    requires
        levels <= total,
        full_root::<F, H>(hasher, entries, empties, leaf, leaf_index, levels) is Err,
    ensures
        full_root::<F, H>(hasher, entries, empties, leaf, leaf_index, total) == full_root::<F, H>(
            hasher,
            entries,
            empties,
            leaf,
            leaf_index,
            levels,
        ),
    decreases total - levels,
{
    if levels < total {
        lemma_full_root_fails::<F, H>(
            hasher,
            entries,
            empties,
            leaf,
            leaf_index,
            levels,
            total - 1,
        );
    }
}

} // verus!
