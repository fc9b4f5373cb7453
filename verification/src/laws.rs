//! What holds of trees and proofs together.
use std::collections::BTreeMap;
use vstd::arithmetic::power2::*;
use vstd::prelude::*;

use crate::batch;
use crate::chain;
use crate::compressed_smt;
use crate::compressed_smt::CompressedSMT;
use crate::field::PrimeField;
use crate::index;
use crate::membership;
use crate::model;
use crate::nodes;
use crate::path;
use crate::path::{Error, Path, SparsePath, SparsePathEntry};
use crate::fp::Fp;
use crate::poseidon;
use crate::poseidon::{FieldHasher, HashError, Poseidon};
use crate::poseidon2::Poseidon2;
use crate::smt;
use crate::smt::SparseMerkleTree;

verus! {

/// All hashes that a tree with these leaves and this height can need succeed.
pub open spec fn all_hashable<F: PrimeField, H: FieldHasher<F, 2>>(
    hasher: &H,
    leaves: Map<int, F>,
    empty_leaf: F,
    height: nat,
) -> bool {
    &&& model::hashable::<F, H>(hasher, leaves, empty_leaf, height)
    &&& smt::empties_hashable::<F, H>(hasher, empty_leaf, height)
}

/// With a hash function that does not fail, all hashes succeed.
pub proof fn law_total_hasher<F: PrimeField, H: FieldHasher<F, 2>>(
    hasher: &H,
    leaves: Map<int, F>,
    empty_leaf: F,
    height: nat,
)
    requires
        poseidon::total::<F, H>(hasher),
    ensures
        all_hashable::<F, H>(hasher, leaves, empty_leaf, height),
{
    assert forall|level: nat, pos: int| (#[trigger] model::subtree_hash::<F, H>(
        hasher,
        leaves,
        empty_leaf,
        level,
        pos,
    )) is Ok by {
        let left = model::subtree::<F, H>(
            hasher,
            leaves,
            empty_leaf,
            (level - 1) as nat,
            2 * pos,
        );
        let right = model::subtree::<F, H>(
            hasher,
            leaves,
            empty_leaf,
            (level - 1) as nat,
            2 * pos + 1,
        );
        assert(poseidon::pair_hash::<F, H>(hasher, left, right) is Ok);
    }
    assert forall|level: nat|
        (#[trigger] smt::empty_hash::<F, H>(hasher, empty_leaf, level)) is Ok by {
        let value = model::empty::<F, H>(hasher, empty_leaf, level);
        assert(poseidon::pair_hash::<F, H>(hasher, value, value) is Ok);
    }
}

/// The two hash functions of the library do not fail.
pub proof fn law_hashers_are_total(a: &Poseidon<Fp, 2>, b: &Poseidon2<Fp, 2>)
    ensures
        poseidon::total::<Fp, Poseidon<Fp, 2>>(a),
        poseidon::total::<Fp, Poseidon2<Fp, 2>>(b),
{
}

/// The leaf at `index`: the one that is set there, or the empty leaf.
pub open spec fn leaf_at<F>(leaves: Map<int, F>, empty_leaf: F, index: int) -> F {
    if leaves.contains_key(index) {
        leaves[index]
    } else {
        empty_leaf
    }
}

/// At least one leaf is set.
pub open spec fn has_leaf<F>(leaves: Map<int, F>) -> bool {
    exists|k: int| #[trigger] leaves.contains_key(k)
}

/// A tree with a leaf has a node on top.
proof fn lemma_top_occupied<F>(leaves: Map<int, F>, height: nat)
    requires
        model::in_range(leaves, height),
    ensures
        model::occupied(leaves, height, 0) <==> has_leaf(leaves),
{
    if has_leaf(leaves) {
        let k = choose|k: int| #[trigger] leaves.contains_key(k);
        lemma_top(k, height);
    }
}

/// The node above a leaf on the top level is at position 0.
proof fn lemma_top(leaf: int, height: nat)
    requires
        0 <= leaf < pow2(height),
    ensures
        index::above(leaf, height) == 0,
{
    index::lemma_above_range(leaf, height, height);
    lemma2_to64();
}

/// The root of a tree with at least one leaf is the value of the top node. The root of a
/// tree without leaves is the empty value of the level below the top.
pub proof fn law_root<F: PrimeField, H: FieldHasher<F, 2>, const N: usize>(
    tree: &SparseMerkleTree<F, H, N>,
    hasher: &H,
    empty_leaf: F,
    leaves: Map<int, F>,
)
    requires
        0 < N < 64,
        tree.holds(hasher, empty_leaf, leaves),
    ensures
        has_leaf(leaves) ==> tree.spec_root() == model::subtree::<F, H>(
            hasher,
            leaves,
            empty_leaf,
            N as nat,
            0,
        ),
        !has_leaf(leaves) ==> tree.spec_root() == model::empty::<F, H>(
            hasher,
            empty_leaf,
            (N - 1) as nat,
        ),
{
    let height = N as nat;
    lemma2_to64();
    lemma_top_occupied(leaves, height);
    assert(nodes::is_node(height, height, 0));
    assert(index::node_at(height, height, 0) == 0);
    assert(nodes::lookup(tree.nodes(), height, height, 0) == nodes::expected::<F, H>(
        hasher,
        leaves,
        empty_leaf,
        height,
        0,
    ));
}

/// Writing a batch to a tree that holds some leaves gives a tree that holds the leaves of
/// the batch and, where the batch has none, the leaves from before. It succeeds exactly
/// when the nodes above the batch can be hashed.
pub proof fn law_insert_batch<F: PrimeField, H: FieldHasher<F, 2>, const N: usize>(
    before: &SparseMerkleTree<F, H, N>,
    after: &SparseMerkleTree<F, H, N>,
    written: &BTreeMap<u32, F>,
    hasher: &H,
    empty_leaf: F,
    leaves: Map<int, F>,
)
    requires
        N < 64,
        before.holds(hasher, empty_leaf, leaves),
        model::in_range(model::widen_u32(written@), N as nat),
        after.empties() == before.empties(),
        after.nodes() == batch::rehashed::<F, H>(
            hasher,
            before.nodes(),
            before.empties(),
            N as nat,
            written@,
            N as nat,
        ),
    ensures
        after.holds(hasher, empty_leaf, nodes::updated(leaves, written@)),
        batch::batch_hashable::<F, H>(
            hasher,
            before.nodes(),
            before.empties(),
            N as nat,
            written@,
            N as nat,
        ) <==> nodes::touched_hashable::<F, H>(hasher, empty_leaf, leaves, written@, N as nat),
{
    nodes::lemma_batch_represents::<F, H>(
        hasher,
        before.nodes(),
        N as nat,
        empty_leaf,
        leaves,
        written@,
    );
}

/// Making a tree succeeds exactly when the empty values and the nodes above the leaves can
/// be hashed.
pub proof fn law_new_succeeds<F: PrimeField, H: FieldHasher<F, 2>, const N: usize>(
    hasher: &H,
    empty_leaf: F,
    leaves: &BTreeMap<u32, F>,
)
    requires
        N < 64,
        model::in_range(model::widen_u32(leaves@), N as nat),
    ensures
        batch::batch_hashable::<F, H>(
            hasher,
            Map::empty(),
            nodes::empties::<F, H>(hasher, empty_leaf, N as nat),
            N as nat,
            leaves@,
            N as nat,
        ) <==> model::hashable::<F, H>(
            hasher,
            model::widen_u32(leaves@),
            empty_leaf,
            N as nat,
        ),
{
    nodes::lemma_empty_represents::<F, H>(hasher, N as nat, empty_leaf);
    nodes::lemma_batch_represents::<F, H>(
        hasher,
        Map::empty(),
        N as nat,
        empty_leaf,
        Map::empty(),
        leaves@,
    );
    assert(nodes::updated(Map::<int, F>::empty(), leaves@) =~= model::widen_u32(leaves@));
}

/// The leaves determine the nodes and the root: in which order and in how many batches
/// they were written does not matter.
pub proof fn law_leaves_determine_tree<F: PrimeField, H: FieldHasher<F, 2>, const N: usize>(
    a: &SparseMerkleTree<F, H, N>,
    b: &SparseMerkleTree<F, H, N>,
    hasher: &H,
    empty_leaf: F,
    leaves: Map<int, F>,
)
    requires
        N < 64,
        a.holds(hasher, empty_leaf, leaves),
        b.holds(hasher, empty_leaf, leaves),
    ensures
        a.nodes() == b.nodes(),
        a.empties() == b.empties(),
        a.spec_root() == b.spec_root(),
{
    nodes::lemma_represents_unique::<F, H>(
        hasher,
        a.nodes(),
        b.nodes(),
        N as nat,
        empty_leaf,
        leaves,
    );
}

/// The path of a tree has the pairs of the model.
pub(crate) proof fn lemma_path_pairs<F: PrimeField, H: FieldHasher<F, 2>, const N: usize>(
    tree: &SparseMerkleTree<F, H, N>,
    path: &Path<F, H, N>,
    hasher: &H,
    empty_leaf: F,
    leaves: Map<int, F>,
    index: u64,
)
    requires
        index < pow2(N as nat),
        tree.holds(hasher, empty_leaf, leaves),
        tree.is_path(index, path),
    ensures
        forall|l: int|
            0 <= l < N ==> #[trigger] path.path@[l] == membership::pair_of::<F, H>(
                hasher,
                leaves,
                empty_leaf,
                index as int,
                l as nat,
            ),
{
    assert forall|l: int| 0 <= l < N implies #[trigger] path.path@[l] == membership::pair_of::<
        F,
        H,
    >(hasher, leaves, empty_leaf, index as int, l as nat) by {
        membership::lemma_pair_at::<F, H>(
            hasher,
            tree.nodes(),
            N as nat,
            empty_leaf,
            leaves,
            index as int,
            l as nat,
        );
    }
}

/// Pairs of the model, over the whole height, lead from the leaf to the top node.
proof fn lemma_pairs_verify<F: PrimeField, H: FieldHasher<F, 2>>(
    hasher: &H,
    empty_leaf: F,
    leaves: Map<int, F>,
    leaf: int,
    pairs: Seq<(F, F)>,
)
    requires
        pairs.len() > 0,
        0 <= leaf < pow2(pairs.len()),
        model::in_range(leaves, pairs.len()),
        all_hashable::<F, H>(hasher, leaves, empty_leaf, pairs.len()),
        forall|l: int|
            0 <= l < pairs.len() ==> #[trigger] pairs[l] == membership::pair_of::<F, H>(
                hasher,
                leaves,
                empty_leaf,
                leaf,
                l as nat,
            ),
    ensures
        path::root_of::<F, H>(hasher, pairs, leaf_at(leaves, empty_leaf, leaf)) == Ok::<F, Error>(
            model::subtree::<F, H>(hasher, leaves, empty_leaf, pairs.len(), 0),
        ),
{
    membership::lemma_way_hashable::<F, H>(hasher, leaves, empty_leaf, pairs.len(), leaf);
    membership::lemma_path_root::<F, H>(hasher, leaves, empty_leaf, leaf, pairs, 0);
    index::lemma_above_base(leaf);
    lemma_top(leaf, pairs.len());
    chain::lemma_sibling_pos(leaf, 0);
    assert(pairs[0] == membership::pair_of::<F, H>(hasher, leaves, empty_leaf, leaf, 0));
}

/// The membership proof of any leaf leads to the root of the tree: for a leaf that is set
/// from its value, and for one that is not set from the empty leaf. The tree has at least
/// one leaf.
pub proof fn law_membership_proof<F: PrimeField, H: FieldHasher<F, 2>, const N: usize>(
    tree: &SparseMerkleTree<F, H, N>,
    path: &Path<F, H, N>,
    hasher: &H,
    empty_leaf: F,
    leaves: Map<int, F>,
    index: u64,
)
    requires
        0 < N < 64,
        index < pow2(N as nat),
        tree.holds(hasher, empty_leaf, leaves),
        all_hashable::<F, H>(hasher, leaves, empty_leaf, N as nat),
        has_leaf(leaves),
        tree.is_path(index, path),
    ensures
        path::root_of::<F, H>(
            hasher,
            path.path@,
            leaf_at(leaves, empty_leaf, index as int),
        ) == Ok::<F, Error>(tree.spec_root()),
{
    law_root(tree, hasher, empty_leaf, leaves);
    lemma_path_pairs(tree, path, hasher, empty_leaf, leaves, index);
    lemma_pairs_verify::<F, H>(hasher, empty_leaf, leaves, index as int, path.path@);
}

/// The index that a membership proof gives is that of its leaf, if no pair that the way
/// passes on the right side has two equal nodes.
pub proof fn law_membership_index<F: PrimeField, H: FieldHasher<F, 2>, const N: usize>(
    tree: &SparseMerkleTree<F, H, N>,
    path: &Path<F, H, N>,
    hasher: &H,
    empty_leaf: F,
    leaves: Map<int, F>,
    index: u64,
)
    requires
        N < 64,
        index < pow2(N as nat),
        tree.holds(hasher, empty_leaf, leaves),
        tree.is_path(index, path),
        forall|level: int|
            0 <= level < N && index::above(index as int, level as nat) % 2 == 1
                ==> (#[trigger] path.path@[level]).0 != path.path@[level].1,
    ensures
        path::path_index::<F, H>(
            hasher,
            path.path@,
            leaf_at(leaves, empty_leaf, index as int),
            N as int,
        ) == index,
{
    lemma_path_pairs(tree, path, hasher, empty_leaf, leaves, index);
    membership::lemma_path_index::<F, H>(
        hasher,
        leaves,
        empty_leaf,
        index as int,
        path.path@,
        N as nat,
    );
    vstd::arithmetic::div_mod::lemma_small_mod(index as nat, pow2(N as nat));
}

/// The entries of the model lead from the leaf to the top node, and every level on the way
/// has its sibling.
proof fn lemma_entries_verify<F: PrimeField, H: FieldHasher<F, 2>>(
    sparse: &SparsePath<F, H>,
    hasher: &H,
    empty_leaf: F,
    leaves: Map<int, F>,
    index: u64,
)
    requires
        sparse.tree_height <= 64,
        index < pow2(sparse.tree_height as nat),
        model::in_range(leaves, sparse.tree_height as nat),
        all_hashable::<F, H>(hasher, leaves, empty_leaf, sparse.tree_height as nat),
        sparse.entries@ == membership::entries_of::<F, H>(
            hasher,
            leaves,
            empty_leaf,
            sparse.tree_height as nat,
            index as int,
            sparse.tree_height as nat,
        ),
        sparse.empty_hashes@ == nodes::empties::<F, H>(
            hasher,
            empty_leaf,
            sparse.tree_height as nat,
        ),
    ensures
        sparse.covers_levels(leaf_at(leaves, empty_leaf, index as int), hasher, index),
        path::full_root::<F, H>(
            hasher,
            sparse.entries@,
            sparse.empty_hashes@,
            leaf_at(leaves, empty_leaf, index as int),
            index as int,
            sparse.tree_height as int,
        ) == Ok::<F, HashError>(
            model::subtree::<F, H>(hasher, leaves, empty_leaf, sparse.tree_height as nat, 0),
        ),
{
    let height = sparse.tree_height as nat;
    membership::lemma_way_hashable::<F, H>(hasher, leaves, empty_leaf, height, index as int);
    membership::lemma_full_root::<F, H>(hasher, leaves, empty_leaf, height, index as int, height);
    lemma_top(index as int, height);
}

/// The sparse proof of any leaf leads to the root of the tree, through all levels: for a
/// leaf that is set from its value, and for one that is not set from the empty leaf. The
/// tree has at least one leaf.
pub proof fn law_sparse_proof<F: PrimeField, H: FieldHasher<F, 2>, const N: usize>(
    tree: &SparseMerkleTree<F, H, N>,
    sparse: &SparsePath<F, H>,
    hasher: &H,
    empty_leaf: F,
    leaves: Map<int, F>,
    index: u64,
)
    requires
        0 < N < 64,
        index < pow2(N as nat),
        tree.holds(hasher, empty_leaf, leaves),
        all_hashable::<F, H>(hasher, leaves, empty_leaf, N as nat),
        has_leaf(leaves),
        tree.is_sparse_path(index, sparse),
    ensures
        sparse.covers_levels(leaf_at(leaves, empty_leaf, index as int), hasher, index),
        path::full_root::<F, H>(
            hasher,
            sparse.entries@,
            sparse.empty_hashes@,
            leaf_at(leaves, empty_leaf, index as int),
            index as int,
            sparse.tree_height as int,
        ) == Ok::<F, HashError>(tree.spec_root()),
{
    law_root(tree, hasher, empty_leaf, leaves);
    membership::lemma_sparse_entries::<F, H>(
        hasher,
        tree.nodes(),
        N as nat,
        empty_leaf,
        leaves,
        index as int,
        N as nat,
    );
    lemma_entries_verify(sparse, hasher, empty_leaf, leaves, index);
}

/// While the entries of a sparse path lie on the lowest levels, the cursor is on the level.
proof fn lemma_low_entries<F: PrimeField, H: FieldHasher<F, 2>>(
    hasher: &H,
    entries: Seq<SparsePathEntry<F>>,
    empties: Seq<F>,
    leaf: F,
    index: int,
    levels: nat,
)
    requires
        levels <= entries.len(),
        forall|j: int|
            0 <= j < entries.len() ==> (#[trigger] entries[j]).level == j
                && entries[j].direction_bit == chain::on_right(index, j as nat),
    ensures
        path::cursor_at(entries, levels as int) == levels,
        path::full_root::<F, H>(hasher, entries, empties, leaf, index, levels as int)
            == path::compact_root::<F, H>(hasher, entries, leaf, levels as int),
    decreases levels,
{
    if levels > 0 {
        lemma_low_entries::<F, H>(hasher, entries, empties, leaf, index, (levels - 1) as nat);
        assert(entries[levels - 1].level == levels - 1);
    }
}

/// A sparse path whose entries lie on the lowest levels: the root of the tree is the compact
/// root hashed on, through the levels above the entries, with their empty values.
pub proof fn law_compact_root_leads_on<F: PrimeField, H: FieldHasher<F, 2>>(
    hasher: &H,
    entries: Seq<SparsePathEntry<F>>,
    empties: Seq<F>,
    leaf: F,
    index: int,
    levels: nat,
)
    requires
        entries.len() <= levels,
        forall|j: int|
            0 <= j < entries.len() ==> (#[trigger] entries[j]).level == j
                && entries[j].direction_bit == chain::on_right(index, j as nat),
    ensures
        path::full_root::<F, H>(hasher, entries, empties, leaf, index, levels as int)
            == match path::compact_root::<F, H>(hasher, entries, leaf, entries.len() as int) {
            Ok(compact) => chain::rise::<F, H>(
                hasher,
                empties,
                index,
                compact,
                entries.len(),
                levels,
            ),
            Err(e) => Err(e),
        },
        path::cursor_at(entries, levels as int) == entries.len(),
    decreases levels,
{
    if levels == entries.len() {
        lemma_low_entries::<F, H>(hasher, entries, empties, leaf, index, levels);
    } else {
        law_compact_root_leads_on::<F, H>(
            hasher,
            entries,
            empties,
            leaf,
            index,
            (levels - 1) as nat,
        );
    }
}

/// The entries of a sparse proof are on ascending levels below the height, at most one on
/// each, and they are exactly the siblings that are not the empty value of their level.
pub proof fn law_sparse_entries<F: PrimeField, H: FieldHasher<F, 2>, const N: usize>(
    tree: &SparseMerkleTree<F, H, N>,
    sparse: &SparsePath<F, H>,
    hasher: &H,
    empty_leaf: F,
    leaves: Map<int, F>,
    index: u64,
)
    requires
        N < 64,
        index < pow2(N as nat),
        tree.holds(hasher, empty_leaf, leaves),
        tree.is_sparse_path(index, sparse),
    ensures
        sparse.entries@.len() <= N,
        forall|i: int, j: int|
            0 <= i < j < sparse.entries@.len() ==> sparse.entries@[i].level
                < sparse.entries@[j].level,
        forall|i: int| 0 <= i < sparse.entries@.len() ==> (#[trigger] sparse.entries@[i]).level < N,
        forall|level: nat|
            level < N ==> #[trigger] path::sibling_at(
                sparse.entries@,
                sparse.empty_hashes@,
                level as int,
            ) == membership::sibling_of::<F, H>(
                hasher,
                leaves,
                empty_leaf,
                index as int,
                level,
            ),
{
    let height = N as nat;
    membership::lemma_sparse_entries::<F, H>(
        hasher,
        tree.nodes(),
        height,
        empty_leaf,
        leaves,
        index as int,
        height,
    );
    membership::lemma_entries_prefix::<F, H>(
        hasher,
        leaves,
        empty_leaf,
        height,
        index as int,
        0,
        height,
    );
    assert forall|level: nat| level < N implies #[trigger] path::sibling_at(
        sparse.entries@,
        sparse.empty_hashes@,
        level as int,
    ) == membership::sibling_of::<F, H>(hasher, leaves, empty_leaf, index as int, level) by {
        membership::lemma_sibling_at::<F, H>(
            hasher,
            leaves,
            empty_leaf,
            height,
            index as int,
            level,
        );
    }
}

/// The pair on `level` of a path is not that of the children of the node at `pos` one level
/// up, but has the same hash.
pub open spec fn collides<F: PrimeField, H: FieldHasher<F, 2>>(
    hasher: &H,
    leaves: Map<int, F>,
    empty_leaf: F,
    pair: (F, F),
    level: nat,
    pos: int,
) -> bool {
    &&& pair != (
        model::subtree::<F, H>(hasher, leaves, empty_leaf, level, 2 * pos),
        model::subtree::<F, H>(hasher, leaves, empty_leaf, level, 2 * pos + 1),
    )
    &&& poseidon::pair_hash::<F, H>(hasher, pair.0, pair.1) is Ok
    &&& poseidon::pair_hash::<F, H>(hasher, pair.0, pair.1) == model::subtree_hash::<F, H>(
        hasher,
        leaves,
        empty_leaf,
        level + 1,
        pos,
    )
}

/// One of the pairs of a path collides with a pair of the tree.
pub open spec fn path_collides<F: PrimeField, H: FieldHasher<F, 2>>(
    hasher: &H,
    leaves: Map<int, F>,
    empty_leaf: F,
    pairs: Seq<(F, F)>,
) -> bool {
    exists|level: nat, pos: int|
        level < pairs.len() && #[trigger] collides::<F, H>(
            hasher,
            leaves,
            empty_leaf,
            pairs[level as int],
            level,
            pos,
        )
}

/// On its way up a path passes nodes of the tree, or one of its pairs collides.
proof fn lemma_path_nodes<F: PrimeField, H: FieldHasher<F, 2>>(
    hasher: &H,
    empty_leaf: F,
    leaves: Map<int, F>,
    pairs: Seq<(F, F)>,
    leaf: F,
    level: nat,
) -> (pos: int)
    requires
        model::in_range(leaves, pairs.len()),
        all_hashable::<F, H>(hasher, leaves, empty_leaf, pairs.len()),
        level <= pairs.len(),
        path::path_root::<F, H>(hasher, pairs, leaf, 0) == Ok::<F, Error>(
            model::subtree::<F, H>(hasher, leaves, empty_leaf, pairs.len(), 0),
        ),
        !path_collides::<F, H>(hasher, leaves, empty_leaf, pairs),
    ensures
        0 <= pos < pow2((pairs.len() - level) as nat),
        path::path_node::<F, H>(hasher, pairs, leaf, level as int) == model::subtree::<F, H>(
            hasher,
            leaves,
            empty_leaf,
            level,
            pos,
        ),
    decreases pairs.len() - level,
{
    lemma_path_root_nodes::<F, H>(hasher, pairs, leaf, level as int);
    if level == pairs.len() {
        lemma2_to64();
        0
    } else {
        let parent = lemma_path_nodes::<F, H>(
            hasher,
            empty_leaf,
            leaves,
            pairs,
            leaf,
            level + 1,
        );
        let pair = pairs[level as int];
        lemma_pow2_unfold((pairs.len() - level) as nat);
        lemma_subtree_hashable::<F, H>(
            hasher,
            leaves,
            empty_leaf,
            pairs.len(),
            level + 1,
            parent,
        );
        assert(!collides::<F, H>(hasher, leaves, empty_leaf, pair, level, parent));
        if path::path_node::<F, H>(hasher, pairs, leaf, level as int) == pair.0 {
            2 * parent
        } else {
            2 * parent + 1
        }
    }
}

/// Where a path has a root, on every level the node is one of the pair and the pair has a
/// hash, and the rest of the path has that root.
proof fn lemma_path_root_nodes<F: PrimeField, H: FieldHasher<F, 2>>(
    hasher: &H,
    pairs: Seq<(F, F)>,
    leaf: F,
    level: int,
)
    requires
        0 <= level <= pairs.len(),
        path::path_root::<F, H>(hasher, pairs, leaf, 0) is Ok,
    ensures
        path::path_root::<F, H>(
            hasher,
            pairs,
            path::path_node::<F, H>(hasher, pairs, leaf, level),
            level,
        ) == path::path_root::<F, H>(hasher, pairs, leaf, 0),
    decreases level,
{
    if level > 0 {
        lemma_path_root_nodes::<F, H>(hasher, pairs, leaf, level - 1);
    }
}

/// Every node of a tree can be hashed, if those above leaves and the empty values can.
proof fn lemma_subtree_hashable<F: PrimeField, H: FieldHasher<F, 2>>(
    hasher: &H,
    leaves: Map<int, F>,
    empty_leaf: F,
    height: nat,
    level: nat,
    pos: int,
)
    requires
        model::non_negative(leaves),
        all_hashable::<F, H>(hasher, leaves, empty_leaf, height),
        1 <= level <= height,
    ensures
        model::subtree_hash::<F, H>(hasher, leaves, empty_leaf, level, pos) is Ok,
{
    let below = (level - 1) as nat;
    if !model::occupied(leaves, level, pos) {
        model::lemma_occupied_children(leaves, below, pos);
        model::lemma_vacant::<F, H>(hasher, leaves, empty_leaf, below, 2 * pos);
        model::lemma_vacant::<F, H>(hasher, leaves, empty_leaf, below, 2 * pos + 1);
        assert(smt::empty_hash::<F, H>(hasher, empty_leaf, below) is Ok);
    }
}

/// Whatever path is presented: if it leads from a leaf to the root of the tree, the leaf is
/// one of the tree's, or a pair of the path collides with a pair of the tree under the hash.
pub proof fn law_membership_sound<F: PrimeField, H: FieldHasher<F, 2>, const N: usize>(
    tree: &SparseMerkleTree<F, H, N>,
    path: &Path<F, H, N>,
    hasher: &H,
    empty_leaf: F,
    leaves: Map<int, F>,
    leaf: F,
)
    requires
        0 < N < 64,
        tree.holds(hasher, empty_leaf, leaves),
        all_hashable::<F, H>(hasher, leaves, empty_leaf, N as nat),
        has_leaf(leaves),
        path::root_of::<F, H>(hasher, path.path@, leaf) == Ok::<F, Error>(tree.spec_root()),
    ensures
        path_collides::<F, H>(hasher, leaves, empty_leaf, path.path@) || exists|index: int|
            0 <= index < pow2(N as nat) && leaf == #[trigger] leaf_at(leaves, empty_leaf, index),
{
    law_root(tree, hasher, empty_leaf, leaves);
    if !path_collides::<F, H>(hasher, leaves, empty_leaf, path.path@) {
        let index = lemma_path_nodes::<F, H>(
            hasher,
            empty_leaf,
            leaves,
            path.path@,
            leaf,
            0,
        );
        assert(leaf == leaf_at(leaves, empty_leaf, index));
    }
}

/// The pair that a sparse path gives for `level`: the node it has reached from the leaf and
/// the sibling, the left one first.
pub open spec fn sparse_pair<F: PrimeField, H: FieldHasher<F, 2>>(
    hasher: &H,
    sparse: &SparsePath<F, H>,
    leaf: F,
    index: int,
    level: int,
) -> (F, F) {
    chain::sides(
        chain::on_right(index, level as nat),
        path::full_root::<F, H>(
            hasher,
            sparse.entries@,
            sparse.empty_hashes@,
            leaf,
            index,
            level,
        )->Ok_0,
        path::sibling_at(sparse.entries@, sparse.empty_hashes@, level),
    )
}

/// One of the pairs of a sparse path collides with a pair of the tree.
pub open spec fn sparse_path_collides<F: PrimeField, H: FieldHasher<F, 2>>(
    hasher: &H,
    leaves: Map<int, F>,
    empty_leaf: F,
    sparse: &SparsePath<F, H>,
    leaf: F,
    index: int,
) -> bool {
    exists|level: nat|
        level < sparse.tree_height && #[trigger] collides::<F, H>(
            hasher,
            leaves,
            empty_leaf,
            sparse_pair::<F, H>(hasher, sparse, leaf, index, level as int),
            level,
            index::above(index, level + 1),
        )
}

/// On its way up a sparse path passes the nodes above its index, or one of its pairs collides.
proof fn lemma_sparse_path_nodes<F: PrimeField, H: FieldHasher<F, 2>>(
    hasher: &H,
    empty_leaf: F,
    leaves: Map<int, F>,
    sparse: &SparsePath<F, H>,
    leaf: F,
    index: int,
    level: nat,
)
    requires
        0 <= index < pow2(sparse.tree_height as nat),
        model::in_range(leaves, sparse.tree_height as nat),
        all_hashable::<F, H>(hasher, leaves, empty_leaf, sparse.tree_height as nat),
        level <= sparse.tree_height,
        path::full_root::<F, H>(
            hasher,
            sparse.entries@,
            sparse.empty_hashes@,
            leaf,
            index,
            sparse.tree_height as int,
        ) == Ok::<F, HashError>(
            model::subtree::<F, H>(hasher, leaves, empty_leaf, sparse.tree_height as nat, 0),
        ),
        !sparse_path_collides::<F, H>(hasher, leaves, empty_leaf, sparse, leaf, index),
    ensures
        path::full_root::<F, H>(
            hasher,
            sparse.entries@,
            sparse.empty_hashes@,
            leaf,
            index,
            level as int,
        ) == Ok::<F, HashError>(
            model::subtree::<F, H>(hasher, leaves, empty_leaf, level, index::above(index, level)),
        ),
    decreases sparse.tree_height - level,
{
    if level == sparse.tree_height {
        lemma_top(index, level);
    } else {
        let up = level + 1;
        lemma_sparse_path_nodes::<F, H>(hasher, empty_leaf, leaves, sparse, leaf, index, up);
        lemma_subtree_hashable::<F, H>(
            hasher,
            leaves,
            empty_leaf,
            sparse.tree_height as nat,
            up,
            index::above(index, up),
        );
        let pair = sparse_pair::<F, H>(hasher, sparse, leaf, index, level as int);
        assert(!collides::<F, H>(
            hasher,
            leaves,
            empty_leaf,
            pair,
            level,
            index::above(index, up),
        ));
        chain::lemma_sibling_pos(index, level);
    }
}

/// Whatever sparse path is presented for an index: if it leads from a leaf to the root of the
/// tree, the leaf is the tree's leaf at that index, or a pair of the path collides with a
/// pair of the tree under the hash.
pub proof fn law_sparse_sound<F: PrimeField, H: FieldHasher<F, 2>, const N: usize>(
    tree: &SparseMerkleTree<F, H, N>,
    sparse: &SparsePath<F, H>,
    hasher: &H,
    empty_leaf: F,
    leaves: Map<int, F>,
    leaf: F,
    index: u64,
)
    requires
        0 < N < 64,
        index < pow2(N as nat),
        tree.holds(hasher, empty_leaf, leaves),
        all_hashable::<F, H>(hasher, leaves, empty_leaf, N as nat),
        has_leaf(leaves),
        sparse.tree_height == N,
        path::full_root::<F, H>(
            hasher,
            sparse.entries@,
            sparse.empty_hashes@,
            leaf,
            index as int,
            N as int,
        ) == Ok::<F, HashError>(tree.spec_root()),
    ensures
        sparse_path_collides::<F, H>(hasher, leaves, empty_leaf, sparse, leaf, index as int)
            || leaf == leaf_at(leaves, empty_leaf, index as int),
{
    law_root(tree, hasher, empty_leaf, leaves);
    index::lemma_above_base(index as int);
    if !sparse_path_collides::<F, H>(hasher, leaves, empty_leaf, sparse, leaf, index as int) {
        lemma_sparse_path_nodes::<F, H>(
            hasher,
            empty_leaf,
            leaves,
            sparse,
            leaf,
            index as int,
            0,
        );
    }
}

/// Two batches one after the other give the tree that their union, where the second batch
/// counts for leaves in both, gives at once.
pub proof fn law_batches_combine<F: PrimeField, H: FieldHasher<F, 2>, const N: usize>(
    after_both: &SparseMerkleTree<F, H, N>,
    after_union: &SparseMerkleTree<F, H, N>,
    first: &BTreeMap<u32, F>,
    second: &BTreeMap<u32, F>,
    hasher: &H,
    empty_leaf: F,
    leaves: Map<int, F>,
)
    requires
        N < 64,
        after_both.holds(
            hasher,
            empty_leaf,
            nodes::updated(nodes::updated(leaves, first@), second@),
        ),
        after_union.holds(
            hasher,
            empty_leaf,
            nodes::updated(leaves, first@.union_prefer_right(second@)),
        ),
    ensures
        after_both.nodes() == after_union.nodes(),
        after_both.spec_root() == after_union.spec_root(),
{
    let both = nodes::updated(nodes::updated(leaves, first@), second@);
    let union = nodes::updated(leaves, first@.union_prefer_right(second@));
    assert(both =~= union);
    law_leaves_determine_tree(after_both, after_union, hasher, empty_leaf, both);
}

/// What can be hashed in the tree can be hashed below its top node.
proof fn lemma_top_hashable<F: PrimeField, H: FieldHasher<F, 2>>(
    hasher: &H,
    leaves: Map<int, F>,
    empty_leaf: F,
    height: nat,
)
    requires
        model::hashable::<F, H>(hasher, leaves, empty_leaf, height),
    ensures
        compressed_smt::hashable_in::<F, H>(hasher, leaves, empty_leaf, height, 0),
{
    assert forall|k: int, l: nat|
        compressed_smt::is_below(leaves, height, 0, k) && 1 <= l
            <= height implies model::subtree_hash::<F, H>(
        hasher,
        leaves,
        empty_leaf,
        l,
        #[trigger] index::above(k, l),
    ) is Ok by {
        assert(model::occupied(leaves, l, index::above(k, l)));
    }
}

/// A compressed tree has the root that a tree with the same leaves has.
pub proof fn law_compressed_root<F: PrimeField, H: FieldHasher<F, 2>, const N: usize>(
    compressed: &CompressedSMT<F, H, N>,
    tree: &SparseMerkleTree<F, H, N>,
    hasher: &H,
    empty_leaf: F,
    leaves: Map<int, F>,
)
    requires
        0 < N < 64,
        compressed.holds(hasher, empty_leaf, leaves),
        tree.holds(hasher, empty_leaf, leaves),
    ensures
        compressed.spec_root() == tree.spec_root(),
{
    law_root(tree, hasher, empty_leaf, leaves);
    lemma_compressed_root(compressed, hasher, empty_leaf, leaves);
}

/// The root of a compressed tree with at least one leaf is the value of the top node.
proof fn lemma_compressed_root<F: PrimeField, H: FieldHasher<F, 2>, const N: usize>(
    compressed: &CompressedSMT<F, H, N>,
    hasher: &H,
    empty_leaf: F,
    leaves: Map<int, F>,
)
    requires
        compressed.holds(hasher, empty_leaf, leaves),
    ensures
        has_leaf(leaves) <==> !(compressed.spec_root_node() is Zero),
        has_leaf(leaves) ==> compressed.spec_root() == model::subtree::<F, H>(
            hasher,
            leaves,
            empty_leaf,
            N as nat,
            0,
        ),
{
    lemma_top_occupied(leaves, N as nat);
    let node = compressed.spec_root_node();
    if node is Multi {
        let k = choose|a: int, b: int, c: int|
            #![trigger compressed_smt::is_below(leaves, N as nat, 0, a), compressed_smt::is_below(leaves, N as nat, 0, b), compressed_smt::is_below(leaves, N as nat, 0, c)]
            a < b < c && compressed_smt::is_below(leaves, N as nat, 0, a)
                && compressed_smt::is_below(leaves, N as nat, 0, b) && compressed_smt::is_below(
                leaves,
                N as nat,
                0,
                c,
            );
        assert(leaves.contains_key(k.0));
    }
}

/// A compressed tree can prove exactly the leaves that are set, where the hashes succeed
/// and the default hasher gives the hashes that the tree was built with.
pub proof fn law_compressed_can_prove<F: PrimeField, H: FieldHasher<F, 2>, const N: usize>(
    compressed: &CompressedSMT<F, H, N>,
    hasher: &H,
    empty_leaf: F,
    leaves: Map<int, F>,
    index: u64,
)
    requires
        index < pow2(N as nat),
        compressed.holds(hasher, empty_leaf, leaves),
        model::hashable::<F, H>(hasher, leaves, empty_leaf, N as nat),
        membership::same_hash::<F, H>(&H::spec_hasher(), hasher),
    ensures
        compressed.can_prove(index) <==> leaves.contains_key(index as int),
        compressed.can_prove_sparsely(index) <==> leaves.contains_key(index as int),
{
    lemma_compressed_proofs(compressed, hasher, empty_leaf, leaves, index);
}

/// The proofs of a compressed tree are those of the model.
proof fn lemma_compressed_proofs<F: PrimeField, H: FieldHasher<F, 2>, const N: usize>(
    compressed: &CompressedSMT<F, H, N>,
    hasher: &H,
    empty_leaf: F,
    leaves: Map<int, F>,
    index: u64,
)
    requires
        index < pow2(N as nat),
        compressed.holds(hasher, empty_leaf, leaves),
        model::hashable::<F, H>(hasher, leaves, empty_leaf, N as nat),
        membership::same_hash::<F, H>(&H::spec_hasher(), hasher),
    ensures
        compressed.can_prove(index) <==> leaves.contains_key(index as int),
        compressed.can_prove_sparsely(index) <==> leaves.contains_key(index as int),
        leaves.contains_key(index as int) ==> forall|at: nat|
            at < N ==> #[trigger] compressed.spec_root_node().pair_in::<H>(
                &H::spec_hasher(),
                compressed.empties(),
                index,
                N as nat,
                at,
            ) == membership::pair_of::<F, H>(hasher, leaves, empty_leaf, index as int, at),
        leaves.contains_key(index as int) ==> compressed.spec_root_node().entries_in::<H>(
            &H::spec_hasher(),
            compressed.empties(),
            index,
            N as nat,
        ) == membership::entries_of::<F, H>(
            hasher,
            leaves,
            empty_leaf,
            N as nat,
            index as int,
            N as nat,
        ),
{
    let height = N as nat;
    let node = compressed.spec_root_node();
    let default = &H::spec_hasher();
    lemma_top(index as int, height);
    membership::lemma_node_contains::<F, H>(node, hasher, leaves, empty_leaf, height, 0, index);
    membership::lemma_same_proofs::<F, H>(
        node,
        default,
        hasher,
        compressed.empties(),
        index,
        height,
    );
    if leaves.contains_key(index as int) {
        lemma_top_hashable::<F, H>(hasher, leaves, empty_leaf, height);
        membership::lemma_node_proofs::<F, H>(
            node,
            hasher,
            leaves,
            empty_leaf,
            height,
            height,
            0,
            index,
        );
        assert forall|at: nat| at < N implies #[trigger] node.pair_in::<H>(
            default,
            compressed.empties(),
            index,
            height,
            at,
        ) == membership::pair_of::<F, H>(hasher, leaves, empty_leaf, index as int, at) by {
            assert(node.pair_in::<H>(hasher, compressed.empties(), index, height, at)
                == membership::pair_of::<F, H>(hasher, leaves, empty_leaf, index as int, at));
        }
    }
}

/// For a leaf that is set, a compressed tree gives the membership proof that a tree with
/// the same leaves gives.
pub proof fn law_compressed_membership_proof<F: PrimeField, H: FieldHasher<F, 2>, const N: usize>(
    compressed: &CompressedSMT<F, H, N>,
    tree: &SparseMerkleTree<F, H, N>,
    compressed_path: &Path<F, H, N>,
    path: &Path<F, H, N>,
    hasher: &H,
    empty_leaf: F,
    leaves: Map<int, F>,
    index: u64,
)
    requires
        N < 64,
        compressed.holds(hasher, empty_leaf, leaves),
        tree.holds(hasher, empty_leaf, leaves),
        model::hashable::<F, H>(hasher, leaves, empty_leaf, N as nat),
        membership::same_hash::<F, H>(&H::spec_hasher(), hasher),
        leaves.contains_key(index as int),
        compressed.is_path(index, compressed_path),
        tree.is_path(index, path),
    ensures
        compressed_path.path@ == path.path@,
        compressed_path.direction_bits@ == path.direction_bits@,
{
    lemma_compressed_proofs(compressed, hasher, empty_leaf, leaves, index);
    lemma_path_pairs(tree, path, hasher, empty_leaf, leaves, index);
    assert forall|l: int| 0 <= l < N implies compressed_path.path@[l] == path.path@[l] by {
        assert(compressed.spec_root_node().pair_in::<H>(
            &H::spec_hasher(),
            compressed.empties(),
            index,
            N as nat,
            l as nat,
        ) == membership::pair_of::<F, H>(hasher, leaves, empty_leaf, index as int, l as nat));
    }
    assert(compressed_path.path@ =~= path.path@);
    assert(compressed_path.direction_bits@ =~= path.direction_bits@);
}

/// For a leaf that is set, a compressed tree gives the sparse proof that a tree with the
/// same leaves gives.
pub proof fn law_compressed_sparse_proof<F: PrimeField, H: FieldHasher<F, 2>, const N: usize>(
    compressed: &CompressedSMT<F, H, N>,
    tree: &SparseMerkleTree<F, H, N>,
    compressed_path: &SparsePath<F, H>,
    path: &SparsePath<F, H>,
    hasher: &H,
    empty_leaf: F,
    leaves: Map<int, F>,
    index: u64,
)
    requires
        N < 64,
        compressed.holds(hasher, empty_leaf, leaves),
        tree.holds(hasher, empty_leaf, leaves),
        model::hashable::<F, H>(hasher, leaves, empty_leaf, N as nat),
        membership::same_hash::<F, H>(&H::spec_hasher(), hasher),
        leaves.contains_key(index as int),
        compressed.is_sparse_path(index, compressed_path),
        tree.is_sparse_path(index, path),
    ensures
        compressed_path.entries@ == path.entries@,
        compressed_path.tree_height == path.tree_height,
        compressed_path.empty_hashes@ == path.empty_hashes@,
{
    lemma_compressed_proofs(compressed, hasher, empty_leaf, leaves, index);
    membership::lemma_sparse_entries::<F, H>(
        hasher,
        tree.nodes(),
        N as nat,
        empty_leaf,
        leaves,
        index as int,
        N as nat,
    );
}

/// Both proofs of a compressed tree lead from a leaf that is set to its root.
pub proof fn law_compressed_proofs_verify<F: PrimeField, H: FieldHasher<F, 2>, const N: usize>(
    compressed: &CompressedSMT<F, H, N>,
    path: &Path<F, H, N>,
    sparse: &SparsePath<F, H>,
    hasher: &H,
    empty_leaf: F,
    leaves: Map<int, F>,
    index: u64,
)
    requires
        0 < N <= 64,
        compressed.holds(hasher, empty_leaf, leaves),
        all_hashable::<F, H>(hasher, leaves, empty_leaf, N as nat),
        membership::same_hash::<F, H>(&H::spec_hasher(), hasher),
        leaves.contains_key(index as int),
        compressed.is_path(index, path),
        compressed.is_sparse_path(index, sparse),
    ensures
        path::root_of::<F, H>(hasher, path.path@, leaves[index as int]) == Ok::<F, Error>(
            compressed.spec_root(),
        ),
        sparse.covers_levels(leaves[index as int], hasher, index),
        path::full_root::<F, H>(
            hasher,
            sparse.entries@,
            sparse.empty_hashes@,
            leaves[index as int],
            index as int,
            sparse.tree_height as int,
        ) == Ok::<F, HashError>(compressed.spec_root()),
{
    lemma_compressed_root(compressed, hasher, empty_leaf, leaves);
    lemma_compressed_proofs(compressed, hasher, empty_leaf, leaves, index);
    assert forall|l: int| 0 <= l < N implies #[trigger] path.path@[l] == membership::pair_of::<
        F,
        H,
    >(hasher, leaves, empty_leaf, index as int, l as nat) by {
        assert(compressed.spec_root_node().pair_in::<H>(
            &H::spec_hasher(),
            compressed.empties(),
            index,
            N as nat,
            l as nat,
        ) == membership::pair_of::<F, H>(hasher, leaves, empty_leaf, index as int, l as nat));
    }
    lemma_pairs_verify::<F, H>(hasher, empty_leaf, leaves, index as int, path.path@);
    lemma_entries_verify(sparse, hasher, empty_leaf, leaves, index);
}

} // verus!
