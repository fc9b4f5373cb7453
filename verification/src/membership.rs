//! What membership proofs hold, as a function of the leaves.
use vstd::arithmetic::power2::*;
use vstd::prelude::*;

use crate::batch;
use crate::chain;
use crate::compressed_smt;
use crate::compressed_smt::CompressedNode;
use crate::field::PrimeField;
use crate::index;
use crate::model;
use crate::nodes;
use crate::path;
use crate::path::SparsePathEntry;
use crate::poseidon;
use crate::poseidon::{FieldHasher, HashError};
use crate::smt;

verus! {

/// The pair on `level` of the way from the leaf at `leaf` to the root, the left node first.
pub open spec fn pair_of<F: PrimeField, H: FieldHasher<F, 2>>(
    hasher: &H,
    leaves: Map<int, F>,
    empty_leaf: F,
    leaf: int,
    level: nat,
) -> (F, F) {
    let parent = index::above(leaf, level + 1);
    (
        model::subtree::<F, H>(hasher, leaves, empty_leaf, level, 2 * parent),
        model::subtree::<F, H>(hasher, leaves, empty_leaf, level, 2 * parent + 1),
    )
}

/// The sibling on `level` of the way from the leaf at `leaf` to the root.
pub open spec fn sibling_of<F: PrimeField, H: FieldHasher<F, 2>>(
    hasher: &H,
    leaves: Map<int, F>,
    empty_leaf: F,
    leaf: int,
    level: nat,
) -> F {
    model::subtree::<F, H>(
        hasher,
        leaves,
        empty_leaf,
        level,
        chain::sibling_pos(index::above(leaf, level)),
    )
}

/// The siblings on the first `levels` levels of the way from the leaf at `leaf` to the root
/// which are not the empty value of their level.
pub open spec fn entries_of<F: PrimeField, H: FieldHasher<F, 2>>(
    hasher: &H,
    leaves: Map<int, F>,
    empty_leaf: F,
    height: nat,
    leaf: int,
    levels: nat,
) -> Seq<SparsePathEntry<F>>
    decreases levels,
{
    if levels == 0 {
        Seq::empty()
    } else {
        let level = (levels - 1) as nat;
        entries_of::<F, H>(hasher, leaves, empty_leaf, height, leaf, level) + path::entry_for(
            nodes::empties::<F, H>(hasher, empty_leaf, height),
            leaf,
            level,
            sibling_of::<F, H>(hasher, leaves, empty_leaf, leaf, level),
        )
    }
}

/// The nodes on the way from the leaf at `leaf` up to `levels` can be hashed.
pub open spec fn way_hashable<F: PrimeField, H: FieldHasher<F, 2>>(
    hasher: &H,
    leaves: Map<int, F>,
    empty_leaf: F,
    leaf: int,
    levels: nat,
) -> bool {
    forall|level: nat|
        1 <= level <= levels ==> model::subtree_hash::<F, H>(
            hasher,
            leaves,
            empty_leaf,
            level,
            #[trigger] index::above(leaf, level),
        ) is Ok
}

/// If the nodes above leaves and the empty values can be hashed, so can the nodes on the
/// way from any leaf.
pub(crate) proof fn lemma_way_hashable<F: PrimeField, H: FieldHasher<F, 2>>(
    hasher: &H,
    leaves: Map<int, F>,
    empty_leaf: F,
    height: nat,
    leaf: int,
)
    requires
        0 <= leaf,
        model::non_negative(leaves),
        model::hashable::<F, H>(hasher, leaves, empty_leaf, height),
        smt::empties_hashable::<F, H>(hasher, empty_leaf, height),
    ensures
        way_hashable::<F, H>(hasher, leaves, empty_leaf, leaf, height),
{
    assert forall|level: nat| 1 <= level <= height implies model::subtree_hash::<F, H>(
        hasher,
        leaves,
        empty_leaf,
        level,
        #[trigger] index::above(leaf, level),
    ) is Ok by {
        let pos = index::above(leaf, level);
        let below = (level - 1) as nat;
        if !model::occupied(leaves, level, pos) {
            model::lemma_occupied_children(leaves, below, pos);
            model::lemma_vacant::<F, H>(hasher, leaves, empty_leaf, below, 2 * pos);
            model::lemma_vacant::<F, H>(hasher, leaves, empty_leaf, below, 2 * pos + 1);
            assert(smt::empty_hash::<F, H>(hasher, empty_leaf, below) is Ok);
        }
    }
}

/// A node of the map, or the empty value where there is none, is the node of the model.
pub(crate) proof fn lemma_node_value<F: PrimeField, H: FieldHasher<F, 2>>(
    hasher: &H,
    tree: Map<u64, F>,
    height: nat,
    empty_leaf: F,
    leaves: Map<int, F>,
    level: nat,
    pos: int,
)
    requires
        nodes::represents::<F, H>(hasher, tree, height, empty_leaf, leaves),
        nodes::is_node(height, level, pos),
    ensures
        batch::node_value(
            tree,
            model::empty::<F, H>(hasher, empty_leaf, level),
            index::node_at(height, level, pos),
        ) == model::subtree::<F, H>(hasher, leaves, empty_leaf, level, pos),
{
    assert(nodes::lookup(tree, height, level, pos) == nodes::expected::<F, H>(
        hasher,
        leaves,
        empty_leaf,
        level,
        pos,
    ));
    if !model::occupied(leaves, level, pos) {
        model::lemma_vacant::<F, H>(hasher, leaves, empty_leaf, level, pos);
    }
}

/// The pairs that the map gives are those of the model.
pub(crate) proof fn lemma_pair_at<F: PrimeField, H: FieldHasher<F, 2>>(
    hasher: &H,
    tree: Map<u64, F>,
    height: nat,
    empty_leaf: F,
    leaves: Map<int, F>,
    leaf: int,
    level: nat,
)
    requires
        nodes::represents::<F, H>(hasher, tree, height, empty_leaf, leaves),
        0 <= leaf < pow2(height),
        level < height,
    ensures
        smt::pair_at(
            tree,
            nodes::empties::<F, H>(hasher, empty_leaf, height),
            height,
            leaf,
            level,
        ) == pair_of::<F, H>(hasher, leaves, empty_leaf, leaf, level),
{
    let parent = index::above(leaf, level + 1);
    index::lemma_above_range(leaf, height, level + 1);
    lemma_pow2_unfold((height - level) as nat);
    lemma_node_value::<F, H>(hasher, tree, height, empty_leaf, leaves, level, 2 * parent);
    lemma_node_value::<F, H>(hasher, tree, height, empty_leaf, leaves, level, 2 * parent + 1);
}

/// The entries that the map gives are those of the model.
pub(crate) proof fn lemma_sparse_entries<F: PrimeField, H: FieldHasher<F, 2>>(
    hasher: &H,
    tree: Map<u64, F>,
    height: nat,
    empty_leaf: F,
    leaves: Map<int, F>,
    leaf: int,
    levels: nat,
)
    requires
        nodes::represents::<F, H>(hasher, tree, height, empty_leaf, leaves),
        0 <= leaf < pow2(height),
        levels <= height,
    ensures
        smt::sparse_entries(
            tree,
            nodes::empties::<F, H>(hasher, empty_leaf, height),
            height,
            leaf,
            levels,
        ) == entries_of::<F, H>(hasher, leaves, empty_leaf, height, leaf, levels),
    decreases levels,
{
    if levels > 0 {
        let level = (levels - 1) as nat;
        let empties = nodes::empties::<F, H>(hasher, empty_leaf, height);
        lemma_sparse_entries::<F, H>(hasher, tree, height, empty_leaf, leaves, leaf, level);
        lemma_pair_at::<F, H>(hasher, tree, height, empty_leaf, leaves, leaf, level);
        chain::lemma_sibling_pos(leaf, level);
        assert(smt::sparse_entries(tree, empties, height, leaf, levels) =~= entries_of::<F, H>(
            hasher,
            leaves,
            empty_leaf,
            height,
            leaf,
            levels,
        ));
    }
}

/// Where there are no leaves beside the way up, there are no entries.
proof fn lemma_no_entries<F: PrimeField, H: FieldHasher<F, 2>>(
    hasher: &H,
    leaves: Map<int, F>,
    empty_leaf: F,
    height: nat,
    leaf: int,
    from: nat,
    to: nat,
)
    requires
        model::non_negative(leaves),
        from <= to <= height,
        forall|level: nat|
            from <= level < to ==> !model::occupied(
                leaves,
                level,
                chain::sibling_pos(#[trigger] index::above(leaf, level)),
            ),
    ensures
        entries_of::<F, H>(hasher, leaves, empty_leaf, height, leaf, to) == entries_of::<F, H>(
            hasher,
            leaves,
            empty_leaf,
            height,
            leaf,
            from,
        ),
    decreases to,
{
    if from < to {
        let level = (to - 1) as nat;
        lemma_no_entries::<F, H>(hasher, leaves, empty_leaf, height, leaf, from, level);
        model::lemma_vacant::<F, H>(
            hasher,
            leaves,
            empty_leaf,
            level,
            chain::sibling_pos(index::above(leaf, level)),
        );
        assert(entries_of::<F, H>(hasher, leaves, empty_leaf, height, leaf, to) =~= entries_of::<
            F,
            H,
        >(hasher, leaves, empty_leaf, height, leaf, level));
    }
}

/// A compressed node contains the leaves that are set in its subtree.
pub(crate) proof fn lemma_node_contains<F: PrimeField, H: FieldHasher<F, 2>>(
    node: CompressedNode<F>,
    hasher: &H,
    leaves: Map<int, F>,
    empty_leaf: F,
    level: nat,
    pos: int,
    target: u64,
)
    requires
        node.represents::<H>(hasher, leaves, empty_leaf, level, pos),
        index::above(target as int, level) == pos,
    ensures
        node.contains(target, level) <==> leaves.contains_key(target as int),
    decreases node,
{
    match node {
        CompressedNode::Zero => {
            if leaves.contains_key(target as int) {
                assert(model::occupied(leaves, level, pos));
            }
        },
        CompressedNode::Single { .. } => {
            assert(compressed_smt::is_below(leaves, level, pos, target as int)
                == leaves.contains_key(target as int));
        },
        CompressedNode::Double { .. } => {
            assert(compressed_smt::is_below(leaves, level, pos, target as int)
                == leaves.contains_key(target as int));
        },
        CompressedNode::Multi { left, right, .. } => {
            let below = (level - 1) as nat;
            index::lemma_above_step(target as int, below);
            if chain::on_right(target as int, below) {
                lemma_node_contains::<F, H>(
                    *right,
                    hasher,
                    leaves,
                    empty_leaf,
                    below,
                    2 * pos + 1,
                    target,
                );
            } else {
                lemma_node_contains::<F, H>(
                    *left,
                    hasher,
                    leaves,
                    empty_leaf,
                    below,
                    2 * pos,
                    target,
                );
            }
        },
    }
}

/// The pairs and the entries that a compressed node gives for a leaf that is set are those
/// of the model, and the hashes that are computed for them succeed.
pub(crate) proof fn lemma_node_proofs<F: PrimeField, H: FieldHasher<F, 2>>(
    node: CompressedNode<F>,
    hasher: &H,
    leaves: Map<int, F>,
    empty_leaf: F,
    height: nat,
    level: nat,
    pos: int,
    target: u64,
)
    requires
        model::non_negative(leaves),
        level <= height,
        node.represents::<H>(hasher, leaves, empty_leaf, level, pos),
        node.wf(level),
        index::above(target as int, level) == pos,
        leaves.contains_key(target as int),
        compressed_smt::hashable_in::<F, H>(hasher, leaves, empty_leaf, level, pos),
    ensures
        node.path_hashable::<H>(
            hasher,
            nodes::empties::<F, H>(hasher, empty_leaf, height),
            target,
            level,
        ),
        node.sparse_hashable::<H>(
            hasher,
            nodes::empties::<F, H>(hasher, empty_leaf, height),
            target,
            level,
        ),
        forall|at: nat|
            at < level ==> #[trigger] node.pair_in::<H>(
                hasher,
                nodes::empties::<F, H>(hasher, empty_leaf, height),
                target,
                level,
                at,
            ) == pair_of::<F, H>(hasher, leaves, empty_leaf, target as int, at),
        node.entries_in::<H>(
            hasher,
            nodes::empties::<F, H>(hasher, empty_leaf, height),
            target,
            level,
        ) == entries_of::<F, H>(hasher, leaves, empty_leaf, height, target as int, level),
    decreases node,
{
    let empties = nodes::empties::<F, H>(hasher, empty_leaf, height);
    let leaf = target as int;
    match node {
        CompressedNode::Zero => {
            assert(model::occupied(leaves, level, pos));
        },
        CompressedNode::Single { .. } => {
            lemma_single_proofs::<F, H>(
                node,
                hasher,
                leaves,
                empty_leaf,
                height,
                level,
                pos,
                target,
            );
        },
        CompressedNode::Double { leaf_a, leaf_b, .. } => {
            lemma_double_proofs::<F, H>(
                node,
                hasher,
                leaves,
                empty_leaf,
                height,
                level,
                pos,
                target,
            );
        },
        CompressedNode::Multi { left, right, .. } => {
            let below = (level - 1) as nat;
            index::lemma_above_step(leaf, below);
            compressed_smt::lemma_halves_hashable::<F, H>(
                hasher,
                leaves,
                empty_leaf,
                level,
                pos,
            );
            left.lemma_hash_value::<H>(hasher, leaves, empty_leaf, height, below, 2 * pos);
            right.lemma_hash_value::<H>(hasher, leaves, empty_leaf, height, below, 2 * pos + 1);
            chain::lemma_sibling_pos(leaf, below);
            if chain::on_right(leaf, below) {
                lemma_node_proofs::<F, H>(
                    *right,
                    hasher,
                    leaves,
                    empty_leaf,
                    height,
                    below,
                    2 * pos + 1,
                    target,
                );
            } else {
                lemma_node_proofs::<F, H>(
                    *left,
                    hasher,
                    leaves,
                    empty_leaf,
                    height,
                    below,
                    2 * pos,
                    target,
                );
            }
            assert forall|at: nat| at < level implies #[trigger] node.pair_in::<H>(
                hasher,
                empties,
                target,
                level,
                at,
            ) == pair_of::<F, H>(hasher, leaves, empty_leaf, leaf, at) by {
                if at < below {
                    let child = if chain::on_right(leaf, below) {
                        *right
                    } else {
                        *left
                    };
                    assert(child.pair_in::<H>(hasher, empties, target, below, at) == pair_of::<F, H>(
                        hasher,
                        leaves,
                        empty_leaf,
                        leaf,
                        at,
                    ));
                }
            }
        },
    }
}

proof fn lemma_single_proofs<F: PrimeField, H: FieldHasher<F, 2>>(
    node: CompressedNode<F>,
    hasher: &H,
    leaves: Map<int, F>,
    empty_leaf: F,
    height: nat,
    level: nat,
    pos: int,
    target: u64,
)
    requires
        node is Single,
        model::non_negative(leaves),
        level <= height,
        node.represents::<H>(hasher, leaves, empty_leaf, level, pos),
        node.wf(level),
        index::above(target as int, level) == pos,
        leaves.contains_key(target as int),
        compressed_smt::hashable_in::<F, H>(hasher, leaves, empty_leaf, level, pos),
    ensures
        node.path_hashable::<H>(
            hasher,
            nodes::empties::<F, H>(hasher, empty_leaf, height),
            target,
            level,
        ),
        forall|at: nat|
            at < level ==> #[trigger] node.pair_in::<H>(
                hasher,
                nodes::empties::<F, H>(hasher, empty_leaf, height),
                target,
                level,
                at,
            ) == pair_of::<F, H>(hasher, leaves, empty_leaf, target as int, at),
        entries_of::<F, H>(hasher, leaves, empty_leaf, height, target as int, level)
            == Seq::<SparsePathEntry<F>>::empty(),
{
    let empties = nodes::empties::<F, H>(hasher, empty_leaf, height);
    let leaf = target as int;
    assert(compressed_smt::is_below(leaves, level, pos, leaf));
    assert forall|k: int| #[trigger]
        leaves.contains_key(k) && index::above(k, level) == index::above(leaf, level) implies k
        == leaf by {
        assert(compressed_smt::is_below(leaves, level, pos, k));
    }
    compressed_smt::lemma_single_value::<F, H>(
        hasher,
        leaves,
        empty_leaf,
        height,
        level,
        pos,
        leaf,
        level,
    );
    assert forall|at: nat| at < level implies !model::occupied(
        leaves,
        at,
        chain::sibling_pos(#[trigger] index::above(leaf, at)),
    ) by {
        chain::lemma_alone_siblings(leaves, leaf, level, at);
    }
    lemma_no_entries::<F, H>(hasher, leaves, empty_leaf, height, leaf, 0, level);
    assert forall|at: nat| at < level implies #[trigger] node.pair_in::<H>(
        hasher,
        empties,
        target,
        level,
        at,
    ) == pair_of::<F, H>(hasher, leaves, empty_leaf, leaf, at) by {
        compressed_smt::lemma_single_value::<F, H>(
            hasher,
            leaves,
            empty_leaf,
            height,
            level,
            pos,
            leaf,
            at,
        );
        chain::lemma_sibling_pos(leaf, at);
        model::lemma_vacant::<F, H>(
            hasher,
            leaves,
            empty_leaf,
            at,
            chain::sibling_pos(index::above(leaf, at)),
        );
    }
}

proof fn lemma_double_proofs<F: PrimeField, H: FieldHasher<F, 2>>(
    node: CompressedNode<F>,
    hasher: &H,
    leaves: Map<int, F>,
    empty_leaf: F,
    height: nat,
    level: nat,
    pos: int,
    target: u64,
)
    requires
        node is Double,
        model::non_negative(leaves),
        level <= height,
        node.represents::<H>(hasher, leaves, empty_leaf, level, pos),
        node.wf(level),
        index::above(target as int, level) == pos,
        leaves.contains_key(target as int),
        compressed_smt::hashable_in::<F, H>(hasher, leaves, empty_leaf, level, pos),
    ensures
        node.path_hashable::<H>(
            hasher,
            nodes::empties::<F, H>(hasher, empty_leaf, height),
            target,
            level,
        ),
        node.sparse_hashable::<H>(
            hasher,
            nodes::empties::<F, H>(hasher, empty_leaf, height),
            target,
            level,
        ),
        forall|at: nat|
            at < level ==> #[trigger] node.pair_in::<H>(
                hasher,
                nodes::empties::<F, H>(hasher, empty_leaf, height),
                target,
                level,
                at,
            ) == pair_of::<F, H>(hasher, leaves, empty_leaf, target as int, at),
        node.entries_in::<H>(
            hasher,
            nodes::empties::<F, H>(hasher, empty_leaf, height),
            target,
            level,
        ) == entries_of::<F, H>(hasher, leaves, empty_leaf, height, target as int, level),
{
    let empties = nodes::empties::<F, H>(hasher, empty_leaf, height);
    let leaf = target as int;
    let leaf_a = node->leaf_a;
    let leaf_b = node->leaf_b;
    assert(compressed_smt::is_below(leaves, level, pos, leaf));
    let (this, other) = if leaf_a.0 == target {
        (leaf_a, leaf_b)
    } else {
        (leaf_b, leaf_a)
    };
    assert(this.0 == target);
    let meeting = chain::divergence(leaf_a.0 as int, leaf_b.0 as int);
    let below = (meeting - 1) as nat;
    chain::lemma_divergence_symmetric(leaf_a.0 as int, leaf_b.0 as int);
    compressed_smt::lemma_double_values::<F, H>(
        hasher,
        leaves,
        empty_leaf,
        height,
        level,
        pos,
        this,
        other,
    );
    compressed_smt::lemma_double_values::<F, H>(
        hasher,
        leaves,
        empty_leaf,
        height,
        level,
        pos,
        other,
        this,
    );
    assert(chain::meet_and_rise::<F, H>(hasher, empties, this, other, level) is Ok);
    assert(chain::meet_and_rise::<F, H>(hasher, empties, other, this, level) is Ok);
    assert(chain::rise::<F, H>(hasher, empties, other.0 as int, other.1, 0, below) is Ok);
    chain::lemma_sibling_pos(leaf, below);
    chain::lemma_divergence_above(leaf, other.0 as int, below);
    chain::lemma_divergence_above(leaf, other.0 as int, meeting);
    index::lemma_above_step(leaf, below);
    index::lemma_above_step(other.0 as int, below);
    assert(index::above(other.0 as int, below) == chain::sibling_pos(index::above(leaf, below)));
    assert forall|k: int| #[trigger]
        leaves.contains_key(k) && index::above(k, level) == index::above(leaf, level) implies k
        == leaf || k == other.0 by {
        assert(compressed_smt::is_below(leaves, level, pos, k));
    }
    assert forall|at: nat| at < level && at != below implies !model::occupied(
        leaves,
        at,
        chain::sibling_pos(#[trigger] index::above(leaf, at)),
    ) by {
        chain::lemma_pair_siblings(leaves, leaf, other.0 as int, level, at);
    }
    lemma_no_entries::<F, H>(hasher, leaves, empty_leaf, height, leaf, 0, below);
    lemma_no_entries::<F, H>(hasher, leaves, empty_leaf, height, leaf, meeting, level);
    assert(entries_of::<F, H>(hasher, leaves, empty_leaf, height, leaf, meeting)
        =~= path::entry_for(
        empties,
        leaf,
        below,
        sibling_of::<F, H>(hasher, leaves, empty_leaf, leaf, below),
    ));
    assert forall|at: nat| at < level implies #[trigger] node.pair_in::<H>(
        hasher,
        empties,
        target,
        level,
        at,
    ) == pair_of::<F, H>(hasher, leaves, empty_leaf, leaf, at) by {
        chain::lemma_sibling_pos(leaf, at);
        if at < meeting {
            assert(chain::rise::<F, H>(hasher, empties, this.0 as int, this.1, 0, at) is Ok);
        } else {
            assert(chain::meet_and_rise::<F, H>(hasher, empties, this, other, at) is Ok);
        }
        if at != below {
            model::lemma_vacant::<F, H>(
                hasher,
                leaves,
                empty_leaf,
                at,
                chain::sibling_pos(index::above(leaf, at)),
            );
        }
    }
}

/// Two hashers give the same result for every pair.
pub open spec fn same_hash<F: PrimeField, H: FieldHasher<F, 2>>(a: &H, b: &H) -> bool {
    forall|left: F, right: F| #[trigger]
        poseidon::pair_hash::<F, H>(a, left, right) == poseidon::pair_hash::<F, H>(b, left, right)
}

proof fn lemma_same_rise<F: PrimeField, H: FieldHasher<F, 2>>(
    a: &H,
    b: &H,
    empties: Seq<F>,
    leaf: int,
    value: F,
    from: nat,
    to: nat,
)
    requires
        same_hash::<F, H>(a, b),
    ensures
        chain::rise::<F, H>(a, empties, leaf, value, from, to) == chain::rise::<F, H>(
            b,
            empties,
            leaf,
            value,
            from,
            to,
        ),
    decreases to,
{
    if to > from {
        lemma_same_rise::<F, H>(a, b, empties, leaf, value, from, (to - 1) as nat);
    }
}

proof fn lemma_same_meet<F: PrimeField, H: FieldHasher<F, 2>>(
    a: &H,
    b: &H,
    empties: Seq<F>,
    x: (u64, F),
    y: (u64, F),
    level: nat,
)
    requires
        same_hash::<F, H>(a, b),
    ensures
        chain::meet_and_rise::<F, H>(a, empties, x, y, level) == chain::meet_and_rise::<F, H>(
            b,
            empties,
            x,
            y,
            level,
        ),
{
    let meeting = chain::divergence(x.0 as int, y.0 as int);
    let below = (meeting - 1) as nat;
    lemma_same_rise::<F, H>(a, b, empties, x.0 as int, x.1, 0, below);
    lemma_same_rise::<F, H>(a, b, empties, y.0 as int, y.1, 0, below);
    lemma_same_rise::<F, H>(
        a,
        b,
        empties,
        x.0 as int,
        chain::meet::<F, H>(b, empties, x, y)->Ok_0,
        meeting,
        level,
    );
}

/// Hashers that give the same results make the same proofs.
pub(crate) proof fn lemma_same_proofs<F: PrimeField, H: FieldHasher<F, 2>>(
    node: CompressedNode<F>,
    a: &H,
    b: &H,
    empties: Seq<F>,
    target: u64,
    level: nat,
)
    requires
        same_hash::<F, H>(a, b),
    ensures
        node.path_hashable::<H>(a, empties, target, level) == node.path_hashable::<H>(
            b,
            empties,
            target,
            level,
        ),
        node.sparse_hashable::<H>(a, empties, target, level) == node.sparse_hashable::<H>(
            b,
            empties,
            target,
            level,
        ),
        node.entries_in::<H>(a, empties, target, level) == node.entries_in::<H>(
            b,
            empties,
            target,
            level,
        ),
        forall|at: nat| #[trigger]
            node.pair_in::<H>(a, empties, target, level, at) == node.pair_in::<H>(
                b,
                empties,
                target,
                level,
                at,
            ),
    decreases node,
{
    let leaf = target as int;
    match node {
        CompressedNode::Zero => {},
        CompressedNode::Single { leaf_index, leaf_value, .. } => {
            lemma_same_rise::<F, H>(a, b, empties, leaf_index as int, leaf_value, 0, level);
            assert forall|at: nat| #[trigger]
                node.pair_in::<H>(a, empties, target, level, at) == node.pair_in::<H>(
                    b,
                    empties,
                    target,
                    level,
                    at,
                ) by {
                lemma_same_rise::<F, H>(a, b, empties, leaf, leaf_value, 0, at);
            }
        },
        CompressedNode::Double { leaf_a, leaf_b, .. } => {
            let below = (chain::divergence(leaf_a.0 as int, leaf_b.0 as int) - 1) as nat;
            lemma_same_meet::<F, H>(a, b, empties, leaf_a, leaf_b, level);
            lemma_same_rise::<F, H>(a, b, empties, leaf_a.0 as int, leaf_a.1, 0, below);
            lemma_same_rise::<F, H>(a, b, empties, leaf_b.0 as int, leaf_b.1, 0, below);
            assert forall|at: nat| #[trigger]
                node.pair_in::<H>(a, empties, target, level, at) == node.pair_in::<H>(
                    b,
                    empties,
                    target,
                    level,
                    at,
                ) by {
                lemma_same_rise::<F, H>(a, b, empties, leaf, leaf_a.1, 0, at);
                lemma_same_rise::<F, H>(a, b, empties, leaf, leaf_b.1, 0, at);
                lemma_same_rise::<F, H>(a, b, empties, leaf_a.0 as int, leaf_a.1, 0, at);
                lemma_same_rise::<F, H>(a, b, empties, leaf_b.0 as int, leaf_b.1, 0, at);
                lemma_same_meet::<F, H>(a, b, empties, leaf_a, leaf_b, at);
                lemma_same_meet::<F, H>(a, b, empties, leaf_b, leaf_a, at);
            }
        },
        CompressedNode::Multi { left, right, .. } => {
            let below = (level - 1) as nat;
            lemma_same_proofs::<F, H>(*left, a, b, empties, target, below);
            lemma_same_proofs::<F, H>(*right, a, b, empties, target, below);
            assert forall|at: nat| #[trigger]
                node.pair_in::<H>(a, empties, target, level, at) == node.pair_in::<H>(
                    b,
                    empties,
                    target,
                    level,
                    at,
                ) by {
                assert(left.pair_in::<H>(a, empties, target, below, at) == left.pair_in::<H>(
                    b,
                    empties,
                    target,
                    below,
                    at,
                ));
                assert(right.pair_in::<H>(a, empties, target, below, at) == right.pair_in::<H>(
                    b,
                    empties,
                    target,
                    below,
                    at,
                ));
            }
        },
    }
}

/// The pairs of the model lead from the leaf to the root of the model.
pub(crate) proof fn lemma_path_root<F: PrimeField, H: FieldHasher<F, 2>>(
    hasher: &H,
    leaves: Map<int, F>,
    empty_leaf: F,
    leaf: int,
    pairs: Seq<(F, F)>,
    level: nat,
)
    requires
        0 <= leaf,
        level <= pairs.len(),
        way_hashable::<F, H>(hasher, leaves, empty_leaf, leaf, pairs.len()),
        forall|l: int|
            0 <= l < pairs.len() ==> #[trigger] pairs[l] == pair_of::<F, H>(
                hasher,
                leaves,
                empty_leaf,
                leaf,
                l as nat,
            ),
    ensures
        path::path_root::<F, H>(
            hasher,
            pairs,
            model::subtree::<F, H>(hasher, leaves, empty_leaf, level, index::above(leaf, level)),
            level as int,
        ) == Ok::<F, path::Error>(
            model::subtree::<F, H>(
                hasher,
                leaves,
                empty_leaf,
                pairs.len(),
                index::above(leaf, pairs.len()),
            ),
        ),
    decreases pairs.len() - level,
{
    if level < pairs.len() {
        chain::lemma_sibling_pos(leaf, level);
        assert(pairs[level as int] == pair_of::<F, H>(hasher, leaves, empty_leaf, leaf, level));
        assert(model::subtree_hash::<F, H>(
            hasher,
            leaves,
            empty_leaf,
            level + 1,
            index::above(leaf, level + 1),
        ) is Ok);
        lemma_path_root::<F, H>(hasher, leaves, empty_leaf, leaf, pairs, level + 1);
    }
}

/// The low binary places of a number.
pub open spec fn low_places(n: int, places: nat) -> int {
    n % (pow2(places) as int)
}

/// One more binary place.
proof fn lemma_low_places(n: int, places: nat)
    requires
        0 <= n,
    ensures
        low_places(n, places + 1) == low_places(n, places) + if index::above(n, places) % 2 == 1 {
            pow2(places) as int
        } else {
            0
        },
{
    lemma_pow2_pos(places);
    lemma_pow2_unfold(places + 1);
    vstd::arithmetic::div_mod::lemma_mod_breakdown(n, pow2(places) as int, 2);
    let bit = index::above(n, places) % 2;
    let p = pow2(places) as int;
    assert(p * 2 == pow2(places + 1));
    assert(p * bit == if bit == 1 {
        p
    } else {
        0
    }) by (nonlinear_arith)
        requires
            bit == 0 || bit == 1,
    ;
}

/// Where no pair that the way passes on the right has two equal nodes, the pairs give the
/// binary places of the leaf's index.
pub(crate) proof fn lemma_path_index<F: PrimeField, H: FieldHasher<F, 2>>(
    hasher: &H,
    leaves: Map<int, F>,
    empty_leaf: F,
    leaf: int,
    pairs: Seq<(F, F)>,
    levels: nat,
)
    requires
        0 <= leaf,
        levels <= pairs.len(),
        forall|l: int|
            0 <= l < pairs.len() ==> #[trigger] pairs[l] == pair_of::<F, H>(
                hasher,
                leaves,
                empty_leaf,
                leaf,
                l as nat,
            ),
        forall|l: int|
            0 <= l < pairs.len() && index::above(leaf, l as nat) % 2 == 1
                ==> (#[trigger] pairs[l]).0 != pairs[l].1,
    ensures
        path::path_index::<F, H>(
            hasher,
            pairs,
            model::subtree::<F, H>(hasher, leaves, empty_leaf, 0, leaf),
            levels as int,
        ) == low_places(leaf, levels),
    decreases levels,
{
    let value = model::subtree::<F, H>(hasher, leaves, empty_leaf, 0, leaf);
    if levels == 0 {
        lemma2_to64();
    } else {
        let level = (levels - 1) as nat;
        lemma_path_index::<F, H>(hasher, leaves, empty_leaf, leaf, pairs, level);
        lemma_low_places(leaf, level);
        chain::lemma_sibling_pos(leaf, level);
        index::lemma_above_base(leaf);
        assert(pairs[level as int] == pair_of::<F, H>(hasher, leaves, empty_leaf, leaf, level));
        if level > 0 {
            assert(pairs[level - 1] == pair_of::<F, H>(
                hasher,
                leaves,
                empty_leaf,
                leaf,
                (level - 1) as nat,
            ));
        }
        assert(path::path_node::<F, H>(hasher, pairs, value, level as int) == model::subtree::<
            F,
            H,
        >(hasher, leaves, empty_leaf, level, index::above(leaf, level)));
    }
}

/// The entries on the first levels come first, and each is on its own level.
pub(crate) proof fn lemma_entries_prefix<F: PrimeField, H: FieldHasher<F, 2>>(
    hasher: &H,
    leaves: Map<int, F>,
    empty_leaf: F,
    height: nat,
    leaf: int,
    levels: nat,
    total: nat,
)
    requires
        levels <= total <= height,
        total <= usize::MAX,
    ensures
        ({
            let first = entries_of::<F, H>(hasher, leaves, empty_leaf, height, leaf, levels);
            let all = entries_of::<F, H>(hasher, leaves, empty_leaf, height, leaf, total);
            &&& first.len() <= all.len() <= total
            &&& forall|i: int| 0 <= i < first.len() ==> #[trigger] all[i] == first[i]
            &&& forall|i: int| 0 <= i < first.len() ==> (#[trigger] all[i]).level < levels
            &&& forall|i: int| first.len() <= i < all.len() ==> levels <= (#[trigger] all[i]).level
                < total
            &&& forall|i: int, j: int| 0 <= i < j < all.len() ==> all[i].level < all[j].level
        }),
    decreases total,
{
    if total > 0 {
        let below = (total - 1) as nat;
        if levels < total {
            lemma_entries_prefix::<F, H>(
                hasher,
                leaves,
                empty_leaf,
                height,
                leaf,
                levels,
                below,
            );
        } else {
            lemma_entries_prefix::<F, H>(hasher, leaves, empty_leaf, height, leaf, below, below);
        }
    }
}

/// Walking the levels with a cursor finds on each level the sibling of the model.
pub(crate) proof fn lemma_sibling_at<F: PrimeField, H: FieldHasher<F, 2>>(
    hasher: &H,
    leaves: Map<int, F>,
    empty_leaf: F,
    height: nat,
    leaf: int,
    level: nat,
)
    requires
        level <= height <= usize::MAX,
    ensures
        path::cursor_at(
            entries_of::<F, H>(hasher, leaves, empty_leaf, height, leaf, height),
            level as int,
        ) == entries_of::<F, H>(hasher, leaves, empty_leaf, height, leaf, level).len(),
        level < height ==> path::sibling_at(
            entries_of::<F, H>(hasher, leaves, empty_leaf, height, leaf, height),
            nodes::empties::<F, H>(hasher, empty_leaf, height),
            level as int,
        ) == sibling_of::<F, H>(hasher, leaves, empty_leaf, leaf, level),
    decreases level,
{
    let all = entries_of::<F, H>(hasher, leaves, empty_leaf, height, leaf, height);
    let first = entries_of::<F, H>(hasher, leaves, empty_leaf, height, leaf, level);
    if level > 0 {
        let below = (level - 1) as nat;
        lemma_sibling_at::<F, H>(hasher, leaves, empty_leaf, height, leaf, below);
        lemma_entries_prefix::<F, H>(hasher, leaves, empty_leaf, height, leaf, below, height);
        lemma_entries_prefix::<F, H>(hasher, leaves, empty_leaf, height, leaf, level, height);
    }
    if level < height {
        let next = entries_of::<F, H>(hasher, leaves, empty_leaf, height, leaf, level + 1);
        lemma_entries_prefix::<F, H>(hasher, leaves, empty_leaf, height, leaf, level, height);
        lemma_entries_prefix::<F, H>(hasher, leaves, empty_leaf, height, leaf, level + 1, height);
        let sibling = sibling_of::<F, H>(hasher, leaves, empty_leaf, leaf, level);
        let empties = nodes::empties::<F, H>(hasher, empty_leaf, height);
        if sibling != empties[level as int] {
            assert(next.len() == first.len() + 1);
            assert(all[first.len() as int] == next[first.len() as int]);
        } else {
            assert(next =~= first);
        }
    }
}

/// The entries of the model, with the empty values between them, lead from the leaf to the
/// nodes of the model.
pub(crate) proof fn lemma_full_root<F: PrimeField, H: FieldHasher<F, 2>>(
    hasher: &H,
    leaves: Map<int, F>,
    empty_leaf: F,
    height: nat,
    leaf: int,
    levels: nat,
)
    requires
        0 <= leaf,
        levels <= height <= usize::MAX,
        way_hashable::<F, H>(hasher, leaves, empty_leaf, leaf, height),
    ensures
        path::full_root::<F, H>(
            hasher,
            entries_of::<F, H>(hasher, leaves, empty_leaf, height, leaf, height),
            nodes::empties::<F, H>(hasher, empty_leaf, height),
            model::subtree::<F, H>(hasher, leaves, empty_leaf, 0, leaf),
            leaf,
            levels as int,
        ) == Ok::<F, HashError>(
            model::subtree::<F, H>(hasher, leaves, empty_leaf, levels, index::above(leaf, levels)),
        ),
    decreases levels,
{
    if levels == 0 {
        index::lemma_above_base(leaf);
    } else {
        let level = (levels - 1) as nat;
        lemma_full_root::<F, H>(hasher, leaves, empty_leaf, height, leaf, level);
        lemma_sibling_at::<F, H>(hasher, leaves, empty_leaf, height, leaf, level);
        chain::lemma_sibling_pos(leaf, level);
        assert(model::subtree_hash::<F, H>(
            hasher,
            leaves,
            empty_leaf,
            levels,
            index::above(leaf, levels),
        ) is Ok);
    }
}

} // verus!
