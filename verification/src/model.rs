//! What a sparse Merkle tree holds, as a function of its leaves.
//!
//! The leaves are a map from leaf positions to field elements; a position without a leaf
//! holds the empty leaf. The value of every node follows from them.
use vstd::arithmetic::power2::*;
use vstd::prelude::*;

use crate::field::PrimeField;
use crate::index;
use crate::poseidon;
use crate::poseidon::FieldHasher;

verus! {

/// The value of a node on `level` with no leaf below it.
pub open spec fn empty<F: PrimeField, H: FieldHasher<F, 2>>(
    hasher: &H,
    empty_leaf: F,
    level: nat,
) -> F
    decreases level,
{
    if level == 0 {
        empty_leaf
    } else {
        let child = empty::<F, H>(hasher, empty_leaf, (level - 1) as nat);
        poseidon::node_hash::<F, H>(hasher, child, child)
    }
}

/// Whether a leaf lies below the node at `pos` of `level`.
pub open spec fn occupied<F>(leaves: Map<int, F>, level: nat, pos: int) -> bool {
    exists|k: int| #[trigger] leaves.contains_key(k) && index::above(k, level) == pos
}

/// The value of the node at `pos` of `level`.
pub open spec fn subtree<F: PrimeField, H: FieldHasher<F, 2>>(
    hasher: &H,
    leaves: Map<int, F>,
    empty_leaf: F,
    level: nat,
    pos: int,
) -> F
    decreases level,
{
    if level == 0 {
        if leaves.contains_key(pos) {
            leaves[pos]
        } else {
            empty_leaf
        }
    } else {
        poseidon::node_hash::<F, H>(
            hasher,
            subtree::<F, H>(hasher, leaves, empty_leaf, (level - 1) as nat, 2 * pos),
            subtree::<F, H>(hasher, leaves, empty_leaf, (level - 1) as nat, 2 * pos + 1),
        )
    }
}

/// What hashing the children of the node at `pos` of `level` gives; the level is above 0.
pub open spec fn subtree_hash<F: PrimeField, H: FieldHasher<F, 2>>(
    hasher: &H,
    leaves: Map<int, F>,
    empty_leaf: F,
    level: nat,
    pos: int,
) -> Result<F, poseidon::HashError> {
    poseidon::pair_hash::<F, H>(
        hasher,
        subtree::<F, H>(hasher, leaves, empty_leaf, (level - 1) as nat, 2 * pos),
        subtree::<F, H>(hasher, leaves, empty_leaf, (level - 1) as nat, 2 * pos + 1),
    )
}

/// All leaves lie in a tree of the given height.
pub open spec fn in_range<F>(leaves: Map<int, F>, height: nat) -> bool {
    forall|k: int| #[trigger] leaves.contains_key(k) ==> 0 <= k < pow2(height)
}

/// All leaves have a position that is not negative.
pub open spec fn non_negative<F>(leaves: Map<int, F>) -> bool {
    forall|k: int| #[trigger] leaves.contains_key(k) ==> 0 <= k
}

/// Every node above level 0 with a leaf below it, up to `level`, can be hashed.
pub open spec fn hashable<F: PrimeField, H: FieldHasher<F, 2>>(
    hasher: &H,
    leaves: Map<int, F>,
    empty_leaf: F,
    height: nat,
) -> bool {
    forall|level: nat, pos: int|
        1 <= level <= height && occupied(leaves, level, pos)
            ==> (#[trigger] subtree_hash::<F, H>(hasher, leaves, empty_leaf, level, pos)) is Ok
}

/// The leaves by position, from a map with 32-bit keys.
pub open spec fn widen_u32<F>(leaves: Map<u32, F>) -> Map<int, F> {
    Map::new(
        |k: int| 0 <= k <= u32::MAX && leaves.contains_key(k as u32),
        |k: int| leaves[k as u32],
    )
}

/// The leaves by position, from a map with 64-bit keys.
pub open spec fn widen_u64<F>(leaves: Map<u64, F>) -> Map<int, F> {
    Map::new(
        |k: int| 0 <= k <= u64::MAX && leaves.contains_key(k as u64),
        |k: int| leaves[k as u64],
    )
}

/// A node has a leaf below it exactly when one of its children has one.
pub(crate) proof fn lemma_occupied_children<F>(leaves: Map<int, F>, level: nat, pos: int)
    requires
        non_negative(leaves),
    ensures
        occupied(leaves, level + 1, pos) <==> occupied(leaves, level, 2 * pos) || occupied(
            leaves,
            level,
            2 * pos + 1,
        ),
{
    if occupied(leaves, level + 1, pos) {
        let k = choose|k: int| #[trigger] leaves.contains_key(k) && index::above(k, level + 1) == pos;
        index::lemma_above_step(k, level);
        assert(index::above(k, level) == 2 * pos || index::above(k, level) == 2 * pos + 1);
    }
    if occupied(leaves, level, 2 * pos) {
        let k = choose|k: int| #[trigger] leaves.contains_key(k) && index::above(k, level) == 2 * pos;
        index::lemma_above_step(k, level);
        assert(leaves.contains_key(k) && index::above(k, level + 1) == pos);
    }
    if occupied(leaves, level, 2 * pos + 1) {
        let k = choose|k: int| #[trigger]
            leaves.contains_key(k) && index::above(k, level) == 2 * pos + 1;
        index::lemma_above_step(k, level);
        assert(leaves.contains_key(k) && index::above(k, level + 1) == pos);
    }
}

/// The nodes of level 0 with a leaf below them are the leaves.
pub(crate) proof fn lemma_occupied_leaf<F>(leaves: Map<int, F>, pos: int)
    ensures
        occupied(leaves, 0, pos) <==> leaves.contains_key(pos),
{
    index::lemma_above_base(pos);
    if occupied(leaves, 0, pos) {
        let k = choose|k: int| #[trigger] leaves.contains_key(k) && index::above(k, 0) == pos;
        index::lemma_above_base(k);
    }
}

/// A node with no leaf below it has the empty value of its level.
pub(crate) proof fn lemma_vacant<F: PrimeField, H: FieldHasher<F, 2>>(
    hasher: &H,
    leaves: Map<int, F>,
    empty_leaf: F,
    level: nat,
    pos: int,
)
    requires
        non_negative(leaves),
        !occupied(leaves, level, pos),
    ensures
        subtree::<F, H>(hasher, leaves, empty_leaf, level, pos) == empty::<F, H>(
            hasher,
            empty_leaf,
            level,
        ),
    decreases level,
{
    if level == 0 {
        lemma_occupied_leaf(leaves, pos);
    } else {
        lemma_occupied_children(leaves, (level - 1) as nat, pos);
        lemma_vacant::<F, H>(hasher, leaves, empty_leaf, (level - 1) as nat, 2 * pos);
        lemma_vacant::<F, H>(hasher, leaves, empty_leaf, (level - 1) as nat, 2 * pos + 1);
    }
}

/// Two sets of leaves agree below the node at `pos` of `level`.
pub open spec fn agree_below<F>(a: Map<int, F>, b: Map<int, F>, level: nat, pos: int) -> bool {
    forall|k: int|
        index::above(k, level) == pos ==> (#[trigger] a.contains_key(k) == b.contains_key(k)) && (
        a.contains_key(k) ==> a[k] == b[k])
}

/// The value of a node depends on the leaves below it alone.
pub(crate) proof fn lemma_local<F: PrimeField, H: FieldHasher<F, 2>>(
    hasher: &H,
    a: Map<int, F>,
    b: Map<int, F>,
    empty_leaf: F,
    level: nat,
    pos: int,
)
    requires
        non_negative(a),
        non_negative(b),
        agree_below(a, b, level, pos),
    ensures
        subtree::<F, H>(hasher, a, empty_leaf, level, pos) == subtree::<F, H>(
            hasher,
            b,
            empty_leaf,
            level,
            pos,
        ),
        occupied(a, level, pos) == occupied(b, level, pos),
    decreases level,
{
    if occupied(a, level, pos) {
        let k = choose|k: int| #[trigger] a.contains_key(k) && index::above(k, level) == pos;
        assert(b.contains_key(k));
    }
    if occupied(b, level, pos) {
        let k = choose|k: int| #[trigger] b.contains_key(k) && index::above(k, level) == pos;
        assert(a.contains_key(k));
    }
    if level == 0 {
        index::lemma_above_base(pos);
        assert(a.contains_key(pos) == b.contains_key(pos));
    } else {
        let below = (level - 1) as nat;
        assert(agree_below(a, b, below, 2 * pos)) by {
            assert forall|k: int| index::above(k, below) == 2 * pos implies (
            #[trigger] a.contains_key(k) == b.contains_key(k)) && (a.contains_key(k) ==> a[k]
                == b[k]) by {
                if k >= 0 {
                    index::lemma_above_step(k, below);
                }
            }
        }
        assert(agree_below(a, b, below, 2 * pos + 1)) by {
            assert forall|k: int| index::above(k, below) == 2 * pos + 1 implies (
            #[trigger] a.contains_key(k) == b.contains_key(k)) && (a.contains_key(k) ==> a[k]
                == b[k]) by {
                if k >= 0 {
                    index::lemma_above_step(k, below);
                }
            }
        }
        lemma_local::<F, H>(hasher, a, b, empty_leaf, below, 2 * pos);
        lemma_local::<F, H>(hasher, a, b, empty_leaf, below, 2 * pos + 1);
    }
}

} // verus!
