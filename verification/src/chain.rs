//! Nodes with few leaves below them.
//!
//! Above a leaf that is alone in a subtree every sibling is empty, so the value of the
//! subtree is the leaf hashed with one empty value after another. Two leaves rise in the
//! same way up to the level where they meet.
use vstd::arithmetic::power2::*;
use vstd::prelude::*;
use vstd::std_specs::bits::*;

use crate::field::PrimeField;
use crate::index;
use crate::model;
use crate::nodes;
use crate::path;
use crate::poseidon::{FieldHasher, HashError};

verus! {

/// The lowest level on which the leaves at `a` and `b` are below the same node.
pub open spec fn divergence(a: int, b: int) -> nat
    decreases a + b,
{
    if a == b || a < 0 || b < 0 {
        0
    } else {
        1 + divergence(a / 2, b / 2)
    }
}

/// Whether the way up from the leaf at `leaf` passes on the right side of its pair on `level`.
pub open spec fn on_right(leaf: int, level: nat) -> bool {
    index::above(leaf, level) % 2 == 1
}

/// The pair of a node and its sibling, the left one first.
pub open spec fn sides<F>(right: bool, node: F, sibling: F) -> (F, F) {
    if right {
        (sibling, node)
    } else {
        (node, sibling)
    }
}

/// The value on level `to` above the leaf at `leaf`, if it is `value` on level `from` and
/// all siblings between are empty.
pub open spec fn rise<F: PrimeField, H: FieldHasher<F, 2>>(
    hasher: &H,
    empties: Seq<F>,
    leaf: int,
    value: F,
    from: nat,
    to: nat,
) -> Result<F, HashError>
    decreases to,
{
    if to <= from {
        Ok(value)
    } else {
        match rise::<F, H>(hasher, empties, leaf, value, from, (to - 1) as nat) {
            Ok(prev) => path::side_hash::<F, H>(
                hasher,
                on_right(leaf, (to - 1) as nat),
                prev,
                empties[to - 1],
            ),
            Err(e) => Err(e),
        }
    }
}

/// The value on the level where two leaves meet, if all other siblings are empty.
pub open spec fn meet<F: PrimeField, H: FieldHasher<F, 2>>(
    hasher: &H,
    empties: Seq<F>,
    a: (u64, F),
    b: (u64, F),
) -> Result<F, HashError> {
    let below = (divergence(a.0 as int, b.0 as int) - 1) as nat;
    match rise::<F, H>(hasher, empties, a.0 as int, a.1, 0, below) {
        Ok(a_hash) => match rise::<F, H>(hasher, empties, b.0 as int, b.1, 0, below) {
            Ok(b_hash) => path::side_hash::<F, H>(
                hasher,
                on_right(a.0 as int, below),
                a_hash,
                b_hash,
            ),
            Err(e) => Err(e),
        },
        Err(e) => Err(e),
    }
}

/// The value on `level` above two leaves, if all other siblings are empty.
pub open spec fn meet_and_rise<F: PrimeField, H: FieldHasher<F, 2>>(
    hasher: &H,
    empties: Seq<F>,
    a: (u64, F),
    b: (u64, F),
    level: nat,
) -> Result<F, HashError> {
    match meet::<F, H>(hasher, empties, a, b) {
        Ok(met) => rise::<F, H>(
            hasher,
            empties,
            a.0 as int,
            met,
            divergence(a.0 as int, b.0 as int),
            level,
        ),
        Err(e) => Err(e),
    }
}

/// Rising to a level that is reached means rising to every level below it.
pub(crate) proof fn lemma_rise_prefix<F: PrimeField, H: FieldHasher<F, 2>>(
    hasher: &H,
    empties: Seq<F>,
    leaf: int,
    value: F,
    from: nat,
    mid: nat,
    to: nat,
)
    requires
        mid <= to,
        rise::<F, H>(hasher, empties, leaf, value, from, to) is Ok,
    ensures
        rise::<F, H>(hasher, empties, leaf, value, from, mid) is Ok,
    decreases to - mid,
{
    if mid < to {
        lemma_rise_prefix::<F, H>(hasher, empties, leaf, value, from, mid, (to - 1) as nat);
    }
}

/// `64 - (a ^ b).leading_zeros()` is the level on which two leaves meet.
pub(crate) proof fn lemma_divergence_bits(a: u64, b: u64)
    ensures
        64 - u64_leading_zeros(a ^ b) == divergence(a as int, b as int),
    decreases a + b,
{
    reveal(u64_leading_zeros);
    let x = a ^ b;
    assert((a ^ b == 0) == (a == b)) by (bit_vector);
    if a != b {
        assert((a ^ b) / 2 == (a / 2) ^ (b / 2)) by (bit_vector);
        lemma_divergence_bits(a / 2, b / 2);
    }
}

/// Leaves meet by level 64 at the latest.
pub(crate) proof fn lemma_divergence_bound(a: u64, b: u64)
    ensures
        divergence(a as int, b as int) <= 64,
        a != b ==> divergence(a as int, b as int) >= 1,
{
    lemma_divergence_bits(a, b);
    axiom_u64_leading_zeros(a ^ b);
}

/// The order of the leaves does not matter to where they meet.
pub(crate) proof fn lemma_divergence_symmetric(a: int, b: int)
    ensures
        divergence(a, b) == divergence(b, a),
    decreases a + b,
{
    if !(a == b || a < 0 || b < 0) {
        lemma_divergence_symmetric(a / 2, b / 2);
    }
}

/// Halving a leaf moves the positions above it down by one level.
proof fn lemma_above_half(leaf: int, level: nat)
    requires
        0 <= leaf,
    ensures
        index::above(leaf / 2, level) == index::above(leaf, level + 1),
    decreases level,
{
    if level == 0 {
        index::lemma_above_base(leaf / 2);
        index::lemma_above_base(leaf);
        index::lemma_above_step(leaf, 0);
    } else {
        lemma_above_half(leaf, (level - 1) as nat);
        index::lemma_above_step(leaf / 2, (level - 1) as nat);
        index::lemma_above_step(leaf, level);
    }
}

/// Two leaves are below the same node of a level exactly from their divergence on.
pub(crate) proof fn lemma_divergence_above(a: int, b: int, level: nat)
    requires
        0 <= a,
        0 <= b,
    ensures
        index::above(a, level) == index::above(b, level) <==> divergence(a, b) <= level,
    decreases a + b,
{
    if a == b {
    } else if level == 0 {
        index::lemma_above_base(a);
        index::lemma_above_base(b);
    } else {
        lemma_above_half(a, (level - 1) as nat);
        lemma_above_half(b, (level - 1) as nat);
        lemma_divergence_above(a / 2, b / 2, (level - 1) as nat);
    }
}

/// The position of the sibling.
pub open spec fn sibling_pos(pos: int) -> int {
    if pos % 2 == 1 {
        pos - 1
    } else {
        pos + 1
    }
}

/// The way up from a leaf passes one of the children of the next node on it, and the
/// sibling is the other.
pub(crate) proof fn lemma_sibling_pos(leaf: int, level: nat)
    requires
        0 <= leaf,
    ensures
        on_right(leaf, level) ==> index::above(leaf, level) == 2 * index::above(leaf, level + 1) + 1
            && sibling_pos(index::above(leaf, level)) == 2 * index::above(leaf, level + 1),
        !on_right(leaf, level) ==> index::above(leaf, level) == 2 * index::above(leaf, level + 1)
            && sibling_pos(index::above(leaf, level)) == 2 * index::above(leaf, level + 1) + 1,
{
    index::lemma_above_step(leaf, level);
}

/// Rising from a level on which the value is that of the model gives the value of the
/// model, where the siblings on the way have no leaves and the nodes can be hashed.
pub(crate) proof fn lemma_rise_model<F: PrimeField, H: FieldHasher<F, 2>>(
    hasher: &H,
    leaves: Map<int, F>,
    empty_leaf: F,
    height: nat,
    leaf: int,
    value: F,
    from: nat,
    to: nat,
)
    requires
        model::non_negative(leaves),
        0 <= leaf,
        from <= to <= height,
        value == model::subtree::<F, H>(
            hasher,
            leaves,
            empty_leaf,
            from,
            index::above(leaf, from),
        ),
        forall|level: nat|
            from <= level < to ==> !model::occupied(
                leaves,
                level,
                sibling_pos(#[trigger] index::above(leaf, level)),
            ),
        forall|level: nat|
            from < level <= to ==> model::subtree_hash::<F, H>(
                hasher,
                leaves,
                empty_leaf,
                level,
                #[trigger] index::above(leaf, level),
            ) is Ok,
    ensures
        rise::<F, H>(
            hasher,
            nodes::empties::<F, H>(hasher, empty_leaf, height),
            leaf,
            value,
            from,
            to,
        ) == Ok::<F, HashError>(
            model::subtree::<F, H>(hasher, leaves, empty_leaf, to, index::above(leaf, to)),
        ),
    decreases to,
{
    if from < to {
        let below = (to - 1) as nat;
        let pos = index::above(leaf, below);
        lemma_rise_model::<F, H>(hasher, leaves, empty_leaf, height, leaf, value, from, below);
        lemma_sibling_pos(leaf, below);
        model::lemma_vacant::<F, H>(hasher, leaves, empty_leaf, below, sibling_pos(pos));
        assert(model::subtree_hash::<F, H>(
            hasher,
            leaves,
            empty_leaf,
            to,
            index::above(leaf, to),
        ) is Ok);
    }
}

/// A leaf alone below a node has no leaves beside it on the way up to the node.
pub(crate) proof fn lemma_alone_siblings<F>(leaves: Map<int, F>, leaf: int, level: nat, below: nat)
    requires
        model::non_negative(leaves),
        0 <= leaf,
        below < level,
        forall|k: int| #[trigger]
            leaves.contains_key(k) && index::above(k, level) == index::above(leaf, level) ==> k
                == leaf,
    ensures
        !model::occupied(leaves, below, sibling_pos(index::above(leaf, below))),
{
    let pos = sibling_pos(index::above(leaf, below));
    if model::occupied(leaves, below, pos) {
        let k = choose|k: int| #[trigger] leaves.contains_key(k) && index::above(k, below) == pos;
        index::lemma_above_step(k, below);
        index::lemma_above_step(leaf, below);
        lemma_divergence_above(k, leaf, below + 1);
        lemma_divergence_above(k, leaf, level);
    }
}

/// Of two leaves alone below a node, each has the other beside it on the level below
/// their meeting, and nothing beside it on the other levels up to the node.
pub(crate) proof fn lemma_pair_siblings<F>(
    leaves: Map<int, F>,
    leaf: int,
    other: int,
    level: nat,
    below: nat,
)
    requires
        model::non_negative(leaves),
        0 <= leaf,
        0 <= other,
        below < level,
        below + 1 != divergence(leaf, other),
        forall|k: int| #[trigger]
            leaves.contains_key(k) && index::above(k, level) == index::above(leaf, level) ==> k
                == leaf || k == other,
    ensures
        !model::occupied(leaves, below, sibling_pos(index::above(leaf, below))),
{
    let pos = sibling_pos(index::above(leaf, below));
    if model::occupied(leaves, below, pos) {
        let k = choose|k: int| #[trigger] leaves.contains_key(k) && index::above(k, below) == pos;
        index::lemma_above_step(k, below);
        index::lemma_above_step(leaf, below);
        lemma_divergence_above(k, leaf, below + 1);
        lemma_divergence_above(k, leaf, level);
        lemma_divergence_above(k, leaf, below);
        lemma_divergence_symmetric(leaf, other);
    }
}

/// The order of two leaves does not matter to the value above them.
pub(crate) proof fn lemma_meet_symmetric<F: PrimeField, H: FieldHasher<F, 2>>(
    hasher: &H,
    empties: Seq<F>,
    a: (u64, F),
    b: (u64, F),
    level: nat,
)
    requires
        a.0 != b.0,
        meet_and_rise::<F, H>(hasher, empties, a, b, level) is Ok,
    ensures
        meet_and_rise::<F, H>(hasher, empties, b, a, level) == meet_and_rise::<F, H>(
            hasher,
            empties,
            a,
            b,
            level,
        ),
{
    let meeting = divergence(a.0 as int, b.0 as int);
    let below = (meeting - 1) as nat;
    lemma_divergence_symmetric(a.0 as int, b.0 as int);
    lemma_divergence_bound(a.0, b.0);
    lemma_divergence_above(a.0 as int, b.0 as int, below);
    lemma_divergence_above(a.0 as int, b.0 as int, meeting);
    index::lemma_above_step(a.0 as int, below);
    index::lemma_above_step(b.0 as int, below);
    let met = meet::<F, H>(hasher, empties, a, b)->Ok_0;
    lemma_rise_same_way::<F, H>(hasher, empties, a.0 as int, b.0 as int, met, meeting, level);
}

/// From their meeting on, two leaves rise in the same way.
proof fn lemma_rise_same_way<F: PrimeField, H: FieldHasher<F, 2>>(
    hasher: &H,
    empties: Seq<F>,
    a: int,
    b: int,
    value: F,
    from: nat,
    to: nat,
)
    requires
        0 <= a,
        0 <= b,
        divergence(a, b) <= from,
    ensures
        rise::<F, H>(hasher, empties, a, value, from, to) == rise::<F, H>(
            hasher,
            empties,
            b,
            value,
            from,
            to,
        ),
    decreases to,
{
    if to > from {
        lemma_rise_same_way::<F, H>(hasher, empties, a, b, value, from, (to - 1) as nat);
        lemma_divergence_above(a, b, (to - 1) as nat);
    }
}

} // verus!
