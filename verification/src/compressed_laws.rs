//! What holds of the nodes of compressed trees, on every level.
use vstd::arithmetic::power2::*;
use vstd::prelude::*;

use crate::chain;
use crate::compressed_smt;
use crate::compressed_smt::{CompressedNode, CompressedSMT};
use crate::field::PrimeField;
use crate::index;
use crate::membership;
use crate::model;
use crate::nodes;
use crate::path;
use crate::path::Path;
use crate::poseidon;
use crate::poseidon::{FieldHasher, HashError};
use crate::smt;

verus! {

/// A leaf that is alone keeps its value on level 0. On each next level the value is hashed
/// with the empty value, on the right if the binary place of the leaf's index is 0 and on the
/// left if it is 1.
pub proof fn law_single_hash<F: PrimeField, H: FieldHasher<F, 2>>(
    hasher: &H,
    empties: Seq<F>,
    leaf: int,
    value: F,
    level: nat,
)
    ensures
        chain::rise::<F, H>(hasher, empties, leaf, value, 0, 0) == Ok::<F, HashError>(value),
        chain::rise::<F, H>(hasher, empties, leaf, value, 0, level) matches Ok(below)
            ==> chain::rise::<F, H>(hasher, empties, leaf, value, 0, level + 1)
            == if index::above(leaf, level) % 2 == 0 {
            poseidon::pair_hash::<F, H>(hasher, below, empties[level as int])
        } else {
            poseidon::pair_hash::<F, H>(hasher, empties[level as int], below)
        },
        chain::rise::<F, H>(hasher, empties, leaf, value, 0, level) matches Err(e)
            ==> chain::rise::<F, H>(hasher, empties, leaf, value, 0, level + 1) == Err::<
            F,
            HashError,
        >(e),
{
}

/// The empty leaf, alone in its subtree, gives the empty value of every level, whatever its
/// index.
pub proof fn law_empty_leaf<F: PrimeField, H: FieldHasher<F, 2>>(
    hasher: &H,
    empty_leaf: F,
    height: nat,
    leaf: int,
    level: nat,
)
    requires
        level <= height,
        smt::empties_hashable::<F, H>(hasher, empty_leaf, level),
    ensures
        chain::rise::<F, H>(
            hasher,
            nodes::empties::<F, H>(hasher, empty_leaf, height),
            leaf,
            empty_leaf,
            0,
            level,
        ) == Ok::<F, HashError>(model::empty::<F, H>(hasher, empty_leaf, level)),
    decreases level,
{
    if level > 0 {
        let below = (level - 1) as nat;
        law_empty_leaf::<F, H>(hasher, empty_leaf, height, leaf, below);
        assert(smt::empty_hash::<F, H>(hasher, empty_leaf, below) is Ok);
    }
}

/// Where the empty leaf, alone in its subtree, can be hashed up to a level, it gives the empty
/// value of the level.
pub(crate) proof fn lemma_empty_leaf_rises<F: PrimeField, H: FieldHasher<F, 2>>(
    hasher: &H,
    empty_leaf: F,
    height: nat,
    leaf: int,
    level: nat,
)
    requires
        level <= height,
        chain::rise::<F, H>(
            hasher,
            nodes::empties::<F, H>(hasher, empty_leaf, height),
            leaf,
            empty_leaf,
            0,
            level,
        ) is Ok,
    ensures
        chain::rise::<F, H>(
            hasher,
            nodes::empties::<F, H>(hasher, empty_leaf, height),
            leaf,
            empty_leaf,
            0,
            level,
        ) == Ok::<F, HashError>(model::empty::<F, H>(hasher, empty_leaf, level)),
    decreases level,
{
    if level > 0 {
        lemma_empty_leaf_rises::<F, H>(hasher, empty_leaf, height, leaf, (level - 1) as nat);
    }
}

/// The order of two leaves does not matter to the value above them.
pub proof fn law_double_hash_symmetric<F: PrimeField, H: FieldHasher<F, 2>>(
    hasher: &H,
    empties: Seq<F>,
    a: (u64, F),
    b: (u64, F),
    level: nat,
)
    requires
        a.0 != b.0,
        chain::meet_and_rise::<F, H>(hasher, empties, a, b, level) is Ok,
    ensures
        chain::meet_and_rise::<F, H>(hasher, empties, b, a, level) == chain::meet_and_rise::<F, H>(
            hasher,
            empties,
            a,
            b,
            level,
        ),
{
    chain::lemma_meet_symmetric::<F, H>(hasher, empties, a, b, level);
}

/// A second leaf with the value of the empty leaf adds nothing, if the empty values below the
/// level can be hashed.
pub proof fn law_double_hash_empty<F: PrimeField, H: FieldHasher<F, 2>>(
    hasher: &H,
    empty_leaf: F,
    height: nat,
    a: (u64, F),
    b: (u64, F),
    level: nat,
)
    requires
        a.0 != b.0,
        b.1 == empty_leaf,
        chain::divergence(a.0 as int, b.0 as int) <= level <= height,
        smt::empties_hashable::<F, H>(hasher, empty_leaf, level),
    ensures
        chain::meet_and_rise::<F, H>(
            hasher,
            nodes::empties::<F, H>(hasher, empty_leaf, height),
            a,
            b,
            level,
        ) == chain::rise::<F, H>(
            hasher,
            nodes::empties::<F, H>(hasher, empty_leaf, height),
            a.0 as int,
            a.1,
            0,
            level,
        ),
{
    let below = (chain::divergence(a.0 as int, b.0 as int) - 1) as nat;
    chain::lemma_divergence_bound(a.0, b.0);
    law_empty_leaf::<F, H>(hasher, empty_leaf, height, b.0 as int, below);
    lemma_second_empty::<F, H>(hasher, empty_leaf, height, a, b, level);
}

/// A second leaf that rises to the empty value adds nothing.
pub(crate) proof fn lemma_second_empty<F: PrimeField, H: FieldHasher<F, 2>>(
    hasher: &H,
    empty_leaf: F,
    height: nat,
    a: (u64, F),
    b: (u64, F),
    level: nat,
)
    requires
        a.0 != b.0,
        b.1 == empty_leaf,
        chain::divergence(a.0 as int, b.0 as int) <= level <= height,
        chain::rise::<F, H>(
            hasher,
            nodes::empties::<F, H>(hasher, empty_leaf, height),
            b.0 as int,
            b.1,
            0,
            (chain::divergence(a.0 as int, b.0 as int) - 1) as nat,
        ) is Ok,
    ensures
        chain::meet_and_rise::<F, H>(
            hasher,
            nodes::empties::<F, H>(hasher, empty_leaf, height),
            a,
            b,
            level,
        ) == chain::rise::<F, H>(
            hasher,
            nodes::empties::<F, H>(hasher, empty_leaf, height),
            a.0 as int,
            a.1,
            0,
            level,
        ),
{
    let empties = nodes::empties::<F, H>(hasher, empty_leaf, height);
    let meeting = chain::divergence(a.0 as int, b.0 as int);
    let below = (meeting - 1) as nat;
    chain::lemma_divergence_bound(a.0, b.0);
    lemma_empty_leaf_rises::<F, H>(hasher, empty_leaf, height, b.0 as int, below);
    assert(chain::meet::<F, H>(hasher, empties, a, b) == chain::rise::<F, H>(
        hasher,
        empties,
        a.0 as int,
        a.1,
        0,
        meeting,
    ));
    lemma_rise_in_two::<F, H>(hasher, empties, a.0 as int, a.1, meeting, level);
}

/// Rising to a level may be done in two parts.
proof fn lemma_rise_in_two<F: PrimeField, H: FieldHasher<F, 2>>(
    hasher: &H,
    empties: Seq<F>,
    leaf: int,
    value: F,
    mid: nat,
    to: nat,
)
    requires
        mid <= to,
    ensures
        chain::rise::<F, H>(hasher, empties, leaf, value, 0, to) == match chain::rise::<F, H>(
            hasher,
            empties,
            leaf,
            value,
            0,
            mid,
        ) {
            Ok(part) => chain::rise::<F, H>(hasher, empties, leaf, part, mid, to),
            Err(e) => Err(e),
        },
    decreases to,
{
    if mid < to {
        lemma_rise_in_two::<F, H>(hasher, empties, leaf, value, mid, (to - 1) as nat);
    }
}

/// What is built from a sorted list of leaves: the class of the node goes by the length of
/// the list, it holds the leaves of a list of one or two, and its value is that of the
/// subtree. The halves of a longer list are those whose binary place below the level is 0 and
/// 1. Whether the halves were built in parallel does not matter.
pub proof fn law_build<F: PrimeField, H: FieldHasher<F, 2>>(
    node: CompressedNode<F>,
    list: Seq<(u64, F)>,
    level: usize,
    hasher: &H,
    empties: Seq<F>,
    leaves: Map<int, F>,
    empty_leaf: F,
    pos: int,
)
    requires
        compressed_smt::buildable::<F, H>(list, level, hasher, empties, leaves, empty_leaf, pos),
        node.describes::<H>(hasher, leaves, empty_leaf, level, pos),
    ensures
        node is Zero <==> list.len() == 0,
        node is Single <==> list.len() == 1,
        node is Double <==> list.len() == 2,
        node is Multi <==> list.len() >= 3,
        node matches CompressedNode::Single { leaf_index, leaf_value, .. } ==> list[0] == (
            leaf_index,
            leaf_value,
        ),
        node matches CompressedNode::Double { leaf_a, leaf_b, .. } ==> list[0] == leaf_a && list[1]
            == leaf_b,
        list.len() > 0 ==> pos == index::above(list[0].0 as int, level as nat)
            && node.hash_value(level as nat, empties) == model::subtree::<F, H>(
            hasher,
            leaves,
            empty_leaf,
            level as nat,
            pos,
        ),
        node matches CompressedNode::Multi { left, right, .. } ==> {
            &&& level >= 1
            &&& left.describes::<H>(hasher, leaves, empty_leaf, (level - 1) as usize, 2 * pos)
            &&& right.describes::<H>(hasher, leaves, empty_leaf, (level - 1) as usize, 2 * pos + 1)
        },
        level >= 1 ==> forall|k: int| #[trigger]
            compressed_smt::is_below(leaves, (level - 1) as nat, 2 * pos, k) <==> (
            compressed_smt::is_below(leaves, level as nat, pos, k) && !chain::on_right(
                k,
                (level - 1) as nat,
            )),
        level >= 1 ==> forall|k: int| #[trigger]
            compressed_smt::is_below(leaves, (level - 1) as nat, 2 * pos + 1, k) <==> (
            compressed_smt::is_below(leaves, level as nat, pos, k) && chain::on_right(
                k,
                (level - 1) as nat,
            )),
{
    let l = level as nat;
    lemma_list_class::<F, H>(node, list, hasher, leaves, empty_leaf, l, pos);
    if list.len() > 0 {
        assert(compressed_smt::is_below(leaves, l, pos, list[0].0 as int));
    }
    if level >= 1 {
        assert forall|k: int| #[trigger]
            compressed_smt::is_below(leaves, (level - 1) as nat, 2 * pos, k) <==> (
            compressed_smt::is_below(leaves, l, pos, k) && !chain::on_right(
                k,
                (level - 1) as nat,
            )) by {
            if leaves.contains_key(k) {
                index::lemma_above_step(k, (level - 1) as nat);
            }
        }
        assert forall|k: int| #[trigger]
            compressed_smt::is_below(leaves, (level - 1) as nat, 2 * pos + 1, k) <==> (
            compressed_smt::is_below(leaves, l, pos, k) && chain::on_right(
                k,
                (level - 1) as nat,
            )) by {
            if leaves.contains_key(k) {
                index::lemma_above_step(k, (level - 1) as nat);
            }
        }
    }
}

/// A node that describes the leaves of a list has the class of its length.
proof fn lemma_list_class<F: PrimeField, H: FieldHasher<F, 2>>(
    node: CompressedNode<F>,
    list: Seq<(u64, F)>,
    hasher: &H,
    leaves: Map<int, F>,
    empty_leaf: F,
    level: nat,
    pos: int,
)
    requires
        compressed_smt::listed(list, leaves, level, pos),
        node.represents::<H>(hasher, leaves, empty_leaf, level, pos),
    ensures
        node is Zero ==> list.len() == 0,
        node is Single ==> list.len() == 1,
        node is Double ==> list.len() == 2,
        node is Multi ==> list.len() >= 3,
        node matches CompressedNode::Single { leaf_index, leaf_value, .. } ==> list[0] == (
            leaf_index,
            leaf_value,
        ),
        node matches CompressedNode::Double { leaf_a, leaf_b, .. } ==> list[0] == leaf_a && list[1]
            == leaf_b,
{
    if list.len() >= 1 {
        assert(compressed_smt::is_below(leaves, level, pos, list[0].0 as int));
    }
    if list.len() >= 2 {
        assert(compressed_smt::is_below(leaves, level, pos, list[1].0 as int));
        assert(list[0].0 < list[1].0);
    }
    if list.len() >= 3 {
        assert(compressed_smt::is_below(leaves, level, pos, list[2].0 as int));
        assert(list[1].0 < list[2].0);
    }
    match node {
        CompressedNode::Zero => {
            if list.len() >= 1 {
                assert(model::occupied(leaves, level, pos));
            }
        },
        CompressedNode::Single { leaf_index, .. } => {
            assert(compressed_smt::is_below(leaves, level, pos, leaf_index as int));
            let i = choose|i: int| 0 <= i < list.len() && list[i].0 == leaf_index;
        },
        CompressedNode::Double { leaf_a, leaf_b, .. } => {
            assert(compressed_smt::is_below(leaves, level, pos, leaf_a.0 as int));
            assert(compressed_smt::is_below(leaves, level, pos, leaf_b.0 as int));
            let i = choose|i: int| 0 <= i < list.len() && list[i].0 == leaf_a.0;
            let j = choose|j: int| 0 <= j < list.len() && list[j].0 == leaf_b.0;
            if i > j {
                assert(list[j].0 < list[i].0);
            }
            assert(i == 0 && j == 1);
        },
        CompressedNode::Multi { .. } => {
            let (a, b, c) = choose|a: int, b: int, c: int|
                #![trigger compressed_smt::is_below(leaves, level, pos, a), compressed_smt::is_below(leaves, level, pos, b), compressed_smt::is_below(leaves, level, pos, c)]
                a < b < c && compressed_smt::is_below(leaves, level, pos, a)
                    && compressed_smt::is_below(leaves, level, pos, b) && compressed_smt::is_below(
                    leaves,
                    level,
                    pos,
                    c,
                );
            let i = choose|i: int| 0 <= i < list.len() && list[i].0 == a;
            let j = choose|j: int| 0 <= j < list.len() && list[j].0 == b;
            let k = choose|k: int| 0 <= k < list.len() && list[k].0 == c;
            if j < i {
                assert(list[j].0 < list[i].0);
            }
            if k < j {
                assert(list[k].0 < list[j].0);
            }
            assert(i < j < k);
        },
    }
}

/// On every level below a node the pair that it gives for a leaf that is set is that of the
/// subtree, and the topmost pair has the value of the node as its hash.
pub proof fn law_node_path<F: PrimeField, H: FieldHasher<F, 2>>(
    node: CompressedNode<F>,
    hasher: &H,
    leaves: Map<int, F>,
    empty_leaf: F,
    height: nat,
    level: usize,
    pos: int,
    target: u64,
)
    requires
        model::non_negative(leaves),
        level <= height,
        node.describes::<H>(hasher, leaves, empty_leaf, level, pos),
        index::above(target as int, level as nat) == pos,
        leaves.contains_key(target as int),
        compressed_smt::hashable_in::<F, H>(hasher, leaves, empty_leaf, level as nat, pos),
    ensures
        node.contains(target, level as nat),
        node.path_hashable::<H>(
            hasher,
            nodes::empties::<F, H>(hasher, empty_leaf, height),
            target,
            level as nat,
        ),
        forall|at: nat|
            at < level ==> #[trigger] node.pair_in::<H>(
                hasher,
                nodes::empties::<F, H>(hasher, empty_leaf, height),
                target,
                level as nat,
                at,
            ) == (
                model::subtree::<F, H>(
                    hasher,
                    leaves,
                    empty_leaf,
                    at,
                    2 * index::above(target as int, at + 1),
                ),
                model::subtree::<F, H>(
                    hasher,
                    leaves,
                    empty_leaf,
                    at,
                    2 * index::above(target as int, at + 1) + 1,
                ),
            ),
        level >= 1 ==> ({
            let top = node.pair_in::<H>(
                hasher,
                nodes::empties::<F, H>(hasher, empty_leaf, height),
                target,
                level as nat,
                (level - 1) as nat,
            );
            poseidon::pair_hash::<F, H>(hasher, top.0, top.1) == Ok::<F, HashError>(
                node.hash_value(
                    level as nat,
                    nodes::empties::<F, H>(hasher, empty_leaf, height),
                ),
            )
        }),
{
    let l = level as nat;
    let empties = nodes::empties::<F, H>(hasher, empty_leaf, height);
    membership::lemma_node_contains::<F, H>(node, hasher, leaves, empty_leaf, l, pos, target);
    membership::lemma_node_proofs::<F, H>(
        node,
        hasher,
        leaves,
        empty_leaf,
        height,
        l,
        pos,
        target,
    );
    assert forall|at: nat| at < level implies #[trigger] node.pair_in::<H>(
        hasher,
        empties,
        target,
        l,
        at,
    ) == membership::pair_of::<F, H>(hasher, leaves, empty_leaf, target as int, at) by {}
    assert(compressed_smt::is_below(leaves, l, pos, target as int));
    if level >= 1 {
        let below = (level - 1) as nat;
        let top = node.pair_in::<H>(hasher, empties, target, l, below);
        assert(top == membership::pair_of::<F, H>(
            hasher,
            leaves,
            empty_leaf,
            target as int,
            below,
        ));
        assert(model::subtree_hash::<F, H>(
            hasher,
            leaves,
            empty_leaf,
            l,
            index::above(target as int, l),
        ) is Ok);
    }
}

/// The sibling in the pair that a node gives for a leaf.
pub open spec fn sibling_in<F: PrimeField, H: FieldHasher<F, 2>>(
    node: CompressedNode<F>,
    hasher: &H,
    empties: Seq<F>,
    target: u64,
    level: nat,
    at: nat,
) -> F {
    let pair = node.pair_in::<H>(hasher, empties, target, level, at);
    if chain::on_right(target as int, at) {
        pair.0
    } else {
        pair.1
    }
}

/// The entries that a node gives for a leaf that is set are on strictly ascending levels.
/// There is one for exactly those levels on which the sibling is not the empty value, with
/// that sibling and the side of the leaf.
pub proof fn law_node_entries<F: PrimeField, H: FieldHasher<F, 2>>(
    node: CompressedNode<F>,
    hasher: &H,
    leaves: Map<int, F>,
    empty_leaf: F,
    height: nat,
    level: usize,
    pos: int,
    target: u64,
)
    requires
        model::non_negative(leaves),
        level <= height,
        node.describes::<H>(hasher, leaves, empty_leaf, level, pos),
        index::above(target as int, level as nat) == pos,
        leaves.contains_key(target as int),
        compressed_smt::hashable_in::<F, H>(hasher, leaves, empty_leaf, level as nat, pos),
    ensures
        node.sparse_hashable::<H>(
            hasher,
            nodes::empties::<F, H>(hasher, empty_leaf, height),
            target,
            level as nat,
        ),
        ({
            let empties = nodes::empties::<F, H>(hasher, empty_leaf, height);
            let entries = node.entries_in::<H>(hasher, empties, target, level as nat);
            &&& forall|i: int, j: int|
                0 <= i < j < entries.len() ==> entries[i].level < entries[j].level
            &&& forall|i: int|
                0 <= i < entries.len() ==> {
                    let entry = #[trigger] entries[i];
                    let at = entry.level as nat;
                    &&& at < level
                    &&& entry.sibling == sibling_in::<F, H>(
                        node,
                        hasher,
                        empties,
                        target,
                        level as nat,
                        at,
                    )
                    &&& entry.sibling != empties[at as int]
                    &&& entry.direction_bit == chain::on_right(target as int, at)
                }
            &&& forall|at: nat|
                at < level && #[trigger] sibling_in::<F, H>(
                    node,
                    hasher,
                    empties,
                    target,
                    level as nat,
                    at,
                ) != empties[at as int] ==> exists|i: int|
                    0 <= i < entries.len() && entries[i].level == at
        }),
{
    let l = level as nat;
    let leaf = target as int;
    let empties = nodes::empties::<F, H>(hasher, empty_leaf, height);
    membership::lemma_node_proofs::<F, H>(
        node,
        hasher,
        leaves,
        empty_leaf,
        height,
        l,
        pos,
        target,
    );
    membership::lemma_entries_prefix::<F, H>(hasher, leaves, empty_leaf, height, leaf, 0, l);
    lemma_entries_exact::<F, H>(hasher, leaves, empty_leaf, height, leaf, l);
    assert forall|at: nat| at < level implies #[trigger] sibling_in::<F, H>(
        node,
        hasher,
        empties,
        target,
        l,
        at,
    ) == membership::sibling_of::<F, H>(hasher, leaves, empty_leaf, leaf, at) by {
        assert(node.pair_in::<H>(hasher, empties, target, l, at) == membership::pair_of::<F, H>(
            hasher,
            leaves,
            empty_leaf,
            leaf,
            at,
        ));
        chain::lemma_sibling_pos(leaf, at);
    }
    let entries = node.entries_in::<H>(hasher, empties, target, l);
    assert forall|i: int| 0 <= i < entries.len() implies {
        let entry = #[trigger] entries[i];
        let at = entry.level as nat;
        &&& at < level
        &&& entry.sibling == sibling_in::<F, H>(node, hasher, empties, target, l, at)
        &&& entry.sibling != empties[at as int]
        &&& entry.direction_bit == chain::on_right(leaf, at)
    } by {
        let at = entries[i].level as nat;
        assert(sibling_in::<F, H>(node, hasher, empties, target, l, at)
            == membership::sibling_of::<F, H>(hasher, leaves, empty_leaf, leaf, at));
    }
}

/// The entries of the model are exactly the siblings that are not empty.
proof fn lemma_entries_exact<F: PrimeField, H: FieldHasher<F, 2>>(
    hasher: &H,
    leaves: Map<int, F>,
    empty_leaf: F,
    height: nat,
    leaf: int,
    levels: nat,
)
    requires
        levels <= height,
        levels <= usize::MAX,
    ensures
        ({
            let empties = nodes::empties::<F, H>(hasher, empty_leaf, height);
            let entries = membership::entries_of::<F, H>(
                hasher,
                leaves,
                empty_leaf,
                height,
                leaf,
                levels,
            );
            &&& forall|i: int|
                0 <= i < entries.len() ==> {
                    let entry = #[trigger] entries[i];
                    let at = entry.level as nat;
                    &&& at < levels
                    &&& entry.sibling == membership::sibling_of::<F, H>(
                        hasher,
                        leaves,
                        empty_leaf,
                        leaf,
                        at,
                    )
                    &&& entry.sibling != empties[at as int]
                    &&& entry.direction_bit == chain::on_right(leaf, at)
                }
            &&& forall|at: nat|
                at < levels && #[trigger] membership::sibling_of::<F, H>(
                    hasher,
                    leaves,
                    empty_leaf,
                    leaf,
                    at,
                ) != empties[at as int] ==> exists|i: int|
                    0 <= i < entries.len() && entries[i].level == at
        }),
    decreases levels,
{
    if levels > 0 {
        let last = (levels - 1) as nat;
        let empties = nodes::empties::<F, H>(hasher, empty_leaf, height);
        let below = membership::entries_of::<F, H>(
            hasher,
            leaves,
            empty_leaf,
            height,
            leaf,
            last,
        );
        let entries = membership::entries_of::<F, H>(
            hasher,
            leaves,
            empty_leaf,
            height,
            leaf,
            levels,
        );
        let sibling = membership::sibling_of::<F, H>(hasher, leaves, empty_leaf, leaf, last);
        let added = path::entry_for(empties, leaf, last, sibling);
        lemma_entries_exact::<F, H>(hasher, leaves, empty_leaf, height, leaf, last);
        assert(entries == below + added);
        assert forall|i: int| 0 <= i < entries.len() implies {
            let entry = #[trigger] entries[i];
            let at = entry.level as nat;
            &&& at < levels
            &&& entry.sibling == membership::sibling_of::<F, H>(
                hasher,
                leaves,
                empty_leaf,
                leaf,
                at,
            )
            &&& entry.sibling != empties[at as int]
            &&& entry.direction_bit == chain::on_right(leaf, at)
        } by {
            if i < below.len() {
                assert(entries[i] == below[i]);
            } else {
                assert(entries[i] == added[i - below.len()]);
            }
        }
        assert forall|at: nat|
            at < levels && #[trigger] membership::sibling_of::<F, H>(
                hasher,
                leaves,
                empty_leaf,
                leaf,
                at,
            ) != empties[at as int] implies exists|i: int|
            0 <= i < entries.len() && entries[i].level == at by {
            if at < last {
                let i = choose|i: int| 0 <= i < below.len() && below[i].level == at;
                assert(entries[i] == below[i]);
            } else {
                assert(entries[below.len() as int] == added[0]);
                assert(entries[below.len() as int].level == at);
            }
        }
    }
}

/// What a node contains are leaves, also outside of its subtree.
pub(crate) proof fn lemma_contains_leaf<F: PrimeField, H: FieldHasher<F, 2>>(
    node: CompressedNode<F>,
    hasher: &H,
    leaves: Map<int, F>,
    empty_leaf: F,
    level: nat,
    pos: int,
    target: u64,
)
    requires
        node.represents::<H>(hasher, leaves, empty_leaf, level, pos),
        node.contains(target, level),
    ensures
        leaves.contains_key(target as int),
    decreases node,
{
    match node {
        CompressedNode::Multi { left, right, .. } => {
            let below = (level - 1) as nat;
            if chain::on_right(target as int, below) {
                lemma_contains_leaf::<F, H>(
                    *right,
                    hasher,
                    leaves,
                    empty_leaf,
                    below,
                    2 * pos + 1,
                    target,
                );
            } else {
                lemma_contains_leaf::<F, H>(
                    *left,
                    hasher,
                    leaves,
                    empty_leaf,
                    below,
                    2 * pos,
                    target,
                );
            }
        },
        _ => {},
    }
}

/// A compressed tree contains exactly the leaves that it holds, for every index.
pub proof fn law_contains<F: PrimeField, H: FieldHasher<F, 2>, const N: usize>(
    tree: &CompressedSMT<F, H, N>,
    hasher: &H,
    empty_leaf: F,
    leaves: Map<int, F>,
    index: u64,
)
    requires
        tree.holds(hasher, empty_leaf, leaves),
    ensures
        tree.spec_root_node().contains(index, N as nat) <==> leaves.contains_key(index as int),
{
    let node = tree.spec_root_node();
    if leaves.contains_key(index as int) {
        index::lemma_above_range(index as int, N as nat, N as nat);
        lemma2_to64();
        membership::lemma_node_contains::<F, H>(
            node,
            hasher,
            leaves,
            empty_leaf,
            N as nat,
            0,
            index,
        );
    }
    if node.contains(index, N as nat) {
        lemma_contains_leaf::<F, H>(node, hasher, leaves, empty_leaf, N as nat, 0, index);
    }
}

/// The leaf at a position: the one that is set there, or the empty leaf.
spec fn leaf_or_empty<F>(leaves: Map<int, F>, empty_leaf: F, k: int) -> F {
    if leaves.contains_key(k) {
        leaves[k]
    } else {
        empty_leaf
    }
}

/// The first pair of the way from a leaf that is set, whatever the hash function of the proof.
proof fn lemma_first_pair<F: PrimeField, H: FieldHasher<F, 2>>(
    node: CompressedNode<F>,
    default: &H,
    hasher: &H,
    leaves: Map<int, F>,
    empty_leaf: F,
    height: nat,
    level: nat,
    pos: int,
    target: u64,
)
    requires
        model::non_negative(leaves),
        node.represents::<H>(hasher, leaves, empty_leaf, level, pos),
        1 <= level <= height,
        index::above(target as int, level) == pos,
        leaves.contains_key(target as int),
    ensures
        node.pair_in::<H>(
            default,
            nodes::empties::<F, H>(hasher, empty_leaf, height),
            target,
            level,
            0,
        ) == (
            leaf_or_empty(leaves, empty_leaf, 2 * (target as int / 2)),
            leaf_or_empty(leaves, empty_leaf, 2 * (target as int / 2) + 1),
        ),
    decreases node,
{
    let t = target as int;
    let empties = nodes::empties::<F, H>(hasher, empty_leaf, height);
    let below = (level - 1) as nat;
    let sibling = chain::sibling_pos(t);
    index::lemma_above_base(t);
    assert(empties[0] == empty_leaf);
    assert(compressed_smt::is_below(leaves, level, pos, t));
    assert(index::above(sibling, level) == pos) by {
        chain::lemma_divergence_above(t, sibling, level);
        lemma_divergence_one(t, sibling);
    }
    assert(compressed_smt::is_below(leaves, level, pos, sibling) <==> leaves.contains_key(sibling));
    match node {
        CompressedNode::Zero => {
            assert(model::occupied(leaves, level, pos));
        },
        CompressedNode::Single { leaf_index, leaf_value, .. } => {
            assert(chain::rise::<F, H>(default, empties, t, leaf_value, 0, 0) == Ok::<F, HashError>(
                leaf_value,
            ));
        },
        CompressedNode::Double { leaf_a, leaf_b, .. } => {
            let (leaf, other) = if leaf_a.0 == target {
                (leaf_a, leaf_b)
            } else {
                (leaf_b, leaf_a)
            };
            assert(leaf.0 == target);
            let a = leaf_a.0 as int;
            let b = leaf_b.0 as int;
            lemma_divergence_one(a, b);
            chain::lemma_divergence_bound(leaf_a.0, leaf_b.0);
            assert(chain::rise::<F, H>(default, empties, t, leaf.1, 0, 0) == Ok::<F, HashError>(
                leaf.1,
            ));
            assert(chain::rise::<F, H>(default, empties, other.0 as int, other.1, 0, 0) == Ok::<
                F,
                HashError,
            >(other.1));
            assert(a / 2 == b / 2 <==> other.0 == sibling);
        },
        CompressedNode::Multi { left, right, .. } => {
            index::lemma_above_step(t, below);
            if level == 1 {
                index::lemma_above_step(t, 0);
                left.lemma_hash_value::<H>(hasher, leaves, empty_leaf, height, 0, 2 * pos);
                right.lemma_hash_value::<H>(hasher, leaves, empty_leaf, height, 0, 2 * pos + 1);
            } else if chain::on_right(t, below) {
                lemma_first_pair::<F, H>(
                    *right,
                    default,
                    hasher,
                    leaves,
                    empty_leaf,
                    height,
                    below,
                    2 * pos + 1,
                    target,
                );
            } else {
                lemma_first_pair::<F, H>(
                    *left,
                    default,
                    hasher,
                    leaves,
                    empty_leaf,
                    height,
                    below,
                    2 * pos,
                    target,
                );
            }
        },
    }
}

/// Two leaves meet on level 1 exactly where they are siblings.
proof fn lemma_divergence_one(a: int, b: int)
    requires
        a >= 0,
        b >= 0,
        a != b,
    ensures
        chain::divergence(a, b) == 1 <==> a / 2 == b / 2,
        chain::divergence(a, b) >= 1,
{
    assert(chain::divergence(a, b) == 1 + chain::divergence(a / 2, b / 2));
    if a / 2 != b / 2 {
        assert(chain::divergence(a / 2, b / 2) >= 1);
    } else {
        assert(chain::divergence(a / 2, b / 2) == 0);
    }
}

/// The proof of a leaf that is set starts with the leaf, on the left side for an even index
/// and on the right side for an odd one, and beside it the leaf next to it, or the empty leaf
/// where there is none.
pub proof fn law_first_pair<F: PrimeField, H: FieldHasher<F, 2>, const N: usize>(
    tree: &CompressedSMT<F, H, N>,
    path: &Path<F, H, N>,
    hasher: &H,
    empty_leaf: F,
    leaves: Map<int, F>,
    index: u64,
)
    requires
        N > 0,
        tree.holds(hasher, empty_leaf, leaves),
        leaves.contains_key(index as int),
        tree.is_path(index, path),
    ensures
        index % 2 == 0 ==> path.path@[0].0 == leaves[index as int] && path.path@[0].1 == (
        if leaves.contains_key(index + 1) {
            leaves[index + 1]
        } else {
            empty_leaf
        }),
        index % 2 == 1 ==> path.path@[0].1 == leaves[index as int] && path.path@[0].0 == (
        if leaves.contains_key(index - 1) {
            leaves[index - 1]
        } else {
            empty_leaf
        }),
        forall|level: int|
            0 <= level < N ==> #[trigger] path.direction_bits@[level] == ((index as int / (pow2(
                level as nat,
            ) as int)) % 2 == 1),
{
    index::lemma_above_range(index as int, N as nat, N as nat);
    lemma2_to64();
    lemma_first_pair::<F, H>(
        tree.spec_root_node(),
        &H::spec_hasher(),
        hasher,
        leaves,
        empty_leaf,
        N as nat,
        N as nat,
        0,
        index,
    );
}

/// The class of the root node goes by how many leaves there are, and a node with one or two
/// leaves holds them.
pub proof fn law_root_class<F: PrimeField, H: FieldHasher<F, 2>, const N: usize>(
    tree: &CompressedSMT<F, H, N>,
    hasher: &H,
    empty_leaf: F,
    leaves: Map<int, F>,
)
    requires
        tree.holds(hasher, empty_leaf, leaves),
    ensures
        tree.spec_root_node() is Zero ==> leaves == Map::<int, F>::empty(),
        tree.spec_root_node() matches CompressedNode::Single { leaf_index, leaf_value, .. }
            ==> leaves == Map::<int, F>::empty().insert(leaf_index as int, leaf_value),
        tree.spec_root_node() matches CompressedNode::Double { leaf_a, leaf_b, .. } ==> leaf_a.0
            < leaf_b.0 && leaves == Map::<int, F>::empty().insert(
            leaf_a.0 as int,
            leaf_a.1,
        ).insert(leaf_b.0 as int, leaf_b.1),
        tree.spec_root_node() is Multi ==> exists|a: int, b: int, c: int|
            a < b < c && #[trigger] leaves.contains_key(a) && #[trigger] leaves.contains_key(b)
                && #[trigger] leaves.contains_key(c),
{
    let height = N as nat;
    assert forall|k: int| #[trigger] leaves.contains_key(k) implies compressed_smt::is_below(
        leaves,
        height,
        0,
        k,
    ) by {
        index::lemma_above_range(k, height, height);
        lemma2_to64();
    }
    match tree.spec_root_node() {
        CompressedNode::Zero => {
            assert forall|k: int| !leaves.contains_key(k) by {
                if leaves.contains_key(k) {
                    assert(compressed_smt::is_below(leaves, height, 0, k));
                    assert(model::occupied(leaves, height, 0));
                }
            }
            assert(leaves =~= Map::<int, F>::empty());
        },
        CompressedNode::Single { leaf_index, leaf_value, .. } => {
            assert(leaves =~= Map::<int, F>::empty().insert(leaf_index as int, leaf_value));
        },
        CompressedNode::Double { leaf_a, leaf_b, .. } => {
            assert(leaves =~= Map::<int, F>::empty().insert(leaf_a.0 as int, leaf_a.1).insert(
                leaf_b.0 as int,
                leaf_b.1,
            ));
        },
        CompressedNode::Multi { .. } => {
            let (a, b, c) = choose|a: int, b: int, c: int|
                #![trigger compressed_smt::is_below(leaves, height, 0, a), compressed_smt::is_below(leaves, height, 0, b), compressed_smt::is_below(leaves, height, 0, c)]
                a < b < c && compressed_smt::is_below(leaves, height, 0, a)
                    && compressed_smt::is_below(leaves, height, 0, b) && compressed_smt::is_below(
                    leaves,
                    height,
                    0,
                    c,
                );
            assert(leaves.contains_key(a) && leaves.contains_key(b) && leaves.contains_key(c));
        },
    }
}

/// Two leaves meet on the lowest level on which they are below one node: halving both indices
/// that often, and no less often, gives the same.
pub proof fn law_meeting(a: int, b: int, level: nat)
    requires
        a >= 0,
        b >= 0,
    ensures
        chain::divergence(a, b) <= level <==> a / (pow2(level) as int) == b / (pow2(level) as int),
{
    chain::lemma_divergence_above(a, b, level);
}

/// On the level where two leaves meet, the values that they have on the level below are hashed
/// together, the one of the leaf whose binary digit there is 0 first. On each next level the
/// result is hashed with the empty value, on the side that the binary digit says.
pub proof fn law_double_hash<F: PrimeField, H: FieldHasher<F, 2>>(
    hasher: &H,
    empties: Seq<F>,
    a: (u64, F),
    b: (u64, F),
    level: nat,
)
    requires
        a.0 != b.0,
        chain::divergence(a.0 as int, b.0 as int) <= level,
    ensures
        ({
            let meeting = chain::divergence(a.0 as int, b.0 as int);
            let below = (meeting - 1) as nat;
            &&& meeting >= 1
            &&& chain::rise::<F, H>(hasher, empties, a.0 as int, a.1, 0, below) matches Ok(x) ==> (
            chain::rise::<F, H>(hasher, empties, b.0 as int, b.1, 0, below) matches Ok(y)
                ==> chain::meet_and_rise::<F, H>(hasher, empties, a, b, meeting)
                == hasher.spec_hash(
                if (a.0 as int / (pow2(below) as int)) % 2 == 1 {
                    seq![y, x]
                } else {
                    seq![x, y]
                },
            ))
        }),
        chain::meet_and_rise::<F, H>(hasher, empties, a, b, level) matches Ok(x)
            ==> chain::meet_and_rise::<F, H>(hasher, empties, a, b, level + 1) == hasher.spec_hash(
            if (a.0 as int / (pow2(level) as int)) % 2 == 1 {
                seq![empties[level as int], x]
            } else {
                seq![x, empties[level as int]]
            },
        ),
{
    chain::lemma_divergence_bound(a.0, b.0);
    let up = level + 1;
    assert((up - 1) as nat == level);
    assert(empties[up - 1] == empties[level as int]);
}

/// The leaves of a list with ascending indices: each index has its value, and no other has
/// one.
pub proof fn law_list_leaves<F>(list: Seq<(u64, F)>)
    requires
        forall|i: int, j: int| 0 <= i < j < list.len() ==> list[i].0 < list[j].0,
    ensures
        forall|i: int|
            0 <= i < list.len() ==> compressed_smt::list_leaves(list).get(
                (#[trigger] list[i]).0 as int,
            ) == Some(list[i].1),
        forall|k: int| #[trigger]
            compressed_smt::list_leaves(list).contains_key(k) ==> exists|i: int|
                0 <= i < list.len() && (#[trigger] list[i]).0 == k,
{
    let leaves = compressed_smt::list_leaves(list);
    assert forall|i: int| 0 <= i < list.len() implies leaves.get((#[trigger] list[i]).0 as int)
        == Some(list[i].1) by {
        let k = list[i].0 as int;
        let j = choose|j: int| 0 <= j < list.len() && (#[trigger] list[j]).0 == k;
        assert(leaves.contains_key(k));
        if i < j {
            assert(list[i].0 < list[j].0);
        }
        if j < i {
            assert(list[j].0 < list[i].0);
        }
    }
}

/// Empty values: each next one is the hash of the one before with itself, where that can be
/// hashed.
pub proof fn law_are_empties<F: PrimeField, H: FieldHasher<F, 2>>(
    hasher: &H,
    empties: Seq<F>,
    level: int,
)
    requires
        compressed_smt::are_empties::<F, H>(hasher, empties),
        0 <= level < empties.len() - 1,
        hasher.spec_hash(seq![empties[level], empties[level]]) is Ok,
    ensures
        hasher.spec_hash(seq![empties[level], empties[level]]) == Ok::<F, HashError>(
            empties[level + 1],
        ),
{
    let all = nodes::empties::<F, H>(hasher, empties[0], empties.len());
    assert(empties[level] == all[level]);
    assert(empties[level + 1] == all[level + 1]);
    let up = (level + 1) as nat;
    assert((up - 1) as nat == level as nat);
}

/// The leaves of a list that is sorted below a node are ascending, and halving any of their
/// indices as often as the level says gives the position of the node.
pub proof fn law_sorted_below<F>(list: Seq<(u64, F)>, level: nat, i: int)
    requires
        compressed_smt::is_sorted_below(list, level),
        0 <= i < list.len(),
    ensures
        compressed_smt::list_pos(list, level) == list[i].0 as int / (pow2(level) as int),
        i + 1 < list.len() ==> list[i].0 < list[i + 1].0,
{
    assert(index::above(list[i].0 as int, level) == compressed_smt::list_pos(list, level));
}

/// A tree made from a map with 64-bit keys contains exactly the keys of the map, and the proof
/// for a key starts with its value, on the side that the key says.
pub proof fn law_keys_of_map<F: PrimeField, H: FieldHasher<F, 2>, const N: usize>(
    tree: &CompressedSMT<F, H, N>,
    path: &Path<F, H, N>,
    hasher: &H,
    empty_leaf: F,
    leaves: Map<u64, F>,
    key: u64,
)
    requires
        N > 0,
        tree.holds(
            hasher,
            empty_leaf,
            Map::new(
                |k: int| 0 <= k <= u64::MAX && leaves.contains_key(k as u64),
                |k: int| leaves[k as u64],
            ),
        ),
        tree.is_path(key, path),
    ensures
        tree.spec_root_node().contains(key, N as nat) <==> leaves.contains_key(key),
        leaves.contains_key(key) && key % 2 == 0 ==> path.path@[0].0 == leaves[key],
        leaves.contains_key(key) && key % 2 == 1 ==> path.path@[0].1 == leaves[key],
{
    let all = Map::new(
        |k: int| 0 <= k <= u64::MAX && leaves.contains_key(k as u64),
        |k: int| leaves[k as u64],
    );
    law_contains(tree, hasher, empty_leaf, all, key);
    if leaves.contains_key(key) {
        law_first_pair(tree, path, hasher, empty_leaf, all, key);
    }
}

} // verus!
