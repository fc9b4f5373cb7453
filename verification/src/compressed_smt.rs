//! Sparse Merkle trees that keep one node for a subtree with few leaves.
//!
//! Subtrees are classified by the number of leaves that are set in them. Those with none,
//! one or two are kept without their inner nodes, whose values follow from the leaves.
//! Roots and proofs are those of [`crate::smt::SparseMerkleTree`].
use std::collections::BTreeMap;
use std::marker::PhantomData;
use vstd::arithmetic::power2::*;
use vstd::prelude::*;
use vstd::slice::slice_subrange;

use crate::chain;
use crate::collections;
use crate::compressed_laws;
use crate::field;
use crate::field::PrimeField;
use crate::index;
use crate::membership;
use crate::model;
use crate::nodes;
use crate::path;
use crate::path::{Error, Path, SparsePath, SparsePathEntry};
use crate::poseidon::{hash_pair, FieldHasher, HashError};
use crate::smt;
use crate::smt::gen_empty_hashes;

verus! {

broadcast use vstd::std_specs::btree::group_btree_axioms;

/// With more leaves than this in a subtree its halves are built in parallel.
const PARALLEL_THRESHOLD: usize = 1024;

/// `rayon::join`: calls both closures, possibly at the same time, and returns both results.
pub assume_specification<A, B, RA, RB>[ rayon::join::<A, B, RA, RB> ](oper_a: A, oper_b: B) -> (r: (
    RA,
    RB,
)) where A: FnOnce() -> RA + Send, B: FnOnce() -> RB + Send, RA: Send, RB: Send
    requires
        call_requires(oper_a, ()),
        call_requires(oper_b, ()),
    ensures
        call_ensures(oper_a, (), r.0),
        call_ensures(oper_b, (), r.1),
;

/// A subtree, by the number of leaves that are set in it.
pub enum CompressedNode<F: PrimeField> {
    /// No leaf is set. The value is the empty value of the level.
    Zero,
    /// One leaf is set.
    Single {
        /// The index of the leaf.
        leaf_index: u64,
        /// The leaf.
        leaf_value: F,
        /// The value of the subtree.
        hash: F,
    },
    /// Two leaves are set.
    Double {
        /// The leaf with the lower index.
        leaf_a: (u64, F),
        /// The leaf with the higher index.
        leaf_b: (u64, F),
        /// The value of the subtree.
        hash: F,
    },
    /// Three or more leaves are set.
    Multi {
        /// The value of the subtree.
        hash: F,
        /// The left half.
        left: Box<CompressedNode<F>>,
        /// The right half.
        right: Box<CompressedNode<F>>,
    },
}

/// A leaf is set at `k`, below the node at `pos` of `level`.
pub open spec fn is_below<F>(leaves: Map<int, F>, level: nat, pos: int, k: int) -> bool {
    leaves.contains_key(k) && index::above(k, level) == pos
}

/// The list holds the leaves below the node at `pos` of `level`, in ascending order.
pub open spec fn listed<F>(list: Seq<(u64, F)>, leaves: Map<int, F>, level: nat, pos: int) -> bool {
    &&& forall|i: int, j: int| 0 <= i < j < list.len() ==> list[i].0 < list[j].0
    &&& forall|i: int|
        0 <= i < list.len() ==> is_below(leaves, level, pos, (#[trigger] list[i]).0 as int)
            && leaves[list[i].0 as int] == list[i].1
    &&& forall|k: int|
        #![trigger is_below(leaves, level, pos, k)]
        is_below(leaves, level, pos, k) ==> exists|i: int|
            0 <= i < list.len() && list[i].0 == k
}

/// The nodes above the leaves below the node at `pos` of `level`, up to that node, can be
/// hashed.
pub open spec fn hashable_in<F: PrimeField, H: FieldHasher<F, 2>>(
    hasher: &H,
    leaves: Map<int, F>,
    empty_leaf: F,
    level: nat,
    pos: int,
) -> bool {
    forall|k: int, l: nat|
        is_below(leaves, level, pos, k) && 1 <= l <= level ==> model::subtree_hash::<F, H>(
            hasher,
            leaves,
            empty_leaf,
            l,
            #[trigger] index::above(k, l),
        ) is Ok
}

impl<F: PrimeField> CompressedNode<F> {
    /// The node fits on `level`: two leaves meet there or below, and the halves of a node
    /// fit on the level below.
    pub open spec fn wf(self, level: nat) -> bool
        decreases self,
    {
        match self {
            CompressedNode::Zero => true,
            CompressedNode::Single { .. } => level <= 64,
            CompressedNode::Double { leaf_a, leaf_b, .. } => level <= 64 && leaf_a.0 != leaf_b.0
                && chain::divergence(leaf_a.0 as int, leaf_b.0 as int) <= level,
            CompressedNode::Multi { left, right, .. } => 1 <= level <= 64 && left.wf(
                (level - 1) as nat,
            ) && right.wf((level - 1) as nat),
        }
    }

    /// The value of the subtree on `level`.
    pub open spec fn hash_value(self, level: nat, empties: Seq<F>) -> F {
        match self {
            CompressedNode::Zero => empties[level as int],
            CompressedNode::Single { hash, .. } => hash,
            CompressedNode::Double { hash, .. } => hash,
            CompressedNode::Multi { hash, .. } => hash,
        }
    }

    /// Whether the leaf at `target` is set in the subtree.
    pub open spec fn contains(self, target: u64, level: nat) -> bool
        decreases self,
    {
        match self {
            CompressedNode::Zero => false,
            CompressedNode::Single { leaf_index, .. } => leaf_index == target,
            CompressedNode::Double { leaf_a, leaf_b, .. } => leaf_a.0 == target || leaf_b.0
                == target,
            CompressedNode::Multi { left, right, .. } => if chain::on_right(
                target as int,
                (level - 1) as nat,
            ) {
                right.contains(target, (level - 1) as nat)
            } else {
                left.contains(target, (level - 1) as nat)
            },
        }
    }

    /// The hashes that [`CompressedSMT::generate_membership_proof`] computes succeed.
    pub open spec fn path_hashable<H: FieldHasher<F, 2>>(
        self,
        hasher: &H,
        empties: Seq<F>,
        target: u64,
        level: nat,
    ) -> bool
        decreases self,
    {
        match self {
            CompressedNode::Zero => true,
            CompressedNode::Single { leaf_index, leaf_value, .. } => chain::rise::<F, H>(
                hasher,
                empties,
                leaf_index as int,
                leaf_value,
                0,
                level,
            ) is Ok,
            CompressedNode::Double { leaf_a, leaf_b, .. } => chain::meet_and_rise::<F, H>(
                hasher,
                empties,
                leaf_a,
                leaf_b,
                level,
            ) is Ok,
            CompressedNode::Multi { left, right, .. } => if chain::on_right(
                target as int,
                (level - 1) as nat,
            ) {
                right.path_hashable::<H>(hasher, empties, target, (level - 1) as nat)
            } else {
                left.path_hashable::<H>(hasher, empties, target, (level - 1) as nat)
            },
        }
    }

    /// The hashes that [`CompressedSMT::generate_sparse_membership_proof`] computes succeed.
    pub open spec fn sparse_hashable<H: FieldHasher<F, 2>>(
        self,
        hasher: &H,
        empties: Seq<F>,
        target: u64,
        level: nat,
    ) -> bool
        decreases self,
    {
        match self {
            CompressedNode::Zero => true,
            CompressedNode::Single { .. } => true,
            CompressedNode::Double { leaf_a, leaf_b, .. } => {
                let other = if leaf_a.0 == target {
                    leaf_b
                } else {
                    leaf_a
                };
                let below = (chain::divergence(leaf_a.0 as int, leaf_b.0 as int) - 1) as nat;
                chain::rise::<F, H>(hasher, empties, other.0 as int, other.1, 0, below) is Ok
            },
            CompressedNode::Multi { left, right, .. } => if chain::on_right(
                target as int,
                (level - 1) as nat,
            ) {
                right.sparse_hashable::<H>(hasher, empties, target, (level - 1) as nat)
            } else {
                left.sparse_hashable::<H>(hasher, empties, target, (level - 1) as nat)
            },
        }
    }

    /// The pair on level `at` of the way from the leaf at `target` to the top of the subtree
    /// on `level`: computed with `hasher` below one or two leaves, and read off the stored
    /// values above.
    pub open spec fn pair_in<H: FieldHasher<F, 2>>(
        self,
        hasher: &H,
        empties: Seq<F>,
        target: u64,
        level: nat,
        at: nat,
    ) -> (F, F)
        decreases self,
    {
        let right_side = chain::on_right(target as int, at);
        match self {
            CompressedNode::Zero => (empties[at as int], empties[at as int]),
            CompressedNode::Single { leaf_index, leaf_value, .. } => chain::sides(
                right_side,
                chain::rise::<F, H>(hasher, empties, target as int, leaf_value, 0, at)->Ok_0,
                empties[at as int],
            ),
            CompressedNode::Double { leaf_a, leaf_b, .. } => {
                let (leaf, other) = if leaf_a.0 == target {
                    (leaf_a, leaf_b)
                } else {
                    (leaf_b, leaf_a)
                };
                let meeting = chain::divergence(leaf_a.0 as int, leaf_b.0 as int);
                if at + 1 < meeting {
                    chain::sides(
                        right_side,
                        chain::rise::<F, H>(hasher, empties, target as int, leaf.1, 0, at)->Ok_0,
                        empties[at as int],
                    )
                } else if at + 1 == meeting {
                    chain::sides(
                        right_side,
                        chain::rise::<F, H>(hasher, empties, target as int, leaf.1, 0, at)->Ok_0,
                        chain::rise::<F, H>(hasher, empties, other.0 as int, other.1, 0, at)->Ok_0,
                    )
                } else {
                    chain::sides(
                        right_side,
                        chain::meet_and_rise::<F, H>(hasher, empties, leaf, other, at)->Ok_0,
                        empties[at as int],
                    )
                }
            },
            CompressedNode::Multi { left, right, .. } => if at + 1 >= level {
                (
                    left.hash_value((level - 1) as nat, empties),
                    right.hash_value((level - 1) as nat, empties),
                )
            } else if chain::on_right(target as int, (level - 1) as nat) {
                right.pair_in::<H>(hasher, empties, target, (level - 1) as nat, at)
            } else {
                left.pair_in::<H>(hasher, empties, target, (level - 1) as nat, at)
            },
        }
    }

    /// The siblings on the way from the leaf at `target` to the top of the subtree on
    /// `level` which are not the empty value of their level.
    pub open spec fn entries_in<H: FieldHasher<F, 2>>(
        self,
        hasher: &H,
        empties: Seq<F>,
        target: u64,
        level: nat,
    ) -> Seq<SparsePathEntry<F>>
        decreases self,
    {
        match self {
            CompressedNode::Zero => Seq::empty(),
            CompressedNode::Single { .. } => Seq::empty(),
            CompressedNode::Double { leaf_a, leaf_b, .. } => {
                let other = if leaf_a.0 == target {
                    leaf_b
                } else {
                    leaf_a
                };
                let below = (chain::divergence(leaf_a.0 as int, leaf_b.0 as int) - 1) as nat;
                path::entry_for(
                    empties,
                    target as int,
                    below,
                    chain::rise::<F, H>(hasher, empties, other.0 as int, other.1, 0, below)->Ok_0,
                )
            },
            CompressedNode::Multi { left, right, .. } => {
                let below = (level - 1) as nat;
                if chain::on_right(target as int, below) {
                    right.entries_in::<H>(hasher, empties, target, below) + path::entry_for(
                        empties,
                        target as int,
                        below,
                        left.hash_value(below, empties),
                    )
                } else {
                    left.entries_in::<H>(hasher, empties, target, below) + path::entry_for(
                        empties,
                        target as int,
                        below,
                        right.hash_value(below, empties),
                    )
                }
            },
        }
    }

    /// The node describes the subtree at `pos` of `level` of the tree with the given leaves:
    /// its class goes by the number of leaves below it, and its value is that of the tree.
    pub open spec fn represents<H: FieldHasher<F, 2>>(
        self,
        hasher: &H,
        leaves: Map<int, F>,
        empty_leaf: F,
        level: nat,
        pos: int,
    ) -> bool
        decreases self,
    {
        let value = model::subtree::<F, H>(hasher, leaves, empty_leaf, level, pos);
        match self {
            CompressedNode::Zero => !model::occupied(leaves, level, pos),
            CompressedNode::Single { leaf_index, leaf_value, hash } => {
                &&& is_below(leaves, level, pos, leaf_index as int)
                &&& leaves[leaf_index as int] == leaf_value
                &&& forall|k: int| is_below(leaves, level, pos, k) ==> k == leaf_index
                &&& hash == value
            },
            CompressedNode::Double { leaf_a, leaf_b, hash } => {
                &&& leaf_a.0 < leaf_b.0
                &&& is_below(leaves, level, pos, leaf_a.0 as int)
                &&& is_below(leaves, level, pos, leaf_b.0 as int)
                &&& leaves[leaf_a.0 as int] == leaf_a.1
                &&& leaves[leaf_b.0 as int] == leaf_b.1
                &&& forall|k: int|
                    is_below(leaves, level, pos, k) ==> k == leaf_a.0 || k == leaf_b.0
                &&& hash == value
            },
            CompressedNode::Multi { hash, left, right } => {
                &&& level >= 1
                &&& left.represents::<H>(hasher, leaves, empty_leaf, (level - 1) as nat, 2 * pos)
                &&& right.represents::<H>(
                    hasher,
                    leaves,
                    empty_leaf,
                    (level - 1) as nat,
                    2 * pos + 1,
                )
                &&& exists|a: int, b: int, c: int|
                    #![trigger is_below(leaves, level, pos, a), is_below(leaves, level, pos, b), is_below(leaves, level, pos, c)]
                    a < b < c && is_below(leaves, level, pos, a) && is_below(leaves, level, pos, b)
                        && is_below(leaves, level, pos, c)
                &&& hash == value
            },
        }
    }

    /// The node describes a subtree and fits on its level.
    pub open spec fn describes<H: FieldHasher<F, 2>>(
        self,
        hasher: &H,
        leaves: Map<int, F>,
        empty_leaf: F,
        level: usize,
        pos: int,
    ) -> bool {
        &&& self.represents::<H>(hasher, leaves, empty_leaf, level as nat, pos)
        &&& self.wf(level as nat)
    }

    /// The value of a node that describes a subtree is the value of the subtree.
    pub(crate) proof fn lemma_hash_value<H: FieldHasher<F, 2>>(
        self,
        hasher: &H,
        leaves: Map<int, F>,
        empty_leaf: F,
        height: nat,
        level: nat,
        pos: int,
    )
        requires
            model::non_negative(leaves),
            level < height,
            self.represents::<H>(hasher, leaves, empty_leaf, level, pos),
        ensures
            self.hash_value(level, nodes::empties::<F, H>(hasher, empty_leaf, height))
                == model::subtree::<F, H>(hasher, leaves, empty_leaf, level, pos),
    {
        if self is Zero {
            model::lemma_vacant::<F, H>(hasher, leaves, empty_leaf, level, pos);
        }
    }

    /// The value of the subtree on `level`.
    fn hash_at_level(&self, level: usize, empty_hashes: &[F]) -> (r: F)
        requires
            *self is Zero ==> level < empty_hashes@.len(),
        ensures
            r == self.hash_value(level as nat, empty_hashes@),
    {
        match self {
            CompressedNode::Zero => empty_hashes[level],
            CompressedNode::Single { hash, .. } => *hash,
            CompressedNode::Double { hash, .. } => *hash,
            CompressedNode::Multi { hash, .. } => *hash,
        }
    }

    /// The name of the class of the subtree.
    pub fn variant_name(&self) -> (r: &'static str)
        ensures
            *self is Zero ==> r@ == "Zero"@,
            *self is Single ==> r@ == "Single"@,
            *self is Double ==> r@ == "Double"@,
            *self is Multi ==> r@ == "Multi"@,
    {
        match self {
            CompressedNode::Zero => "Zero",
            CompressedNode::Single { .. } => "Single",
            CompressedNode::Double { .. } => "Double",
            CompressedNode::Multi { .. } => "Multi",
        }
    }
}

/// Whether the way up from the leaf at `index` passes on the right side of its pair on
/// `level`.
fn passes_right(index: u64, level: usize) -> (r: bool)
    requires
        level < 64,
    ensures
        r == chain::on_right(index as int, level as nat),
{
    proof {
        index::lemma_shr_above(index, level as u64);
        index::lemma_bit(index >> (level as u64));
    }
    (index >> level) & 1 == 1
}

impl<F: PrimeField> CompressedNode<F> {
    /// Whether the leaf at `target` is set in the subtree on `level`.
    fn has_leaf(&self, target: u64, level: usize) -> (r: bool)
        requires
            self.wf(level as nat),
        ensures
            r == self.contains(target, level as nat),
        decreases self,
    {
        match self {
            CompressedNode::Zero => false,
            CompressedNode::Single { leaf_index, .. } => *leaf_index == target,
            CompressedNode::Double { leaf_a, leaf_b, .. } => leaf_a.0 == target || leaf_b.0
                == target,
            CompressedNode::Multi { left, right, .. } => if passes_right(target, level - 1) {
                right.has_leaf(target, level - 1)
            } else {
                left.has_leaf(target, level - 1)
            },
        }
    }
}

/// Hashes a node with its sibling.
fn hash_sides<F: PrimeField, H: FieldHasher<F, 2>>(
    hasher: &H,
    right: bool,
    node: F,
    sibling: F,
) -> (r: F)
    requires
        path::side_hash::<F, H>(hasher, right, node, sibling) is Ok,
    ensures
        path::side_hash::<F, H>(hasher, right, node, sibling) == Ok::<F, HashError>(r),
{
    if right {
        hash_pair(hasher, sibling, node).unwrap()
    } else {
        hash_pair(hasher, node, sibling).unwrap()
    }
}

/// Hashes a node on level `from` up to level `to` with empty siblings.
fn hash_up<F: PrimeField, H: FieldHasher<F, 2>>(
    index: u64,
    value: F,
    from: usize,
    to: usize,
    hasher: &H,
    empty_hashes: &[F],
) -> (r: F)
    requires
        from <= to <= 64,
        to <= empty_hashes@.len(),
        chain::rise::<F, H>(
            hasher,
            empty_hashes@,
            index as int,
            value,
            from as nat,
            to as nat,
        ) is Ok,
    ensures
        chain::rise::<F, H>(
            hasher,
            empty_hashes@,
            index as int,
            value,
            from as nat,
            to as nat,
        ) == Ok::<F, HashError>(r),
{
    let mut h: F = value;
    for l in from..to
        invariant
            from <= to <= 64,
            to <= empty_hashes@.len(),
            chain::rise::<F, H>(
                hasher,
                empty_hashes@,
                index as int,
                value,
                from as nat,
                to as nat,
            ) is Ok,
            chain::rise::<F, H>(
                hasher,
                empty_hashes@,
                index as int,
                value,
                from as nat,
                l as nat,
            ) == Ok::<F, HashError>(h),
    {
        proof {
            chain::lemma_rise_prefix::<F, H>(
                hasher,
                empty_hashes@,
                index as int,
                value,
                from as nat,
                (l + 1) as nat,
                to as nat,
            );
        }
        h = hash_sides(hasher, passes_right(index, l), h, empty_hashes[l]);
    }
    h
}

/// Every next value is the hash of the one before with itself.
pub open spec fn are_empties<F: PrimeField, H: FieldHasher<F, 2>>(
    hasher: &H,
    empties: Seq<F>,
) -> bool {
    empties == nodes::empties::<F, H>(hasher, empties[0], empties.len())
}

/// The value on `level` above a leaf with empty siblings. For the empty leaf it is the empty
/// value of the level.
pub fn compute_single_hash<F: PrimeField, H: FieldHasher<F, 2>>(
    leaf: (u64, F),
    level: usize,
    hasher: &H,
    empty_hashes: &[F],
) -> (r: F)
    requires
        level <= 64,
        level <= empty_hashes@.len(),
        chain::rise::<F, H>(hasher, empty_hashes@, leaf.0 as int, leaf.1, 0, level as nat) is Ok,
    ensures
        chain::rise::<F, H>(hasher, empty_hashes@, leaf.0 as int, leaf.1, 0, level as nat) == Ok::<
            F,
            HashError,
        >(r),
        leaf.1 == empty_hashes@[0] && level < empty_hashes@.len() && are_empties::<F, H>(
            hasher,
            empty_hashes@,
        ) ==> r == empty_hashes@[level as int],
{
    proof {
        if leaf.1 == empty_hashes@[0] && level < empty_hashes@.len() && are_empties::<F, H>(
            hasher,
            empty_hashes@,
        ) {
            compressed_laws::lemma_empty_leaf_rises::<F, H>(
                hasher,
                leaf.1,
                empty_hashes@.len(),
                leaf.0 as int,
                level as nat,
            );
        }
    }
    hash_up(leaf.0, leaf.1, 0, level, hasher, empty_hashes)
}

/// The lowest level on which two leaves are below the same node.
fn meeting_level(a: u64, b: u64) -> (r: usize)
    requires
        a != b,
    ensures
        r == chain::divergence(a as int, b as int),
        1 <= r <= 64,
{
    let xor = a ^ b;
    proof {
        chain::lemma_divergence_bits(a, b);
        chain::lemma_divergence_bound(a, b);
    }
    (64 - xor.leading_zeros()) as usize
}

/// The value on `level` above two leaves with empty siblings: each is hashed up to the
/// level below their meeting, the two are hashed together, and the result is hashed up to
/// `level`. The order of the leaves does not matter, and a second leaf with the value of the
/// empty leaf adds nothing.
pub fn compute_double_hash<F: PrimeField, H: FieldHasher<F, 2>>(
    a: (u64, F),
    b: (u64, F),
    level: usize,
    hasher: &H,
    empty_hashes: &[F],
) -> (r: F)
    requires
        a.0 != b.0,
        chain::divergence(a.0 as int, b.0 as int) <= level <= 64,
        level <= empty_hashes@.len(),
        chain::meet_and_rise::<F, H>(hasher, empty_hashes@, a, b, level as nat) is Ok,
    ensures
        chain::meet_and_rise::<F, H>(hasher, empty_hashes@, a, b, level as nat) == Ok::<
            F,
            HashError,
        >(r),
        chain::meet_and_rise::<F, H>(hasher, empty_hashes@, b, a, level as nat) == Ok::<
            F,
            HashError,
        >(r),
        b.1 == empty_hashes@[0] && are_empties::<F, H>(hasher, empty_hashes@) ==> chain::rise::<
            F,
            H,
        >(hasher, empty_hashes@, a.0 as int, a.1, 0, level as nat) == Ok::<F, HashError>(r),
{
    proof {
        compressed_laws::law_double_hash_symmetric::<F, H>(
            hasher,
            empty_hashes@,
            a,
            b,
            level as nat,
        );
        if b.1 == empty_hashes@[0] && are_empties::<F, H>(hasher, empty_hashes@) {
            compressed_laws::lemma_second_empty::<F, H>(
                hasher,
                b.1,
                empty_hashes@.len(),
                a,
                b,
                level as nat,
            );
        }
    }
    let div_level = meeting_level(a.0, b.0);
    let a_hash = compute_single_hash(a, div_level - 1, hasher, empty_hashes);
    let b_hash = compute_single_hash(b, div_level - 1, hasher, empty_hashes);
    let h = hash_sides(hasher, passes_right(a.0, div_level - 1), a_hash, b_hash);
    hash_up(a.0, h, div_level, level, hasher, empty_hashes)
}

/// The leaves on the right half of a node follow those on the left half.
proof fn lemma_halves_ordered<F>(
    list: Seq<(u64, F)>,
    leaves: Map<int, F>,
    level: nat,
    pos: int,
    i: int,
    j: int,
)
    requires
        listed(list, leaves, level, pos),
        level >= 1,
        0 <= i <= j < list.len(),
        chain::on_right(list[i].0 as int, (level - 1) as nat),
    ensures
        chain::on_right(list[j].0 as int, (level - 1) as nat),
{
    let below = (level - 1) as nat;
    lemma_pow2_pos(below);
    index::lemma_above_step(list[i].0 as int, below);
    index::lemma_above_step(list[j].0 as int, below);
    vstd::arithmetic::div_mod::lemma_div_is_ordered(
        list[i].0 as int,
        list[j].0 as int,
        pow2(below) as int,
    );
    assert(is_below(leaves, level, pos, list[i].0 as int));
    assert(is_below(leaves, level, pos, list[j].0 as int));
}

/// The number of leaves of a list that are in the left half of the node on `level`.
fn partition<F: PrimeField>(
    list: &[(u64, F)],
    level: usize,
    leaves: Ghost<Map<int, F>>,
    pos: Ghost<int>,
) -> (r: usize)
    requires
        1 <= level <= 64,
        listed(list@, leaves@, level as nat, pos@),
    ensures
        r <= list@.len(),
        forall|i: int|
            0 <= i < r ==> !chain::on_right(
                (#[trigger] list@[i]).0 as int,
                (level - 1) as nat,
            ),
        forall|i: int|
            r <= i < list@.len() ==> chain::on_right(
                (#[trigger] list@[i]).0 as int,
                (level - 1) as nat,
            ),
{
    let mut low: usize = 0;
    let mut high: usize = list.len();
    while low < high
        invariant
            1 <= level <= 64,
            listed(list@, leaves@, level as nat, pos@),
            low <= high <= list@.len(),
            forall|i: int|
                0 <= i < low ==> !chain::on_right(
                    (#[trigger] list@[i]).0 as int,
                    (level - 1) as nat,
                ),
            forall|i: int|
                high <= i < list@.len() ==> chain::on_right(
                    (#[trigger] list@[i]).0 as int,
                    (level - 1) as nat,
                ),
        decreases high - low,
    {
        let mid: usize = low + (high - low) / 2;
        if passes_right(list[mid].0, level - 1) {
            proof {
                assert forall|i: int| mid <= i < list@.len() implies chain::on_right(
                    (#[trigger] list@[i]).0 as int,
                    (level - 1) as nat,
                ) by {
                    lemma_halves_ordered(list@, leaves@, level as nat, pos@, mid as int, i);
                }
            }
            high = mid;
        } else {
            proof {
                assert forall|i: int| 0 <= i <= mid implies !chain::on_right(
                    (#[trigger] list@[i]).0 as int,
                    (level - 1) as nat,
                ) by {
                    if chain::on_right(list@[i].0 as int, (level - 1) as nat) {
                        lemma_halves_ordered(list@, leaves@, level as nat, pos@, i, mid as int);
                    }
                }
            }
            low = mid + 1;
        }
    }
    low
}

/// The two parts of a list are the lists of the two halves of the node.
proof fn lemma_halves_listed<F>(
    list: Seq<(u64, F)>,
    leaves: Map<int, F>,
    level: nat,
    pos: int,
    split: int,
)
    requires
        model::non_negative(leaves),
        listed(list, leaves, level, pos),
        level >= 1,
        0 <= split <= list.len(),
        forall|i: int|
            0 <= i < split ==> !chain::on_right((#[trigger] list[i]).0 as int, (level - 1) as nat),
        forall|i: int|
            split <= i < list.len() ==> chain::on_right(
                (#[trigger] list[i]).0 as int,
                (level - 1) as nat,
            ),
    ensures
        listed(list.subrange(0, split), leaves, (level - 1) as nat, 2 * pos),
        listed(list.subrange(split, list.len() as int), leaves, (level - 1) as nat, 2 * pos + 1),
{
    let below = (level - 1) as nat;
    let left = list.subrange(0, split);
    let right = list.subrange(split, list.len() as int);
    assert forall|i: int| 0 <= i < left.len() implies is_below(
        leaves,
        below,
        2 * pos,
        (#[trigger] left[i]).0 as int,
    ) && leaves[left[i].0 as int] == left[i].1 by {
        assert(left[i] == list[i]);
        index::lemma_above_step(list[i].0 as int, below);
    }
    assert forall|i: int| 0 <= i < right.len() implies is_below(
        leaves,
        below,
        2 * pos + 1,
        (#[trigger] right[i]).0 as int,
    ) && leaves[right[i].0 as int] == right[i].1 by {
        assert(right[i] == list[split + i]);
        index::lemma_above_step(list[split + i].0 as int, below);
    }
    assert forall|k: int|
        #![trigger is_below(leaves, below, 2 * pos, k)]
        is_below(leaves, below, 2 * pos, k) implies exists|i: int|
        0 <= i < left.len() && left[i].0 == k by {
        index::lemma_above_step(k, below);
        assert(is_below(leaves, level, pos, k));
        let i = choose|i: int| 0 <= i < list.len() && list[i].0 == k;
        assert(!chain::on_right(list[i].0 as int, below));
        assert(left[i].0 == k);
    }
    assert forall|k: int|
        #![trigger is_below(leaves, below, 2 * pos + 1, k)]
        is_below(leaves, below, 2 * pos + 1, k) implies exists|i: int|
        0 <= i < right.len() && right[i].0 == k by {
        index::lemma_above_step(k, below);
        assert(is_below(leaves, level, pos, k));
        let i = choose|i: int| 0 <= i < list.len() && list[i].0 == k;
        assert(chain::on_right(list[i].0 as int, below));
        assert(right[i - split].0 == k);
    }
}

/// What can be hashed in a node can be hashed in its halves.
pub(crate) proof fn lemma_halves_hashable<F: PrimeField, H: FieldHasher<F, 2>>(
    hasher: &H,
    leaves: Map<int, F>,
    empty_leaf: F,
    level: nat,
    pos: int,
)
    requires
        model::non_negative(leaves),
        level >= 1,
        hashable_in::<F, H>(hasher, leaves, empty_leaf, level, pos),
    ensures
        hashable_in::<F, H>(hasher, leaves, empty_leaf, (level - 1) as nat, 2 * pos),
        hashable_in::<F, H>(hasher, leaves, empty_leaf, (level - 1) as nat, 2 * pos + 1),
{
    let below = (level - 1) as nat;
    assert forall|k: int, l: nat|
        (is_below(leaves, below, 2 * pos, k) || is_below(leaves, below, 2 * pos + 1, k)) && 1 <= l
            <= below implies model::subtree_hash::<F, H>(
        hasher,
        leaves,
        empty_leaf,
        l,
        #[trigger] index::above(k, l),
    ) is Ok by {
        index::lemma_above_step(k, below);
        assert(is_below(leaves, level, pos, k));
    }
}

/// The value above a leaf that is alone below a node is that of the model.
pub(crate) proof fn lemma_single_value<F: PrimeField, H: FieldHasher<F, 2>>(
    hasher: &H,
    leaves: Map<int, F>,
    empty_leaf: F,
    height: nat,
    level: nat,
    pos: int,
    leaf: int,
    to: nat,
)
    requires
        model::non_negative(leaves),
        to <= level <= height,
        is_below(leaves, level, pos, leaf),
        forall|k: int| is_below(leaves, level, pos, k) ==> k == leaf,
        hashable_in::<F, H>(hasher, leaves, empty_leaf, level, pos),
    ensures
        chain::rise::<F, H>(
            hasher,
            nodes::empties::<F, H>(hasher, empty_leaf, height),
            leaf,
            leaves[leaf],
            0,
            to,
        ) == Ok::<F, HashError>(
            model::subtree::<F, H>(hasher, leaves, empty_leaf, to, index::above(leaf, to)),
        ),
{
    index::lemma_above_base(leaf);
    assert forall|l: nat| 0 <= l < to implies !model::occupied(
        leaves,
        l,
        chain::sibling_pos(#[trigger] index::above(leaf, l)),
    ) by {
        assert forall|k: int| #[trigger]
            leaves.contains_key(k) && index::above(k, level) == index::above(leaf, level) implies k
            == leaf by {
            assert(is_below(leaves, level, pos, k));
        }
        chain::lemma_alone_siblings(leaves, leaf, level, l);
    }
    chain::lemma_rise_model::<F, H>(
        hasher,
        leaves,
        empty_leaf,
        height,
        leaf,
        leaves[leaf],
        0,
        to,
    );
}

/// Of two leaves alone below a node: the values on the way of either up to the level below
/// their meeting, and on the way from their meeting to the node, are those of the model.
pub(crate) proof fn lemma_double_values<F: PrimeField, H: FieldHasher<F, 2>>(
    hasher: &H,
    leaves: Map<int, F>,
    empty_leaf: F,
    height: nat,
    level: nat,
    pos: int,
    a: (u64, F),
    b: (u64, F),
)
    requires
        model::non_negative(leaves),
        level <= height,
        a.0 != b.0,
        is_below(leaves, level, pos, a.0 as int),
        is_below(leaves, level, pos, b.0 as int),
        leaves[a.0 as int] == a.1,
        leaves[b.0 as int] == b.1,
        forall|k: int| is_below(leaves, level, pos, k) ==> k == a.0 || k == b.0,
        hashable_in::<F, H>(hasher, leaves, empty_leaf, level, pos),
    ensures
        1 <= chain::divergence(a.0 as int, b.0 as int) <= level,
        forall|to: nat|
            to < chain::divergence(a.0 as int, b.0 as int) ==> #[trigger] chain::rise::<F, H>(
                hasher,
                nodes::empties::<F, H>(hasher, empty_leaf, height),
                a.0 as int,
                a.1,
                0,
                to,
            ) == Ok::<F, HashError>(
                model::subtree::<F, H>(
                    hasher,
                    leaves,
                    empty_leaf,
                    to,
                    index::above(a.0 as int, to),
                ),
            ),
        forall|to: nat|
            chain::divergence(a.0 as int, b.0 as int) <= to <= level
                ==> #[trigger] chain::meet_and_rise::<F, H>(
                hasher,
                nodes::empties::<F, H>(hasher, empty_leaf, height),
                a,
                b,
                to,
            ) == Ok::<F, HashError>(
                model::subtree::<F, H>(
                    hasher,
                    leaves,
                    empty_leaf,
                    to,
                    index::above(a.0 as int, to),
                ),
            ),
{
    let meeting = chain::divergence(a.0 as int, b.0 as int);
    let below = (meeting - 1) as nat;
    let empties = nodes::empties::<F, H>(hasher, empty_leaf, height);
    chain::lemma_divergence_bound(a.0, b.0);
    chain::lemma_divergence_above(a.0 as int, b.0 as int, level);
    chain::lemma_divergence_symmetric(a.0 as int, b.0 as int);
    assert forall|to: nat| to < meeting implies #[trigger] chain::rise::<F, H>(
        hasher,
        empties,
        a.0 as int,
        a.1,
        0,
        to,
    ) == Ok::<F, HashError>(
        model::subtree::<F, H>(hasher, leaves, empty_leaf, to, index::above(a.0 as int, to)),
    ) by {
        lemma_pair_rise::<F, H>(
            hasher,
            leaves,
            empty_leaf,
            height,
            level,
            pos,
            a.0 as int,
            b.0 as int,
            0,
            to,
        );
    }
    lemma_pair_rise::<F, H>(
        hasher,
        leaves,
        empty_leaf,
        height,
        level,
        pos,
        b.0 as int,
        a.0 as int,
        0,
        below,
    );
    chain::lemma_sibling_pos(a.0 as int, below);
    chain::lemma_divergence_above(a.0 as int, b.0 as int, below);
    chain::lemma_divergence_above(a.0 as int, b.0 as int, meeting);
    index::lemma_above_step(a.0 as int, below);
    index::lemma_above_step(b.0 as int, below);
    assert(index::above(b.0 as int, below) == chain::sibling_pos(index::above(a.0 as int, below)));
    let met = model::subtree::<F, H>(
        hasher,
        leaves,
        empty_leaf,
        meeting,
        index::above(a.0 as int, meeting),
    );
    assert(model::subtree_hash::<F, H>(
        hasher,
        leaves,
        empty_leaf,
        meeting,
        index::above(a.0 as int, meeting),
    ) is Ok);
    assert(chain::meet::<F, H>(hasher, empties, a, b) == Ok::<F, HashError>(met));
    assert forall|to: nat| meeting <= to <= level implies #[trigger] chain::meet_and_rise::<F, H>(
        hasher,
        empties,
        a,
        b,
        to,
    ) == Ok::<F, HashError>(
        model::subtree::<F, H>(hasher, leaves, empty_leaf, to, index::above(a.0 as int, to)),
    ) by {
        lemma_pair_rise::<F, H>(
            hasher,
            leaves,
            empty_leaf,
            height,
            level,
            pos,
            a.0 as int,
            b.0 as int,
            meeting,
            to,
        );
    }
}

/// Away from the level below their meeting, each of two leaves alone below a node rises as
/// in the model.
proof fn lemma_pair_rise<F: PrimeField, H: FieldHasher<F, 2>>(
    hasher: &H,
    leaves: Map<int, F>,
    empty_leaf: F,
    height: nat,
    level: nat,
    pos: int,
    leaf: int,
    other: int,
    from: nat,
    to: nat,
)
    requires
        model::non_negative(leaves),
        from <= to <= level <= height,
        is_below(leaves, level, pos, leaf),
        is_below(leaves, level, pos, other),
        forall|k: int| is_below(leaves, level, pos, k) ==> k == leaf || k == other,
        hashable_in::<F, H>(hasher, leaves, empty_leaf, level, pos),
        to < chain::divergence(leaf, other) || chain::divergence(leaf, other) <= from,
    ensures
        chain::rise::<F, H>(
            hasher,
            nodes::empties::<F, H>(hasher, empty_leaf, height),
            leaf,
            model::subtree::<F, H>(hasher, leaves, empty_leaf, from, index::above(leaf, from)),
            from,
            to,
        ) == Ok::<F, HashError>(
            model::subtree::<F, H>(hasher, leaves, empty_leaf, to, index::above(leaf, to)),
        ),
        from == 0 ==> model::subtree::<F, H>(
            hasher,
            leaves,
            empty_leaf,
            from,
            index::above(leaf, from),
        ) == leaves[leaf],
{
    index::lemma_above_base(leaf);
    assert forall|l: nat| from <= l < to implies !model::occupied(
        leaves,
        l,
        chain::sibling_pos(#[trigger] index::above(leaf, l)),
    ) by {
        assert forall|k: int| #[trigger]
            leaves.contains_key(k) && index::above(k, level) == index::above(leaf, level) implies k
            == leaf || k == other by {
            assert(is_below(leaves, level, pos, k));
        }
        chain::lemma_pair_siblings(leaves, leaf, other, level, l);
    }
    chain::lemma_rise_model::<F, H>(
        hasher,
        leaves,
        empty_leaf,
        height,
        leaf,
        model::subtree::<F, H>(hasher, leaves, empty_leaf, from, index::above(leaf, from)),
        from,
        to,
    );
}

/// What it takes to build the node for the subtree at `pos` of `level`.
pub open spec fn buildable<F: PrimeField, H: FieldHasher<F, 2>>(
    list: Seq<(u64, F)>,
    level: usize,
    hasher: &H,
    empties: Seq<F>,
    leaves: Map<int, F>,
    empty_leaf: F,
    pos: int,
) -> bool {
    &&& model::non_negative(leaves)
    &&& listed(list, leaves, level as nat, pos)
    &&& list.len() > 0 ==> level <= 64
    &&& level <= empties.len()
    &&& empties == nodes::empties::<F, H>(hasher, empty_leaf, empties.len())
    &&& hashable_in::<F, H>(hasher, leaves, empty_leaf, level as nat, pos)
}

/// The node for the subtree at `pos` of `level`, from the sorted list of its leaves. The
/// halves of a large subtree are built in parallel.
fn build_subtree<F: PrimeField, H: FieldHasher<F, 2> + Sync>(
    list: &[(u64, F)],
    level: usize,
    hasher: &H,
    empty_hashes: &[F],
    leaves: Ghost<Map<int, F>>,
    empty_leaf: Ghost<F>,
    pos: Ghost<int>,
) -> (r: CompressedNode<F>)
    requires
        buildable::<F, H>(
            list@,
            level,
            hasher,
            empty_hashes@,
            leaves@,
            empty_leaf@,
            pos@,
        ),
    ensures
        r.describes::<H>(hasher, leaves@, empty_leaf@, level, pos@),
    decreases level,
{
    let ghost height = empty_hashes@.len();
    let ghost all = leaves@;
    if list.len() == 0 {
        proof {
            if model::occupied(all, level as nat, pos@) {
                let k = choose|k: int| #[trigger]
                    all.contains_key(k) && index::above(k, level as nat) == pos@;
                assert(is_below(all, level as nat, pos@, k));
            }
        }
        CompressedNode::Zero
    } else if list.len() == 1 {
        proof {
            assert(is_below(all, level as nat, pos@, list@[0].0 as int));
            lemma_single_value::<F, H>(
                hasher,
                all,
                empty_leaf@,
                height,
                level as nat,
                pos@,
                list@[0].0 as int,
                level as nat,
            );
        }
        let hash = compute_single_hash(list[0], level, hasher, empty_hashes);
        CompressedNode::Single { leaf_index: list[0].0, leaf_value: list[0].1, hash }
    } else if list.len() == 2 {
        proof {
            assert(is_below(all, level as nat, pos@, list@[0].0 as int));
            assert(is_below(all, level as nat, pos@, list@[1].0 as int));
            lemma_double_values::<F, H>(
                hasher,
                all,
                empty_leaf@,
                height,
                level as nat,
                pos@,
                list@[0],
                list@[1],
            );
        }
        let hash = compute_double_hash(list[0], list[1], level, hasher, empty_hashes);
        CompressedNode::Double { leaf_a: list[0], leaf_b: list[1], hash }
    } else {
        proof {
            assert(is_below(all, level as nat, pos@, list@[0].0 as int));
            assert(is_below(all, level as nat, pos@, list@[1].0 as int));
            assert(is_below(all, level as nat, pos@, list@[2].0 as int));
            assert(list@[0].0 < list@[1].0 < list@[2].0);
            index::lemma_above_base(list@[0].0 as int);
            index::lemma_above_base(list@[1].0 as int);
        }
        let split = partition(list, level, leaves, pos);
        let left_leaves = slice_subrange(list, 0, split);
        let right_leaves = slice_subrange(list, split, list.len());
        let ghost left_pos = 2 * pos@;
        let ghost right_pos = 2 * pos@ + 1;
        proof {
            lemma_halves_listed(list@, all, level as nat, pos@, split as int);
            lemma_halves_hashable::<F, H>(hasher, all, empty_leaf@, level as nat, pos@);
        }
        let below: usize = level - 1;
        let (left, right) = if list.len() > PARALLEL_THRESHOLD {
            rayon::join(
                || -> (node: CompressedNode<F>)
                    requires
                        buildable(
                            left_leaves@,
                            below,
                            hasher,
                            empty_hashes@,
                            leaves@,
                            empty_leaf@,
                            left_pos,
                        ),
                    ensures
                        node.describes(hasher, leaves@, empty_leaf@, below, left_pos)
                    {
                        build_subtree(
                            left_leaves,
                            below,
                            hasher,
                            empty_hashes,
                            leaves,
                            empty_leaf,
                            Ghost(left_pos),
                        )
                    },
                || -> (node: CompressedNode<F>)
                    requires
                        buildable(
                            right_leaves@,
                            below,
                            hasher,
                            empty_hashes@,
                            leaves@,
                            empty_leaf@,
                            right_pos,
                        ),
                    ensures
                        node.describes(hasher, leaves@, empty_leaf@, below, right_pos)
                    {
                        build_subtree(
                            right_leaves,
                            below,
                            hasher,
                            empty_hashes,
                            leaves,
                            empty_leaf,
                            Ghost(right_pos),
                        )
                    },
            )
        } else {
            (
                build_subtree(
                    left_leaves,
                    below,
                    hasher,
                    empty_hashes,
                    leaves,
                    empty_leaf,
                    Ghost(left_pos),
                ),
                build_subtree(
                    right_leaves,
                    below,
                    hasher,
                    empty_hashes,
                    leaves,
                    empty_leaf,
                    Ghost(right_pos),
                ),
            )
        };
        let left_hash = left.hash_at_level(below, empty_hashes);
        let right_hash = right.hash_at_level(below, empty_hashes);
        proof {
            left.lemma_hash_value::<H>(hasher, all, empty_leaf@, height, below as nat, left_pos);
            right.lemma_hash_value::<H>(hasher, all, empty_leaf@, height, below as nat, right_pos);
            assert(index::above(list@[0].0 as int, level as nat) == pos@);
            assert(model::subtree_hash::<F, H>(hasher, all, empty_leaf@, level as nat, pos@) is Ok);
        }
        let hash = hash_sides(hasher, false, left_hash, right_hash);
        CompressedNode::Multi { hash, left: Box::new(left), right: Box::new(right) }
    }
}

/// The leaves of a list, by position.
pub open spec fn list_leaves<F>(list: Seq<(u64, F)>) -> Map<int, F> {
    Map::new(
        |k: int| exists|i: int| 0 <= i < list.len() && (#[trigger] list[i]).0 == k,
        |k: int| list[choose|i: int| 0 <= i < list.len() && (#[trigger] list[i]).0 == k].1,
    )
}

/// The position on `level` of the node above the leaves of a list.
pub open spec fn list_pos<F>(list: Seq<(u64, F)>, level: nat) -> int {
    if list.len() == 0 {
        0
    } else {
        index::above(list[0].0 as int, level)
    }
}

/// The indices of a list are ascending, and below one node of `level`.
pub open spec fn is_sorted_below<F>(list: Seq<(u64, F)>, level: nat) -> bool {
    &&& forall|i: int, j: int| 0 <= i < j < list.len() ==> list[i].0 < list[j].0
    &&& forall|i: int|
        0 <= i < list.len() ==> index::above((#[trigger] list[i]).0 as int, level) == list_pos(
            list,
            level,
        )
}

/// The node for the subtree on `level` above the leaves of a sorted list. Every next empty
/// value is the hash of the one before with itself. The halves of a large subtree are built in
/// parallel.
pub fn build<F: PrimeField, H: FieldHasher<F, 2> + Sync>(
    list: &[(u64, F)],
    level: usize,
    hasher: &H,
    empty_hashes: &[F],
) -> (r: CompressedNode<F>)
    requires
        is_sorted_below(list@, level as nat),
        list@.len() > 0 ==> level <= 64,
        level <= empty_hashes@.len(),
        are_empties::<F, H>(hasher, empty_hashes@),
        hashable_in::<F, H>(
            hasher,
            list_leaves(list@),
            empty_hashes@[0],
            level as nat,
            list_pos(list@, level as nat),
        ),
    ensures
        r is Zero <==> list@.len() == 0,
        r is Single <==> list@.len() == 1,
        r is Double <==> list@.len() == 2,
        r is Multi <==> list@.len() >= 3,
        list@.len() > 0 ==> r.hash_value(level as nat, empty_hashes@) == model::subtree::<F, H>(
            hasher,
            list_leaves(list@),
            empty_hashes@[0],
            level as nat,
            list_pos(list@, level as nat),
        ),
        r.describes::<H>(
            hasher,
            list_leaves(list@),
            empty_hashes@[0],
            level,
            list_pos(list@, level as nat),
        ),
        forall|i: int|
            0 <= i < list@.len() ==> r.contains((#[trigger] list@[i]).0, level as nat),
        forall|k: u64| #[trigger]
            r.contains(k, level as nat) ==> exists|i: int|
                0 <= i < list@.len() && (#[trigger] list@[i]).0 == k,
        r matches CompressedNode::Single { leaf_index, leaf_value, .. } ==> list@[0] == (
            leaf_index,
            leaf_value,
        ),
        r matches CompressedNode::Double { leaf_a, leaf_b, .. } ==> list@[0] == leaf_a && list@[1]
            == leaf_b,
{
    let ghost leaves = list_leaves(list@);
    let ghost pos = list_pos(list@, level as nat);
    proof {
        assert forall|i: int| 0 <= i < list@.len() implies is_below(
            leaves,
            level as nat,
            pos,
            (#[trigger] list@[i]).0 as int,
        ) && leaves[list@[i].0 as int] == list@[i].1 by {
            let k = list@[i].0 as int;
            let j = choose|j: int| 0 <= j < list@.len() && (#[trigger] list@[j]).0 == k;
            assert(leaves.contains_key(k));
            assert(leaves[k] == list@[j].1);
            assert(i == j) by {
                if i < j {
                    assert(list@[i].0 < list@[j].0);
                } else if j < i {
                    assert(list@[j].0 < list@[i].0);
                }
            }
        }
        assert(listed(list@, leaves, level as nat, pos));
        assert(buildable::<F, H>(
            list@,
            level,
            hasher,
            empty_hashes@,
            leaves,
            empty_hashes@[0],
            pos,
        ));
    }
    let r = build_subtree(
        list,
        level,
        hasher,
        empty_hashes,
        Ghost(leaves),
        Ghost(empty_hashes@[0]),
        Ghost(pos),
    );
    proof {
        compressed_laws::law_build::<F, H>(
            r,
            list@,
            level,
            hasher,
            empty_hashes@,
            leaves,
            empty_hashes@[0],
            pos,
        );
        assert forall|i: int| 0 <= i < list@.len() implies r.contains(
            (#[trigger] list@[i]).0,
            level as nat,
        ) by {
            membership::lemma_node_contains::<F, H>(
                r,
                hasher,
                leaves,
                empty_hashes@[0],
                level as nat,
                pos,
                list@[i].0,
            );
        }
        assert forall|k: u64| #[trigger] r.contains(k, level as nat) implies exists|i: int|
            0 <= i < list@.len() && (#[trigger] list@[i]).0 == k by {
            compressed_laws::lemma_contains_leaf::<F, H>(
                r,
                hasher,
                leaves,
                empty_hashes@[0],
                level as nat,
                pos,
                k,
            );
            assert(leaves.contains_key(k as int));
        }
    }
    r
}

/// Fills in the pairs on the levels from `from` up to `to` above the leaf at `index`, whose
/// siblings there are empty, and returns the node on level `to`.
fn fill_up<F: PrimeField, H: FieldHasher<F, 2>, const N: usize>(
    index: u64,
    value: F,
    from: usize,
    to: usize,
    hasher: &H,
    empty_hashes: &[F],
    path: &mut [(F, F); N],
    direction_bits: &mut [bool; N],
) -> (r: F)
    requires
        from <= to <= 64,
        to <= N,
        to <= empty_hashes@.len(),
        chain::rise::<F, H>(
            hasher,
            empty_hashes@,
            index as int,
            value,
            from as nat,
            to as nat,
        ) is Ok,
    ensures
        chain::rise::<F, H>(
            hasher,
            empty_hashes@,
            index as int,
            value,
            from as nat,
            to as nat,
        ) == Ok::<F, HashError>(r),
        forall|l: int|
            from <= l < to ==> #[trigger] final(path)@[l] == chain::sides(
                chain::on_right(index as int, l as nat),
                chain::rise::<F, H>(
                    hasher,
                    empty_hashes@,
                    index as int,
                    value,
                    from as nat,
                    l as nat,
                )->Ok_0,
                empty_hashes@[l],
            ),
        forall|l: int|
            from <= l < to ==> #[trigger] final(direction_bits)@[l] == chain::on_right(
                index as int,
                l as nat,
            ),
        forall|l: int|
            (0 <= l < from || to <= l < N) ==> #[trigger] final(path)@[l] == old(path)@[l],
        forall|l: int|
            (0 <= l < from || to <= l < N) ==> #[trigger] final(direction_bits)@[l] == old(
                direction_bits,
            )@[l],
{
    let mut h: F = value;
    for l in from..to
        invariant
            from <= to <= 64,
            to <= N,
            to <= empty_hashes@.len(),
            chain::rise::<F, H>(
                hasher,
                empty_hashes@,
                index as int,
                value,
                from as nat,
                to as nat,
            ) is Ok,
            chain::rise::<F, H>(
                hasher,
                empty_hashes@,
                index as int,
                value,
                from as nat,
                l as nat,
            ) == Ok::<F, HashError>(h),
            forall|k: int|
                from <= k < l ==> #[trigger] path@[k] == chain::sides(
                    chain::on_right(index as int, k as nat),
                    chain::rise::<F, H>(
                        hasher,
                        empty_hashes@,
                        index as int,
                        value,
                        from as nat,
                        k as nat,
                    )->Ok_0,
                    empty_hashes@[k],
                ),
            forall|k: int|
                from <= k < l ==> #[trigger] direction_bits@[k] == chain::on_right(
                    index as int,
                    k as nat,
                ),
            forall|k: int|
                (0 <= k < from || l <= k < N) ==> #[trigger] path@[k] == old(path)@[k],
            forall|k: int|
                (0 <= k < from || l <= k < N) ==> #[trigger] direction_bits@[k] == old(
                    direction_bits,
                )@[k],
    {
        proof {
            chain::lemma_rise_prefix::<F, H>(
                hasher,
                empty_hashes@,
                index as int,
                value,
                from as nat,
                (l + 1) as nat,
                to as nat,
            );
        }
        let right = passes_right(index, l);
        let sibling = empty_hashes[l];
        path[l] = if right {
            (sibling, h)
        } else {
            (h, sibling)
        };
        direction_bits[l] = right;
        h = hash_sides(hasher, right, h, sibling);
    }
    h
}

/// The node describes the subtree at `pos` of `level` with the given leaves, of which `target`
/// is one, and the subtree can be hashed.
pub open spec fn is_leaf_of<F: PrimeField, H: FieldHasher<F, 2>>(
    node: CompressedNode<F>,
    hasher: &H,
    empties: Seq<F>,
    leaves: Map<int, F>,
    level: usize,
    pos: int,
    target: u64,
) -> bool {
    &&& model::non_negative(leaves)
    &&& are_empties::<F, H>(hasher, empties)
    &&& node.describes::<H>(hasher, leaves, empties[0], level, pos)
    &&& is_below(leaves, level as nat, pos, target as int)
    &&& hashable_in::<F, H>(hasher, leaves, empties[0], level as nat, pos)
}

/// Fills in the pairs and direction bits on the way from the leaf at `target_index` to the
/// top of the subtree on `level`.
pub fn fill_path<F: PrimeField, H: FieldHasher<F, 2>, const N: usize>(
    node: &CompressedNode<F>,
    target_index: u64,
    level: usize,
    hasher: &H,
    empty_hashes: &[F],
    path: &mut [(F, F); N],
    direction_bits: &mut [bool; N],
)
    requires
        node.wf(level as nat),
        node.contains(target_index, level as nat),
        node.path_hashable::<H>(hasher, empty_hashes@, target_index, level as nat),
        level <= N,
        level <= empty_hashes@.len(),
    ensures
        forall|l: int|
            0 <= l < level ==> #[trigger] final(path)@[l] == node.pair_in::<H>(
                hasher,
                empty_hashes@,
                target_index,
                level as nat,
                l as nat,
            ),
        forall|l: int|
            0 <= l < level ==> #[trigger] final(direction_bits)@[l] == chain::on_right(
                target_index as int,
                l as nat,
            ),
        forall|l: int| level <= l < N ==> #[trigger] final(path)@[l] == old(path)@[l],
        forall|l: int|
            level <= l < N ==> #[trigger] final(direction_bits)@[l] == old(direction_bits)@[l],
        forall|leaves: Map<int, F>, pos: int|
            #[trigger] is_leaf_of::<F, H>(
                *node,
                hasher,
                empty_hashes@,
                leaves,
                level,
                pos,
                target_index,
            ) ==> forall|l: int|
                0 <= l < level ==> #[trigger] final(path)@[l] == membership::pair_of::<F, H>(
                    hasher,
                    leaves,
                    empty_hashes@[0],
                    target_index as int,
                    l as nat,
                ),
    decreases node,
{
    match node {
        CompressedNode::Zero => {},
        CompressedNode::Single { leaf_value, .. } => {
            fill_up(
                target_index,
                *leaf_value,
                0,
                level,
                hasher,
                empty_hashes,
                path,
                direction_bits,
            );
        },
        CompressedNode::Double { leaf_a, leaf_b, .. } => {
            let (target_leaf, other_leaf) = if leaf_a.0 == target_index {
                (*leaf_a, *leaf_b)
            } else {
                (*leaf_b, *leaf_a)
            };
            proof {
                chain::lemma_divergence_symmetric(leaf_a.0 as int, leaf_b.0 as int);
                chain::lemma_meet_symmetric::<F, H>(
                    hasher,
                    empty_hashes@,
                    *leaf_a,
                    *leaf_b,
                    level as nat,
                );
            }
            let div_level = meeting_level(target_leaf.0, other_leaf.0);
            let h = fill_up(
                target_index,
                target_leaf.1,
                0,
                div_level - 1,
                hasher,
                empty_hashes,
                path,
                direction_bits,
            );
            let other_hash = compute_single_hash(other_leaf, div_level - 1, hasher, empty_hashes);
            let right = passes_right(target_index, div_level - 1);
            path[div_level - 1] = if right {
                (other_hash, h)
            } else {
                (h, other_hash)
            };
            direction_bits[div_level - 1] = right;
            let met = hash_sides(hasher, right, h, other_hash);
            fill_up(
                target_index,
                met,
                div_level,
                level,
                hasher,
                empty_hashes,
                path,
                direction_bits,
            );
        },
        CompressedNode::Multi { left, right, .. } => {
            let below: usize = level - 1;
            let on_right = passes_right(target_index, below);
            if on_right {
                fill_path(
                    right,
                    target_index,
                    below,
                    hasher,
                    empty_hashes,
                    path,
                    direction_bits,
                );
            } else {
                fill_path(
                    left,
                    target_index,
                    below,
                    hasher,
                    empty_hashes,
                    path,
                    direction_bits,
                );
            }
            let left_hash = left.hash_at_level(below, empty_hashes);
            let right_hash = right.hash_at_level(below, empty_hashes);
            path[below] = (left_hash, right_hash);
            direction_bits[below] = on_right;
        },
    }
    proof {
        assert forall|leaves: Map<int, F>, pos: int|
            #[trigger] is_leaf_of::<F, H>(
                *node,
                hasher,
                empty_hashes@,
                leaves,
                level,
                pos,
                target_index,
            ) implies forall|l: int|
            0 <= l < level ==> #[trigger] path@[l] == membership::pair_of::<F, H>(
                hasher,
                leaves,
                empty_hashes@[0],
                target_index as int,
                l as nat,
            ) by {
            membership::lemma_node_proofs::<F, H>(
                *node,
                hasher,
                leaves,
                empty_hashes@[0],
                empty_hashes@.len(),
                level as nat,
                pos,
                target_index,
            );
            assert forall|l: int| 0 <= l < level implies #[trigger] path@[l]
                == membership::pair_of::<F, H>(
                hasher,
                leaves,
                empty_hashes@[0],
                target_index as int,
                l as nat,
            ) by {
                assert(path@[l] == node.pair_in::<H>(
                    hasher,
                    empty_hashes@,
                    target_index,
                    level as nat,
                    l as nat,
                ));
            }
        }
    }
}

/// Collects the siblings on the way from the leaf at `target_index` to the top of the
/// subtree on `level` which are not the empty value of their level.
pub fn collect_sparse_entries<F: PrimeField, H: FieldHasher<F, 2>>(
    node: &CompressedNode<F>,
    target_index: u64,
    level: usize,
    hasher: &H,
    empty_hashes: &[F],
    entries: &mut Vec<SparsePathEntry<F>>,
)
    requires
        node.wf(level as nat),
        node.contains(target_index, level as nat),
        node.sparse_hashable::<H>(hasher, empty_hashes@, target_index, level as nat),
        level <= empty_hashes@.len(),
    ensures
        final(entries)@ == old(entries)@ + node.entries_in::<H>(
            hasher,
            empty_hashes@,
            target_index,
            level as nat,
        ),
        forall|leaves: Map<int, F>, pos: int|
            #[trigger] is_leaf_of::<F, H>(
                *node,
                hasher,
                empty_hashes@,
                leaves,
                level,
                pos,
                target_index,
            ) ==> final(entries)@ == old(entries)@ + membership::entries_of::<F, H>(
                hasher,
                leaves,
                empty_hashes@[0],
                empty_hashes@.len(),
                target_index as int,
                level as nat,
            ),
    decreases node,
{
    proof {
        assert forall|leaves: Map<int, F>, pos: int|
            #[trigger] is_leaf_of::<F, H>(
                *node,
                hasher,
                empty_hashes@,
                leaves,
                level,
                pos,
                target_index,
            ) implies node.entries_in::<H>(hasher, empty_hashes@, target_index, level as nat)
            == membership::entries_of::<F, H>(
            hasher,
            leaves,
            empty_hashes@[0],
            empty_hashes@.len(),
            target_index as int,
            level as nat,
        ) by {
            membership::lemma_node_proofs::<F, H>(
                *node,
                hasher,
                leaves,
                empty_hashes@[0],
                empty_hashes@.len(),
                level as nat,
                pos,
                target_index,
            );
        }
    }
    match node {
        CompressedNode::Zero => {},
        CompressedNode::Single { .. } => {},
        CompressedNode::Double { leaf_a, leaf_b, .. } => {
            let other = if leaf_a.0 == target_index {
                *leaf_b
            } else {
                *leaf_a
            };
            proof {
                chain::lemma_divergence_symmetric(leaf_a.0 as int, leaf_b.0 as int);
            }
            let div_level = meeting_level(target_index, other.0);
            let sibling_hash = compute_single_hash(other, div_level - 1, hasher, empty_hashes);
            push_entry(target_index, div_level - 1, sibling_hash, empty_hashes, entries);
        },
        CompressedNode::Multi { left, right, .. } => {
            let below: usize = level - 1;
            let (target_child, sibling_child) = if passes_right(target_index, below) {
                (right, left)
            } else {
                (left, right)
            };
            collect_sparse_entries(
                target_child,
                target_index,
                below,
                hasher,
                empty_hashes,
                entries,
            );
            let sibling_hash = sibling_child.hash_at_level(below, empty_hashes);
            push_entry(target_index, below, sibling_hash, empty_hashes, entries);
        },
    }
    assert(entries@ =~= old(entries)@ + node.entries_in::<H>(
        hasher,
        empty_hashes@,
        target_index,
        level as nat,
    ));
}

/// Adds the entry for a sibling on `level`, unless the sibling is empty.
fn push_entry<F: PrimeField>(
    target_index: u64,
    level: usize,
    sibling: F,
    empty_hashes: &[F],
    entries: &mut Vec<SparsePathEntry<F>>,
)
    requires
        level < 64,
        level < empty_hashes@.len(),
    ensures
        final(entries)@ == old(entries)@ + path::entry_for(
            empty_hashes@,
            target_index as int,
            level as nat,
            sibling,
        ),
{
    if !sibling.equals(&empty_hashes[level]) {
        entries.push(
            SparsePathEntry { sibling, direction_bit: passes_right(target_index, level), level },
        );
    }
    assert(entries@ =~= old(entries)@ + path::entry_for(
        empty_hashes@,
        target_index as int,
        level as nat,
        sibling,
    ));
}

/// A sparse Merkle tree of height `N` that keeps subtrees with few leaves compressed.
pub struct CompressedSMT<F: PrimeField, H: FieldHasher<F, 2>, const N: usize> {
    root: CompressedNode<F>,
    empty_hashes: [F; N],
    marker: PhantomData<H>,
}

impl<F: PrimeField, H: FieldHasher<F, 2>, const N: usize> CompressedSMT<F, H, N> {
    /// The root node fits on the top level.
    #[verifier::type_invariant]
    spec fn fits(self) -> bool {
        self.root.wf(N as nat)
    }

    /// The root node.
    pub closed spec fn spec_root_node(&self) -> CompressedNode<F> {
        self.root
    }

    /// The empty values of the levels below the root.
    pub closed spec fn empties(&self) -> Seq<F> {
        self.empty_hashes@
    }

    /// The tree holds the given leaves: the root node describes them, and the empty values
    /// are those of `hasher` and `empty_leaf`.
    pub open spec fn holds(&self, hasher: &H, empty_leaf: F, leaves: Map<int, F>) -> bool {
        &&& self.empties() == nodes::empties::<F, H>(hasher, empty_leaf, N as nat)
        &&& model::in_range(leaves, N as nat)
        &&& self.spec_root_node().describes::<H>(hasher, leaves, empty_leaf, N, 0)
    }

    /// The root: the value of the root node, or the empty value of the level below it.
    pub open spec fn spec_root(&self) -> F {
        if self.spec_root_node() is Zero {
            self.empties()[N - 1]
        } else {
            self.spec_root_node().hash_value(N as nat, self.empties())
        }
    }

    /// The path holds the pairs on the way from the leaf at `index` to the root, and on
    /// which sides of them the way passes.
    pub open spec fn is_path(&self, index: u64, path: &Path<F, H, N>) -> bool {
        &&& forall|level: int|
            0 <= level < N ==> #[trigger] path.path@[level] == self.spec_root_node().pair_in::<H>(
                &H::spec_hasher(),
                self.empties(),
                index,
                N as nat,
                level as nat,
            )
        &&& forall|level: int|
            0 <= level < N ==> #[trigger] path.direction_bits@[level] == (index::above(
                index as int,
                level as nat,
            ) % 2 == 1)
    }

    /// The path holds the siblings on the way from the leaf at `index` to the root that are
    /// not the empty value of their level.
    pub open spec fn is_sparse_path(&self, index: u64, path: &SparsePath<F, H>) -> bool {
        &&& path.entries@ == self.spec_root_node().entries_in::<H>(
            &H::spec_hasher(),
            self.empties(),
            index,
            N as nat,
        )
        &&& path.tree_height == N
        &&& path.empty_hashes@ == self.empties()
    }

    /// The leaf at `index` is set, and the hashes that its membership proof takes succeed.
    pub open spec fn can_prove(&self, index: u64) -> bool {
        &&& self.spec_root_node().contains(index, N as nat)
        &&& self.spec_root_node().path_hashable::<H>(
            &H::spec_hasher(),
            self.empties(),
            index,
            N as nat,
        )
    }

    /// The leaf at `index` is set, and the hashes that its sparse proof takes succeed.
    pub open spec fn can_prove_sparsely(&self, index: u64) -> bool {
        &&& self.spec_root_node().contains(index, N as nat)
        &&& self.spec_root_node().sparse_hashable::<H>(
            &H::spec_hasher(),
            self.empties(),
            index,
            N as nat,
        )
    }

    /// A tree with the given leaves. Every other leaf is the empty leaf, which 64 bytes
    /// stand for. The halves of large subtrees are built in parallel.
    pub fn new(leaves: &BTreeMap<u64, F>, hasher: &H, empty_leaf: &[u8; 64]) -> (r: Result<
        Self,
        Error,
    >) where H: Sync
        requires
            smt::empties_hashable::<F, H>(
                hasher,
                smt::empty_leaf_of::<F>(empty_leaf@),
                N as nat,
            ) ==> {
                &&& model::in_range(model::widen_u64(leaves@), N as nat)
                &&& leaves@.dom().len() > 0 ==> N <= 64
                &&& model::hashable::<F, H>(
                    hasher,
                    model::widen_u64(leaves@),
                    smt::empty_leaf_of::<F>(empty_leaf@),
                    N as nat,
                )
            },
        ensures
            r is Ok <==> smt::empties_hashable::<F, H>(
                hasher,
                smt::empty_leaf_of::<F>(empty_leaf@),
                N as nat,
            ),
            r matches Ok(tree) ==> tree.holds(
                hasher,
                smt::empty_leaf_of::<F>(empty_leaf@),
                model::widen_u64(leaves@),
            ),
            r matches Err(e) ==> smt::empties_fail::<F, H>(
                hasher,
                smt::empty_leaf_of::<F>(empty_leaf@),
                N as nat,
                e,
            ),
            (forall|a: F, b: F| hasher.spec_hash(#[trigger] seq![a, b]) is Ok) ==> r is Ok,
            r matches Err(e) ==> exists|a: F, b: F|
                hasher.spec_hash(#[trigger] seq![a, b]) is Err && e == Error::Hash(
                    hasher.spec_hash(seq![a, b])->Err_0,
                ),
            r matches Ok(tree) ==> forall|k: u64| #[trigger]
                tree.spec_root_node().contains(k, N as nat) == leaves@.contains_key(k),
            r matches Ok(tree) ==> tree.holds(
                hasher,
                F::of_int(field::le_value(empty_leaf@) as int),
                Map::new(
                    |k: int| 0 <= k <= u64::MAX && leaves@.contains_key(k as u64),
                    |k: int| leaves@[k as u64],
                ),
            ),
            r matches Ok(tree) ==> (N > 0 ==> tree.empties()[0].value() == (field::le_value(
                empty_leaf@,
            ) as int) % F::modulus()),
            r matches Ok(tree) ==> {
                &&& tree.empties().len() == N
                &&& forall|level: int|
                    0 <= level < N - 1 ==> hasher.spec_hash(
                        #[trigger] seq![tree.empties()[level], tree.empties()[level]],
                    ) == Ok::<F, HashError>(tree.empties()[level + 1])
            },
    {
        let empty_hashes: [F; N] = match gen_empty_hashes(hasher, empty_leaf) {
            Ok(hashes) => hashes,
            Err(e) => {
                proof {
                    let values = choose|values: Seq<F>| #[trigger]
                        smt::stops_after::<F, H>(hasher, values, e);
                    let last = values[values.len() - 1];
                    assert(hasher.spec_hash(seq![last, last]) is Err);
                }
                return Err(e);
            },
        };
        let sorted_leaves: Vec<(u64, F)> = collections::entries_u64(leaves);
        let ghost leaf = smt::empty_leaf_of::<F>(empty_leaf@);
        let ghost all = model::widen_u64(leaves@);
        proof {
            assert(empty_hashes@ =~= nodes::empties::<F, H>(hasher, leaf, N as nat));
            assert forall|k: int| #[trigger] all.contains_key(k) implies index::above(k, N as nat)
                == 0 by {
                index::lemma_above_range(k, N as nat, N as nat);
                lemma2_to64();
            }
            assert forall|i: int| 0 <= i < sorted_leaves@.len() implies is_below(
                all,
                N as nat,
                0,
                (#[trigger] sorted_leaves@[i]).0 as int,
            ) && all[sorted_leaves@[i].0 as int] == sorted_leaves@[i].1 by {
                assert(leaves@.contains_key(sorted_leaves@[i].0));
                assert(all.contains_key(sorted_leaves@[i].0 as int));
            }
            assert forall|k: int|
                #![trigger is_below(all, N as nat, 0, k)]
                is_below(all, N as nat, 0, k) implies exists|i: int|
                0 <= i < sorted_leaves@.len() && sorted_leaves@[i].0 == k by {
                assert(leaves@.contains_key(k as u64));
            }
            assert(listed(sorted_leaves@, all, N as nat, 0));
            assert(hashable_in::<F, H>(hasher, all, leaf, N as nat, 0)) by {
                assert forall|k: int, l: nat|
                    is_below(all, N as nat, 0, k) && 1 <= l <= N implies model::subtree_hash::<
                    F,
                    H,
                >(hasher, all, leaf, l, #[trigger] index::above(k, l)) is Ok by {
                    assert(model::occupied(all, l, index::above(k, l)));
                }
            }
        }
        let root = build_subtree(
            sorted_leaves.as_slice(),
            N,
            hasher,
            empty_hashes.as_slice(),
            Ghost(all),
            Ghost(leaf),
            Ghost(0),
        );
        let tree = CompressedSMT { root, empty_hashes, marker: PhantomData };
        proof {
            assert(tree.holds(hasher, leaf, all));
            assert forall|k: u64| #[trigger]
                tree.spec_root_node().contains(k, N as nat) == leaves@.contains_key(k) by {
                compressed_laws::law_contains::<F, H, N>(&tree, hasher, leaf, all, k);
            }
        }
        Ok(tree)
    }

    /// A tree with the given leaves, from a map with 32-bit indices.
    pub fn new_from_u32(leaves: &BTreeMap<u32, F>, hasher: &H, empty_leaf: &[u8; 64]) -> (r: Result<
        Self,
        Error,
    >) where H: Sync
        requires
            smt::empties_hashable::<F, H>(
                hasher,
                smt::empty_leaf_of::<F>(empty_leaf@),
                N as nat,
            ) ==> {
                &&& model::in_range(model::widen_u32(leaves@), N as nat)
                &&& leaves@.dom().len() > 0 ==> N <= 64
                &&& model::hashable::<F, H>(
                    hasher,
                    model::widen_u32(leaves@),
                    smt::empty_leaf_of::<F>(empty_leaf@),
                    N as nat,
                )
            },
        ensures
            r is Ok <==> smt::empties_hashable::<F, H>(
                hasher,
                smt::empty_leaf_of::<F>(empty_leaf@),
                N as nat,
            ),
            r matches Ok(tree) ==> tree.holds(
                hasher,
                smt::empty_leaf_of::<F>(empty_leaf@),
                model::widen_u32(leaves@),
            ),
            r matches Err(e) ==> smt::empties_fail::<F, H>(
                hasher,
                smt::empty_leaf_of::<F>(empty_leaf@),
                N as nat,
                e,
            ),
            (forall|a: F, b: F| hasher.spec_hash(#[trigger] seq![a, b]) is Ok) ==> r is Ok,
            r matches Err(e) ==> exists|a: F, b: F|
                hasher.spec_hash(#[trigger] seq![a, b]) is Err && e == Error::Hash(
                    hasher.spec_hash(seq![a, b])->Err_0,
                ),
            r matches Ok(tree) ==> forall|k: u64| #[trigger]
                tree.spec_root_node().contains(k, N as nat) == (k <= u32::MAX
                    && leaves@.contains_key(k as u32)),
            r matches Ok(tree) ==> tree.holds(
                hasher,
                F::of_int(field::le_value(empty_leaf@) as int),
                Map::new(
                    |k: int| 0 <= k <= u32::MAX && leaves@.contains_key(k as u32),
                    |k: int| leaves@[k as u32],
                ),
            ),
            r matches Ok(tree) ==> (N > 0 ==> tree.empties()[0].value() == (field::le_value(
                empty_leaf@,
            ) as int) % F::modulus()),
            r matches Ok(tree) ==> {
                &&& tree.empties().len() == N
                &&& forall|level: int|
                    0 <= level < N - 1 ==> hasher.spec_hash(
                        #[trigger] seq![tree.empties()[level], tree.empties()[level]],
                    ) == Ok::<F, HashError>(tree.empties()[level + 1])
            },
    {
        let entries: Vec<(u32, F)> = collections::entries_u32(leaves);
        let mut leaves64: BTreeMap<u64, F> = BTreeMap::new();
        for n in 0..entries.len()
            invariant
                forall|k: u64|
                    #![trigger leaves64@.contains_key(k)]
                    leaves64@.contains_key(k) <==> exists|i: int|
                        0 <= i < n && (#[trigger] entries@[i]).0 == k,
                forall|i: int|
                    0 <= i < n ==> leaves64@[(#[trigger] entries@[i]).0 as u64] == entries@[i].1,
                collections::lists_u32(entries@, leaves@),
        {
            let (index, value) = entries[n];
            leaves64.insert(index as u64, value);
        }
        proof {
            let wide = model::widen_u64(leaves64@);
            assert forall|k: int| wide.contains_key(k) == model::widen_u32(leaves@).contains_key(
                k,
            ) && (wide.contains_key(k) ==> wide[k] == model::widen_u32(leaves@)[k]) by {
                if wide.contains_key(k) {
                    let i = choose|i: int|
                        0 <= i < entries@.len() && (#[trigger] entries@[i]).0 == k;
                    assert(leaves@.contains_key(entries@[i].0));
                }
                if model::widen_u32(leaves@).contains_key(k) {
                    assert(leaves@.contains_key(k as u32));
                    let i = choose|i: int| 0 <= i < entries@.len() && entries@[i].0 == k as u32;
                    assert(leaves64@.contains_key(k as u64));
                }
            }
            assert(wide =~= model::widen_u32(leaves@));
            if leaves64@.dom().len() > 0 && leaves@.dom().len() == 0 {
                assert(entries@.len() == 0);
                assert(leaves64@.dom() =~= Set::empty());
            }
            assert forall|k: u64| #[trigger] leaves64@.contains_key(k) == (k <= u32::MAX
                && leaves@.contains_key(k as u32)) by {
                assert(wide.contains_key(k as int) == model::widen_u32(leaves@).contains_key(
                    k as int,
                ));
            }
        }
        Self::new(&leaves64, hasher, empty_leaf)
    }

    /// The root of the tree. A tree without leaves gives the empty value of the level below
    /// the root.
    pub fn root(&self) -> (r: F)
        requires
            N > 0 || !(self.spec_root_node() is Zero),
        ensures
            r == self.spec_root(),
            !(self.spec_root_node() is Zero) ==> r == self.spec_root_node().hash_value(
                N as nat,
                self.empties(),
            ),
            self.spec_root_node() is Zero ==> r == self.empties()[N - 1],
    {
        match &self.root {
            CompressedNode::Zero => self.empty_hashes[N - 1],
            CompressedNode::Single { hash, .. } => *hash,
            CompressedNode::Double { hash, .. } => *hash,
            CompressedNode::Multi { hash, .. } => *hash,
        }
    }

    /// The pairs of siblings on the way from the leaf at `index`, which has to be set, to
    /// the root. The hash function is that of [`FieldHasher::hasher`].
    pub fn generate_membership_proof(&self, index: u64) -> (r: Path<F, H, N>)
        requires
            self.can_prove(index),
        ensures
            self.is_path(index, &r),
            forall|level: int|
                0 <= level < N ==> #[trigger] r.direction_bits@[level] == ((index as int / pow2(
                    level as nat,
                ) as int) % 2 == 1),
    {
        let hasher = H::hasher();
        let mut path: [(F, F); N] = [(F::zero(), F::zero()); N];
        let mut direction_bits: [bool; N] = [false; N];
        proof {
            use_type_invariant(self);
        }
        fill_path(
            &self.root,
            index,
            N,
            &hasher,
            self.empty_hashes.as_slice(),
            &mut path,
            &mut direction_bits,
        );
        Path { path, direction_bits, marker: PhantomData }
    }

    /// The siblings on the way from the leaf at `index`, which has to be set, to the root
    /// that are not the empty value of their level. The hash function is that of
    /// [`FieldHasher::hasher`].
    pub fn generate_sparse_membership_proof(&self, index: u64) -> (r: SparsePath<F, H>)
        requires
            self.can_prove_sparsely(index),
        ensures
            self.is_sparse_path(index, &r),
            r.tree_height == N,
            r.empty_hashes@ == self.empties(),
    {
        let hasher = H::hasher();
        let mut entries: Vec<SparsePathEntry<F>> = Vec::new();
        proof {
            use_type_invariant(self);
        }
        collect_sparse_entries(
            &self.root,
            index,
            N,
            &hasher,
            self.empty_hashes.as_slice(),
            &mut entries,
        );
        assert(entries@ =~= self.spec_root_node().entries_in::<H>(
            &H::spec_hasher(),
            self.empties(),
            index,
            N as nat,
        ));
        SparsePath {
            entries,
            tree_height: N,
            empty_hashes: vstd::slice::slice_to_vec(self.empty_hashes.as_slice()),
            marker: PhantomData,
        }
    }

    /// Whether the leaf at `index` is set.
    pub fn contains(&self, index: u64) -> (r: bool)
        ensures
            r == self.spec_root_node().contains(index, N as nat),
    {
        proof {
            use_type_invariant(self);
        }
        self.root.has_leaf(index, N)
    }

    /// The root node.
    pub fn root_node(&self) -> (r: &CompressedNode<F>)
        ensures
            *r == self.spec_root_node(),
    {
        &self.root
    }
}

} // verus!
