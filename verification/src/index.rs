//! Node indices of a complete binary tree.
//!
//! The nodes are numbered from the root, which is 0, level by level and from left to right
//! on each level. Levels count from the leaves: the leaves of a tree of height `N` are on
//! level 0 and the root is on level `N`.
use vstd::arithmetic::div_mod::*;
use vstd::arithmetic::power2::*;
use vstd::bits::*;
use vstd::prelude::*;

verus! {

/// The index of the node at position `pos` of `level` in a tree of the given height.
pub open spec fn node_at(height: nat, level: nat, pos: int) -> int {
    pow2((height - level) as nat) - 1 + pos
}

/// The position, on the given level, of the node above the leaf at position `leaf`.
pub open spec fn above(leaf: int, level: nat) -> int {
    leaf / (pow2(level) as int)
}

/// `r` is the base 2 logarithm of `n`, rounded up.
pub open spec fn is_ceil_log2(n: int, r: int) -> bool {
    if n <= 1 {
        r == 0
    } else {
        r >= 1 && pow2((r - 1) as nat) < n <= pow2(r as nat)
    }
}

/// `1 << shift` is a power of two.
pub(crate) proof fn lemma_one_shl(shift: u64)
    requires
        shift < 64,
    ensures
        1u64 << shift == pow2(shift as nat),
        pow2(shift as nat) <= 0x8000_0000_0000_0000,
{
    lemma2_to64_rest();
    if shift < 63 {
        lemma_pow2_strictly_increases(shift as nat, 63);
    }
    lemma_u64_shl_is_mul(1, shift);
}

/// Every leaf is above itself.
pub(crate) proof fn lemma_above_base(leaf: int)
    ensures
        above(leaf, 0) == leaf,
{
    lemma2_to64();
}

/// The node above on the next level is the parent.
pub(crate) proof fn lemma_above_step(leaf: int, level: nat)
    requires
        0 <= leaf,
    ensures
        above(leaf, level + 1) == above(leaf, level) / 2,
        above(leaf, level) >= 0,
{
    lemma_pow2_pos(level);
    lemma_pow2_unfold(level + 1);
    lemma_div_denominator(leaf, pow2(level) as int, 2);
    lemma_div_pos_is_pos(leaf, pow2(level) as int);
}

/// A position on one level stays in the range of its level.
pub(crate) proof fn lemma_above_range(leaf: int, height: nat, level: nat)
    requires
        0 <= leaf < pow2(height),
        level <= height,
    ensures
        0 <= above(leaf, level) < pow2((height - level) as nat),
{
    lemma_pow2_pos(level);
    lemma_div_pos_is_pos(leaf, pow2(level) as int);
    lemma_pow2_adds(level, (height - level) as nat);
    lemma_multiply_divide_lt(leaf, pow2(level) as int, pow2((height - level) as nat) as int);
}

/// Shifting an index right gives the position above.
pub(crate) proof fn lemma_shr_above(index: u64, level: u64)
    requires
        level < 64,
    ensures
        index >> level == above(index as int, level as nat),
{
    lemma_u64_shr_is_div(index, level);
}

/// The lowest bit is the remainder by two.
pub(crate) proof fn lemma_bit(x: u64)
    ensures
        (x & 1 == 1) == (x % 2 == 1),
{
    assert((x & 1 == 1) == (x % 2 == 1)) by (bit_vector);
}

/// Converts the index of a leaf among the leaves to its index among the nodes.
pub fn convert_index_to_last_level(index: u64, height: usize) -> (r: u64)
    requires
        height < 64,
        index + pow2(height as nat) <= u64::MAX,
    ensures
        r == node_at(height as nat, 0, index as int),
        r == index + pow2(height as nat) - 1,
{
    proof {
        lemma_one_shl(height as u64);
        lemma_pow2_pos(height as nat);
    }
    index + (1u64 << height) - 1
}

/// `ark_std::log2`: the base 2 logarithm, rounded up; 0 for 0.
#[verifier::external_body]
fn ceil_log2(x: usize) -> (r: u32)
    ensures
        is_ceil_log2(x as int, r as int),
{
    ark_std::log2(x)
}

/// The base 2 logarithm of the given number, rounded up.
#[verifier::truncate]
pub fn log2(number: u64) -> (r: u32)
    ensures
        is_ceil_log2((number as usize) as int, r as int),
        (number as usize) <= pow2(r as nat),
        r > 0 ==> pow2((r - 1) as nat) < (number as usize),
{
    proof {
        lemma2_to64();
    }
    ceil_log2(number as usize)
}

/// The height of a tree with the given number of nodes.
pub fn tree_height(tree_size: u64) -> (r: u32)
    ensures
        is_ceil_log2((tree_size as usize) as int, r as int),
        (tree_size as usize) <= pow2(r as nat),
        r > 0 ==> pow2((r - 1) as nat) < (tree_size as usize),
{
    log2(tree_size)
}

/// Whether the index is that of the root.
pub fn is_root(index: u64) -> (r: bool)
    ensures
        r == (index == 0),
{
    index == 0
}

/// The index of the left child.
pub fn left_child(index: u64) -> (r: u64)
    requires
        2 * index + 1 <= u64::MAX,
    ensures
        r == 2 * index + 1,
{
    2 * index + 1
}

/// The index of the right child.
pub fn right_child(index: u64) -> (r: u64)
    requires
        2 * index + 2 <= u64::MAX,
    ensures
        r == 2 * index + 2,
{
    2 * index + 2
}

/// The index of the sibling; the root has none.
pub fn sibling(index: u64) -> (r: Option<u64>)
    requires
        index < u64::MAX,
    ensures
        index == 0 ==> r is None,
        index > 0 && index % 2 == 1 ==> r == Some((index + 1) as u64),
        index > 0 && index % 2 == 0 ==> r == Some((index - 1) as u64),
{
    if index == 0 {
        None
    } else if is_left_child(index) {
        Some(index + 1)
    } else {
        Some(index - 1)
    }
}

/// Whether the index is that of a left child.
pub fn is_left_child(index: u64) -> (r: bool)
    ensures
        r == (index % 2 == 1),
{
    index % 2 == 1
}

/// The index of the parent; the root has none.
pub fn parent(index: u64) -> (r: Option<u64>)
    ensures
        index == 0 ==> r is None,
        index > 0 ==> r == Some(((index - 1) / 2) as u64),
{
    if index > 0 {
        proof {
            lemma_u64_shr_is_div((index - 1) as u64, 1);
            lemma2_to64();
        }
        Some((index - 1) >> 1)
    } else {
        None
    }
}

/// The children of the node at `pos` are the nodes at `2 * pos` and `2 * pos + 1` one
/// level below, and their parent is the node at `pos`.
pub(crate) proof fn lemma_children(height: nat, level: nat, pos: int)
    requires
        level < height,
    ensures
        2 * node_at(height, level + 1, pos) + 1 == node_at(height, level, 2 * pos),
        2 * node_at(height, level + 1, pos) + 2 == node_at(height, level, 2 * pos + 1),
{
    lemma_pow2_unfold((height - level) as nat);
}

/// The parent of a node, by index and by position; the parity of its index tells which
/// child it is.
pub(crate) proof fn lemma_parent(height: nat, level: nat, pos: int)
    requires
        level < height,
        0 <= pos,
    ensures
        (node_at(height, level, pos) - 1) / 2 == node_at(height, level + 1, pos / 2),
        node_at(height, level, pos) > 0,
        node_at(height, level, pos) % 2 == (pos + 1) % 2,
{
    lemma_pow2_unfold((height - level) as nat);
    lemma_pow2_pos((height - level - 1) as nat);
}

/// Different nodes have different indices.
pub(crate) proof fn lemma_node_at_injective(height: nat, l1: nat, p1: int, l2: nat, p2: int)
    requires
        l1 <= height,
        l2 <= height,
        0 <= p1 < pow2((height - l1) as nat),
        0 <= p2 < pow2((height - l2) as nat),
        node_at(height, l1, p1) == node_at(height, l2, p2),
    ensures
        l1 == l2,
        p1 == p2,
{
    if l1 < l2 {
        lemma_pow2_monotone((height - l2 + 1) as nat, (height - l1) as nat);
        lemma_pow2_unfold((height - l2 + 1) as nat);
    } else if l2 < l1 {
        lemma_pow2_monotone((height - l1 + 1) as nat, (height - l2) as nat);
        lemma_pow2_unfold((height - l1 + 1) as nat);
    }
}

/// A larger exponent gives no smaller power.
pub(crate) proof fn lemma_pow2_monotone(e1: nat, e2: nat)
    requires
        e1 <= e2,
    ensures
        pow2(e1) <= pow2(e2),
{
    if e1 < e2 {
        lemma_pow2_strictly_increases(e1, e2);
    }
}

/// Every index below `2^(height + 1) - 1` is that of a node.
pub(crate) proof fn lemma_node_at_surjective(height: nat, index: int) -> (r: (nat, int))
    requires
        0 <= index < pow2(height + 1) - 1,
    ensures
        r.0 <= height,
        0 <= r.1 < pow2((height - r.0) as nat),
        index == node_at(height, r.0, r.1),
    decreases height,
{
    lemma_pow2_unfold(height + 1);
    if index >= pow2(height) - 1 {
        (0, index - (pow2(height) - 1))
    } else {
        lemma2_to64();
        let below = lemma_node_at_surjective((height - 1) as nat, index);
        (below.0 + 1, below.1)
    }
}

} // verus!
