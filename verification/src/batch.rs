//! What writing a batch of leaves does to the nodes of a tree.
//!
//! The nodes are a map from indices to values. The leaves are written first. Then, level
//! by level, the nodes above them are hashed again from their children; a child that is
//! not in the map has the empty value of its level.
use vstd::arithmetic::power2::*;
use vstd::prelude::*;

use crate::collections;
use crate::field::PrimeField;
use crate::index;
use crate::path::Error;
use crate::poseidon;
use crate::poseidon::{FieldHasher, HashError};

verus! {

/// Whether `x` is the index of one of the leaves of a batch.
pub open spec fn is_placed<F>(height: nat, leaves: Map<u32, F>, x: u64) -> bool {
    &&& 0 <= x - index::node_at(height, 0, 0) <= u32::MAX
    &&& leaves.contains_key((x - index::node_at(height, 0, 0)) as u32)
}

/// The nodes after the leaves of a batch have been written, and nothing else.
pub open spec fn placed<F>(
    tree: Map<u64, F>,
    height: nat,
    leaves: Map<u32, F>,
) -> Map<u64, F> {
    Map::new(
        |x: u64| tree.contains_key(x) || is_placed(height, leaves, x),
        |x: u64|
            if is_placed(height, leaves, x) {
                leaves[(x - index::node_at(height, 0, 0)) as u32]
            } else {
                tree[x]
            },
    )
}

/// The nodes `level + 1` levels above the leaves of a batch.
pub open spec fn dirty<F>(height: nat, leaves: Map<u32, F>, level: nat) -> Set<u64> {
    Set::new(
        |x: u64|
            exists|i: u32| #[trigger]
                leaves.contains_key(i) && x + 1 == index::above(pow2(height) + i, level + 1),
    )
}

/// The nodes of a set that are hashed again: the root alone if it is among them.
pub open spec fn live(nodes: Set<u64>) -> Set<u64> {
    if nodes.contains(0) {
        set![0]
    } else {
        nodes
    }
}

/// The value of the node at index `x`, whose level has the given empty value.
pub open spec fn node_value<F>(tree: Map<u64, F>, empty: F, x: int) -> F {
    if tree.contains_key(x as u64) {
        tree[x as u64]
    } else {
        empty
    }
}

/// What hashing the children of the node at index `x` gives.
pub open spec fn refresh<F: PrimeField, H: FieldHasher<F, 2>>(
    hasher: &H,
    tree: Map<u64, F>,
    empty: F,
    x: u64,
) -> Result<F, HashError> {
    poseidon::pair_hash::<F, H>(
        hasher,
        node_value(tree, empty, 2 * x + 1),
        node_value(tree, empty, 2 * x + 2),
    )
}

/// The nodes after those of a set with an index below `bound` have been hashed again.
pub open spec fn refreshed<F: PrimeField, H: FieldHasher<F, 2>>(
    hasher: &H,
    tree: Map<u64, F>,
    empty: F,
    nodes: Set<u64>,
    bound: int,
) -> Map<u64, F> {
    Map::new(
        |x: u64| tree.contains_key(x) || (live(nodes).contains(x) && x < bound),
        |x: u64|
            if live(nodes).contains(x) && x < bound {
                refresh::<F, H>(hasher, tree, empty, x)->Ok_0
            } else {
                tree[x]
            },
    )
}

/// The nodes of a set with an index below `bound` can be hashed.
pub open spec fn refreshable<F: PrimeField, H: FieldHasher<F, 2>>(
    hasher: &H,
    tree: Map<u64, F>,
    empty: F,
    nodes: Set<u64>,
    bound: int,
) -> bool {
    forall|x: u64|
        live(nodes).contains(x) && x < bound ==> (#[trigger] refresh::<F, H>(
            hasher,
            tree,
            empty,
            x,
        )) is Ok
}

/// One past the largest index.
pub open spec fn index_bound() -> int {
    0x1_0000_0000_0000_0000
}

/// The index at place `j` of a list, or one past the largest index after its end.
pub open spec fn bound_from(indices: Seq<u64>, j: int) -> int {
    if j < indices.len() {
        indices[j] as int
    } else {
        index_bound()
    }
}

/// The nodes after a batch has been written and the first `levels` levels above it have
/// been hashed again.
pub open spec fn rehashed<F: PrimeField, H: FieldHasher<F, 2>>(
    hasher: &H,
    tree: Map<u64, F>,
    empties: Seq<F>,
    height: nat,
    leaves: Map<u32, F>,
    levels: nat,
) -> Map<u64, F>
    decreases levels,
{
    if levels == 0 {
        placed(tree, height, leaves)
    } else {
        refreshed::<F, H>(
            hasher,
            rehashed::<F, H>(hasher, tree, empties, height, leaves, (levels - 1) as nat),
            empties[levels - 1],
            dirty(height, leaves, (levels - 1) as nat),
            index_bound(),
        )
    }
}

/// The nodes `level + 1` levels above a batch can be hashed.
pub open spec fn level_hashable<F: PrimeField, H: FieldHasher<F, 2>>(
    hasher: &H,
    tree: Map<u64, F>,
    empties: Seq<F>,
    height: nat,
    leaves: Map<u32, F>,
    level: nat,
) -> bool {
    refreshable::<F, H>(
        hasher,
        rehashed::<F, H>(hasher, tree, empties, height, leaves, level),
        empties[level as int],
        dirty(height, leaves, level),
        index_bound(),
    )
}

/// The nodes on the first `levels` levels above a batch can be hashed.
pub open spec fn batch_hashable<F: PrimeField, H: FieldHasher<F, 2>>(
    hasher: &H,
    tree: Map<u64, F>,
    empties: Seq<F>,
    height: nat,
    leaves: Map<u32, F>,
    levels: nat,
) -> bool {
    forall|level: nat|
        level < levels ==> #[trigger] level_hashable::<F, H>(
            hasher,
            tree,
            empties,
            height,
            leaves,
            level,
        )
}

/// The error and the nodes when `x` is the first node of a set that cannot be hashed.
pub open spec fn level_stops_at<F: PrimeField, H: FieldHasher<F, 2>>(
    hasher: &H,
    tree: Map<u64, F>,
    empty: F,
    nodes: Set<u64>,
    x: u64,
    error: Error,
    after: Map<u64, F>,
) -> bool {
    &&& live(nodes).contains(x)
    &&& refreshable::<F, H>(hasher, tree, empty, nodes, x as int)
    &&& refresh::<F, H>(hasher, tree, empty, x) is Err
    &&& error == Error::Hash(refresh::<F, H>(hasher, tree, empty, x)->Err_0)
    &&& after == refreshed::<F, H>(hasher, tree, empty, nodes, x as int)
}

/// The error and the nodes when `x`, `level + 1` levels above a batch, is the first node
/// that cannot be hashed.
pub open spec fn batch_stops_at<F: PrimeField, H: FieldHasher<F, 2>>(
    hasher: &H,
    tree: Map<u64, F>,
    empties: Seq<F>,
    height: nat,
    leaves: Map<u32, F>,
    level: nat,
    x: u64,
    error: Error,
    after: Map<u64, F>,
) -> bool {
    &&& level < height
    &&& batch_hashable::<F, H>(hasher, tree, empties, height, leaves, level)
    &&& level_stops_at::<F, H>(
        hasher,
        rehashed::<F, H>(hasher, tree, empties, height, leaves, level),
        empties[level as int],
        dirty(height, leaves, level),
        x,
        error,
        after,
    )
}

/// When the nodes of one more level can be hashed, so can all up to that level.
pub(crate) proof fn lemma_batch_level<F: PrimeField, H: FieldHasher<F, 2>>(
    hasher: &H,
    tree: Map<u64, F>,
    empties: Seq<F>,
    height: nat,
    leaves: Map<u32, F>,
    level: nat,
)
    ensures
        batch_hashable::<F, H>(hasher, tree, empties, height, leaves, level + 1) <==> (
        batch_hashable::<F, H>(hasher, tree, empties, height, leaves, level) && level_hashable::<
            F,
            H,
        >(hasher, tree, empties, height, leaves, level)),
{
    if batch_hashable::<F, H>(hasher, tree, empties, height, leaves, level + 1) {
        assert(level_hashable::<F, H>(hasher, tree, empties, height, leaves, level));
    }
}

/// A batch that stops at a node does not have all its nodes hashed.
pub(crate) proof fn lemma_batch_stops<F: PrimeField, H: FieldHasher<F, 2>>(
    hasher: &H,
    tree: Map<u64, F>,
    empties: Seq<F>,
    height: nat,
    leaves: Map<u32, F>,
    level: nat,
    x: u64,
    error: Error,
    after: Map<u64, F>,
)
    requires
        batch_stops_at::<F, H>(hasher, tree, empties, height, leaves, level, x, error, after),
    ensures
        !batch_hashable::<F, H>(hasher, tree, empties, height, leaves, height),
{
    if batch_hashable::<F, H>(hasher, tree, empties, height, leaves, height) {
        assert(level_hashable::<F, H>(hasher, tree, empties, height, leaves, level));
    }
}

/// The nodes after the first `n` leaves of a list have been written.
pub open spec fn placed_first<F>(
    tree: Map<u64, F>,
    height: nat,
    entries: Seq<(u32, F)>,
    n: int,
) -> Map<u64, F>
    decreases n,
{
    if n <= 0 {
        tree
    } else {
        placed_first(tree, height, entries, n - 1).insert(
            index::node_at(height, 0, entries[n - 1].0 as int) as u64,
            entries[n - 1].1,
        )
    }
}

/// Writing all entries of a map of leaves, one by one, places the leaves.
pub(crate) proof fn lemma_placed_all<F>(
    tree: Map<u64, F>,
    height: nat,
    entries: Seq<(u32, F)>,
    leaves: Map<u32, F>,
)
    requires
        height < 64,
        collections::lists_u32(entries, leaves),
    ensures
        placed_first(tree, height, entries, entries.len() as int) == placed(tree, height, leaves),
{
    let all = placed_first(tree, height, entries, entries.len() as int);
    let base = index::node_at(height, 0, 0);
    index::lemma_one_shl(height as u64);
    lemma_pow2_pos(height);
    assert forall|x: u64|
        #![trigger all.dom().contains(x)]
        #![trigger all[x]]
        all.contains_key(x) == placed(tree, height, leaves).contains_key(x) && (all.contains_key(x)
            ==> all[x] == placed(tree, height, leaves)[x]) by {
        lemma_placed_first(tree, height, entries, entries.len() as int, x);
        if is_placed(height, leaves, x) {
            let i = (x - base) as u32;
            let k = choose|k: int| 0 <= k < entries.len() && entries[k].0 == i;
            assert(entries[k].0 == x - base);
        } else {
            assert forall|k: int| 0 <= k < entries.len() implies (#[trigger] entries[k]).0 != x
                - base by {
                assert(leaves.contains_key(entries[k].0));
            }
        }
    }
    assert(all =~= placed(tree, height, leaves));
}

/// What an index holds after the first `n` leaves of a list have been written.
pub(crate) proof fn lemma_placed_first<F>(
    tree: Map<u64, F>,
    height: nat,
    entries: Seq<(u32, F)>,
    n: int,
    x: u64,
)
    requires
        height < 64,
        0 <= n <= entries.len(),
        forall|i: int, j: int| 0 <= i < j < entries.len() ==> entries[i].0 < entries[j].0,
    ensures
        forall|k: int|
            0 <= k < n && (#[trigger] entries[k]).0 == x - index::node_at(height, 0, 0)
                ==> placed_first(tree, height, entries, n).contains_key(x) && placed_first(
                tree,
                height,
                entries,
                n,
            )[x] == entries[k].1,
        (forall|k: int|
            0 <= k < n ==> (#[trigger] entries[k]).0 != x - index::node_at(height, 0, 0)) ==> (
        placed_first(tree, height, entries, n).contains_key(x) == tree.contains_key(x)
            && placed_first(tree, height, entries, n)[x] == tree[x]),
    decreases n,
{
    if n > 0 {
        lemma_placed_first(tree, height, entries, n - 1, x);
        index::lemma_one_shl(height as u64);
        lemma_pow2_pos(height);
        assert(0 <= index::node_at(height, 0, entries[n - 1].0 as int) <= u64::MAX);
    }
}

/// The nodes above a batch leave room for the indices of their children.
pub(crate) proof fn lemma_dirty_bound<F>(height: nat, leaves: Map<u32, F>, level: nat, x: u64)
    requires
        height < 64,
        dirty(height, leaves, level).contains(x),
    ensures
        2 * x + 2 <= u64::MAX,
{
    let i = choose|i: u32| #[trigger]
        leaves.contains_key(i) && x + 1 == index::above(pow2(height) + i, level + 1);
    index::lemma_one_shl(height as u64);
    index::lemma_above_step(pow2(height) + i, level);
    lemma_pow2_pos(level);
    vstd::arithmetic::div_mod::lemma_div_is_ordered_by_denominator(
        pow2(height) + i,
        1,
        pow2(level) as int,
    );
}

/// Below the root's level, the nodes of the next level above a batch are the parents of
/// those of this level, and the root is not yet among these.
pub(crate) proof fn lemma_dirty_next<F>(height: nat, leaves: Map<u32, F>, level: nat)
    requires
        height < 64,
        level + 1 < height,
    ensures
        !dirty(height, leaves, level).contains(0),
        forall|y: u64|
            (#[trigger] dirty(height, leaves, level + 1).contains(y)) <==> exists|x: u64| #[trigger]
                dirty(height, leaves, level).contains(x) && y == (x - 1) / 2,
{
    index::lemma_one_shl(height as u64);
    let here = dirty(height, leaves, level);
    let next = dirty(height, leaves, level + 1);
    assert forall|i: u32| true implies 2 <= #[trigger] index::above(pow2(height) + i, level + 1)
        <= u64::MAX by {
        lemma_pow2_adds(level + 1, (height - level - 1) as nat);
        lemma_pow2_pos(level + 1);
        index::lemma_pow2_monotone(1, (height - level - 1) as nat);
        lemma2_to64();
        vstd::arithmetic::div_mod::lemma_div_is_ordered(
            pow2(height) as int,
            pow2(height) + i,
            pow2(level + 1) as int,
        );
        vstd::arithmetic::div_mod::lemma_div_multiples_vanish(
            pow2((height - level - 1) as nat) as int,
            pow2(level + 1) as int,
        );
        vstd::arithmetic::div_mod::lemma_div_is_ordered_by_denominator(
            pow2(height) + i,
            1,
            pow2(level + 1) as int,
        );
    }
    assert forall|y: u64| next.contains(y) implies exists|x: u64| #[trigger]
        here.contains(x) && y == (x - 1) / 2 by {
        let i = choose|i: u32| #[trigger]
            leaves.contains_key(i) && y + 1 == index::above(pow2(height) + i, level + 2);
        let x = (index::above(pow2(height) + i, level + 1) - 1) as u64;
        index::lemma_above_step(pow2(height) + i, level + 1);
        assert(here.contains(x));
    }
    assert forall|y: u64| (exists|x: u64| #[trigger]
        here.contains(x) && y == (x - 1) / 2) implies next.contains(y) by {
        let x = choose|x: u64| #[trigger] here.contains(x) && y == (x - 1) / 2;
        let i = choose|i: u32| #[trigger]
            leaves.contains_key(i) && x + 1 == index::above(pow2(height) + i, level + 1);
        index::lemma_above_step(pow2(height) + i, level + 1);
        assert(y + 1 == index::above(pow2(height) + i, level + 2));
    }
}

} // verus!
