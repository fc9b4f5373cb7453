//! The node map that a set of leaves gives, and that batches keep it so.
use vstd::arithmetic::power2::*;
use vstd::prelude::*;

use crate::batch;
use crate::field::PrimeField;
use crate::index;
use crate::model;
use crate::poseidon::FieldHasher;

verus! {

/// The empty values of the first `levels` levels.
pub open spec fn empties<F: PrimeField, H: FieldHasher<F, 2>>(
    hasher: &H,
    empty_leaf: F,
    levels: nat,
) -> Seq<F> {
    Seq::new(levels, |level: int| model::empty::<F, H>(hasher, empty_leaf, level as nat))
}

/// `pos` is a position of `level` in a tree of the given height.
pub open spec fn is_node(height: nat, level: nat, pos: int) -> bool {
    level <= height && 0 <= pos < pow2((height - level) as nat)
}

/// What the map holds for the node at `pos` of `level`.
pub open spec fn lookup<F>(tree: Map<u64, F>, height: nat, level: nat, pos: int) -> Option<F> {
    let x = index::node_at(height, level, pos) as u64;
    if tree.contains_key(x) {
        Some(tree[x])
    } else {
        None
    }
}

/// What the map should hold for the node at `pos` of `level`: the value of the node if a
/// leaf lies below it, else nothing.
pub open spec fn expected<F: PrimeField, H: FieldHasher<F, 2>>(
    hasher: &H,
    leaves: Map<int, F>,
    empty_leaf: F,
    level: nat,
    pos: int,
) -> Option<F> {
    if model::occupied(leaves, level, pos) {
        Some(model::subtree::<F, H>(hasher, leaves, empty_leaf, level, pos))
    } else {
        None
    }
}

/// The map holds the nodes above the given leaves with their values, and no others.
pub open spec fn represents<F: PrimeField, H: FieldHasher<F, 2>>(
    hasher: &H,
    tree: Map<u64, F>,
    height: nat,
    empty_leaf: F,
    leaves: Map<int, F>,
) -> bool {
    &&& model::in_range(leaves, height)
    &&& forall|x: u64| #[trigger] tree.contains_key(x) ==> x < pow2(height + 1) - 1
    &&& forall|level: nat, pos: int|
        is_node(height, level, pos) ==> #[trigger] lookup(tree, height, level, pos)
            == expected::<F, H>(hasher, leaves, empty_leaf, level, pos)
}

/// The leaves after a batch has been written over them.
pub open spec fn updated<F>(leaves: Map<int, F>, written: Map<u32, F>) -> Map<int, F> {
    leaves.union_prefer_right(model::widen_u32(written))
}

/// The nodes above level 0, up to `levels`, that have a leaf of `written` below them can
/// be hashed once the batch is in.
pub open spec fn touched_hashable<F: PrimeField, H: FieldHasher<F, 2>>(
    hasher: &H,
    empty_leaf: F,
    leaves: Map<int, F>,
    written: Map<u32, F>,
    levels: nat,
) -> bool {
    forall|level: nat, pos: int|
        1 <= level <= levels && model::occupied(model::widen_u32(written), level, pos)
            ==> (#[trigger] model::subtree_hash::<F, H>(
            hasher,
            updated(leaves, written),
            empty_leaf,
            level,
            pos,
        )) is Ok
}

/// On the way up, the levels done hold the nodes of the new leaves and the others still
/// those of the old.
spec fn half_way<F: PrimeField, H: FieldHasher<F, 2>>(
    hasher: &H,
    tree: Map<u64, F>,
    height: nat,
    empty_leaf: F,
    leaves: Map<int, F>,
    written: Map<u32, F>,
    done: nat,
) -> bool {
    &&& forall|x: u64| #[trigger] tree.contains_key(x) ==> x < pow2(height + 1) - 1
    &&& forall|level: nat, pos: int|
        is_node(height, level, pos) && level <= done ==> #[trigger] lookup(tree, height, level, pos)
            == expected::<F, H>(hasher, updated(leaves, written), empty_leaf, level, pos)
    &&& forall|level: nat, pos: int|
        is_node(height, level, pos) && level > done ==> #[trigger] lookup(tree, height, level, pos)
            == expected::<F, H>(hasher, leaves, empty_leaf, level, pos)
}

/// The index of a node fits in 64 bits, and is below `2^(height + 1) - 1`.
proof fn lemma_node_bound(height: nat, level: nat, pos: int)
    requires
        height < 64,
        is_node(height, level, pos),
    ensures
        0 <= index::node_at(height, level, pos) < pow2(height + 1) - 1 <= u64::MAX,
{
    index::lemma_one_shl(height as u64);
    lemma_pow2_unfold(height + 1);
    lemma_pow2_pos((height - level) as nat);
    index::lemma_pow2_monotone((height - level) as nat, height);
}

/// The nodes hashed again on one level are those with a new leaf below them.
proof fn lemma_dirty_nodes<F>(height: nat, written: Map<u32, F>, level: nat)
    requires
        height < 64,
        level < height,
        model::in_range(model::widen_u32(written), height),
    ensures
        forall|pos: int|
            is_node(height, level + 1, pos) ==> (batch::dirty(height, written, level).contains(
                index::node_at(height, level + 1, pos) as u64,
            ) <==> #[trigger] model::occupied(model::widen_u32(written), level + 1, pos)),
        forall|x: u64| #[trigger]
            batch::dirty(height, written, level).contains(x) ==> exists|pos: int|
                #![trigger index::node_at(height, level + 1, pos)]
                is_node(height, level + 1, pos) && x == index::node_at(height, level + 1, pos),
        batch::live(batch::dirty(height, written, level)) == batch::dirty(height, written, level),
{
    let wide = model::widen_u32(written);
    let up = level + 1;
    let nodes = batch::dirty(height, written, level);
    assert forall|i: u32| #[trigger] written.contains_key(i) implies index::above(
        pow2(height) + i,
        up,
    ) == pow2((height - up) as nat) + index::above(i as int, up) && is_node(
        height,
        up,
        index::above(i as int, up),
    ) by {
        assert(wide.contains_key(i as int));
        index::lemma_above_range(i as int, height, up);
        lemma_pow2_adds(up, (height - up) as nat);
        lemma_pow2_pos(up);
        vstd::arithmetic::div_mod::lemma_hoist_over_denominator(
            i as int,
            pow2((height - up) as nat) as int,
            pow2(up),
        );
        assert(pow2(up) * pow2((height - up) as nat) == pow2((height - up) as nat) * pow2(up))
            by (nonlinear_arith);
    }
    assert forall|pos: int| is_node(height, up, pos) implies (nodes.contains(
        index::node_at(height, up, pos) as u64,
    ) <==> #[trigger] model::occupied(wide, up, pos)) by {
        lemma_node_bound(height, up, pos);
        if nodes.contains(index::node_at(height, up, pos) as u64) {
            let i = choose|i: u32| #[trigger]
                written.contains_key(i) && index::node_at(height, up, pos) + 1 == index::above(
                    pow2(height) + i,
                    up,
                );
            assert(wide.contains_key(i as int));
            assert(index::above(i as int, up) == pos);
        }
        if model::occupied(wide, up, pos) {
            let k = choose|k: int| #[trigger] wide.contains_key(k) && index::above(k, up) == pos;
            assert(written.contains_key(k as u32));
        }
    }
    assert forall|x: u64| #[trigger] nodes.contains(x) implies exists|pos: int|
        #![trigger index::node_at(height, up, pos)]
        is_node(height, up, pos) && x == index::node_at(height, up, pos) by {
        let i = choose|i: u32| #[trigger]
            written.contains_key(i) && x + 1 == index::above(pow2(height) + i, up);
        assert(x == index::node_at(height, up, index::above(i as int, up)));
    }
    if nodes.contains(0) {
        let p0 = choose|pos: int|
            #![trigger index::node_at(height, up, pos)]
            is_node(height, up, pos) && 0 == index::node_at(height, up, pos);
        lemma_pow2_pos((height - up) as nat);
        assert(pow2((height - up) as nat) == 1);
        assert forall|x: u64| nodes.contains(x) implies x == 0 by {
            let pos = choose|pos: int|
                #![trigger index::node_at(height, up, pos)]
                is_node(height, up, pos) && x == index::node_at(height, up, pos);
        }
        assert(batch::live(nodes) =~= nodes);
    }
}

/// A node with no new leaf below it keeps its value.
proof fn lemma_untouched<F: PrimeField, H: FieldHasher<F, 2>>(
    hasher: &H,
    empty_leaf: F,
    leaves: Map<int, F>,
    written: Map<u32, F>,
    level: nat,
    pos: int,
)
    requires
        model::non_negative(leaves),
        !model::occupied(model::widen_u32(written), level, pos),
    ensures
        expected::<F, H>(hasher, updated(leaves, written), empty_leaf, level, pos) == expected::<
            F,
            H,
        >(hasher, leaves, empty_leaf, level, pos),
{
    let wide = model::widen_u32(written);
    let new = updated(leaves, written);
    assert forall|k: int| index::above(k, level) == pos implies (#[trigger] new.contains_key(k)
        == leaves.contains_key(k)) && (new.contains_key(k) ==> new[k] == leaves[k]) by {
        assert(!wide.contains_key(k));
    }
    model::lemma_local::<F, H>(hasher, new, leaves, empty_leaf, level, pos);
}

/// After the leaves have been written, level 0 is done.
proof fn lemma_placed_half_way<F: PrimeField, H: FieldHasher<F, 2>>(
    hasher: &H,
    tree: Map<u64, F>,
    height: nat,
    empty_leaf: F,
    leaves: Map<int, F>,
    written: Map<u32, F>,
)
    requires
        height < 64,
        represents::<F, H>(hasher, tree, height, empty_leaf, leaves),
        model::in_range(model::widen_u32(written), height),
    ensures
        half_way::<F, H>(
            hasher,
            batch::placed(tree, height, written),
            height,
            empty_leaf,
            leaves,
            written,
            0,
        ),
{
    let after = batch::placed(tree, height, written);
    let wide = model::widen_u32(written);
    let new = updated(leaves, written);
    let base = index::node_at(height, 0, 0);
    index::lemma_one_shl(height as u64);
    lemma_pow2_unfold(height + 1);
    lemma_pow2_pos(height);
    assert forall|x: u64| batch::is_placed(height, written, x) implies wide.contains_key(
        x - base,
    ) by {}
    assert forall|x: u64| #[trigger] after.contains_key(x) implies x < pow2(height + 1) - 1 by {
        if batch::is_placed(height, written, x) {
            assert(wide.contains_key(x - base));
        }
    }
    assert forall|level: nat, pos: int| is_node(height, level, pos) && level <= 0 implies
        #[trigger] lookup(after, height, level, pos) == expected::<F, H>(
        hasher,
        new,
        empty_leaf,
        level,
        pos,
    ) by {
        lemma_node_bound(height, level, pos);
        let x = index::node_at(height, 0, pos) as u64;
        assert(lookup(tree, height, 0, pos) == expected::<F, H>(hasher, leaves, empty_leaf, 0, pos));
        model::lemma_occupied_leaf(new, pos);
        model::lemma_occupied_leaf(leaves, pos);
        assert(x - base == pos);
        assert(batch::is_placed(height, written, x) == wide.contains_key(pos));
    }
    assert forall|level: nat, pos: int| is_node(height, level, pos) && level > 0 implies
        #[trigger] lookup(after, height, level, pos) == expected::<F, H>(
        hasher,
        leaves,
        empty_leaf,
        level,
        pos,
    ) by {
        lemma_node_bound(height, level, pos);
        let x = index::node_at(height, level, pos) as u64;
        index::lemma_pow2_monotone((height - level + 1) as nat, height);
        lemma_pow2_unfold((height - level + 1) as nat);
        assert(x < base);
        assert(lookup(tree, height, level, pos) == expected::<F, H>(
            hasher,
            leaves,
            empty_leaf,
            level,
            pos,
        ));
    }
}

/// Hashing the children of a node with a new leaf below it gives the hash of the model.
proof fn lemma_refresh<F: PrimeField, H: FieldHasher<F, 2>>(
    hasher: &H,
    tree: Map<u64, F>,
    height: nat,
    empty_leaf: F,
    leaves: Map<int, F>,
    written: Map<u32, F>,
    level: nat,
    pos: int,
)
    requires
        height < 64,
        level < height,
        model::non_negative(leaves),
        half_way::<F, H>(hasher, tree, height, empty_leaf, leaves, written, level),
        is_node(height, level + 1, pos),
    ensures
        batch::refresh::<F, H>(
            hasher,
            tree,
            empties::<F, H>(hasher, empty_leaf, height)[level as int],
            index::node_at(height, level + 1, pos) as u64,
        ) == model::subtree_hash::<F, H>(
            hasher,
            updated(leaves, written),
            empty_leaf,
            level + 1,
            pos,
        ),
{
    let new = updated(leaves, written);
    let empty = empties::<F, H>(hasher, empty_leaf, height)[level as int];
    lemma_node_bound(height, level + 1, pos);
    index::lemma_children(height, level, pos);
    lemma_pow2_unfold((height - level) as nat);
    assert(is_node(height, level, 2 * pos));
    assert(is_node(height, level, 2 * pos + 1));
    lemma_node_bound(height, level, 2 * pos);
    lemma_node_bound(height, level, 2 * pos + 1);
    assert(lookup(tree, height, level, 2 * pos) == expected::<F, H>(
        hasher,
        new,
        empty_leaf,
        level,
        2 * pos,
    ));
    assert(lookup(tree, height, level, 2 * pos + 1) == expected::<F, H>(
        hasher,
        new,
        empty_leaf,
        level,
        2 * pos + 1,
    ));
    if !model::occupied(new, level, 2 * pos) {
        model::lemma_vacant::<F, H>(hasher, new, empty_leaf, level, 2 * pos);
    }
    if !model::occupied(new, level, 2 * pos + 1) {
        model::lemma_vacant::<F, H>(hasher, new, empty_leaf, level, 2 * pos + 1);
    }
}

/// Hashing one level again moves the boundary up.
proof fn lemma_level_half_way<F: PrimeField, H: FieldHasher<F, 2>>(
    hasher: &H,
    tree: Map<u64, F>,
    height: nat,
    empty_leaf: F,
    leaves: Map<int, F>,
    written: Map<u32, F>,
    level: nat,
)
    requires
        height < 64,
        level < height,
        model::non_negative(leaves),
        model::in_range(model::widen_u32(written), height),
        half_way::<F, H>(hasher, tree, height, empty_leaf, leaves, written, level),
    ensures
        half_way::<F, H>(
            hasher,
            batch::refreshed::<F, H>(
                hasher,
                tree,
                empties::<F, H>(hasher, empty_leaf, height)[level as int],
                batch::dirty(height, written, level),
                batch::index_bound(),
            ),
            height,
            empty_leaf,
            leaves,
            written,
            level + 1,
        ),
        batch::refreshable::<F, H>(
            hasher,
            tree,
            empties::<F, H>(hasher, empty_leaf, height)[level as int],
            batch::dirty(height, written, level),
            batch::index_bound(),
        ) <==> forall|pos: int|
            model::occupied(model::widen_u32(written), level + 1, pos)
                ==> (#[trigger] model::subtree_hash::<F, H>(
                hasher,
                updated(leaves, written),
                empty_leaf,
                level + 1,
                pos,
            )) is Ok,
{
    let up = level + 1;
    let new = updated(leaves, written);
    let wide = model::widen_u32(written);
    let empty = empties::<F, H>(hasher, empty_leaf, height)[level as int];
    let nodes = batch::dirty(height, written, level);
    let after = batch::refreshed::<F, H>(hasher, tree, empty, nodes, batch::index_bound());
    lemma_dirty_nodes(height, written, level);
    assert forall|x: u64| #[trigger] after.contains_key(x) implies x < pow2(height + 1) - 1 by {
        if nodes.contains(x) {
            let pos = choose|pos: int|
                #![trigger index::node_at(height, up, pos)]
                is_node(height, up, pos) && x == index::node_at(height, up, pos);
            lemma_node_bound(height, up, pos);
        }
    }
    assert forall|l: nat, pos: int| is_node(height, l, pos) && l != up implies #[trigger] lookup(
        after,
        height,
        l,
        pos,
    ) == lookup(tree, height, l, pos) by {
        lemma_node_bound(height, l, pos);
        let x = index::node_at(height, l, pos) as u64;
        if nodes.contains(x) {
            let p = choose|p: int|
                #![trigger index::node_at(height, up, p)]
                is_node(height, up, p) && x == index::node_at(height, up, p);
            index::lemma_node_at_injective(height, l, pos, up, p);
        }
    }
    assert forall|pos: int| is_node(height, up, pos) implies #[trigger] lookup(
        after,
        height,
        up,
        pos,
    ) == expected::<F, H>(hasher, new, empty_leaf, up, pos) by {
        lemma_node_bound(height, up, pos);
        let x = index::node_at(height, up, pos) as u64;
        if model::occupied(wide, up, pos) {
            let k = choose|k: int| #[trigger] wide.contains_key(k) && index::above(k, up) == pos;
            assert(new.contains_key(k));
            assert(model::occupied(new, up, pos));
            assert(nodes.contains(x));
            lemma_refresh::<F, H>(hasher, tree, height, empty_leaf, leaves, written, level, pos);
        } else {
            assert(!nodes.contains(x));
            assert(lookup(tree, height, up, pos) == expected::<F, H>(
                hasher,
                leaves,
                empty_leaf,
                up,
                pos,
            ));
            lemma_untouched::<F, H>(hasher, empty_leaf, leaves, written, up, pos);
        }
    }
    if batch::refreshable::<F, H>(hasher, tree, empty, nodes, batch::index_bound()) {
        assert forall|pos: int| model::occupied(wide, up, pos) implies (
        #[trigger] model::subtree_hash::<F, H>(hasher, new, empty_leaf, up, pos)) is Ok by {
            let k = choose|k: int| #[trigger] wide.contains_key(k) && index::above(k, up) == pos;
            index::lemma_above_range(k, height, up);
            lemma_node_bound(height, up, pos);
            let x = index::node_at(height, up, pos) as u64;
            assert(nodes.contains(x));
            lemma_refresh::<F, H>(hasher, tree, height, empty_leaf, leaves, written, level, pos);
            assert(batch::refresh::<F, H>(hasher, tree, empty, x) is Ok);
        }
    }
    if forall|pos: int|
        model::occupied(wide, up, pos) ==> (#[trigger] model::subtree_hash::<F, H>(
            hasher,
            new,
            empty_leaf,
            up,
            pos,
        )) is Ok {
        assert forall|x: u64|
            batch::live(nodes).contains(x) && x < batch::index_bound() implies (
        #[trigger] batch::refresh::<F, H>(hasher, tree, empty, x)) is Ok by {
            let pos = choose|pos: int|
                #![trigger index::node_at(height, up, pos)]
                is_node(height, up, pos) && x == index::node_at(height, up, pos);
            assert(model::occupied(wide, up, pos));
            lemma_refresh::<F, H>(hasher, tree, height, empty_leaf, leaves, written, level, pos);
            assert(model::subtree_hash::<F, H>(hasher, new, empty_leaf, up, pos) is Ok);
        }
    }
}

/// After a batch and the first `done` levels above it, the boundary is at `done`, and the
/// hashes so far were possible exactly when those of the model are.
proof fn lemma_rehashed_half_way<F: PrimeField, H: FieldHasher<F, 2>>(
    hasher: &H,
    tree: Map<u64, F>,
    height: nat,
    empty_leaf: F,
    leaves: Map<int, F>,
    written: Map<u32, F>,
    done: nat,
)
    requires
        height < 64,
        done <= height,
        represents::<F, H>(hasher, tree, height, empty_leaf, leaves),
        model::in_range(model::widen_u32(written), height),
    ensures
        half_way::<F, H>(
            hasher,
            batch::rehashed::<F, H>(
                hasher,
                tree,
                empties::<F, H>(hasher, empty_leaf, height),
                height,
                written,
                done,
            ),
            height,
            empty_leaf,
            leaves,
            written,
            done,
        ),
        batch::batch_hashable::<F, H>(
            hasher,
            tree,
            empties::<F, H>(hasher, empty_leaf, height),
            height,
            written,
            done,
        ) <==> touched_hashable::<F, H>(hasher, empty_leaf, leaves, written, done),
    decreases done,
{
    if done == 0 {
        lemma_placed_half_way::<F, H>(hasher, tree, height, empty_leaf, leaves, written);
    } else {
        let level = (done - 1) as nat;
        let empties = empties::<F, H>(hasher, empty_leaf, height);
        let below = batch::rehashed::<F, H>(hasher, tree, empties, height, written, level);
        lemma_rehashed_half_way::<F, H>(hasher, tree, height, empty_leaf, leaves, written, level);
        lemma_level_half_way::<F, H>(hasher, below, height, empty_leaf, leaves, written, level);
        let here = batch::refreshable::<F, H>(
            hasher,
            below,
            empties[level as int],
            batch::dirty(height, written, level),
            batch::index_bound(),
        );
        batch::lemma_batch_level::<F, H>(hasher, tree, empties, height, written, level);
        assert(touched_hashable::<F, H>(hasher, empty_leaf, leaves, written, done) <==> (
        touched_hashable::<F, H>(hasher, empty_leaf, leaves, written, level) && here)) by {
            if touched_hashable::<F, H>(hasher, empty_leaf, leaves, written, level) && here {
                assert forall|l: nat, pos: int|
                    1 <= l <= done && model::occupied(model::widen_u32(written), l, pos) implies (
                #[trigger] model::subtree_hash::<F, H>(
                    hasher,
                    updated(leaves, written),
                    empty_leaf,
                    l,
                    pos,
                )) is Ok by {
                    if l == done {
                        assert(l == level + 1);
                    }
                }
            }
        }
    }
}

/// A batch written to a map that represents some leaves gives a map that represents the
/// updated leaves, and it can be hashed exactly when the nodes above the batch can.
pub(crate) proof fn lemma_batch_represents<F: PrimeField, H: FieldHasher<F, 2>>(
    hasher: &H,
    tree: Map<u64, F>,
    height: nat,
    empty_leaf: F,
    leaves: Map<int, F>,
    written: Map<u32, F>,
)
    requires
        height < 64,
        represents::<F, H>(hasher, tree, height, empty_leaf, leaves),
        model::in_range(model::widen_u32(written), height),
    ensures
        represents::<F, H>(
            hasher,
            batch::rehashed::<F, H>(
                hasher,
                tree,
                empties::<F, H>(hasher, empty_leaf, height),
                height,
                written,
                height,
            ),
            height,
            empty_leaf,
            updated(leaves, written),
        ),
        batch::batch_hashable::<F, H>(
            hasher,
            tree,
            empties::<F, H>(hasher, empty_leaf, height),
            height,
            written,
            height,
        ) <==> touched_hashable::<F, H>(hasher, empty_leaf, leaves, written, height),
{
    lemma_rehashed_half_way::<F, H>(hasher, tree, height, empty_leaf, leaves, written, height);
}

/// The map without nodes represents no leaves.
pub(crate) proof fn lemma_empty_represents<F: PrimeField, H: FieldHasher<F, 2>>(
    hasher: &H,
    height: nat,
    empty_leaf: F,
)
    ensures
        represents::<F, H>(hasher, Map::<u64, F>::empty(), height, empty_leaf, Map::<int, F>::empty()),
{
}

/// The leaves determine the map.
pub(crate) proof fn lemma_represents_unique<F: PrimeField, H: FieldHasher<F, 2>>(
    hasher: &H,
    a: Map<u64, F>,
    b: Map<u64, F>,
    height: nat,
    empty_leaf: F,
    leaves: Map<int, F>,
)
    requires
        height < 64,
        represents::<F, H>(hasher, a, height, empty_leaf, leaves),
        represents::<F, H>(hasher, b, height, empty_leaf, leaves),
    ensures
        a == b,
{
    index::lemma_one_shl(height as u64);
    lemma_pow2_unfold(height + 1);
    assert forall|x: u64|
        #![trigger a.dom().contains(x)]
        #![trigger b.dom().contains(x)]
        #![trigger a[x]]
        a.contains_key(x) == b.contains_key(x) && (a.contains_key(x) ==> a[x] == b[x]) by {
        if x < pow2(height + 1) - 1 {
            let node = index::lemma_node_at_surjective(height, x as int);
            assert(is_node(height, node.0, node.1));
            assert(lookup(a, height, node.0, node.1) == lookup(b, height, node.0, node.1));
        }
    }
    assert(a =~= b);
}

} // verus!
