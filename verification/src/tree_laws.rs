//! Laws of the leaves, nodes and batches of a tree, stated on the maps and lists that are
//! given and on the hash of a message of two words.
use vstd::arithmetic::power2::*;
use vstd::prelude::*;

use crate::batch;
use crate::field;
use crate::field::PrimeField;
use crate::hash_laws;
use crate::index;
use crate::laws;
use crate::membership;
use crate::model;
use crate::nodes;
use crate::path::{Error, Path};
use crate::poseidon;
use crate::poseidon::{FieldHasher, HashError};
use crate::smt;
use crate::smt::SparseMerkleTree;

verus! {

/// The leaves of a map with 32-bit keys: a position has a leaf exactly where the map has the
/// key, and it is the value under the key.
pub proof fn law_leaves_of_u32<F>(leaves: Map<u32, F>)
    ensures
        forall|k: u32|
            (#[trigger] leaves.contains_key(k)) <==> model::widen_u32(leaves).contains_key(
                k as int,
            ),
        forall|k: u32| #[trigger]
            leaves.contains_key(k) ==> model::widen_u32(leaves)[k as int] == leaves[k],
        forall|k: int| #[trigger]
            model::widen_u32(leaves).contains_key(k) ==> 0 <= k <= u32::MAX,
        model::widen_u32(leaves) == Map::new(
            |k: int| 0 <= k <= u32::MAX && leaves.contains_key(k as u32),
            |k: int| leaves[k as u32],
        ),
{
}

/// The leaves of a map with 64-bit keys: a position has a leaf exactly where the map has the
/// key, and it is the value under the key.
pub proof fn law_leaves_of_u64<F>(leaves: Map<u64, F>)
    ensures
        forall|k: u64|
            (#[trigger] leaves.contains_key(k)) <==> model::widen_u64(leaves).contains_key(
                k as int,
            ),
        forall|k: u64| #[trigger]
            leaves.contains_key(k) ==> model::widen_u64(leaves)[k as int] == leaves[k],
        forall|k: int| #[trigger]
            model::widen_u64(leaves).contains_key(k) ==> 0 <= k <= u64::MAX,
        model::widen_u64(leaves) == Map::new(
            |k: int| 0 <= k <= u64::MAX && leaves.contains_key(k as u64),
            |k: int| leaves[k as u64],
        ),
{
}

/// All leaves are in range exactly where every position is that of a leaf of the tree.
pub proof fn law_in_range<F>(leaves: Map<int, F>, height: nat)
    ensures
        model::in_range(leaves, height) <==> forall|k: int| #[trigger]
            leaves.contains_key(k) ==> 0 <= k && k < pow2(height),
        model::in_range(leaves, height) ==> model::non_negative(leaves),
{
}

/// The leaves after a batch: at a position of the batch its leaf, elsewhere what was there.
pub proof fn law_updated<F>(leaves: Map<int, F>, written: Map<u32, F>)
    ensures
        forall|k: u32| #[trigger]
            written.contains_key(k) ==> nodes::updated(leaves, written).get(k as int) == Some(
                written[k],
            ),
        forall|k: int|
            !(0 <= k <= u32::MAX && written.contains_key(k as u32))
                ==> #[trigger] nodes::updated(leaves, written).get(k) == leaves.get(k),
{
}

/// The leaves of a list have their places in the list as positions, and no other position has
/// one. Beyond `2^32` leaves, the places are taken modulo `2^32` and the last leaf counts.
pub proof fn law_sequential<F>(leaves: Seq<F>, n: int)
    requires
        0 <= n <= leaves.len(),
    ensures
        forall|k: u32|
            (#[trigger] smt::sequential(leaves, n).contains_key(k)) <==> (k as int) < n,
        n <= 0x1_0000_0000 ==> forall|k: u32|
            k < n ==> #[trigger] smt::sequential(leaves, n)[k] == leaves[k as int],
        n <= 0x1_0000_0000 ==> model::widen_u32(smt::sequential(leaves, n)) == Map::new(
            |k: int| 0 <= k < n,
            |k: int| leaves[k],
        ),
        forall|j: int|
            0 <= j < n && n - j <= 0x1_0000_0000 ==> smt::sequential(
                leaves,
                n,
            )[(j % 0x1_0000_0000) as u32] == #[trigger] leaves[j],
    decreases n,
{
    if n > 0 {
        law_sequential(leaves, n - 1);
        let below = smt::sequential(leaves, n - 1);
        let all = smt::sequential(leaves, n);
        let last = ((n - 1) % 0x1_0000_0000) as u32;
        assert(all == below.insert(last, leaves[n - 1]));
        assert forall|k: u32| (#[trigger] all.contains_key(k)) <==> (k as int) < n by {
            assert(below.contains_key(k) <==> (k as int) < n - 1);
        }
        assert forall|j: int| 0 <= j < n && n - j <= 0x1_0000_0000 implies all[(j
            % 0x1_0000_0000) as u32] == #[trigger] leaves[j] by {
            if j < n - 1 {
                assert((j % 0x1_0000_0000) as u32 != last);
            }
        }
        if n <= 0x1_0000_0000 {
            assert forall|k: u32| k < n implies #[trigger] all[k] == leaves[k as int] by {
                if k < n - 1 {
                    assert(below[k] == leaves[k as int]);
                }
            }
        }
    }
    if n <= 0x1_0000_0000 {
        let all = smt::sequential(leaves, n);
        let wide = model::widen_u32(all);
        let plain = Map::new(|k: int| 0 <= k < n, |k: int| leaves[k]);
        assert forall|k: int| wide.contains_key(k) <==> plain.contains_key(k) by {
            if 0 <= k <= u32::MAX {
                assert(all.contains_key(k as u32) <==> k < n);
            }
        }
        assert forall|k: int| wide.contains_key(k) implies wide[k] == plain[k] by {
            assert(all[k as u32] == leaves[(k as u32) as int]);
        }
        assert(wide =~= plain);
    }
}

/// The batch of a list of at most `2^32` leaves has as many leaves as the list.
pub proof fn law_sequential_count<F>(leaves: Seq<F>, n: int)
    requires
        0 <= n <= leaves.len(),
        n <= 0x1_0000_0000,
    ensures
        smt::sequential(leaves, n).dom().finite(),
        smt::sequential(leaves, n).dom().len() == n,
    decreases n,
{
    if n > 0 {
        law_sequential_count(leaves, n - 1);
        law_sequential(leaves, n - 1);
        let below = smt::sequential(leaves, n - 1);
        let last = (n - 1) as u32;
        assert(!below.contains_key(last));
        assert(smt::sequential(leaves, n).dom() =~= below.dom().insert(last));
    } else {
        assert(smt::sequential(leaves, n).dom() =~= Set::empty());
    }
}

/// The empty leaf is the whole byte string, read as a little-endian number, modulo the number
/// of elements of the field.
pub proof fn law_empty_leaf<F: PrimeField>(bytes: Seq<u8>)
    ensures
        smt::empty_leaf_of::<F>(bytes).value() == (field::le_value(bytes) as int) % F::modulus(),
        smt::empty_leaf_of::<F>(bytes) == F::of_int(field::le_value(bytes) as int),
{
    F::lemma_of_int(field::le_value(bytes) as int);
}

/// The empty value of the leaves is the empty leaf, and that of each next level the hash of
/// the one before with itself.
pub proof fn law_empty_values<F: PrimeField, H: FieldHasher<F, 2>>(
    hasher: &H,
    empty_leaf: F,
    level: nat,
)
    ensures
        model::empty::<F, H>(hasher, empty_leaf, 0) == empty_leaf,
        ({
            let value = model::empty::<F, H>(hasher, empty_leaf, level);
            &&& smt::empty_hash::<F, H>(hasher, empty_leaf, level) == hasher.spec_hash(
                seq![value, value],
            )
            &&& hasher.spec_hash(seq![value, value]) is Ok ==> hasher.spec_hash(seq![value, value])
                == Ok::<F, HashError>(model::empty::<F, H>(hasher, empty_leaf, level + 1))
        }),
        nodes::empties::<F, H>(hasher, empty_leaf, level).len() == level,
        forall|i: int|
            0 <= i < level ==> #[trigger] nodes::empties::<F, H>(hasher, empty_leaf, level)[i]
                == model::empty::<F, H>(hasher, empty_leaf, i as nat),
{
}

/// The value of a node on the leaf level is the leaf, or the empty leaf where there is none.
/// The value of a node above is the hash of the values of its two children, the left one
/// first.
pub proof fn law_node_values<F: PrimeField, H: FieldHasher<F, 2>>(
    hasher: &H,
    leaves: Map<int, F>,
    empty_leaf: F,
    level: nat,
    pos: int,
)
    ensures
        leaves.contains_key(pos) ==> model::subtree::<F, H>(hasher, leaves, empty_leaf, 0, pos)
            == leaves[pos],
        !leaves.contains_key(pos) ==> model::subtree::<F, H>(hasher, leaves, empty_leaf, 0, pos)
            == empty_leaf,
        ({
            let left = model::subtree::<F, H>(hasher, leaves, empty_leaf, level, 2 * pos);
            let right = model::subtree::<F, H>(hasher, leaves, empty_leaf, level, 2 * pos + 1);
            &&& model::subtree_hash::<F, H>(hasher, leaves, empty_leaf, level + 1, pos)
                == hasher.spec_hash(seq![left, right])
            &&& hasher.spec_hash(seq![left, right]) is Ok ==> hasher.spec_hash(seq![left, right])
                == Ok::<F, HashError>(
                model::subtree::<F, H>(hasher, leaves, empty_leaf, level + 1, pos),
            )
        }),
{
    let up = level + 1;
    assert((up - 1) as nat == level);
}

/// A leaf lies below a node exactly where it is one of the `2^level` leaves from the position
/// of the node times `2^level` on.
pub proof fn law_occupied<F>(leaves: Map<int, F>, level: nat, pos: int)
    ensures
        model::occupied(leaves, level, pos) <==> exists|k: int| #[trigger]
            leaves.contains_key(k) && pos * pow2(level) <= k < (pos + 1) * pow2(level),
{
    let p = pow2(level) as int;
    lemma_pow2_pos(level);
    assert forall|k: int| index::above(k, level) == pos <==> pos * p <= k < (pos + 1) * p by {
        vstd::arithmetic::div_mod::lemma_fundamental_div_mod(k, p);
        let q = k / p;
        assert(p * q <= k < p * q + p);
        if pos * p <= k < (pos + 1) * p {
            assert(q == pos) by (nonlinear_arith)
                requires
                    p > 0,
                    p * q <= k < p * q + p,
                    pos * p <= k < (pos + 1) * p,
            ;
        }
        if q == pos {
            assert(p * q == pos * p && (pos + 1) * p == p * q + p) by (nonlinear_arith)
                requires
                    q == pos,
            ;
        }
    }
    if model::occupied(leaves, level, pos) {
        let k = choose|k: int| #[trigger] leaves.contains_key(k) && index::above(k, level) == pos;
        assert(leaves.contains_key(k) && pos * pow2(level) <= k < (pos + 1) * pow2(level));
    }
    if exists|k: int| #[trigger]
        leaves.contains_key(k) && pos * pow2(level) <= k < (pos + 1) * pow2(level) {
        let k = choose|k: int| #[trigger]
            leaves.contains_key(k) && pos * pow2(level) <= k < (pos + 1) * pow2(level);
        assert(leaves.contains_key(k) && index::above(k, level) == pos);
    }
}

/// The map of a tree that holds some leaves has, for each node of the tree, the value of the
/// node if a leaf lies below it, and nothing else; the list of empty values has that of each
/// level below the root.
pub proof fn law_tree_nodes<F: PrimeField, H: FieldHasher<F, 2>, const N: usize>(
    tree: &SparseMerkleTree<F, H, N>,
    hasher: &H,
    empty_leaf: F,
    leaves: Map<int, F>,
    level: nat,
    pos: int,
)
    requires
        N < 64,
        tree.holds(hasher, empty_leaf, leaves),
        level <= N,
        0 <= pos < pow2((N - level) as nat),
    ensures
        0 <= pow2((N - level) as nat) - 1 + pos <= u64::MAX,
        ({
            let x = (pow2((N - level) as nat) - 1 + pos) as u64;
            &&& tree.nodes().contains_key(x) <==> exists|k: int| #[trigger]
                leaves.contains_key(k) && pos * pow2(level) <= k < (pos + 1) * pow2(level)
            &&& tree.nodes().contains_key(x) ==> tree.nodes()[x] == model::subtree::<F, H>(
                hasher,
                leaves,
                empty_leaf,
                level,
                pos,
            )
        }),
        forall|x: u64| #[trigger] tree.nodes().contains_key(x) ==> x < pow2((N + 1) as nat) - 1,
        forall|k: int| #[trigger] leaves.contains_key(k) ==> 0 <= k < pow2(N as nat),
        tree.empties().len() == N,
        forall|i: int|
            0 <= i < N ==> #[trigger] tree.empties()[i] == model::empty::<F, H>(
                hasher,
                empty_leaf,
                i as nat,
            ),
{
    let height = N as nat;
    index::lemma_one_shl(N as u64);
    lemma_pow2_pos((N - level) as nat);
    index::lemma_pow2_monotone((N - level) as nat, height);
    law_occupied(leaves, level, pos);
    assert(nodes::is_node(height, level, pos));
    assert(nodes::lookup(tree.nodes(), height, level, pos) == nodes::expected::<F, H>(
        hasher,
        leaves,
        empty_leaf,
        level,
        pos,
    ));
}

/// On the leaf level, the map of a tree that holds some leaves has exactly these leaves.
pub proof fn law_tree_leaves<F: PrimeField, H: FieldHasher<F, 2>, const N: usize>(
    tree: &SparseMerkleTree<F, H, N>,
    hasher: &H,
    empty_leaf: F,
    leaves: Map<int, F>,
    k: int,
)
    requires
        N < 64,
        tree.holds(hasher, empty_leaf, leaves),
        0 <= k < pow2(N as nat),
    ensures
        tree.nodes().contains_key((pow2(N as nat) - 1 + k) as u64) <==> leaves.contains_key(k),
        leaves.contains_key(k) ==> tree.nodes()[(pow2(N as nat) - 1 + k) as u64] == leaves[k],
{
    let height = N as nat;
    model::lemma_occupied_leaf(leaves, k);
    assert(nodes::is_node(height, 0, k));
    assert(nodes::lookup(tree.nodes(), height, 0, k) == nodes::expected::<F, H>(
        hasher,
        leaves,
        empty_leaf,
        0,
        k,
    ));
}

/// With a hash function that gives a digest for every pair, no node of a batch stops the work.
pub proof fn law_batch_succeeds<F: PrimeField, H: FieldHasher<F, 2>>(
    hasher: &H,
    tree: Map<u64, F>,
    empties: Seq<F>,
    height: nat,
    leaves: Map<u32, F>,
    levels: nat,
)
    requires
        forall|a: F, b: F| hasher.spec_hash(#[trigger] seq![a, b]) is Ok,
    ensures
        batch::batch_hashable::<F, H>(hasher, tree, empties, height, leaves, levels),
{
    assert forall|level: nat| level < levels implies #[trigger] batch::level_hashable::<F, H>(
        hasher,
        tree,
        empties,
        height,
        leaves,
        level,
    ) by {
        let below = batch::rehashed::<F, H>(hasher, tree, empties, height, leaves, level);
        assert forall|x: u64| (#[trigger] batch::refresh::<F, H>(
            hasher,
            below,
            empties[level as int],
            x,
        )) is Ok by {
            hash_laws::law_pair_hash::<F, H>(
                hasher,
                batch::node_value(below, empties[level as int], 2 * x + 1),
                batch::node_value(below, empties[level as int], 2 * x + 2),
            );
        }
    }
}

/// The error of a batch is that of a pair that cannot be hashed.
pub proof fn law_batch_error<F: PrimeField, H: FieldHasher<F, 2>>(
    hasher: &H,
    tree: Map<u64, F>,
    empties: Seq<F>,
    height: nat,
    leaves: Map<u32, F>,
    level: nat,
    x: u64,
    error: Error,
    after: Map<u64, F>,
)
    requires
        batch::batch_stops_at::<F, H>(
            hasher,
            tree,
            empties,
            height,
            leaves,
            level,
            x,
            error,
            after,
        ),
    ensures
        exists|a: F, b: F|
            hasher.spec_hash(#[trigger] seq![a, b]) is Err && error == Error::Hash(
                hasher.spec_hash(seq![a, b])->Err_0,
            ),
{
    let below = batch::rehashed::<F, H>(hasher, tree, empties, height, leaves, level);
    let a = batch::node_value(below, empties[level as int], 2 * x + 1);
    let b = batch::node_value(below, empties[level as int], 2 * x + 2);
    assert(hasher.spec_hash(seq![a, b]) is Err);
}

/// One level of a batch: the leaves are written under their indices; on each level after that
/// the node under an index is the hash of the two nodes under twice the index plus one and
/// plus two, if the index plus one is that of a written leaf, plus one, halved so many times;
/// where the root is among them, it alone is. Everything else stays.
pub proof fn law_batch_step<F: PrimeField, H: FieldHasher<F, 2>>(
    hasher: &H,
    tree: Map<u64, F>,
    empties: Seq<F>,
    height: nat,
    leaves: Map<u32, F>,
    level: nat,
    x: u64,
)
    ensures
        ({
            let first = batch::rehashed::<F, H>(hasher, tree, empties, height, leaves, 0);
            let k = x - (pow2(height) - 1);
            if 0 <= k <= u32::MAX && leaves.contains_key(k as u32) {
                first.contains_key(x) && first[x] == leaves[k as u32]
            } else {
                (first.contains_key(x) <==> tree.contains_key(x)) && (tree.contains_key(x)
                    ==> first[x] == tree[x])
            }
        }),
        ({
            let below = batch::rehashed::<F, H>(hasher, tree, empties, height, leaves, level);
            let after = batch::rehashed::<F, H>(hasher, tree, empties, height, leaves, level + 1);
            let root = exists|i: u32| #[trigger]
                leaves.contains_key(i) && (pow2(height) + i) / (pow2(level + 1) as int) == 1;
            let above = exists|i: u32| #[trigger]
                leaves.contains_key(i) && (pow2(height) + i) / (pow2(level + 1) as int) == x + 1;
            let left = if below.contains_key((2 * x + 1) as u64) {
                below[(2 * x + 1) as u64]
            } else {
                empties[level as int]
            };
            let right = if below.contains_key((2 * x + 2) as u64) {
                below[(2 * x + 2) as u64]
            } else {
                empties[level as int]
            };
            if above && (root ==> x == 0) {
                &&& after.contains_key(x)
                &&& batch::level_hashable::<F, H>(hasher, tree, empties, height, leaves, level)
                    ==> hasher.spec_hash(seq![left, right]) == Ok::<F, HashError>(after[x])
            } else {
                (after.contains_key(x) <==> below.contains_key(x)) && (below.contains_key(x)
                    ==> after[x] == below[x])
            }
        }),
{
    let below = batch::rehashed::<F, H>(hasher, tree, empties, height, leaves, level);
    let nodes = batch::dirty(height, leaves, level);
    let up = level + 1;
    assert((up - 1) as nat == level);
    assert(batch::rehashed::<F, H>(hasher, tree, empties, height, leaves, up)
        == batch::refreshed::<F, H>(
        hasher,
        below,
        empties[level as int],
        nodes,
        batch::index_bound(),
    ));
    assert(nodes.contains(0) <==> exists|i: u32| #[trigger]
        leaves.contains_key(i) && (pow2(height) + i) / (pow2(level + 1) as int) == 1);
    assert(nodes.contains(x) <==> exists|i: u32| #[trigger]
        leaves.contains_key(i) && (pow2(height) + i) / (pow2(level + 1) as int) == x + 1);
    let root = exists|i: u32| #[trigger]
        leaves.contains_key(i) && (pow2(height) + i) / (pow2(level + 1) as int) == 1;
    let above = exists|i: u32| #[trigger]
        leaves.contains_key(i) && (pow2(height) + i) / (pow2(level + 1) as int) == x + 1;
    assert(batch::live(nodes).contains(x) <==> above && (root ==> x == 0));
    if batch::level_hashable::<F, H>(hasher, tree, empties, height, leaves, level)
        && batch::live(nodes).contains(x) {
        assert(batch::refresh::<F, H>(hasher, below, empties[level as int], x) is Ok);
    }
}

/// The index plus one of the node above a leaf is one of those of its level.
proof fn lemma_level_of(height: nat, i: int, level: nat)
    requires
        level <= height,
        0 <= i < pow2(height),
    ensures
        pow2((height - level) as nat) <= (pow2(height) + i) / (pow2(level) as int) < pow2(
            (height - level + 1) as nat,
        ),
{
    let v = pow2(height) + i;
    lemma_pow2_pos(level);
    lemma_pow2_unfold(height + 1);
    index::lemma_above_range(v, height + 1, level);
    lemma_pow2_adds(level, (height - level) as nat);
    let p = pow2(level) as int;
    let q = pow2((height - level) as nat) as int;
    vstd::arithmetic::div_mod::lemma_div_is_ordered(p * q, v, p);
    vstd::arithmetic::div_mod::lemma_div_multiples_vanish(q, p);
    assert(height + 1 - level == height - level + 1);
}

/// A batch whose leaves are in the tree: the leaves are under their indices, each node above
/// one of them is the hash of its two children as they are afterwards, a child that is not
/// there counting as the empty value of its level, and every other node is as before.
pub open spec fn is_written<F: PrimeField, H: FieldHasher<F, 2>>(
    hasher: &H,
    before: Map<u64, F>,
    after: Map<u64, F>,
    empties: Seq<F>,
    height: nat,
    leaves: Map<u32, F>,
    levels: nat,
) -> bool {
    &&& forall|i: u32| #[trigger]
        leaves.contains_key(i) ==> after.get((pow2(height) - 1 + i) as u64) == Some(leaves[i])
    &&& forall|level: nat, x: u64| #[trigger]
        is_above(height, leaves, level, x) && level < levels ==> after.contains_key(x)
            && hasher.spec_hash(
            seq![
                batch::node_value(after, empties[level as int], 2 * x + 1),
                batch::node_value(after, empties[level as int], 2 * x + 2),
            ],
        ) == Ok::<F, HashError>(after[x])
    &&& forall|x: u64|
        !(0 <= x - (pow2(height) - 1) <= u32::MAX && leaves.contains_key(
            (x - (pow2(height) - 1)) as u32,
        )) && !(exists|level: nat|
            level < levels && #[trigger] is_above(height, leaves, level, x))
            ==> #[trigger] after.get(x) == before.get(x)
}

/// The node under the index is `level + 1` levels above a leaf of the batch.
pub open spec fn is_above<F>(height: nat, leaves: Map<u32, F>, level: nat, x: u64) -> bool {
    exists|i: u32| #[trigger]
        leaves.contains_key(i) && x + 1 == (pow2(height) + i) / (pow2(level + 1) as int)
}

/// The nodes hashed again on one level lie between two powers of two, and none of them is
/// left out.
proof fn lemma_dirty_range<F>(height: nat, leaves: Map<u32, F>, level: nat)
    requires
        height < 64,
        level < height,
        forall|i: u32| #[trigger] leaves.contains_key(i) ==> i < pow2(height),
    ensures
        forall|x: u64| #[trigger]
            batch::dirty(height, leaves, level).contains(x) ==> pow2((height - level - 1) as nat)
                <= x + 1 < pow2((height - level) as nat),
        batch::live(batch::dirty(height, leaves, level)) == batch::dirty(height, leaves, level),
        forall|x: u64| #[trigger]
            is_above(height, leaves, level, x) ==> batch::dirty(height, leaves, level).contains(x),
        forall|x: u64| #[trigger]
            batch::dirty(height, leaves, level).contains(x) ==> is_above(height, leaves, level, x),
{
    let nodes = batch::dirty(height, leaves, level);
    assert forall|x: u64| #[trigger] nodes.contains(x) implies pow2((height - level - 1) as nat)
        <= x + 1 < pow2((height - level) as nat) by {
        let i = choose|i: u32| #[trigger]
            leaves.contains_key(i) && x + 1 == index::above(pow2(height) + i, level + 1);
        lemma_level_of(height, i as int, level + 1);
    }
    if nodes.contains(0) {
        lemma2_to64();
        if height - level - 1 > 0 {
            lemma_pow2_strictly_increases(0, (height - level - 1) as nat);
        }
        assert(height - level == 1);
        assert(nodes =~= set![0]);
    }
    assert(batch::live(nodes) =~= nodes);
}

/// One more level of a batch.
proof fn lemma_written_level<F: PrimeField, H: FieldHasher<F, 2>>(
    hasher: &H,
    before: Map<u64, F>,
    below: Map<u64, F>,
    after: Map<u64, F>,
    empties: Seq<F>,
    height: nat,
    leaves: Map<u32, F>,
    last: nat,
)
    requires
        height < 64,
        last < height,
        forall|i: u32| #[trigger] leaves.contains_key(i) ==> i < pow2(height),
        is_written::<F, H>(hasher, before, below, empties, height, leaves, last),
        forall|x: u64|
            !is_above(height, leaves, last, x) ==> #[trigger] after.get(x) == below.get(x),
        forall|x: u64| #[trigger]
            is_above(height, leaves, last, x) ==> after.contains_key(x) && hasher.spec_hash(
                seq![
                    batch::node_value(below, empties[last as int], 2 * x + 1),
                    batch::node_value(below, empties[last as int], 2 * x + 2),
                ],
            ) == Ok::<F, HashError>(after[x]),
        forall|x: u64| #[trigger]
            is_above(height, leaves, last, x) ==> pow2((height - last - 1) as nat) <= x + 1 < pow2(
                (height - last) as nat,
            ),
    ensures
        is_written::<F, H>(hasher, before, after, empties, height, leaves, last + 1),
{
    index::lemma_one_shl(height as u64);
    lemma_pow2_pos(height);
    index::lemma_pow2_monotone((height - last) as nat, height);
    assert forall|i: u32| #[trigger] leaves.contains_key(i) implies after.get(
        (pow2(height) - 1 + i) as u64,
    ) == Some(leaves[i]) by {
        let x = (pow2(height) - 1 + i) as u64;
        assert(x == pow2(height) - 1 + i);
        assert(!is_above(height, leaves, last, x));
        assert(after.get(x) == below.get(x));
    }
    assert forall|level: nat, x: u64| #[trigger]
        is_above(height, leaves, level, x) && level < last + 1 implies after.contains_key(x)
        && hasher.spec_hash(
        seq![
            batch::node_value(after, empties[level as int], 2 * x + 1),
            batch::node_value(after, empties[level as int], 2 * x + 2),
        ],
    ) == Ok::<F, HashError>(after[x]) by {
        lemma_children_stay(height, leaves, below, after, empties[level as int], last, level, x);
        if level < last {
            assert(after.get(x) == below.get(x));
        }
    }
    assert forall|x: u64|
        !(0 <= x - (pow2(height) - 1) <= u32::MAX && leaves.contains_key(
            (x - (pow2(height) - 1)) as u32,
        )) && !(exists|level: nat| level < last + 1 && #[trigger] is_above(
            height,
            leaves,
            level,
            x,
        )) implies #[trigger] after.get(x) == before.get(x) by {
        assert(!is_above(height, leaves, last, x));
        assert(!(exists|level: nat| level < last && #[trigger] is_above(height, leaves, level, x)));
        assert(after.get(x) == below.get(x));
        assert(below.get(x) == before.get(x));
    }
}

/// Hashing a level again leaves the nodes further down as they are.
proof fn lemma_children_stay<F: PrimeField>(
    height: nat,
    leaves: Map<u32, F>,
    below: Map<u64, F>,
    after: Map<u64, F>,
    empty: F,
    last: nat,
    level: nat,
    x: u64,
)
    requires
        height < 64,
        level <= last < height,
        forall|i: u32| #[trigger] leaves.contains_key(i) ==> i < pow2(height),
        is_above(height, leaves, level, x),
        forall|y: u64|
            !is_above(height, leaves, last, y) ==> #[trigger] after.get(y) == below.get(y),
        forall|y: u64| #[trigger]
            is_above(height, leaves, last, y) ==> y + 1 < pow2((height - last) as nat),
    ensures
        batch::node_value(after, empty, 2 * x + 1) == batch::node_value(below, empty, 2 * x + 1),
        batch::node_value(after, empty, 2 * x + 2) == batch::node_value(below, empty, 2 * x + 2),
        level < last ==> !is_above(height, leaves, last, x),
{
    let i = choose|i: u32| #[trigger]
        leaves.contains_key(i) && x + 1 == (pow2(height) + i) / (pow2(level + 1) as int);
    lemma_level_of(height, i as int, level + 1);
    index::lemma_one_shl(height as u64);
    lemma_pow2_unfold((height - level) as nat);
    index::lemma_pow2_monotone((height - last) as nat, (height - level) as nat);
    index::lemma_pow2_monotone((height - level) as nat, height);
    assert(height - (level + 1) + 1 == height - level);
    let left = (2 * x + 1) as u64;
    let right = (2 * x + 2) as u64;
    assert(left == 2 * x + 1 && right == 2 * x + 2);
    assert(!is_above(height, leaves, last, left) && !is_above(height, leaves, last, right));
    assert(after.get(left) == below.get(left));
    assert(after.get(right) == below.get(right));
    if level < last {
        index::lemma_pow2_monotone((height - last) as nat, (height - level - 1) as nat);
    }
}

/// Writing a batch whose leaves are in the tree and whose nodes can be hashed writes the
/// leaves, makes every node above one of them the hash of its children, and changes nothing
/// else.
pub proof fn law_batch_nodes<F: PrimeField, H: FieldHasher<F, 2>>(
    hasher: &H,
    before: Map<u64, F>,
    empties: Seq<F>,
    height: nat,
    leaves: Map<u32, F>,
    levels: nat,
)
    requires
        height < 64,
        levels <= height,
        forall|i: u32| #[trigger] leaves.contains_key(i) ==> i < pow2(height),
        batch::batch_hashable::<F, H>(hasher, before, empties, height, leaves, levels),
    ensures
        is_written::<F, H>(
            hasher,
            before,
            batch::rehashed::<F, H>(hasher, before, empties, height, leaves, levels),
            empties,
            height,
            leaves,
            levels,
        ),
    decreases levels,
{
    let after = batch::rehashed::<F, H>(hasher, before, empties, height, leaves, levels);
    if levels == 0 {
        index::lemma_one_shl(height as u64);
        lemma_pow2_pos(height);
        assert forall|i: u32| #[trigger] leaves.contains_key(i) implies after.get(
            (pow2(height) - 1 + i) as u64,
        ) == Some(leaves[i]) by {
            let x = (pow2(height) - 1 + i) as u64;
            assert(batch::is_placed(height, leaves, x));
        }
        assert forall|x: u64|
            !(0 <= x - (pow2(height) - 1) <= u32::MAX && leaves.contains_key(
                (x - (pow2(height) - 1)) as u32,
            )) implies #[trigger] after.get(x) == before.get(x) by {
            assert(!batch::is_placed(height, leaves, x));
        }
    } else {
        let last = (levels - 1) as nat;
        let below = batch::rehashed::<F, H>(hasher, before, empties, height, leaves, last);
        let nodes = batch::dirty(height, leaves, last);
        law_batch_nodes::<F, H>(hasher, before, empties, height, leaves, last);
        lemma_dirty_range(height, leaves, last);
        assert(batch::level_hashable::<F, H>(hasher, before, empties, height, leaves, last));
        assert forall|x: u64| !is_above(height, leaves, last, x) implies #[trigger] after.get(x)
            == below.get(x) by {
            assert(!nodes.contains(x));
        }
        assert forall|x: u64| #[trigger] is_above(height, leaves, last, x) implies after.contains_key(
            x,
        ) && hasher.spec_hash(
            seq![
                batch::node_value(below, empties[last as int], 2 * x + 1),
                batch::node_value(below, empties[last as int], 2 * x + 2),
            ],
        ) == Ok::<F, HashError>(after[x]) by {
            assert(nodes.contains(x));
            assert(batch::refresh::<F, H>(hasher, below, empties[last as int], x) is Ok);
        }
        lemma_written_level::<F, H>(
            hasher,
            before,
            below,
            after,
            empties,
            height,
            leaves,
            last,
        );
    }
}

/// What a batch does on the leaf level.
pub(crate) proof fn lemma_leaf_level<F: PrimeField, H: FieldHasher<F, 2>>(
    hasher: &H,
    before: Map<u64, F>,
    after: Map<u64, F>,
    empties: Seq<F>,
    height: nat,
    leaves: Map<u32, F>,
)
    requires
        height < 64,
        forall|i: u32| #[trigger] leaves.contains_key(i) ==> i < pow2(height),
        is_written::<F, H>(hasher, before, after, empties, height, leaves, height),
    ensures
        forall|x: u64|
            x >= pow2(height) - 1 && !(0 <= x - (pow2(height) - 1) <= u32::MAX
                && leaves.contains_key((x - (pow2(height) - 1)) as u32)) ==> #[trigger] after.get(x) == before.get(x),
{
    assert forall|x: u64|
        x >= pow2(height) - 1 && !(0 <= x - (pow2(height) - 1) <= u32::MAX
            && leaves.contains_key((x - (pow2(height) - 1)) as u32)) implies #[trigger] after.get(x) == before.get(x) by {
        assert forall|level: nat| level < height implies !(#[trigger] is_above(
            height,
            leaves,
            level,
            x,
        )) by {
            if is_above(height, leaves, level, x) {
                let i = choose|i: u32| #[trigger]
                    leaves.contains_key(i) && x + 1 == (pow2(height) + i) / (pow2(
                        level + 1,
                    ) as int);
                lemma_level_of(height, i as int, level + 1);
                index::lemma_pow2_monotone((height - (level + 1) + 1) as nat, height);
            }
        }
        assert(!(exists|level: nat| level < height && #[trigger] is_above(
            height,
            leaves,
            level,
            x,
        )));
        assert(after.contains_key(x) <==> before.contains_key(x));
    }
}

/// The index of the sibling of the node above a leaf.
pub open spec fn sibling_index(height: nat, leaf: int, level: nat) -> u64 {
    let pos = leaf / pow2(level) as int;
    (pow2((height - level) as nat) - 1 + (if pos % 2 == 1 {
        pos - 1
    } else {
        pos + 1
    })) as u64
}

/// The entries of a sparse path are, in the order of their levels, the siblings in the map
/// that are not the empty value of their level.
pub(crate) proof fn lemma_sparse_entries<F: PrimeField>(
    tree: Map<u64, F>,
    empties: Seq<F>,
    height: nat,
    leaf: int,
    levels: nat,
)
    requires
        height < 64,
        0 <= leaf < pow2(height),
        levels <= height,
    ensures
        ({
            let entries = smt::sparse_entries(tree, empties, height, leaf, levels);
            &&& forall|i: int, j: int|
                0 <= i < j < entries.len() ==> entries[i].level < entries[j].level
            &&& forall|i: int|
                0 <= i < entries.len() ==> {
                    let entry = #[trigger] entries[i];
                    let x = sibling_index(height, leaf, entry.level as nat);
                    &&& entry.level < levels
                    &&& entry.direction_bit == ((leaf / pow2(entry.level as nat) as int) % 2 == 1)
                    &&& tree.contains_key(x)
                    &&& entry.sibling == tree[x]
                    &&& entry.sibling != empties[entry.level as int]
                }
            &&& forall|level: int|
                0 <= level < levels && tree.contains_key(
                    #[trigger] sibling_index(height, leaf, level as nat),
                ) && tree[sibling_index(height, leaf, level as nat)] != empties[level]
                    ==> exists|i: int| 0 <= i < entries.len() && entries[i].level == level
        }),
    decreases levels,
{
    if levels > 0 {
        let last = (levels - 1) as nat;
        let below = smt::sparse_entries(tree, empties, height, leaf, last);
        let entries = smt::sparse_entries(tree, empties, height, leaf, levels);
        let x = sibling_index(height, leaf, last);
        lemma_sparse_entries(tree, empties, height, leaf, last);
        index::lemma_above_step(leaf, last);
        let sibling = smt::sibling_of(tree, empties, height, leaf, last);
        assert(sibling == if tree.contains_key(x) {
            tree[x]
        } else {
            empties[last as int]
        });
        assert forall|level: int|
            0 <= level < levels && tree.contains_key(
                #[trigger] sibling_index(height, leaf, level as nat),
            ) && tree[sibling_index(height, leaf, level as nat)] != empties[level]
                implies exists|i: int| 0 <= i < entries.len() && entries[i].level == level by {
            if level < last {
                let i = choose|i: int| 0 <= i < below.len() && below[i].level == level;
                assert(entries[i] == below[i]);
            } else {
                assert(entries[below.len() as int].level == level);
            }
        }
    }
}

/// What a batch leaves behind where a node cannot be hashed: all levels below are done, on the
/// level of the node those with a smaller index are, and the error is that of the node.
pub proof fn law_batch_stops<F: PrimeField, H: FieldHasher<F, 2>>(
    hasher: &H,
    tree: Map<u64, F>,
    empties: Seq<F>,
    height: nat,
    leaves: Map<u32, F>,
    level: nat,
    x: u64,
    error: Error,
    after: Map<u64, F>,
    y: u64,
)
    requires
        batch::batch_stops_at::<F, H>(
            hasher,
            tree,
            empties,
            height,
            leaves,
            level,
            x,
            error,
            after,
        ),
    ensures
        level < height,
        is_above(height, leaves, level, x),
        is_above(height, leaves, level, 0) ==> x == 0,
        batch::batch_hashable::<F, H>(hasher, tree, empties, height, leaves, level),
        ({
            let below = batch::rehashed::<F, H>(hasher, tree, empties, height, leaves, level);
            let empty = empties[level as int];
            let failed = hasher.spec_hash(
                seq![
                    batch::node_value(below, empty, 2 * x + 1),
                    batch::node_value(below, empty, 2 * x + 2),
                ],
            );
            let hashed = hasher.spec_hash(
                seq![
                    batch::node_value(below, empty, 2 * y + 1),
                    batch::node_value(below, empty, 2 * y + 2),
                ],
            );
            &&& failed is Err
            &&& error == Error::Hash(failed->Err_0)
            &&& y < x && is_above(height, leaves, level, y) ==> hashed is Ok && after.get(y)
                == Some(hashed->Ok_0)
            &&& !(y < x && is_above(height, leaves, level, y)) ==> after.get(y) == below.get(y)
        }),
{
    let below = batch::rehashed::<F, H>(hasher, tree, empties, height, leaves, level);
    let nodes = batch::dirty(height, leaves, level);
    assert(nodes.contains(x) <==> is_above(height, leaves, level, x));
    assert(nodes.contains(y) <==> is_above(height, leaves, level, y));
    assert(nodes.contains(0) <==> is_above(height, leaves, level, 0));
    if y < x && is_above(height, leaves, level, y) {
        assert(batch::live(nodes).contains(y));
        assert(batch::refresh::<F, H>(hasher, below, empties[level as int], y) is Ok);
    }
}

/// The value under an index is what the map has there, or the empty value where it has
/// nothing.
pub proof fn law_node_value<F>(tree: Map<u64, F>, empty: F, x: u64)
    ensures
        tree.get(x) matches Some(value) ==> batch::node_value(tree, empty, x as int) == value,
        tree.get(x) is None ==> batch::node_value(tree, empty, x as int) == empty,
{
}

/// The pair on a level of the way from a leaf are the two nodes below the one that the leaf
/// reaches one level up, and the sibling is the one of them that the way does not pass.
pub proof fn law_way<F: PrimeField, H: FieldHasher<F, 2>>(
    hasher: &H,
    leaves: Map<int, F>,
    empty_leaf: F,
    leaf: int,
    level: nat,
)
    requires
        leaf >= 0,
    ensures
        ({
            let up = leaf / (pow2(level + 1) as int);
            let pair = membership::pair_of::<F, H>(hasher, leaves, empty_leaf, leaf, level);
            let passed = leaf / (pow2(level) as int);
            let sibling = membership::sibling_of::<F, H>(hasher, leaves, empty_leaf, leaf, level);
            &&& pair.0 == model::subtree::<F, H>(hasher, leaves, empty_leaf, level, 2 * up)
            &&& pair.1 == model::subtree::<F, H>(hasher, leaves, empty_leaf, level, 2 * up + 1)
            &&& passed == 2 * up ==> sibling == pair.1
            &&& passed == 2 * up + 1 ==> sibling == pair.0
            &&& passed == 2 * up || passed == 2 * up + 1
        }),
{
    index::lemma_above_step(leaf, level);
}

/// The proof of a tree for any leaf starts with what is at the leaf, on the left side for an
/// even index and on the right side for an odd one, and beside it what is next to it.
pub proof fn law_first_pair<F: PrimeField, H: FieldHasher<F, 2>, const N: usize>(
    tree: &SparseMerkleTree<F, H, N>,
    path: &Path<F, H, N>,
    hasher: &H,
    empty_leaf: F,
    leaves: Map<int, F>,
    index: u64,
)
    requires
        0 < N < 64,
        index < pow2(N as nat),
        tree.holds(hasher, empty_leaf, leaves),
        tree.is_path(index, path),
    ensures
        ({
            let first = 2 * (index as int / 2);
            &&& path.path@[0].0 == (if leaves.contains_key(first) {
                leaves[first]
            } else {
                empty_leaf
            })
            &&& path.path@[0].1 == (if leaves.contains_key(first + 1) {
                leaves[first + 1]
            } else {
                empty_leaf
            })
        }),
        forall|level: int|
            0 <= level < N ==> #[trigger] path.path@[level] == membership::pair_of::<F, H>(
                hasher,
                leaves,
                empty_leaf,
                index as int,
                level as nat,
            ),
{
    laws::lemma_path_pairs(tree, path, hasher, empty_leaf, leaves, index);
    index::lemma_above_base(index as int);
    index::lemma_above_step(index as int, 0);
    assert(path.path@[0] == membership::pair_of::<F, H>(
        hasher,
        leaves,
        empty_leaf,
        index as int,
        0,
    ));
}

/// The error of making a tree: that of the lowest empty value that cannot be hashed with
/// itself, and where all can, that of the node at which the batch of the leaves stops.
pub proof fn law_new_error<F: PrimeField, H: FieldHasher<F, 2>>(
    hasher: &H,
    empty_leaf: F,
    height: nat,
    leaves: Map<u32, F>,
    error: Error,
    level: nat,
)
    requires
        smt::new_fails::<F, H>(hasher, empty_leaf, height, leaves, error),
    ensures
        ({
            let value = model::empty::<F, H>(hasher, empty_leaf, level);
            let hash = hasher.spec_hash(seq![value, value]);
            &&& level < height && hash is Err && (forall|l: nat|
                l < level ==> (#[trigger] smt::empty_hash::<F, H>(hasher, empty_leaf, l)) is Ok)
                ==> error == Error::Hash(hash->Err_0)
            &&& (forall|l: nat|
                l < height ==> (#[trigger] smt::empty_hash::<F, H>(hasher, empty_leaf, l)) is Ok)
                ==> exists|at: nat, x: u64, after: Map<u64, F>| #[trigger]
                batch::batch_stops_at::<F, H>(
                    hasher,
                    Map::empty(),
                    nodes::empties::<F, H>(hasher, empty_leaf, height),
                    height,
                    leaves,
                    at,
                    x,
                    error,
                    after,
                )
        }),
{
    let hash = smt::empty_hash::<F, H>(hasher, empty_leaf, level);
    if level < height && hash is Err && (forall|l: nat|
        l < level ==> (#[trigger] smt::empty_hash::<F, H>(hasher, empty_leaf, l)) is Ok) {
        let first = choose|first: nat|
            first < height && smt::empties_hashable::<F, H>(hasher, empty_leaf, first)
                && #[trigger] smt::empty_hash::<F, H>(hasher, empty_leaf, first) is Err && error
                == Error::Hash(smt::empty_hash::<F, H>(hasher, empty_leaf, first)->Err_0);
        if first < level {
            assert(smt::empty_hash::<F, H>(hasher, empty_leaf, first) is Ok);
        }
        if level < first {
            assert(smt::empty_hash::<F, H>(hasher, empty_leaf, level) is Ok);
        }
    }
}

/// A tree made from a map with 32-bit keys has exactly the values of the map on its leaf
/// level, each under its key.
pub proof fn law_keys_of_map<F: PrimeField, H: FieldHasher<F, 2>, const N: usize>(
    tree: &SparseMerkleTree<F, H, N>,
    hasher: &H,
    empty_leaf: F,
    leaves: Map<u32, F>,
    key: u32,
)
    requires
        N < 64,
        key < pow2(N as nat),
        tree.holds(hasher, empty_leaf, model::widen_u32(leaves)),
    ensures
        tree.nodes().get((pow2(N as nat) - 1 + key) as u64) == leaves.get(key),
{
    law_leaves_of_u32(leaves);
    law_tree_leaves(tree, hasher, empty_leaf, model::widen_u32(leaves), key as int);
}

/// A tree made from a list of at most `2^32` leaves has exactly the leaves of the list on its
/// leaf level, each under its place in the list.
pub proof fn law_places_of_list<F: PrimeField, H: FieldHasher<F, 2>, const N: usize>(
    tree: &SparseMerkleTree<F, H, N>,
    hasher: &H,
    empty_leaf: F,
    leaves: Seq<F>,
    k: int,
)
    requires
        N < 64,
        leaves.len() <= 0x1_0000_0000,
        0 <= k < pow2(N as nat),
        tree.holds(
            hasher,
            empty_leaf,
            model::widen_u32(smt::sequential(leaves, leaves.len() as int)),
        ),
    ensures
        k < leaves.len() ==> tree.nodes().get((pow2(N as nat) - 1 + k) as u64) == Some(leaves[k]),
        k >= leaves.len() ==> tree.nodes().get((pow2(N as nat) - 1 + k) as u64) is None,
        tree.holds(
            hasher,
            empty_leaf,
            Map::new(|k: int| 0 <= k < leaves.len(), |k: int| leaves[k]),
        ),
{
    let all = model::widen_u32(smt::sequential(leaves, leaves.len() as int));
    law_sequential(leaves, leaves.len() as int);
    law_tree_leaves(tree, hasher, empty_leaf, all, k);
}

} // verus!
