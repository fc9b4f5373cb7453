//! Sparse Merkle trees that keep every node above a leaf in a map.
//!
//! A tree of height `N` has `2^N` leaves, of which few are set. A node is kept in the map
//! under its index exactly when a leaf that was set lies below it; every other node has
//! the value of a subtree without leaves, which depends on its level alone.
use std::collections::{BTreeMap, BTreeSet};
use std::marker::PhantomData;
use vstd::arithmetic::power2::*;
use vstd::prelude::*;

use crate::batch;
use crate::collections;
use crate::field;
use crate::field::PrimeField;
use crate::index;
use crate::model;
use crate::nodes;
use crate::poseidon;
use crate::poseidon::{hash_pair, FieldHasher, HashError};
use crate::tree_laws;

pub use crate::path::{Error, MerkleError, Path, SparsePath, SparsePathEntry};

verus! {

broadcast use vstd::std_specs::btree::group_btree_axioms;

/// The empty values of the levels below `levels` can be hashed with themselves.
pub open spec fn empties_hashable<F: PrimeField, H: FieldHasher<F, 2>>(
    hasher: &H,
    empty_leaf: F,
    levels: nat,
) -> bool {
    forall|level: nat|
        level < levels ==> (#[trigger] empty_hash::<F, H>(hasher, empty_leaf, level)) is Ok
}

/// What hashing the empty value of a level with itself gives.
pub open spec fn empty_hash<F: PrimeField, H: FieldHasher<F, 2>>(
    hasher: &H,
    empty_leaf: F,
    level: nat,
) -> Result<F, HashError> {
    poseidon::pair_hash::<F, H>(
        hasher,
        model::empty::<F, H>(hasher, empty_leaf, level),
        model::empty::<F, H>(hasher, empty_leaf, level),
    )
}

/// The error is that of the first of the levels below `levels` whose empty value cannot be
/// hashed with itself.
pub open spec fn empties_fail<F: PrimeField, H: FieldHasher<F, 2>>(
    hasher: &H,
    empty_leaf: F,
    levels: nat,
    error: Error,
) -> bool {
    exists|level: nat|
        level < levels && empties_hashable::<F, H>(hasher, empty_leaf, level)
            && #[trigger] empty_hash::<F, H>(hasher, empty_leaf, level) is Err && error
            == Error::Hash(empty_hash::<F, H>(hasher, empty_leaf, level)->Err_0)
}

/// Each value but the first is the hash of the one before with itself, and hashing the last
/// one with itself gives the error.
pub open spec fn stops_after<F: PrimeField, H: FieldHasher<F, 2>>(
    hasher: &H,
    values: Seq<F>,
    error: Error,
) -> bool {
    &&& values.len() > 0
    &&& forall|level: int|
        0 <= level < values.len() - 1 ==> hasher.spec_hash(
            #[trigger] seq![values[level], values[level]],
        ) == Ok::<F, HashError>(values[level + 1])
    &&& hasher.spec_hash(seq![values[values.len() - 1], values[values.len() - 1]]) matches Err(e)
        && error == Error::Hash(e)
}

/// The empty leaf that 64 bytes stand for.
pub open spec fn empty_leaf_of<F: PrimeField>(bytes: Seq<u8>) -> F {
    F::of_int(field::le_value(bytes) as int)
}

/// The empty values of the first `N` levels: the empty leaf, and each next value the hash
/// of the one before with itself.
pub fn gen_empty_hashes<F: PrimeField, H: FieldHasher<F, 2>, const N: usize>(
    hasher: &H,
    default_leaf: &[u8; 64],
) -> (r: Result<[F; N], Error>)
    ensures
        r is Ok <==> empties_hashable::<F, H>(hasher, empty_leaf_of::<F>(default_leaf@), N as nat),
        r matches Ok(hashes) ==> forall|level: int|
            0 <= level < N ==> #[trigger] hashes@[level] == model::empty::<F, H>(
                hasher,
                empty_leaf_of::<F>(default_leaf@),
                level as nat,
            ),
        r matches Err(e) ==> empties_fail::<F, H>(
            hasher,
            empty_leaf_of::<F>(default_leaf@),
            N as nat,
            e,
        ),
        r matches Ok(hashes) ==> (N > 0 ==> hashes@[0].value() == (field::le_value(
            default_leaf@,
        ) as int) % F::modulus()),
        r matches Ok(hashes) ==> (N > 0 ==> hashes@[0] == F::of_int(
            field::le_value(default_leaf@) as int,
        )),
        r matches Ok(hashes) ==> forall|level: int|
            0 <= level < N ==> hasher.spec_hash(
                #[trigger] seq![hashes@[level], hashes@[level]],
            ) is Ok,
        r matches Ok(hashes) ==> forall|level: int|
            0 <= level < N - 1 ==> hasher.spec_hash(
                #[trigger] seq![hashes@[level], hashes@[level]],
            ) == Ok::<F, HashError>(hashes@[level + 1]),
        (forall|a: F, b: F| hasher.spec_hash(#[trigger] seq![a, b]) is Ok) ==> r is Ok,
        r matches Err(e) ==> exists|values: Seq<F>| #[trigger]
            stops_after::<F, H>(hasher, values, e) && values.len() <= N && values[0] == F::of_int(
                field::le_value(default_leaf@) as int,
            ),
{
    let mut empty_hashes: [F; N] = [F::zero(); N];
    let mut empty_hash: F = F::from_uniform_bytes(default_leaf);
    let ghost leaf = empty_hash;
    for level in 0..N
        invariant
            leaf == empty_leaf_of::<F>(default_leaf@),
            empty_hash == model::empty::<F, H>(hasher, leaf, level as nat),
            empties_hashable::<F, H>(hasher, leaf, level as nat),
            forall|l: int|
                0 <= l < level ==> #[trigger] empty_hashes@[l] == model::empty::<F, H>(
                    hasher,
                    leaf,
                    l as nat,
                ),
    {
        empty_hashes[level] = empty_hash;
        match hash_pair(hasher, empty_hash, empty_hash) {
            Ok(next) => {
                assert(self::empty_hash::<F, H>(hasher, leaf, level as nat) is Ok);
                empty_hash = next;
            },
            Err(e) => {
                assert(self::empty_hash::<F, H>(hasher, leaf, level as nat) == Err::<F, HashError>(e));
                proof {
                    let values = nodes::empties::<F, H>(hasher, leaf, (level + 1) as nat);
                    assert forall|l: int| 0 <= l < level implies hasher.spec_hash(
                        #[trigger] seq![values[l], values[l]],
                    ) == Ok::<F, HashError>(values[l + 1]) by {
                        assert(self::empty_hash::<F, H>(hasher, leaf, l as nat) is Ok);
                    }
                    assert(stops_after::<F, H>(hasher, values, Error::Hash(e)));
                    assert(hasher.spec_hash(seq![empty_hash, empty_hash]) is Err);
                }
                return Err(Error::Hash(e));
            },
        }
    }
    proof {
        F::lemma_of_int(field::le_value(default_leaf@) as int);
        assert forall|level: int| 0 <= level < N implies hasher.spec_hash(
            #[trigger] seq![empty_hashes@[level], empty_hashes@[level]],
        ) is Ok && (level < N - 1 ==> hasher.spec_hash(
            seq![empty_hashes@[level], empty_hashes@[level]],
        ) == Ok::<F, HashError>(empty_hashes@[level + 1])) by {
            assert(self::empty_hash::<F, H>(hasher, leaf, level as nat) is Ok);
        }
    }
    Ok(empty_hashes)
}

/// A tree of the given height is made for so many leaves: for up to one at any height, for
/// more if the leaf level would be at least twice as large.
pub open spec fn fits(leaf_count: int, height: int) -> bool {
    leaf_count <= 1 || (height >= 1 && leaf_count <= pow2((height - 1) as nat))
}

/// The batch that numbers the first `n` leaves of a list in order, in 32 bits.
pub open spec fn sequential<F>(leaves: Seq<F>, n: int) -> Map<u32, F>
    decreases n,
{
    if n <= 0 {
        Map::empty()
    } else {
        sequential(leaves, n - 1).insert(
            ((n - 1) % 0x1_0000_0000) as u32,
            leaves[n - 1],
        )
    }
}

/// The low 32 bits of a number.
fn truncated(i: usize) -> (r: u32)
    ensures
        r == (i as int) % 0x1_0000_0000,
{
    let low: u64 = (i as u64) % 0x1_0000_0000;
    low as u32
}

/// `power` is the smallest power of two that is not below `n`.
pub open spec fn is_next_power(n: int, power: int) -> bool {
    exists|e: nat|
        power == #[trigger] pow2(e) && n <= pow2(e) && (e > 0 ==> pow2((e - 1) as nat) < n)
}

/// `usize::next_power_of_two`: the smallest power of two that is not below the number. It
/// fails where that power is too large for the type.
pub assume_specification[ usize::next_power_of_two ](x: usize) -> (r: usize)
    requires
        x <= usize::MAX / 2 + 1,
    ensures
        is_next_power(x as int, r as int),
;

/// The least height of a tree that is made for so many leaves.
pub fn min_height(leaf_count: usize) -> (r: u32)
    requires
        leaf_count <= usize::MAX / 4 + 1,
    ensures
        forall|height: int|
            height >= 0 ==> (#[trigger] fits(leaf_count as int, height) <==> r <= height),
        leaf_count <= 1 ==> r == 0,
        leaf_count > 1 ==> r >= 2 && pow2((r - 2) as nat) < leaf_count <= pow2((r - 1) as nat),
{
    let last_level_size = leaf_count.next_power_of_two();
    let ghost e = choose|e: nat|
        last_level_size == #[trigger] pow2(e) && leaf_count <= pow2(e) && (e > 0 ==> pow2(
            (e - 1) as nat,
        ) < leaf_count);
    proof {
        lemma2_to64();
        lemma2_to64_rest();
        lemma_pow2_pos(e);
        lemma_pow2_unfold(e + 1);
        if e > 0 {
            lemma_pow2_unfold(e);
            if usize::MAX == 0xffff_ffff {
                if e - 1 >= 30 {
                    index::lemma_pow2_monotone(30, (e - 1) as nat);
                }
                index::lemma_pow2_monotone(e, 30);
            } else {
                if e - 1 >= 62 {
                    index::lemma_pow2_monotone(62, (e - 1) as nat);
                }
                index::lemma_pow2_monotone(e, 62);
            }
        }
    }
    let tree_size = 2 * last_level_size - 1;
    let height = index::tree_height(tree_size as u64);
    proof {
        if e > 0 {
            lemma_pow2_pos((e - 1) as nat);
            if height < e + 1 {
                index::lemma_pow2_monotone(height as nat, e);
            }
            if height > e + 1 {
                index::lemma_pow2_monotone(e + 1, (height - 1) as nat);
            }
            assert(height == e + 1);
        }
        assert forall|h: int| h >= 0 implies (#[trigger] fits(leaf_count as int, h) <==> height
            <= h) by {
            if e > 0 && h >= 1 {
                if h - 1 >= e {
                    index::lemma_pow2_monotone(e, (h - 1) as nat);
                } else {
                    index::lemma_pow2_monotone((h - 1) as nat, (e - 1) as nat);
                }
            }
        }
    }
    height
}

/// The pair on `level` of the way from the leaf at `leaf` to the root, the left node first.
pub open spec fn pair_at<F>(
    tree: Map<u64, F>,
    empties: Seq<F>,
    height: nat,
    leaf: int,
    level: nat,
) -> (F, F) {
    let parent = index::above(leaf, level + 1);
    (
        batch::node_value(tree, empties[level as int], index::node_at(height, level, 2 * parent)),
        batch::node_value(tree, empties[level as int], index::node_at(height, level, 2 * parent + 1)),
    )
}

/// The sibling on `level` of the way from the leaf at `leaf` to the root.
pub open spec fn sibling_of<F>(
    tree: Map<u64, F>,
    empties: Seq<F>,
    height: nat,
    leaf: int,
    level: nat,
) -> F {
    let pair = pair_at(tree, empties, height, leaf, level);
    if index::above(leaf, level) % 2 == 1 {
        pair.0
    } else {
        pair.1
    }
}

/// The entries of the sparse path on the first `levels` levels: the siblings that are not
/// the empty value of their level.
pub open spec fn sparse_entries<F: PrimeField>(
    tree: Map<u64, F>,
    empties: Seq<F>,
    height: nat,
    leaf: int,
    levels: nat,
) -> Seq<SparsePathEntry<F>>
    decreases levels,
{
    if levels == 0 {
        Seq::empty()
    } else {
        let level = (levels - 1) as nat;
        let below = sparse_entries(tree, empties, height, leaf, level);
        let sibling = sibling_of(tree, empties, height, leaf, level);
        if sibling != empties[level as int] {
            below.push(
                SparsePathEntry {
                    sibling,
                    direction_bit: index::above(leaf, level) % 2 == 1,
                    level: level as usize,
                },
            )
        } else {
            below
        }
    }
}

/// One step on the way up from the leaf at `leaf`.
proof fn lemma_way_up(height: nat, leaf: int, level: nat, node: int)
    requires
        height < 64,
        0 <= leaf < pow2(height),
        level <= height,
        node == index::node_at(height, level, index::above(leaf, level)),
        node != 0,
    ensures
        level < height,
        0 < node < u64::MAX,
        (node % 2 == 1) == (index::above(leaf, level) % 2 == 0),
        node % 2 == 1 ==> node == index::node_at(height, level, 2 * index::above(leaf, level + 1))
            && node + 1 == index::node_at(height, level, 2 * index::above(leaf, level + 1) + 1),
        node % 2 == 0 ==> node - 1 == index::node_at(height, level, 2 * index::above(leaf, level + 1))
            && node == index::node_at(height, level, 2 * index::above(leaf, level + 1) + 1),
        (node - 1) / 2 == index::node_at(height, level + 1, index::above(leaf, level + 1)),
{
    index::lemma_above_range(leaf, height, level);
    index::lemma_above_step(leaf, level);
    index::lemma_one_shl(height as u64);
    if level == height {
        lemma2_to64();
    } else {
        index::lemma_pow2_monotone((height - level) as nat, height);
        index::lemma_parent(height, level, index::above(leaf, level));
        index::lemma_children(height, level, index::above(leaf, level + 1));
    }
}

/// The way up reaches the root on the last level only.
proof fn lemma_way_ends(height: nat, leaf: int, level: nat, node: int)
    requires
        0 <= leaf < pow2(height),
        level <= height,
        node == index::node_at(height, level, index::above(leaf, level)),
        node == 0,
    ensures
        level == height,
{
    if level < height {
        index::lemma_above_range(leaf, height, level);
        index::lemma_parent(height, level, index::above(leaf, level));
    }
}

/// The error of making a tree: that of the first empty value that cannot be hashed, or
/// else that of the first node.
pub open spec fn new_fails<F: PrimeField, H: FieldHasher<F, 2>>(
    hasher: &H,
    empty_leaf: F,
    height: nat,
    leaves: Map<u32, F>,
    error: Error,
) -> bool {
    if !empties_hashable::<F, H>(hasher, empty_leaf, height) {
        empties_fail::<F, H>(hasher, empty_leaf, height, error)
    } else {
        exists|level: nat, x: u64, after: Map<u64, F>| #[trigger]
            batch::batch_stops_at::<F, H>(
                hasher,
                Map::empty(),
                nodes::empties::<F, H>(hasher, empty_leaf, height),
                height,
                leaves,
                level,
                x,
                error,
                after,
            )
    }
}

/// A sparse Merkle tree of height `N`.
pub struct SparseMerkleTree<F: PrimeField, H: FieldHasher<F, 2>, const N: usize> {
    /// The nodes above a leaf that was set, and these leaves, by index.
    pub tree: BTreeMap<u64, F>,
    /// The empty values of the levels below the root.
    empty_hashes: [F; N],
    /// The hash function the tree is built with.
    marker: PhantomData<H>,
}

impl<F: PrimeField, H: FieldHasher<F, 2>, const N: usize> SparseMerkleTree<F, H, N> {
    /// The nodes in the map, by index.
    pub closed spec fn nodes(&self) -> Map<u64, F> {
        self.tree@
    }

    /// The empty values of the levels below the root.
    pub closed spec fn empties(&self) -> Seq<F> {
        self.empty_hashes@
    }

    /// The nodes are what the map keeps, and the empty values what the array keeps.
    proof fn lemma_kept(&self)
        ensures
            self.nodes() == self.tree@,
            self.empties() == self.empty_hashes@,
    {
    }

    /// Hashes the nodes of `indices` again, on the level above `level`, and returns their
    /// parents. The root ends the work.
    fn rehash_level(&mut self, indices: &Vec<u64>, level: usize, hasher: &H) -> (r: Result<
        BTreeSet<u64>,
        Error,
    >)
        requires
            level < N,
            collections::ascending(indices@),
            forall|i: int| 0 <= i < indices@.len() ==> 2 * (#[trigger] indices@[i]) + 2 <= u64::MAX,
        ensures
            final(self).empties() == old(self).empties(),
            ({
                let nodes = indices@.to_set();
                let empty = old(self).empties()[level as int];
                match r {
                    Ok(parents) => {
                        &&& batch::refreshable::<F, H>(
                            hasher,
                            old(self).nodes(),
                            empty,
                            nodes,
                            batch::index_bound(),
                        )
                        &&& final(self).nodes() == batch::refreshed::<F, H>(
                            hasher,
                            old(self).nodes(),
                            empty,
                            nodes,
                            batch::index_bound(),
                        )
                        &&& !nodes.contains(0) ==> forall|y: u64|
                            parents@.contains(y) <==> exists|x: u64| #[trigger]
                                nodes.contains(x) && y == (x - 1) / 2
                    },
                    Err(e) => exists|x: u64| #[trigger]
                        batch::level_stops_at::<F, H>(
                            hasher,
                            old(self).nodes(),
                            empty,
                            nodes,
                            x,
                            e,
                            final(self).nodes(),
                        ),
                }
            }),
    {
        let ghost before = self.tree@;
        let ghost nodes = indices@.to_set();
        let empty_hash = self.empty_hashes[level];
        let mut parents: BTreeSet<u64> = BTreeSet::new();
        let mut j: usize = 0;
        proof {
            assert(self.tree@ =~= batch::refreshed::<F, H>(hasher, before, empty_hash, nodes, 0));
        }
        while j < indices.len()
            invariant
                level < N,
                collections::ascending(indices@),
                forall|i: int|
                    0 <= i < indices@.len() ==> 2 * (#[trigger] indices@[i]) + 2 <= u64::MAX,
                nodes == indices@.to_set(),
                0 <= j <= indices@.len(),
                forall|i: int| 0 <= i < j ==> indices@[i] != 0,
                self.empties() == old(self).empties(),
                empty_hash == self.empties()[level as int],
                before == old(self).nodes(),
                batch::refreshable::<F, H>(
                    hasher,
                    before,
                    empty_hash,
                    nodes,
                    batch::bound_from(indices@, j as int),
                ),
                self.tree@ == batch::refreshed::<F, H>(
                    hasher,
                    before,
                    empty_hash,
                    nodes,
                    batch::bound_from(indices@, j as int),
                ),
                forall|y: u64|
                    parents@.contains(y) <==> exists|i: int|
                        0 <= i < j && y == (#[trigger] indices@[i] - 1) / 2,
            decreases indices@.len() - j,
        {
            let i = indices[j];
            let left_index = index::left_child(i);
            let right_index = index::right_child(i);
            let left = match self.tree.get(&left_index) {
                Some(value) => *value,
                None => empty_hash,
            };
            let right = match self.tree.get(&right_index) {
                Some(value) => *value,
                None => empty_hash,
            };
            proof {
                assert(nodes.contains(i)) by {
                    assert(indices@[j as int] == i);
                }
                if nodes.contains(0) {
                    let z = choose|z: int| 0 <= z < indices@.len() && indices@[z] == 0;
                    assert(z >= j);
                    assert(i == 0);
                }
                assert(batch::live(nodes).contains(i));
                assert(left == batch::node_value(before, empty_hash, 2 * i + 1));
                assert(right == batch::node_value(before, empty_hash, 2 * i + 2));
            }
            match hash_pair(hasher, left, right) {
                Ok(value) => {
                    self.tree.insert(i, value);
                },
                Err(e) => {
                    let error = Error::Hash(e);
                    assert(batch::refresh::<F, H>(hasher, before, empty_hash, i) == Err::<F, HashError>(e));
                    assert(batch::level_stops_at::<F, H>(
                        hasher,
                        before,
                        empty_hash,
                        nodes,
                        i,
                        error,
                        self.nodes(),
                    ));
                    return Err(error);
                },
            }
            let ghost next = batch::bound_from(indices@, j + 1);
            proof {
                assert(batch::refresh::<F, H>(hasher, before, empty_hash, i) is Ok);
                assert forall|x: u64| batch::live(nodes).contains(x) && x < next implies x < i || x
                    == i by {
                    let k = choose|k: int| 0 <= k < indices@.len() && indices@[k] == x;
                    if x > i {
                        assert(k > j);
                    }
                }
                assert(batch::refreshable::<F, H>(hasher, before, empty_hash, nodes, next));
                assert(i < next);
                assert(self.tree@ =~= batch::refreshed::<F, H>(hasher, before, empty_hash, nodes, next));
            }
            match index::parent(i) {
                Some(parent) => {
                    parents.insert(parent);
                },
                None => {
                    proof {
                        assert(nodes.contains(0));
                        assert(batch::refreshable::<F, H>(
                            hasher,
                            before,
                            empty_hash,
                            nodes,
                            batch::index_bound(),
                        ));
                        assert(self.tree@ =~= batch::refreshed::<F, H>(
                            hasher,
                            before,
                            empty_hash,
                            nodes,
                            batch::index_bound(),
                        ));
                    }
                    return Ok(parents);
                },
            }
            j = j + 1;
            proof {
                assert forall|y: u64| parents@.contains(y) <==> exists|k: int|
                    0 <= k < j && y == (#[trigger] indices@[k] - 1) / 2 by {
                    if parents@.contains(y) && y == (i - 1) / 2 {
                        assert(indices@[j - 1] == i);
                    }
                }
            }
        }
        proof {
            assert forall|y: u64| parents@.contains(y) <==> exists|x: u64| #[trigger]
                nodes.contains(x) && y == (x - 1) / 2 by {
                if parents@.contains(y) {
                    let k = choose|k: int|
                        0 <= k < j && y == (#[trigger] indices@[k] - 1) / 2;
                    assert(nodes.contains(indices@[k]));
                }
                if exists|x: u64| #[trigger] nodes.contains(x) && y == (x - 1) / 2 {
                    let x = choose|x: u64| #[trigger] nodes.contains(x) && y == (x - 1) / 2;
                    let k = choose|k: int| 0 <= k < indices@.len() && indices@[k] == x;
                    assert(y == (indices@[k] - 1) / 2);
                }
            }
        }
        Ok(parents)
    }

    /// Writes a batch of leaves and hashes the nodes above them again, level by level and in
    /// the order of their indices. If a node cannot be hashed, what was done before stays.
    #[verifier::rlimit(40)]
    pub fn insert_batch(&mut self, leaves: &BTreeMap<u32, F>, hasher: &H) -> (r: Result<(), Error>)
        requires
            N < 64,
            N == 0 ==> !leaves@.contains_key(0),
        ensures
            final(self).empties() == old(self).empties(),
            r is Ok <==> batch::batch_hashable::<F, H>(
                hasher,
                old(self).nodes(),
                old(self).empties(),
                N as nat,
                leaves@,
                N as nat,
            ),
            r is Ok ==> final(self).nodes() == batch::rehashed::<F, H>(
                hasher,
                old(self).nodes(),
                old(self).empties(),
                N as nat,
                leaves@,
                N as nat,
            ),
            r matches Err(e) ==> exists|level: nat, x: u64| #[trigger]
                batch::batch_stops_at::<F, H>(
                    hasher,
                    old(self).nodes(),
                    old(self).empties(),
                    N as nat,
                    leaves@,
                    level,
                    x,
                    e,
                    final(self).nodes(),
                ),
            (forall|a: F, b: F| hasher.spec_hash(#[trigger] seq![a, b]) is Ok) ==> r is Ok,
            r matches Err(e) ==> exists|a: F, b: F|
                hasher.spec_hash(#[trigger] seq![a, b]) is Err && e == Error::Hash(
                    hasher.spec_hash(seq![a, b])->Err_0,
                ),
            r is Ok && (forall|i: u32| #[trigger]
                leaves@.contains_key(i) ==> i < pow2(N as nat)) ==> tree_laws::is_written::<F, H>(
                hasher,
                old(self).nodes(),
                final(self).nodes(),
                old(self).empties(),
                N as nat,
                leaves@,
                N as nat,
            ),
            r is Ok && (forall|i: u32| #[trigger]
                leaves@.contains_key(i) ==> i < pow2(N as nat)) ==> (forall|i: u32| #[trigger]
                leaves@.contains_key(i) ==> final(self).nodes().get(
                    (pow2(N as nat) - 1 + i) as u64,
                ) == Some(leaves@[i])),
            r is Ok && (forall|i: u32| #[trigger]
                leaves@.contains_key(i) ==> i < pow2(N as nat)) ==> (forall|x: u64|
                x >= pow2(N as nat) - 1 && !(0 <= x - (pow2(N as nat) - 1) <= u32::MAX
                    && leaves@.contains_key((x - (pow2(N as nat) - 1)) as u32))
                    ==> #[trigger] final(self).nodes().get(x) == old(self).nodes().get(x)),
    {
        let ghost before = self.tree@;
        let ghost empties = self.empties();
        let ghost height = N as nat;
        proof {
            index::lemma_one_shl(N as u64);
            lemma_pow2_pos(height);
        }
        let last_level_index: u64 = (1u64 << N) - 1;
        let mut level_idxs: BTreeSet<u64> = BTreeSet::new();
        let entries: Vec<(u32, F)> = collections::entries_u32(leaves);
        assert(self.tree@ =~= batch::placed_first(before, height, entries@, 0));
        for n in 0..entries.len()
            invariant
                N < 64,
                height == N as nat,
                pow2(height) <= 0x8000_0000_0000_0000,
                last_level_index == pow2(height) - 1,
                N == 0 ==> !leaves@.contains_key(0),
                collections::lists_u32(entries@, leaves@),
                self.empties() == empties,
                self.tree@ == batch::placed_first(before, height, entries@, n as int),
                forall|x: u64|
                    level_idxs@.contains(x) <==> exists|k: int|
                        0 <= k < n && x + 1 == index::above(
                            pow2(height) + (#[trigger] entries@[k]).0,
                            1,
                        ),
        {
            let (i, leaf) = entries[n];
            let true_index = last_level_index + (i as u64);
            self.tree.insert(true_index, leaf);
            proof {
                assert(leaves@.contains_key(entries@[n as int].0));
                lemma2_to64();
                if N > 0 {
                    lemma_pow2_unfold(height);
                    lemma_pow2_pos((height - 1) as nat);
                }
                assert(true_index > 0);
                assert(self.tree@ =~= batch::placed_first(before, height, entries@, n + 1));
            }
            let parent: u64 = index::parent(true_index).unwrap();
            level_idxs.insert(parent);
            proof {
                assert(parent + 1 == index::above(pow2(height) + entries@[n as int].0, 1));
                assert forall|x: u64| level_idxs@.contains(x) <==> exists|k: int|
                    0 <= k < n + 1 && x + 1 == index::above(
                        pow2(height) + (#[trigger] entries@[k]).0,
                        1,
                    ) by {
                    if level_idxs@.contains(x) && x == parent {
                        assert(entries@[n as int].0 == i);
                    }
                }
            }
        }
        proof {
            assert(self.tree@ =~= batch::placed(before, height, leaves@)) by {
                batch::lemma_placed_all(before, height, entries@, leaves@);
            }
            assert(level_idxs@ =~= batch::dirty(height, leaves@, 0)) by {
                assert forall|x: u64| level_idxs@.contains(x) implies batch::dirty(
                    height,
                    leaves@,
                    0,
                ).contains(x) by {
                    let k = choose|k: int|
                        0 <= k < entries@.len() && x + 1 == index::above(
                            pow2(height) + (#[trigger] entries@[k]).0,
                            1,
                        );
                    assert(leaves@.contains_key(entries@[k].0));
                }
                assert forall|x: u64| batch::dirty(height, leaves@, 0).contains(
                    x,
                ) implies level_idxs@.contains(x) by {
                    let i = choose|i: u32| #[trigger]
                        leaves@.contains_key(i) && x + 1 == index::above(pow2(height) + i, 1);
                    let k = choose|k: int| 0 <= k < entries@.len() && entries@[k].0 == i;
                    assert(x + 1 == index::above(pow2(height) + entries@[k].0, 1));
                }
            }
        }
        for level in 0..N
            invariant
                N < 64,
                height == N as nat,
                pow2(height) <= 0x8000_0000_0000_0000,
                before == old(self).nodes(),
                empties == old(self).empties(),
                self.empties() == empties,
                level < N ==> level_idxs@ == batch::dirty(height, leaves@, level as nat),
                self.tree@ == batch::rehashed::<F, H>(
                    hasher,
                    before,
                    empties,
                    height,
                    leaves@,
                    level as nat,
                ),
                batch::batch_hashable::<F, H>(hasher, before, empties, height, leaves@, level as nat),
        {
            let indices = collections::members(&level_idxs);
            let ghost nodes = batch::dirty(height, leaves@, level as nat);
            let ghost below = self.tree@;
            proof {
                assert(indices@.to_set() =~= nodes);
                assert forall|k: int| 0 <= k < indices@.len() implies 2 * (
                #[trigger] indices@[k]) + 2 <= u64::MAX by {
                    assert(indices@.contains(indices@[k]));
                    batch::lemma_dirty_bound(height, leaves@, level as nat, indices@[k]);
                }
            }
            match self.rehash_level(&indices, level, hasher) {
                Ok(parents) => {
                    level_idxs = parents;
                    proof {
                        batch::lemma_batch_level::<F, H>(
                            hasher,
                            before,
                            empties,
                            height,
                            leaves@,
                            level as nat,
                        );
                        if level + 1 < N {
                            batch::lemma_dirty_next(height, leaves@, level as nat);
                            assert(level_idxs@ =~= batch::dirty(height, leaves@, (level + 1) as nat));
                        }
                    }
                },
                Err(e) => {
                    proof {
                        let x = choose|x: u64| #[trigger]
                            batch::level_stops_at::<F, H>(
                                hasher,
                                below,
                                empties[level as int],
                                nodes,
                                x,
                                e,
                                self.nodes(),
                            );
                        batch::lemma_batch_stops::<F, H>(
                            hasher,
                            before,
                            empties,
                            height,
                            leaves@,
                            level as nat,
                            x,
                            e,
                            self.nodes(),
                        );
                        assert(batch::batch_stops_at::<F, H>(
                            hasher,
                            old(self).nodes(),
                            old(self).empties(),
                            height,
                            leaves@,
                            level as nat,
                            x,
                            e,
                            self.nodes(),
                        ));
                        tree_laws::law_batch_error::<F, H>(
                            hasher,
                            before,
                            empties,
                            height,
                            leaves@,
                            level as nat,
                            x,
                            e,
                            self.nodes(),
                        );
                    }
                    return Err(e);
                },
            }
        }
        proof {
            if forall|i: u32| #[trigger] leaves@.contains_key(i) ==> i < pow2(height) {
                tree_laws::law_batch_nodes::<F, H>(
                    hasher,
                    before,
                    empties,
                    height,
                    leaves@,
                    height,
                );
                tree_laws::lemma_leaf_level::<F, H>(
                    hasher,
                    before,
                    self.tree@,
                    empties,
                    height,
                    leaves@,
                );
            }
        }
        Ok(())
    }

    /// The tree holds the given leaves: the map represents them, and the empty values are
    /// those of `hasher` and `empty_leaf`.
    pub open spec fn holds(&self, hasher: &H, empty_leaf: F, leaves: Map<int, F>) -> bool {
        &&& self.empties() == nodes::empties::<F, H>(hasher, empty_leaf, N as nat)
        &&& nodes::represents::<F, H>(hasher, self.nodes(), N as nat, empty_leaf, leaves)
    }

    /// The root: the node at index 0, or the empty value of the level below it.
    pub open spec fn spec_root(&self) -> F {
        batch::node_value(self.nodes(), self.empties()[N - 1], 0)
    }

    /// The path holds the pairs on the way from the leaf at `index` to the root, and on
    /// which sides of them the way passes.
    pub open spec fn is_path(&self, index: u64, path: &Path<F, H, N>) -> bool {
        &&& forall|level: int|
            0 <= level < N ==> #[trigger] path.path@[level] == pair_at(
                self.nodes(),
                self.empties(),
                N as nat,
                index as int,
                level as nat,
            )
        &&& forall|level: int|
            0 <= level < N ==> #[trigger] path.direction_bits@[level] == (index::above(
                index as int,
                level as nat,
            ) % 2 == 1)
    }

    /// The path holds the siblings on the way from the leaf at `index` to the root that are
    /// not the empty value of their level.
    pub open spec fn is_sparse_path(&self, index: u64, path: &SparsePath<F, H>) -> bool {
        &&& path.entries@ == sparse_entries(
            self.nodes(),
            self.empties(),
            N as nat,
            index as int,
            N as nat,
        )
        &&& path.tree_height == N
        &&& path.empty_hashes@ == self.empties()
    }

    /// A tree with the given leaves. Every other leaf is the empty leaf, which 64 bytes
    /// stand for.
    pub fn new(leaves: &BTreeMap<u32, F>, hasher: &H, empty_leaf: &[u8; 64]) -> (r: Result<
        Self,
        Error,
    >)
        requires
            N < 64,
            N == 0 ==> !leaves@.contains_key(0),
            fits(leaves@.dom().len() as int, N as int),
        ensures
            r is Ok <==> empties_hashable::<F, H>(
                hasher,
                empty_leaf_of::<F>(empty_leaf@),
                N as nat,
            ) && batch::batch_hashable::<F, H>(
                hasher,
                Map::empty(),
                nodes::empties::<F, H>(hasher, empty_leaf_of::<F>(empty_leaf@), N as nat),
                N as nat,
                leaves@,
                N as nat,
            ),
            r matches Ok(tree) ==> {
                &&& tree.empties() == nodes::empties::<F, H>(
                    hasher,
                    empty_leaf_of::<F>(empty_leaf@),
                    N as nat,
                )
                &&& tree.nodes() == batch::rehashed::<F, H>(
                    hasher,
                    Map::empty(),
                    tree.empties(),
                    N as nat,
                    leaves@,
                    N as nat,
                )
            },
            r matches Ok(tree) ==> (model::in_range(model::widen_u32(leaves@), N as nat)
                ==> tree.holds(
                hasher,
                empty_leaf_of::<F>(empty_leaf@),
                model::widen_u32(leaves@),
            )),
            r matches Err(e) ==> new_fails::<F, H>(
                hasher,
                empty_leaf_of::<F>(empty_leaf@),
                N as nat,
                leaves@,
                e,
            ),
            (forall|a: F, b: F| hasher.spec_hash(#[trigger] seq![a, b]) is Ok) ==> r is Ok,
            r matches Err(e) ==> exists|a: F, b: F|
                hasher.spec_hash(#[trigger] seq![a, b]) is Err && e == Error::Hash(
                    hasher.spec_hash(seq![a, b])->Err_0,
                ),
            r matches Ok(tree) ==> (N > 0 ==> tree.empties()[0].value() == (field::le_value(
                empty_leaf@,
            ) as int) % F::modulus()),
            r matches Ok(tree) ==> {
                &&& tree.empties().len() == N
                &&& forall|level: int|
                    0 <= level < N - 1 ==> hasher.spec_hash(
                        #[trigger] seq![tree.empties()[level], tree.empties()[level]],
                    ) == Ok::<F, HashError>(tree.empties()[level + 1])
            },
            r matches Ok(tree) ==> ((forall|i: u32| #[trigger]
                leaves@.contains_key(i) ==> i < pow2(N as nat)) ==> {
                &&& tree.holds(
                    hasher,
                    F::of_int(field::le_value(empty_leaf@) as int),
                    Map::new(
                        |k: int| 0 <= k <= u32::MAX && leaves@.contains_key(k as u32),
                        |k: int| leaves@[k as u32],
                    ),
                )
                &&& forall|i: u32| #[trigger]
                    leaves@.contains_key(i) ==> tree.nodes().get(
                        (pow2(N as nat) - 1 + i) as u64,
                    ) == Some(leaves@[i])
                &&& forall|x: u64|
                    x >= pow2(N as nat) - 1 && !(0 <= x - (pow2(N as nat) - 1) <= u32::MAX
                        && leaves@.contains_key((x - (pow2(N as nat) - 1)) as u32))
                        ==> #[trigger] tree.nodes().get(x) is None
                &&& tree_laws::is_written::<F, H>(
                    hasher,
                    Map::empty(),
                    tree.nodes(),
                    tree.empties(),
                    N as nat,
                    leaves@,
                    N as nat,
                )
            }),
    {
        let tree: BTreeMap<u64, F> = BTreeMap::new();
        let empty_hashes: [F; N] = match gen_empty_hashes(hasher, empty_leaf) {
            Ok(hashes) => hashes,
            Err(e) => {
                proof {
                    let values = choose|values: Seq<F>| #[trigger]
                        stops_after::<F, H>(hasher, values, e);
                    let last = values[values.len() - 1];
                    assert(hasher.spec_hash(seq![last, last]) is Err);
                }
                return Err(e);
            },
        };
        let ghost leaf = empty_leaf_of::<F>(empty_leaf@);
        let mut smt = SparseMerkleTree::<F, H, N> { tree, empty_hashes, marker: PhantomData };
        proof {
            assert(smt.empties() =~= nodes::empties::<F, H>(hasher, leaf, N as nat));
            assert(smt.nodes() =~= Map::<u64, F>::empty());
        }
        match smt.insert_batch(leaves, hasher) {
            Ok(_) => {
                proof {
                    if forall|i: u32| #[trigger] leaves@.contains_key(i) ==> i < pow2(N as nat) {
                        assert(model::in_range(model::widen_u32(leaves@), N as nat));
                    }
                    if model::in_range(model::widen_u32(leaves@), N as nat) {
                        nodes::lemma_empty_represents::<F, H>(hasher, N as nat, leaf);
                        nodes::lemma_batch_represents::<F, H>(
                            hasher,
                            Map::empty(),
                            N as nat,
                            leaf,
                            Map::empty(),
                            leaves@,
                        );
                        assert(nodes::updated(Map::<int, F>::empty(), leaves@)
                            =~= model::widen_u32(leaves@));
                    }
                }
                Ok(smt)
            },
            Err(e) => Err(e),
        }
    }

    /// A tree whose first leaves are the given ones. Leaves are counted modulo `2^32`: of
    /// two leaves with the same count the later one stays.
    pub fn new_sequential(leaves: &[F], hasher: &H, empty_leaf: &[u8; 64]) -> (r: Result<
        Self,
        Error,
    >)
        requires
            N < 64,
            N == 0 ==> leaves@.len() == 0,
            fits(sequential(leaves@, leaves@.len() as int).dom().len() as int, N as int),
        ensures
            r is Ok <==> empties_hashable::<F, H>(
                hasher,
                empty_leaf_of::<F>(empty_leaf@),
                N as nat,
            ) && batch::batch_hashable::<F, H>(
                hasher,
                Map::empty(),
                nodes::empties::<F, H>(hasher, empty_leaf_of::<F>(empty_leaf@), N as nat),
                N as nat,
                sequential(leaves@, leaves@.len() as int),
                N as nat,
            ),
            r matches Ok(tree) ==> {
                &&& tree.empties() == nodes::empties::<F, H>(
                    hasher,
                    empty_leaf_of::<F>(empty_leaf@),
                    N as nat,
                )
                &&& tree.nodes() == batch::rehashed::<F, H>(
                    hasher,
                    Map::empty(),
                    tree.empties(),
                    N as nat,
                    sequential(leaves@, leaves@.len() as int),
                    N as nat,
                )
            },
            r matches Ok(tree) ==> (model::in_range(
                model::widen_u32(sequential(leaves@, leaves@.len() as int)),
                N as nat,
            ) ==> tree.holds(
                hasher,
                empty_leaf_of::<F>(empty_leaf@),
                model::widen_u32(sequential(leaves@, leaves@.len() as int)),
            )),
            r matches Err(e) ==> new_fails::<F, H>(
                hasher,
                empty_leaf_of::<F>(empty_leaf@),
                N as nat,
                sequential(leaves@, leaves@.len() as int),
                e,
            ),
            (forall|a: F, b: F| hasher.spec_hash(#[trigger] seq![a, b]) is Ok) ==> r is Ok,
            r matches Err(e) ==> exists|a: F, b: F|
                hasher.spec_hash(#[trigger] seq![a, b]) is Err && e == Error::Hash(
                    hasher.spec_hash(seq![a, b])->Err_0,
                ),
            r matches Ok(tree) ==> (N > 0 ==> tree.empties()[0].value() == (field::le_value(
                empty_leaf@,
            ) as int) % F::modulus()),
            r matches Ok(tree) ==> (leaves@.len() <= 0x1_0000_0000 && leaves@.len() <= pow2(
                N as nat,
            ) ==> {
                &&& tree.holds(
                    hasher,
                    F::of_int(field::le_value(empty_leaf@) as int),
                    Map::new(|k: int| 0 <= k < leaves@.len(), |k: int| leaves@[k]),
                )
                &&& forall|k: int|
                    0 <= k < leaves@.len() ==> tree.nodes().get((pow2(N as nat) - 1 + k) as u64)
                        == Some(#[trigger] leaves@[k])
                &&& forall|x: u64|
                    x >= pow2(N as nat) - 1 + leaves@.len() ==> #[trigger] tree.nodes().get(
                        x,
                    ) is None
            }),
    {
        let mut pairs: BTreeMap<u32, F> = BTreeMap::new();
        for i in 0..leaves.len()
            invariant
                pairs@ == sequential(leaves@, i as int),
        {
            pairs.insert(truncated(i), leaves[i]);
        }
        proof {
            tree_laws::law_sequential(leaves@, leaves@.len() as int);
            index::lemma_one_shl(N as u64);
            assert forall|k: int|
                0 <= k < leaves@.len() && leaves@.len() <= 0x1_0000_0000 implies pairs@.get(
                k as u32,
            ) == Some(#[trigger] leaves@[k]) by {
                assert(pairs@.contains_key(k as u32));
            }
            if leaves@.len() <= pow2(N as nat) {
                assert forall|i: u32| #[trigger] pairs@.contains_key(i) implies i < pow2(
                    N as nat,
                ) by {
                    assert(sequential(leaves@, leaves@.len() as int).contains_key(i));
                }
            }
        }
        let made = Self::new(&pairs, hasher, empty_leaf);
        proof {
            assert forall|k: int|
                made is Ok && leaves@.len() <= 0x1_0000_0000 && leaves@.len() <= pow2(N as nat) && 0
                    <= k < leaves@.len() implies made->Ok_0.nodes().get(
                (pow2(N as nat) - 1 + k) as u64,
            ) == Some(#[trigger] leaves@[k]) by {
                assert(pairs@.contains_key(k as u32));
            }
        }
        made
    }

    /// The root of the tree. A tree without leaves gives the empty value of the level below
    /// the root.
    pub fn root(&self) -> (r: F)
        requires
            N > 0,
        ensures
            r == self.spec_root(),
            self.nodes().contains_key(0) ==> r == self.nodes()[0],
            !self.nodes().contains_key(0) ==> r == self.empties()[N - 1],
    {
        proof {
            self.lemma_kept();
        }
        match self.tree.get(&0) {
            Some(root) => *root,
            None => self.empty_hashes[N - 1],
        }
    }

    /// The pairs of siblings on the way from the leaf at `index` to the root.
    pub fn generate_membership_proof(&self, index: u64) -> (r: Path<F, H, N>)
        requires
            N < 64,
            index < pow2(N as nat),
        ensures
            self.is_path(index, &r),
            forall|level: int|
                0 <= level < N ==> {
                    let left = (pow2((N - level) as nat) - 1 + 2 * (index as int / pow2(
                        (level + 1) as nat,
                    ) as int)) as u64;
                    let right = (pow2((N - level) as nat) - 1 + 2 * (index as int / pow2(
                        (level + 1) as nat,
                    ) as int) + 1) as u64;
                    &&& (#[trigger] r.path@[level]).0 == (if self.nodes().contains_key(left) {
                        self.nodes()[left]
                    } else {
                        self.empties()[level]
                    })
                    &&& r.path@[level].1 == (if self.nodes().contains_key(right) {
                        self.nodes()[right]
                    } else {
                        self.empties()[level]
                    })
                },
            forall|level: int|
                0 <= level < N ==> #[trigger] r.direction_bits@[level] == ((index as int / pow2(
                    level as nat,
                ) as int) % 2 == 1),
    {
        let mut path: [(F, F); N] = [(F::zero(), F::zero()); N];
        let mut direction_bits: [bool; N] = [false; N];
        proof {
            index::lemma_one_shl(N as u64);
            index::lemma_above_base(index as int);
        }
        let tree_index = index::convert_index_to_last_level(index, N);
        let mut current_node: u64 = tree_index;
        let mut level: usize = 0;
        while !index::is_root(current_node)
            invariant
                N < 64,
                index < pow2(N as nat),
                level <= N,
                current_node == index::node_at(
                    N as nat,
                    level as nat,
                    index::above(index as int, level as nat),
                ),
                forall|l: int|
                    0 <= l < level ==> #[trigger] path@[l] == pair_at(
                        self.nodes(),
                        self.empties(),
                        N as nat,
                        index as int,
                        l as nat,
                    ),
                forall|l: int|
                    0 <= l < level ==> #[trigger] direction_bits@[l] == (index::above(
                        index as int,
                        l as nat,
                    ) % 2 == 1),
            decreases N - level,
        {
            proof {
                lemma_way_up(N as nat, index as int, level as nat, current_node as int);
            }
            let empty_hash = self.empty_hashes[level];
            let sibling_node: u64 = index::sibling(current_node).unwrap();
            let current = match self.tree.get(&current_node) {
                Some(value) => *value,
                None => empty_hash,
            };
            let sibling = match self.tree.get(&sibling_node) {
                Some(value) => *value,
                None => empty_hash,
            };
            direction_bits[level] = !index::is_left_child(current_node);
            if index::is_left_child(current_node) {
                path[level] = (current, sibling);
            } else {
                path[level] = (sibling, current);
            }
            assert(path@[level as int] == pair_at(
                self.nodes(),
                self.empties(),
                N as nat,
                index as int,
                level as nat,
            ));
            current_node = index::parent(current_node).unwrap();
            level = level + 1;
        }
        proof {
            lemma_way_ends(N as nat, index as int, level as nat, current_node as int);
        }
        Path { path, direction_bits, marker: PhantomData }
    }

    /// The siblings on the way from the leaf at `index` to the root which are not the empty
    /// value of their level.
    pub fn generate_sparse_membership_proof(&self, index: u64) -> (r: SparsePath<F, H>)
        requires
            N < 64,
            index < pow2(N as nat),
        ensures
            self.is_sparse_path(index, &r),
            r.tree_height == N,
            r.empty_hashes@ == self.empties(),
            forall|i: int, j: int|
                0 <= i < j < r.entries@.len() ==> r.entries@[i].level < r.entries@[j].level,
            forall|i: int|
                0 <= i < r.entries@.len() ==> {
                    let entry = #[trigger] r.entries@[i];
                    let pos = index as int / pow2(entry.level as nat) as int;
                    let x = (pow2((N - entry.level) as nat) - 1 + (if pos % 2 == 1 {
                        pos - 1
                    } else {
                        pos + 1
                    })) as u64;
                    &&& entry.level < N
                    &&& entry.direction_bit == (pos % 2 == 1)
                    &&& self.nodes().contains_key(x)
                    &&& entry.sibling == self.nodes()[x]
                    &&& entry.sibling != self.empties()[entry.level as int]
                },
            forall|level: int|
                0 <= level < N ==> {
                    let pos = index as int / (#[trigger] pow2(level as nat) as int);
                    let x = (pow2((N - level) as nat) - 1 + (if pos % 2 == 1 {
                        pos - 1
                    } else {
                        pos + 1
                    })) as u64;
                    self.nodes().contains_key(x) && self.nodes()[x] != self.empties()[level]
                        ==> exists|i: int| 0 <= i < r.entries@.len() && r.entries@[i].level == level
                },
    {
        proof {
            index::lemma_one_shl(N as u64);
            index::lemma_above_base(index as int);
        }
        let tree_index = index::convert_index_to_last_level(index, N);
        let mut entries: Vec<SparsePathEntry<F>> = Vec::new();
        let mut current_node: u64 = tree_index;
        let mut level: usize = 0;
        while !index::is_root(current_node)
            invariant
                N < 64,
                index < pow2(N as nat),
                level <= N,
                current_node == index::node_at(
                    N as nat,
                    level as nat,
                    index::above(index as int, level as nat),
                ),
                entries@ == sparse_entries(
                    self.nodes(),
                    self.empties(),
                    N as nat,
                    index as int,
                    level as nat,
                ),
            decreases N - level,
        {
            proof {
                lemma_way_up(N as nat, index as int, level as nat, current_node as int);
            }
            let empty_hash = self.empty_hashes[level];
            let sibling_node: u64 = index::sibling(current_node).unwrap();
            let sibling_val = match self.tree.get(&sibling_node) {
                Some(value) => *value,
                None => empty_hash,
            };
            if !sibling_val.equals(&empty_hash) {
                entries.push(
                    SparsePathEntry {
                        sibling: sibling_val,
                        direction_bit: !index::is_left_child(current_node),
                        level,
                    },
                );
            }
            current_node = index::parent(current_node).unwrap();
            level = level + 1;
        }
        proof {
            lemma_way_ends(N as nat, index as int, level as nat, current_node as int);
        }
        proof {
            tree_laws::lemma_sparse_entries(
                self.nodes(),
                self.empties(),
                N as nat,
                index as int,
                N as nat,
            );
            assert forall|level: int| 0 <= level < N implies {
                let pos = index as int / (#[trigger] pow2(level as nat) as int);
                let x = (pow2((N - level) as nat) - 1 + (if pos % 2 == 1 {
                    pos - 1
                } else {
                    pos + 1
                })) as u64;
                self.nodes().contains_key(x) && self.nodes()[x] != self.empties()[level]
                    ==> exists|i: int| 0 <= i < entries@.len() && entries@[i].level == level
            } by {
                assert(tree_laws::sibling_index(N as nat, index as int, level as nat) == ({
                    let pos = index as int / (pow2(level as nat) as int);
                    (pow2((N - level) as nat) - 1 + (if pos % 2 == 1 {
                        pos - 1
                    } else {
                        pos + 1
                    })) as u64
                }));
            }
        }
        SparsePath {
            entries,
            tree_height: N,
            empty_hashes: vstd::slice::slice_to_vec(self.empty_hashes.as_slice()),
            marker: PhantomData,
        }
    }
}

} // verus!
