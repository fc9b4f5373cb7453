//! Laws of paths, stated on the nodes of the way from a leaf to the root.
use vstd::arithmetic::div_mod::*;
use vstd::arithmetic::power2::*;
use vstd::prelude::*;

use crate::field::PrimeField;
use crate::index;
use crate::path;
use crate::path::{Error, MerkleError, SparsePathEntry};
use crate::poseidon::{FieldHasher, HashError};

verus! {

/// The nodes are those of the way that the first pairs of a path lead up: the first one is
/// the leaf, each next one the hash of the pair before it, and each but the last is one of
/// the pair on its level.
pub open spec fn is_way<F: PrimeField, H: FieldHasher<F, 2>>(
    hasher: &H,
    pairs: Seq<(F, F)>,
    nodes: Seq<F>,
) -> bool {
    &&& 0 < nodes.len() <= pairs.len() + 1
    &&& forall|level: int|
        0 <= level < nodes.len() - 1 ==> (#[trigger] nodes[level] == pairs[level].0 || nodes[level]
            == pairs[level].1)
    &&& forall|level: int|
        0 <= level < nodes.len() - 1 ==> hasher.spec_hash(
            #[trigger] seq![pairs[level].0, pairs[level].1],
        ) == Ok::<F, HashError>(nodes[level + 1])
}

/// The root of a path is the last node of its way. A leaf that is not in the first pair, a
/// node that is not in the pair on its level and a pair that cannot be hashed give their
/// errors.
pub proof fn law_path_root<F: PrimeField, H: FieldHasher<F, 2>>(
    hasher: &H,
    pairs: Seq<(F, F)>,
    nodes: Seq<F>,
)
    requires
        pairs.len() > 0,
        is_way::<F, H>(hasher, pairs, nodes),
    ensures
        ({
            let leaf = nodes[0];
            let level = nodes.len() - 1;
            let node = nodes[level];
            let root = path::root_of::<F, H>(hasher, pairs, leaf);
            if level == pairs.len() {
                root == Ok::<F, Error>(node)
            } else if node != pairs[level].0 && node != pairs[level].1 {
                if level == 0 {
                    root == Err::<F, Error>(Error::Merkle(MerkleError::InvalidLeaf))
                } else {
                    root == Err::<F, Error>(Error::Merkle(MerkleError::InvalidPathNodes))
                }
            } else {
                hasher.spec_hash(seq![pairs[level].0, pairs[level].1]) is Err ==> root == Err::<
                    F,
                    Error,
                >(Error::Hash(hasher.spec_hash(seq![pairs[level].0, pairs[level].1])->Err_0))
            }
        }),
{
    let level = nodes.len() - 1;
    lemma_way::<F, H>(hasher, pairs, nodes, level);
    if level > 0 {
        assert(nodes[0] == pairs[0].0 || nodes[0] == pairs[0].1);
    }
}

proof fn lemma_way<F: PrimeField, H: FieldHasher<F, 2>>(
    hasher: &H,
    pairs: Seq<(F, F)>,
    nodes: Seq<F>,
    level: int,
)
    requires
        is_way::<F, H>(hasher, pairs, nodes),
        0 <= level < nodes.len(),
    ensures
        path::path_root::<F, H>(hasher, pairs, nodes[0], 0) == path::path_root::<F, H>(
            hasher,
            pairs,
            nodes[level],
            level,
        ),
    decreases level,
{
    if level > 0 {
        lemma_way::<F, H>(hasher, pairs, nodes, level - 1);
        assert(nodes[level - 1] == pairs[level - 1].0 || nodes[level - 1] == pairs[level - 1].1);
        assert(hasher.spec_hash(seq![pairs[level - 1].0, pairs[level - 1].1]) == Ok::<
            F,
            HashError,
        >(nodes[level - 1 + 1]));
    }
}

/// The binary digits of the index that a path gives: digit `level` is 1 exactly where the node
/// on that level of the way is not the left one of its pair.
pub proof fn law_index_digits<F: PrimeField, H: FieldHasher<F, 2>>(
    hasher: &H,
    pairs: Seq<(F, F)>,
    nodes: Seq<F>,
    levels: nat,
)
    requires
        is_way::<F, H>(hasher, pairs, nodes),
        levels < nodes.len(),
    ensures
        0 <= path::path_index::<F, H>(hasher, pairs, nodes[0], levels as int) < pow2(levels),
        forall|level: nat|
            level < levels ==> ((path::path_index::<F, H>(hasher, pairs, nodes[0], levels as int)
                / (#[trigger] pow2(level) as int)) % 2 == 1 <==> nodes[level as int]
                != pairs[level as int].0),
    decreases levels,
{
    if levels == 0 {
        lemma2_to64();
    } else {
        let last = (levels - 1) as nat;
        let low = path::path_index::<F, H>(hasher, pairs, nodes[0], last as int);
        let all = path::path_index::<F, H>(hasher, pairs, nodes[0], levels as int);
        law_index_digits::<F, H>(hasher, pairs, nodes, last);
        lemma_pow2_unfold(levels);
        lemma_pow2_pos(last);
        if last > 0 {
            assert(hasher.spec_hash(seq![pairs[last - 1].0, pairs[last - 1].1]) == Ok::<
                F,
                HashError,
            >(nodes[last - 1 + 1]));
        }
        let bit: int = if nodes[last as int] != pairs[last as int].0 {
            1
        } else {
            0
        };
        assert(all == low + bit * pow2(last)) by (nonlinear_arith)
            requires
                bit == 0 || bit == 1,
                bit == 1 ==> all == low + pow2(last),
                bit == 0 ==> all == low,
        ;
        assert forall|level: nat| level < levels implies ((all / (#[trigger] pow2(
            level,
        ) as int)) % 2 == 1 <==> nodes[level as int] != pairs[level as int].0) by {
            let p = pow2(level) as int;
            lemma_pow2_pos(level);
            if level < last {
                let up = pow2((last - level - 1) as nat) as int;
                lemma_pow2_adds(level, (last - level) as nat);
                lemma_pow2_unfold((last - level) as nat);
                assert(bit * pow2(last) == p * (2 * (bit * up))) by (nonlinear_arith)
                    requires
                        pow2(last) == p * (2 * up),
                ;
                lemma_hoist_over_denominator(low, 2 * (bit * up), pow2(level));
                assert(all == low + (2 * (bit * up)) * p) by (nonlinear_arith)
                    requires
                        all == low + bit * pow2(last),
                        bit * pow2(last) == p * (2 * (bit * up)),
                ;
                assert(all / p == low / p + 2 * (bit * up));
                assert((low / p) % 2 == 1 <==> nodes[level as int] != pairs[level as int].0);
            } else {
                lemma_hoist_over_denominator(low, bit, pow2(level));
                lemma_basic_div(low, p);
                assert(all / p == bit);
            }
        }
    }
}

/// The nodes are those of the way over the first entries of a sparse path: the first one is
/// the leaf, and each next one the hash of the one before with the sibling of its entry, on
/// the side that the entry names.
pub open spec fn is_sparse_way<F: PrimeField, H: FieldHasher<F, 2>>(
    hasher: &H,
    entries: Seq<SparsePathEntry<F>>,
    nodes: Seq<F>,
) -> bool {
    &&& 0 < nodes.len() <= entries.len() + 1
    &&& forall|i: int|
        0 <= i < nodes.len() - 1 ==> {
            let entry = #[trigger] entries[i];
            hasher.spec_hash(
                if entry.direction_bit {
                    seq![entry.sibling, nodes[i]]
                } else {
                    seq![nodes[i], entry.sibling]
                },
            ) == Ok::<F, HashError>(nodes[i + 1])
        }
}

/// The compact root is the last node of the way over all entries; where the way ends at a pair
/// that cannot be hashed, it is the error of that pair.
pub proof fn law_compact_root<F: PrimeField, H: FieldHasher<F, 2>>(
    hasher: &H,
    entries: Seq<SparsePathEntry<F>>,
    nodes: Seq<F>,
)
    requires
        is_sparse_way::<F, H>(hasher, entries, nodes),
    ensures
        ({
            let n = nodes.len() - 1;
            let root = path::compact_root::<F, H>(
                hasher,
                entries,
                nodes[0],
                entries.len() as int,
            );
            if n == entries.len() {
                &&& root == Ok::<F, HashError>(nodes[n])
                &&& path::lift(root) == Ok::<F, Error>(nodes[n])
            } else {
                let entry = entries[n];
                let failed = hasher.spec_hash(
                    if entry.direction_bit {
                        seq![entry.sibling, nodes[n]]
                    } else {
                        seq![nodes[n], entry.sibling]
                    },
                );
                failed is Err ==> root == failed && path::lift(root) == Err::<F, Error>(
                    Error::Hash(failed->Err_0),
                )
            }
        }),
{
    let n = nodes.len() - 1;
    lemma_sparse_way::<F, H>(hasher, entries, nodes, n);
    if n < entries.len() {
        let root = path::compact_root::<F, H>(hasher, entries, nodes[0], n + 1);
        if root is Err {
            path::lemma_compact_root_fails::<F, H>(
                hasher,
                entries,
                nodes[0],
                n + 1,
                entries.len() as int,
            );
        }
    }
}

proof fn lemma_sparse_way<F: PrimeField, H: FieldHasher<F, 2>>(
    hasher: &H,
    entries: Seq<SparsePathEntry<F>>,
    nodes: Seq<F>,
    n: int,
)
    requires
        is_sparse_way::<F, H>(hasher, entries, nodes),
        0 <= n < nodes.len(),
    ensures
        path::compact_root::<F, H>(hasher, entries, nodes[0], n) == Ok::<F, HashError>(nodes[n]),
    decreases n,
{
    if n > 0 {
        lemma_sparse_way::<F, H>(hasher, entries, nodes, n - 1);
        let entry = entries[n - 1];
        assert(nodes[n - 1 + 1] == nodes[n]);
    }
}

/// The sibling on a level, for entries in the order of their levels: that of the entry of the
/// level, and the empty value of the level where there is no such entry.
pub proof fn law_sibling_on_level<F: PrimeField>(
    entries: Seq<SparsePathEntry<F>>,
    empties: Seq<F>,
    level: int,
)
    requires
        level >= 0,
        forall|i: int, j: int| 0 <= i < j < entries.len() ==> entries[i].level < entries[j].level,
    ensures
        forall|i: int|
            0 <= i < entries.len() && (#[trigger] entries[i]).level == level ==> path::sibling_at(
                entries,
                empties,
                level,
            ) == entries[i].sibling,
        (forall|i: int| 0 <= i < entries.len() ==> (#[trigger] entries[i]).level != level)
            ==> path::sibling_at(entries, empties, level) == empties[level],
{
    lemma_cursor(entries, level);
    let cursor = path::cursor_at(entries, level);
    assert forall|i: int|
        0 <= i < entries.len() && (#[trigger] entries[i]).level == level implies path::sibling_at(
        entries,
        empties,
        level,
    ) == entries[i].sibling by {
        if cursor < i {
            assert(entries[cursor].level < entries[i].level);
        }
        assert(cursor == i);
    }
}

/// The cursor stands behind the entries of the levels below.
proof fn lemma_cursor<F: PrimeField>(entries: Seq<SparsePathEntry<F>>, level: int)
    requires
        level >= 0,
        forall|i: int, j: int| 0 <= i < j < entries.len() ==> entries[i].level < entries[j].level,
    ensures
        0 <= path::cursor_at(entries, level) <= entries.len(),
        forall|i: int|
            0 <= i < path::cursor_at(entries, level) ==> (#[trigger] entries[i]).level < level,
        forall|i: int|
            path::cursor_at(entries, level) <= i < entries.len() ==> (#[trigger] entries[i]).level
                >= level,
    decreases level,
{
    if level > 0 {
        lemma_cursor(entries, level - 1);
        let cursor = path::cursor_at(entries, level - 1);
        assert forall|i: int|
            path::cursor_at(entries, level) <= i < entries.len() implies (
        #[trigger] entries[i]).level >= level by {
            if i > cursor {
                assert(entries[cursor].level < entries[i].level);
            }
        }
    }
}

/// How the levels take the entries, in whatever order these are: an entry is taken when all
/// before it have been and its level is reached.
pub proof fn law_cursor<F: PrimeField>(
    entries: Seq<SparsePathEntry<F>>,
    empties: Seq<F>,
    level: int,
)
    requires
        level >= 0,
    ensures
        path::cursor_at(entries, 0) == 0,
        ({
            let next = path::cursor_at(entries, level);
            if next < entries.len() && entries[next].level == level {
                &&& path::cursor_at(entries, level + 1) == next + 1
                &&& path::sibling_at(entries, empties, level) == entries[next].sibling
            } else {
                &&& path::cursor_at(entries, level + 1) == next
                &&& path::sibling_at(entries, empties, level) == empties[level]
            }
        }),
{
}

/// The nodes are those of the way from the leaf at `leaf_index` over the first levels of a
/// sparse path: each next one is the hash of the one before with the sibling of its level, as
/// the right one where the binary digit of the index on the level is 1.
pub open spec fn is_full_way<F: PrimeField, H: FieldHasher<F, 2>>(
    hasher: &H,
    entries: Seq<SparsePathEntry<F>>,
    empties: Seq<F>,
    leaf_index: int,
    nodes: Seq<F>,
) -> bool {
    &&& 0 < nodes.len()
    &&& forall|level: int|
        0 <= level < nodes.len() - 1 ==> {
            let sibling = #[trigger] path::sibling_at(entries, empties, level);
            hasher.spec_hash(
                if (leaf_index / (pow2(level as nat) as int)) % 2 == 1 {
                    seq![sibling, nodes[level]]
                } else {
                    seq![nodes[level], sibling]
                },
            ) == Ok::<F, HashError>(nodes[level + 1])
        }
}

/// The full root is the last node of the way over all levels; where the way ends at a pair
/// that cannot be hashed, it is the error of that pair.
pub proof fn law_full_root<F: PrimeField, H: FieldHasher<F, 2>>(
    hasher: &H,
    entries: Seq<SparsePathEntry<F>>,
    empties: Seq<F>,
    leaf_index: int,
    nodes: Seq<F>,
    levels: int,
)
    requires
        is_full_way::<F, H>(hasher, entries, empties, leaf_index, nodes),
        nodes.len() <= levels + 1,
    ensures
        ({
            let n = nodes.len() - 1;
            let root = path::full_root::<F, H>(
                hasher,
                entries,
                empties,
                nodes[0],
                leaf_index,
                levels,
            );
            if n == levels {
                &&& root == Ok::<F, HashError>(nodes[n])
                &&& path::lift(root) == Ok::<F, Error>(nodes[n])
            } else {
                let sibling = path::sibling_at(entries, empties, n);
                let failed = hasher.spec_hash(
                    if (leaf_index / (pow2(n as nat) as int)) % 2 == 1 {
                        seq![sibling, nodes[n]]
                    } else {
                        seq![nodes[n], sibling]
                    },
                );
                failed is Err ==> root == failed && path::lift(root) == Err::<F, Error>(
                    Error::Hash(failed->Err_0),
                )
            }
        }),
{
    let n = nodes.len() - 1;
    lemma_full_way::<F, H>(hasher, entries, empties, leaf_index, nodes, n);
    if n < levels {
        let root = path::full_root::<F, H>(
            hasher,
            entries,
            empties,
            nodes[0],
            leaf_index,
            n + 1,
        );
        if root is Err {
            path::lemma_full_root_fails::<F, H>(
                hasher,
                entries,
                empties,
                nodes[0],
                leaf_index,
                n + 1,
                levels,
            );
        }
    }
}

proof fn lemma_full_way<F: PrimeField, H: FieldHasher<F, 2>>(
    hasher: &H,
    entries: Seq<SparsePathEntry<F>>,
    empties: Seq<F>,
    leaf_index: int,
    nodes: Seq<F>,
    n: int,
)
    requires
        is_full_way::<F, H>(hasher, entries, empties, leaf_index, nodes),
        0 <= n < nodes.len(),
    ensures
        path::full_root::<F, H>(hasher, entries, empties, nodes[0], leaf_index, n) == Ok::<
            F,
            HashError,
        >(nodes[n]),
    decreases n,
{
    if n > 0 {
        lemma_full_way::<F, H>(hasher, entries, empties, leaf_index, nodes, n - 1);
        let sibling = path::sibling_at(entries, empties, n - 1);
        assert(nodes[n - 1 + 1] == nodes[n]);
        assert(index::above(leaf_index, (n - 1) as nat) == leaf_index / (pow2(
            (n - 1) as nat,
        ) as int));
    }
}

} // verus!
