//! The roots that a circuit computes are those of the paths.
use vstd::arithmetic::power2::*;
use vstd::prelude::*;

use crate::chain;
use crate::circuit::expr;
use crate::circuit::expr::Expr;
use crate::circuit::laws as circuit_laws;
use crate::circuit::poseidon2;
use crate::circuit::poseidon2_laws;
use crate::circuit::smt;
use crate::circuit::utilities;
use crate::field::PrimeField;
use crate::index;
use crate::laws;
use crate::membership;
use crate::model;
use crate::path;
use crate::path::{Path, SparsePathEntry};
use crate::poseidon;
use crate::fp::Fp;
use crate::poseidon::{FieldHasher, HashError};
use crate::poseidon2 as native;
use crate::poseidon2::{Poseidon2, Poseidon2Params};
use crate::residue;
use crate::smt::SparseMerkleTree;

verus! {

/// The direction bits of a path fit its pairs: on each level the node on the way up from the
/// leaf is the one on the side that the bit tells.
pub open spec fn directions_fit<F: PrimeField, H: FieldHasher<F, 2>, const N: usize>(
    path: &Path<F, H, N>,
    hasher: &H,
    leaf: F,
) -> bool {
    forall|level: int|
        0 <= level < N ==> path::path_node::<F, H>(hasher, path.path@, leaf, level) == if (
        #[trigger] path.direction_bits@[level]) {
            path.path@[level].1
        } else {
            path.path@[level].0
        }
}

/// Where the direction bits fit, the circuit computes the root that the path gives.
pub proof fn law_circuit_root<F: PrimeField, H: FieldHasher<F, 2>, const N: usize>(
    path: &Path<F, H, N>,
    siblings: Seq<F>,
    bits: Seq<F>,
    hasher: &H,
    leaf: F,
)
    requires
        N > 0,
        smt::are_path_cells(path, siblings, bits),
        directions_fit(path, hasher, leaf),
        path::root_of::<F, H>(hasher, path.path@, leaf) is Ok,
    ensures
        path::lift(smt::dense_root::<F, H>(hasher, siblings, bits, leaf, N as int))
            == path::root_of::<F, H>(hasher, path.path@, leaf),
{
    lemma_circuit_root(path, siblings, bits, hasher, leaf, N as int);
}

/// On every level the circuit is at the node of the path, and the rest of the path gives the
/// root from there.
proof fn lemma_circuit_root<F: PrimeField, H: FieldHasher<F, 2>, const N: usize>(
    path: &Path<F, H, N>,
    siblings: Seq<F>,
    bits: Seq<F>,
    hasher: &H,
    leaf: F,
    level: int,
)
    requires
        N > 0,
        0 <= level <= N,
        smt::are_path_cells(path, siblings, bits),
        directions_fit(path, hasher, leaf),
        path::root_of::<F, H>(hasher, path.path@, leaf) is Ok,
    ensures
        smt::dense_root::<F, H>(hasher, siblings, bits, leaf, level) == Ok::<F, HashError>(
            path::path_node::<F, H>(hasher, path.path@, leaf, level),
        ),
        path::path_root::<F, H>(
            hasher,
            path.path@,
            path::path_node::<F, H>(hasher, path.path@, leaf, level),
            level,
        ) == path::root_of::<F, H>(hasher, path.path@, leaf),
    decreases level,
{
    circuit_laws::lemma_bit_values::<F>();
    if level > 0 {
        let below = level - 1;
        lemma_circuit_root(path, siblings, bits, hasher, leaf, below);
        assert(siblings[below] == if path.direction_bits@[below] {
            path.path@[below].0
        } else {
            path.path@[below].1
        });
        assert(bits[below] == smt::spec_bit_element::<F>(path.direction_bits@[below]));
    }
}

/// The circuit computes the root of the tree from the cells of the membership proof of any
/// leaf. The tree has at least one leaf.
pub proof fn law_circuit_membership<F: PrimeField, H: FieldHasher<F, 2>, const N: usize>(
    tree: &SparseMerkleTree<F, H, N>,
    path: &Path<F, H, N>,
    siblings: Seq<F>,
    bits: Seq<F>,
    hasher: &H,
    empty_leaf: F,
    leaves: Map<int, F>,
    index: u64,
)
    requires
        0 < N < 64,
        index < pow2(N as nat),
        tree.holds(hasher, empty_leaf, leaves),
        laws::all_hashable::<F, H>(hasher, leaves, empty_leaf, N as nat),
        laws::has_leaf(leaves),
        tree.is_path(index, path),
        smt::are_path_cells(path, siblings, bits),
    ensures
        smt::dense_root::<F, H>(
            hasher,
            siblings,
            bits,
            laws::leaf_at(leaves, empty_leaf, index as int),
            N as int,
        ) == Ok::<F, HashError>(tree.spec_root()),
{
    let leaf = laws::leaf_at(leaves, empty_leaf, index as int);
    laws::law_membership_proof(tree, path, hasher, empty_leaf, leaves, index);
    laws::lemma_path_pairs(tree, path, hasher, empty_leaf, leaves, index);
    index::lemma_above_base(index as int);
    assert forall|level: int| 0 <= level < N implies path::path_node::<F, H>(
        hasher,
        path.path@,
        leaf,
        level,
    ) == if (#[trigger] path.direction_bits@[level]) {
        path.path@[level].1
    } else {
        path.path@[level].0
    } by {
        chain::lemma_sibling_pos(index as int, level as nat);
        assert(path.path@[level] == membership::pair_of::<F, H>(
            hasher,
            leaves,
            empty_leaf,
            index as int,
            level as nat,
        ));
        if level > 0 {
            assert(path.path@[level - 1] == membership::pair_of::<F, H>(
                hasher,
                leaves,
                empty_leaf,
                index as int,
                (level - 1) as nat,
            ));
        }
        assert(path::path_node::<F, H>(hasher, path.path@, leaf, level) == model::subtree::<F, H>(
            hasher,
            leaves,
            empty_leaf,
            level as nat,
            index::above(index as int, level as nat),
        ));
    }
    law_circuit_root(path, siblings, bits, hasher, leaf);
}

/// On the places of the entries the circuit follows the entries.
proof fn lemma_active_places<F: PrimeField, H: FieldHasher<F, 2>>(
    entries: Seq<SparsePathEntry<F>>,
    siblings: Seq<F>,
    bits: Seq<F>,
    active: Seq<F>,
    hasher: &H,
    leaf: F,
    n: int,
)
    requires
        smt::are_sparse_cells(entries, siblings, bits, active),
        0 <= n <= entries.len(),
    ensures
        smt::sparse_root::<F, H>(hasher, siblings, bits, active, leaf, n) == path::compact_root::<
            F,
            H,
        >(hasher, entries, leaf, n),
    decreases n,
{
    circuit_laws::lemma_bit_values::<F>();
    if n > 0 {
        lemma_active_places::<F, H>(entries, siblings, bits, active, hasher, leaf, n - 1);
        assert(siblings[n - 1] == entries[n - 1].sibling);
        assert(bits[n - 1] == smt::spec_bit_element::<F>(entries[n - 1].direction_bit));
        assert(active[n - 1] == F::of_int(1));
    }
}

/// The circuit computes the compact root of a sparse path, whatever the number of places,
/// if the root can be hashed with the zero that fills the places without an entry.
pub proof fn law_circuit_compact_root<F: PrimeField, H: FieldHasher<F, 2>>(
    entries: Seq<SparsePathEntry<F>>,
    siblings: Seq<F>,
    bits: Seq<F>,
    active: Seq<F>,
    hasher: &H,
    leaf: F,
    n: int,
)
    requires
        smt::are_sparse_cells(entries, siblings, bits, active),
        entries.len() <= n <= siblings.len(),
        path::compact_root::<F, H>(hasher, entries, leaf, entries.len() as int) matches Ok(root)
            ==> poseidon::pair_hash::<F, H>(hasher, root, F::of_int(0)) is Ok,
    ensures
        smt::sparse_root::<F, H>(hasher, siblings, bits, active, leaf, n) == path::compact_root::<
            F,
            H,
        >(hasher, entries, leaf, entries.len() as int),
    decreases n,
{
    circuit_laws::lemma_bit_values::<F>();
    if n > entries.len() {
        law_circuit_compact_root::<F, H>(entries, siblings, bits, active, hasher, leaf, n - 1);
        assert(siblings[n - 1] == F::of_int(0));
        assert(bits[n - 1] == F::of_int(0));
        assert(active[n - 1] == F::of_int(0));
    } else {
        lemma_active_places::<F, H>(entries, siblings, bits, active, hasher, leaf, n);
    }
}

/// What is in the cells of one level of a path circuit: the sibling, the bit, and the rows
/// of the hash. The hash starts from the swapped pair, and its last row holds the next node.
pub struct Level {
    /// The sibling.
    pub sibling: int,
    /// The bit.
    pub bit: int,
    /// The states of the rows of the hash.
    pub states: Seq<native::State3>,
    /// The S-boxes of the rows of the hash.
    pub sboxes: Seq<Seq<int>>,
}

/// The gates of a path circuit.
pub struct Gates<F: PrimeField> {
    /// The swapping gate.
    pub swap: Seq<Expr<F>>,
    /// The selecting gate.
    pub select: Seq<Expr<F>>,
    /// The custom gate of the first external matrix.
    pub first: Seq<Expr<F>>,
    /// The custom gate of a full round.
    pub full: Seq<Expr<F>>,
    /// The custom gate of four partial rounds.
    pub partial: Seq<Expr<F>>,
}

/// The polynomials are those of the gates.
pub open spec fn are_circuit_gates<F: PrimeField>(gates: Gates<F>) -> bool {
    &&& forall|cells: expr::Cells| #[trigger]
        expr::has_values(gates.swap, cells, utilities::swap_values(cells))
    &&& forall|cells: expr::Cells| #[trigger]
        expr::has_values(gates.select, cells, utilities::select_values(cells))
    &&& poseidon2_laws::are_gates(gates.first, gates.full, gates.partial)
}

/// The cells of a gate of one row.
pub open spec fn one_row(current: Seq<int>) -> expr::Cells {
    expr::Cells { selector: 1, fixed: Seq::empty(), current, next: Seq::empty() }
}

/// The gates of a level hold, where `node` is the node that the level starts from.
pub open spec fn level_holds<F: PrimeField>(
    gates: Gates<F>,
    params: &Poseidon2Params<F>,
    node: int,
    level: Level,
) -> bool {
    &&& expr::holds(
        gates.swap,
        one_row(seq![node, level.sibling, level.bit, level.states[0].a, level.states[0].b]),
    )
    &&& residue::congruent(level.states[0].c, 2, F::modulus())
    &&& forall|row: int|
        0 <= row < 23 ==> #[trigger] poseidon2_laws::row_holds(
            gates.first,
            gates.full,
            gates.partial,
            params,
            level.states,
            level.sboxes,
            row,
        )
}

/// The hash of two words.
pub open spec fn hash_of<F: PrimeField>(params: &Poseidon2Params<F>, left: int, right: int) -> int {
    native::digest(params.constants(), params.diagonal(), seq![left, right])
}

/// The hash of a node and its sibling, in the order that the side tells.
pub open spec fn hash_on_side<F: PrimeField>(
    params: &Poseidon2Params<F>,
    on_right: bool,
    node: int,
    sibling: int,
) -> int {
    if on_right {
        hash_of(params, sibling, node)
    } else {
        hash_of(params, node, sibling)
    }
}

/// The node that level `n` of a path circuit starts from: the leaf, or the first word of the
/// last state of the hash below.
pub open spec fn node_cell(leaf: int, levels: Seq<Level>, n: int) -> int {
    if n <= 0 {
        leaf
    } else {
        levels[n - 1].states[23].a
    }
}

/// The root over the siblings of the first `n` levels, on the sides that the bits tell.
pub open spec fn root_over<F: PrimeField>(
    params: &Poseidon2Params<F>,
    leaf: int,
    siblings: Seq<int>,
    bits: Seq<int>,
    n: int,
) -> int
    decreases n,
{
    if n <= 0 {
        leaf
    } else {
        hash_on_side(
            params,
            residue::congruent(bits[n - 1], 1, F::modulus()),
            root_over(params, leaf, siblings, bits, n - 1),
            siblings[n - 1],
        )
    }
}

/// The siblings of the levels.
pub open spec fn level_siblings(levels: Seq<Level>) -> Seq<int> {
    levels.map_values(|level: Level| level.sibling)
}

/// The bits of the levels.
pub open spec fn level_bits(levels: Seq<Level>) -> Seq<int> {
    levels.map_values(|level: Level| level.bit)
}

/// The hash of congruent words is congruent, and follows from the permutation.
proof fn lemma_hash_of<F: PrimeField>(
    params: &Poseidon2Params<F>,
    s: native::State3,
    left: int,
    right: int,
)
    requires
        residue::congruent(s.a, left, F::modulus()),
        residue::congruent(s.b, right, F::modulus()),
        residue::congruent(s.c, 2, F::modulus()),
    ensures
        residue::congruent(params.after(s, 64).a, hash_of(params, left, right), F::modulus()),
{
    F::lemma_modulus();
    poseidon2_laws::law_digest_of_two(params, left, right);
    native::lemma_after_rounds(
        params.constants(),
        params.diagonal(),
        s,
        native::State3 { a: left, b: right, c: 2 },
        64,
        F::modulus(),
    );
}

/// One level: the bit is 0 or 1, and the last state of the hash starts with the hash of the
/// node and the sibling.
proof fn lemma_level<F: PrimeField>(
    gates: Gates<F>,
    params: &Poseidon2Params<F>,
    node: int,
    expected: int,
    level: Level,
)
    requires
        residue::cancels(level.bit, F::modulus()),
        are_circuit_gates(gates),
        native::congruent3(params.diagonal(), poseidon2::internal_diagonal(2), F::modulus()),
        level_holds(gates, params, node, level),
        residue::congruent(node, expected, F::modulus()),
    ensures
        circuit_laws::is_bit(level.bit, F::modulus()),
        residue::congruent(
            level.states[23].a,
            hash_on_side(
                params,
                residue::congruent(level.bit, 1, F::modulus()),
                expected,
                level.sibling,
            ),
            F::modulus(),
        ),
{
    let m = F::modulus();
    let cells = one_row(
        seq![node, level.sibling, level.bit, level.states[0].a, level.states[0].b],
    );
    assert(expr::has_values(gates.swap, cells, utilities::swap_values(cells)));
    circuit_laws::law_conditional_swap::<F>(gates.swap, cells);
    circuit_laws::lemma_bit_values::<F>();
    poseidon2_laws::law_rows_sound(
        gates.first,
        gates.full,
        gates.partial,
        params,
        level.states,
        level.sboxes,
    );
    if residue::congruent(level.bit, 1, m) {
        lemma_hash_of(params, level.states[0], level.sibling, expected);
    } else {
        lemma_hash_of(params, level.states[0], expected, level.sibling);
    }
}

/// All gates of a path circuit hold.
pub open spec fn path_circuit_holds<F: PrimeField>(
    gates: Gates<F>,
    params: &Poseidon2Params<F>,
    leaf: int,
    levels: Seq<Level>,
) -> bool {
    &&& are_circuit_gates(gates)
    &&& native::congruent3(params.diagonal(), poseidon2::internal_diagonal(2), F::modulus())
    &&& forall|i: int|
        0 <= i < levels.len() ==> level_holds(
            gates,
            params,
            node_cell(leaf, levels, i),
            #[trigger] levels[i],
        )
}

/// Whatever is put in the cells of a path circuit: where all gates hold, every bit is 0 or 1
/// and the last node is the root over the leaf, the siblings and the bits.
pub proof fn law_path_circuit_sound<F: PrimeField>(
    gates: Gates<F>,
    params: &Poseidon2Params<F>,
    leaf: int,
    levels: Seq<Level>,
    n: int,
)
    requires
        forall|i: int| 0 <= i < n ==> residue::cancels((#[trigger] levels[i]).bit, F::modulus()),
        are_circuit_gates(gates),
        native::congruent3(params.diagonal(), poseidon2::internal_diagonal(2), F::modulus()),
        0 <= n <= levels.len(),
        forall|i: int|
            0 <= i < n ==> level_holds(
                gates,
                params,
                node_cell(leaf, levels, i),
                #[trigger] levels[i],
            ),
    ensures
        forall|i: int|
            0 <= i < n ==> circuit_laws::is_bit((#[trigger] levels[i]).bit, F::modulus()),
        residue::congruent(
            node_cell(leaf, levels, n),
            root_over(params, leaf, level_siblings(levels), level_bits(levels), n),
            F::modulus(),
        ),
    decreases n,
{
    if n > 0 {
        law_path_circuit_sound(gates, params, leaf, levels, n - 1);
        lemma_level(
            gates,
            params,
            node_cell(leaf, levels, n - 1),
            root_over(params, leaf, level_siblings(levels), level_bits(levels), n - 1),
            levels[n - 1],
        );
    }
}

/// One place of a sparse path circuit: a level, the mark, and the node after it.
pub struct Place {
    /// The swap and the hash.
    pub level: Level,
    /// The mark.
    pub active: int,
    /// The node that the selecting gate puts out.
    pub out: int,
}

/// The node that place `n` of a sparse path circuit starts from.
pub open spec fn place_cell(leaf: int, places: Seq<Place>, n: int) -> int {
    if n <= 0 {
        leaf
    } else {
        places[n - 1].out
    }
}

/// The gates of a place hold, where `node` is the node that the place starts from.
pub open spec fn place_holds<F: PrimeField>(
    gates: Gates<F>,
    params: &Poseidon2Params<F>,
    node: int,
    place: Place,
) -> bool {
    &&& level_holds(gates, params, node, place.level)
    &&& expr::holds(
        gates.select,
        one_row(seq![place.level.states[23].a, node, place.out, place.active]),
    )
}

/// The root over the first `n` places that are active.
pub open spec fn compact_root_over<F: PrimeField>(
    params: &Poseidon2Params<F>,
    leaf: int,
    siblings: Seq<int>,
    bits: Seq<int>,
    active: Seq<int>,
    n: int,
) -> int
    decreases n,
{
    if n <= 0 {
        leaf
    } else {
        let prev = compact_root_over(params, leaf, siblings, bits, active, n - 1);
        if residue::congruent(active[n - 1], 1, F::modulus()) {
            hash_on_side(
                params,
                residue::congruent(bits[n - 1], 1, F::modulus()),
                prev,
                siblings[n - 1],
            )
        } else {
            prev
        }
    }
}

/// The siblings of the places.
pub open spec fn place_siblings(places: Seq<Place>) -> Seq<int> {
    places.map_values(|place: Place| place.level.sibling)
}

/// The bits of the places.
pub open spec fn place_bits(places: Seq<Place>) -> Seq<int> {
    places.map_values(|place: Place| place.level.bit)
}

/// The marks of the places.
pub open spec fn place_marks(places: Seq<Place>) -> Seq<int> {
    places.map_values(|place: Place| place.active)
}

/// The root over the active places among the first `n`.
pub open spec fn places_root<F: PrimeField>(
    params: &Poseidon2Params<F>,
    leaf: int,
    places: Seq<Place>,
    n: int,
) -> int {
    compact_root_over(
        params,
        leaf,
        place_siblings(places),
        place_bits(places),
        place_marks(places),
        n,
    )
}

/// All gates of a sparse path circuit hold.
pub open spec fn sparse_circuit_holds<F: PrimeField>(
    gates: Gates<F>,
    params: &Poseidon2Params<F>,
    leaf: int,
    places: Seq<Place>,
) -> bool {
    &&& are_circuit_gates(gates)
    &&& native::congruent3(params.diagonal(), poseidon2::internal_diagonal(2), F::modulus())
    &&& forall|i: int|
        0 <= i < places.len() ==> place_holds(
            gates,
            params,
            place_cell(leaf, places, i),
            #[trigger] places[i],
        )
}

/// Whatever is put in the cells of a sparse path circuit: where all gates hold, every bit and
/// every mark is 0 or 1, and the last node is the root over the leaf and the active places.
pub proof fn law_sparse_circuit_sound<F: PrimeField>(
    gates: Gates<F>,
    params: &Poseidon2Params<F>,
    leaf: int,
    places: Seq<Place>,
    n: int,
)
    requires
        forall|i: int|
            0 <= i < n ==> residue::cancels((#[trigger] places[i]).level.bit, F::modulus())
                && residue::cancels(places[i].active, F::modulus()),
        are_circuit_gates(gates),
        native::congruent3(params.diagonal(), poseidon2::internal_diagonal(2), F::modulus()),
        0 <= n <= places.len(),
        forall|i: int|
            0 <= i < n ==> place_holds(
                gates,
                params,
                place_cell(leaf, places, i),
                #[trigger] places[i],
            ),
    ensures
        forall|i: int|
            0 <= i < n ==> circuit_laws::is_bit((#[trigger] places[i]).level.bit, F::modulus())
                && circuit_laws::is_bit(places[i].active, F::modulus()),
        residue::congruent(
            place_cell(leaf, places, n),
            places_root(params, leaf, places, n),
            F::modulus(),
        ),
    decreases n,
{
    if n > 0 {
        law_sparse_circuit_sound(gates, params, leaf, places, n - 1);
        let node = place_cell(leaf, places, n - 1);
        let place = places[n - 1];
        lemma_level(
            gates,
            params,
            node,
            places_root(params, leaf, places, n - 1),
            place.level,
        );
        let cells = one_row(seq![place.level.states[23].a, node, place.out, place.active]);
        assert(expr::has_values(gates.select, cells, utilities::select_values(cells)));
        circuit_laws::law_conditional_select::<F>(gates.select, cells);
        circuit_laws::lemma_bit_values::<F>();
    }
}

/// The elements of bits.
pub open spec fn bit_elements(bits: Seq<bool>) -> Seq<Fp> {
    bits.map_values(|bit: bool| smt::spec_bit_element::<Fp>(bit))
}

/// The integers of field elements.
pub open spec fn integers<F: PrimeField>(elements: Seq<F>) -> Seq<int> {
    elements.map_values(|f: F| f.value())
}

/// With the Poseidon2 hash, the value that the circuit computes for a root is the root over
/// the values of the leaf, the siblings and the bits.
pub proof fn law_circuit_root_value(
    hasher: &Poseidon2<Fp, 2>,
    siblings: Seq<Fp>,
    bits: Seq<bool>,
    leaf: Fp,
    n: int,
)
    requires
        0 <= n <= siblings.len(),
        n <= bits.len(),
    ensures
        smt::dense_root::<Fp, Poseidon2<Fp, 2>>(
            hasher,
            siblings,
            bit_elements(bits),
            leaf,
            n,
        ) matches Ok(root) && residue::congruent(
            root.value(),
            root_over(
                &hasher.spec_params(),
                leaf.value(),
                integers(siblings),
                integers(bit_elements(bits)),
                n,
            ),
            Fp::modulus(),
        ),
    decreases n,
{
    circuit_laws::lemma_bit_values::<Fp>();
    if n > 0 {
        let elements = bit_elements(bits);
        law_circuit_root_value(hasher, siblings, bits, leaf, n - 1);
        let prev = smt::dense_root::<Fp, Poseidon2<Fp, 2>>(
            hasher,
            siblings,
            elements,
            leaf,
            n - 1,
        )->Ok_0;
        let expected = root_over(
            &hasher.spec_params(),
            leaf.value(),
            integers(siblings),
            integers(elements),
            n - 1,
        );
        assert(residue::congruent(integers(elements)[n - 1], 1, Fp::modulus()) == bits[n - 1]);
        lemma_swap_hash_value(hasher, prev, siblings[n - 1], bits[n - 1], expected);
    }
}

/// With the Poseidon2 hash, the value that the circuit computes for a compact root is the root
/// over the active ones among the values of the places.
pub proof fn law_circuit_compact_root_value(
    hasher: &Poseidon2<Fp, 2>,
    siblings: Seq<Fp>,
    bits: Seq<bool>,
    active: Seq<bool>,
    leaf: Fp,
    n: int,
)
    requires
        0 <= n <= siblings.len(),
        n <= bits.len(),
        n <= active.len(),
    ensures
        smt::sparse_root::<Fp, Poseidon2<Fp, 2>>(
            hasher,
            siblings,
            bit_elements(bits),
            bit_elements(active),
            leaf,
            n,
        ) matches Ok(root) && residue::congruent(
            root.value(),
            compact_root_over(
                &hasher.spec_params(),
                leaf.value(),
                integers(siblings),
                integers(bit_elements(bits)),
                integers(bit_elements(active)),
                n,
            ),
            Fp::modulus(),
        ),
    decreases n,
{
    circuit_laws::lemma_bit_values::<Fp>();
    if n > 0 {
        let m = Fp::modulus();
        let elements = bit_elements(bits);
        let marks = bit_elements(active);
        let params = hasher.spec_params();
        law_circuit_compact_root_value(hasher, siblings, bits, active, leaf, n - 1);
        let prev = smt::sparse_root::<Fp, Poseidon2<Fp, 2>>(
            hasher,
            siblings,
            elements,
            marks,
            leaf,
            n - 1,
        )->Ok_0;
        let expected = compact_root_over(
            &params,
            leaf.value(),
            integers(siblings),
            integers(elements),
            integers(marks),
            n - 1,
        );
        assert(residue::congruent(integers(elements)[n - 1], 1, m) == bits[n - 1]);
        assert(residue::congruent(integers(marks)[n - 1], 1, m) == active[n - 1]);
        lemma_swap_hash_value(hasher, prev, siblings[n - 1], bits[n - 1], expected);
    }
}

/// With the Poseidon2 hash, swapping by a bit and hashing gives the hash on the side that the
/// bit tells.
proof fn lemma_swap_hash_value(
    hasher: &Poseidon2<Fp, 2>,
    prev: Fp,
    sibling: Fp,
    right: bool,
    expected: int,
)
    requires
        residue::congruent(prev.value(), expected, Fp::modulus()),
    ensures
        smt::swap_hash::<Fp, Poseidon2<Fp, 2>>(
            hasher,
            prev,
            sibling,
            smt::spec_bit_element::<Fp>(right),
        ) matches Ok(hash) && residue::congruent(
            hash.value(),
            hash_on_side(&hasher.spec_params(), right, expected, sibling.value()),
            Fp::modulus(),
        ),
{
    let m = Fp::modulus();
    let params = hasher.spec_params();
    circuit_laws::lemma_bit_values::<Fp>();
    let (x, y) = if right {
        (sibling, prev)
    } else {
        (prev, sibling)
    };
    let (u, v) = if right {
        (sibling.value(), expected)
    } else {
        (expected, sibling.value())
    };
    assert(seq![x, y].map_values(|f: Fp| f.value()) =~= seq![x.value(), y.value()]);
    poseidon2_laws::law_digest_of_two(&params, x.value(), y.value());
    lemma_hash_of(&params, native::State3 { a: x.value(), b: y.value(), c: 2 }, u, v);
    let hash = hash_of(&params, x.value(), y.value());
    Fp::lemma_of_int(hash);
    residue::lemma_remainder(hash, m);
}

} // verus!
