//! Laws of the cells of a circuit: what each gate says of the words in its cells, and what a
//! root cell holds for the siblings and bits above it.
use vstd::prelude::*;

use crate::circuit::expr;
use crate::circuit::expr::Expr;
use crate::circuit::poseidon2;
use crate::circuit::poseidon2::RowKind;
use crate::circuit::poseidon2_laws;
use crate::circuit::smt;
use crate::circuit::utilities;
use crate::field::PrimeField;
use crate::path;
use crate::path::Error;
use crate::poseidon::{FieldHasher, HashError};
use crate::poseidon2 as native;
use crate::residue;

verus! {

/// The value of a polynomial follows from those of its parts.
pub proof fn law_eval<F: PrimeField>(
    f: F,
    column: usize,
    a: Box<Expr<F>>,
    b: Box<Expr<F>>,
    cells: expr::Cells,
)
    ensures
        Expr::Constant(f).eval(cells) == f.value(),
        Expr::<F>::Selector.eval(cells) == cells.selector,
        Expr::<F>::Fixed(column).eval(cells) == cells.fixed[column as int],
        Expr::<F>::Current(column).eval(cells) == cells.current[column as int],
        Expr::<F>::Next(column).eval(cells) == cells.next[column as int],
        Expr::Negated(a).eval(cells) + a.eval(cells) == 0,
        Expr::Sum(a, b).eval(cells) == a.eval(cells) + b.eval(cells),
        Expr::Product(a, b).eval(cells) == a.eval(cells) * b.eval(cells),
{
}

/// The degree of a polynomial: that of a product is the sum of those of the factors, and that
/// of a sum the larger one.
pub proof fn law_degree<F: PrimeField>(f: F, column: usize, a: Box<Expr<F>>, b: Box<Expr<F>>)
    ensures
        Expr::Constant(f).degree() == 0,
        Expr::<F>::Selector.degree() == 1,
        Expr::<F>::Fixed(column).degree() == 1,
        Expr::<F>::Current(column).degree() == 1,
        Expr::<F>::Next(column).degree() == 1,
        Expr::Negated(a).degree() == a.degree(),
        Expr::Sum(a, b).degree() == a.degree() || Expr::Sum(a, b).degree() == b.degree(),
        Expr::Sum(a, b).degree() >= a.degree(),
        Expr::Sum(a, b).degree() >= b.degree(),
        Expr::Product(a, b).degree() == a.degree() + b.degree(),
{
}

/// A gate holds exactly where each of its polynomials is a multiple of the modulus.
pub proof fn law_holds<F: PrimeField>(gate: Seq<Expr<F>>, cells: expr::Cells, values: Seq<int>)
    ensures
        expr::holds(gate, cells) <==> forall|i: int|
            0 <= i < gate.len() ==> (#[trigger] gate[i]).eval(cells) % F::modulus() == 0,
        expr::has_values(gate, cells, values) <==> gate.len() == values.len() && forall|i: int|
            0 <= i < gate.len() ==> (#[trigger] gate[i]).eval(cells) == cells.selector * values[i],
{
    F::lemma_modulus();
    assert(0int % F::modulus() == 0) by {
        vstd::arithmetic::div_mod::lemma_small_mod(0, F::modulus() as nat);
    }
    if expr::holds(gate, cells) {
        assert forall|i: int| 0 <= i < gate.len() implies (#[trigger] gate[i]).eval(cells)
            % F::modulus() == 0 by {
            assert(residue::congruent(gate[i].eval(cells), 0, F::modulus()));
        }
    }
    if forall|i: int|
        0 <= i < gate.len() ==> (#[trigger] gate[i]).eval(cells) % F::modulus() == 0 {
        assert forall|i: int| 0 <= i < gate.len() implies residue::congruent(
            (#[trigger] gate[i]).eval(cells),
            0,
            F::modulus(),
        ) by {}
    }
}

/// Where the first gate is enabled it holds exactly when each next word is congruent to the
/// word of the row plus the sum of all words of the row.
pub proof fn law_first_gate_words<F: PrimeField>(gate: Seq<Expr<F>>, cells: expr::Cells)
    requires
        expr::has_values(gate, cells, poseidon2::first_values(cells)),
        cells.selector == 1,
    ensures
        ({
            let m = F::modulus();
            let x = cells.current[0];
            let y = cells.current[1];
            let z = cells.current[2];
            expr::holds(gate, cells) <==> (cells.next[0] % m == (2 * x + y + z) % m && cells.next[1]
                % m == (x + 2 * y + z) % m && cells.next[2] % m == (x + y + 2 * z) % m)
        }),
{
    poseidon2_laws::law_first_gate::<F>(gate, cells);
}

/// Where the custom gate of a full round is enabled it holds exactly when the next words are
/// congruent to the external matrix applied to the fifth powers of the words plus the
/// constants.
pub proof fn law_full_gate_words<F: PrimeField>(gate: Seq<Expr<F>>, cells: expr::Cells)
    requires
        expr::has_values(gate, cells, poseidon2::full_values(cells)),
        cells.selector == 1,
    ensures
        ({
            let m = F::modulus();
            let x = residue::pow5(cells.current[0] + cells.fixed[0]);
            let y = residue::pow5(cells.current[1] + cells.fixed[1]);
            let z = residue::pow5(cells.current[2] + cells.fixed[2]);
            expr::holds(gate, cells) <==> (cells.next[0] % m == (2 * x + y + z) % m && cells.next[1]
                % m == (x + 2 * y + z) % m && cells.next[2] % m == (x + y + 2 * z) % m)
        }),
{
    poseidon2_laws::law_full_gate::<F>(gate, cells);
}

/// Where the absorbing gate is enabled it holds exactly when the next words are congruent to
/// the words of the row, the first two with the two words of the message added.
pub proof fn law_absorb_gate_words<F: PrimeField>(gate: Seq<Expr<F>>, cells: expr::Cells)
    requires
        expr::has_values(gate, cells, poseidon2::absorb_values(cells)),
        cells.selector == 1,
    ensures
        ({
            let m = F::modulus();
            expr::holds(gate, cells) <==> (cells.next[0] % m == (cells.current[0]
                + cells.current[3]) % m && cells.next[1] % m == (cells.current[1]
                + cells.current[4]) % m && cells.next[2] % m == cells.current[2] % m)
        }),
{
    poseidon2_laws::law_absorb_gate::<F>(gate, cells);
}

/// What the custom gate of four partial rounds compares: each S-box cell with the fifth power
/// of the first word before it plus the constant, and the next words with those after the
/// fourth round. A round takes the S-box cell for the first word, and adds to each word, the
/// last one doubled, the sum of all.
pub proof fn law_partial_gate_words(cells: expr::Cells, n: nat)
    ensures
        poseidon2::batched_state(cells, 2, 0) == (native::State3 {
            a: cells.current[0],
            b: cells.current[1],
            c: cells.current[2],
        }),
        ({
            let before = poseidon2::batched_state(cells, 2, n);
            let x = cells.current[3 + n as int];
            poseidon2::batched_state(cells, 2, n + 1) == (native::State3 {
                a: 2 * x + before.b + before.c,
                b: x + 2 * before.b + before.c,
                c: x + before.b + 3 * before.c,
            })
        }),
        poseidon2::sbox_value(cells, 2, n) == cells.current[3 + n as int] - residue::pow5(
            poseidon2::batched_state(cells, 2, n).a + cells.fixed[n as int],
        ),
        poseidon2::partial_values(cells, 2) == seq![
            poseidon2::sbox_value(cells, 2, 0),
            poseidon2::sbox_value(cells, 2, 1),
            poseidon2::sbox_value(cells, 2, 2),
            poseidon2::sbox_value(cells, 2, 3),
            cells.next[0] - poseidon2::batched_state(cells, 2, 4).a,
            cells.next[1] - poseidon2::batched_state(cells, 2, 4).b,
            cells.next[2] - poseidon2::batched_state(cells, 2, 4).c,
        ],
{
    let up = n + 1;
    assert((up - 1) as nat == n);
    assert(3 + (up - 1) == 3 + n);
    assert(poseidon2::partial_values(cells, 2) =~= seq![
        poseidon2::sbox_value(cells, 2, 0),
        poseidon2::sbox_value(cells, 2, 1),
        poseidon2::sbox_value(cells, 2, 2),
        poseidon2::sbox_value(cells, 2, 3),
        cells.next[0] - poseidon2::batched_state(cells, 2, 4).a,
        cells.next[1] - poseidon2::batched_state(cells, 2, 4).b,
        cells.next[2] - poseidon2::batched_state(cells, 2, 4).c,
    ]);
}

/// The rows of a permutation do the 64 rounds in order: a full row does one, a partial row
/// four, the first row none, and the last row follows the last round.
pub proof fn law_rows_in_order(row: int)
    requires
        1 <= row < 23,
    ensures
        poseidon2::spec_row_kind(0) == RowKind::First,
        poseidon2::spec_row_kind(23) == RowKind::Last,
        poseidon2::rounds_before(1) == 0,
        poseidon2::rounds_before(23) == 64,
        ({
            let round = poseidon2::rounds_before(row);
            if round < 4 || round >= 60 {
                &&& poseidon2::rounds_before(row + 1) == round + 1
                &&& poseidon2::spec_row_kind(row) == (RowKind::Full { round: round as usize })
            } else {
                &&& poseidon2::rounds_before(row + 1) == round + 4
                &&& poseidon2::spec_row_kind(row) == (RowKind::Partial {
                    round: round as usize,
                    sbox: (round - 4) as usize,
                })
            }
        }),
{
}

/// Permutation `k` of a message takes in words `2k` and `2k + 1`, and zero for a word that is
/// not there; there are as many permutations as the words need.
pub proof fn law_message_words(message: Seq<int>, s: native::State3, k: int)
    requires
        0 <= k,
        2 * k < message.len(),
    ensures
        2 * poseidon2::permutations(message.len() as int) == message.len() || 2
            * poseidon2::permutations(message.len() as int) == message.len() + 1,
        2 * k + 1 < message.len() ==> poseidon2::with_words(s, message, k) == (native::State3 {
            a: s.a + message[2 * k],
            b: s.b + message[2 * k + 1],
            c: s.c,
        }),
        2 * k + 1 == message.len() ==> poseidon2::with_words(s, message, k) == (native::State3 {
            a: s.a + message[2 * k],
            b: s.b,
            c: s.c,
        }),
{
}

/// The nodes over the first siblings: the first one is the leaf, and each next one the hash of
/// the one before with its sibling, the node first where the bit is 0 and the sibling first
/// where it is not.
pub open spec fn is_dense_way<F: PrimeField, H: FieldHasher<F, 2>>(
    hasher: &H,
    siblings: Seq<F>,
    bits: Seq<F>,
    nodes: Seq<F>,
) -> bool {
    &&& 0 < nodes.len() <= siblings.len() + 1
    &&& forall|i: int|
        0 <= i < nodes.len() - 1 ==> hasher.spec_hash(
            if bits[i] == F::of_int(0) {
                seq![nodes[i], siblings[i]]
            } else {
                seq![#[trigger] siblings[i], nodes[i]]
            },
        ) == Ok::<F, HashError>(nodes[i + 1])
}

/// The root cell over all siblings holds the last node of their way; where the way ends at a
/// pair that cannot be hashed, the error is that of the pair.
pub proof fn law_dense_root<F: PrimeField, H: FieldHasher<F, 2>>(
    hasher: &H,
    siblings: Seq<F>,
    bits: Seq<F>,
    nodes: Seq<F>,
)
    requires
        is_dense_way::<F, H>(hasher, siblings, bits, nodes),
    ensures
        ({
            let n = nodes.len() - 1;
            let root = path::lift(
                smt::dense_root::<F, H>(hasher, siblings, bits, nodes[0], siblings.len() as int),
            );
            if n == siblings.len() {
                root == Ok::<F, Error>(nodes[n])
            } else {
                let failed = hasher.spec_hash(
                    if bits[n] == F::of_int(0) {
                        seq![nodes[n], siblings[n]]
                    } else {
                        seq![siblings[n], nodes[n]]
                    },
                );
                failed is Err ==> root == Err::<F, Error>(Error::Hash(failed->Err_0))
            }
        }),
{
    let n = nodes.len() - 1;
    lemma_dense_way::<F, H>(hasher, siblings, bits, nodes, n);
    if n < siblings.len() && smt::dense_root::<F, H>(
        hasher,
        siblings,
        bits,
        nodes[0],
        n + 1,
    ) is Err {
        smt::lemma_dense_root_fails::<F, H>(
            hasher,
            siblings,
            bits,
            nodes[0],
            n + 1,
            siblings.len() as int,
        );
    }
}

proof fn lemma_dense_way<F: PrimeField, H: FieldHasher<F, 2>>(
    hasher: &H,
    siblings: Seq<F>,
    bits: Seq<F>,
    nodes: Seq<F>,
    n: int,
)
    requires
        is_dense_way::<F, H>(hasher, siblings, bits, nodes),
        0 <= n < nodes.len(),
    ensures
        smt::dense_root::<F, H>(hasher, siblings, bits, nodes[0], n) == Ok::<F, HashError>(
            nodes[n],
        ),
    decreases n,
{
    if n > 0 {
        lemma_dense_way::<F, H>(hasher, siblings, bits, nodes, n - 1);
        let sibling = siblings[n - 1];
        assert(nodes[n - 1 + 1] == nodes[n]);
    }
}

/// The nodes over the first places of a sparse path: where the mark is 1 the next one is the
/// hash of the one before with the sibling, and elsewhere the one before; the pair of each
/// place can be hashed.
pub open spec fn is_places_way<F: PrimeField, H: FieldHasher<F, 2>>(
    hasher: &H,
    siblings: Seq<F>,
    bits: Seq<F>,
    active: Seq<F>,
    nodes: Seq<F>,
) -> bool {
    &&& 0 < nodes.len() <= siblings.len() + 1
    &&& forall|i: int|
        0 <= i < nodes.len() - 1 ==> {
            let hash = hasher.spec_hash(
                if bits[i] == F::of_int(0) {
                    seq![nodes[i], siblings[i]]
                } else {
                    seq![#[trigger] siblings[i], nodes[i]]
                },
            );
            &&& hash is Ok
            &&& active[i] == F::of_int(1) ==> nodes[i + 1] == hash->Ok_0
            &&& active[i] != F::of_int(1) ==> nodes[i + 1] == nodes[i]
        }
}

/// The root cell over all places holds the last node of their way; where the way ends at a
/// pair that cannot be hashed, the error is that of the pair.
pub proof fn law_places_root<F: PrimeField, H: FieldHasher<F, 2>>(
    hasher: &H,
    siblings: Seq<F>,
    bits: Seq<F>,
    active: Seq<F>,
    nodes: Seq<F>,
)
    requires
        is_places_way::<F, H>(hasher, siblings, bits, active, nodes),
    ensures
        ({
            let n = nodes.len() - 1;
            let root = path::lift(
                smt::sparse_root::<F, H>(
                    hasher,
                    siblings,
                    bits,
                    active,
                    nodes[0],
                    siblings.len() as int,
                ),
            );
            if n == siblings.len() {
                root == Ok::<F, Error>(nodes[n])
            } else {
                let failed = hasher.spec_hash(
                    if bits[n] == F::of_int(0) {
                        seq![nodes[n], siblings[n]]
                    } else {
                        seq![siblings[n], nodes[n]]
                    },
                );
                failed is Err ==> root == Err::<F, Error>(Error::Hash(failed->Err_0))
            }
        }),
{
    let n = nodes.len() - 1;
    lemma_places_way::<F, H>(hasher, siblings, bits, active, nodes, n);
    if n < siblings.len() && smt::sparse_root::<F, H>(
        hasher,
        siblings,
        bits,
        active,
        nodes[0],
        n + 1,
    ) is Err {
        smt::lemma_sparse_root_fails::<F, H>(
            hasher,
            siblings,
            bits,
            active,
            nodes[0],
            n + 1,
            siblings.len() as int,
        );
    }
}

proof fn lemma_places_way<F: PrimeField, H: FieldHasher<F, 2>>(
    hasher: &H,
    siblings: Seq<F>,
    bits: Seq<F>,
    active: Seq<F>,
    nodes: Seq<F>,
    n: int,
)
    requires
        is_places_way::<F, H>(hasher, siblings, bits, active, nodes),
        0 <= n < nodes.len(),
    ensures
        smt::sparse_root::<F, H>(hasher, siblings, bits, active, nodes[0], n) == Ok::<
            F,
            HashError,
        >(nodes[n]),
    decreases n,
{
    if n > 0 {
        lemma_places_way::<F, H>(hasher, siblings, bits, active, nodes, n - 1);
        let sibling = siblings[n - 1];
        assert(nodes[n - 1 + 1] == nodes[n]);
    }
}

/// The sizes: a permutation of 8 full and 56 partial rounds takes a row for the first matrix,
/// one for each full round, one for every four partial rounds and one for the last state.
pub proof fn law_sizes()
    ensures
        native::R_F == 8,
        native::R_P == 56,
        native::ROUNDS == native::R_F + native::R_P,
        4 * (poseidon2::ROWS - 2 - native::R_F) == native::R_P,
        utilities::NUM_OF_UTILITY_ADVICE_COLUMNS == 4,
        utilities::NUM_OF_SWAP_ADVICE_COLUMNS == 5,
{
}

} // verus!
