//! What the gates force where the cells hold field elements.
//!
//! A field element is zero or has an inverse, so a product with it is zero only where a
//! factor is. The functions of this module take the inverses of the cells that the gates
//! multiply, and need no premise on the modulus.
use vstd::prelude::*;

use crate::circuit::expr;
use crate::circuit::expr::Expr;
use crate::circuit::laws;
use crate::circuit::smt_laws;
use crate::circuit::utilities;
use crate::field;
use crate::field::{has_inverse, PrimeField};
use crate::poseidon2::Poseidon2Params;
use crate::residue;

verus! {

/// Whether the selecting gate holds on a row: the condition is 1 and the output the left
/// value, or the condition is 0 and the output the right value.
pub fn select_row_holds<F: PrimeField>(lhs: F, rhs: F, out: F, cond: F) -> (r: bool)
    ensures
        r == ((cond == F::of_int(1) && out == lhs) || (cond == F::of_int(0) && out == rhs)),
        forall|gate: Seq<Expr<F>>, cells: expr::Cells|
            expr::has_values(gate, cells, utilities::select_values(cells)) && cells.selector == 1
                && cells.current == seq![
                lhs.value(),
                rhs.value(),
                out.value(),
                cond.value(),
            ] ==> #[trigger] expr::holds(gate, cells) == r,
{
    let zero: F = F::zero();
    let one: F = F::one();
    let is_zero = cond.equals(&zero);
    let is_one = cond.equals(&one);
    let is_left = out.equals(&lhs);
    let is_right = out.equals(&rhs);
    has_inverse(cond);
    let r = (is_one && is_left) || (is_zero && is_right);
    proof {
        laws::lemma_bit_values::<F>();
        field::lemma_same::<F>(cond, zero);
        field::lemma_same::<F>(cond, one);
        field::lemma_same::<F>(out, lhs);
        field::lemma_same::<F>(out, rhs);
        assert forall|gate: Seq<Expr<F>>, cells: expr::Cells|
            expr::has_values(gate, cells, utilities::select_values(cells)) && cells.selector == 1
                && cells.current == seq![
                lhs.value(),
                rhs.value(),
                out.value(),
                cond.value(),
            ] implies #[trigger] expr::holds(gate, cells) == r by {
            laws::law_conditional_select::<F>(gate, cells);
        }
    }
    r
}

/// Whether the comparing gate holds on a row: the values are equal and the output is 1, or
/// they are not, the output is 0 and the witness is the inverse of their difference.
pub fn is_equal_row_holds<F: PrimeField>(lhs: F, rhs: F, out: F, delta_invert: F) -> (r: bool)
    ensures
        r == if lhs == rhs {
            out == F::of_int(1)
        } else {
            out == F::of_int(0) && F::of_int((lhs.value() - rhs.value()) * delta_invert.value())
                == F::of_int(1)
        },
        forall|gate: Seq<Expr<F>>, cells: expr::Cells|
            expr::has_values(gate, cells, utilities::is_equal_values(cells)) && cells.selector == 1
                && cells.current == seq![
                lhs.value(),
                rhs.value(),
                out.value(),
                delta_invert.value(),
            ] ==> #[trigger] expr::holds(gate, cells) == r,
{
    let zero: F = F::zero();
    let one: F = F::one();
    let delta: F = lhs.minus(rhs);
    let product: F = delta.times(delta_invert);
    let same = lhs.equals(&rhs);
    let is_zero = out.equals(&zero);
    let is_one = out.equals(&one);
    let inverts = product.equals(&one);
    has_inverse(delta);
    let r = if same {
        is_one
    } else {
        is_zero && inverts
    };
    proof {
        let m = F::modulus();
        let d = lhs.value() - rhs.value();
        let w = delta_invert.value();
        F::lemma_modulus();
        laws::lemma_bit_values::<F>();
        field::lemma_same::<F>(lhs, rhs);
        field::lemma_same::<F>(out, zero);
        field::lemma_same::<F>(out, one);
        field::lemma_same::<F>(product, one);
        field::lemma_times_absorbs::<F>(d, w);
        residue::lemma_remainder(d, m);
        residue::lemma_cancels_congruent(delta.value(), d, m);
        F::lemma_of_int(d * w);
        residue::lemma_remainder(d * w, m);
        assert(residue::congruent(product.value(), d * w, m));
        assert forall|gate: Seq<Expr<F>>, cells: expr::Cells|
            expr::has_values(gate, cells, utilities::is_equal_values(cells)) && cells.selector == 1
                && cells.current == seq![
                lhs.value(),
                rhs.value(),
                out.value(),
                delta_invert.value(),
            ] implies #[trigger] expr::holds(gate, cells) == r by {
            laws::law_is_equal::<F>(gate, cells);
        }
    }
    r
}

/// Whether the swapping gate holds on a row: the bit is 0 and the outputs are the inputs, or
/// the bit is 1 and the outputs are the inputs swapped.
pub fn swap_row_holds<F: PrimeField>(a: F, b: F, bit: F, out_a: F, out_b: F) -> (r: bool)
    ensures
        r == ((bit == F::of_int(0) && out_a == a && out_b == b) || (bit == F::of_int(1) && out_a
            == b && out_b == a)),
        forall|gate: Seq<Expr<F>>, cells: expr::Cells|
            expr::has_values(gate, cells, utilities::swap_values(cells)) && cells.selector == 1
                && cells.current == seq![
                a.value(),
                b.value(),
                bit.value(),
                out_a.value(),
                out_b.value(),
            ] ==> #[trigger] expr::holds(gate, cells) == r,
{
    let zero: F = F::zero();
    let one: F = F::one();
    let is_zero = bit.equals(&zero);
    let is_one = bit.equals(&one);
    let straight_a = out_a.equals(&a);
    let straight_b = out_b.equals(&b);
    let swapped_a = out_a.equals(&b);
    let swapped_b = out_b.equals(&a);
    has_inverse(bit);
    let r = (is_zero && straight_a && straight_b) || (is_one && swapped_a && swapped_b);
    proof {
        laws::lemma_bit_values::<F>();
        field::lemma_same::<F>(bit, zero);
        field::lemma_same::<F>(bit, one);
        field::lemma_same::<F>(out_a, a);
        field::lemma_same::<F>(out_a, b);
        field::lemma_same::<F>(out_b, a);
        field::lemma_same::<F>(out_b, b);
        assert forall|gate: Seq<Expr<F>>, cells: expr::Cells|
            expr::has_values(gate, cells, utilities::swap_values(cells)) && cells.selector == 1
                && cells.current == seq![
                a.value(),
                b.value(),
                bit.value(),
                out_a.value(),
                out_b.value(),
            ] implies #[trigger] expr::holds(gate, cells) == r by {
            laws::law_conditional_swap::<F>(gate, cells);
        }
    }
    r
}

/// All elements are 0 or 1.
pub open spec fn all_bits<F: PrimeField>(elements: Seq<F>) -> bool {
    forall|i: int|
        0 <= i < elements.len() ==> (#[trigger] elements[i]) == F::of_int(0) || elements[i]
            == F::of_int(1)
}

/// Whether all elements are 0 or 1. Any of them is zero or one exactly when its value is
/// congruent to that, and a product with it is zero only where a factor is.
pub fn are_bits<F: PrimeField>(elements: &Vec<F>) -> (r: bool)
    ensures
        r == all_bits(elements@),
        r == forall|i: int|
            0 <= i < elements@.len() ==> (#[trigger] elements@[i]) == F::of_int(0) || elements@[i]
                == F::of_int(1),
        forall|i: int|
            0 <= i < elements@.len() ==> residue::cancels(
                #[trigger] smt_laws::integers(elements@)[i],
                F::modulus(),
            ),
        forall|i: int|
            0 <= i < elements@.len() && laws::is_bit(
                #[trigger] smt_laws::integers(elements@)[i],
                F::modulus(),
            ) ==> elements@[i] == F::of_int(0) || elements@[i] == F::of_int(1),
{
    let zero: F = F::zero();
    let one: F = F::one();
    let mut r = true;
    for i in 0..elements.len()
        invariant
            zero == F::of_int(0),
            one == F::of_int(1),
            r == forall|k: int|
                0 <= k < i ==> (#[trigger] elements@[k]) == F::of_int(0) || elements@[k]
                    == F::of_int(1),
            forall|k: int|
                0 <= k < i ==> residue::cancels(
                    #[trigger] smt_laws::integers(elements@)[k],
                    F::modulus(),
                ),
            forall|k: int|
                0 <= k < i && laws::is_bit(
                    #[trigger] smt_laws::integers(elements@)[k],
                    F::modulus(),
                ) ==> elements@[k] == F::of_int(0) || elements@[k] == F::of_int(1),
    {
        let x = elements[i];
        let is_zero = x.equals(&zero);
        let is_one = x.equals(&one);
        has_inverse(x);
        proof {
            laws::lemma_bit_values::<F>();
            field::lemma_same::<F>(x, zero);
            field::lemma_same::<F>(x, one);
            assert(elements@[i as int] == x);
        }
        if !is_zero && !is_one {
            r = false;
        }
    }
    r
}

/// What the two sequences of the cells of a circuit say of each other.
proof fn lemma_bits_sound<F: PrimeField>(elements: Seq<F>, values: Seq<int>)
    requires
        values == smt_laws::integers(elements),
        forall|i: int|
            0 <= i < elements.len() && laws::is_bit(
                #[trigger] smt_laws::integers(elements)[i],
                F::modulus(),
            ) ==> elements[i] == F::of_int(0) || elements[i] == F::of_int(1),
        forall|i: int|
            0 <= i < values.len() ==> laws::is_bit(#[trigger] values[i], F::modulus()),
    ensures
        all_bits(elements),
{
    assert(values.len() == elements.len());
    assert forall|i: int| 0 <= i < elements.len() implies (#[trigger] elements[i]) == F::of_int(0)
        || elements[i] == F::of_int(1) by {
        assert(laws::is_bit(values[i], F::modulus()));
    }
}

/// Whether the bits of a path circuit are bits. Whatever else is in its cells: where the bits
/// are these elements and all gates hold, they are bits, and the last node is the root over
/// the leaf, the siblings and the bits.
pub fn path_circuit_bits<F: PrimeField>(bits: &Vec<F>) -> (r: bool)
    ensures
        r == all_bits(bits@),
        r == forall|i: int|
            0 <= i < bits@.len() ==> (#[trigger] bits@[i]) == F::of_int(0) || bits@[i]
                == F::of_int(1),
        forall|
            gates: smt_laws::Gates<F>,
            params: Poseidon2Params<F>,
            leaf: int,
            levels: Seq<smt_laws::Level>,
        |
            #[trigger] smt_laws::path_circuit_holds(gates, &params, leaf, levels)
                && smt_laws::level_bits(levels) == smt_laws::integers(bits@) ==> r && residue::congruent(
                smt_laws::node_cell(leaf, levels, levels.len() as int),
                smt_laws::root_over(
                    &params,
                    leaf,
                    smt_laws::level_siblings(levels),
                    smt_laws::integers(bits@),
                    levels.len() as int,
                ),
                F::modulus(),
            ),
{
    let r = are_bits(bits);
    proof {
        assert forall|
            gates: smt_laws::Gates<F>,
            params: Poseidon2Params<F>,
            leaf: int,
            levels: Seq<smt_laws::Level>,
        |
            #[trigger] smt_laws::path_circuit_holds(gates, &params, leaf, levels)
                && smt_laws::level_bits(levels) == smt_laws::integers(bits@) implies r && residue::congruent(
            smt_laws::node_cell(leaf, levels, levels.len() as int),
            smt_laws::root_over(
                &params,
                leaf,
                smt_laws::level_siblings(levels),
                smt_laws::integers(bits@),
                levels.len() as int,
            ),
            F::modulus(),
        ) by {
            let values = smt_laws::level_bits(levels);
            assert(values.len() == levels.len() && smt_laws::integers(bits@).len() == bits@.len());
            assert forall|i: int| 0 <= i < levels.len() implies residue::cancels(
                (#[trigger] levels[i]).bit,
                F::modulus(),
            ) by {
                assert(values[i] == levels[i].bit);
                assert(residue::cancels(smt_laws::integers(bits@)[i], F::modulus()));
            }
            smt_laws::law_path_circuit_sound(gates, &params, leaf, levels, levels.len() as int);
            assert forall|i: int| 0 <= i < values.len() implies laws::is_bit(
                #[trigger] values[i],
                F::modulus(),
            ) by {
                assert(laws::is_bit(levels[i].bit, F::modulus()));
            }
            lemma_bits_sound(bits@, values);
        }
    }
    r
}

/// Whether the bits and the marks of a sparse path circuit are bits. Whatever else is in its
/// cells: where the bits and the marks are these elements and all gates hold, they are bits,
/// and the last node is the root over the leaf and the active places.
pub fn sparse_circuit_bits<F: PrimeField>(bits: &Vec<F>, active: &Vec<F>) -> (r: bool)
    ensures
        r == (all_bits(bits@) && all_bits(active@)),
        r == ((forall|i: int|
            0 <= i < bits@.len() ==> (#[trigger] bits@[i]) == F::of_int(0) || bits@[i]
                == F::of_int(1)) && (forall|i: int|
            0 <= i < active@.len() ==> (#[trigger] active@[i]) == F::of_int(0) || active@[i]
                == F::of_int(1))),
        forall|
            gates: smt_laws::Gates<F>,
            params: Poseidon2Params<F>,
            leaf: int,
            places: Seq<smt_laws::Place>,
        |
            #[trigger] smt_laws::sparse_circuit_holds(gates, &params, leaf, places)
                && smt_laws::place_bits(places) == smt_laws::integers(bits@) && smt_laws::place_marks(places)
                == smt_laws::integers(active@) ==> r && residue::congruent(
                smt_laws::place_cell(leaf, places, places.len() as int),
                smt_laws::compact_root_over(
                    &params,
                    leaf,
                    smt_laws::place_siblings(places),
                    smt_laws::integers(bits@),
                    smt_laws::integers(active@),
                    places.len() as int,
                ),
                F::modulus(),
            ),
{
    let bits_right = are_bits(bits);
    let active_right = are_bits(active);
    let r = bits_right && active_right;
    proof {
        assert forall|
            gates: smt_laws::Gates<F>,
            params: Poseidon2Params<F>,
            leaf: int,
            places: Seq<smt_laws::Place>,
        |
            #[trigger] smt_laws::sparse_circuit_holds(gates, &params, leaf, places)
                && smt_laws::place_bits(places) == smt_laws::integers(bits@) && smt_laws::place_marks(places)
                == smt_laws::integers(active@) implies r && residue::congruent(
            smt_laws::place_cell(leaf, places, places.len() as int),
            smt_laws::compact_root_over(
                &params,
                leaf,
                smt_laws::place_siblings(places),
                smt_laws::integers(bits@),
                smt_laws::integers(active@),
                places.len() as int,
            ),
            F::modulus(),
        ) by {
            let values = smt_laws::place_bits(places);
            let marks = smt_laws::place_marks(places);
            assert(values.len() == places.len() && smt_laws::integers(bits@).len() == bits@.len());
            assert(marks.len() == places.len() && smt_laws::integers(active@).len() == active@.len());
            assert forall|i: int| 0 <= i < places.len() implies residue::cancels(
                (#[trigger] places[i]).level.bit,
                F::modulus(),
            ) && residue::cancels(places[i].active, F::modulus()) by {
                assert(values[i] == places[i].level.bit);
                assert(marks[i] == places[i].active);
                assert(residue::cancels(smt_laws::integers(bits@)[i], F::modulus()));
                assert(residue::cancels(smt_laws::integers(active@)[i], F::modulus()));
            }
            smt_laws::law_sparse_circuit_sound(gates, &params, leaf, places, places.len() as int);
            assert forall|i: int| 0 <= i < values.len() implies laws::is_bit(
                #[trigger] values[i],
                F::modulus(),
            ) by {
                assert(laws::is_bit(places[i].level.bit, F::modulus()));
            }
            assert forall|i: int| 0 <= i < marks.len() implies laws::is_bit(
                #[trigger] marks[i],
                F::modulus(),
            ) by {
                assert(laws::is_bit(places[i].level.bit, F::modulus()));
            }
            lemma_bits_sound(bits@, values);
            lemma_bits_sound(active@, marks);
        }
    }
    r
}

} // verus!
