//! Gates of one row that select, compare and swap.
use vstd::prelude::*;

use crate::circuit::expr;
use crate::circuit::expr::Expr;
use crate::circuit::laws;
use crate::field;
use crate::field::PrimeField;
use crate::residue;

verus! {

/// The number of advice columns of the gates that select and compare.
pub const NUM_OF_UTILITY_ADVICE_COLUMNS: usize = 4;

/// The number of advice columns of the custom gate that swaps.
pub const NUM_OF_SWAP_ADVICE_COLUMNS: usize = 5;

/// The condition is 0 or 1, and the output is the left value for 1 and the right one for 0.
/// Columns: left, right, output, condition.
pub open spec fn select_values(cells: expr::Cells) -> Seq<int> {
    let lhs = cells.current[0];
    let rhs = cells.current[1];
    let out = cells.current[2];
    let cond = cells.current[3];
    seq![cond * (1 - cond), (lhs - rhs) * cond + rhs - out]
}

/// The output is 1 if the two values are equal and 0 if not. Columns: left, right, output,
/// inverse of the difference.
pub open spec fn is_equal_values(cells: expr::Cells) -> Seq<int> {
    let lhs = cells.current[0];
    let rhs = cells.current[1];
    let out = cells.current[2];
    let delta_invert = cells.current[3];
    seq![
        out * (1 - out),
        (lhs - rhs) * delta_invert + (out - 1),
        (lhs - rhs) * ((lhs - rhs) * delta_invert - 1),
    ]
}

/// The two values are equal. Columns: left, right.
pub open spec fn assert_equal_values(cells: expr::Cells) -> Seq<int> {
    seq![cells.current[0] - cells.current[1]]
}

/// The bit is 0 or 1, and the outputs are the inputs, swapped for 1. Columns: first and
/// second input, bit, first and second output.
pub open spec fn swap_values(cells: expr::Cells) -> Seq<int> {
    let a = cells.current[0];
    let b = cells.current[1];
    let bit = cells.current[2];
    let out_a = cells.current[3];
    let out_b = cells.current[4];
    seq![
        bit * (1 - bit),
        out_a - (1 - bit) * a - bit * b,
        out_b - bit * a - (1 - bit) * b,
    ]
}

/// The custom gate that selects one of two values.
pub fn conditional_select_gate<F: PrimeField>() -> (r: Vec<Expr<F>>)
    ensures
        forall|cells: expr::Cells| #[trigger]
            expr::has_values(r@, cells, select_values(cells)),
{
    let lhs = Expr::<F>::current(0);
    let rhs = Expr::<F>::current(1);
    let out = Expr::<F>::current(2);
    let cond = Expr::<F>::current(3);
    let is_bit = cond.clone().times(Expr::one().minus(cond.clone())).selected();
    let selects = lhs.minus(rhs.clone()).times(cond).plus(rhs).minus(out).selected();
    vec![is_bit, selects]
}

/// The custom gate that compares two values.
pub fn is_equal_gate<F: PrimeField>() -> (r: Vec<Expr<F>>)
    ensures
        forall|cells: expr::Cells| #[trigger]
            expr::has_values(r@, cells, is_equal_values(cells)),
{
    let lhs = Expr::<F>::current(0);
    let rhs = Expr::<F>::current(1);
    let out = Expr::<F>::current(2);
    let delta_invert = Expr::<F>::current(3);
    let delta = lhs.minus(rhs);
    let is_bit = out.clone().times(Expr::one().minus(out.clone())).selected();
    let tells = delta.clone().times(delta_invert.clone()).plus(out.minus(Expr::one())).selected();
    let inverts = delta.clone().times(delta.times(delta_invert).minus(Expr::one())).selected();
    vec![is_bit, tells, inverts]
}

/// The custom gate that asserts two values to be equal.
pub fn assert_equal_gate<F: PrimeField>() -> (r: Vec<Expr<F>>)
    ensures
        forall|cells: expr::Cells| #[trigger]
            expr::has_values(r@, cells, assert_equal_values(cells)),
{
    let lhs = Expr::<F>::current(0);
    let rhs = Expr::<F>::current(1);
    vec![lhs.minus(rhs).selected()]
}

/// The custom gate that swaps two values.
pub fn conditional_swap_gate<F: PrimeField>() -> (r: Vec<Expr<F>>)
    ensures
        forall|cells: expr::Cells| #[trigger]
            expr::has_values(r@, cells, swap_values(cells)),
{
    let a = Expr::<F>::current(0);
    let b = Expr::<F>::current(1);
    let bit = Expr::<F>::current(2);
    let out_a = Expr::<F>::current(3);
    let out_b = Expr::<F>::current(4);
    let is_bit = bit.clone().times(Expr::one().minus(bit.clone())).selected();
    let first = out_a.minus(Expr::one().minus(bit.clone()).times(a.clone())).minus(
        bit.clone().times(b.clone()),
    ).selected();
    let second = out_b.minus(bit.clone().times(a)).minus(
        Expr::one().minus(bit).times(b),
    ).selected();
    vec![is_bit, first, second]
}

/// The value that the selecting gate puts out: `a` if the condition is 1, else `b`.
pub fn conditional_select<T, F: PrimeField>(a: T, b: T, cond: F) -> (r: T)
    ensures
        r == if cond == F::of_int(1) {
            a
        } else {
            b
        },
{
    if cond.equals(&F::one()) {
        a
    } else {
        b
    }
}

/// What the comparing gate puts out, and the witness for it: 1 and 1 if the values are
/// equal, else 0 and the inverse of their difference. They meet the comparing gate.
pub fn is_eq_with_output<F: PrimeField>(a: F, b: F) -> (r: (F, F))
    ensures
        r.0 == if a == b {
            F::of_int(1)
        } else {
            F::of_int(0)
        },
        a == b ==> r.1 == F::of_int(1),
        a != b ==> F::of_int(F::of_int(a.value() - b.value()).value() * r.1.value()) == F::of_int(
            1,
        ),
        forall|gate: Seq<Expr<F>>, cells: expr::Cells|
            expr::has_values(gate, cells, is_equal_values(cells)) && cells.selector == 1
                && cells.current == seq![
                a.value(),
                b.value(),
                r.0.value(),
                r.1.value(),
            ] ==> #[trigger] expr::holds(gate, cells),
{
    let delta: F = a.minus(b);
    let delta_invert: F = if delta.equals(&F::zero()) {
        F::one()
    } else {
        match delta.invert() {
            Some(inverse) => inverse,
            None => F::one(),
        }
    };
    let is_eq: F = if a.equals(&b) {
        F::one()
    } else {
        F::zero()
    };
    proof {
        F::lemma_modulus();
        F::lemma_of_int(0);
        F::lemma_of_int(a.value() - b.value());
        field::lemma_same::<F>(a, b);
        residue::lemma_equal(a.value(), b.value(), F::modulus());
        if a == b {
            field::lemma_congruent::<F>(a.value() - b.value(), 0);
        }
        assert forall|gate: Seq<Expr<F>>, cells: expr::Cells|
            expr::has_values(gate, cells, is_equal_values(cells)) && cells.selector == 1
                && cells.current == seq![
                a.value(),
                b.value(),
                is_eq.value(),
                delta_invert.value(),
            ] implies #[trigger] expr::holds(gate, cells) by {
            laws::law_is_equal_witness::<F>(gate, cells, a, b, is_eq, delta_invert);
        }
    }
    (is_eq, delta_invert)
}

/// The values that the swapping gate puts out: `(a, b)` if the bit is 0, else `(b, a)`.
pub fn swap<T, F: PrimeField>(a: T, b: T, bit: F) -> (r: (T, T))
    ensures
        r == if bit == F::of_int(0) {
            (a, b)
        } else {
            (b, a)
        },
{
    if bit.equals(&F::zero()) {
        (a, b)
    } else {
        (b, a)
    }
}

/// A bit as a field element.
pub fn bit_element<F: PrimeField>(bit: bool) -> (r: F)
    ensures
        r == if bit {
            F::of_int(1)
        } else {
            F::of_int(0)
        },
{
    if bit {
        F::one()
    } else {
        F::zero()
    }
}

} // verus!
