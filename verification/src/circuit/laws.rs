//! What the gates force, and that the values put in the cells meet them.
//!
//! Cells hold residues, so what a gate says of them it says modulo the number of field
//! elements. Some of it rests on a product being zero only where a factor is. The premise
//! asks this of the one cell that needs it; it holds of every cell that holds a field element,
//! and of every cell if the modulus is prime.
use vstd::prelude::*;

use crate::circuit::expr;
use crate::circuit::expr::Expr;
use crate::circuit::utilities;
use crate::field;
use crate::field::PrimeField;
use crate::residue;

verus! {

/// A bit is congruent to 0 or 1.
pub open spec fn is_bit(x: int, m: int) -> bool {
    residue::congruent(x, 0, m) || residue::congruent(x, 1, m)
}

/// `x * (1 - x)` is zero exactly for bits.
proof fn lemma_bit(x: int, m: int)
    requires
        m > 1,
    ensures
        is_bit(x, m) ==> residue::congruent(x * (1 - x), 0, m),
        residue::cancels(x, m) && residue::congruent(x * (1 - x), 0, m) ==> is_bit(x, m),
{
    if residue::congruent(x, 0, m) {
        residue::lemma_product(x, 0, 1 - x, 1 - x, m);
        assert(0 * (1 - x) == 0);
    }
    if residue::congruent(x, 1, m) {
        residue::lemma_difference(1, 1, x, 1, m);
        residue::lemma_product(x, x, 1 - x, 0, m);
        assert(x * 0 == 0);
    }
    if residue::cancels(x, m) && residue::congruent(x * (1 - x), 0, m) {
        residue::lemma_equal(1, x, m);
    }
}

/// `(lhs - rhs) * cond + rhs` is `lhs` for the condition 1 and `rhs` for 0.
proof fn lemma_blend(lhs: int, rhs: int, cond: int, m: int)
    requires
        m > 1,
    ensures
        residue::congruent(cond, 1, m) ==> residue::congruent(
            (lhs - rhs) * cond + rhs,
            lhs,
            m,
        ),
        residue::congruent(cond, 0, m) ==> residue::congruent(
            (lhs - rhs) * cond + rhs,
            rhs,
            m,
        ),
{
    if residue::congruent(cond, 1, m) {
        residue::lemma_product(lhs - rhs, lhs - rhs, cond, 1, m);
        residue::lemma_sum((lhs - rhs) * cond, lhs - rhs, rhs, rhs, m);
    }
    if residue::congruent(cond, 0, m) {
        residue::lemma_product(lhs - rhs, lhs - rhs, cond, 0, m);
        assert((lhs - rhs) * 0 == 0);
        residue::lemma_sum((lhs - rhs) * cond, 0, rhs, rhs, m);
    }
}

/// Where the selecting gate is enabled it holds exactly when the condition is a bit and the
/// output is the left value for 1 and the right value for 0.
pub proof fn law_conditional_select<F: PrimeField>(gate: Seq<Expr<F>>, cells: expr::Cells)
    requires
        residue::cancels(cells.current[3], F::modulus()),
        expr::has_values(gate, cells, utilities::select_values(cells)),
        cells.selector == 1,
    ensures
        expr::holds(gate, cells) <==> {
            &&& is_bit(cells.current[3], F::modulus())
            &&& residue::congruent(cells.current[3], 1, F::modulus()) ==> residue::congruent(
                cells.current[2],
                cells.current[0],
                F::modulus(),
            )
            &&& residue::congruent(cells.current[3], 0, F::modulus()) ==> residue::congruent(
                cells.current[2],
                cells.current[1],
                F::modulus(),
            )
        },
{
    F::lemma_modulus();
    let m = F::modulus();
    let values = utilities::select_values(cells);
    let lhs = cells.current[0];
    let rhs = cells.current[1];
    let out = cells.current[2];
    let cond = cells.current[3];
    expr::lemma_holds(gate, cells, values);
    lemma_bit(cond, m);
    lemma_blend(lhs, rhs, cond, m);
    residue::lemma_equal((lhs - rhs) * cond + rhs, out, m);
    assert(values[0] == cond * (1 - cond));
    assert(values[1] == (lhs - rhs) * cond + rhs - out);
    if residue::congruent(values[0], 0, m) && residue::congruent(values[1], 0, m) {
        assert forall|i: int| 0 <= i < values.len() implies residue::congruent(
            #[trigger] values[i],
            0,
            m,
        ) by {
            assert(i == 0 || i == 1);
        }
    }
}

/// Where the comparing gate is enabled it holds exactly when the two values are congruent and
/// the output is 1, or they are not, the output is 0 and the witness is the inverse of their
/// difference.
pub proof fn law_is_equal<F: PrimeField>(gate: Seq<Expr<F>>, cells: expr::Cells)
    requires
        residue::cancels(cells.current[0] - cells.current[1], F::modulus()),
        expr::has_values(gate, cells, utilities::is_equal_values(cells)),
        cells.selector == 1,
    ensures
        expr::holds(gate, cells) <==> {
            ||| {
                &&& residue::congruent(cells.current[0], cells.current[1], F::modulus())
                &&& residue::congruent(cells.current[2], 1, F::modulus())
            }
            ||| {
                &&& !residue::congruent(cells.current[0], cells.current[1], F::modulus())
                &&& residue::congruent(cells.current[2], 0, F::modulus())
                &&& residue::congruent(
                    (cells.current[0] - cells.current[1]) * cells.current[3],
                    1,
                    F::modulus(),
                )
            }
        },
{
    F::lemma_modulus();
    let m = F::modulus();
    let values = utilities::is_equal_values(cells);
    let delta = cells.current[0] - cells.current[1];
    let out = cells.current[2];
    let inverse = cells.current[3];
    let product = delta * inverse;
    expr::lemma_holds(gate, cells, values);
    assert(values[0] == out * (1 - out));
    assert(values[1] == product + (out - 1));
    assert(values[2] == delta * (product - 1));
    residue::lemma_equal(cells.current[0], cells.current[1], m);
    residue::lemma_equal(out, 1, m);
    residue::lemma_equal(product, 1, m);
    lemma_bit(out, m);
    if residue::congruent(delta, 0, m) {
        residue::lemma_product(delta, 0, inverse, inverse, m);
        assert(0 * inverse == 0);
        residue::lemma_product(delta, 0, product - 1, product - 1, m);
        assert(0 * (product - 1) == 0);
        if residue::congruent(values[1], 0, m) {
            residue::lemma_difference(values[1], 0, product, 0, m);
        }
        if residue::congruent(out, 1, m) {
            residue::lemma_sum(product, 0, out - 1, 0, m);
        }
    } else {
        if residue::congruent(values[1], 0, m) && residue::congruent(values[2], 0, m) {
            assert(residue::congruent(delta * (product - 1), 0, m));
            residue::lemma_difference(values[1], 0, product - 1, 0, m);
            assert(values[1] - (product - 1) == out);
        }
        if residue::congruent(out, 0, m) && residue::congruent(product, 1, m) {
            residue::lemma_sum(product - 1, 0, out, 0, m);
            residue::lemma_multiple(delta, product - 1, m);
        }
    }
    lemma_three_zero(values, m);
}

/// Three values are zero when each of them is.
proof fn lemma_three_zero(values: Seq<int>, m: int)
    requires
        values.len() == 3,
    ensures
        (forall|i: int|
            0 <= i < values.len() ==> residue::congruent(#[trigger] values[i], 0, m)) <==> (
        residue::congruent(values[0], 0, m) && residue::congruent(values[1], 0, m)
            && residue::congruent(values[2], 0, m)),
{
    if residue::congruent(values[0], 0, m) && residue::congruent(values[1], 0, m)
        && residue::congruent(values[2], 0, m) {
        assert forall|i: int| 0 <= i < values.len() implies residue::congruent(
            #[trigger] values[i],
            0,
            m,
        ) by {
            assert(i == 0 || i == 1 || i == 2);
        }
    }
}

/// The output and the witness that [`utilities::is_eq_with_output`] gives meet the
/// comparing gate.
pub proof fn law_is_equal_witness<F: PrimeField>(
    gate: Seq<Expr<F>>,
    cells: expr::Cells,
    a: F,
    b: F,
    out: F,
    delta_invert: F,
)
    requires
        expr::has_values(gate, cells, utilities::is_equal_values(cells)),
        cells.selector == 0 || cells.selector == 1,
        cells.current[0] == a.value(),
        cells.current[1] == b.value(),
        cells.current[2] == out.value(),
        cells.current[3] == delta_invert.value(),
        0 <= a.value() < F::modulus(),
        0 <= b.value() < F::modulus(),
        out == if a == b {
            F::of_int(1)
        } else {
            F::of_int(0)
        },
        F::of_int(a.value() - b.value()) == F::of_int(0) ==> delta_invert == F::of_int(1),
        F::of_int(a.value() - b.value()) != F::of_int(0) ==> F::of_int(
            F::of_int(a.value() - b.value()).value() * delta_invert.value(),
        ) == F::of_int(1),
    ensures
        expr::holds(gate, cells),
{
    let m = F::modulus();
    let delta = a.value() - b.value();
    let inverse = delta_invert.value();
    let values = utilities::is_equal_values(cells);
    F::lemma_modulus();
    F::lemma_of_int(0);
    F::lemma_of_int(1);
    F::lemma_of_int(delta);
    residue::lemma_remainder(delta, m);
    residue::lemma_remainder(0, m);
    residue::lemma_remainder(1, m);
    expr::lemma_holds(gate, cells, values);
    assert(values[0] == out.value() * (1 - out.value()));
    assert(values[1] == delta * inverse + (out.value() - 1));
    assert(values[2] == delta * (delta * inverse - 1));
    lemma_bit(out.value(), m);
    residue::lemma_equal(a.value(), b.value(), m);
    field::lemma_same::<F>(a, b);
    if a == b {
        assert(delta == 0);
        assert(0 * inverse == 0);
        assert(0 * (0 * inverse - 1) == 0);
        residue::lemma_difference(out.value(), 1, 1, 1, m);
    } else {
        if F::of_int(delta) == F::of_int(0) {
            assert(residue::congruent(delta, 0, m));
        }
        F::lemma_of_int(F::of_int(delta).value() * inverse);
        residue::lemma_product(F::of_int(delta).value(), delta, inverse, inverse, m);
        assert(residue::congruent(delta * inverse, 1, m));
        residue::lemma_difference(out.value(), 0, 1, 1, m);
        residue::lemma_sum(delta * inverse, 1, out.value() - 1, -1, m);
        residue::lemma_difference(delta * inverse, 1, 1, 1, m);
        residue::lemma_multiple(delta, delta * inverse - 1, m);
    }
    assert forall|i: int| 0 <= i < values.len() implies residue::congruent(
        #[trigger] values[i],
        0,
        m,
    ) by {
        assert(i == 0 || i == 1 || i == 2);
    }
}

/// Where the swapping gate is enabled it holds exactly when the bit is 0 and the outputs are
/// the inputs, or the bit is 1 and the outputs are the inputs swapped.
pub proof fn law_conditional_swap<F: PrimeField>(gate: Seq<Expr<F>>, cells: expr::Cells)
    requires
        residue::cancels(cells.current[2], F::modulus()),
        expr::has_values(gate, cells, utilities::swap_values(cells)),
        cells.selector == 1,
    ensures
        expr::holds(gate, cells) <==> {
            ||| {
                &&& residue::congruent(cells.current[2], 0, F::modulus())
                &&& residue::congruent(cells.current[3], cells.current[0], F::modulus())
                &&& residue::congruent(cells.current[4], cells.current[1], F::modulus())
            }
            ||| {
                &&& residue::congruent(cells.current[2], 1, F::modulus())
                &&& residue::congruent(cells.current[3], cells.current[1], F::modulus())
                &&& residue::congruent(cells.current[4], cells.current[0], F::modulus())
            }
        },
{
    F::lemma_modulus();
    let m = F::modulus();
    let values = utilities::swap_values(cells);
    let a = cells.current[0];
    let b = cells.current[1];
    let bit = cells.current[2];
    let out_a = cells.current[3];
    let out_b = cells.current[4];
    expr::lemma_holds(gate, cells, values);
    lemma_bit(bit, m);
    lemma_blend(b, a, bit, m);
    lemma_blend(a, b, bit, m);
    residue::lemma_equal(out_a, (b - a) * bit + a, m);
    residue::lemma_equal(out_b, (a - b) * bit + b, m);
    assert(values[0] == bit * (1 - bit));
    assert(values[1] == out_a - ((b - a) * bit + a)) by (nonlinear_arith)
        requires
            values[1] == out_a - (1 - bit) * a - bit * b,
    ;
    assert(values[2] == out_b - ((a - b) * bit + b)) by (nonlinear_arith)
        requires
            values[2] == out_b - bit * a - (1 - bit) * b,
    ;
    lemma_three_zero(values, m);
}

/// Where the asserting gate is enabled it holds exactly when the two values are congruent.
pub proof fn law_assert_equal<F: PrimeField>(gate: Seq<Expr<F>>, cells: expr::Cells)
    requires
        expr::has_values(gate, cells, utilities::assert_equal_values(cells)),
        cells.selector == 1,
    ensures
        expr::holds(gate, cells) <==> residue::congruent(
            cells.current[0],
            cells.current[1],
            F::modulus(),
        ),
{
    let values = utilities::assert_equal_values(cells);
    F::lemma_modulus();
    expr::lemma_holds(gate, cells, values);
    residue::lemma_equal(cells.current[0], cells.current[1], F::modulus());
    assert(values[0] == cells.current[0] - cells.current[1]);
    if residue::congruent(cells.current[0], cells.current[1], F::modulus()) {
        assert forall|i: int| 0 <= i < values.len() implies residue::congruent(
            #[trigger] values[i],
            0,
            F::modulus(),
        ) by {
            assert(i == 0);
        }
    }
}

/// The value that [`utilities::conditional_select`] gives meets the selecting gate, for a
/// condition that is a bit.
pub proof fn law_conditional_select_witness<F: PrimeField>(
    gate: Seq<Expr<F>>,
    cells: expr::Cells,
    a: F,
    b: F,
    cond: bool,
)
    requires
        expr::has_values(gate, cells, utilities::select_values(cells)),
        cells.selector == 1,
        cells.current[0] == a.value(),
        cells.current[1] == b.value(),
        cells.current[2] == (if cond {
            a
        } else {
            b
        }).value(),
        cells.current[3] == (if cond {
            F::of_int(1)
        } else {
            F::of_int(0)
        }).value(),
    ensures
        expr::holds(gate, cells),
{
    let values = utilities::select_values(cells);
    lemma_bit_values::<F>();
    F::lemma_modulus();
    expr::lemma_holds(gate, cells, values);
    let (x, y, out, c) = (
        cells.current[0],
        cells.current[1],
        cells.current[2],
        cells.current[3],
    );
    assert(c * (1 - c) == 0 && (x - y) * c + y - out == 0) by (nonlinear_arith)
        requires
            (c == 1 && out == x) || (c == 0 && out == y),
    ;
    assert forall|i: int| 0 <= i < values.len() implies #[trigger] values[i] == 0 by {
        assert(i == 0 || i == 1);
    }
}

/// The values that [`utilities::swap`] gives meet the swapping gate, for a bit.
pub proof fn law_conditional_swap_witness<F: PrimeField>(
    gate: Seq<Expr<F>>,
    cells: expr::Cells,
    a: F,
    b: F,
    bit: bool,
)
    requires
        expr::has_values(gate, cells, utilities::swap_values(cells)),
        cells.selector == 1,
        cells.current[0] == a.value(),
        cells.current[1] == b.value(),
        cells.current[2] == (if bit {
            F::of_int(1)
        } else {
            F::of_int(0)
        }).value(),
        cells.current[3] == (if bit {
            b
        } else {
            a
        }).value(),
        cells.current[4] == (if bit {
            a
        } else {
            b
        }).value(),
    ensures
        expr::holds(gate, cells),
{
    let values = utilities::swap_values(cells);
    lemma_bit_values::<F>();
    F::lemma_modulus();
    expr::lemma_holds(gate, cells, values);
    let (x, y, c, u, v) = (
        cells.current[0],
        cells.current[1],
        cells.current[2],
        cells.current[3],
        cells.current[4],
    );
    assert(c * (1 - c) == 0 && u - (1 - c) * x - c * y == 0 && v - c * x - (1 - c) * y == 0)
        by (nonlinear_arith)
        requires
            (c == 1 && u == y && v == x) || (c == 0 && u == x && v == y),
    ;
    assert forall|i: int| 0 <= i < values.len() implies #[trigger] values[i] == 0 by {
        assert(i == 0 || i == 1 || i == 2);
    }
}

/// The elements of 0 and 1 stand for 0 and 1, and differ.
pub(crate) proof fn lemma_bit_values<F: PrimeField>()
    ensures
        F::of_int(0).value() == 0,
        F::of_int(1).value() == 1,
        F::of_int(0) != F::of_int(1),
        !residue::congruent(0, 1, F::modulus()),
{
    F::lemma_modulus();
    F::lemma_of_int(0);
    F::lemma_of_int(1);
    vstd::arithmetic::div_mod::lemma_small_mod(0, F::modulus() as nat);
    vstd::arithmetic::div_mod::lemma_small_mod(1, F::modulus() as nat);
}

} // verus!
