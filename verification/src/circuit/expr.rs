//! Polynomials over the cells of a gate.
//!
//! A gate looks at the cells of a row and of the next one, and has a selector that is 1 on
//! the rows on which it is enabled. It holds where all its polynomials are zero.
use vstd::prelude::*;

use crate::field::PrimeField;
use crate::residue;

verus! {

/// The cells that a gate looks at, as integers.
pub struct Cells {
    /// The selector of the custom gate.
    pub selector: int,
    /// The fixed cells of the row.
    pub fixed: Seq<int>,
    /// The advice cells of the row.
    pub current: Seq<int>,
    /// The advice cells of the next row.
    pub next: Seq<int>,
}

/// A polynomial over the cells of a gate.
pub enum Expr<F: PrimeField> {
    /// A constant.
    Constant(F),
    /// The selector of the custom gate.
    Selector,
    /// A fixed cell of the row, by its column.
    Fixed(usize),
    /// An advice cell of the row, by its column.
    Current(usize),
    /// An advice cell of the next row, by its column.
    Next(usize),
    /// A polynomial with the sign changed.
    Negated(Box<Expr<F>>),
    /// A sum.
    Sum(Box<Expr<F>>, Box<Expr<F>>),
    /// A product.
    Product(Box<Expr<F>>, Box<Expr<F>>),
}

impl<F: PrimeField> Expr<F> {
    /// The value of the polynomial, as an integer without reduction.
    pub open spec fn eval(self, cells: Cells) -> int
        decreases self,
    {
        match self {
            Expr::Constant(f) => f.value(),
            Expr::Selector => cells.selector,
            Expr::Fixed(column) => cells.fixed[column as int],
            Expr::Current(column) => cells.current[column as int],
            Expr::Next(column) => cells.next[column as int],
            Expr::Negated(a) => -a.eval(cells),
            Expr::Sum(a, b) => a.eval(cells) + b.eval(cells),
            Expr::Product(a, b) => a.eval(cells) * b.eval(cells),
        }
    }

    /// The degree of the polynomial, where the selector and every cell count one.
    pub open spec fn degree(self) -> nat
        decreases self,
    {
        match self {
            Expr::Constant(_) => 0,
            Expr::Selector => 1,
            Expr::Fixed(_) => 1,
            Expr::Current(_) => 1,
            Expr::Next(_) => 1,
            Expr::Negated(a) => a.degree(),
            Expr::Sum(a, b) => if a.degree() >= b.degree() {
                a.degree()
            } else {
                b.degree()
            },
            Expr::Product(a, b) => a.degree() + b.degree(),
        }
    }

    /// The constant 1.
    pub fn one() -> (r: Self)
        ensures
            forall|cells: Cells| #[trigger] r.eval(cells) == 1,
            r.degree() == 0,
    {
        proof {
            F::lemma_modulus();
            F::lemma_of_int(1);
            vstd::arithmetic::div_mod::lemma_small_mod(1, F::modulus() as nat);
        }
        Expr::Constant(F::one())
    }

    /// The advice cell of the row in a column.
    pub fn current(column: usize) -> (r: Self)
        ensures
            forall|cells: Cells| #[trigger] r.eval(cells) == cells.current[column as int],
            r.degree() == 1,
    {
        Expr::Current(column)
    }

    /// The advice cell of the next row in a column.
    pub fn next(column: usize) -> (r: Self)
        ensures
            forall|cells: Cells| #[trigger] r.eval(cells) == cells.next[column as int],
            r.degree() == 1,
    {
        Expr::Next(column)
    }

    /// The fixed cell of the row in a column.
    pub fn fixed(column: usize) -> (r: Self)
        ensures
            forall|cells: Cells| #[trigger] r.eval(cells) == cells.fixed[column as int],
            r.degree() == 1,
    {
        Expr::Fixed(column)
    }

    /// The sum of two polynomials.
    pub fn plus(self, other: Self) -> (r: Self)
        ensures
            forall|cells: Cells| #[trigger] r.eval(cells) == self.eval(cells) + other.eval(cells),
            r.degree() == if self.degree() >= other.degree() {
                self.degree()
            } else {
                other.degree()
            },
    {
        Expr::Sum(Box::new(self), Box::new(other))
    }

    /// The difference of two polynomials.
    pub fn minus(self, other: Self) -> (r: Self)
        ensures
            forall|cells: Cells| #[trigger] r.eval(cells) == self.eval(cells) - other.eval(cells),
            r.degree() == if self.degree() >= other.degree() {
                self.degree()
            } else {
                other.degree()
            },
    {
        let negated = Expr::Negated(Box::new(other));
        assert forall|cells: Cells| #[trigger] negated.eval(cells) == -other.eval(cells) by {}
        assert(negated.degree() == other.degree());
        self.plus(negated)
    }

    /// The product of two polynomials.
    pub fn times(self, other: Self) -> (r: Self)
        ensures
            forall|cells: Cells| #[trigger] r.eval(cells) == self.eval(cells) * other.eval(cells),
            r.degree() == self.degree() + other.degree(),
    {
        Expr::Product(Box::new(self), Box::new(other))
    }

    /// The fifth power of a polynomial.
    pub fn pow5(self) -> (r: Self)
        ensures
            forall|cells: Cells| #[trigger] r.eval(cells) == residue::pow5(self.eval(cells)),
            r.degree() == 5 * self.degree(),
    {
        let square = self.clone().times(self.clone());
        let fourth = square.clone().times(square);
        fourth.times(self)
    }

    /// The polynomial on the rows on which the custom gate is enabled.
    pub fn selected(self) -> (r: Self)
        ensures
            forall|cells: Cells| #[trigger] r.eval(cells) == cells.selector * self.eval(cells),
            r.degree() == 1 + self.degree(),
    {
        let selector = Expr::Selector;
        assert forall|cells: Cells| #[trigger] selector.eval(cells) == cells.selector by {}
        assert(selector.degree() == 1);
        selector.times(self)
    }
}

impl<F: PrimeField> Clone for Expr<F> {
    fn clone(&self) -> (r: Self)
        ensures
            r == *self,
        decreases self,
    {
        match self {
            Expr::Constant(f) => Expr::Constant(*f),
            Expr::Selector => Expr::Selector,
            Expr::Fixed(column) => Expr::Fixed(*column),
            Expr::Current(column) => Expr::Current(*column),
            Expr::Next(column) => Expr::Next(*column),
            Expr::Negated(a) => Expr::Negated(Box::new((**a).clone())),
            Expr::Sum(a, b) => Expr::Sum(
                Box::new((**a).clone()),
                Box::new((**b).clone()),
            ),
            Expr::Product(a, b) => Expr::Product(
                Box::new((**a).clone()),
                Box::new((**b).clone()),
            ),
        }
    }
}

/// All polynomials of a gate are zero modulo `m`.
pub open spec fn holds<F: PrimeField>(gate: Seq<Expr<F>>, cells: Cells) -> bool {
    forall|i: int|
        0 <= i < gate.len() ==> residue::congruent(
            (#[trigger] gate[i]).eval(cells),
            0,
            F::modulus(),
        )
}

/// Gate polynomials at places 0 and up, each the selector times a given value.
pub open spec fn has_values<F: PrimeField>(
    gate: Seq<Expr<F>>,
    cells: Cells,
    values: Seq<int>,
) -> bool {
    &&& gate.len() == values.len()
    &&& forall|i: int|
        0 <= i < gate.len() ==> (#[trigger] gate[i]).eval(cells) == cells.selector * values[i]
}

/// A gate whose selector is 1 holds exactly when the values are zero. One whose selector is
/// 0 holds in any case.
pub(crate) proof fn lemma_holds<F: PrimeField>(gate: Seq<Expr<F>>, cells: Cells, values: Seq<int>)
    requires
        has_values(gate, cells, values),
        cells.selector == 0 || cells.selector == 1,
    ensures
        cells.selector == 0 ==> holds(gate, cells),
        cells.selector == 1 ==> (holds(gate, cells) <==> forall|i: int|
            0 <= i < values.len() ==> residue::congruent(#[trigger] values[i], 0, F::modulus())),
{
    if cells.selector == 1 {
        assert forall|i: int| 0 <= i < gate.len() implies (#[trigger] gate[i]).eval(cells)
            == values[i] by {}
        if holds(gate, cells) {
            assert forall|i: int| 0 <= i < values.len() implies residue::congruent(
                #[trigger] values[i],
                0,
                F::modulus(),
            ) by {
                assert(gate[i].eval(cells) == values[i]);
            }
        }
    }
}

} // verus!
