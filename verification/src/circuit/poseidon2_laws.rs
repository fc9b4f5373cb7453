//! What the rows of a Poseidon2 hash force, and that the trace meets the gates.
use vstd::prelude::*;

use crate::circuit::expr;
use crate::circuit::expr::Expr;
use crate::circuit::poseidon2;
use crate::circuit::poseidon2::RowKind;
use crate::field::PrimeField;
use crate::poseidon2 as native;
use crate::poseidon2::Poseidon2Params;
use crate::residue;

verus! {

/// The differences of two states are zero exactly when the states are congruent.
proof fn lemma_differences(s: native::State3, t: native::State3, m: int)
    requires
        m > 0,
    ensures
        all_zero(poseidon2::differences(s, t), m) <==> native::congruent3(s, t, m),
{
    let d = poseidon2::differences(s, t);
    residue::lemma_equal(s.a, t.a, m);
    residue::lemma_equal(s.b, t.b, m);
    residue::lemma_equal(s.c, t.c, m);
    assert(d[0] == s.a - t.a && d[1] == s.b - t.b && d[2] == s.c - t.c);
    if native::congruent3(s, t, m) {
        assert forall|i: int| 0 <= i < d.len() implies residue::congruent(
            #[trigger] d[i],
            0,
            m,
        ) by {
            assert(i == 0 || i == 1 || i == 2);
        }
    }
}

/// All values are congruent to zero.
pub open spec fn all_zero(values: Seq<int>, m: int) -> bool {
    forall|i: int| 0 <= i < values.len() ==> residue::congruent(#[trigger] values[i], 0, m)
}

/// Where the custom gate of the first external matrix is enabled it holds exactly when the next
/// state is that matrix applied to this one.
pub proof fn law_first_gate<F: PrimeField>(gate: Seq<Expr<F>>, cells: expr::Cells)
    requires
        expr::has_values(gate, cells, poseidon2::first_values(cells)),
        cells.selector == 1,
    ensures
        expr::holds(gate, cells) <==> native::congruent3(
            poseidon2::next_state(cells),
            native::external(poseidon2::current_state(cells)),
            F::modulus(),
        ),
{
    F::lemma_modulus();
    expr::lemma_holds(gate, cells, poseidon2::first_values(cells));
    lemma_differences(
        poseidon2::next_state(cells),
        native::external(poseidon2::current_state(cells)),
        F::modulus(),
    );
}

/// Where the custom gate of a full round is enabled it holds exactly when the next state is a full
/// round on from this one, with the constants of the row.
pub proof fn law_full_gate<F: PrimeField>(gate: Seq<Expr<F>>, cells: expr::Cells)
    requires
        expr::has_values(gate, cells, poseidon2::full_values(cells)),
        cells.selector == 1,
    ensures
        expr::holds(gate, cells) <==> native::congruent3(
            poseidon2::next_state(cells),
            native::full_round(poseidon2::current_state(cells), poseidon2::fixed_state(cells)),
            F::modulus(),
        ),
{
    F::lemma_modulus();
    expr::lemma_holds(gate, cells, poseidon2::full_values(cells));
    lemma_differences(
        poseidon2::next_state(cells),
        native::full_round(poseidon2::current_state(cells), poseidon2::fixed_state(cells)),
        F::modulus(),
    );
}

/// The state after `n` partial rounds with the given constants.
pub open spec fn partial_rounds(
    s: native::State3,
    constants: Seq<int>,
    diagonal: native::State3,
    n: nat,
) -> native::State3
    decreases n,
{
    if n == 0 {
        s
    } else {
        native::partial_round(
            partial_rounds(s, constants, diagonal, (n - 1) as nat),
            constants[n - 1],
            diagonal,
        )
    }
}

/// Where the results of the S-boxes are right, the states between the four rounds are those
/// of partial rounds.
proof fn lemma_batched(cells: expr::Cells, two: int, n: nat, m: int)
    requires
        m > 0,
        residue::congruent(two, 2, m),
        forall|k: nat|
            k < n ==> residue::congruent(#[trigger] poseidon2::sbox_value(cells, two, k), 0, m),
    ensures
        native::congruent3(
            poseidon2::batched_state(cells, two, n),
            partial_rounds(
                poseidon2::current_state(cells),
                cells.fixed,
                poseidon2::internal_diagonal(2),
                n,
            ),
            m,
        ),
    decreases n,
{
    if n > 0 {
        let k = (n - 1) as nat;
        let s = poseidon2::current_state(cells);
        let d = poseidon2::internal_diagonal(2);
        lemma_batched(cells, two, k, m);
        let x = poseidon2::batched_state(cells, two, k);
        let y = partial_rounds(s, cells.fixed, d, k);
        let c = cells.fixed[k as int];
        assert(residue::congruent(poseidon2::sbox_value(cells, two, k), 0, m));
        residue::lemma_equal(cells.current[3 + k as int], residue::pow5(x.a + c), m);
        residue::lemma_sum(x.a, y.a, c, c, m);
        residue::lemma_pow5(x.a + c, y.a + c, m);
        native::lemma_internal(
            native::State3 { a: cells.current[3 + k as int], b: x.b, c: x.c },
            native::State3 { a: residue::pow5(y.a + c), b: y.b, c: y.c },
            poseidon2::internal_diagonal(two),
            d,
            m,
        );
    }
}

/// The element of 2 stands for a number congruent to 2.
proof fn lemma_two<F: PrimeField>()
    ensures
        F::modulus() > 0,
        residue::congruent(F::of_int(2).value(), 2, F::modulus()),
{
    F::lemma_modulus();
    F::lemma_of_int(2);
    residue::lemma_remainder(2, F::modulus());
}

/// The values of the custom gate of four partial rounds, one by one.
proof fn lemma_partial_values(cells: expr::Cells, two: int, m: int)
    requires
        m > 0,
    ensures
        all_zero(poseidon2::partial_values(cells, two), m) <==> {
            &&& forall|k: nat|
                k < 4 ==> residue::congruent(#[trigger] poseidon2::sbox_value(cells, two, k), 0, m)
            &&& native::congruent3(
                poseidon2::next_state(cells),
                poseidon2::batched_state(cells, two, 4),
                m,
            )
        },
{
    let values = poseidon2::partial_values(cells, two);
    let d = poseidon2::differences(
        poseidon2::next_state(cells),
        poseidon2::batched_state(cells, two, 4),
    );
    lemma_differences(
        poseidon2::next_state(cells),
        poseidon2::batched_state(cells, two, 4),
        m,
    );
    assert(values.len() == 7);
    assert(values[0] == poseidon2::sbox_value(cells, two, 0));
    assert(values[1] == poseidon2::sbox_value(cells, two, 1));
    assert(values[2] == poseidon2::sbox_value(cells, two, 2));
    assert(values[3] == poseidon2::sbox_value(cells, two, 3));
    assert(values[4] == d[0] && values[5] == d[1] && values[6] == d[2]);
    if all_zero(values, m) {
        assert forall|k: nat| k < 4 implies residue::congruent(
            #[trigger] poseidon2::sbox_value(cells, two, k),
            0,
            m,
        ) by {
            assert(values[k as int] == poseidon2::sbox_value(cells, two, k));
        }
        assert forall|i: int| 0 <= i < d.len() implies residue::congruent(
            #[trigger] d[i],
            0,
            m,
        ) by {
            assert(values[4 + i] == d[i]);
        }
    }
    if (forall|k: nat|
        k < 4 ==> residue::congruent(#[trigger] poseidon2::sbox_value(cells, two, k), 0, m))
        && all_zero(d, m) {
        assert forall|i: int| 0 <= i < values.len() implies residue::congruent(
            #[trigger] values[i],
            0,
            m,
        ) by {
            if i < 4 {
                assert(values[i] == poseidon2::sbox_value(cells, two, i as nat));
            } else {
                assert(values[i] == d[i - 4]);
            }
        }
    }
}

/// The result of the S-box of partial round `n` of several, with the given constants.
pub open spec fn partial_sbox(
    s: native::State3,
    constants: Seq<int>,
    diagonal: native::State3,
    n: nat,
) -> int {
    residue::pow5(partial_rounds(s, constants, diagonal, n).a + constants[n as int])
}

/// Where the custom gate of four partial rounds is enabled it holds exactly when the S-box
/// cells have the results of the S-boxes of four partial rounds from this state, and the next
/// state is the one after these rounds, with the constants of the row.
pub proof fn law_partial_gate<F: PrimeField>(gate: Seq<Expr<F>>, cells: expr::Cells)
    requires
        expr::has_values(gate, cells, poseidon2::partial_values(cells, F::of_int(2).value())),
        cells.selector == 1,
    ensures
        expr::holds(gate, cells) <==> {
            &&& forall|k: nat|
                k < 4 ==> residue::congruent(
                    cells.current[3 + k as int],
                    #[trigger] partial_sbox(
                        poseidon2::current_state(cells),
                        cells.fixed,
                        poseidon2::internal_diagonal(2),
                        k,
                    ),
                    F::modulus(),
                )
            &&& native::congruent3(
                poseidon2::next_state(cells),
                partial_rounds(
                    poseidon2::current_state(cells),
                    cells.fixed,
                    poseidon2::internal_diagonal(2),
                    4,
                ),
                F::modulus(),
            )
        },
{
    let two = F::of_int(2).value();
    let m = F::modulus();
    let s = poseidon2::current_state(cells);
    let d = poseidon2::internal_diagonal(2);
    lemma_two::<F>();
    expr::lemma_holds(gate, cells, poseidon2::partial_values(cells, two));
    lemma_partial_values(cells, two, m);
    if expr::holds(gate, cells) {
        lemma_batched(cells, two, 4, m);
        assert forall|k: nat| k < 4 implies residue::congruent(
            cells.current[3 + k as int],
            #[trigger] partial_sbox(s, cells.fixed, d, k),
            m,
        ) by {
            assert(residue::congruent(poseidon2::sbox_value(cells, two, k), 0, m));
            lemma_batched(cells, two, k, m);
            lemma_sbox_value(cells, two, k, m);
        }
    }
    if forall|k: nat|
        k < 4 ==> residue::congruent(
            cells.current[3 + k as int],
            #[trigger] partial_sbox(s, cells.fixed, d, k),
            m,
        ) {
        lemma_sboxes_right(cells, two, 4, m);
        lemma_batched(cells, two, 4, m);
    }
}

/// Where the state before an S-box is that of the rounds, its cell is right exactly when it
/// has the result of the S-box of the round.
proof fn lemma_sbox_value(cells: expr::Cells, two: int, k: nat, m: int)
    requires
        m > 0,
        native::congruent3(
            poseidon2::batched_state(cells, two, k),
            partial_rounds(
                poseidon2::current_state(cells),
                cells.fixed,
                poseidon2::internal_diagonal(2),
                k,
            ),
            m,
        ),
    ensures
        residue::congruent(poseidon2::sbox_value(cells, two, k), 0, m) <==> residue::congruent(
            cells.current[3 + k as int],
            partial_sbox(
                poseidon2::current_state(cells),
                cells.fixed,
                poseidon2::internal_diagonal(2),
                k,
            ),
            m,
        ),
{
    let x = poseidon2::batched_state(cells, two, k);
    let y = partial_rounds(
        poseidon2::current_state(cells),
        cells.fixed,
        poseidon2::internal_diagonal(2),
        k,
    );
    let c = cells.fixed[k as int];
    residue::lemma_equal(cells.current[3 + k as int], residue::pow5(x.a + c), m);
    residue::lemma_sum(x.a, y.a, c, c, m);
    residue::lemma_pow5(x.a + c, y.a + c, m);
}

/// Where the S-box cells have the results of the rounds, the values of their polynomials are
/// zero.
proof fn lemma_sboxes_right(cells: expr::Cells, two: int, n: nat, m: int)
    requires
        m > 0,
        residue::congruent(two, 2, m),
        forall|k: nat|
            k < n ==> residue::congruent(
                cells.current[3 + k as int],
                #[trigger] partial_sbox(
                    poseidon2::current_state(cells),
                    cells.fixed,
                    poseidon2::internal_diagonal(2),
                    k,
                ),
                m,
            ),
    ensures
        forall|k: nat|
            k < n ==> residue::congruent(#[trigger] poseidon2::sbox_value(cells, two, k), 0, m),
    decreases n,
{
    if n > 0 {
        let k = (n - 1) as nat;
        lemma_sboxes_right(cells, two, k, m);
        lemma_batched(cells, two, k, m);
        lemma_sbox_value(cells, two, k, m);
        assert(residue::congruent(
            cells.current[3 + k as int],
            partial_sbox(
                poseidon2::current_state(cells),
                cells.fixed,
                poseidon2::internal_diagonal(2),
                k,
            ),
            m,
        ));
    }
}

/// The cells of a row of four partial rounds with the right S-box cells and next state.
pub open spec fn right_partial_cells(s: native::State3, constants: Seq<int>) -> expr::Cells {
    let d = poseidon2::internal_diagonal(2);
    let t = partial_rounds(s, constants, d, 4);
    expr::Cells {
        selector: 1,
        fixed: constants,
        current: seq![
            s.a,
            s.b,
            s.c,
            partial_sbox(s, constants, d, 0),
            partial_sbox(s, constants, d, 1),
            partial_sbox(s, constants, d, 2),
            partial_sbox(s, constants, d, 3),
        ],
        next: seq![t.a, t.b, t.c],
    }
}

/// For every state and all constants exactly one choice of S-box cells and next state, modulo
/// the number of field elements, meets the custom gate of four partial rounds.
pub proof fn law_partial_gate_unique<F: PrimeField>(
    gate: Seq<Expr<F>>,
    s: native::State3,
    constants: Seq<int>,
    cells: expr::Cells,
)
    requires
        forall|c: expr::Cells| #[trigger]
            expr::has_values(gate, c, poseidon2::partial_values(c, F::of_int(2).value())),
        cells.selector == 1,
        cells.fixed == constants,
        poseidon2::current_state(cells) == s,
    ensures
        expr::holds(gate, right_partial_cells(s, constants)),
        expr::holds(gate, cells) <==> {
            &&& forall|i: int|
                3 <= i < 7 ==> residue::congruent(
                    #[trigger] cells.current[i],
                    right_partial_cells(s, constants).current[i],
                    F::modulus(),
                )
            &&& forall|i: int|
                0 <= i < 3 ==> residue::congruent(
                    #[trigger] cells.next[i],
                    right_partial_cells(s, constants).next[i],
                    F::modulus(),
                )
        },
{
    let d = poseidon2::internal_diagonal(2);
    let m = F::modulus();
    let right = right_partial_cells(s, constants);
    let two = F::of_int(2).value();
    assert(expr::has_values(gate, right, poseidon2::partial_values(right, two)));
    assert(expr::has_values(gate, cells, poseidon2::partial_values(cells, two)));
    law_partial_gate::<F>(gate, right);
    law_partial_gate::<F>(gate, cells);
    assert(poseidon2::current_state(right) == s);
    assert(poseidon2::next_state(right) == partial_rounds(s, constants, d, 4));
    assert forall|k: nat| k < 4 implies right.current[3 + k as int] == #[trigger] partial_sbox(
        s,
        constants,
        d,
        k,
    ) by {
        assert(k == 0 || k == 1 || k == 2 || k == 3);
    }
    if expr::holds(gate, cells) {
        assert forall|i: int| 3 <= i < 7 implies residue::congruent(
            #[trigger] cells.current[i],
            right.current[i],
            m,
        ) by {
            let k = (i - 3) as nat;
            assert(right.current[3 + k as int] == partial_sbox(s, constants, d, k));
        }
        assert forall|i: int| 0 <= i < 3 implies residue::congruent(
            #[trigger] cells.next[i],
            right.next[i],
            m,
        ) by {
            assert(i == 0 || i == 1 || i == 2);
        }
    }
    if (forall|i: int|
        3 <= i < 7 ==> residue::congruent(#[trigger] cells.current[i], right.current[i], m)) && (
    forall|i: int|
        0 <= i < 3 ==> residue::congruent(#[trigger] cells.next[i], right.next[i], m)) {
        assert forall|k: nat| k < 4 implies residue::congruent(
            cells.current[3 + k as int],
            #[trigger] partial_sbox(s, constants, d, k),
            m,
        ) by {
            assert(residue::congruent(
                cells.current[3 + k as int],
                right.current[3 + k as int],
                m,
            ));
        }
        assert(residue::congruent(cells.next[0], right.next[0], m));
        assert(residue::congruent(cells.next[1], right.next[1], m));
        assert(residue::congruent(cells.next[2], right.next[2], m));
    }
}

/// The three gates of a hash.
pub open spec fn are_gates<F: PrimeField>(
    first: Seq<Expr<F>>,
    full: Seq<Expr<F>>,
    partial: Seq<Expr<F>>,
) -> bool {
    &&& forall|cells: expr::Cells| #[trigger]
        expr::has_values(first, cells, poseidon2::first_values(cells))
    &&& forall|cells: expr::Cells| #[trigger]
        expr::has_values(full, cells, poseidon2::full_values(cells))
    &&& forall|cells: expr::Cells| #[trigger]
        expr::has_values(
            partial,
            cells,
            poseidon2::partial_values(cells, F::of_int(2).value()),
        )
}

/// The cells of a row of a hash: the state and the S-boxes of the row, the state of the next
/// row, and the constants of the row. The custom gate of the row is enabled.
pub open spec fn row_cells<F: PrimeField>(
    params: &Poseidon2Params<F>,
    states: Seq<native::State3>,
    sboxes: Seq<Seq<int>>,
    row: int,
) -> expr::Cells {
    let s = states[row];
    let t = states[row + 1];
    expr::Cells {
        selector: 1,
        fixed: poseidon2::spec_row_constants(params, row).map_values(|f: F| f.value()),
        current: seq![s.a, s.b, s.c] + sboxes[row],
        next: seq![t.a, t.b, t.c],
    }
}

/// The custom gate of a row holds.
pub open spec fn row_holds<F: PrimeField>(
    first: Seq<Expr<F>>,
    full: Seq<Expr<F>>,
    partial: Seq<Expr<F>>,
    params: &Poseidon2Params<F>,
    states: Seq<native::State3>,
    sboxes: Seq<Seq<int>>,
    row: int,
) -> bool {
    let cells = row_cells(params, states, sboxes, row);
    match poseidon2::spec_row_kind(row) {
        RowKind::First => expr::holds(first, cells),
        RowKind::Full { .. } => expr::holds(full, cells),
        RowKind::Partial { .. } => expr::holds(partial, cells),
        RowKind::Last => true,
    }
}

/// Four partial rounds of the permutation, from the constants of a row.
proof fn lemma_four_rounds<F: PrimeField>(
    params: &Poseidon2Params<F>,
    start: native::State3,
    s: native::State3,
    constants: Seq<int>,
    round: nat,
)
    requires
        4 <= round <= 56,
        native::congruent3(
            params.diagonal(),
            poseidon2::internal_diagonal(2),
            F::modulus(),
        ),
        native::congruent3(s, params.after(start, round), F::modulus()),
        forall|k: int| 0 <= k < 4 ==> #[trigger] constants[k] == params.constants()[round + k].a,
    ensures
        forall|n: nat|
            n <= 4 ==> native::congruent3(
                #[trigger] partial_rounds(s, constants, poseidon2::internal_diagonal(2), n),
                params.after(start, round + n),
                F::modulus(),
            ),
{
    let d = poseidon2::internal_diagonal(2);
    let m = F::modulus();
    F::lemma_modulus();
    lemma_one_round(params, start, s, constants, round, 0);
    lemma_one_round(params, start, s, constants, round, 1);
    lemma_one_round(params, start, s, constants, round, 2);
    lemma_one_round(params, start, s, constants, round, 3);
    assert forall|n: nat| n <= 4 implies native::congruent3(
        #[trigger] partial_rounds(s, constants, d, n),
        params.after(start, round + n),
        m,
    ) by {
        assert(n == 0 || n == 1 || n == 2 || n == 3 || n == 4);
    }
}

proof fn lemma_one_round<F: PrimeField>(
    params: &Poseidon2Params<F>,
    start: native::State3,
    s: native::State3,
    constants: Seq<int>,
    round: nat,
    n: nat,
)
    requires
        4 <= round <= 56,
        n < 4,
        native::congruent3(
            params.diagonal(),
            poseidon2::internal_diagonal(2),
            F::modulus(),
        ),
        native::congruent3(
            partial_rounds(s, constants, poseidon2::internal_diagonal(2), n),
            params.after(start, round + n),
            F::modulus(),
        ),
        forall|k: int| 0 <= k < 4 ==> #[trigger] constants[k] == params.constants()[round + k].a,
    ensures
        native::congruent3(
            partial_rounds(s, constants, poseidon2::internal_diagonal(2), n + 1),
            params.after(start, round + n + 1),
            F::modulus(),
        ),
{
    let d = poseidon2::internal_diagonal(2);
    F::lemma_modulus();
    assert(constants[n as int] == params.constants()[round + n as int].a);
    native::lemma_partial_round(
        partial_rounds(s, constants, d, n),
        params.after(start, round + n),
        constants[n as int],
        constants[n as int],
        d,
        params.diagonal(),
        F::modulus(),
    );
}

/// The constants in the cells of a row are those of its rounds.
proof fn lemma_row_constants<F: PrimeField>(
    params: &Poseidon2Params<F>,
    states: Seq<native::State3>,
    sboxes: Seq<Seq<int>>,
    row: int,
)
    requires
        0 <= row < 23,
    ensures
        poseidon2::spec_row_kind(row) is Full ==> poseidon2::fixed_state(
            row_cells(params, states, sboxes, row),
        ) == params.constants()[poseidon2::rounds_before(row)],
        poseidon2::spec_row_kind(row) is Partial ==> forall|k: int|
            0 <= k < 4 ==> #[trigger] row_cells(params, states, sboxes, row).fixed[k]
                == params.constants()[poseidon2::rounds_before(row) + k].a,
{
    let cells = row_cells(params, states, sboxes, row);
    let constants = poseidon2::spec_row_constants(params, row);
    let round = poseidon2::rounds_before(row);
    if poseidon2::spec_row_kind(row) is Full {
        assert(constants.len() == 3);
        assert(cells.fixed[0] == constants[0].value());
        assert(cells.fixed[1] == constants[1].value());
        assert(cells.fixed[2] == constants[2].value());
    }
    if poseidon2::spec_row_kind(row) is Partial {
        assert forall|k: int| 0 <= k < 4 implies #[trigger] cells.fixed[k]
            == params.constants()[round + k].a by {
            assert(cells.fixed[k] == constants[k].value());
            assert(k == 0 || k == 1 || k == 2 || k == 3);
        }
    }
}

/// Up to any row, the gates force the states to be those of the permutation.
proof fn lemma_rows_sound<F: PrimeField>(
    first: Seq<Expr<F>>,
    full: Seq<Expr<F>>,
    partial: Seq<Expr<F>>,
    params: &Poseidon2Params<F>,
    states: Seq<native::State3>,
    sboxes: Seq<Seq<int>>,
    row: int,
)
    requires
        are_gates(first, full, partial),
        native::congruent3(
            params.diagonal(),
            poseidon2::internal_diagonal(2),
            F::modulus(),
        ),
        1 <= row < 24,
        forall|r: int|
            0 <= r < 23 ==> #[trigger] row_holds(first, full, partial, params, states, sboxes, r),
    ensures
        native::congruent3(
            states[row],
            params.after(states[0], poseidon2::rounds_before(row) as nat),
            F::modulus(),
        ),
    decreases row,
{
    let m = F::modulus();
    let below = row - 1;
    let cells = row_cells(params, states, sboxes, below);
    F::lemma_modulus();
    assert(row_holds(first, full, partial, params, states, sboxes, below));
    assert(poseidon2::next_state(cells) == states[row]);
    assert(poseidon2::current_state(cells) == states[below]);
    if below == 0 {
        assert(expr::has_values(first, cells, poseidon2::first_values(cells)));
        law_first_gate::<F>(first, cells);
    } else {
        let round = poseidon2::rounds_before(below) as nat;
        let before = params.after(states[0], round);
        lemma_rows_sound(first, full, partial, params, states, sboxes, below);
        lemma_row_constants(params, states, sboxes, below);
        if poseidon2::spec_row_kind(below) is Full {
            let c = params.constants()[round as int];
            assert(expr::has_values(full, cells, poseidon2::full_values(cells)));
            law_full_gate::<F>(full, cells);
            native::lemma_full_round(states[below], before, c, c, m);
            assert(poseidon2::rounds_before(row) == round + 1);
        } else {
            assert(expr::has_values(
                partial,
                cells,
                poseidon2::partial_values(cells, F::of_int(2).value()),
            ));
            law_partial_gate::<F>(partial, cells);
            lemma_four_rounds(params, states[0], states[below], cells.fixed, round);
            assert(poseidon2::rounds_before(row) == round + 4);
            assert(native::congruent3(
                partial_rounds(
                    states[below],
                    cells.fixed,
                    poseidon2::internal_diagonal(2),
                    4,
                ),
                params.after(states[0], round + 4),
                m,
            ));
        }
    }
}

/// Whatever is put in the cells: where all gates of a hash hold, the state of the last row is
/// the permutation of the state of the first row.
pub proof fn law_rows_sound<F: PrimeField>(
    first: Seq<Expr<F>>,
    full: Seq<Expr<F>>,
    partial: Seq<Expr<F>>,
    params: &Poseidon2Params<F>,
    states: Seq<native::State3>,
    sboxes: Seq<Seq<int>>,
)
    requires
        are_gates(first, full, partial),
        native::congruent3(
            params.diagonal(),
            poseidon2::internal_diagonal(2),
            F::modulus(),
        ),
        forall|row: int|
            0 <= row < 23 ==> #[trigger] row_holds(
                first,
                full,
                partial,
                params,
                states,
                sboxes,
                row,
            ),
    ensures
        native::congruent3(states[23], params.after(states[0], 64), F::modulus()),
{
    lemma_rows_sound(first, full, partial, params, states, sboxes, 23);
}

/// The digest of two words is the first word of the permutation of the words and the
/// number 2.
pub proof fn law_digest_of_two<F: PrimeField>(params: &Poseidon2Params<F>, a: int, b: int)
    ensures
        native::digest(params.constants(), params.diagonal(), seq![a, b]) == params.after(
            native::State3 { a, b, c: 2 },
            64,
        ).a,
{
    let message = seq![a, b];
    let start = native::State3 { a: 0, b: 0, c: 2 };
    assert(native::absorbed(start, message) == native::State3 { a, b, c: 2 });
    assert(message.skip(2) =~= Seq::<int>::empty());
    let after = params.after(native::State3 { a, b, c: 2 }, 64);
    assert(native::sponge(params.constants(), params.diagonal(), after, Seq::<int>::empty())
        == after);
}

/// The states of the rows of a trace as integers.
pub open spec fn trace_states<F: PrimeField>(states: Seq<[F; 3]>) -> Seq<native::State3> {
    states.map_values(|st: [F; 3]| native::values3(st@))
}

/// The S-boxes of the rows of a trace as integers: four in a row of partial rounds.
pub open spec fn trace_sboxes<F: PrimeField>(sboxes: Seq<F>) -> Seq<Seq<int>> {
    Seq::new(
        24,
        |row: int|
            match poseidon2::spec_row_kind(row) {
                RowKind::Partial { sbox, .. } => seq![
                    sboxes[sbox as int].value(),
                    sboxes[sbox + 1].value(),
                    sboxes[sbox + 2].value(),
                    sboxes[sbox + 3].value(),
                ],
                _ => Seq::empty(),
            },
    )
}

/// The state of a row of a trace is congruent to that of the permutation.
proof fn lemma_trace_state<F: PrimeField>(
    params: &Poseidon2Params<F>,
    states: Seq<[F; 3]>,
    row: int,
)
    requires
        poseidon2::are_states(params, states),
        states.len() == 24,
        1 <= row < 24,
    ensures
        native::congruent3(
            trace_states(states)[row],
            params.after(
                native::values3(states[0]@),
                poseidon2::rounds_before(row) as nat,
            ),
            F::modulus(),
        ),
        trace_states(states)[0] == native::values3(states[0]@),
{
    native::lemma_values3::<F>(
        states[row]@,
        params.after(native::values3(states[0]@), poseidon2::rounds_before(row) as nat),
    );
}

/// The trace of a permutation meets the gates of all its rows.
pub proof fn law_trace_meets_gates<F: PrimeField>(
    first: Seq<Expr<F>>,
    full: Seq<Expr<F>>,
    partial: Seq<Expr<F>>,
    params: &Poseidon2Params<F>,
    states: Seq<[F; 3]>,
    sboxes: Seq<F>,
    row: int,
)
    requires
        are_gates(first, full, partial),
        native::congruent3(
            params.diagonal(),
            poseidon2::internal_diagonal(2),
            F::modulus(),
        ),
        poseidon2::is_trace(params, states, sboxes),
        0 <= row < 23,
    ensures
        row_holds(
            first,
            full,
            partial,
            params,
            trace_states(states),
            trace_sboxes(sboxes),
            row,
        ),
{
    let m = F::modulus();
    let all = trace_states(states);
    let boxes = trace_sboxes(sboxes);
    let cells = row_cells(params, all, boxes, row);
    let start = native::values3(states[0]@);
    F::lemma_modulus();
    assert(poseidon2::next_state(cells) == all[row + 1]);
    assert(poseidon2::current_state(cells) == all[row]);
    lemma_trace_state(params, states, row + 1);
    if row == 0 {
        assert(expr::has_values(first, cells, poseidon2::first_values(cells)));
        law_first_gate::<F>(first, cells);
    } else {
        let round = poseidon2::rounds_before(row) as nat;
        let before = params.after(start, round);
        lemma_trace_state(params, states, row);
        lemma_row_constants(params, all, boxes, row);
        if poseidon2::spec_row_kind(row) is Full {
            let c = params.constants()[round as int];
            assert(expr::has_values(full, cells, poseidon2::full_values(cells)));
            law_full_gate::<F>(full, cells);
            native::lemma_full_round(all[row], before, c, c, m);
            assert(poseidon2::rounds_before(row + 1) == round + 1);
        } else {
            let d = poseidon2::internal_diagonal(2);
            assert(expr::has_values(
                partial,
                cells,
                poseidon2::partial_values(cells, F::of_int(2).value()),
            ));
            lemma_four_rounds(params, start, all[row], cells.fixed, round);
            assert forall|k: nat| k < 4 implies residue::congruent(
                cells.current[3 + k as int],
                #[trigger] partial_sbox(all[row], cells.fixed, d, k),
                m,
            ) by {
                lemma_trace_sbox(params, states, sboxes, row, k);
            }
            assert(native::congruent3(
                partial_rounds(all[row], cells.fixed, d, 4),
                params.after(start, round + 4),
                m,
            ));
            assert(poseidon2::rounds_before(row + 1) == round + 4);
            law_partial_gate::<F>(partial, cells);
        }
    }
}

/// An S-box in a row of a trace has the right result.
proof fn lemma_trace_sbox<F: PrimeField>(
    params: &Poseidon2Params<F>,
    states: Seq<[F; 3]>,
    sboxes: Seq<F>,
    row: int,
    k: nat,
)
    requires
        k < 4,
        5 <= row < 19,
        poseidon2::is_trace(params, states, sboxes),
        native::congruent3(
            partial_rounds(
                trace_states(states)[row],
                row_cells(params, trace_states(states), trace_sboxes(sboxes), row).fixed,
                poseidon2::internal_diagonal(2),
                k,
            ),
            params.after(
                native::values3(states[0]@),
                (poseidon2::rounds_before(row) + k) as nat,
            ),
            F::modulus(),
        ),
    ensures
        residue::congruent(
            row_cells(params, trace_states(states), trace_sboxes(sboxes), row).current[3
                + k as int],
            partial_sbox(
                trace_states(states)[row],
                row_cells(params, trace_states(states), trace_sboxes(sboxes), row).fixed,
                poseidon2::internal_diagonal(2),
                k,
            ),
            F::modulus(),
        ),
{
    let m = F::modulus();
    let all = trace_states(states);
    let boxes = trace_sboxes(sboxes);
    let cells = row_cells(params, all, boxes, row);
    let start = native::values3(states[0]@);
    let round = poseidon2::rounds_before(row);
    let place = round - 4 + k;
    F::lemma_modulus();
    lemma_row_constants(params, all, boxes, row);
    let x = partial_rounds(all[row], cells.fixed, poseidon2::internal_diagonal(2), k);
    let y = params.after(start, (round + k) as nat);
    let c = params.constants()[round + k as int].a;
    assert(cells.fixed[k as int] == c);
    let box_value = residue::pow5(y.a + c);
    assert(sboxes[place] == F::of_int(box_value)) by {
        assert(4 + place == round + k);
    }
    F::lemma_of_int(box_value);
    residue::lemma_remainder(box_value, m);
    assert(k == 0 || k == 1 || k == 2 || k == 3);
    assert(boxes[row][k as int] == sboxes[place].value());
    assert(cells.current[3 + k as int] == boxes[row][k as int]);
    residue::lemma_sum(x.a, y.a, c, c, m);
    residue::lemma_pow5(x.a + c, y.a + c, m);
}

/// The last row of the trace of the permutation of two elements and the number 2 holds the
/// digest of the elements.
pub proof fn law_trace_digest<F: PrimeField>(
    params: &Poseidon2Params<F>,
    a: F,
    b: F,
    states: Seq<[F; 3]>,
)
    requires
        states.len() == 24,
        poseidon2::are_states(params, states),
        states[0]@ == seq![a, b, F::of_int(2)],
    ensures
        states[23]@[0] == F::of_int(
            native::digest(
                params.constants(),
                params.diagonal(),
                seq![a.value(), b.value()],
            ),
        ),
{
    let start = native::values3(states[0]@);
    let plain = native::State3 { a: a.value(), b: b.value(), c: 2 };
    lemma_two::<F>();
    law_digest_of_two(params, a.value(), b.value());
    assert(native::is_state(states[23]@, params.after(start, 64)));
    native::lemma_after_rounds(
        params.constants(),
        params.diagonal(),
        start,
        plain,
        64,
        F::modulus(),
    );
    crate::field::lemma_congruent::<F>(params.after(start, 64).a, params.after(plain, 64).a);
}

/// Where the absorbing gate is enabled it holds exactly when the next state is this one with
/// the two words of the message added.
pub proof fn law_absorb_gate<F: PrimeField>(gate: Seq<Expr<F>>, cells: expr::Cells)
    requires
        expr::has_values(gate, cells, poseidon2::absorb_values(cells)),
        cells.selector == 1,
    ensures
        expr::holds(gate, cells) <==> native::congruent3(
            poseidon2::next_state(cells),
            poseidon2::absorbing_state(cells),
            F::modulus(),
        ),
{
    F::lemma_modulus();
    expr::lemma_holds(gate, cells, poseidon2::absorb_values(cells));
    lemma_differences(
        poseidon2::next_state(cells),
        poseidon2::absorbing_state(cells),
        F::modulus(),
    );
}

/// What is in the cells of the rows of one permutation of a hash.
pub struct Block {
    /// The states of the rows.
    pub states: Seq<native::State3>,
    /// The S-boxes of the rows.
    pub sboxes: Seq<Seq<int>>,
}

/// The cells of the row between two permutations: the last state of the one, two words of
/// the message, and the first state of the other.
pub open spec fn absorb_cells(before: Block, after: Block, words: (int, int)) -> expr::Cells {
    let s = before.states[23];
    let t = after.states[0];
    expr::Cells {
        selector: 1,
        fixed: Seq::empty(),
        current: seq![s.a, s.b, s.c, words.0, words.1],
        next: seq![t.a, t.b, t.c],
    }
}

/// All gates of the first `n` permutations of a hash hold, and the first state is made of the
/// first two words of the message and its length.
pub open spec fn blocks_hold<F: PrimeField>(
    first: Seq<Expr<F>>,
    full: Seq<Expr<F>>,
    partial: Seq<Expr<F>>,
    absorb: Seq<Expr<F>>,
    params: &Poseidon2Params<F>,
    message: Seq<int>,
    blocks: Seq<Block>,
    n: int,
) -> bool {
    &&& native::congruent3(
        blocks[0].states[0],
        native::State3 {
            a: poseidon2::message_words(message, 0).0,
            b: poseidon2::message_words(message, 0).1,
            c: message.len() as int,
        },
        F::modulus(),
    )
    &&& forall|k: int, row: int|
        0 <= k < n && 0 <= row < 23 ==> #[trigger] row_holds(
            first,
            full,
            partial,
            params,
            blocks[k].states,
            blocks[k].sboxes,
            row,
        )
    &&& forall|k: int|
        1 <= k < n ==> expr::holds(
            absorb,
            #[trigger] absorb_cells(
                blocks[k - 1],
                blocks[k],
                poseidon2::message_words(message, k),
            ),
        )
}

/// The last state of every permutation of a hash is the one of the model.
proof fn lemma_blocks_sound<F: PrimeField>(
    first: Seq<Expr<F>>,
    full: Seq<Expr<F>>,
    partial: Seq<Expr<F>>,
    absorb: Seq<Expr<F>>,
    params: &Poseidon2Params<F>,
    message: Seq<int>,
    blocks: Seq<Block>,
    n: int,
    k: nat,
)
    requires
        are_gates(first, full, partial),
        forall|cells: expr::Cells| #[trigger]
            expr::has_values(absorb, cells, poseidon2::absorb_values(cells)),
        native::congruent3(
            params.diagonal(),
            poseidon2::internal_diagonal(2),
            F::modulus(),
        ),
        blocks_hold(first, full, partial, absorb, params, message, blocks, n),
        k < n,
    ensures
        native::congruent3(
            blocks[k as int].states[23],
            poseidon2::state_before(params, message, k + 1),
            F::modulus(),
        ),
    decreases k,
{
    let m = F::modulus();
    let block = blocks[k as int];
    let start = poseidon2::with_words(
        poseidon2::state_before(params, message, k),
        message,
        k as int,
    );
    F::lemma_modulus();
    if k > 0 {
        let below = (k - 1) as nat;
        let words = poseidon2::message_words(message, k as int);
        let cells = absorb_cells(blocks[below as int], block, words);
        lemma_blocks_sound(
            first,
            full,
            partial,
            absorb,
            params,
            message,
            blocks,
            n,
            below,
        );
        assert(expr::holds(absorb, absorb_cells(blocks[k - 1], blocks[k as int], words)));
        assert(expr::has_values(absorb, cells, poseidon2::absorb_values(cells)));
        law_absorb_gate::<F>(absorb, cells);
        assert(poseidon2::next_state(cells) == block.states[0]);
        let s = blocks[below as int].states[23];
        let t = poseidon2::state_before(params, message, k);
        residue::lemma_sum(s.a, t.a, words.0, words.0, m);
        residue::lemma_sum(s.b, t.b, words.1, words.1, m);
    }
    assert(native::congruent3(block.states[0], start, m));
    assert forall|row: int| 0 <= row < 23 implies #[trigger] row_holds(
        first,
        full,
        partial,
        params,
        block.states,
        block.sboxes,
        row,
    ) by {
        assert(row_holds(
            first,
            full,
            partial,
            params,
            blocks[k as int].states,
            blocks[k as int].sboxes,
            row,
        ));
    }
    law_rows_sound(first, full, partial, params, block.states, block.sboxes);
    native::lemma_after_rounds(
        params.constants(),
        params.diagonal(),
        block.states[0],
        start,
        64,
        m,
    );
}

/// Whatever is put in the cells of a hash of any number of words: where all gates hold, the
/// last state of the last permutation starts with the digest of the message.
pub proof fn law_hash_sound<F: PrimeField>(
    first: Seq<Expr<F>>,
    full: Seq<Expr<F>>,
    partial: Seq<Expr<F>>,
    absorb: Seq<Expr<F>>,
    params: &Poseidon2Params<F>,
    message: Seq<int>,
    blocks: Seq<Block>,
)
    requires
        message.len() > 0,
        are_gates(first, full, partial),
        forall|cells: expr::Cells| #[trigger]
            expr::has_values(absorb, cells, poseidon2::absorb_values(cells)),
        native::congruent3(
            params.diagonal(),
            poseidon2::internal_diagonal(2),
            F::modulus(),
        ),
        blocks.len() == poseidon2::permutations(message.len() as int),
        blocks_hold(
            first,
            full,
            partial,
            absorb,
            params,
            message,
            blocks,
            blocks.len() as int,
        ),
    ensures
        residue::congruent(
            blocks[blocks.len() - 1].states[23].a,
            native::digest(params.constants(), params.diagonal(), message),
            F::modulus(),
        ),
{
    let n = blocks.len();
    lemma_blocks_sound(
        first,
        full,
        partial,
        absorb,
        params,
        message,
        blocks,
        n as int,
        (n - 1) as nat,
    );
    poseidon2::lemma_state_before(params, message, n);
    assert(poseidon2::message_rest(message, n as int) == Seq::<int>::empty());
}

/// The rows of the traces of a hash as blocks of cells.
pub open spec fn trace_block<F: PrimeField>(trace: (Vec<[F; 3]>, Vec<F>)) -> Block {
    Block { states: trace_states(trace.0@), sboxes: trace_sboxes(trace.1@) }
}

/// The traces of a hash of any number of elements meet all gates.
pub proof fn law_hash_trace_meets_gates<F: PrimeField>(
    first: Seq<Expr<F>>,
    full: Seq<Expr<F>>,
    partial: Seq<Expr<F>>,
    absorb: Seq<Expr<F>>,
    params: &Poseidon2Params<F>,
    inputs: Seq<F>,
    traces: Seq<(Vec<[F; 3]>, Vec<F>)>,
)
    requires
        inputs.len() > 0,
        are_gates(first, full, partial),
        forall|cells: expr::Cells| #[trigger]
            expr::has_values(absorb, cells, poseidon2::absorb_values(cells)),
        native::congruent3(
            params.diagonal(),
            poseidon2::internal_diagonal(2),
            F::modulus(),
        ),
        poseidon2::are_hash_traces(params, inputs, traces),
    ensures
        blocks_hold(
            first,
            full,
            partial,
            absorb,
            params,
            poseidon2::message_values(inputs),
            traces.map_values(|t: (Vec<[F; 3]>, Vec<F>)| trace_block(t)),
            traces.len() as int,
        ),
{
    let m = F::modulus();
    let message = poseidon2::message_values(inputs);
    let blocks = traces.map_values(|t: (Vec<[F; 3]>, Vec<F>)| trace_block(t));
    F::lemma_modulus();
    assert forall|k: int| 0 <= k < traces.len() implies #[trigger] blocks[k] == trace_block(
        traces[k],
    ) && is_block_trace(params, traces[k]) by {}
    F::lemma_of_int(0);
    F::lemma_of_int(inputs.len() as int);
    residue::lemma_remainder(0, m);
    residue::lemma_remainder(inputs.len() as int, m);
    assert(blocks[0].states[0] == native::values3(traces[0].0@[0]@));
    assert forall|k: int, row: int|
        0 <= k < traces.len() && 0 <= row < 23 implies #[trigger] row_holds(
        first,
        full,
        partial,
        params,
        blocks[k].states,
        blocks[k].sboxes,
        row,
    ) by {
        assert(is_block_trace(params, traces[k]));
        law_trace_meets_gates(
            first,
            full,
            partial,
            params,
            traces[k].0@,
            traces[k].1@,
            row,
        );
    }
    assert forall|k: int| 1 <= k < traces.len() implies expr::holds(
        absorb,
        #[trigger] absorb_cells(
            blocks[k - 1],
            blocks[k],
            poseidon2::message_words(message, k),
        ),
    ) by {
        let words = poseidon2::message_words(message, k);
        let cells = absorb_cells(blocks[k - 1], blocks[k], words);
        assert(is_block_trace(params, traces[k]));
        assert(is_block_trace(params, traces[k - 1]));
        let before = native::values3(traces[k - 1].0@[23]@);
        assert(expr::has_values(absorb, cells, poseidon2::absorb_values(cells)));
        native::lemma_values3::<F>(
            traces[k].0@[0]@,
            poseidon2::with_words(before, message, k),
        );
        assert(blocks[k - 1].states[23] == before);
        assert(blocks[k].states[0] == native::values3(traces[k].0@[0]@));
        assert(poseidon2::next_state(cells) == blocks[k].states[0]);
        assert(poseidon2::absorbing_state(cells) == poseidon2::with_words(before, message, k));
        law_absorb_gate::<F>(absorb, cells);
    }
}

/// A trace of a permutation, states and S-boxes together.
spec fn is_block_trace<F: PrimeField>(
    params: &Poseidon2Params<F>,
    trace: (Vec<[F; 3]>, Vec<F>),
) -> bool {
    poseidon2::is_trace(params, trace.0@, trace.1@)
}

} // verus!
