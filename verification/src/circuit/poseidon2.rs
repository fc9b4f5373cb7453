//! The rows and gates of a Poseidon2 hash.
//!
//! A hash takes 24 rows. Each row holds a state; the custom gate of the row takes it to the state
//! of the next one.
//!
//! | Rows             | Gate                                                     |
//! |------------------|----------------------------------------------------------|
//! | 0                | the first external matrix                                |
//! | 1 to 4, 19 to 22 | a full round                                             |
//! | 5 to 18          | four partial rounds                                      |
//! | 23               | none: the first word of the state is the digest          |
//!
//! That is the hash of up to two words. A longer message takes 24 rows for every two words;
//! between them, on row 23, the next two words are added to the state.
//!
//! The advice columns are the three words of the state and the results of the S-boxes of
//! four partial rounds; the fixed columns are four round constants.
use vstd::prelude::*;

use crate::circuit::expr;
use crate::circuit::expr::Expr;
use crate::field;
use crate::field::PrimeField;
use crate::poseidon2;
use crate::poseidon2::Poseidon2Params;
use crate::residue;

verus! {

/// The number of rows of a hash.
pub const ROWS: usize = 24;

/// The state of the row.
pub open spec fn current_state(cells: expr::Cells) -> poseidon2::State3 {
    poseidon2::State3 { a: cells.current[0], b: cells.current[1], c: cells.current[2] }
}

/// The state of the next row.
pub open spec fn next_state(cells: expr::Cells) -> poseidon2::State3 {
    poseidon2::State3 { a: cells.next[0], b: cells.next[1], c: cells.next[2] }
}

/// The round constants of the row as those of a full round.
pub open spec fn fixed_state(cells: expr::Cells) -> poseidon2::State3 {
    poseidon2::State3 { a: cells.fixed[0], b: cells.fixed[1], c: cells.fixed[2] }
}

/// The words of one state less those of another.
pub open spec fn differences(s: poseidon2::State3, t: poseidon2::State3) -> Seq<int> {
    seq![s.a - t.a, s.b - t.b, s.c - t.c]
}

/// The next state is the external matrix applied to this one.
pub open spec fn first_values(cells: expr::Cells) -> Seq<int> {
    differences(next_state(cells), poseidon2::external(current_state(cells)))
}

/// The next state is a full round on from this one.
pub open spec fn full_values(cells: expr::Cells) -> Seq<int> {
    differences(
        next_state(cells),
        poseidon2::full_round(current_state(cells), fixed_state(cells)),
    )
}

/// The diagonal of the internal matrix less one, where `two` stands for 2.
pub open spec fn internal_diagonal(two: int) -> poseidon2::State3 {
    poseidon2::State3 { a: 1, b: 1, c: two }
}

/// The state after `n` of the four partial rounds of a row, where the S-boxes have the
/// results in the cells.
pub open spec fn batched_state(cells: expr::Cells, two: int, n: nat) -> poseidon2::State3
    decreases n,
{
    if n == 0 {
        current_state(cells)
    } else {
        let before = batched_state(cells, two, (n - 1) as nat);
        poseidon2::internal(
            poseidon2::State3 { a: cells.current[3 + (n - 1)], b: before.b, c: before.c },
            internal_diagonal(two),
        )
    }
}

/// The results of the S-boxes are right, and the next state is four partial rounds on from
/// this one.
pub open spec fn partial_values(cells: expr::Cells, two: int) -> Seq<int> {
    seq![
        sbox_value(cells, two, 0),
        sbox_value(cells, two, 1),
        sbox_value(cells, two, 2),
        sbox_value(cells, two, 3),
    ] + differences(next_state(cells), batched_state(cells, two, 4))
}

/// The result of an S-box in the cells less the right one.
pub open spec fn sbox_value(cells: expr::Cells, two: int, n: nat) -> int {
    let before = batched_state(cells, two, n);
    cells.current[3 + n as int] - residue::pow5(before.a + cells.fixed[n as int])
}

/// The polynomials that say that the next state has the given words.
fn next_is<F: PrimeField>(a: Expr<F>, b: Expr<F>, c: Expr<F>) -> (r: (Expr<F>, Expr<F>, Expr<F>))
    ensures
        forall|cells: expr::Cells| #[trigger]
            r.0.eval(cells) == cells.selector * (cells.next[0] - a.eval(cells)),
        forall|cells: expr::Cells| #[trigger]
            r.1.eval(cells) == cells.selector * (cells.next[1] - b.eval(cells)),
        forall|cells: expr::Cells| #[trigger]
            r.2.eval(cells) == cells.selector * (cells.next[2] - c.eval(cells)),
        a.degree() >= 1 ==> r.0.degree() == 1 + a.degree(),
        b.degree() >= 1 ==> r.1.degree() == 1 + b.degree(),
        c.degree() >= 1 ==> r.2.degree() == 1 + c.degree(),
{
    (
        Expr::next(0).minus(a).selected(),
        Expr::next(1).minus(b).selected(),
        Expr::next(2).minus(c).selected(),
    )
}

/// The custom gate of the first external matrix.
pub fn first_gate<F: PrimeField>() -> (r: Vec<Expr<F>>)
    ensures
        forall|cells: expr::Cells| #[trigger] expr::has_values(r@, cells, first_values(cells)),
        forall|i: int| 0 <= i < 3 ==> (#[trigger] r@[i]).degree() == 2,
{
    let a = Expr::<F>::current(0);
    let b = Expr::<F>::current(1);
    let c = Expr::<F>::current(2);
    let sum = a.clone().plus(b.clone()).plus(c.clone());
    let (x, y, z) = next_is(a.plus(sum.clone()), b.plus(sum.clone()), c.plus(sum));
    let r = vec![x, y, z];
    assert forall|cells: expr::Cells| #[trigger]
        expr::has_values(r@, cells, first_values(cells)) by {
        lemma_three_values(r@, cells, first_values(cells));
    }
    r
}

/// A gate of three polynomials has the values that they have.
proof fn lemma_three_values<F: PrimeField>(
    gate: Seq<Expr<F>>,
    cells: expr::Cells,
    values: Seq<int>,
)
    requires
        gate.len() == 3,
        values.len() == 3,
        gate[0].eval(cells) == cells.selector * values[0],
        gate[1].eval(cells) == cells.selector * values[1],
        gate[2].eval(cells) == cells.selector * values[2],
    ensures
        expr::has_values(gate, cells, values),
{
    assert forall|i: int| 0 <= i < 3 implies (#[trigger] gate[i]).eval(cells) == cells.selector
        * values[i] by {
        assert(i == 0 || i == 1 || i == 2);
    }
}

/// The custom gate of a full round.
pub fn full_gate<F: PrimeField>() -> (r: Vec<Expr<F>>)
    ensures
        forall|cells: expr::Cells| #[trigger] expr::has_values(r@, cells, full_values(cells)),
        forall|i: int| 0 <= i < 3 ==> (#[trigger] r@[i]).degree() == 6,
{
    let a = Expr::<F>::current(0);
    let b = Expr::<F>::current(1);
    let c = Expr::<F>::current(2);
    let sa = a.plus(Expr::fixed(0)).pow5();
    let sb = b.plus(Expr::fixed(1)).pow5();
    let sc = c.plus(Expr::fixed(2)).pow5();
    let sum = sa.clone().plus(sb.clone()).plus(sc.clone());
    let (x, y, z) = next_is(sa.plus(sum.clone()), sb.plus(sum.clone()), sc.plus(sum));
    let r = vec![x, y, z];
    assert forall|cells: expr::Cells| #[trigger]
        expr::has_values(r@, cells, full_values(cells)) by {
        lemma_three_values(r@, cells, full_values(cells));
    }
    r
}

/// The state after two more words of the message, in the first two S-box cells, have been
/// added.
pub open spec fn absorbing_state(cells: expr::Cells) -> poseidon2::State3 {
    poseidon2::State3 {
        a: cells.current[0] + cells.current[3],
        b: cells.current[1] + cells.current[4],
        c: cells.current[2],
    }
}

/// The next state is this one with two more words of the message added.
pub open spec fn absorb_values(cells: expr::Cells) -> Seq<int> {
    differences(next_state(cells), absorbing_state(cells))
}

/// The custom gate between two permutations, which takes in two more words of the message.
pub fn absorb_gate<F: PrimeField>() -> (r: Vec<Expr<F>>)
    ensures
        forall|cells: expr::Cells| #[trigger] expr::has_values(r@, cells, absorb_values(cells)),
        forall|i: int| 0 <= i < 3 ==> (#[trigger] r@[i]).degree() == 2,
{
    let a = Expr::<F>::current(0).plus(Expr::current(3));
    let b = Expr::<F>::current(1).plus(Expr::current(4));
    let c = Expr::<F>::current(2);
    let (x, y, z) = next_is(a, b, c);
    let r = vec![x, y, z];
    assert forall|cells: expr::Cells| #[trigger]
        expr::has_values(r@, cells, absorb_values(cells)) by {
        lemma_three_values(r@, cells, absorb_values(cells));
    }
    r
}

/// The custom gate of four partial rounds.
pub fn partial_gate<F: PrimeField>() -> (r: Vec<Expr<F>>)
    ensures
        forall|cells: expr::Cells| #[trigger]
            expr::has_values(r@, cells, partial_values(cells, F::of_int(2).value())),
        forall|i: int| 0 <= i < 4 ==> (#[trigger] r@[i]).degree() == 6,
        forall|i: int| 4 <= i < 7 ==> (#[trigger] r@[i]).degree() == 2,
{
    let ghost two_value = F::of_int(2).value();
    let two: Expr<F> = Expr::Constant(F::from_u64(2));
    assert(forall|cells: expr::Cells| #[trigger] two.eval(cells) == two_value);
    assert(two.degree() == 0);
    let mut a = Expr::<F>::current(0);
    let mut b = Expr::<F>::current(1);
    let mut c = Expr::<F>::current(2);
    let mut constraints: Vec<Expr<F>> = Vec::new();
    for i in 0..4usize
        invariant
            forall|cells: expr::Cells| #[trigger] two.eval(cells) == two_value,
            two.degree() == 0,
            a.degree() == 1,
            b.degree() == 1,
            c.degree() == 1,
            forall|k: int| 0 <= k < i ==> (#[trigger] constraints@[k]).degree() == 6,
            forall|cells: expr::Cells| #[trigger]
                a.eval(cells) == batched_state(cells, two_value, i as nat).a,
            forall|cells: expr::Cells| #[trigger]
                b.eval(cells) == batched_state(cells, two_value, i as nat).b,
            forall|cells: expr::Cells| #[trigger]
                c.eval(cells) == batched_state(cells, two_value, i as nat).c,
            constraints@.len() == i,
            forall|cells: expr::Cells, k: int|
                0 <= k < i ==> (#[trigger] constraints@[k].eval(cells)) == cells.selector
                    * sbox_value(cells, two_value, k as nat),
    {
        let psb = Expr::<F>::current(3 + i);
        let sbox = psb.clone().minus(a.plus(Expr::fixed(i)).pow5()).selected();
        constraints.push(sbox);
        let sum = psb.clone().plus(b.clone()).plus(c.clone());
        a = psb.plus(sum.clone());
        b = b.plus(sum.clone());
        c = c.times(two.clone()).plus(sum);
    }
    let (x, y, z) = next_is(a, b, c);
    constraints.push(x);
    constraints.push(y);
    constraints.push(z);
    assert forall|cells: expr::Cells| #[trigger]
        expr::has_values(constraints@, cells, partial_values(cells, two_value)) by {
        let values = partial_values(cells, two_value);
        assert forall|i: int| 0 <= i < 7 implies (#[trigger] constraints@[i]).eval(cells)
            == cells.selector * values[i] by {
            assert(i == 0 || i == 1 || i == 2 || i == 3 || i == 4 || i == 5 || i == 6);
        }
    }
    constraints
}

/// What a row of a hash does.
#[derive(Clone, Copy, Debug, PartialEq, Eq)]
pub enum RowKind {
    /// The first external matrix.
    First,
    /// The full round with the given number.
    Full {
        /// The round.
        round: usize,
    },
    /// Four partial rounds from the one with the given number on.
    Partial {
        /// The first of the rounds.
        round: usize,
        /// The place of the first S-box among the partial rounds.
        sbox: usize,
    },
    /// Nothing: the state is the last one.
    Last,
}

/// How many rounds are done when the state of a row, above row 0, is reached.
pub open spec fn rounds_before(row: int) -> int {
    if row <= 5 {
        row - 1
    } else if row <= 19 {
        4 + (row - 5) * 4
    } else {
        60 + (row - 19)
    }
}

/// What a row does.
pub open spec fn spec_row_kind(row: int) -> RowKind {
    if row == 0 {
        RowKind::First
    } else if row >= 23 {
        RowKind::Last
    } else if row <= 4 || row >= 19 {
        RowKind::Full { round: rounds_before(row) as usize }
    } else {
        RowKind::Partial {
            round: rounds_before(row) as usize,
            sbox: (rounds_before(row) - 4) as usize,
        }
    }
}

/// What a row does.
pub fn row_kind(row: usize) -> (r: RowKind)
    requires
        row < ROWS,
    ensures
        r == spec_row_kind(row as int),
        row == 0 ==> r == RowKind::First,
        1 <= row <= 4 ==> r == (RowKind::Full { round: (row - 1) as usize }),
        5 <= row <= 18 ==> r == (RowKind::Partial {
            round: (4 * row - 16) as usize,
            sbox: (4 * row - 20) as usize,
        }),
        19 <= row <= 22 ==> r == (RowKind::Full { round: (row + 41) as usize }),
        row == 23 ==> r == RowKind::Last,
{
    if row == 0 {
        RowKind::First
    } else if row <= 4 {
        RowKind::Full { round: row - 1 }
    } else if row < 19 {
        let batch: usize = row - 5;
        RowKind::Partial { round: 4 + batch * 4, sbox: batch * 4 }
    } else if row < 23 {
        RowKind::Full { round: 60 + (row - 19) }
    } else {
        RowKind::Last
    }
}

/// The round constants of a row, by fixed column: the three of a full round, or the first
/// ones of four partial rounds.
pub open spec fn spec_row_constants<F: PrimeField>(
    params: &Poseidon2Params<F>,
    row: int,
) -> Seq<F> {
    match spec_row_kind(row) {
        RowKind::First => Seq::empty(),
        RowKind::Full { round } => params.round_constants@[round as int]@,
        RowKind::Partial { round, .. } => seq![
            params.round_constants@[round as int]@[0],
            params.round_constants@[round + 1]@[0],
            params.round_constants@[round + 2]@[0],
            params.round_constants@[round + 3]@[0],
        ],
        RowKind::Last => Seq::empty(),
    }
}

/// The round constants of a row, by fixed column.
pub fn row_constants<F: PrimeField>(params: &Poseidon2Params<F>, row: usize) -> (r: Vec<F>)
    requires
        row < ROWS,
    ensures
        r@ == spec_row_constants(params, row as int),
        row == 0 || row == 23 ==> r@.len() == 0,
        1 <= row <= 4 ==> r@ == params.round_constants@[row - 1]@,
        5 <= row <= 18 ==> r@ == seq![
            params.round_constants@[4 * row - 16]@[0],
            params.round_constants@[4 * row - 15]@[0],
            params.round_constants@[4 * row - 14]@[0],
            params.round_constants@[4 * row - 13]@[0],
        ],
        19 <= row <= 22 ==> r@ == params.round_constants@[row + 41]@,
{
    let r: Vec<F> = match row_kind(row) {
        RowKind::First => Vec::new(),
        RowKind::Full { round } => {
            let c = params.round_constants[round];
            vec![c[0], c[1], c[2]]
        },
        RowKind::Partial { round, .. } => vec![
            params.round_constants[round][0],
            params.round_constants[round + 1][0],
            params.round_constants[round + 2][0],
            params.round_constants[round + 3][0],
        ],
        RowKind::Last => Vec::new(),
    };
    assert(r@ =~= spec_row_constants(params, row as int));
    r
}

/// The states of the rows of a permutation: those after the rounds before each row, from
/// the state of the first row.
pub open spec fn are_states<F: PrimeField>(
    params: &Poseidon2Params<F>,
    states: Seq<[F; 3]>,
) -> bool {
    forall|row: int|
        1 <= row < states.len() ==> poseidon2::is_state(
            (#[trigger] states[row])@,
            params.after(poseidon2::values3(states[0]@), rounds_before(row) as nat),
        )
}

/// The results of the S-boxes of the partial rounds of a permutation of `start`.
pub open spec fn are_sboxes<F: PrimeField>(
    params: &Poseidon2Params<F>,
    start: poseidon2::State3,
    sboxes: Seq<F>,
) -> bool {
    forall|k: int|
        0 <= k < sboxes.len() ==> (#[trigger] sboxes[k]) == F::of_int(
            residue::pow5(
                params.after(start, (4 + k) as nat).a + params.constants()[4 + k].a,
            ),
        )
}

/// The states of 24 rows and the results of 56 S-boxes are those of a permutation.
pub open spec fn is_trace<F: PrimeField>(
    params: &Poseidon2Params<F>,
    states: Seq<[F; 3]>,
    sboxes: Seq<F>,
) -> bool {
    &&& states.len() == 24
    &&& are_states(params, states)
    &&& sboxes.len() == 56
    &&& are_sboxes(params, poseidon2::values3(states[0]@), sboxes)
}

/// One more full round.
fn full_step<F: PrimeField>(
    params: &Poseidon2Params<F>,
    st: &mut [F; 3],
    round: usize,
    start: Ghost<poseidon2::State3>,
)
    requires
        round < 64,
        poseidon2::is_full(round as int),
        poseidon2::is_state(old(st)@, params.after(start@, round as nat)),
    ensures
        poseidon2::is_state(final(st)@, params.after(start@, (round + 1) as nat)),
{
    let ghost before = poseidon2::values3(st@);
    let ghost c = params.constants()[round as int];
    proof {
        F::lemma_modulus();
        poseidon2::lemma_values3::<F>(st@, params.after(start@, round as nat));
    }
    params.full_round(st, round);
    proof {
        poseidon2::lemma_full_round(
            before,
            params.after(start@, round as nat),
            c,
            c,
            F::modulus(),
        );
        poseidon2::lemma_is_state::<F>(
            st@,
            poseidon2::full_round(before, c),
            params.after(start@, (round + 1) as nat),
        );
    }
}

/// One more partial round.
fn partial_step<F: PrimeField>(
    params: &Poseidon2Params<F>,
    st: &mut [F; 3],
    round: usize,
    start: Ghost<poseidon2::State3>,
) -> (r: F)
    requires
        round < 64,
        !poseidon2::is_full(round as int),
        poseidon2::is_state(old(st)@, params.after(start@, round as nat)),
    ensures
        poseidon2::is_state(final(st)@, params.after(start@, (round + 1) as nat)),
        r == F::of_int(
            residue::pow5(
                params.after(start@, round as nat).a + params.constants()[round as int].a,
            ),
        ),
{
    let ghost before = poseidon2::values3(st@);
    let ghost now = params.after(start@, round as nat);
    let ghost c = params.constants()[round as int].a;
    proof {
        F::lemma_modulus();
        poseidon2::lemma_values3::<F>(st@, now);
    }
    let r = params.partial_round(st, round);
    proof {
        poseidon2::lemma_partial_round(
            before,
            now,
            c,
            c,
            params.diagonal(),
            params.diagonal(),
            F::modulus(),
        );
        poseidon2::lemma_is_state::<F>(
            st@,
            poseidon2::partial_round(before, c, params.diagonal()),
            params.after(start@, (round + 1) as nat),
        );
        residue::lemma_sum(before.a, now.a, c, c, F::modulus());
        residue::lemma_pow5(before.a + c, now.a + c, F::modulus());
        field::lemma_congruent::<F>(residue::pow5(before.a + c), residue::pow5(now.a + c));
    }
    r
}

/// The states of the 24 rows, and the results of the S-boxes of the 56 partial rounds, of a
/// permutation.
pub fn trace<F: PrimeField>(params: &Poseidon2Params<F>, first: [F; 3]) -> (r: (
    Vec<[F; 3]>,
    Vec<F>,
))
    ensures
        is_trace(params, r.0@, r.1@),
        r.0@[0] == first,
        r.0@.len() == 24,
        r.1@.len() == 56,
        poseidon2::is_state(r.0@[23]@, params.after(poseidon2::values3(first@), 64)),
{
    let ghost start = poseidon2::values3(first@);
    let mut st: [F; 3] = first;
    let mut states: Vec<[F; 3]> = Vec::new();
    let mut sboxes: Vec<F> = Vec::new();
    states.push(st);
    poseidon2::matmul_external(&mut st);
    states.push(st);
    for round in 0..4usize
        invariant
            start == poseidon2::values3(first@),
            poseidon2::is_state(st@, params.after(start, round as nat)),
            states@.len() == round + 2,
            states@[0] == first,
            are_states(params, states@),
    {
        full_step(params, &mut st, round, Ghost(start));
        states.push(st);
    }
    for batch in 0..14usize
        invariant
            start == poseidon2::values3(first@),
            poseidon2::is_state(st@, params.after(start, (4 + batch * 4) as nat)),
            states@.len() == batch + 6,
            states@[0] == first,
            are_states(params, states@),
            sboxes@.len() == batch * 4,
            are_sboxes(params, start, sboxes@),
    {
        for i in 0..4usize
            invariant
                batch < 14,
                poseidon2::is_state(st@, params.after(start, (4 + batch * 4 + i) as nat)),
                sboxes@.len() == batch * 4 + i,
                are_sboxes(params, start, sboxes@),
        {
            let sb = partial_step(params, &mut st, 4 + batch * 4 + i, Ghost(start));
            sboxes.push(sb);
        }
        states.push(st);
    }
    for round in 60..64usize
        invariant
            start == poseidon2::values3(first@),
            poseidon2::is_state(st@, params.after(start, round as nat)),
            states@.len() == 20 + (round - 60),
            states@[0] == first,
            are_states(params, states@),
            sboxes@.len() == 56,
            are_sboxes(params, start, sboxes@),
    {
        full_step(params, &mut st, round, Ghost(start));
        states.push(st);
    }
    (states, sboxes)
}

/// The two words of a message that permutation `k` takes in; a missing one is zero.
pub open spec fn message_words(message: Seq<int>, k: int) -> (int, int) {
    (
        message[2 * k],
        if 2 * k + 1 < message.len() {
            message[2 * k + 1]
        } else {
            0
        },
    )
}

/// What is left of a message after `k` permutations.
pub open spec fn message_rest(message: Seq<int>, k: int) -> Seq<int> {
    if 2 * k < message.len() {
        message.skip(2 * k)
    } else {
        Seq::empty()
    }
}

/// A state with the two words of a message added that permutation `k` takes in.
pub open spec fn with_words(s: poseidon2::State3, message: Seq<int>, k: int) -> poseidon2::State3 {
    let words = message_words(message, k);
    poseidon2::State3 { a: s.a + words.0, b: s.b + words.1, c: s.c }
}

/// How many permutations a message takes.
pub open spec fn permutations(len: int) -> int {
    (len + 1) / 2
}

/// The state before permutation `k` takes in its words.
pub open spec fn state_before<F: PrimeField>(
    params: &Poseidon2Params<F>,
    message: Seq<int>,
    k: nat,
) -> poseidon2::State3
    decreases k,
{
    if k == 0 {
        poseidon2::State3 { a: 0, b: 0, c: message.len() as int }
    } else {
        params.after(
            with_words(
                state_before(params, message, (k - 1) as nat),
                message,
                k - 1,
            ),
            64,
        )
    }
}

/// The state after all permutations starts with the digest.
pub(crate) proof fn lemma_state_before<F: PrimeField>(
    params: &Poseidon2Params<F>,
    message: Seq<int>,
    k: nat,
)
    requires
        k <= permutations(message.len() as int),
    ensures
        poseidon2::sponge(
            params.constants(),
            params.diagonal(),
            state_before(params, message, k),
            message_rest(message, k as int),
        ) == poseidon2::sponge(
            params.constants(),
            params.diagonal(),
            state_before(params, message, 0),
            message,
        ),
    decreases k,
{
    if k == 0 {
        assert(message.skip(0) =~= message);
        if message.len() == 0 {
            assert(message =~= Seq::empty());
        }
    } else {
        let below = (k - 1) as nat;
        lemma_state_before(params, message, below);
        let rest = message_rest(message, below as int);
        let s = state_before(params, message, below);
        assert(rest.len() == message.len() - 2 * below);
        assert(rest[0] == message[2 * below as int]);
        if rest.len() >= 2 {
            assert(rest[1] == message[2 * below as int + 1]);
            assert(rest.skip(2) =~= message_rest(message, k as int));
        }
        assert(poseidon2::absorbed(s, rest) == with_words(s, message, below as int));
    }
}

/// The advice column and the row of word `k` of a message: the first two words are in the
/// state of row 0, and each later pair is in the first two S-box columns of the last row of
/// the permutation before it.
pub fn word_cell(k: usize) -> (r: (usize, usize))
    requires
        12 * k <= usize::MAX,
    ensures
        k < 2 ==> r == (k, 0usize),
        k >= 2 ==> r.0 == 3 + k % 2 && r.1 == 24 * (k / 2) - 1,
{
    if k < 2 {
        (k, 0)
    } else {
        (3 + k % 2, ROWS * (k / 2) - 1)
    }
}

/// How many permutations a hash of so many words takes.
pub fn permutation_count(words: usize) -> (r: usize)
    requires
        words < usize::MAX,
    ensures
        r == permutations(words as int),
        2 * r == words || 2 * r == words + 1,
{
    (words + 1) / 2
}

/// Whether the absorbing gate is enabled on a row of a hash of so many words: it is on the
/// last row of every permutation but the last one.
pub fn absorbs(row: usize, words: usize) -> (r: bool)
    requires
        words < usize::MAX,
    ensures
        r == (row % 24 == 23 && row / 24 + 1 < permutations(words as int)),
        r == (row % 24 == 23 && 2 * (row / 24 + 1) < words),
{
    row % ROWS == ROWS - 1 && row / ROWS + 1 < permutation_count(words)
}

/// The integers of a message of field elements.
pub open spec fn message_values<F: PrimeField>(inputs: Seq<F>) -> Seq<int> {
    inputs.map_values(|f: F| f.value())
}

/// The traces of the permutations of a hash: the first one starts from the first two elements
/// of the message and its length, and each next one from the last state of the one before
/// with two more elements added.
pub open spec fn are_hash_traces<F: PrimeField>(
    params: &Poseidon2Params<F>,
    inputs: Seq<F>,
    traces: Seq<(Vec<[F; 3]>, Vec<F>)>,
) -> bool {
    &&& traces.len() == permutations(inputs.len() as int)
    &&& forall|k: int|
        0 <= k < traces.len() ==> is_trace(params, (#[trigger] traces[k]).0@, traces[k].1@)
    &&& traces[0].0@[0]@ == seq![
        inputs[0],
        if inputs.len() >= 2 {
            inputs[1]
        } else {
            F::of_int(0)
        },
        F::of_int(inputs.len() as int),
    ]
    &&& forall|k: int|
        1 <= k < traces.len() ==> poseidon2::is_state(
            (#[trigger] traces[k]).0@[0]@,
            with_words(
                poseidon2::values3(traces[k - 1].0@[23]@),
                message_values(inputs),
                k,
            ),
        )
}

/// The traces of the permutations of a hash of all elements, in the order of the message. The
/// last state of the last one starts with the digest.
pub fn hash_trace<F: PrimeField, const L: usize>(
    params: &Poseidon2Params<F>,
    inputs: &[F; L],
) -> (r: Vec<(Vec<[F; 3]>, Vec<F>)>)
    requires
        L > 0,
    ensures
        are_hash_traces(params, inputs@, r@),
        r@[r@.len() - 1].0@[23]@[0] == F::of_int(
            poseidon2::digest(params.constants(), params.diagonal(), message_values(inputs@)),
        ),
        r@[r@.len() - 1].0@[23]@[0] == F::of_int(
            poseidon2::digest(
                params.constants(),
                params.diagonal(),
                Seq::new(L as nat, |i: int| inputs@[i].value()),
            ),
        ),
{
    let ghost message = message_values(inputs@);
    let ghost m = F::modulus();
    let zero: F = F::zero();
    let mut traces: Vec<(Vec<[F; 3]>, Vec<F>)> = Vec::new();
    let mut st: [F; 3] = [inputs[0], if L >= 2 { inputs[1] } else { zero }, F::from_u64(L as u64)];
    proof {
        F::lemma_modulus();
        residue::lemma_remainder(L as int, m);
        residue::lemma_remainder(0, m);
        assert(poseidon2::congruent3(
            poseidon2::values3(st@),
            with_words(state_before(params, message, 0), message, 0),
            m,
        ));
        assert(st@ =~= seq![
            inputs@[0],
            if L >= 2 {
                inputs@[1]
            } else {
                F::of_int(0)
            },
            F::of_int(L as int),
        ]);
    }
    let mut taken: usize = if L >= 2 { 2 } else { 1 };
    let first = trace(params, st);
    st = first.0[23];
    proof {
        lemma_after_trace(params, first.0@, message, 0);
    }
    traces.push(first);
    while taken < L
        invariant
            m == F::modulus(),
            m > 1,
            zero == F::of_int(0),
            message == message_values(inputs@),
            0 < taken <= L,
            traces@.len() >= 1,
            taken < L ==> taken == 2 * traces@.len(),
            traces@.len() == permutations(taken as int),
            forall|k: int|
                0 <= k < traces@.len() ==> is_trace(
                    params,
                    (#[trigger] traces@[k]).0@,
                    traces@[k].1@,
                ),
            traces@[0].0@[0]@ == seq![
                inputs@[0],
                if L >= 2 {
                    inputs@[1]
                } else {
                    F::of_int(0)
                },
                F::of_int(L as int),
            ],
            forall|k: int|
                1 <= k < traces@.len() ==> poseidon2::is_state(
                    (#[trigger] traces@[k]).0@[0]@,
                    with_words(
                        poseidon2::values3(traces@[k - 1].0@[23]@),
                        message,
                        k,
                    ),
                ),
            st == traces@[traces@.len() - 1].0@[23],
            poseidon2::is_state(st@, state_before(params, message, traces@.len())),
        decreases L - taken,
    {
        let ghost k = traces@.len();
        let ghost before = poseidon2::values3(st@);
        let second: F = if L - taken >= 2 {
            inputs[taken + 1]
        } else {
            zero
        };
        let next: [F; 3] = [st[0].plus(inputs[taken]), st[1].plus(second), st[2]];
        proof {
            let s = state_before(params, message, k);
            poseidon2::lemma_values3::<F>(st@, s);
            F::lemma_of_int(0);
            vstd::arithmetic::div_mod::lemma_small_mod(0, m as nat);
            lemma_next_start(st@, s, before, next@, message, k as int);
        }
        let block = trace(params, next);
        st = block.0[23];
        proof {
            lemma_after_trace(params, block.0@, message, k);
        }
        traces.push(block);
        taken = if L - taken >= 2 {
            taken + 2
        } else {
            L
        };
    }
    proof {
        let k = traces@.len();
        lemma_state_before(params, message, k);
        assert(message_rest(message, k as int) == Seq::<int>::empty());
        assert(message =~= Seq::new(L as nat, |i: int| inputs@[i].value()));
    }
    traces
}

/// The start of the next permutation holds the last state with two more words added.
proof fn lemma_next_start<F: PrimeField>(
    st: Seq<F>,
    s: poseidon2::State3,
    before: poseidon2::State3,
    next: Seq<F>,
    message: Seq<int>,
    k: int,
)
    requires
        poseidon2::is_state(st, s),
        before == poseidon2::values3(st),
        poseidon2::congruent3(before, s, F::modulus()),
        next[0] == F::of_int(before.a + message_words(message, k).0),
        next[1] == F::of_int(before.b + message_words(message, k).1),
        next[2] == st[2],
    ensures
        poseidon2::is_state(next, with_words(before, message, k)),
        poseidon2::congruent3(
            poseidon2::values3(next),
            with_words(s, message, k),
            F::modulus(),
        ),
{
    let m = F::modulus();
    let words = message_words(message, k);
    F::lemma_modulus();
    field::lemma_congruent::<F>(before.c, s.c);
    poseidon2::lemma_values3::<F>(next, with_words(before, message, k));
    residue::lemma_sum(before.a, s.a, words.0, words.0, m);
    residue::lemma_sum(before.b, s.b, words.1, words.1, m);
}

/// The last state of the trace of permutation `k` is the state before the next one.
pub(crate) proof fn lemma_after_trace<F: PrimeField>(
    params: &Poseidon2Params<F>,
    states: Seq<[F; 3]>,
    message: Seq<int>,
    k: nat,
)
    requires
        states.len() == 24,
        are_states(params, states),
        poseidon2::congruent3(
            poseidon2::values3(states[0]@),
            with_words(state_before(params, message, k), message, k as int),
            F::modulus(),
        ),
    ensures
        poseidon2::is_state(states[23]@, state_before(params, message, k + 1)),
{
    let start = poseidon2::values3(states[0]@);
    let plain = with_words(state_before(params, message, k), message, k as int);
    F::lemma_modulus();
    assert(rounds_before(23) == 64);
    poseidon2::lemma_after_rounds(
        params.constants(),
        params.diagonal(),
        start,
        plain,
        64,
        F::modulus(),
    );
    poseidon2::lemma_is_state::<F>(
        states[23]@,
        params.after(start, 64),
        params.after(plain, 64),
    );
}

} // verus!
