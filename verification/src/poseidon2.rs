//! The Poseidon2 hash of width 3, with 8 full and 56 partial rounds and the S-box `x^5`.
//!
//! The permutation is stated over the integers, without reduction: a field element holds
//! the residue of the integer. Round constants come from the generator of the Poseidon
//! constants, a row of three for a full round and one for a partial round.
use vstd::prelude::*;

use crate::field;
use crate::field::PrimeField;
use crate::fp::Fp;
use crate::poseidon;
use crate::poseidon::{FieldHasher, HashError, SmtP128Pow5T3};
use crate::residue;

verus! {

/// The number of full rounds.
pub const R_F: usize = 8;

/// The number of partial rounds.
pub const R_P: usize = 56;

/// The number of rounds.
pub const ROUNDS: usize = 64;

/// A state of three integers.
pub struct State3 {
    /// The first word, which a hash returns.
    pub a: int,
    /// The second word.
    pub b: int,
    /// The third word, which holds the length of the message at first.
    pub c: int,
}

/// The integers that three field elements stand for.
pub open spec fn values3<F: PrimeField>(st: Seq<F>) -> State3 {
    State3 { a: st[0].value(), b: st[1].value(), c: st[2].value() }
}

/// Three field elements hold the residues of a state.
pub open spec fn is_state<F: PrimeField>(st: Seq<F>, s: State3) -> bool {
    st[0] == F::of_int(s.a) && st[1] == F::of_int(s.b) && st[2] == F::of_int(s.c)
}

/// Two states have congruent words.
pub open spec fn congruent3(s: State3, t: State3, m: int) -> bool {
    &&& residue::congruent(s.a, t.a, m)
    &&& residue::congruent(s.b, t.b, m)
    &&& residue::congruent(s.c, t.c, m)
}

/// The sum of two states, word by word.
pub open spec fn sum3(s: State3, t: State3) -> State3 {
    State3 { a: s.a + t.a, b: s.b + t.b, c: s.c + t.c }
}

/// The S-box on every word.
pub open spec fn sbox3(s: State3) -> State3 {
    State3 { a: residue::pow5(s.a), b: residue::pow5(s.b), c: residue::pow5(s.c) }
}

/// The external matrix `circ(2, 1, 1)`: each word and the sum of all.
pub open spec fn external(s: State3) -> State3 {
    let sum = s.a + s.b + s.c;
    State3 { a: s.a + sum, b: s.b + sum, c: s.c + sum }
}

/// The internal matrix: each word times its diagonal entry less one, and the sum of all.
pub open spec fn internal(s: State3, diagonal: State3) -> State3 {
    let sum = s.a + s.b + s.c;
    State3 { a: s.a * diagonal.a + sum, b: s.b * diagonal.b + sum, c: s.c * diagonal.c + sum }
}

/// A full round.
pub open spec fn full_round(s: State3, constants: State3) -> State3 {
    external(sbox3(sum3(s, constants)))
}

/// A partial round.
pub open spec fn partial_round(s: State3, constant: int, diagonal: State3) -> State3 {
    internal(State3 { a: residue::pow5(s.a + constant), b: s.b, c: s.c }, diagonal)
}

/// Whether a round is a full one: the first four and the last four are.
pub open spec fn is_full(round: int) -> bool {
    round < 4 || round >= 60
}

/// One round.
pub open spec fn round_of(s: State3, constants: State3, diagonal: State3, round: int) -> State3 {
    if is_full(round) {
        full_round(s, constants)
    } else {
        partial_round(s, constants.a, diagonal)
    }
}

/// The state after the first external matrix and `n` rounds.
pub open spec fn after_rounds(
    constants: Seq<State3>,
    diagonal: State3,
    s: State3,
    n: nat,
) -> State3
    decreases n,
{
    if n == 0 {
        external(s)
    } else {
        round_of(
            after_rounds(constants, diagonal, s, (n - 1) as nat),
            constants[n - 1],
            diagonal,
            n - 1,
        )
    }
}

/// The words of a state after two more words of the message have been added.
pub open spec fn absorbed(s: State3, message: Seq<int>) -> State3 {
    State3 {
        a: s.a + message[0],
        b: if message.len() >= 2 {
            s.b + message[1]
        } else {
            s.b
        },
        c: s.c,
    }
}

/// The state after the message has been taken in, two words before each permutation.
pub open spec fn sponge(
    constants: Seq<State3>,
    diagonal: State3,
    s: State3,
    message: Seq<int>,
) -> State3
    decreases message.len(),
{
    if message.len() == 0 {
        s
    } else {
        sponge(
            constants,
            diagonal,
            after_rounds(constants, diagonal, absorbed(s, message), 64),
            if message.len() >= 2 {
                message.skip(2)
            } else {
                Seq::empty()
            },
        )
    }
}

/// The digest of a message: the first word of the state that starts with the length of the
/// message in its third word.
pub open spec fn digest(constants: Seq<State3>, diagonal: State3, message: Seq<int>) -> int {
    sponge(constants, diagonal, State3 { a: 0, b: 0, c: message.len() as int }, message).a
}

/// Elements that hold a state hold every congruent one.
pub(crate) proof fn lemma_is_state<F: PrimeField>(st: Seq<F>, s: State3, t: State3)
    requires
        is_state(st, s),
        congruent3(s, t, F::modulus()),
    ensures
        is_state(st, t),
{
    field::lemma_congruent::<F>(s.a, t.a);
    field::lemma_congruent::<F>(s.b, t.b);
    field::lemma_congruent::<F>(s.c, t.c);
}

/// The integers of elements that hold a state are congruent to the state.
pub(crate) proof fn lemma_values3<F: PrimeField>(st: Seq<F>, s: State3)
    requires
        is_state(st, s),
    ensures
        congruent3(values3(st), s, F::modulus()),
{
    F::lemma_modulus();
    F::lemma_of_int(s.a);
    F::lemma_of_int(s.b);
    F::lemma_of_int(s.c);
    residue::lemma_remainder(s.a, F::modulus());
    residue::lemma_remainder(s.b, F::modulus());
    residue::lemma_remainder(s.c, F::modulus());
}

/// Sums of congruent states are congruent.
pub(crate) proof fn lemma_sum3(s: State3, t: State3, x: State3, y: State3, m: int)
    requires
        m > 0,
        congruent3(s, t, m),
        congruent3(x, y, m),
    ensures
        congruent3(sum3(s, x), sum3(t, y), m),
{
    residue::lemma_sum(s.a, t.a, x.a, y.a, m);
    residue::lemma_sum(s.b, t.b, x.b, y.b, m);
    residue::lemma_sum(s.c, t.c, x.c, y.c, m);
}

/// The S-box keeps congruence.
pub(crate) proof fn lemma_sbox3(s: State3, t: State3, m: int)
    requires
        m > 0,
        congruent3(s, t, m),
    ensures
        congruent3(sbox3(s), sbox3(t), m),
{
    residue::lemma_pow5(s.a, t.a, m);
    residue::lemma_pow5(s.b, t.b, m);
    residue::lemma_pow5(s.c, t.c, m);
}

proof fn lemma_total(s: State3, t: State3, m: int)
    requires
        m > 0,
        congruent3(s, t, m),
    ensures
        residue::congruent(s.a + s.b + s.c, t.a + t.b + t.c, m),
{
    residue::lemma_sum(s.a, t.a, s.b, t.b, m);
    residue::lemma_sum(s.a + s.b, t.a + t.b, s.c, t.c, m);
}

/// The external matrix keeps congruence.
pub(crate) proof fn lemma_external(s: State3, t: State3, m: int)
    requires
        m > 0,
        congruent3(s, t, m),
    ensures
        congruent3(external(s), external(t), m),
{
    let x = s.a + s.b + s.c;
    let y = t.a + t.b + t.c;
    lemma_total(s, t, m);
    lemma_sum3(s, t, State3 { a: x, b: x, c: x }, State3 { a: y, b: y, c: y }, m);
}

/// The internal matrix keeps congruence.
pub(crate) proof fn lemma_internal(s: State3, t: State3, d: State3, e: State3, m: int)
    requires
        m > 0,
        congruent3(s, t, m),
        congruent3(d, e, m),
    ensures
        congruent3(internal(s, d), internal(t, e), m),
{
    let x = s.a + s.b + s.c;
    let y = t.a + t.b + t.c;
    lemma_total(s, t, m);
    residue::lemma_product(s.a, t.a, d.a, e.a, m);
    residue::lemma_product(s.b, t.b, d.b, e.b, m);
    residue::lemma_product(s.c, t.c, d.c, e.c, m);
    lemma_sum3(
        State3 { a: s.a * d.a, b: s.b * d.b, c: s.c * d.c },
        State3 { a: t.a * e.a, b: t.b * e.b, c: t.c * e.c },
        State3 { a: x, b: x, c: x },
        State3 { a: y, b: y, c: y },
        m,
    );
}

/// A full round keeps congruence.
pub(crate) proof fn lemma_full_round(s: State3, t: State3, x: State3, y: State3, m: int)
    requires
        m > 0,
        congruent3(s, t, m),
        congruent3(x, y, m),
    ensures
        congruent3(full_round(s, x), full_round(t, y), m),
{
    lemma_sum3(s, t, x, y, m);
    lemma_sbox3(sum3(s, x), sum3(t, y), m);
    lemma_external(sbox3(sum3(s, x)), sbox3(sum3(t, y)), m);
}

/// A partial round keeps congruence.
pub(crate) proof fn lemma_partial_round(
    s: State3,
    t: State3,
    x: int,
    y: int,
    d: State3,
    e: State3,
    m: int,
)
    requires
        m > 0,
        congruent3(s, t, m),
        residue::congruent(x, y, m),
        congruent3(d, e, m),
    ensures
        congruent3(partial_round(s, x, d), partial_round(t, y, e), m),
{
    residue::lemma_sum(s.a, t.a, x, y, m);
    residue::lemma_pow5(s.a + x, t.a + y, m);
    lemma_internal(
        State3 { a: residue::pow5(s.a + x), b: s.b, c: s.c },
        State3 { a: residue::pow5(t.a + y), b: t.b, c: t.c },
        d,
        e,
        m,
    );
}

/// The rounds keep congruence.
pub(crate) proof fn lemma_after_rounds(
    constants: Seq<State3>,
    diagonal: State3,
    s: State3,
    t: State3,
    n: nat,
    m: int,
)
    requires
        m > 0,
        congruent3(s, t, m),
    ensures
        congruent3(
            after_rounds(constants, diagonal, s, n),
            after_rounds(constants, diagonal, t, n),
            m,
        ),
    decreases n,
{
    if n == 0 {
        lemma_external(s, t, m);
    } else {
        let below = (n - 1) as nat;
        lemma_after_rounds(constants, diagonal, s, t, below, m);
        let x = after_rounds(constants, diagonal, s, below);
        let y = after_rounds(constants, diagonal, t, below);
        let c = constants[n - 1];
        if is_full(n - 1) {
            lemma_full_round(x, y, c, c, m);
        } else {
            lemma_partial_round(x, y, c.a, c.a, diagonal, diagonal, m);
        }
    }
}

/// The S-box: the fifth power.
pub fn sbox<F: PrimeField>(x: F) -> (r: F)
    ensures
        r == F::of_int(residue::pow5(x.value())),
        r == F::of_int(x.value() * x.value() * x.value() * x.value() * x.value()),
{
    let square: F = x.times(x);
    let fourth: F = square.times(square);
    proof {
        let v = x.value();
        field::lemma_times_of_int::<F>(v * v, v * v);
        field::lemma_times_absorbs::<F>(v * v * (v * v), v);
        assert(v * v * (v * v) == v * v * v * v) by (nonlinear_arith);
    }
    fourth.times(x)
}

/// Applies the S-box to every word.
pub fn sbox_full<F: PrimeField>(st: &mut [F; 3])
    ensures
        is_state(final(st)@, sbox3(values3(old(st)@))),
        forall|i: int|
            0 <= i < 3 ==> #[trigger] final(st)@[i] == F::of_int(
                residue::pow5(old(st)@[i].value()),
            ),
{
    st[0] = sbox(st[0]);
    st[1] = sbox(st[1]);
    st[2] = sbox(st[2]);
}

/// Adds the constants of a round to the words.
pub fn add_round_constants<F: PrimeField>(st: &mut [F; 3], constants: &[F; 3])
    ensures
        is_state(final(st)@, sum3(values3(old(st)@), values3(constants@))),
        forall|i: int|
            0 <= i < 3 ==> #[trigger] final(st)@[i] == F::of_int(
                old(st)@[i].value() + constants@[i].value(),
            ),
{
    st[0] = st[0].plus(constants[0]);
    st[1] = st[1].plus(constants[1]);
    st[2] = st[2].plus(constants[2]);
}

/// Applies the external matrix.
pub fn matmul_external<F: PrimeField>(st: &mut [F; 3])
    ensures
        is_state(final(st)@, external(values3(old(st)@))),
        forall|i: int|
            0 <= i < 3 ==> #[trigger] final(st)@[i] == F::of_int(
                old(st)@[i].value() + old(st)@[0].value() + old(st)@[1].value()
                    + old(st)@[2].value(),
            ),
{
    let ghost s = values3(st@);
    let sum: F = st[0].plus(st[1]).plus(st[2]);
    proof {
        field::lemma_plus_absorbs::<F>(s.a + s.b, s.c);
        field::lemma_plus_absorbs::<F>(s.a + s.b + s.c, s.a);
        field::lemma_plus_absorbs::<F>(s.a + s.b + s.c, s.b);
        field::lemma_plus_absorbs::<F>(s.a + s.b + s.c, s.c);
        assert(sum == F::of_int(s.a + s.b + s.c));
    }
    st[0] = st[0].plus(sum);
    st[1] = st[1].plus(sum);
    st[2] = st[2].plus(sum);
}

/// Applies the internal matrix with the given diagonal less one.
pub fn matmul_internal<F: PrimeField>(st: &mut [F; 3], diagonal: &[F; 3])
    ensures
        is_state(final(st)@, internal(values3(old(st)@), values3(diagonal@))),
        forall|i: int|
            0 <= i < 3 ==> #[trigger] final(st)@[i] == F::of_int(
                old(st)@[i].value() * diagonal@[i].value() + old(st)@[0].value()
                    + old(st)@[1].value() + old(st)@[2].value(),
            ),
{
    let ghost s = values3(st@);
    let ghost d = values3(diagonal@);
    let sum: F = st[0].plus(st[1]).plus(st[2]);
    proof {
        let total = s.a + s.b + s.c;
        field::lemma_plus_absorbs::<F>(s.a + s.b, s.c);
        assert(sum == F::of_int(total));
        field::lemma_plus_of_int::<F>(s.a * d.a, total);
        field::lemma_plus_of_int::<F>(s.b * d.b, total);
        field::lemma_plus_of_int::<F>(s.c * d.c, total);
    }
    st[0] = st[0].times(diagonal[0]).plus(sum);
    st[1] = st[1].times(diagonal[1]).plus(sum);
    st[2] = st[2].times(diagonal[2]).plus(sum);
}

/// Round constants and the diagonal of the internal matrix.
#[derive(Debug)]
pub struct Poseidon2Params<F: PrimeField> {
    /// The constants of each round. Partial rounds use the first one.
    pub round_constants: [[F; 3]; 64],
    /// The diagonal of the internal matrix, less one.
    pub mat_internal_diag_m_1: [F; 3],
}

impl<F: PrimeField> Clone for Poseidon2Params<F> {
    fn clone(&self) -> (r: Self)
        ensures
            r == *self,
    {
        Poseidon2Params {
            round_constants: self.round_constants,
            mat_internal_diag_m_1: self.mat_internal_diag_m_1,
        }
    }
}

impl<F: PrimeField> Poseidon2Params<F> {
    /// The round constants as integers.
    pub open spec fn constants(&self) -> Seq<State3> {
        self.round_constants@.map_values(|row: [F; 3]| values3(row@))
    }

    /// The diagonal as integers.
    pub open spec fn diagonal(&self) -> State3 {
        values3(self.mat_internal_diag_m_1@)
    }

    /// The state after `n` rounds from the given state.
    pub open spec fn after(&self, s: State3, n: nat) -> State3 {
        after_rounds(self.constants(), self.diagonal(), s, n)
    }

    /// A full round: adds the constants, applies the S-box to every word and then the
    /// external matrix.
    pub fn full_round(&self, st: &mut [F; 3], round: usize)
        requires
            round < 64,
        ensures
            is_state(
                final(st)@,
                full_round(values3(old(st)@), self.constants()[round as int]),
            ),
            ({
                let row = self.round_constants@[round as int]@;
                let x = residue::pow5(old(st)@[0].value() + row[0].value());
                let y = residue::pow5(old(st)@[1].value() + row[1].value());
                let z = residue::pow5(old(st)@[2].value() + row[2].value());
                final(st)@ == seq![
                    F::of_int(2 * x + y + z),
                    F::of_int(x + 2 * y + z),
                    F::of_int(x + y + 2 * z),
                ]
            }),
    {
        let ghost s = values3(st@);
        let ghost c = self.constants()[round as int];
        add_round_constants(st, &self.round_constants[round]);
        proof {
            lemma_values3::<F>(st@, sum3(s, c));
        }
        let ghost added = values3(st@);
        sbox_full(st);
        proof {
            F::lemma_modulus();
            lemma_sbox3(added, sum3(s, c), F::modulus());
            lemma_values3::<F>(st@, sbox3(added));
        }
        let ghost boxed = values3(st@);
        matmul_external(st);
        proof {
            lemma_external(boxed, sbox3(sum3(s, c)), F::modulus());
            lemma_is_state::<F>(st@, external(boxed), full_round(s, c));
            let boxes = sbox3(sum3(s, c));
            assert(st@ =~= seq![
                F::of_int(2 * boxes.a + boxes.b + boxes.c),
                F::of_int(boxes.a + 2 * boxes.b + boxes.c),
                F::of_int(boxes.a + boxes.b + 2 * boxes.c),
            ]);
        }
    }

    /// A partial round: adds the constant to the first word, applies the S-box to it and
    /// then the internal matrix. Returns the result of the S-box.
    pub fn partial_round(&self, st: &mut [F; 3], round: usize) -> (r: F)
        requires
            round < 64,
        ensures
            is_state(
                final(st)@,
                partial_round(
                    values3(old(st)@),
                    self.constants()[round as int].a,
                    self.diagonal(),
                ),
            ),
            r == F::of_int(
                residue::pow5(old(st)@[0].value() + self.constants()[round as int].a),
            ),
            ({
                let d = self.mat_internal_diag_m_1@;
                let x = residue::pow5(
                    old(st)@[0].value() + self.round_constants@[round as int]@[0].value(),
                );
                let y = old(st)@[1].value();
                let z = old(st)@[2].value();
                &&& r == F::of_int(x)
                &&& final(st)@ == seq![
                    F::of_int(x * d[0].value() + (x + y + z)),
                    F::of_int(y * d[1].value() + (x + y + z)),
                    F::of_int(z * d[2].value() + (x + y + z)),
                ]
            }),
    {
        let ghost s = values3(st@);
        let ghost c = self.constants()[round as int].a;
        let first: F = st[0].plus(self.round_constants[round][0]);
        let sb: F = sbox(first);
        proof {
            F::lemma_modulus();
            F::lemma_of_int(s.a + c);
            residue::lemma_remainder(s.a + c, F::modulus());
            residue::lemma_pow5(first.value(), s.a + c, F::modulus());
            field::lemma_congruent::<F>(
                residue::pow5(first.value()),
                residue::pow5(s.a + c),
            );
        }
        st[0] = sb;
        let ghost boxed = values3(st@);
        proof {
            F::lemma_of_int(residue::pow5(s.a + c));
            residue::lemma_remainder(residue::pow5(s.a + c), F::modulus());
        }
        matmul_internal(st, &self.mat_internal_diag_m_1);
        proof {
            lemma_internal(
                boxed,
                State3 { a: residue::pow5(s.a + c), b: s.b, c: s.c },
                self.diagonal(),
                self.diagonal(),
                F::modulus(),
            );
            lemma_is_state::<F>(
                st@,
                internal(boxed, self.diagonal()),
                partial_round(s, c, self.diagonal()),
            );
            let d = self.diagonal();
            let x = residue::pow5(s.a + c);
            assert(st@ =~= seq![
                F::of_int(x * d.a + (x + s.b + s.c)),
                F::of_int(s.b * d.b + (x + s.b + s.c)),
                F::of_int(s.c * d.c + (x + s.b + s.c)),
            ]);
        }
        sb
    }

    /// The permutation.
    pub fn permute(&self, st: &mut [F; 3])
        ensures
            is_state(final(st)@, self.after(values3(old(st)@), 64)),
    {
        let ghost s = values3(st@);
        matmul_external(st);
        for round in 0..64usize
            invariant
                is_state(st@, self.after(s, round as nat)),
        {
            proof {
                F::lemma_modulus();
                lemma_values3::<F>(st@, self.after(s, round as nat));
            }
            let ghost before = values3(st@);
            let ghost c = self.constants()[round as int];
            if round < 4 || round >= 60 {
                self.full_round(st, round);
                proof {
                    lemma_full_round(before, self.after(s, round as nat), c, c, F::modulus());
                    lemma_is_state::<F>(
                        st@,
                        full_round(before, c),
                        self.after(s, (round + 1) as nat),
                    );
                }
            } else {
                self.partial_round(st, round);
                proof {
                    lemma_partial_round(
                        before,
                        self.after(s, round as nat),
                        c.a,
                        c.a,
                        self.diagonal(),
                        self.diagonal(),
                        F::modulus(),
                    );
                    lemma_is_state::<F>(
                        st@,
                        partial_round(before, c.a, self.diagonal()),
                        self.after(s, (round + 1) as nat),
                    );
                }
            }
        }
    }
}

/// The numbers that the generator of the Poseidon constants gives, in order.
pub open spec fn generated(i: int) -> int {
    poseidon::poseidon_constants(0).0[i / 3][i % 3]
}

/// The place among the generated numbers of the first constant of a round.
pub open spec fn first_constant(round: int) -> int {
    if round < 4 {
        3 * round
    } else if round < 60 {
        12 + (round - 4)
    } else {
        68 + 3 * (round - 60)
    }
}

/// Constant `j` of a round: full rounds have three, partial rounds one.
pub open spec fn round_constant(round: int, j: int) -> int {
    if is_full(round) || j == 0 {
        generated(first_constant(round) + j)
    } else {
        0
    }
}

impl Poseidon2Params<Fp> {
    /// The parameters for the Pallas base field.
    pub open spec fn is_pallas(&self) -> bool {
        &&& forall|round: int, j: int|
            0 <= round < 64 && 0 <= j < 3 ==> (#[trigger] self.round_constants@[round]@[j])
                == Fp::of_int(round_constant(round, j))
        &&& is_state(self.mat_internal_diag_m_1@, State3 { a: 1, b: 1, c: 2 })
    }

    /// There is one set of parameters for the Pallas base field.
    proof fn lemma_pallas_unique(&self, other: &Self)
        requires
            self.is_pallas(),
            other.is_pallas(),
        ensures
            *self == *other,
    {
        assert forall|round: int| 0 <= round < 64 implies (#[trigger] self.round_constants@[round])
            == other.round_constants@[round] by {
            let a = self.round_constants@[round];
            let b = other.round_constants@[round];
            assert forall|j: int| 0 <= j < 3 implies a@[j] == b@[j] by {
                assert(self.round_constants@[round]@[j] == other.round_constants@[round]@[j]);
            }
            assert(a =~= b);
        }
        assert(self.round_constants =~= other.round_constants);
        assert(self.mat_internal_diag_m_1 =~= other.mat_internal_diag_m_1);
    }

    /// The parameters for the Pallas base field: the first numbers of the generator, and
    /// the internal matrix with the diagonal 2, 2, 3.
    pub fn new() -> (r: Self)
        ensures
            r.is_pallas(),
            forall|round: int, j: int|
                0 <= round < 4 && 0 <= j < 3 ==> (#[trigger] r.round_constants@[round]@[j])
                    == Fp::of_int(poseidon::poseidon_constants(0).0[round][j]),
            forall|round: int, j: int|
                4 <= round < 60 && 0 <= j < 3 ==> (#[trigger] r.round_constants@[round]@[j])
                    == Fp::of_int(
                    if j == 0 {
                        poseidon::poseidon_constants(0).0[(8 + round) / 3][(8 + round) % 3]
                    } else {
                        0
                    },
                ),
            forall|round: int, j: int|
                60 <= round < 64 && 0 <= j < 3 ==> (#[trigger] r.round_constants@[round]@[j])
                    == Fp::of_int(
                    poseidon::poseidon_constants(0).0[(3 * round - 112 + j) / 3][(3 * round - 112
                        + j) % 3],
                ),
            r.mat_internal_diag_m_1@ == seq![Fp::of_int(1), Fp::of_int(1), Fp::of_int(2)],
    {
        let (numbers, _, _) = SmtP128Pow5T3::<Fp, 0>::constants();
        let zero: Fp = Fp::zero();
        let mut round_constants: [[Fp; 3]; 64] = [[zero; 3]; 64];
        for round in 0..64usize
            invariant
                numbers@.len() == 64,
                poseidon::is_matrix(numbers@, poseidon::poseidon_constants(0).0),
                zero == Fp::of_int(0),
                forall|k: int, j: int|
                    0 <= k < round && 0 <= j < 3 ==> (#[trigger] round_constants@[k]@[j])
                        == Fp::of_int(round_constant(k, j)),
        {
            let first: usize = if round < 4 {
                3 * round
            } else if round < 60 {
                12 + (round - 4)
            } else {
                68 + 3 * (round - 60)
            };
            let a = numbers[first / 3][first % 3];
            let row: [Fp; 3] = if round < 4 || round >= 60 {
                [a, numbers[(first + 1) / 3][(first + 1) % 3], numbers[(first + 2) / 3][(first + 2)
                    % 3]]
            } else {
                [a, zero, zero]
            };
            proof {
                assert(numbers@[first as int / 3]@[first as int % 3] == Fp::of_int(
                    generated(first as int),
                ));
                assert(numbers@[(first + 1) / 3]@[(first + 1) % 3] == Fp::of_int(
                    generated(first + 1),
                ));
                assert(numbers@[(first + 2) / 3]@[(first + 2) % 3] == Fp::of_int(
                    generated(first + 2),
                ));
                assert forall|j: int| 0 <= j < 3 implies row@[j] == Fp::of_int(
                    round_constant(round as int, j),
                ) by {
                    assert(j == 0 || j == 1 || j == 2);
                }
            }
            round_constants[round] = row;
        }
        let one: Fp = Fp::one();
        let two: Fp = Fp::from_u64(2);
        proof {
            let diagonal: [Fp; 3] = [one, one, two];
            assert(diagonal@ =~= seq![Fp::of_int(1), Fp::of_int(1), Fp::of_int(2)]);
        }
        Poseidon2Params { round_constants, mat_internal_diag_m_1: [one, one, two] }
    }
}

/// The Poseidon2 hash of `L` field elements.
#[derive(Debug)]
pub struct Poseidon2<F: PrimeField, const L: usize> {
    params: Poseidon2Params<F>,
}

impl<F: PrimeField, const L: usize> Clone for Poseidon2<F, L> {
    fn clone(&self) -> (r: Self)
        ensures
            r == *self,
    {
        Poseidon2 { params: self.params.clone() }
    }
}

impl<F: PrimeField, const L: usize> Poseidon2<F, L> {
    /// The parameters of the hash.
    pub closed spec fn spec_params(&self) -> Poseidon2Params<F> {
        self.params
    }

    /// The digest of a message of field elements.
    pub open spec fn spec_digest(&self, message: Seq<F>) -> F {
        F::of_int(
            digest(
                self.spec_params().constants(),
                self.spec_params().diagonal(),
                message.map_values(|f: F| f.value()),
            ),
        )
    }

    /// Takes in the message two words at a time, with a permutation after each, and returns
    /// the first word.
    pub fn digest(&self, inputs: [F; L]) -> (r: F)
        ensures
            r == self.spec_digest(inputs@),
            r == F::of_int(
                digest(
                    self.spec_params().constants(),
                    self.spec_params().diagonal(),
                    Seq::new(L as nat, |i: int| inputs@[i].value()),
                ),
            ),
    {
        let ghost message = inputs@.map_values(|f: F| f.value());
        let ghost constants = self.params.constants();
        let ghost diagonal = self.params.diagonal();
        let mut st: [F; 3] = [F::zero(), F::zero(), F::from_u64(L as u64)];
        let mut i: usize = 0;
        let ghost mut s = State3 { a: 0, b: 0, c: L as int };
        proof {
            F::lemma_modulus();
            assert(message.skip(0) =~= message);
        }
        while i < L
            invariant
                0 <= i <= L,
                F::modulus() > 1,
                constants == self.params.constants(),
                diagonal == self.params.diagonal(),
                message == inputs@.map_values(|f: F| f.value()),
                is_state(st@, s),
                sponge(constants, diagonal, s, message.skip(i as int)) == sponge(
                    constants,
                    diagonal,
                    State3 { a: 0, b: 0, c: L as int },
                    message,
                ),
            decreases L - i,
        {
            let ghost rest = message.skip(i as int);
            let ghost with_message = absorbed(s, rest);
            proof {
                field::lemma_plus_absorbs::<F>(s.a, message[i as int]);
                assert(rest[0] == message[i as int]);
            }
            st[0] = st[0].plus(inputs[i]);
            if L - i >= 2 {
                proof {
                    field::lemma_plus_absorbs::<F>(s.b, message[i + 1]);
                    assert(rest[1] == message[i + 1]);
                }
                st[1] = st[1].plus(inputs[i + 1]);
            }
            let ghost before = values3(st@);
            proof {
                lemma_values3::<F>(st@, with_message);
            }
            self.params.permute(&mut st);
            proof {
                let after = after_rounds(constants, diagonal, with_message, 64);
                lemma_after_rounds(constants, diagonal, before, with_message, 64, F::modulus());
                lemma_is_state::<F>(st@, self.params.after(before, 64), after);
                s = after;
                if L - i >= 2 {
                    assert(rest.skip(2) =~= message.skip(i + 2));
                } else {
                    assert(message.skip(L as int) =~= Seq::empty());
                }
            }
            if L - i >= 2 {
                i = i + 2;
            } else {
                i = L;
            }
        }
        proof {
            assert(message.skip(L as int) =~= Seq::empty());
            assert(message.len() == L);
            assert(message =~= Seq::new(L as nat, |i: int| inputs@[i].value()));
        }
        st[0]
    }
}

impl<const L: usize> Poseidon2<Fp, L> {
    /// The hash with the parameters for the Pallas base field.
    pub fn new() -> (r: Self)
        ensures
            r.spec_params().is_pallas(),
            r == Self::spec_hasher(),
    {
        let r = Poseidon2 { params: Poseidon2Params::new() };
        proof {
            let h = Self::spec_hasher();
            assert(r.spec_params().is_pallas());
            assert(h.spec_params().is_pallas());
            r.params.lemma_pallas_unique(&h.params);
        }
        r
    }
}

impl<const L: usize> Default for Poseidon2<Fp, L> {
    fn default() -> (r: Self)
        ensures
            r == Self::spec_hasher(),
    {
        Self::new()
    }
}

impl<const L: usize> FieldHasher<Fp, L> for Poseidon2<Fp, L> {
    open spec fn spec_hash(&self, inputs: Seq<Fp>) -> Result<Fp, HashError> {
        Ok(self.spec_digest(inputs))
    }

    open spec fn spec_hasher() -> Self {
        choose|h: Self| (#[trigger] h.spec_params()).is_pallas()
    }

    fn hash(&self, inputs: [Fp; L]) -> (r: Result<Fp, HashError>)
        ensures
            r == Ok::<Fp, HashError>(
                Fp::of_int(
                    digest(
                        self.spec_params().constants(),
                        self.spec_params().diagonal(),
                        Seq::new(L as nat, |i: int| inputs@[i].value()),
                    ),
                ),
            ),
    {
        Ok(self.digest(inputs))
    }

    fn hasher() -> (r: Self)
        ensures
            r.spec_params().is_pallas(),
    {
        Poseidon2::<Fp, L>::new()
    }
}

} // verus!
