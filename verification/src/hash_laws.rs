//! Laws of the hash functions: what a digest is of the words of the message, for messages of
//! every length.
use vstd::prelude::*;

use crate::circuit::expr;
use crate::circuit::expr::{Cells, Expr};
use crate::circuit::poseidon2 as circuit;
use crate::circuit::poseidon2_laws;
use crate::circuit::poseidon2_laws::Block;
use crate::field::PrimeField;
use crate::fp;
use crate::fp::Fp;
use crate::poseidon;
use crate::poseidon::{FieldHasher, HashError, Poseidon};
use crate::poseidon2;
use crate::poseidon2::{Poseidon2, Poseidon2Params, State3};
use crate::residue;

verus! {

/// The hash of a pair is the hash of the message of the two words, the left one first, and a
/// hash function is total where it gives a digest for every such message.
pub proof fn law_pair_hash<F: PrimeField, H: FieldHasher<F, 2>>(hasher: &H, left: F, right: F)
    ensures
        poseidon::pair_hash::<F, H>(hasher, left, right) == hasher.spec_hash(seq![left, right]),
        hasher.spec_hash(seq![left, right]) is Ok ==> hasher.spec_hash(seq![left, right]) == Ok::<
            F,
            HashError,
        >(poseidon::node_hash::<F, H>(hasher, left, right)),
        poseidon::total::<F, H>(hasher) <==> forall|a: F, b: F|
            hasher.spec_hash(#[trigger] seq![a, b]) is Ok,
{
    if forall|a: F, b: F| hasher.spec_hash(#[trigger] seq![a, b]) is Ok {
        assert forall|a: F, b: F| (#[trigger] poseidon::pair_hash::<F, H>(hasher, a, b)) is Ok by {
            assert(hasher.spec_hash(seq![a, b]) is Ok);
        }
    }
    if poseidon::total::<F, H>(hasher) {
        assert forall|a: F, b: F| hasher.spec_hash(#[trigger] seq![a, b]) is Ok by {
            assert(poseidon::pair_hash::<F, H>(hasher, a, b) is Ok);
        }
    }
}

/// The Poseidon hash of a message of any length, whatever its words are, is the element of
/// the digest of the values of the words, in their order.
pub proof fn law_poseidon_hash<const L: usize>(hasher: &Poseidon<Fp, L>, inputs: Seq<Fp>)
    ensures
        hasher.spec_hash(inputs) == Ok::<Fp, HashError>(
            Fp::of_int(
                poseidon::poseidon_digest(Seq::new(inputs.len(), |i: int| inputs[i].value())),
            ),
        ),
        poseidon::values(inputs) == Seq::new(inputs.len(), |i: int| inputs[i].value()),
{
    assert(poseidon::values(inputs) =~= Seq::new(inputs.len(), |i: int| inputs[i].value()));
}

/// The numbers that the words of a message and of a matrix write down keep their places.
pub proof fn law_words_keep_places(numbers: Seq<[u64; 4]>, rows: Seq<[[u64; 4]; 3]>)
    ensures
        poseidon::words_values(numbers) == Seq::new(
            numbers.len(),
            |i: int| fp::words_value(numbers[i]@),
        ),
        poseidon::words_matrix_values(rows).len() == rows.len(),
        forall|i: int|
            0 <= i < rows.len() ==> (#[trigger] poseidon::words_matrix_values(rows)[i]).len() == 3,
        forall|i: int, j: int|
            0 <= i < rows.len() && 0 <= j < 3 ==> #[trigger] poseidon::words_matrix_values(
                rows,
            )[i][j] == fp::words_value(rows[i]@[j]@),
{
    assert(poseidon::words_values(numbers) =~= Seq::new(
        numbers.len(),
        |i: int| fp::words_value(numbers[i]@),
    ));
}

/// The product of two inverse matrices is the unit matrix modulo the Pallas modulus.
pub proof fn law_inverse_matrices(a: Seq<Seq<int>>, b: Seq<Seq<int>>, i: int, j: int)
    requires
        poseidon::are_inverse(a, b),
        0 <= i < 3,
        0 <= j < 3,
    ensures
        (a[i][0] * b[0][j] + a[i][1] * b[1][j] + a[i][2] * b[2][j]) % fp::pallas_modulus() == (
        if i == j {
            1int
        } else {
            0int
        }),
{
    let row = a[i];
    let entry = b[0][j];
    assert(residue::congruent(
        a[i][0] * b[0][j] + a[i][1] * b[1][j] + a[i][2] * b[2][j],
        if i == j {
            1
        } else {
            0
        },
        fp::pallas_modulus(),
    ));
}

/// The words of a state are residues: elements hold a state exactly where the value of each
/// is the remainder of the word in its place.
pub proof fn law_state_words<F: PrimeField>(st: Seq<F>, s: State3)
    ensures
        poseidon2::values3(st) == (State3 {
            a: st[0].value(),
            b: st[1].value(),
            c: st[2].value(),
        }),
        poseidon2::is_state(st, s) <==> st[0].value() == s.a % F::modulus() && st[1].value() == s.b
            % F::modulus() && st[2].value() == s.c % F::modulus(),
{
    F::lemma_of_int(s.a);
    F::lemma_of_int(s.b);
    F::lemma_of_int(s.c);
    if st[0].value() == s.a % F::modulus() {
        F::lemma_value_injective(st[0], F::of_int(s.a));
    }
    if st[1].value() == s.b % F::modulus() {
        F::lemma_value_injective(st[1], F::of_int(s.b));
    }
    if st[2].value() == s.c % F::modulus() {
        F::lemma_value_injective(st[2], F::of_int(s.c));
    }
}

/// The parameters as integers: every round constant and every entry of the diagonal in its
/// place.
pub proof fn law_parameters<F: PrimeField>(params: &Poseidon2Params<F>)
    ensures
        params.constants().len() == 64,
        forall|round: int|
            0 <= round < 64 ==> #[trigger] params.constants()[round] == (State3 {
                a: params.round_constants@[round]@[0].value(),
                b: params.round_constants@[round]@[1].value(),
                c: params.round_constants@[round]@[2].value(),
            }),
        params.diagonal() == (State3 {
            a: params.mat_internal_diag_m_1@[0].value(),
            b: params.mat_internal_diag_m_1@[1].value(),
            c: params.mat_internal_diag_m_1@[2].value(),
        }),
{
}

/// The rounds take the generated numbers one after another: the first round starts with the
/// first number, a full round takes three and a partial round one, and the 64 rounds take 80
/// in all. The first four and the last four rounds are full.
pub proof fn law_constants_in_order(round: int, j: int)
    requires
        0 <= round < 64,
        0 <= j < 3,
    ensures
        poseidon2::is_full(round) <==> !(4 <= round < 60),
        poseidon2::first_constant(0) == 0,
        poseidon2::first_constant(round + 1) == poseidon2::first_constant(round) + (
        if poseidon2::is_full(round) {
            3int
        } else {
            1int
        }),
        poseidon2::first_constant(64) == 80,
        poseidon2::generated(3 * round + j) == poseidon::poseidon_constants(0).0[round][j],
        poseidon2::is_full(round) || j == 0 ==> poseidon2::round_constant(round, j)
            == poseidon2::generated(poseidon2::first_constant(round) + j),
        !(poseidon2::is_full(round) || j == 0) ==> poseidon2::round_constant(round, j) == 0,
{
    assert((3 * round + j) / 3 == round && (3 * round + j) % 3 == j);
}

/// The permutation starts with the external matrix. A full round adds the constants, raises
/// every word to the fifth power and applies the external matrix. A partial round does so with
/// the first word, and applies the internal matrix.
pub proof fn law_rounds(constants: Seq<State3>, diagonal: State3, s: State3, n: nat)
    ensures
        poseidon2::after_rounds(constants, diagonal, s, 0) == (State3 {
            a: 2 * s.a + s.b + s.c,
            b: s.a + 2 * s.b + s.c,
            c: s.a + s.b + 2 * s.c,
        }),
        n < 4 || n >= 60 ==> ({
            let t = poseidon2::after_rounds(constants, diagonal, s, n);
            let x = residue::pow5(t.a + constants[n as int].a);
            let y = residue::pow5(t.b + constants[n as int].b);
            let z = residue::pow5(t.c + constants[n as int].c);
            poseidon2::after_rounds(constants, diagonal, s, n + 1) == (State3 {
                a: 2 * x + y + z,
                b: x + 2 * y + z,
                c: x + y + 2 * z,
            })
        }),
        4 <= n < 60 ==> ({
            let t = poseidon2::after_rounds(constants, diagonal, s, n);
            let x = residue::pow5(t.a + constants[n as int].a);
            poseidon2::after_rounds(constants, diagonal, s, n + 1) == (State3 {
                a: x * diagonal.a + (x + t.b + t.c),
                b: t.b * diagonal.b + (x + t.b + t.c),
                c: t.c * diagonal.c + (x + t.b + t.c),
            })
        }),
{
    let below = (n + 1 - 1) as nat;
    assert(below == n);
    assert(poseidon2::after_rounds(constants, diagonal, s, n + 1) == poseidon2::round_of(
        poseidon2::after_rounds(constants, diagonal, s, n),
        constants[n as int],
        diagonal,
        n as int,
    ));
}

/// State `k` of a sponge comes from the one before it: permutation `k` takes in words `2k` and
/// `2k + 1` of the message, the latter where there is one. The first one starts from zero,
/// zero and the length of the message.
pub open spec fn sponge_step(
    constants: Seq<State3>,
    diagonal: State3,
    message: Seq<int>,
    states: Seq<State3>,
    k: int,
) -> bool {
    let before = if k == 0 {
        State3 { a: 0, b: 0, c: message.len() as int }
    } else {
        states[k - 1]
    };
    let second = if 2 * k + 1 < message.len() {
        message[2 * k + 1]
    } else {
        0
    };
    states[k] == poseidon2::after_rounds(
        constants,
        diagonal,
        State3 { a: before.a + message[2 * k], b: before.b + second, c: before.c },
        64,
    )
}

/// The states after the permutations of a message, one for every two words and one for a
/// last single word.
pub open spec fn are_sponge_states(
    constants: Seq<State3>,
    diagonal: State3,
    message: Seq<int>,
    states: Seq<State3>,
) -> bool {
    &&& 2 * states.len() == message.len() || 2 * states.len() == message.len() + 1
    &&& forall|k: int|
        0 <= k < states.len() ==> #[trigger] sponge_step(constants, diagonal, message, states, k)
}

/// The digest of a message of any length is the first word of the last state of its sponge,
/// which takes in every word; the digest of the message without words is zero.
pub proof fn law_digest(
    constants: Seq<State3>,
    diagonal: State3,
    message: Seq<int>,
    states: Seq<State3>,
)
    requires
        are_sponge_states(constants, diagonal, message, states),
    ensures
        message.len() > 0 ==> poseidon2::digest(constants, diagonal, message)
            == states[states.len() - 1].a,
        message.len() == 0 ==> poseidon2::digest(constants, diagonal, message) == 0,
{
    if message.len() > 0 {
        lemma_sponge_states(constants, diagonal, message, states, states.len());
        assert(rest_of(message, states.len() as int) =~= Seq::empty());
    }
}

/// Every message has the states of a sponge, and they are the only ones.
pub proof fn law_sponge_states(constants: Seq<State3>, diagonal: State3, message: Seq<int>)
    ensures
        exists|states: Seq<State3>| #[trigger]
            are_sponge_states(constants, diagonal, message, states),
        forall|s: Seq<State3>, t: Seq<State3>| #[trigger]
            are_sponge_states(constants, diagonal, message, s) && #[trigger] are_sponge_states(
                constants,
                diagonal,
                message,
                t,
            ) ==> s == t,
{
    let states = lemma_make_states(constants, diagonal, message, (message.len() + 1) / 2);
    assert(are_sponge_states(constants, diagonal, message, states));
    assert forall|s: Seq<State3>, t: Seq<State3>| #[trigger]
        are_sponge_states(constants, diagonal, message, s) && #[trigger] are_sponge_states(
            constants,
            diagonal,
            message,
            t,
        ) implies s == t by {
        assert forall|k: int| 0 <= k < s.len() implies s[k] == t[k] by {
            lemma_same_states(constants, diagonal, message, s, t, k);
        }
        assert(s =~= t);
    }
}

proof fn lemma_make_states(
    constants: Seq<State3>,
    diagonal: State3,
    message: Seq<int>,
    n: nat,
) -> (states: Seq<State3>)
    ensures
        states.len() == n,
        forall|k: int|
            0 <= k < n ==> #[trigger] sponge_step(constants, diagonal, message, states, k),
    decreases n,
{
    if n == 0 {
        Seq::empty()
    } else {
        let below = lemma_make_states(constants, diagonal, message, (n - 1) as nat);
        let k = n - 1;
        let before = if k == 0 {
            State3 { a: 0, b: 0, c: message.len() as int }
        } else {
            below[k - 1]
        };
        let second = if 2 * k + 1 < message.len() {
            message[2 * k + 1]
        } else {
            0
        };
        let states = below.push(
            poseidon2::after_rounds(
                constants,
                diagonal,
                State3 { a: before.a + message[2 * k], b: before.b + second, c: before.c },
                64,
            ),
        );
        assert forall|j: int| 0 <= j < n implies #[trigger] sponge_step(
            constants,
            diagonal,
            message,
            states,
            j,
        ) by {
            if j < k {
                assert(sponge_step(constants, diagonal, message, below, j));
            }
        }
        states
    }
}

proof fn lemma_same_states(
    constants: Seq<State3>,
    diagonal: State3,
    message: Seq<int>,
    s: Seq<State3>,
    t: Seq<State3>,
    k: int,
)
    requires
        are_sponge_states(constants, diagonal, message, s),
        are_sponge_states(constants, diagonal, message, t),
        0 <= k < s.len(),
    ensures
        s.len() == t.len(),
        s[k] == t[k],
    decreases k,
{
    if k > 0 {
        lemma_same_states(constants, diagonal, message, s, t, k - 1);
    }
    assert(sponge_step(constants, diagonal, message, s, k));
    assert(sponge_step(constants, diagonal, message, t, k));
}

/// What is left of a message after `k` permutations.
spec fn rest_of(message: Seq<int>, k: int) -> Seq<int> {
    if 2 * k >= message.len() {
        Seq::empty()
    } else {
        message.skip(2 * k)
    }
}

proof fn lemma_sponge_states(
    constants: Seq<State3>,
    diagonal: State3,
    message: Seq<int>,
    states: Seq<State3>,
    k: nat,
)
    requires
        message.len() > 0,
        are_sponge_states(constants, diagonal, message, states),
        k <= states.len(),
    ensures
        poseidon2::sponge(
            constants,
            diagonal,
            State3 { a: 0, b: 0, c: message.len() as int },
            message,
        ) == poseidon2::sponge(
            constants,
            diagonal,
            if k == 0 {
                State3 { a: 0, b: 0, c: message.len() as int }
            } else {
                states[k - 1]
            },
            rest_of(message, k as int),
        ),
    decreases k,
{
    if k == 0 {
        assert(message.skip(0) =~= message);
    } else {
        let below = (k - 1) as nat;
        lemma_sponge_states(constants, diagonal, message, states, below);
        let rest = rest_of(message, below as int);
        let s = if below == 0 {
            State3 { a: 0, b: 0, c: message.len() as int }
        } else {
            states[below - 1]
        };
        assert(rest.len() == message.len() - 2 * below);
        assert(rest[0] == message[2 * below as int]);
        let start = poseidon2::absorbed(s, rest);
        if rest.len() >= 2 {
            assert(rest[1] == message[2 * below as int + 1]);
            assert(rest.skip(2) =~= rest_of(message, k as int));
        }
        assert(sponge_step(constants, diagonal, message, states, below as int));
        assert(states[below as int] == poseidon2::after_rounds(constants, diagonal, start, 64));
    }
}

/// The Poseidon2 hash of a message of any length is the element of the digest of the values
/// of all words, in their order.
pub proof fn law_poseidon2_hash<const L: usize>(hasher: &Poseidon2<Fp, L>, inputs: Seq<Fp>)
    ensures
        hasher.spec_hash(inputs) == Ok::<Fp, HashError>(hasher.spec_digest(inputs)),
        hasher.spec_digest(inputs) == Fp::of_int(
            poseidon2::digest(
                hasher.spec_params().constants(),
                hasher.spec_params().diagonal(),
                Seq::new(inputs.len(), |i: int| inputs[i].value()),
            ),
        ),
{
    law_digest_of_elements(hasher, inputs);
}

/// The digest of elements of any field is that of their values.
pub proof fn law_digest_of_elements<F: PrimeField, const L: usize>(
    hasher: &Poseidon2<F, L>,
    inputs: Seq<F>,
)
    ensures
        hasher.spec_digest(inputs) == F::of_int(
            poseidon2::digest(
                hasher.spec_params().constants(),
                hasher.spec_params().diagonal(),
                Seq::new(inputs.len(), |i: int| inputs[i].value()),
            ),
        ),
        circuit::message_values(inputs) == Seq::new(inputs.len(), |i: int| inputs[i].value()),
{
    let plain = Seq::new(inputs.len(), |i: int| inputs[i].value());
    assert(inputs.map_values(|f: F| f.value()) =~= plain);
    assert(circuit::message_values(inputs) =~= plain);
}

/// The hash of a message of any length is the first word of the last row of the last trace:
/// what the rows of a circuit hold for the message is what the hash gives.
pub proof fn law_hash_ends_traces<F: PrimeField, const L: usize>(
    hasher: &Poseidon2<F, L>,
    inputs: Seq<F>,
    traces: Seq<(Vec<[F; 3]>, Vec<F>)>,
)
    requires
        inputs.len() > 0,
        circuit::are_hash_traces(&hasher.spec_params(), inputs, traces),
    ensures
        traces.len() > 0,
        traces[traces.len() - 1].0@[23]@[0] == hasher.spec_digest(inputs),
        traces[traces.len() - 1].0@[23]@[0] == F::of_int(
            poseidon2::digest(
                hasher.spec_params().constants(),
                hasher.spec_params().diagonal(),
                Seq::new(inputs.len(), |i: int| inputs[i].value()),
            ),
        ),
{
    let params = hasher.spec_params();
    let message = circuit::message_values(inputs);
    law_digest_of_elements(hasher, inputs);
    let last = (traces.len() - 1) as nat;
    lemma_traces(&params, inputs, traces, last);
    circuit::lemma_state_before(&params, message, traces.len());
    assert(circuit::message_rest(message, traces.len() as int) == Seq::<int>::empty());
}

proof fn lemma_traces<F: PrimeField>(
    params: &Poseidon2Params<F>,
    inputs: Seq<F>,
    traces: Seq<(Vec<[F; 3]>, Vec<F>)>,
    k: nat,
)
    requires
        inputs.len() > 0,
        circuit::are_hash_traces(params, inputs, traces),
        k < traces.len(),
    ensures
        poseidon2::is_state(
            traces[k as int].0@[23]@,
            circuit::state_before(params, circuit::message_values(inputs), k + 1),
        ),
    decreases k,
{
    let m = F::modulus();
    let message = circuit::message_values(inputs);
    let states = traces[k as int].0@;
    let s = circuit::state_before(params, message, k);
    F::lemma_modulus();
    assert(circuit::is_trace(params, traces[k as int].0@, traces[k as int].1@));
    if k == 0 {
        F::lemma_of_int(0);
        F::lemma_of_int(inputs.len() as int);
        residue::lemma_remainder(0, m);
        residue::lemma_remainder(inputs.len() as int, m);
    } else {
        let before = poseidon2::values3(traces[k - 1].0@[23]@);
        let words = circuit::message_words(message, k as int);
        lemma_traces(params, inputs, traces, (k - 1) as nat);
        poseidon2::lemma_values3::<F>(traces[k - 1].0@[23]@, s);
        poseidon2::lemma_values3::<F>(
            states[0]@,
            circuit::with_words(before, message, k as int),
        );
        residue::lemma_sum(before.a, s.a, words.0, words.0, m);
        residue::lemma_sum(before.b, s.b, words.1, words.1, m);
    }
    circuit::lemma_after_trace(params, states, message, k);
}

/// The parameters for the Pallas base field: the rounds take the generated numbers in their
/// order, the diagonal less one is 1, 1, 2, and the words that no round uses are zero.
pub proof fn law_pallas_parameters(params: &Poseidon2Params<Fp>, round: int, j: int)
    requires
        params.is_pallas(),
        0 <= round < 64,
        0 <= j < 3,
    ensures
        round < 4 ==> params.round_constants@[round]@[j] == Fp::of_int(
            poseidon::poseidon_constants(0).0[round][j],
        ),
        4 <= round < 60 && j == 0 ==> params.round_constants@[round]@[j] == Fp::of_int(
            poseidon::poseidon_constants(0).0[(round + 8) / 3][(round + 8) % 3],
        ),
        4 <= round < 60 && j > 0 ==> params.round_constants@[round]@[j] == Fp::of_int(0),
        round >= 60 ==> params.round_constants@[round]@[j] == Fp::of_int(
            poseidon::poseidon_constants(0).0[(3 * round + j - 112) / 3][(3 * round + j - 112) % 3],
        ),
        params.mat_internal_diag_m_1@[0] == Fp::of_int(1),
        params.mat_internal_diag_m_1@[1] == Fp::of_int(1),
        params.mat_internal_diag_m_1@[2] == Fp::of_int(2),
{
    assert(params.round_constants@[round]@[j] == Fp::of_int(poseidon2::round_constant(round, j)));
}

/// Whatever is put in the cells of a hash of any number of words: where all gates hold, the
/// last state of the last permutation starts with what the hash gives for the words.
pub proof fn law_gates_force_hash<F: PrimeField, const L: usize>(
    first: Seq<Expr<F>>,
    full: Seq<Expr<F>>,
    partial: Seq<Expr<F>>,
    absorb: Seq<Expr<F>>,
    hasher: &Poseidon2<F, L>,
    inputs: Seq<F>,
    blocks: Seq<Block>,
)
    requires
        inputs.len() > 0,
        poseidon2_laws::are_gates(first, full, partial),
        forall|cells: Cells| #[trigger]
            expr::has_values(absorb, cells, circuit::absorb_values(cells)),
        poseidon2::congruent3(
            hasher.spec_params().diagonal(),
            State3 { a: 1, b: 1, c: 2 },
            F::modulus(),
        ),
        2 * blocks.len() == inputs.len() || 2 * blocks.len() == inputs.len() + 1,
        poseidon2_laws::blocks_hold(
            first,
            full,
            partial,
            absorb,
            &hasher.spec_params(),
            Seq::new(inputs.len(), |i: int| inputs[i].value()),
            blocks,
            blocks.len() as int,
        ),
    ensures
        blocks[blocks.len() - 1].states[23].a % F::modulus() == hasher.spec_digest(inputs).value(),
{
    let message = Seq::new(inputs.len(), |i: int| inputs[i].value());
    let params = hasher.spec_params();
    law_digest_of_elements(hasher, inputs);
    poseidon2_laws::law_hash_sound(first, full, partial, absorb, &params, message, blocks);
    F::lemma_of_int(poseidon2::digest(params.constants(), params.diagonal(), message));
}

} // verus!
