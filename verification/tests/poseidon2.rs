use smt::field::PrimeField;
use smt::fp::Fp;
use smt::poseidon::FieldHasher;
use smt::poseidon2::{
    add_round_constants, matmul_external, matmul_internal, sbox, sbox_full, Poseidon2,
    Poseidon2Params, ROUNDS, R_F, R_P,
};

fn words(n: [u64; 4]) -> Fp {
    Fp::from_words(n).unwrap()
}

fn elements(n: [u64; 3]) -> [Fp; 3] {
    n.map(Fp::from_u64)
}

#[test]
fn permutation_of_the_pallas_test_vector() {
    let params = Poseidon2Params::new();
    let mut state = elements([0, 1, 2]);
    params.permute(&mut state);
    assert_eq!(
        state[0],
        words([0x0baae059b2268d7a, 0xea7251420b9d9575, 0xd778282c44b3513f, 0x1a9b54c7512a914d])
    );
    assert_eq!(
        state[1],
        words([0x9ba3380c9f7901fc, 0x81f5af883fe988d5, 0x4ea338a54dbf0c86, 0x1c48ea0994a7d798])
    );
    assert_eq!(
        state[2],
        words([0xc838f8a23120b401, 0x964766685f4c4842, 0x4489b526a2770448, 0x079ddd0a80a3e941])
    );
}

#[test]
fn the_hash_of_two_elements_is_a_permutation() {
    let params = Poseidon2Params::new();
    let hasher = Poseidon2::<Fp, 2>::new();
    let mut state = elements([6, 42, 2]);
    params.permute(&mut state);
    assert_eq!(hasher.hash([Fp::from_u64(6), Fp::from_u64(42)]).unwrap(), state[0]);
}

#[test]
fn the_hash_of_three_elements_takes_two_permutations() {
    let params = Poseidon2Params::new();
    let hasher = Poseidon2::<Fp, 3>::hasher();
    let mut state = elements([6, 42, 3]);
    params.permute(&mut state);
    state[0] = state[0].plus(Fp::from_u64(7));
    params.permute(&mut state);
    assert_eq!(hasher.hash(elements([6, 42, 7])).unwrap(), state[0]);
}

#[test]
fn different_messages_have_different_hashes() {
    let hasher = Poseidon2::<Fp, 2>::new();
    let a = hasher.hash([Fp::from_u64(1), Fp::from_u64(2)]).unwrap();
    assert_eq!(a, hasher.clone().hash([Fp::from_u64(1), Fp::from_u64(2)]).unwrap());
    assert_ne!(a, hasher.hash([Fp::from_u64(2), Fp::from_u64(1)]).unwrap());
    assert_ne!(a, Fp::zero());
}

#[test]
fn round_steps() {
    assert_eq!(R_F + R_P, ROUNDS);
    assert_eq!(sbox(Fp::from_u64(3)), Fp::from_u64(243));

    let mut state = elements([1, 2, 3]);
    sbox_full(&mut state);
    assert_eq!(state, elements([1, 32, 243]));

    let mut state = elements([1, 2, 3]);
    add_round_constants(&mut state, &elements([10, 20, 30]));
    assert_eq!(state, elements([11, 22, 33]));

    let mut state = elements([1, 2, 3]);
    matmul_external(&mut state);
    assert_eq!(state, elements([7, 8, 9]));

    let mut state = elements([1, 2, 3]);
    matmul_internal(&mut state, &elements([1, 1, 2]));
    assert_eq!(state, elements([7, 8, 12]));
}

#[test]
fn partial_rounds_have_one_constant() {
    let params = Poseidon2Params::new();
    assert_eq!(params.mat_internal_diag_m_1, elements([1, 1, 2]));
    for round in 4..60 {
        assert_eq!(params.round_constants[round][1], Fp::zero());
        assert_eq!(params.round_constants[round][2], Fp::zero());
    }
}
