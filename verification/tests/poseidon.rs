use ff::PrimeFieldBits;
use halo2_gadgets::poseidon::primitives;
use halo2_gadgets::poseidon::primitives::{ConstantLength, P128Pow5T3, Spec};
use pasta_curves::pallas::Base;
use smt::field::PrimeField;
use smt::fp::Fp;
use smt::poseidon::{FieldHasher, Poseidon, SmtP128Pow5T3};

#[test]
fn poseidon_hash_basic() {
    let message = [Fp::from_u64(6), Fp::from_u64(42)];

    let poseidon = Poseidon::<Fp, 2>::new();
    let result = poseidon.hash(message).unwrap();

    // The hash is not zero.
    assert_ne!(result, Fp::from_u64(0));

    // The same input gives the same output.
    let result2 = poseidon.hash(message).unwrap();
    assert_eq!(result, result2);

    // Another input gives another output.
    let message2 = [Fp::from_u64(7), Fp::from_u64(42)];
    let result3 = poseidon.hash(message2).unwrap();
    assert_ne!(result, result3);
}

#[test]
fn poseidon_spec_constants() {
    let (round_constants, mds, mds_inv) = SmtP128Pow5T3::<Fp, 0>::constants();

    let full_rounds = SmtP128Pow5T3::<Fp, 0>::full_rounds();
    let partial_rounds = SmtP128Pow5T3::<Fp, 0>::partial_rounds();
    assert_eq!(round_constants.len(), full_rounds + partial_rounds);

    assert_eq!(mds.len(), 3);
    assert_eq!(mds_inv.len(), 3);
}

fn to_base(f: Fp) -> Base {
    Base::from_raw(f.to_words())
}

#[test]
fn digests_are_those_of_the_standard_parameters() {
    for n in [0u64, 1, 2, 77] {
        let message = [Fp::from_u64(n), Fp::zero().minus(Fp::from_u64(n + 5))];
        let expected = primitives::Hash::<_, P128Pow5T3, ConstantLength<2>, 3, 2>::init()
            .hash(message.map(to_base));
        let generated = primitives::Hash::<_, SmtP128Pow5T3<Fp, 0>, ConstantLength<2>, 3, 2>::init()
            .hash(message.map(to_base));
        assert_eq!(expected, generated);
        let digest = Poseidon::<Fp, 2>::new().hash(message).unwrap();
        assert_eq!(digest.to_words(), expected.to_le_bits().into_inner());
    }
    let expected = primitives::Hash::<_, P128Pow5T3, ConstantLength<3>, 3, 2>::init()
        .hash([Base::from(1), Base::from(2), Base::from(3)]);
    let digest = Poseidon::<Fp, 3>::new()
        .hash([Fp::from_u64(1), Fp::from_u64(2), Fp::from_u64(3)])
        .unwrap();
    assert_eq!(digest.to_words(), expected.to_le_bits().into_inner());
}

#[test]
fn digest_of_the_published_test_vector() {
    // The hash of the message (0, 1) over the Pallas base field.
    let digest = Poseidon::<Fp, 2>::new().hash([Fp::from_u64(0), Fp::from_u64(1)]).unwrap();
    assert_eq!(
        digest.to_words(),
        [0x389d32a011d75883, 0xed83c2a7fb54cdbe, 0x9d6a1bc9399a083e, 0x062ff1c32bb0ef10]
    );
}

#[test]
fn constants_are_those_of_the_standard_parameters() {
    let (rounds, mds, mds_inv) = SmtP128Pow5T3::<Fp, 0>::constants();
    let expected: (Vec<[Base; 3]>, [[Base; 3]; 3], [[Base; 3]; 3]) =
        <P128Pow5T3 as Spec<Base, 3, 2>>::constants();
    for (row, expected_row) in rounds.iter().zip(expected.0.iter()) {
        assert_eq!(row.map(to_base), *expected_row);
    }
    assert_eq!(mds.map(|row| row.map(to_base)), expected.1);
    assert_eq!(mds_inv.map(|row| row.map(to_base)), expected.2);
    let (other_rounds, other_mds, _) = SmtP128Pow5T3::<Fp, 1>::constants();
    assert_eq!(other_rounds, rounds);
    for i in 0..3 {
        for j in 0..3 {
            let entry = (0..3).fold(Fp::zero(), |sum, k| sum.plus(mds[i][k].times(mds_inv[k][j])));
            assert_eq!(entry, if i == j { Fp::one() } else { Fp::zero() });
        }
    }
    assert_ne!(other_mds, mds);
}

#[test]
fn parameters_of_the_hash() {
    assert_eq!(SmtP128Pow5T3::<Fp, 0>::full_rounds(), 8);
    assert_eq!(SmtP128Pow5T3::<Fp, 0>::partial_rounds(), 56);
    assert_eq!(SmtP128Pow5T3::<Fp, 4>::secure_mds(), 4);
    assert_eq!(SmtP128Pow5T3::<Fp, 0>::sbox(Fp::from_u64(3)), Fp::from_u64(243));
    type Params = SmtP128Pow5T3<Fp, 0>;
    assert_eq!(<Params as Spec<Base, 3, 2>>::full_rounds(), 8);
    assert_eq!(<Params as Spec<Base, 3, 2>>::partial_rounds(), 56);
    assert_eq!(<Params as Spec<Base, 3, 2>>::secure_mds(), 0);
    assert_eq!(<Params as Spec<Base, 3, 2>>::sbox(Base::from(3)), Base::from(243));
}
