//! The Poseidon hash over the Pallas base field, and the trait through which the trees
//! take their hash function.
use ff::{Field, PrimeFieldBits};
use halo2_gadgets::poseidon::primitives;
use halo2_gadgets::poseidon::primitives::{
    generate_constants, ConstantLength, Mds, P128Pow5T3, Spec,
};
use pasta_curves::pallas;
use std::marker::PhantomData;
use vstd::prelude::*;

use crate::field;
use crate::field::PrimeField;
use crate::fp;
use crate::fp::Fp;
use crate::residue;

verus! {

/// The error of a hash function that could not produce a digest.
#[derive(Debug, PartialEq, Eq)]
pub struct HashError {
    /// What went wrong.
    pub message: String,
}

/// A hash function from `L` field elements to one.
///
/// What is proved of trees and paths rests on `hash` giving the same result for the same
/// inputs: that of `spec_hash`. An implementation that is not verified leaves the two
/// specification functions out.
pub trait FieldHasher<F: PrimeField, const L: usize>: Sized {
    /// The digest of `inputs`, or the error that hashing them gives.
    open spec fn spec_hash(&self, inputs: Seq<F>) -> Result<F, HashError> {
        arbitrary()
    }

    /// The hasher that [`FieldHasher::hasher`] makes.
    open spec fn spec_hasher() -> Self {
        arbitrary()
    }

    /// Hashes `inputs`.
    fn hash(&self, inputs: [F; L]) -> (r: Result<F, HashError>)
        requires
            L > 0,
        ensures
            r == self.spec_hash(inputs@),
    ;

    /// The hasher with its default parameters.
    fn hasher() -> (r: Self)
        ensures
            r == Self::spec_hasher(),
    ;
}

/// The hash of the node whose children hold `left` and `right`.
pub open spec fn pair_hash<F: PrimeField, H: FieldHasher<F, 2>>(
    hasher: &H,
    left: F,
    right: F,
) -> Result<F, HashError> {
    hasher.spec_hash(seq![left, right])
}

/// The digest of a pair that `hasher` can hash.
pub open spec fn node_hash<F: PrimeField, H: FieldHasher<F, 2>>(
    hasher: &H,
    left: F,
    right: F,
) -> F {
    pair_hash::<F, H>(hasher, left, right)->Ok_0
}

/// `hasher` gives a digest for every pair.
pub open spec fn total<F: PrimeField, H: FieldHasher<F, 2>>(hasher: &H) -> bool {
    forall|left: F, right: F| (#[trigger] pair_hash::<F, H>(hasher, left, right)) is Ok
}

/// Hashes the pair of `left` and `right`.
pub fn hash_pair<F: PrimeField, H: FieldHasher<F, 2>>(hasher: &H, left: F, right: F) -> (r: Result<
    F,
    HashError,
>)
    ensures
        r == pair_hash::<F, H>(hasher, left, right),
        r == hasher.spec_hash(seq![left, right]),
{
    let inputs: [F; 2] = [left, right];
    assert(inputs@ =~= seq![left, right]);
    hasher.hash(inputs)
}

/// The Poseidon parameters of width 3 and rate 2 for 128 bits of security, with the S-box
/// `x^5`. `SECURE_MDS` selects the matrix: that many sampled matrices are passed over.
#[derive(Debug)]
pub struct SmtP128Pow5T3<F: PrimeField, const SECURE_MDS: usize>(PhantomData<F>);

impl<F: PrimeField, const SECURE_MDS: usize> Clone for SmtP128Pow5T3<F, SECURE_MDS> {
    fn clone(&self) -> (r: Self)
        ensures
            r == *self,
    {
        SmtP128Pow5T3(PhantomData)
    }
}

impl<F: PrimeField, const SECURE_MDS: usize> Default for SmtP128Pow5T3<F, SECURE_MDS> {
    fn default() -> (r: Self)
        ensures
            r == Self::spec_new(),
    {
        Self::new()
    }
}

impl<F: PrimeField, const SECURE_MDS: usize> SmtP128Pow5T3<F, SECURE_MDS> {
    /// The one value of the type.
    pub closed spec fn spec_new() -> Self {
        SmtP128Pow5T3(PhantomData)
    }

    /// The parameter set.
    pub fn new() -> (r: Self)
        ensures
            r == Self::spec_new(),
    {
        SmtP128Pow5T3(PhantomData)
    }

    /// The number of rounds that apply the S-box to the whole state.
    pub fn full_rounds() -> (r: usize)
        ensures
            r == 8,
    {
        8
    }

    /// The number of rounds that apply the S-box to one state word.
    pub fn partial_rounds() -> (r: usize)
        ensures
            r == 56,
    {
        56
    }

    /// How many sampled matrices are passed over.
    pub fn secure_mds() -> (r: usize)
        ensures
            r == SECURE_MDS,
    {
        SECURE_MDS
    }

    /// The S-box: the fifth power.
    pub fn sbox(val: F) -> (r: F)
        ensures
            r == F::of_int(val.value() * val.value() * val.value() * val.value() * val.value()),
    {
        let square: F = val.times(val);
        let cube: F = square.times(val);
        let fourth: F = cube.times(val);
        let v = Ghost(val.value());
        proof {
            field::lemma_times_absorbs::<F>(v@ * v@, v@);
            field::lemma_times_absorbs::<F>(v@ * v@ * v@, v@);
            field::lemma_times_absorbs::<F>(v@ * v@ * v@ * v@, v@);
        }
        fourth.times(val)
    }
}

/// The Pallas base field of the `pasta_curves` crate.
#[verifier::external_type_specification]
#[verifier::external_body]
pub struct ExBase(pallas::Base);

impl<const SECURE_MDS: usize> Spec<pallas::Base, 3, 2> for SmtP128Pow5T3<Fp, SECURE_MDS> {
    fn full_rounds() -> (r: usize)
        ensures
            r == 8,
    {
        8
    }

    fn partial_rounds() -> (r: usize)
        ensures
            r == 56,
    {
        56
    }

    /// `ff::Field::pow_vartime` with the exponent 5.
    #[verifier::external_body]
    fn sbox(val: pallas::Base) -> pallas::Base {
        val.pow_vartime([5])
    }

    fn secure_mds() -> (r: usize)
        ensures
            r == SECURE_MDS,
    {
        SECURE_MDS
    }

    /// The round constants, the matrix and the inverse of the matrix. For the first matrix
    /// they are looked up. What they are is said of the inherent function of the same name.
    fn constants() -> (Vec<[pallas::Base; 3]>, Mds<pallas::Base, 3>, Mds<pallas::Base, 3>) {
        if SECURE_MDS == 0 {
            standard_constants()
        } else {
            sampled_constants::<SECURE_MDS>()
        }
    }
}

/// `Spec::constants` of `P128Pow5T3` in `halo2_gadgets`: the table of what
/// `generate_constants` makes with the first matrix.
#[verifier::external_body]
fn standard_constants() -> (
    Vec<[pallas::Base; 3]>,
    Mds<pallas::Base, 3>,
    Mds<pallas::Base, 3>,
) {
    P128Pow5T3::constants()
}

/// `generate_constants` of `halo2_gadgets`, as `pasta_curves` elements.
#[verifier::external_body]
fn sampled_constants<const SECURE_MDS: usize>() -> (
    Vec<[pallas::Base; 3]>,
    Mds<pallas::Base, 3>,
    Mds<pallas::Base, 3>,
) {
    generate_constants::<_, SmtP128Pow5T3<Fp, SECURE_MDS>, 3, 2>()
}

/// The integers that the field elements of a sequence stand for.
pub open spec fn values(elements: Seq<Fp>) -> Seq<int> {
    elements.map_values(|f: Fp| f.value())
}

/// The rows hold the field elements of the integers in `matrix`.
pub open spec fn is_matrix(rows: Seq<[Fp; 3]>, matrix: Seq<Seq<int>>) -> bool {
    &&& rows.len() == matrix.len()
    &&& forall|i: int, j: int|
        0 <= i < rows.len() && 0 <= j < 3 ==> (#[trigger] rows[i]@[j]) == Fp::of_int(matrix[i][j])
}

/// The integers that a sequence of four-word numbers writes down.
pub open spec fn words_values(numbers: Seq<[u64; 4]>) -> Seq<int> {
    numbers.map_values(|number: [u64; 4]| fp::words_value(number@))
}

/// The integers that a matrix of four-word numbers writes down, row by row.
pub open spec fn words_matrix_values(rows: Seq<[[u64; 4]; 3]>) -> Seq<Seq<int>> {
    rows.map_values(|row: [[u64; 4]; 3]| words_values(row@))
}

/// Every number of the matrix is below the modulus.
pub open spec fn words_matrix_reduced(rows: Seq<[[u64; 4]; 3]>) -> bool {
    forall|i: int, j: int|
        0 <= i < rows.len() && 0 <= j < 3 ==> fp::words_value((#[trigger] rows[i]@[j])@)
            < fp::pallas_modulus()
}

/// The round constants (a row of three for each round), the matrix and the inverse of the
/// matrix that `generate_constants` makes for width 3, 8 full and 56 partial rounds over
/// the Pallas base field, after passing over `secure_mds` sampled matrices.
pub uninterp spec fn poseidon_constants(secure_mds: int) -> (
    Seq<Seq<int>>,
    Seq<Seq<int>>,
    Seq<Seq<int>>,
);

/// Two 3 by 3 matrices are inverse to each other modulo the Pallas modulus.
pub open spec fn are_inverse(a: Seq<Seq<int>>, b: Seq<Seq<int>>) -> bool {
    forall|i: int, j: int|
        #![trigger a[i], b[0][j]]
        0 <= i < 3 && 0 <= j < 3 ==> residue::congruent(
            a[i][0] * b[0][j] + a[i][1] * b[1][j] + a[i][2] * b[2][j],
            if i == j {
                1
            } else {
                0
            },
            fp::pallas_modulus(),
        )
}

/// `generate_constants` of `halo2_gadgets`: 64 rows of round constants, the matrix and its
/// inverse, all as least representatives. They depend on `SECURE_MDS` alone. The function
/// asserts that no entry of the selected matrix is the inverse of zero; no `SECURE_MDS` is
/// known for which one would be.
#[verifier::external_body]
fn generated_constants<const SECURE_MDS: usize>() -> (r: (
    Vec<[[u64; 4]; 3]>,
    [[[u64; 4]; 3]; 3],
    [[[u64; 4]; 3]; 3],
))
    ensures
        r.0@.len() == 64,
        words_matrix_reduced(r.0@),
        words_matrix_reduced(r.1@),
        words_matrix_reduced(r.2@),
        (words_matrix_values(r.0@), words_matrix_values(r.1@), words_matrix_values(r.2@))
            == poseidon_constants(SECURE_MDS as int),
        are_inverse(words_matrix_values(r.1@), words_matrix_values(r.2@)),
{
    let (rounds, mds, mds_inv) =
        generate_constants::<pallas::Base, SmtP128Pow5T3<Fp, SECURE_MDS>, 3, 2>();
    (
        rounds.into_iter().map(|row| row.map(|x| x.to_le_bits().into_inner())).collect(),
        mds.map(|row| row.map(|x| x.to_le_bits().into_inner())),
        mds_inv.map(|row| row.map(|x| x.to_le_bits().into_inner())),
    )
}

/// The field elements of a row of reduced numbers.
fn row_elements(row: [[u64; 4]; 3]) -> (r: [Fp; 3])
    requires
        forall|j: int| 0 <= j < 3 ==> fp::words_value((#[trigger] row@[j])@) < fp::pallas_modulus(),
    ensures
        forall|j: int|
            0 <= j < 3 ==> (#[trigger] r@[j]) == Fp::of_int(fp::words_value(row@[j]@)),
{
    [Fp::from_reduced(row[0]), Fp::from_reduced(row[1]), Fp::from_reduced(row[2])]
}

/// The field elements of a matrix of reduced numbers.
fn matrix_elements(rows: [[[u64; 4]; 3]; 3]) -> (r: [[Fp; 3]; 3])
    requires
        words_matrix_reduced(rows@),
    ensures
        is_matrix(r@, words_matrix_values(rows@)),
{
    [row_elements(rows[0]), row_elements(rows[1]), row_elements(rows[2])]
}

impl<const SECURE_MDS: usize> SmtP128Pow5T3<Fp, SECURE_MDS> {
    /// The round constants, the matrix and the inverse of the matrix.
    pub fn constants() -> (r: (Vec<[Fp; 3]>, [[Fp; 3]; 3], [[Fp; 3]; 3]))
        ensures
            r.0@.len() == 64,
            is_matrix(r.0@, poseidon_constants(SECURE_MDS as int).0),
            is_matrix(r.1@, poseidon_constants(SECURE_MDS as int).1),
            is_matrix(r.2@, poseidon_constants(SECURE_MDS as int).2),
            are_inverse(
                poseidon_constants(SECURE_MDS as int).1,
                poseidon_constants(SECURE_MDS as int).2,
            ),
            forall|i: int, j: int|
                0 <= i < 64 && 0 <= j < 3 ==> (#[trigger] r.0@[i]@[j]) == Fp::of_int(
                    poseidon_constants(SECURE_MDS as int).0[i][j],
                ),
            forall|i: int, j: int|
                0 <= i < 3 && 0 <= j < 3 ==> (#[trigger] r.1@[i]@[j]) == Fp::of_int(
                    poseidon_constants(SECURE_MDS as int).1[i][j],
                ),
            forall|i: int, j: int|
                0 <= i < 3 && 0 <= j < 3 ==> (#[trigger] r.2@[i]@[j]) == Fp::of_int(
                    poseidon_constants(SECURE_MDS as int).2[i][j],
                ),
    {
        let (words, mds, mds_inv) = generated_constants::<SECURE_MDS>();
        let mut rounds: Vec<[Fp; 3]> = Vec::new();
        for i in 0..words.len()
            invariant
                words_matrix_reduced(words@),
                rounds@.len() == i,
                forall|k: int, j: int|
                    0 <= k < i && 0 <= j < 3 ==> (#[trigger] rounds@[k]@[j]) == Fp::of_int(
                        fp::words_value(words@[k]@[j]@),
                    ),
        {
            rounds.push(row_elements(words[i]));
        }
        (rounds, matrix_elements(mds), matrix_elements(mds_inv))
    }
}

/// The Poseidon hash of `L` field elements.
#[derive(Debug)]
pub struct Poseidon<F: PrimeField, const L: usize>(PhantomData<F>);

impl<F: PrimeField, const L: usize> Clone for Poseidon<F, L> {
    fn clone(&self) -> (r: Self)
        ensures
            r == *self,
    {
        Poseidon(PhantomData)
    }
}

impl<F: PrimeField, const L: usize> Default for Poseidon<F, L> {
    fn default() -> (r: Self)
        ensures
            r == Self::spec_new(),
    {
        Self::new()
    }
}

impl<F: PrimeField, const L: usize> Poseidon<F, L> {
    /// The one value of the type.
    pub closed spec fn spec_new() -> Self {
        Poseidon(PhantomData)
    }

    /// The hasher.
    pub fn new() -> (r: Self)
        ensures
            r == Self::spec_new(),
    {
        Poseidon(PhantomData)
    }
}

/// The Poseidon digest of a message of fixed length over the Pallas base field, with the
/// parameters of [`SmtP128Pow5T3`] whose matrix is the first one sampled.
pub uninterp spec fn poseidon_digest(message: Seq<int>) -> int;

/// `Hash::init().hash(..)` of `halo2_gadgets` with the parameters of [`SmtP128Pow5T3`] and the
/// domain `ConstantLength<L>`: the digest of the message, as a least representative. It fails
/// on the empty message.
#[verifier::external_body]
fn poseidon_hash<const L: usize>(message: [[u64; 4]; L]) -> (r: [u64; 4])
    requires
        L > 0,
        forall|i: int|
            0 <= i < L ==> fp::words_value((#[trigger] message@[i])@) < fp::pallas_modulus(),
    ensures
        fp::words_value(r@) < fp::pallas_modulus(),
        fp::words_value(r@) == poseidon_digest(words_values(message@)),
{
    primitives::Hash::<_, SmtP128Pow5T3<Fp, 0>, ConstantLength<L>, 3, 2>::init()
        .hash(message.map(pallas::Base::from_raw))
        .to_le_bits()
        .into_inner()
}

impl<const L: usize> FieldHasher<Fp, L> for Poseidon<Fp, L> {
    open spec fn spec_hash(&self, inputs: Seq<Fp>) -> Result<Fp, HashError> {
        Ok(Fp::of_int(poseidon_digest(values(inputs))))
    }

    open spec fn spec_hasher() -> Self {
        Self::spec_new()
    }

    fn hash(&self, inputs: [Fp; L]) -> (r: Result<Fp, HashError>)
        ensures
            r is Ok,
            r == Ok::<Fp, HashError>(
                Fp::of_int(poseidon_digest(Seq::new(L as nat, |i: int| inputs@[i].value()))),
            ),
    {
        let mut message: [[u64; 4]; L] = [[0; 4]; L];
        for i in 0..L
            invariant
                forall|k: int|
                    0 <= k < i ==> fp::words_value((#[trigger] message@[k])@) == inputs@[k].value()
                        && fp::words_value(message@[k]@) < fp::pallas_modulus(),
        {
            message[i] = inputs[i].to_words();
        }
        assert(words_values(message@) =~= values(inputs@));
        assert(values(inputs@) =~= Seq::new(L as nat, |i: int| inputs@[i].value()));
        Ok(Fp::from_reduced(poseidon_hash(message)))
    }

    fn hasher() -> (r: Self) {
        Poseidon::<Fp, L>::default()
    }
}

} // verus!
