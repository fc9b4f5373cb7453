use ff::PrimeFieldBits;
use halo2_proofs::circuit::{AssignedCell, Layouter, SimpleFloorPlanner, Value};
use halo2_proofs::dev::MockProver;
use halo2_proofs::plonk::{
    create_proof, keygen_pk, keygen_vk, verify_proof, Advice, Circuit, Column, ConstraintSystem,
    Error, Expression, Fixed, Selector, SingleVerifier, VirtualCells,
};
use halo2_proofs::poly::commitment::Params;
use halo2_proofs::poly::Rotation;
use halo2_proofs::transcript::{Blake2bRead, Blake2bWrite, Challenge255};
use pasta_curves::pallas::Base;
use pasta_curves::EqAffine;
use rand::rngs::OsRng;
use rand::RngCore;
use smt::circuit::expr::Expr;
use smt::circuit::poseidon2::{
    absorb_gate, absorbs, first_gate, full_gate, hash_trace, partial_gate, permutation_count,
    row_constants, row_kind, word_cell, RowKind, ROWS,
};
use smt::circuit::smt::{
    calculate_root, calculate_sparse_root, check_membership, path_cells, sparse_path_cells,
};
use smt::circuit::utilities::{
    assert_equal_gate, bit_element, conditional_select, conditional_select_gate,
    conditional_swap_gate, is_eq_with_output, is_equal_gate, swap,
};
use smt::field::PrimeField;
use smt::fp::Fp;
use smt::path::{Path, SparsePath};
use smt::poseidon::FieldHasher;
use smt::poseidon2::{Poseidon2, Poseidon2Params};
use smt::smt::SparseMerkleTree;
use std::collections::BTreeMap;

type Cell = AssignedCell<Base, Base>;
type Hasher = Poseidon2<Fp, 2>;

fn random() -> Fp {
    let mut bytes = [0u8; 64];
    OsRng.fill_bytes(&mut bytes);
    Fp::from_uniform_bytes(&bytes)
}

fn to_base(f: Fp) -> Base {
    Base::from_raw(f.to_words())
}

fn to_fp(b: Base) -> Fp {
    Fp::from_words(b.to_le_bits().into_inner()).unwrap()
}

fn expression(
    meta: &mut VirtualCells<'_, Base>,
    expr: &Expr<Fp>,
    selector: Selector,
    fixed: &[Column<Fixed>],
    advice: &[Column<Advice>],
) -> Expression<Base> {
    match expr {
        Expr::Constant(f) => Expression::Constant(to_base(*f)),
        Expr::Selector => meta.query_selector(selector),
        Expr::Fixed(column) => meta.query_fixed(fixed[*column]),
        Expr::Current(column) => meta.query_advice(advice[*column], Rotation::cur()),
        Expr::Next(column) => meta.query_advice(advice[*column], Rotation::next()),
        Expr::Negated(a) => -expression(meta, a, selector, fixed, advice),
        Expr::Sum(a, b) => {
            expression(meta, a, selector, fixed, advice)
                + expression(meta, b, selector, fixed, advice)
        }
        Expr::Product(a, b) => {
            expression(meta, a, selector, fixed, advice)
                * expression(meta, b, selector, fixed, advice)
        }
    }
}

/// The columns and selectors of a circuit with all gates.
#[derive(Clone)]
struct Columns {
    advice: Vec<Column<Advice>>,
    fixed: Vec<Column<Fixed>>,
    select: Selector,
    is_equal: Selector,
    equal: Selector,
    swap: Selector,
    first: Selector,
    full: Selector,
    partial: Selector,
    absorb: Selector,
}

/// Columns for several rows of gates side by side.
fn lanes(meta: &mut ConstraintSystem<Base>, count: usize) -> Vec<Columns> {
    let constants = meta.fixed_column();
    meta.enable_constant(constants);
    (0..count).map(|_| columns(meta)).collect()
}

fn columns(meta: &mut ConstraintSystem<Base>) -> Columns {
    let advice: Vec<Column<Advice>> = (0..7).map(|_| meta.advice_column()).collect();
    for column in &advice {
        meta.enable_equality(*column);
    }
    let fixed: Vec<Column<Fixed>> = (0..4).map(|_| meta.fixed_column()).collect();
    let gates: [(&'static str, Vec<Expr<Fp>>); 8] = [
        ("select", conditional_select_gate()),
        ("is equal", is_equal_gate()),
        ("equal", assert_equal_gate()),
        ("swap", conditional_swap_gate()),
        ("first", first_gate()),
        ("full", full_gate()),
        ("partial", partial_gate()),
        ("absorb", absorb_gate()),
    ];
    let selectors: Vec<Selector> = gates
        .iter()
        .map(|(name, gate)| {
            let selector = meta.selector();
            meta.create_gate(name, |meta| {
                gate.iter()
                    .map(|expr| expression(meta, expr, selector, &fixed, &advice))
                    .collect::<Vec<_>>()
            });
            selector
        })
        .collect();
    Columns {
        advice,
        fixed,
        select: selectors[0],
        is_equal: selectors[1],
        equal: selectors[2],
        swap: selectors[3],
        first: selectors[4],
        full: selectors[5],
        partial: selectors[6],
        absorb: selectors[7],
    }
}

impl Columns {
    /// Puts values in the cells of a row.
    fn witness(&self, layouter: &mut impl Layouter<Base>, values: &[Fp]) -> Vec<Cell> {
        layouter
            .assign_region(
                || "witness",
                |mut region| {
                    values
                        .iter()
                        .enumerate()
                        .map(|(i, v)| {
                            let value = Value::known(to_base(*v));
                            region.assign_advice(|| "value", self.advice[i % 7], i / 7, || value)
                        })
                        .collect::<Result<Vec<Cell>, Error>>()
                },
            )
            .unwrap()
    }

    /// One row: copies of cells in some columns, computed values in others.
    fn row(
        &self,
        layouter: &mut impl Layouter<Base>,
        selector: Selector,
        copied: &[(usize, &Cell)],
        computed: &[(usize, Value<Fp>)],
    ) -> Result<Vec<Cell>, Error> {
        layouter.assign_region(
            || "row",
            |mut region| {
                selector.enable(&mut region, 0)?;
                for (column, cell) in copied {
                    cell.copy_advice(|| "copy", &mut region, self.advice[*column], 0)?;
                }
                computed
                    .iter()
                    .map(|(column, value)| {
                        region.assign_advice(
                            || "computed",
                            self.advice[*column],
                            0,
                            || value.map(to_base),
                        )
                    })
                    .collect()
            },
        )
    }

    fn swap(
        &self,
        layouter: &mut impl Layouter<Base>,
        a: &Cell,
        b: &Cell,
        bit: &Cell,
    ) -> Result<(Cell, Cell), Error> {
        let out = value(a).zip(value(b)).zip(value(bit)).map(|((a, b), bit)| swap(a, b, bit));
        let cells = self.row(
            layouter,
            self.swap,
            &[(0, a), (1, b), (2, bit)],
            &[(3, out.map(|o| o.0)), (4, out.map(|o| o.1))],
        )?;
        Ok((cells[0].clone(), cells[1].clone()))
    }

    fn select(
        &self,
        layouter: &mut impl Layouter<Base>,
        a: &Cell,
        b: &Cell,
        cond: &Cell,
    ) -> Result<Cell, Error> {
        let out = value(a)
            .zip(value(b))
            .zip(value(cond))
            .map(|((a, b), c)| conditional_select(a, b, c));
        let cells =
            self.row(layouter, self.select, &[(0, a), (1, b), (3, cond)], &[(2, out)])?;
        Ok(cells[0].clone())
    }

    fn is_equal(
        &self,
        layouter: &mut impl Layouter<Base>,
        a: &Cell,
        b: &Cell,
    ) -> Result<Cell, Error> {
        let out = value(a).zip(value(b)).map(|(a, b)| is_eq_with_output(a, b));
        let cells = self.row(
            layouter,
            self.is_equal,
            &[(0, a), (1, b)],
            &[(2, out.map(|o| o.0)), (3, out.map(|o| o.1))],
        )?;
        Ok(cells[0].clone())
    }

    fn equal(&self, layouter: &mut impl Layouter<Base>, a: &Cell, b: &Cell) -> Result<(), Error> {
        self.row(layouter, self.equal, &[(0, a), (1, b)], &[])?;
        Ok(())
    }

    /// The rows of a hash. `tampered` is a cell whose value is off by one.
    fn hash<const L: usize>(
        &self,
        layouter: &mut impl Layouter<Base>,
        params: &Poseidon2Params<Fp>,
        inputs: [&Cell; L],
        tampered: Option<(usize, usize)>,
    ) -> Result<Cell, Error> {
        layouter.assign_region(
            || "hash",
            |mut region| {
                let message: Value<Vec<Fp>> = inputs.iter().map(|cell| value(cell)).collect();
                let traces = message.map(|message| {
                    let message: [Fp; L] = message.try_into().unwrap();
                    hash_trace(params, &message)
                });
                let tamper = |row: usize, column: usize, f: Fp| {
                    to_base(if tampered == Some((row, column)) { f.plus(Fp::one()) } else { f })
                };
                for k in 0..2 * permutation_count(L) {
                    let (column, row) = word_cell(k);
                    match inputs.get(k) {
                        Some(input) => {
                            input.copy_advice(|| "word", &mut region, self.advice[column], row)?
                        }
                        None => region.assign_advice_from_constant(
                            || "no word",
                            self.advice[column],
                            row,
                            Base::from(0),
                        )?,
                    };
                }
                let tag = Base::from(L as u64);
                region.assign_advice_from_constant(|| "tag", self.advice[2], 0, tag)?;
                let mut last = None;
                for row in 0..ROWS * permutation_count(L) {
                    let (block, place) = (row / ROWS, row % ROWS);
                    if row > 0 {
                        for column in 0..3 {
                            let v = traces
                                .as_ref()
                                .map(|traces| tamper(row, column, traces[block].0[place][column]));
                            let cell =
                                region.assign_advice(|| "state", self.advice[column], row, || v)?;
                            if column == 0 {
                                last = Some(cell);
                            }
                        }
                    }
                    if absorbs(row, L) {
                        self.absorb.enable(&mut region, row)?;
                    }
                    for (j, c) in row_constants(params, place).iter().enumerate() {
                        let v = Value::known(to_base(*c));
                        region.assign_fixed(|| "rc", self.fixed[j], row, || v)?;
                    }
                    match row_kind(place) {
                        RowKind::First => self.first.enable(&mut region, row)?,
                        RowKind::Full { .. } => self.full.enable(&mut region, row)?,
                        RowKind::Partial { sbox, .. } => {
                            self.partial.enable(&mut region, row)?;
                            for j in 0..4 {
                                let v = traces
                                    .as_ref()
                                    .map(|traces| tamper(row, 3 + j, traces[block].1[sbox + j]));
                                region.assign_advice(|| "psb", self.advice[3 + j], row, || v)?;
                            }
                        }
                        RowKind::Last => {}
                    }
                }
                Ok(last.unwrap())
            },
        )
    }
}

fn value(cell: &Cell) -> Value<Fp> {
    cell.value().copied().map(to_fp)
}

/// A hash with an expected digest.
struct HashCircuit<const L: usize> {
    inputs: [Fp; L],
    expected: Fp,
    tampered: Option<(usize, usize)>,
}

impl<const L: usize> Circuit<Base> for HashCircuit<L> {
    type Config = Vec<Columns>;
    type FloorPlanner = SimpleFloorPlanner;

    fn without_witnesses(&self) -> Self {
        HashCircuit { inputs: [Fp::zero(); L], expected: Fp::zero(), tampered: None }
    }

    fn configure(meta: &mut ConstraintSystem<Base>) -> Vec<Columns> {
        lanes(meta, 1)
    }

    fn synthesize(
        &self,
        config: Vec<Columns>,
        mut layouter: impl Layouter<Base>,
    ) -> Result<(), Error> {
        let params = Poseidon2Params::new();
        let inputs = config[0].witness(&mut layouter, &self.inputs);
        let expected = config[0].witness(&mut layouter, &[self.expected]);
        let cells: [&Cell; L] = std::array::from_fn(|i| &inputs[i]);
        let digest = config[0].hash(&mut layouter, &params, cells, self.tampered)?;
        layouter.assign_region(
            || "expected",
            |mut region| region.constrain_equal(digest.cell(), expected[0].cell()),
        )
    }
}

fn hash_holds<const L: usize>(
    inputs: [Fp; L],
    expected: Fp,
    tampered: Option<(usize, usize)>,
) -> bool {
    let circuit = HashCircuit { inputs, expected, tampered };
    MockProver::run(8, &circuit, vec![]).unwrap().verify().is_ok()
}

#[test]
fn test_poseidon2_chip_correct() {
    let k = 7;

    let a = Fp::from_u64(3);
    let b = Fp::from_u64(2);
    let hasher = Poseidon2::<Fp, 2>::new();
    let c = hasher.hash([a, b]).unwrap();

    let circuit = HashCircuit { inputs: [a, b], expected: c, tampered: None };

    let prover = MockProver::run(k, &circuit, vec![]).unwrap();
    assert_eq!(prover.verify(), Ok(()));
}

#[test]
fn test_poseidon2_chip_wrong_output_fails() {
    let k = 7;

    let a = Fp::from_u64(3);
    let b = Fp::from_u64(2);
    let wrong_c = Fp::from_u64(42);

    let circuit = HashCircuit { inputs: [a, b], expected: wrong_c, tampered: None };

    let prover = MockProver::run(k, &circuit, vec![]).unwrap();
    assert!(prover.verify().is_err());
}

#[test]
fn every_row_of_a_hash_is_constrained() {
    let inputs = [Fp::from_u64(3), Fp::from_u64(2)];
    let expected = Poseidon2::<Fp, 2>::new().hash(inputs).unwrap();
    for cell in [(1, 0), (3, 1), (5, 2), (9, 0), (12, 3), (18, 6), (19, 1), (22, 2), (23, 1)] {
        assert!(!hash_holds(inputs, expected, Some(cell)), "cell {:?}", cell);
    }
}

#[test]
fn every_input_of_a_hash_counts() {
    let one = [Fp::from_u64(9)];
    assert!(hash_holds(one, Poseidon2::<Fp, 1>::new().hash(one).unwrap(), None));
    let three = [Fp::from_u64(9), Fp::from_u64(8), Fp::from_u64(7)];
    let digest = Poseidon2::<Fp, 3>::new().hash(three).unwrap();
    assert!(hash_holds(three, digest, None));
    for i in 0..3 {
        let mut other = three;
        other[i] = other[i].plus(Fp::one());
        assert!(!hash_holds(other, digest, None), "input {}", i);
    }
    for cell in [(23, 1), (24, 0), (24, 2), (30, 4), (46, 1)] {
        assert!(!hash_holds(three, digest, Some(cell)), "cell {:?}", cell);
    }
    let five = [1, 2, 3, 4, 5].map(Fp::from_u64);
    assert!(hash_holds(five, Poseidon2::<Fp, 5>::new().hash(five).unwrap(), None));
}

/// Membership in a tree by a path with all siblings, against an expected root. The levels take
/// turns in the lanes.
struct DenseCircuit<const N: usize, const LANES: usize> {
    leaf: Fp,
    root: Fp,
    path: Path<Fp, Hasher, N>,
}

impl<const N: usize, const LANES: usize> Circuit<Base> for DenseCircuit<N, LANES> {
    type Config = Vec<Columns>;
    type FloorPlanner = SimpleFloorPlanner;

    fn without_witnesses(&self) -> Self {
        DenseCircuit { leaf: Fp::zero(), root: Fp::zero(), path: self.path.clone() }
    }

    fn configure(meta: &mut ConstraintSystem<Base>) -> Vec<Columns> {
        lanes(meta, LANES)
    }

    fn synthesize(
        &self,
        config: Vec<Columns>,
        mut layouter: impl Layouter<Base>,
    ) -> Result<(), Error> {
        let params = Poseidon2Params::new();
        let given = config[0].witness(&mut layouter, &[self.leaf, self.root, Fp::one()]);
        let (siblings, bits) = path_cells(&self.path);
        let siblings = config[0].witness(&mut layouter, &siblings);
        let bits = config[0].witness(&mut layouter, &bits);
        let mut node = given[0].clone();
        for i in 0..N {
            let config = &config[i % LANES];
            let (left, right) = config.swap(&mut layouter, &node, &siblings[i], &bits[i])?;
            node = config.hash(&mut layouter, &params, [&left, &right], None)?;
        }
        let found = config[0].is_equal(&mut layouter, &node, &given[1])?;
        config[0].equal(&mut layouter, &found, &given[2])
    }
}

/// Membership in a tree by a path with the non-empty siblings, against an expected root.
struct SparseCircuit<const MAX_K: usize, const LANES: usize> {
    leaf: Fp,
    compact_root: Fp,
    sparse: SparsePath<Fp, Hasher>,
}

impl<const MAX_K: usize, const LANES: usize> Circuit<Base> for SparseCircuit<MAX_K, LANES> {
    type Config = Vec<Columns>;
    type FloorPlanner = SimpleFloorPlanner;

    fn without_witnesses(&self) -> Self {
        SparseCircuit {
            leaf: Fp::zero(),
            compact_root: Fp::zero(),
            sparse: self.sparse.clone(),
        }
    }

    fn configure(meta: &mut ConstraintSystem<Base>) -> Vec<Columns> {
        lanes(meta, LANES)
    }

    fn synthesize(
        &self,
        config: Vec<Columns>,
        mut layouter: impl Layouter<Base>,
    ) -> Result<(), Error> {
        let params = Poseidon2Params::new();
        let given = config[0].witness(&mut layouter, &[self.leaf, self.compact_root, Fp::one()]);
        let (siblings, bits, active) = sparse_path_cells::<Fp, Hasher, MAX_K>(&self.sparse);
        let siblings = config[0].witness(&mut layouter, &siblings);
        let bits = config[0].witness(&mut layouter, &bits);
        let active = config[0].witness(&mut layouter, &active);
        let mut node = given[0].clone();
        for i in 0..MAX_K {
            let config = &config[i % LANES];
            let (left, right) = config.swap(&mut layouter, &node, &siblings[i], &bits[i])?;
            let hash = config.hash(&mut layouter, &params, [&left, &right], None)?;
            node = config.select(&mut layouter, &hash, &node, &active[i])?;
        }
        let found = config[0].is_equal(&mut layouter, &node, &given[1])?;
        config[0].equal(&mut layouter, &found, &given[2])
    }
}

/// The circuits of both proofs of a leaf in a tree with three random leaves.
fn circuits<const N: usize, const MAX_K: usize>(
    index: u64,
) -> (DenseCircuit<N, 1>, SparseCircuit<MAX_K, 1>) {
    let hasher = Hasher::new();
    let leaves = [random(), random(), random()];
    let tree = SparseMerkleTree::<Fp, Hasher, N>::new_sequential(&leaves, &hasher, &[0u8; 64])
        .unwrap();
    let leaf = leaves[index as usize];
    let path = tree.generate_membership_proof(index);
    let sparse = tree.generate_sparse_membership_proof(index);
    let root = path.calculate_root(&leaf, &hasher).unwrap();
    let compact_root = sparse.calculate_compact_root(&leaf, &hasher).unwrap();
    assert_eq!(root, tree.root());
    assert_eq!(sparse.calculate_full_root(&leaf, &hasher, index).unwrap(), tree.root());
    (DenseCircuit { leaf, root, path }, SparseCircuit { leaf, compact_root, sparse })
}

/// Makes and verifies a proof of a circuit.
fn prove_and_verify<C: Circuit<Base>>(params: &Params<EqAffine>, circuit: C) -> bool {
    let vk = keygen_vk(params, &circuit).expect("keygen_vk should not fail");
    let pk = keygen_pk(params, vk, &circuit).expect("keygen_pk should not fail");
    let mut transcript = Blake2bWrite::<_, _, Challenge255<_>>::init(vec![]);
    create_proof(params, &pk, &[circuit], &[&[]], OsRng, &mut transcript)
        .expect("proof generation should not fail");
    let proof: Vec<u8> = transcript.finalize();

    let strategy = SingleVerifier::new(params);
    let mut transcript = Blake2bRead::<_, _, Challenge255<_>>::init(&proof[..]);
    verify_proof(params, pk.get_vk(), strategy, &[&[]], &mut transcript).is_ok()
}

#[test]
fn should_verify_path() {
    // With the levels side by side the circuit is very small.
    let k = 7;
    const HEIGHT: usize = 20;

    let (DenseCircuit { leaf, root, path }, _) = circuits::<HEIGHT, 8>(0);
    let circuit = DenseCircuit::<HEIGHT, 5> { leaf, root, path };

    let prover = MockProver::run(k, &circuit, vec![]).unwrap();
    assert_eq!(prover.verify(), Ok(()));
    assert!(prove_and_verify(&Params::new(k), circuit));
}

#[test]
fn should_verify_path_benchmark() {
    let k = 7;
    const HEIGHT: usize = 3;
    let num_iter = 3;

    let params: Params<EqAffine> = Params::new(k);
    for _ in 0..num_iter {
        let (circuit, _) = circuits::<HEIGHT, 3>(0);
        let prover = MockProver::run(k, &circuit, vec![]).unwrap();
        assert_eq!(prover.verify(), Ok(()));
        assert!(prove_and_verify(&params, circuit));
    }
}

#[test]
fn test_sparse_path_full_prove() {
    // With the places side by side the circuit is very small.
    let k = 7;
    const HEIGHT: usize = 20;
    const MAX_K: usize = 8;

    let (_, SparseCircuit { leaf, compact_root, sparse }) = circuits::<HEIGHT, MAX_K>(0);
    let circuit = SparseCircuit::<MAX_K, 2> { leaf, compact_root, sparse };

    let prover = MockProver::run(k, &circuit, vec![]).unwrap();
    assert_eq!(prover.verify(), Ok(()));
    assert!(prove_and_verify(&Params::new(k), circuit));
}

#[test]
fn height_53_dense_and_sparse() {
    const HEIGHT: usize = 53;
    const MAX_K: usize = 32;
    let hasher = Poseidon2::<Fp, 2>::new();

    // Leaves at positions 0, 1, 2, 4, 8, ..., 2^26: each power of two gives a sibling on
    // another level.
    let mut leaf_map = BTreeMap::new();
    let leaf0 = random();
    leaf_map.insert(0u32, leaf0);
    for i in 0..27u32 {
        leaf_map.insert(1u32 << i, random());
    }
    let smt =
        SparseMerkleTree::<Fp, Poseidon2<Fp, 2>, HEIGHT>::new(&leaf_map, &hasher, &[0u8; 64])
            .unwrap();

    let sparse_proof = smt.generate_sparse_membership_proof(0);
    assert_eq!(sparse_proof.entries.len(), 27);

    let dense_path = smt.generate_membership_proof(0);
    let dense_root = dense_path.calculate_root(&leaf0, &hasher).unwrap();
    assert_eq!(dense_root, smt.root());

    let compact_root = sparse_proof.calculate_compact_root(&leaf0, &hasher).unwrap();
    assert!(sparse_proof.verify_against_root(&leaf0, &hasher, 0, &smt.root()).unwrap());

    let dense_circuit =
        DenseCircuit::<HEIGHT, 1> { leaf: leaf0, root: dense_root, path: dense_path };
    let k_dense = 12;
    let prover = MockProver::run(k_dense, &dense_circuit, vec![]).unwrap();
    assert_eq!(prover.verify(), Ok(()));

    let sparse_circuit =
        SparseCircuit::<MAX_K, 1> { leaf: leaf0, compact_root, sparse: sparse_proof };
    let k_sparse = 12;
    let prover = MockProver::run(k_sparse, &sparse_circuit, vec![]).unwrap();
    assert_eq!(prover.verify(), Ok(()));
}

#[test]
fn path_circuits_are_satisfied() {
    for index in 0..3 {
        let (dense, sparse) = circuits::<5, 3>(index);
        let prover = MockProver::run(9, &dense, vec![]).unwrap();
        assert_eq!(prover.verify(), Ok(()));
        let prover = MockProver::run(9, &sparse, vec![]).unwrap();
        assert_eq!(prover.verify(), Ok(()));
    }
}

#[test]
fn path_circuits_with_another_root_are_not_satisfied() {
    let (mut dense, mut sparse) = circuits::<5, 3>(1);
    dense.root = dense.root.plus(Fp::one());
    sparse.compact_root = sparse.compact_root.plus(Fp::one());
    let prover = MockProver::run(9, &dense, vec![]).unwrap();
    assert!(prover.verify().is_err());
    let prover = MockProver::run(9, &sparse, vec![]).unwrap();
    assert!(prover.verify().is_err());
}

#[test]
fn test_sparse_path_circuit() {
    let k = 13;
    const HEIGHT: usize = 10;
    const MAX_K: usize = 4;

    let (_, circuit) = circuits::<HEIGHT, MAX_K>(0);

    let prover = MockProver::run(k, &circuit, vec![]).unwrap();
    assert_eq!(prover.verify(), Ok(()));
}

#[test]
fn circuit_values_are_those_of_the_paths() {
    let hasher = Hasher::new();
    for index in 0..3 {
        let (dense, sparse) = circuits::<6, 5>(index);
        let (siblings, bits) = path_cells(&dense.path);
        assert_eq!(calculate_root(&siblings, &bits, dense.leaf, &hasher).unwrap(), dense.root);
        let (siblings, bits, active) = sparse_path_cells::<Fp, Hasher, 5>(&sparse.sparse);
        assert_eq!(
            calculate_sparse_root(&siblings, &bits, &active, sparse.leaf, &hasher).unwrap(),
            sparse.compact_root
        );
        assert_eq!(check_membership(dense.root, dense.root), Fp::one());
        assert_eq!(check_membership(dense.root, dense.leaf), Fp::zero());
    }
}

#[test]
fn test_sparse_vs_dense_consistency() {
    let empty_leaf = [0u8; 64];
    let leaves = [random(), random(), random()];
    const HEIGHT: usize = 10;
    let hasher = Poseidon2::<Fp, 2>::new();

    let smt = SparseMerkleTree::<Fp, Poseidon2<Fp, 2>, HEIGHT>::new_sequential(
        &leaves,
        &hasher,
        &empty_leaf,
    )
    .unwrap();

    let dense_path = smt.generate_membership_proof(0);
    let dense_root = dense_path.calculate_root(&leaves[0], &hasher).unwrap();

    let sparse_path = smt.generate_sparse_membership_proof(0);
    let full_root = sparse_path.calculate_full_root(&leaves[0], &hasher, 0).unwrap();

    assert_eq!(
        dense_root, full_root,
        "Dense and sparse paths produce different roots"
    );
    assert_eq!(dense_root, smt.root(), "Root doesn't match SMT root");
}

#[test]
fn utility_values() {
    let a = Fp::from_u64(5);
    let b = Fp::from_u64(8);
    assert_eq!(conditional_select(a, b, Fp::one()), a);
    assert_eq!(conditional_select(a, b, Fp::zero()), b);
    assert_eq!(conditional_select(a, b, Fp::from_u64(2)), b);
    assert_eq!(swap(a, b, Fp::zero()), (a, b));
    assert_eq!(swap(a, b, Fp::one()), (b, a));
    assert_eq!(bit_element::<Fp>(true), Fp::one());
    assert_eq!(bit_element::<Fp>(false), Fp::zero());
    assert_eq!(is_eq_with_output(a, a), (Fp::one(), Fp::one()));
    let (out, inverse) = is_eq_with_output(a, b);
    assert_eq!(out, Fp::zero());
    assert_eq!(a.minus(b).times(inverse), Fp::one());
}
