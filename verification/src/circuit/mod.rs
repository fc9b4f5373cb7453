//! The circuit of a membership proof: its gates as polynomials, the values that fill its
//! cells, and the layout of its rows.
pub mod expr;
pub mod utilities;
pub mod laws;
pub mod poseidon2;
pub mod poseidon2_laws;
pub mod smt;
pub mod smt_laws;
pub mod cell_laws;
pub mod elements;
