# smt

Sparse Merkle trees over a prime field, with membership proofs and the circuits that check
them, written in Rust and verified with Verus.

- `src/smt.rs`: trees that keep every node above a leaf in a map
- `src/compressed_smt.rs`: trees that keep subtrees with one or two leaves compressed
- `src/path.rs`: membership proofs with all siblings, and with the non-empty ones alone
- `src/poseidon.rs`, `src/poseidon2.rs`: hash functions over the Pallas base field
- `src/circuit/`: gates, rows and values of the circuits
- `src/laws.rs`, `src/compressed_laws.rs` and the `laws` modules under `src/circuit/`: what is
  proved of all of these together
- `app/`: halo2 chips built on the circuits, and builders that log and return `anyhow` errors

A tree is a function of its leaves (`src/model.rs`). Both kinds of tree are proved to hold
the nodes of this model, so they have the same root and give the same proofs. A proof leads
from its leaf to the root of the tree. In the circuits, the gates force the root cell to be
the root over the leaf, the siblings and the bits. This rests on a product with a bit cell
being zero only where a factor is, which the laws have as a premise. `src/circuit/elements.rs`
meets it for cells that hold field elements, from their inverses. The values put in the cells
meet the gates.
