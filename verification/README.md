# puremagic

Pauli-product circuits for lattice-surgery scheduling — their parsing,
dependencies and layers, path searches on the layout, magic-state
cultivation and the per-lcycle scheduling bookkeeping — together with the
structural stages of a Clifford+T compilation pipeline, written in Verus.
Every executable function in `src/` is verified against its contract, except
a few wrappers of standard-library calls (marked `external_body`), whose
contracts are trusted.

## Layout

- `src/pauliproduct.rs`, `src/circuit.rs` — Pauli products of a `.trans`
  circuit, their parsing, the dependency graph between them, layers and
  circuit statistics.
- `src/node.rs`, `src/topograph.rs` — the layout graph: data, bus and magic
  nodes, their neighbours and cultivation state.
- `src/routing.rs`, `src/astar.rs`, `src/greedypath.rs`, `src/steinertree.rs`
  — path searches between nodes of the layout.
- `src/cultivation.rs`, `src/lcycle.rs`, `src/scheduler.rs` — magic-state
  cultivation, the bookkeeping of scheduling cycles, and schedule statistics.
- `src/transpile.rs`, `src/operation.rs`, `src/dag.rs` — Pauli rotations
  with angles, the translation of gate operations into them, their
  commutation, and the dependency graph in which Clifford rotations are moved
  past non-Clifford ones.
- `src/qgate.rs`, `src/grouping.rs`, `src/partition.rs`, `src/stats.rs`,
  `src/basis_index.rs`, `src/qasm.rs`, `src/qasm_gates.rs`,
  `src/qasm_loader.rs`, `src/progress.rs` — the circuit model
  of the Clifford+T pipeline: unfolding of blocks, grouping of single-qubit
  runs, partitioning into windows, statistics, the QASM reader's parsing
  steps, its line-by-line state and its gate vocabulary.
- `src/text.rs`, `src/paths.rs` — text and path helpers.
- `app/` — the command-line program around the library (file input,
  printing, and the floating-point work: rotation parameters and QASM angle
  expressions).
- `tests/` — tests of the library.

Angles in `qgate` are kept as the bit patterns of their floating-point
values, so the structural stages move them around unchanged.
