use vstd::prelude::*;

pub mod pauliproduct;
pub mod text;
pub mod node;
pub mod topograph;
pub mod routing;
pub mod astar;
pub mod circuit;
pub mod greedypath;
pub mod paths;
pub mod scheduler;
pub mod progress;
pub mod stats;
pub mod steinertree;
pub mod basis_index;
pub mod transpile;
pub mod qasm;
pub mod cultivation;
pub mod lcycle;
pub mod grouping;
pub mod partition;
pub mod qgate;
pub mod dag;
pub mod operation;
pub mod qasm_gates;
pub mod qasm_loader;

verus! {

} // verus!
