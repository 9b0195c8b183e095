use puremagic::qgate::{block_stats, non_basis_ops, total_gate_count, total_rz_count, Circuit, Gate};

fn rz(theta: f64) -> Gate {
    Gate::Rz(theta.to_bits())
}

fn names(c: &Circuit) -> Vec<(String, Vec<usize>)> {
    c.ops.iter().map(|op| (format!("{:?}", op.gate), op.qubits.clone())).collect()
}

#[test]
fn block_stats_counts_blocks_and_their_grouped_gates() {
    let mut inner_a = Circuit::new(1);
    inner_a.push(Gate::H, vec![0]);
    inner_a.push(Gate::T, vec![0]);
    let mut inner_b = Circuit::new(1);
    inner_b.push(Gate::S, vec![0]);
    let mut c = Circuit::new(2);
    c.push(Gate::Block(Box::new(inner_a)), vec![0]);
    c.push(Gate::Block(Box::new(inner_b)), vec![1]);
    c.push(Gate::Cx, vec![0, 1]);
    assert_eq!(block_stats(&c), (2, 3));
}

#[test]
fn block_stats_is_zero_for_a_circuit_with_no_blocks() {
    let mut c = Circuit::new(1);
    c.push(Gate::H, vec![0]);
    assert_eq!(block_stats(&c), (0, 0));
}

#[test]
fn non_basis_ops_is_empty_for_a_pure_clifford_t_circuit() {
    let mut c = Circuit::new(2);
    c.push(Gate::H, vec![0]);
    c.push(Gate::T, vec![0]);
    c.push(Gate::Cx, vec![0, 1]);
    assert!(non_basis_ops(&c).is_empty());
}

#[test]
fn non_basis_ops_flags_a_leftover_rz() {
    let mut c = Circuit::new(1);
    c.push(Gate::H, vec![0]);
    c.push(rz(0.3), vec![0]);
    assert_eq!(non_basis_ops(&c), vec![("rz", 1)]);
}

#[test]
fn non_basis_ops_recurses_into_a_leftover_block() {
    let mut inner = Circuit::new(1);
    inner.push(rz(0.1), vec![0]);
    let mut c = Circuit::new(1);
    c.push(Gate::Block(Box::new(inner)), vec![0]);
    let found = non_basis_ops(&c);
    assert!(found.contains(&("block", 1)));
    assert!(found.contains(&("rz", 1)));
}

#[test]
fn non_basis_ops_lists_kinds_in_first_seen_order() {
    let mut inner = Circuit::new(1);
    inner.push(Gate::U3(0.1f64.to_bits(), 0.2f64.to_bits(), 0.3f64.to_bits()), vec![0]);
    inner.push(rz(0.5), vec![0]);
    let mut c = Circuit::new(2);
    c.push(rz(0.2), vec![1]);
    c.push(Gate::Block(Box::new(inner)), vec![0]);
    c.push(rz(0.4), vec![0]);
    assert_eq!(non_basis_ops(&c), vec![("rz", 3), ("u", 1), ("block", 1)]);
}

#[test]
fn is_all_clifford_detects_rz() {
    let mut c = Circuit::new(1);
    c.push(Gate::H, vec![0]);
    assert!(c.is_all_clifford());
    c.push(rz(0.1), vec![0]);
    assert!(!c.is_all_clifford());
}

#[test]
fn gate_kind_queries() {
    assert!(Gate::Swap.is_clifford());
    assert!(!Gate::T.is_clifford());
    assert!(!rz(0.0).is_clifford());
    assert!(rz(1.0).is_rz());
    assert!(!Gate::Z.is_rz());
    assert_eq!(Gate::Cz.num_qubits(), 2);
    assert_eq!(Gate::H.num_qubits(), 1);
    assert_eq!(Gate::Block(Box::new(Circuit::new(3))).num_qubits(), 3);
}

#[test]
fn num_params_counts_top_level_rz() {
    let mut c = Circuit::new(1);
    c.push(Gate::H, vec![0]);
    c.push(rz(0.3), vec![0]);
    c.push(Gate::X, vec![0]);
    c.push(rz(1.2), vec![0]);
    assert_eq!(c.num_params(), 2);
}

/// A two-qubit circuit with a nested block: H q0, block(q1, q0)[ Rz q0,
/// block(q1)[ T, Rz ], CX q1 q0 ], S q1.
fn nested() -> Circuit {
    let mut leaf = Circuit::new(1);
    leaf.push(Gate::T, vec![0]);
    leaf.push(rz(0.7), vec![0]);
    let mut mid = Circuit::new(2);
    mid.push(rz(0.25), vec![0]);
    mid.push(Gate::Block(Box::new(leaf)), vec![1]);
    mid.push(Gate::Cx, vec![1, 0]);
    let mut c = Circuit::new(2);
    c.push(Gate::H, vec![0]);
    c.push(Gate::Block(Box::new(mid)), vec![1, 0]);
    c.push(Gate::S, vec![1]);
    c
}

#[test]
fn unfold_renames_inner_qubits_recursively() {
    let c = nested();
    let u = c.unfold();
    assert_eq!(u.n_qubits, 2);
    let expected: Vec<(String, Vec<usize>)> = vec![
        (format!("{:?}", Gate::H), vec![0]),
        (format!("{:?}", rz(0.25)), vec![1]),
        (format!("{:?}", Gate::T), vec![0]),
        (format!("{:?}", rz(0.7)), vec![0]),
        (format!("{:?}", Gate::Cx), vec![0, 1]),
        (format!("{:?}", Gate::S), vec![1]),
    ];
    assert_eq!(names(&u), expected);
}

#[test]
fn unfold_keeps_gate_and_rz_counts() {
    let c = nested();
    assert_eq!(total_gate_count(&c), 6);
    assert_eq!(total_rz_count(&c), 2);
    let u = c.unfold();
    assert_eq!(total_gate_count(&u), 6);
    assert_eq!(total_rz_count(&u), 2);
    assert_eq!(u.ops.len(), 6);
    assert_eq!(block_stats(&u), (0, 0));
}

#[test]
fn unfold_of_a_flat_circuit_is_the_same_circuit() {
    let mut c = Circuit::new(2);
    c.push(Gate::H, vec![1]);
    c.push(Gate::Cz, vec![1, 0]);
    c.push(rz(2.0), vec![0]);
    let u = c.unfold();
    assert_eq!(names(&u), names(&c));
    assert_eq!(names(&u.unfold()), names(&u));
}

#[test]
fn rz_angle_bits_survive_unfold() {
    let mut inner = Circuit::new(1);
    inner.push(rz(-0.123456789), vec![0]);
    let mut c = Circuit::new(3);
    c.push(Gate::Block(Box::new(inner)), vec![2]);
    let u = c.unfold();
    match u.ops[0].gate {
        Gate::Rz(bits) => assert_eq!(f64::from_bits(bits), -0.123456789),
        _ => panic!("expected an Rz gate"),
    }
    assert_eq!(u.ops[0].qubits, vec![2]);
}

#[test]
fn set_params_fills_rz_gates_in_order() {
    let mut c = Circuit::new(2);
    c.push(Gate::Rz(1), vec![0]);
    c.push(Gate::H, vec![1]);
    c.push(Gate::Rz(2), vec![1]);
    c.push(Gate::Rz(3), vec![0]);
    c.set_params(&vec![10, 20]);
    assert!(matches!(c.ops[0].gate, Gate::Rz(10)));
    assert!(matches!(c.ops[1].gate, Gate::H));
    assert!(matches!(c.ops[2].gate, Gate::Rz(20)));
    assert!(matches!(c.ops[3].gate, Gate::Rz(3)));
    assert_eq!(c.num_params(), 3);
}
