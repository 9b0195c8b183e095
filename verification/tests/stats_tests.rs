use puremagic::qgate::{Circuit, Gate};
use puremagic::stats::{compute_stats, report_line, Stats};

#[test]
fn report_line_formats_before_and_after() {
    let before = Stats { qubits: 3, gates: 40, depth: 20, t_count: 0, t_depth: 0, cx_count: 10, clifford_count: 30 };
    let after = Stats { qubits: 3, gates: 55, depth: 31, t_count: 12, t_depth: 7, cx_count: 10, clifford_count: 43 };
    assert_eq!(
        report_line(&before, &after),
        "  3 qubits, 40 gates -> 55 gates (T=12, clifford=43, cx=10, depth=31, T-depth=7)"
    );
}

#[test]
fn sequential_single_qubit_gates_have_depth_equal_to_gate_count() {
    let mut c = Circuit::new(1);
    c.push(Gate::H, vec![0]);
    c.push(Gate::T, vec![0]);
    c.push(Gate::T, vec![0]);
    let s = compute_stats(&c);
    assert_eq!(s.depth, 3);
    assert_eq!(s.t_count, 2);
    assert_eq!(s.t_depth, 2);
}

#[test]
fn parallel_gates_on_different_qubits_share_a_layer() {
    let mut c = Circuit::new(2);
    c.push(Gate::H, vec![0]);
    c.push(Gate::T, vec![1]);
    let s = compute_stats(&c);
    assert_eq!(s.depth, 1);
    assert_eq!(s.t_depth, 1);
}

#[test]
fn non_t_gates_do_not_advance_t_depth() {
    let mut c = Circuit::new(1);
    c.push(Gate::H, vec![0]);
    c.push(Gate::S, vec![0]);
    c.push(Gate::X, vec![0]);
    let s = compute_stats(&c);
    assert_eq!(s.depth, 3);
    assert_eq!(s.t_depth, 0);
}

#[test]
fn cx_count_only_counts_literal_cx_gates() {
    let mut c = Circuit::new(2);
    c.push(Gate::Cx, vec![0, 1]);
    c.push(Gate::Cz, vec![0, 1]);
    let s = compute_stats(&c);
    assert_eq!(s.cx_count, 1);
    assert_eq!(s.clifford_count, 2);
}

#[test]
fn two_qubit_gate_synchronises_its_qubits() {
    // T on q0, then CX(q0, q1), then T-dagger on q1: the CX waits for the T.
    let mut c = Circuit::new(2);
    c.push(Gate::T, vec![0]);
    c.push(Gate::Cx, vec![0, 1]);
    c.push(Gate::Tdg, vec![1]);
    let s = compute_stats(&c);
    assert_eq!(s.depth, 3);
    assert_eq!(s.t_depth, 2);
    assert_eq!(s.t_count, 2);
    assert_eq!(s.gates, 3);
    assert_eq!(s.qubits, 2);
}

#[test]
fn rotations_and_blocks_are_neither_t_nor_clifford() {
    let mut inner = Circuit::new(1);
    inner.push(Gate::T, vec![0]);
    let mut c = Circuit::new(2);
    c.push(Gate::Rz(0.5f64.to_bits()), vec![0]);
    c.push(Gate::Block(Box::new(inner)), vec![1]);
    c.push(Gate::Swap, vec![0, 1]);
    let s = compute_stats(&c);
    assert_eq!((s.t_count, s.clifford_count, s.cx_count, s.depth, s.t_depth), (0, 1, 0, 2, 0));
}

#[test]
fn empty_circuit_has_zero_depth() {
    let s = compute_stats(&Circuit::new(3));
    assert_eq!((s.depth, s.t_depth, s.gates, s.qubits), (0, 0, 0, 3));
}
