use puremagic::grouping::{group_single_qubit_gates, single_qubit_runs, GroupedOp};
use puremagic::qgate::{block_stats, total_gate_count, Circuit, Gate};

/// The operation indices in the order the grouped entries list them.
fn flatten(groups: &[GroupedOp]) -> Vec<usize> {
    let mut out = Vec::new();
    for g in groups {
        match g {
            GroupedOp::Block { ops, .. } => out.extend(ops.iter().copied()),
            GroupedOp::Op(i) => out.push(*i),
        }
    }
    out
}

/// For each qubit, the operations on it in the grouped order equal those
/// of the circuit in its own order.
fn keeps_qubit_order(n: usize, ops: &[Vec<usize>], groups: &[GroupedOp]) -> bool {
    let flat = flatten(groups);
    (0..n).all(|q| {
        let grouped: Vec<usize> = flat.iter().copied().filter(|&i| ops[i].contains(&q)).collect();
        let original: Vec<usize> = (0..ops.len()).filter(|&i| ops[i].contains(&q)).collect();
        grouped == original
    })
}

#[test]
fn runs_single_qubit_run_is_one_run() {
    // H, T, S on qubit 0
    let ops = vec![vec![0], vec![0], vec![0]];
    let grouped = single_qubit_runs(1, &ops);
    assert_eq!(grouped.len(), 1);
    assert!(matches!(grouped[0], GroupedOp::Block { .. }));
    assert_eq!(grouped[0], GroupedOp::Block { qubit: 0, ops: vec![0, 1, 2] });
    assert!(keeps_qubit_order(1, &ops, &grouped));
}

#[test]
fn runs_two_qubit_gate_splits_runs() {
    // H q0, T q1, CX q0 q1, S q0, X q1
    let ops = vec![vec![0], vec![1], vec![0, 1], vec![0], vec![1]];
    let grouped = single_qubit_runs(2, &ops);
    // block(q0: H), block(q1: T), CX, block(q0: S), block(q1: X)
    assert_eq!(grouped.len(), 5);
    assert!(matches!(grouped[0], GroupedOp::Block { .. }));
    assert!(matches!(grouped[1], GroupedOp::Block { .. }));
    assert!(matches!(grouped[2], GroupedOp::Op(2)));
    assert!(matches!(grouped[3], GroupedOp::Block { .. }));
    assert!(matches!(grouped[4], GroupedOp::Block { .. }));
    assert_eq!(
        grouped,
        vec![
            GroupedOp::Block { qubit: 0, ops: vec![0] },
            GroupedOp::Block { qubit: 1, ops: vec![1] },
            GroupedOp::Op(2),
            GroupedOp::Block { qubit: 0, ops: vec![3] },
            GroupedOp::Block { qubit: 1, ops: vec![4] },
        ]
    );
    assert!(keeps_qubit_order(2, &ops, &grouped));
}

#[test]
fn runs_flatten_back_to_every_operation() {
    // H q0, T q1, CX q0 q1, S q0
    let ops = vec![vec![0], vec![1], vec![0, 1], vec![0]];
    let grouped = single_qubit_runs(2, &ops);
    let unfolded = flatten(&grouped);
    assert_eq!(unfolded.len(), 4);
    assert!(keeps_qubit_order(2, &ops, &grouped));
}

#[test]
fn runs_no_empty_run_for_a_qubit_without_single_qubit_gates() {
    let ops = vec![vec![0, 1]];
    let grouped = single_qubit_runs(2, &ops);
    assert_eq!(grouped.len(), 1);
    assert!(matches!(grouped[0], GroupedOp::Op(0)));
}

#[test]
fn runs_left_at_the_end_are_emitted_in_qubit_order() {
    let ops = vec![vec![2], vec![0], vec![2]];
    let grouped = single_qubit_runs(3, &ops);
    assert_eq!(
        grouped,
        vec![GroupedOp::Block { qubit: 0, ops: vec![1] }, GroupedOp::Block { qubit: 2, ops: vec![0, 2] }]
    );
}

#[test]
fn gate_on_three_qubits_cuts_each_of_its_runs_in_operand_order() {
    let ops = vec![vec![1], vec![2], vec![0], vec![2, 0, 1], vec![1]];
    let grouped = single_qubit_runs(3, &ops);
    assert_eq!(
        grouped,
        vec![
            GroupedOp::Block { qubit: 2, ops: vec![1] },
            GroupedOp::Block { qubit: 0, ops: vec![2] },
            GroupedOp::Block { qubit: 1, ops: vec![0] },
            GroupedOp::Op(3),
            GroupedOp::Block { qubit: 1, ops: vec![4] },
        ]
    );
    assert!(keeps_qubit_order(3, &ops, &grouped));
}

#[test]
fn empty_circuit_groups_to_nothing() {
    let grouped = single_qubit_runs(4, &Vec::new());
    assert!(grouped.is_empty());
}

fn gate_names(c: &Circuit) -> Vec<(String, Vec<usize>)> {
    c.ops.iter().map(|op| (format!("{:?}", op.gate), op.qubits.clone())).collect()
}

/// The gates acting on qubit `q`, in program order.
fn on_qubit(c: &Circuit, q: usize) -> Vec<String> {
    gate_names(c).into_iter().filter(|(_, qs)| qs.contains(&q)).map(|(g, _)| g).collect()
}

#[test]
fn single_qubit_run_becomes_one_block() {
    let mut c = Circuit::new(1);
    c.push(Gate::H, vec![0]);
    c.push(Gate::T, vec![0]);
    c.push(Gate::S, vec![0]);
    let grouped = group_single_qubit_gates(&c);
    assert_eq!(grouped.ops.len(), 1);
    assert!(matches!(grouped.ops[0].gate, Gate::Block(_)));
    // The composed action is the same: unfolding gives the run back.
    assert_eq!(gate_names(&grouped.unfold()), gate_names(&c));
}

#[test]
fn two_qubit_gate_splits_runs_into_separate_blocks() {
    let mut c = Circuit::new(2);
    c.push(Gate::H, vec![0]);
    c.push(Gate::T, vec![1]);
    c.push(Gate::Cx, vec![0, 1]);
    c.push(Gate::S, vec![0]);
    c.push(Gate::X, vec![1]);
    let grouped = group_single_qubit_gates(&c);
    // block(q0: H), block(q1: T), CX, block(q0: S), block(q1: X)
    assert_eq!(grouped.ops.len(), 5);
    assert!(matches!(grouped.ops[0].gate, Gate::Block(_)));
    assert!(matches!(grouped.ops[1].gate, Gate::Block(_)));
    assert!(matches!(grouped.ops[2].gate, Gate::Cx));
    assert!(matches!(grouped.ops[3].gate, Gate::Block(_)));
    assert!(matches!(grouped.ops[4].gate, Gate::Block(_)));
    let u = grouped.unfold();
    for q in 0..2 {
        assert_eq!(on_qubit(&u, q), on_qubit(&c, q));
    }
}

#[test]
fn unfold_after_group_recovers_original_flat_gates() {
    let mut c = Circuit::new(2);
    c.push(Gate::H, vec![0]);
    c.push(Gate::T, vec![1]);
    c.push(Gate::Cx, vec![0, 1]);
    c.push(Gate::S, vec![0]);
    let grouped = group_single_qubit_gates(&c);
    let unfolded = grouped.unfold();
    assert_eq!(unfolded.ops.len(), 4);
    for q in 0..2 {
        assert_eq!(on_qubit(&unfolded, q), on_qubit(&c, q));
    }
}

#[test]
fn qubit_with_no_single_qubit_gates_produces_no_empty_block() {
    let mut c = Circuit::new(2);
    c.push(Gate::Cx, vec![0, 1]);
    let grouped = group_single_qubit_gates(&c);
    assert_eq!(grouped.ops.len(), 1);
    assert!(matches!(grouped.ops[0].gate, Gate::Cx));
}

#[test]
fn grouping_keeps_gate_count_and_reports_blocks() {
    let mut c = Circuit::new(3);
    c.push(Gate::H, vec![0]);
    c.push(Gate::T, vec![0]);
    c.push(Gate::Cz, vec![0, 2]);
    c.push(Gate::S, vec![1]);
    c.push(Gate::Rz(0.5f64.to_bits()), vec![2]);
    c.push(Gate::Tdg, vec![2]);
    let grouped = group_single_qubit_gates(&c);
    assert_eq!(total_gate_count(&grouped), total_gate_count(&c));
    // block(q0: H T), CZ, block(q1: S), block(q2: Rz Tdg)
    assert_eq!(block_stats(&grouped), (3, 5));
    assert_eq!(gate_names(&grouped)[1], (format!("{:?}", Gate::Cz), vec![0, 2]));
    assert_eq!(grouped.ops[2].qubits, vec![1]);
    assert_eq!(grouped.ops[3].qubits, vec![2]);
}
