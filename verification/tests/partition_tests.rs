use puremagic::partition::{partition, partition_windows, Window};
use puremagic::qgate::{total_gate_count, Circuit, Gate};

/// Every operation is in exactly one window, within the window's qubits,
/// and on every qubit the operations keep their order when the windows are
/// unfolded one after another.
fn same_circuit(n: usize, ops: &[Vec<usize>], windows: &[Window]) -> bool {
    let flat: Vec<usize> = windows.iter().flat_map(|w| w.ops.iter().copied()).collect();
    let mut sorted = flat.clone();
    sorted.sort();
    if sorted != (0..ops.len()).collect::<Vec<_>>() {
        return false;
    }
    for w in windows {
        for &i in &w.ops {
            if !ops[i].iter().all(|q| w.qubits.contains(q)) {
                return false;
            }
        }
    }
    (0..n).all(|q| {
        let unfolded: Vec<usize> = flat.iter().copied().filter(|&i| ops[i].contains(&q)).collect();
        let original: Vec<usize> = (0..ops.len()).filter(|&i| ops[i].contains(&q)).collect();
        unfolded == original
    })
}

fn qubits_increasing(windows: &[Window]) -> bool {
    windows.iter().all(|w| w.qubits.windows(2).all(|p| p[0] < p[1]))
}

#[test]
fn windows_linear_chain() {
    // H 0; CX 0 1; CX 1 2; CX 2 3; T 3
    let ops = vec![vec![0], vec![0, 1], vec![1, 2], vec![2, 3], vec![3]];
    let windows = partition_windows(4, &ops, 2);
    assert!(same_circuit(4, &ops, &windows));
    assert!(qubits_increasing(&windows));
}

#[test]
fn windows_dense_overlap() {
    // CX 0 1; H 1; CX 1 2; CX 0 2; T 0; CX 0 1
    let ops = vec![vec![0, 1], vec![1], vec![1, 2], vec![0, 2], vec![0], vec![0, 1]];
    let windows = partition_windows(3, &ops, 2);
    assert!(same_circuit(3, &ops, &windows));
}

#[test]
fn windows_respect_the_size_limit() {
    let ops: Vec<Vec<usize>> = (0..4).map(|i| vec![i, i + 1]).collect();
    let windows = partition_windows(5, &ops, 2);
    for w in &windows {
        assert!(w.qubits.len() <= 2, "block exceeded size limit: {:?}", w.qubits);
    }
    assert!(same_circuit(5, &ops, &windows));
}

#[test]
fn windows_single_qubit_gates_only() {
    // H 0; T 1; S 2
    let ops = vec![vec![0], vec![1], vec![2]];
    let windows = partition_windows(3, &ops, 2);
    assert!(same_circuit(3, &ops, &windows));
    assert_eq!(
        windows,
        vec![
            Window { qubits: vec![0], ops: vec![0] },
            Window { qubits: vec![1], ops: vec![1] },
            Window { qubits: vec![2], ops: vec![2] },
        ]
    );
}

#[test]
fn windows_larger_block_size() {
    // CX 0 1; CX 2 3; CX 1 2
    let ops = vec![vec![0, 1], vec![2, 3], vec![1, 2]];
    let windows = partition_windows(4, &ops, 4);
    assert!(same_circuit(4, &ops, &windows));
}

#[test]
fn windows_tangled_ownership() {
    let ops = vec![
        vec![1, 4],
        vec![2],
        vec![3],
        vec![5],
        vec![5, 0],
        vec![1],
        vec![3],
        vec![2, 0],
        vec![0, 3],
        vec![3, 5],
        vec![1],
        vec![1],
    ];
    let windows = partition_windows(6, &ops, 3);
    for w in &windows {
        assert!(w.qubits.len() <= 3, "block exceeded size limit: {:?}", w.qubits);
    }
    assert!(same_circuit(6, &ops, &windows));
}

#[test]
fn windows_repeated_qubit_interleaved() {
    // Rz 0; CX 0 1; Rz 0; CX 1 2; Rz 0; CX 2 3; Rz 0
    let ops = vec![vec![0], vec![0, 1], vec![0], vec![1, 2], vec![0], vec![2, 3], vec![0]];
    let rz = [0usize, 2, 4, 6];
    let windows = partition_windows(4, &ops, 4);
    assert!(same_circuit(4, &ops, &windows));
    let max_rz_in_one_block = windows
        .iter()
        .map(|w| w.ops.iter().filter(|i| rz.contains(i)).count())
        .max()
        .unwrap_or(0);
    assert!(
        max_rz_in_one_block > 2,
        "expected a wide block gathering more than 2 of the 4 Rz gates, got at most {max_rz_in_one_block} in any one block"
    );
}

#[test]
fn windows_blocked_qubits() {
    // CX 0 1; H 2; CX 1 2; CX 0 2
    let ops = vec![vec![0, 1], vec![2], vec![1, 2], vec![0, 2]];
    let windows = partition_windows(3, &ops, 2);
    for w in &windows {
        assert!(w.qubits.len() <= 2, "block exceeded size limit: {:?}", w.qubits);
    }
    assert!(same_circuit(3, &ops, &windows));
}

#[test]
fn empty_circuit_has_no_windows() {
    assert!(partition_windows(3, &Vec::new(), 2).is_empty());
}

#[test]
fn wide_operation_gets_a_window_of_its_own_width() {
    let ops = vec![vec![0, 1, 2], vec![0]];
    let windows = partition_windows(3, &ops, 2);
    assert!(same_circuit(3, &ops, &windows));
    assert!(windows.iter().any(|w| w.qubits == vec![0, 1, 2]));
}

fn gate_names(c: &Circuit) -> Vec<(String, Vec<usize>)> {
    c.ops.iter().map(|op| (format!("{:?}", op.gate), op.qubits.clone())).collect()
}

/// The partitioned circuit, unfolded, applies the same gates on every qubit
/// in the same order, and every gate exactly once.
fn same_action(c: &Circuit, partitioned: &Circuit) -> bool {
    let unfolded = partitioned.unfold();
    if unfolded.ops.len() != c.ops.len() || total_gate_count(partitioned) != total_gate_count(c) {
        return false;
    }
    let (a, b) = (gate_names(c), gate_names(&unfolded));
    (0..c.n_qubits).all(|q| {
        let x: Vec<_> = a.iter().filter(|(_, qs)| qs.contains(&q)).collect();
        let y: Vec<_> = b.iter().filter(|(_, qs)| qs.contains(&q)).collect();
        x == y
    })
}

#[test]
fn partition_preserves_circuit_unitary_linear_chain() {
    let mut c = Circuit::new(4);
    c.push(Gate::H, vec![0]);
    c.push(Gate::Cx, vec![0, 1]);
    c.push(Gate::Cx, vec![1, 2]);
    c.push(Gate::Cx, vec![2, 3]);
    c.push(Gate::T, vec![3]);
    let partitioned = partition(&c, 2);
    assert!(same_action(&c, &partitioned));
}

#[test]
fn partition_preserves_circuit_unitary_dense_overlap() {
    let mut c = Circuit::new(3);
    c.push(Gate::Cx, vec![0, 1]);
    c.push(Gate::H, vec![1]);
    c.push(Gate::Cx, vec![1, 2]);
    c.push(Gate::Cx, vec![0, 2]);
    c.push(Gate::T, vec![0]);
    c.push(Gate::Cx, vec![0, 1]);
    let partitioned = partition(&c, 2);
    assert!(same_action(&c, &partitioned));
}

#[test]
fn every_block_respects_the_size_limit() {
    let mut c = Circuit::new(5);
    for i in 0..4 {
        c.push(Gate::Cx, vec![i, i + 1]);
    }
    let partitioned = partition(&c, 2);
    for op in &partitioned.ops {
        assert!(op.qubits.len() <= 2, "block exceeded size limit: {:?}", op.qubits);
    }
}

#[test]
fn single_qubit_gates_only_partition_correctly() {
    let mut c = Circuit::new(3);
    c.push(Gate::H, vec![0]);
    c.push(Gate::T, vec![1]);
    c.push(Gate::S, vec![2]);
    let partitioned = partition(&c, 2);
    assert!(same_action(&c, &partitioned));
}

#[test]
fn larger_block_size_can_merge_more_qubits() {
    let mut c = Circuit::new(4);
    c.push(Gate::Cx, vec![0, 1]);
    c.push(Gate::Cx, vec![2, 3]);
    c.push(Gate::Cx, vec![1, 2]);
    let partitioned = partition(&c, 4);
    assert!(same_action(&c, &partitioned));
}

#[test]
fn tangled_ownership_preserves_unitary_and_size_limit() {
    let mut c = Circuit::new(6);
    c.push(Gate::Cx, vec![1, 4]);
    c.push(Gate::H, vec![2]);
    c.push(Gate::T, vec![3]);
    c.push(Gate::S, vec![5]);
    c.push(Gate::Cx, vec![5, 0]);
    c.push(Gate::H, vec![1]);
    c.push(Gate::T, vec![3]);
    c.push(Gate::Cx, vec![2, 0]);
    c.push(Gate::Cx, vec![0, 3]);
    c.push(Gate::Cx, vec![3, 5]);
    c.push(Gate::H, vec![1]);
    c.push(Gate::S, vec![1]);
    let partitioned = partition(&c, 3);
    for op in &partitioned.ops {
        assert!(op.qubits.len() <= 3, "block exceeded size limit: {:?}", op.qubits);
    }
    assert!(same_action(&c, &partitioned));
}

#[test]
fn repeated_qubit_interleaved_with_others_forms_one_wide_block() {
    let mut c = Circuit::new(4);
    c.push(Gate::Rz(0.1f64.to_bits()), vec![0]);
    c.push(Gate::Cx, vec![0, 1]);
    c.push(Gate::Rz(0.2f64.to_bits()), vec![0]);
    c.push(Gate::Cx, vec![1, 2]);
    c.push(Gate::Rz(0.3f64.to_bits()), vec![0]);
    c.push(Gate::Cx, vec![2, 3]);
    c.push(Gate::Rz(0.4f64.to_bits()), vec![0]);
    let partitioned = partition(&c, 4);
    assert!(same_action(&c, &partitioned));
    let max_rz_in_one_block = partitioned
        .ops
        .iter()
        .map(|op| match &op.gate {
            Gate::Block(inner) => inner.ops.iter().filter(|o| o.gate.is_rz()).count(),
            _ => 0,
        })
        .max()
        .unwrap_or(0);
    assert!(
        max_rz_in_one_block > 2,
        "expected a wide block gathering more than 2 of the 4 Rz gates, got at most {max_rz_in_one_block} in any one block"
    );
}

#[test]
fn blocked_qubits_prevents_invalid_reunification() {
    let mut c = Circuit::new(3);
    c.push(Gate::Cx, vec![0, 1]);
    c.push(Gate::H, vec![2]);
    c.push(Gate::Cx, vec![1, 2]);
    c.push(Gate::Cx, vec![0, 2]);
    let partitioned = partition(&c, 2);
    for op in &partitioned.ops {
        assert!(op.qubits.len() <= 2, "block exceeded size limit: {:?}", op.qubits);
    }
    assert!(same_action(&c, &partitioned));
}

#[test]
fn blocks_rename_operations_onto_window_positions() {
    let mut c = Circuit::new(4);
    c.push(Gate::Cx, vec![3, 1]);
    c.push(Gate::T, vec![3]);
    let partitioned = partition(&c, 2);
    assert_eq!(partitioned.ops.len(), 1);
    assert_eq!(partitioned.ops[0].qubits, vec![1, 3]);
    match &partitioned.ops[0].gate {
        Gate::Block(inner) => {
            assert_eq!(inner.n_qubits, 2);
            assert_eq!(
                gate_names(inner),
                vec![(format!("{:?}", Gate::Cx), vec![1, 0]), (format!("{:?}", Gate::T), vec![1])]
            );
        },
        _ => panic!("expected a block"),
    }
}
