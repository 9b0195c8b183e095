use puremagic::circuit::{first_refused_line, lines_loadable, Circuit};
use puremagic::pauliproduct::ProductParseError;

fn load(lines: &[&str]) -> Circuit {
    let lines: Vec<String> = lines.iter().map(|s| s.to_string()).collect();
    let mut c = Circuit::new(&"test.trans".to_string());
    assert!(lines_loadable(&lines));
    c.load_circuit(&lines).unwrap();
    c
}

#[test]
fn new_creates_empty_circuit() {
    let c = Circuit::new(&"foo.trans".to_string());
    assert_eq!(c.num_products(), 0);
    assert_eq!(c.num_qubits, 0);
    assert_eq!(c.circuit_fname, "foo.trans");
}

#[test]
fn load_circuit_single_t_gate() {
    let c = load(&["+_X______<T>"]);
    assert_eq!(c.num_products(), 1);
    assert_eq!(c.num_qubits, 2);
}

#[test]
fn load_circuit_skips_x_and_z_gates() {
    let c = load(&["+X_<X>", "+_Z<Z>", "+XZ<T>"]);
    assert_eq!(c.num_products(), 1);
    assert!(c.get_product(0).gate_type.is_t());
}

#[test]
fn load_circuit_multiple_products() {
    let c = load(&["+_X______<T>", "+___X____<T>", "+_____X__<T>"]);
    assert_eq!(c.num_products(), 3);
}

#[test]
fn load_circuit_assigns_sequential_ids() {
    let c = load(&["+X_<T>", "+_X<T>"]);
    assert_eq!(c.get_product(0).id, 0);
    assert_eq!(c.get_product(1).id, 1);
}

#[test]
fn load_circuit_ids_skip_dropped_lines() {
    let c = load(&["+X_<X>", "+X_<T>", "+_Z<Z>", "+_X<T>"]);
    assert_eq!(c.get_product(0).id, 0);
    assert_eq!(c.get_product(1).id, 1);
    assert_eq!(c.num_products(), 2);
}

#[test]
fn load_circuit_trims_lines() {
    let c = load(&["  +X_<T>  ", "\t+_X<M>"]);
    assert_eq!(c.num_products(), 2);
    assert!(c.get_product(1).gate_type.is_m());
}

#[test]
fn load_circuit_keeps_m_gate() {
    let c = load(&["+X_<M>"]);
    assert_eq!(c.num_products(), 1);
    assert!(c.get_product(0).gate_type.is_m());
}

#[test]
fn load_circuit_keeps_s_gate() {
    let c = load(&["+X_<S>"]);
    assert_eq!(c.num_products(), 1);
    assert!(c.get_product(0).gate_type.is_s());
}

#[test]
fn load_circuit_keeps_cx_gate() {
    let c = load(&["+XZ<CX>"]);
    assert_eq!(c.num_products(), 1);
    assert!(c.get_product(0).gate_type.is_cx());
}

#[test]
fn load_circuit_stops_at_first_bad_line() {
    let lines: Vec<String> = ["+X_<T>", "+X_<Q>", "+_X<T>"].iter().map(|s| s.to_string()).collect();
    let mut c = Circuit::new(&"bad.trans".to_string());
    assert!(lines_loadable(&lines));
    let r = c.load_circuit(&lines);
    assert_eq!(r, Err(ProductParseError::UnknownGate("<Q>".to_string())));
    assert_eq!(c.num_products(), 1);
    assert_eq!(c.num_qubits, 0);
}

#[test]
fn load_circuit_reports_illegal_character() {
    let lines: Vec<String> = ["+XA<T>"].iter().map(|s| s.to_string()).collect();
    let mut c = Circuit::new(&"bad.trans".to_string());
    assert_eq!(c.load_circuit(&lines), Err(ProductParseError::IllegalCharacter('A', 2)));
}

#[test]
fn lines_loadable_rejects_bad_arity() {
    let lines: Vec<String> = ["+X_<T>", "+X__<CX>"].iter().map(|s| s.to_string()).collect();
    assert!(!lines_loadable(&lines));
    // Lines after the first refused one are never parsed.
    let lines: Vec<String> = ["+X_<Q>", "+X__<CX>"].iter().map(|s| s.to_string()).collect();
    assert!(lines_loadable(&lines));
}

#[test]
fn generate_dependencies_independent_products_have_no_parents() {
    let c = load(&["+X_<T>", "+_X<T>"]);
    assert!(c.get_product(0).parents.is_empty());
    assert!(c.get_product(1).parents.is_empty());
}

#[test]
fn generate_dependencies_sequential_same_qubit() {
    let c = load(&["+X_<T>", "+X_<T>"]);
    let pp0 = c.get_product(0);
    let pp1 = c.get_product(1);
    assert!(pp0.parents.is_empty());
    assert_eq!(pp1.parents, vec![0]);
    assert_eq!(pp0.children, vec![1]);
    assert!(pp1.children.is_empty());
}

#[test]
fn generate_dependencies_chain_of_three() {
    let c = load(&["+X__<T>", "+X__<T>", "+X__<T>"]);
    assert!(c.get_product(0).parents.is_empty());
    assert_eq!(c.get_product(1).parents, vec![0]);
    assert_eq!(c.get_product(2).parents, vec![1]);
    assert_eq!(c.get_product(0).children, vec![1]);
    assert_eq!(c.get_product(1).children, vec![2]);
    assert!(c.get_product(2).children.is_empty());
}

#[test]
fn generate_dependencies_parent_is_last_toucher_per_qubit() {
    let c = load(&["+X_<T>", "+_X<T>", "+XZ<CX>", "+X_<T>"]);
    assert_eq!(c.get_product(2).parents, vec![0, 1]);
    assert_eq!(c.get_product(3).parents, vec![2]);
    assert_eq!(c.get_product(0).children, vec![2]);
    assert_eq!(c.get_product(1).children, vec![2]);
    assert_eq!(c.get_product(2).children, vec![3]);
}

#[test]
fn initial_products_returns_products_with_no_parents() {
    let c = load(&["+X_<T>", "+_X<T>", "+X_<T>"]);
    let initial = c.initial_products();
    assert!(initial.contains(&0));
    assert!(initial.contains(&1));
    assert!(!initial.contains(&2));
}

#[test]
fn get_product_returns_correct_product() {
    let c = load(&["+X_<T>", "+_X<M>"]);
    assert!(c.get_product(0).gate_type.is_t());
    assert!(c.get_product(1).gate_type.is_m());
}

#[test]
fn num_products_matches_loaded_count() {
    let c = load(&["+X_<T>", "+_X<T>", "+XZ<CX>"]);
    assert_eq!(c.num_products(), 3);
}

#[test]
fn num_qubits_is_max_qubit_plus_one() {
    let c = load(&["+___X<T>"]);
    assert_eq!(c.num_qubits, 4);
}

#[test]
fn num_qubits_is_one_for_empty_circuit() {
    let c = load(&[]);
    assert_eq!(c.num_qubits, 1);
    assert_eq!(c.num_products(), 0);
}

#[test]
fn print_statistics_returns_correct_layer_count_linear_chain() {
    let c = load(&["+X__<T>", "+X__<T>", "+X__<T>"]);
    assert_eq!(c.statistics().num_layers, 3);
}

#[test]
fn print_statistics_parallel_products_in_one_layer() {
    let c = load(&["+X_<T>", "+_X<T>"]);
    assert_eq!(c.statistics().num_layers, 1);
}

#[test]
fn statistics_counts_cliffords_and_widest_layer() {
    let c = load(&["+X_<T>", "+_X<S>", "+XZ<CX>", "+X_<SX>"]);
    let s = c.statistics();
    assert_eq!(s.num_products, 4);
    assert_eq!(s.num_cliffords, 3);
    assert_eq!(s.num_layers, 3);
    assert_eq!(s.max_products_per_layer, 2);
}

#[test]
fn count_t_stats_counts_t_gates_and_t_layers() {
    let c = load(&["+X_<T>", "+_X<T>", "+XZ<CX>"]);
    assert_eq!(c.count_t_stats(), (2, 1));
}

#[test]
fn count_t_stats_no_t_gates() {
    let c = load(&["+XZ<CX>"]);
    assert_eq!(c.count_t_stats(), (0, 0));
}

#[test]
fn count_t_stats_all_t_gates_in_separate_layers() {
    let c = load(&["+X_<T>", "+X_<T>", "+X_<T>"]);
    assert_eq!(c.count_t_stats(), (3, 3));
}

#[test]
fn get_layers_groups_products_by_depth() {
    let c = load(&["+X_<T>", "+_X<T>", "+XZ<CX>", "+X_<T>", "+_X<T>"]);
    let mut layers = c.get_layers();
    for l in layers.iter_mut() {
        l.sort();
    }
    assert_eq!(layers, vec![vec![0, 1], vec![2], vec![3, 4]]);
}

#[test]
fn first_refused_line_finds_the_failing_line() {
    let lines: Vec<String> = ["+X_<T>", "  +X_<Q>  ", "+_X<T>"].iter().map(|s| s.to_string()).collect();
    assert_eq!(first_refused_line(&lines), 1);
    let good: Vec<String> = ["+X_<T>", "+_X<T>"].iter().map(|s| s.to_string()).collect();
    assert_eq!(first_refused_line(&good), 2);
}

#[test]
fn get_layers_diamond_dependency() {
    let c = load(&["+X___<T>", "+_X__<T>", "+X___<T>", "+_X__<T>", "+__X_<T>"]);
    let num_layers = c.statistics().num_layers;
    assert_eq!(num_layers, 2);
}

#[test]
fn moving_average_does_not_panic_on_single_product() {
    let c = load(&["+X_<T>"]);
    let _ = c.statistics();
}

#[test]
fn build_coupling_matrix_symmetric_for_cx_gate() {
    let c = load(&["+XZ<CX>"]);
    assert_eq!(c.num_qubits, 2);
    assert_eq!(c.num_products(), 1);
}
