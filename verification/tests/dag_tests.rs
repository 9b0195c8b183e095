use puremagic::dag::{DagError, PauliProductDag};
use puremagic::transpile::{Angle, PauliProduct, PauliTerm};

fn product(terms: &[(char, i32)], num: i32, den: i32) -> PauliProduct {
    PauliProduct::new(terms.iter().map(|&(b, q)| PauliTerm::new(b, 0, q)).collect(), Angle::new(num, den))
}

fn sorted(v: &[usize]) -> Vec<usize> {
    let mut v = v.to_vec();
    v.sort();
    v
}

/// T on q0, S(Clifford) on q0 q1, T on q1, T on q2, CX-like Clifford on q1 q2.
fn sample() -> PauliProductDag {
    let mut d = PauliProductDag::new(false);
    let ps = vec![
        product(&[('Z', 0)], 1, 8),
        product(&[('X', 0), ('Z', 1)], 1, 2),
        product(&[('Z', 1)], 1, 8),
        product(&[('X', 2)], 1, 8),
        product(&[('Z', 1), ('X', 2)], 1, 4),
    ];
    assert_eq!(d.from_products(ps), Ok(()));
    d
}

#[test]
fn from_products_links_each_product_to_the_last_one_on_its_qubits() {
    let d = sample();
    assert_eq!(d.num_nodes, 5);
    assert_eq!(sorted(&d.children[0]), vec![1]);
    assert_eq!(sorted(&d.children[1]), vec![2]);
    assert_eq!(sorted(&d.children[2]), vec![4]);
    assert_eq!(sorted(&d.children[3]), vec![4]);
    assert!(d.children[4].is_empty());
    assert_eq!(sorted(&d.parents[4]), vec![2, 3]);
    assert_eq!(d.topological_order, vec![0, 1, 2, 3, 4]);
    // every Clifford product starts as a root
    assert_eq!(sorted(&d.roots), vec![1, 4]);
    assert_eq!(d.num_cliffords, 2);
    assert_eq!(d.max_qubit, 2);
}

#[test]
fn clifford_without_parents_is_a_root() {
    let mut d = PauliProductDag::new(false);
    let ps = vec![product(&[('X', 0)], 1, 2), product(&[('Z', 1)], 1, 8)];
    d.from_products(ps).unwrap();
    assert_eq!(d.roots, vec![0]);
    assert!(d.is_root(0) && d.is_root(1));
    assert!(d.is_clifford(0) && !d.is_clifford(1));
}

#[test]
fn qubits_out_of_order_are_refused() {
    let mut d = PauliProductDag::new(false);
    let ps = vec![product(&[('X', 0)], 1, 8), product(&[('X', 3), ('Z', 1)], 1, 8)];
    assert_eq!(d.from_products(ps), Err(DagError::QubitOrder { found: 1, after: 3 }));
}

#[test]
fn layers_follow_dependencies() {
    let mut d = sample();
    let n = d.set_layers();
    assert_eq!(n, 4);
    let layers: Vec<u32> = d.products.iter().map(|p| p.layer).collect();
    assert_eq!(layers, vec![0, 1, 2, 0, 3]);
}

#[test]
fn relations_and_related_qubits() {
    let d = sample();
    assert_eq!(d.get_relation_for_qubit(4, 1, false), Some(2));
    assert_eq!(d.get_relation_for_qubit(4, 2, false), Some(3));
    assert_eq!(d.get_relation_for_qubit(1, 1, true), Some(2));
    assert_eq!(d.get_relation_for_qubit(1, 0, true), None);
    assert_eq!(d.get_related_qubits(4, 3, false), vec![2]);
    assert!(d.should_erase_relation(3, 4, 4, true));
    assert!(!d.should_erase_relation(0, 2, 1, true));
}

#[test]
fn indirect_paths_skip_the_direct_edge() {
    let mut d = PauliProductDag::new(false);
    // 0 -> 1 -> 2 and 0 -> 2 (through qubits 0 and 1)
    let ps = vec![
        product(&[('X', 0), ('X', 1)], 1, 8),
        product(&[('Z', 0)], 1, 8),
        product(&[('Z', 0), ('Z', 1)], 1, 8),
    ];
    d.from_products(ps).unwrap();
    assert!(d.indirect_path_exists(0, 2));
    assert!(!d.indirect_path_exists(0, 1));
    assert!(!d.indirect_path_exists(1, 2));
    assert!(d.indirect_path_exists(2, 2));
    assert!(!d.is_bad_topo_order(1));
}

#[test]
fn verify_clifford_relations_counts_clifford_to_nonclifford_edges() {
    let d = sample();
    // 1 (Clifford) -> 2 (T); 4 is a Clifford leaf.
    assert_eq!(d.verify_clifford_relations(), 1);
}

#[test]
fn youngest_valid_parent_clifford() {
    let d = sample();
    assert_eq!(d.get_youngest_valid_parent_clifford(2), Some(1));
    assert_eq!(d.get_youngest_valid_parent_clifford(1), None);
    assert!(!d.done_commuting_nonclifford(2, &vec![]));
    assert!(d.done_commuting_nonclifford(3, &vec![]));
    assert!(!d.done_commuting_nonclifford(1, &vec![0]));
}

#[test]
fn commuting_a_clifford_past_its_child_reverses_the_edge() {
    let mut d = sample();
    d.commute_clifford_right(1, 2);
    assert!(d.children[2].contains(&1));
    assert!(!d.children[1].contains(&2));
    assert!(!d.is_bad_topo_order(1) && !d.is_bad_topo_order(2));
    // The T rotation Z1 conjugated by the S-type rotation X0.Z1 commutes with it.
    assert_eq!(d.products[2].terms.len(), 1);
    assert_eq!(d.verify_clifford_relations() <= 2, true);
}

#[test]
fn reordering_renumbers_from_the_given_node() {
    let mut d = sample();
    d.topological_order = vec![0, 1, 4, 3, 2];
    d.update_topological_order_starting_at(1);
    assert_eq!(d.update_topo_calls, 1);
    for p in 0..5 {
        for &c in &d.children[p] {
            assert!(d.topological_order[p] < d.topological_order[c]);
        }
    }
    assert_eq!(d.topological_order[0], 0);
}

#[test]
fn add_and_erase_relation() {
    let mut d = sample();
    d.add_relation(0, 3);
    assert!(d.children[0].contains(&3) && d.parents[3].contains(&0));
    d.erase_relation(0, 3);
    assert!(!d.children[0].contains(&3) && !d.parents[3].contains(&0));
}

#[test]
fn collect_finds_roots_and_nodes_before_cliffords() {
    let d = sample();
    assert_eq!(d.collect_uncommuted_noncliffords(), vec![0, 2, 3]);
}

#[test]
fn commute_all_moves_cliffords_after_the_t_products() {
    let mut d = sample();
    assert_eq!(d.commute_all_cliffords(100), Ok(true));
    for &x in &[0usize, 2, 3] {
        assert!(d.parents[x].iter().all(|&p| !d.is_clifford(p)));
    }
    assert!(d.is_clifford(1) && d.is_clifford(4) && !d.is_clifford(2));
    assert_eq!(d.verify_clifford_relations(), 0);
    assert!(d.order_is_respected());
}

#[test]
fn commute_all_stops_when_rounds_run_out() {
    let mut d = sample();
    assert_eq!(d.commute_all_cliffords(0), Ok(false));
}
