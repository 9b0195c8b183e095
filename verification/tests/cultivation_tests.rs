use puremagic::cultivation::CultivationManager;
use puremagic::node::NodeType;
use puremagic::topograph::TopoGraph;

/// bus(0) at (0,0), magic(1) at (5,0), magic(2) at (1,1), data(3), magic(4) at (3,2).
fn layout() -> TopoGraph {
    let mut topo = TopoGraph::new(false);
    topo.add_node(NodeType::Bus, None, 0, 0);
    topo.add_node(NodeType::Magic, None, 5, 0);
    topo.add_node(NodeType::Magic, None, 1, 1);
    topo.add_node(NodeType::Data, None, 2, 2);
    topo.add_node(NodeType::Magic, None, 3, 2);
    topo
}

#[test]
fn init_magic_nodes_assigns_drawn_times() {
    let mut topo = layout();
    let mut m = CultivationManager::new();
    m.init_magic_nodes(&mut topo, &vec![2, 0, 1]);
    assert_eq!(m.magic_node_ids, vec![1, 2, 4]);
    assert_eq!(m.magic_node_positions, vec![(5, 0), (1, 1), (3, 2)]);
    assert_eq!(topo.cultivation_times, vec![0, 2, 0, 0, 1]);
    assert_eq!(topo.busy_counts, vec![0, 0, 0, 0, 0]);
}

#[test]
fn update_cultivators_counts_down_and_collects_ready_positions() {
    let mut topo = layout();
    let mut m = CultivationManager::new();
    m.init_magic_nodes(&mut topo, &vec![2, 0, 1]);
    let used = vec![false; 5];
    // Node 4 finishes (time 1), node 1 counts one busy lcycle, node 2 is ready.
    let n = m.update_cultivators(&mut topo, &used, &vec![]);
    assert_eq!(n, 2);
    assert_eq!(topo.cultivation_times, vec![0, 2, 0, 0, 0]);
    assert_eq!(topo.busy_counts, vec![0, 1, 0, 0, 0]);
    assert_eq!(m.cultivation_times_log, vec![1]);
    assert_eq!(m.ready_magic_positions, vec![(1, 1), (3, 2)]);
    // Node 1 finishes next.
    let n = m.update_cultivators(&mut topo, &used, &vec![]);
    assert_eq!(n, 3);
    assert_eq!(m.cultivation_times_log, vec![1, 2]);
    assert_eq!(m.ready_magic_positions, vec![(1, 1), (3, 2), (5, 0)]);
}

#[test]
fn used_magic_nodes_start_over_with_fresh_times() {
    let mut topo = layout();
    let mut m = CultivationManager::new();
    m.init_magic_nodes(&mut topo, &vec![0, 0, 0]);
    let mut used = vec![false; 5];
    used[2] = true;
    used[4] = true;
    let n = m.update_cultivators(&mut topo, &used, &vec![3, 0]);
    assert_eq!(topo.cultivation_times, vec![0, 0, 3, 0, 0]);
    assert_eq!(n, 2);
    assert_eq!(m.ready_magic_positions, vec![(3, 2), (5, 0)]);
    assert!(m.cultivation_times_log.is_empty());
}

/// A small layout: data qubits paired with magic nodes scattered over a grid.
fn grid() -> TopoGraph {
    let mut topo = TopoGraph::new(true);
    topo.add_node(NodeType::Magic, None, 4, 0);
    topo.add_node(NodeType::Data, None, 0, 0);
    topo.add_node(NodeType::Magic, None, 2, 1);
    topo.add_node(NodeType::Magic, None, 0, 3);
    topo.add_node(NodeType::Data, None, 3, 3);
    topo.add_node(NodeType::Magic, None, 1, 2);
    topo
}

fn num_magic(topo: &TopoGraph) -> usize {
    topo.nodes.iter().filter(|n| n.node_type == NodeType::Magic).count()
}

#[test]
fn new_creates_empty_manager() {
    let mgr = CultivationManager::new();
    assert_eq!(mgr.t_products_remaining, 0);
    assert!(mgr.cultivation_times_log.is_empty());
    assert!(mgr.magic_node_ids.is_empty());
    assert!(mgr.magic_node_positions.is_empty());
    assert!(mgr.ready_magic_positions.is_empty());
}

#[test]
fn init_magic_nodes_populates_ids_and_positions() {
    let mut mgr = CultivationManager::new();
    let mut topo = grid();
    let num_magic_before = num_magic(&topo);
    mgr.init_magic_nodes(&mut topo, &vec![1; num_magic_before]);
    assert_eq!(mgr.magic_node_ids.len(), num_magic_before);
    assert_eq!(mgr.magic_node_positions.len(), num_magic_before);
}

#[test]
fn init_magic_nodes_assigns_cultivation_times() {
    let mut mgr = CultivationManager::new();
    let mut topo = grid();
    let k = num_magic(&topo);
    mgr.init_magic_nodes(&mut topo, &vec![2; k]);
    for &id in &mgr.magic_node_ids {
        assert!(topo.cultivation_times[id as usize] >= 0);
    }
}

#[test]
fn update_cultivators_returns_count_of_ready_magic_nodes() {
    let mut mgr = CultivationManager::new();
    let mut topo = grid();
    let k = num_magic(&topo);
    mgr.init_magic_nodes(&mut topo, &vec![3; k]);
    for &id in &mgr.magic_node_ids {
        topo.cultivation_times[id as usize] = 0;
    }
    let used = vec![false; topo.num_nodes];
    let num_ready = mgr.update_cultivators(&mut topo, &used, &vec![]);
    assert_eq!(num_ready, mgr.magic_node_ids.len());
}

#[test]
fn update_cultivators_used_nodes_get_new_cultivation_time() {
    let mut mgr = CultivationManager::new();
    let mut topo = grid();
    let k = num_magic(&topo);
    mgr.init_magic_nodes(&mut topo, &vec![3; k]);
    let first_id = mgr.magic_node_ids[0];
    let mut used = vec![false; topo.num_nodes];
    used[first_id as usize] = true;
    topo.cultivation_times[first_id as usize] = 0;
    mgr.update_cultivators(&mut topo, &used, &vec![4]);
    assert_eq!(topo.busy_counts[first_id as usize], 0);
    assert_eq!(topo.cultivation_times[first_id as usize], 4);
}

#[test]
fn update_cultivators_increments_busy_count_for_cultivating_nodes() {
    let mut mgr = CultivationManager::new();
    let mut topo = grid();
    let k = num_magic(&topo);
    mgr.init_magic_nodes(&mut topo, &vec![3; k]);
    let first_id = mgr.magic_node_ids[0];
    topo.cultivation_times[first_id as usize] = 5;
    topo.busy_counts[first_id as usize] = 0;
    let used = vec![false; topo.num_nodes];
    mgr.update_cultivators(&mut topo, &used, &vec![]);
    assert_eq!(topo.busy_counts[first_id as usize], 1);
}

#[test]
fn update_cultivators_logs_completed_cultivation() {
    let mut mgr = CultivationManager::new();
    let mut topo = grid();
    let k = num_magic(&topo);
    mgr.init_magic_nodes(&mut topo, &vec![5; k]);
    let first_id = mgr.magic_node_ids[0];
    topo.cultivation_times[first_id as usize] = 3;
    topo.busy_counts[first_id as usize] = 2;
    let used = vec![false; topo.num_nodes];
    mgr.update_cultivators(&mut topo, &used, &vec![]);
    assert!(mgr.cultivation_times_log.contains(&3));
    assert_eq!(topo.cultivation_times[first_id as usize], 0);
    assert_eq!(topo.busy_counts[first_id as usize], 0);
}

#[test]
fn update_cultivators_ready_positions_sorted_by_x() {
    let mut mgr = CultivationManager::new();
    let mut topo = grid();
    let k = num_magic(&topo);
    mgr.init_magic_nodes(&mut topo, &vec![1; k]);
    for &id in &mgr.magic_node_ids {
        topo.cultivation_times[id as usize] = 0;
    }
    let used = vec![false; topo.num_nodes];
    mgr.update_cultivators(&mut topo, &used, &vec![]);
    let xs: Vec<i32> = mgr.ready_magic_positions.iter().map(|p| p.0).collect();
    for w in xs.windows(2) {
        assert!(w[0] <= w[1], "ready_magic_positions not sorted by x: {:?}", xs);
    }
    assert_eq!(xs, vec![0, 1, 2, 4]);
}
