use puremagic::astar::PathResult;
use puremagic::greedypath::GreedyPathComputation;
use puremagic::node::NodeType;
use puremagic::topograph::TopoGraph;

/// data(0) - bus(1) - bus(2) - magic(3), in a row.
fn line_graph() -> TopoGraph {
    let mut topo = TopoGraph::new(false);
    let d = topo.add_node(NodeType::Data, None, 0, 0);
    let b1 = topo.add_node(NodeType::Bus, Some(d), 1, 0);
    let b2 = topo.add_node(NodeType::Bus, None, 2, 0);
    let m = topo.add_node(NodeType::Magic, None, 3, 0);
    topo.add_edge(d, b1);
    topo.add_edge(b1, b2);
    topo.add_edge(b2, m);
    topo
}

#[test]
fn greedy_new_initialises_with_zero_calls() {
    let g = GreedyPathComputation::new(10);
    assert_eq!(g.num_calls, 0);
}

#[test]
fn greedy_walk_marks_path_and_terminals() {
    let topo = line_graph();
    let mut g = GreedyPathComputation::new(topo.num_nodes);
    let mut used = vec![false; topo.num_nodes];
    let r = g.compute(&[0], &[1], &topo, &mut used, &[(3, 0)]);
    assert_eq!(r, PathResult::PathFound);
    assert_eq!(used, vec![true, true, true, true]);
    assert_eq!(g.num_calls, 1);
}

#[test]
fn greedy_walk_gives_up_without_ready_magic() {
    let mut topo = line_graph();
    topo.cultivation_times[3] = 5;
    let mut g = GreedyPathComputation::new(topo.num_nodes);
    let mut used = vec![false; topo.num_nodes];
    let r = g.compute(&[0], &[1], &topo, &mut used, &[(3, 0)]);
    assert_eq!(r, PathResult::NoPath);
    assert_eq!(used, vec![false; 4]);
}

#[test]
fn greedy_walk_at_ready_magic_root_stops_at_once() {
    let topo = line_graph();
    let mut g = GreedyPathComputation::new(topo.num_nodes);
    let mut used = vec![false; topo.num_nodes];
    let r = g.compute(&[], &[3], &topo, &mut used, &[(3, 0)]);
    assert_eq!(r, PathResult::PathFound);
    assert_eq!(used, vec![false, false, false, true]);
}

#[test]
fn greedy_walk_backs_out_of_dead_ends() {
    // root(0) at (0,0) with a dead-end bus neighbour (1) at (1,0) and a bus
    // neighbour (2) at (0,1) that leads to a ready magic node (3) at (0,2).
    // The target position lies beyond the dead end, so the walk tries it first.
    let mut topo = TopoGraph::new(false);
    let r0 = topo.add_node(NodeType::Bus, None, 0, 0);
    let a = topo.add_node(NodeType::Bus, None, 1, 0);
    let b = topo.add_node(NodeType::Bus, None, 0, 1);
    let m = topo.add_node(NodeType::Magic, None, 0, 2);
    topo.add_edge(r0, a);
    topo.add_edge(r0, b);
    topo.add_edge(b, m);
    let mut g = GreedyPathComputation::new(topo.num_nodes);
    let mut used = vec![false; topo.num_nodes];
    let r = g.compute(&[], &[r0], &topo, &mut used, &[(2, 0)]);
    assert_eq!(r, PathResult::PathFound);
    assert_eq!(used, vec![true, false, true, true]);
}

#[test]
fn greedy_plotting_leaves_used_alone() {
    let topo = line_graph();
    let mut g = GreedyPathComputation::new(topo.num_nodes);
    let used = vec![false; topo.num_nodes];
    let tree = g.compute_tree(&[0], &[1], &topo, &used, &[(3, 0)]);
    assert_eq!(tree, Some(vec![true, true, true, true]));
    assert_eq!(used, vec![false; 4]);
    assert_eq!(g.num_calls, 1);
}
