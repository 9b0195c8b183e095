use puremagic::astar::{AStarComputation, PathResult};
use puremagic::node::NodeType;
use puremagic::topograph::TopoGraph;

#[test]
fn astar_new_initialises_with_zero_calls() {
    let astar = AStarComputation::new(10);
    assert_eq!(astar.num_calls, 0);
}

#[test]
fn manhattan_dist_same_point() {
    assert_eq!(AStarComputation::test_manhattan_dist((3, 4), (3, 4)), 0);
}

#[test]
fn manhattan_dist_horizontal() {
    assert_eq!(AStarComputation::test_manhattan_dist((0, 0), (5, 0)), 5);
}

#[test]
fn manhattan_dist_vertical() {
    assert_eq!(AStarComputation::test_manhattan_dist((0, 0), (0, 3)), 3);
}

#[test]
fn manhattan_dist_diagonal() {
    assert_eq!(AStarComputation::test_manhattan_dist((0, 0), (3, 4)), 7);
}

#[test]
fn manhattan_dist_negative_coords() {
    assert_eq!(AStarComputation::test_manhattan_dist((-2, -3), (1, 1)), 7);
}

#[test]
fn heuristic_single_candidate() {
    let ready = vec![(5, 5)];
    let (dist, idx) = AStarComputation::test_heuristic((2, 2), &ready);
    assert_eq!(idx, 0);
    assert_eq!(dist, 6);
}

#[test]
fn heuristic_picks_nearest() {
    let ready = vec![(1, 0), (3, 0), (10, 0)];
    let (dist, idx) = AStarComputation::test_heuristic((2, 0), &ready);
    assert_eq!(dist, 1);
    assert!(idx == 0 || idx == 1);
}

#[test]
fn heuristic_exact_match() {
    let ready = vec![(0, 0), (4, 0), (8, 0)];
    let (dist, idx) = AStarComputation::test_heuristic((4, 0), &ready);
    assert_eq!(dist, 0);
    assert_eq!(idx, 1);
}

#[test]
fn heuristic_with_no_positions() {
    let ready: Vec<(i32, i32)> = Vec::new();
    assert_eq!(AStarComputation::test_heuristic((4, 0), &ready), (u32::MAX, 0));
}

/// data(0) - bus(1) - bus(2) - magic(3), in a row.
fn line_graph() -> TopoGraph {
    let mut topo = TopoGraph::new(false);
    let d = topo.add_node(NodeType::Data, None, 0, 0);
    let b1 = topo.add_node(NodeType::Bus, Some(d), 1, 0);
    let b2 = topo.add_node(NodeType::Bus, None, 2, 0);
    let m = topo.add_node(NodeType::Magic, None, 3, 0);
    topo.add_edge(d, b1);
    topo.add_edge(b1, b2);
    topo.add_edge(b2, m);
    topo
}

#[test]
fn compute_finds_route_and_marks_it_used() {
    let topo = line_graph();
    let mut astar = AStarComputation::new(topo.num_nodes);
    let mut used = vec![false; topo.num_nodes];
    let r = astar.compute(&[0], &[1], &topo, &mut used, &[(3, 0)]);
    assert_eq!(r, PathResult::PathFound);
    assert_eq!(used, vec![true, true, true, true]);
    assert_eq!(astar.num_calls, 1);
}

#[test]
fn compute_returns_no_path_when_no_magic_ready() {
    let mut topo = line_graph();
    topo.cultivation_times[3] = 99;
    let mut astar = AStarComputation::new(topo.num_nodes);
    let mut used = vec![false; topo.num_nodes];
    let r = astar.compute(&[0], &[1], &topo, &mut used, &[(3, 0)]);
    assert_eq!(r, PathResult::NoPath);
    assert_eq!(used, vec![false; 4]);
    assert_eq!(astar.num_calls, 1);
}

#[test]
fn compute_is_blocked_by_used_nodes() {
    let topo = line_graph();
    let mut astar = AStarComputation::new(topo.num_nodes);
    let mut used = vec![false, false, true, false];
    let r = astar.compute(&[0], &[1], &topo, &mut used, &[(3, 0)]);
    assert_eq!(r, PathResult::NoPath);
    assert_eq!(used, vec![false, false, true, false]);
}

#[test]
fn compute_counts_every_call() {
    let topo = line_graph();
    let mut astar = AStarComputation::new(topo.num_nodes);
    let mut used = vec![false; topo.num_nodes];
    let _ = astar.compute(&[0], &[1], &topo, &mut used, &[(3, 0)]);
    let mut used2 = vec![false; topo.num_nodes];
    let r = astar.compute(&[0], &[1], &topo, &mut used2, &[(3, 0)]);
    assert_eq!(r, PathResult::PathFound);
    assert_eq!(astar.num_calls, 2);
}

#[test]
fn astar_plotting_leaves_used_alone() {
    let topo = line_graph();
    let mut astar = AStarComputation::new(topo.num_nodes);
    let used = vec![false; topo.num_nodes];
    let tree = astar.compute_tree(&[0], &[1], &topo, &used, &[(3, 0)]);
    assert_eq!(tree, Some(vec![true, true, true, true]));
    assert_eq!(used, vec![false; 4]);
    let mut blocked = line_graph();
    blocked.cultivation_times[3] = 99;
    assert_eq!(astar.compute_tree(&[0], &[1], &blocked, &used, &[(3, 0)]), None);
}
