use puremagic::node::{Node, NodeType, MAX_NBORS};

#[test]
fn max_nbors_is_six() {
    assert_eq!(MAX_NBORS, 6);
}

#[test]
fn node_new_has_no_neighbours() {
    let n = Node::new(4, Some(2), 3, -1, NodeType::Bus);
    assert_eq!(n.id, 4);
    assert_eq!(n.paired_data_id, Some(2));
    assert_eq!(n.pos, (3, -1));
    assert_eq!(n.num_nbors, 0);
    assert!(n.nbors_slice().is_empty());
}

#[test]
fn add_neighbor_ignores_duplicates() {
    let mut n = Node::new(0, None, 0, 0, NodeType::Bus);
    n.add_neighbor(5);
    n.add_neighbor(7);
    n.add_neighbor(5);
    assert_eq!(n.nbors_slice(), &[5, 7]);
}

#[test]
fn is_routing_depends_on_mode() {
    let magic = Node::new(0, None, 0, 0, NodeType::Magic);
    let bus = Node::new(1, None, 0, 0, NodeType::Bus);
    let data = Node::new(2, None, 0, 0, NodeType::Data);
    assert!(!magic.is_routing(false));
    assert!(bus.is_routing(false));
    assert!(!data.is_routing(false));
    assert!(magic.is_routing(true));
    assert!(!data.is_routing(true));
}

#[test]
fn node_type_equality() {
    assert_eq!(NodeType::Magic, NodeType::Magic);
    assert_eq!(NodeType::Bus, NodeType::Bus);
    assert_eq!(NodeType::Data, NodeType::Data);
    assert_ne!(NodeType::Magic, NodeType::Bus);
    assert_ne!(NodeType::Magic, NodeType::Data);
    assert_ne!(NodeType::Bus, NodeType::Data);
}

#[test]
fn node_type_clone_and_copy() {
    let t = NodeType::Magic;
    let t2 = t;
    let t3 = t.clone();
    assert_eq!(t, t2);
    assert_eq!(t, t3);
}

#[test]
fn node_new_magic() {
    let node = Node::new(5, None, 1, 2, NodeType::Magic);
    assert_eq!(node.id, 5);
    assert_eq!(node.node_type, NodeType::Magic);
    assert_eq!(node.pos, (1, 2));
    assert!(node.paired_data_id.is_none());
    assert_eq!(node.num_nbors, 0);
}

#[test]
fn node_new_data_with_pair() {
    let node = Node::new(3, Some(7), 0, 1, NodeType::Data);
    assert_eq!(node.id, 3);
    assert_eq!(node.node_type, NodeType::Data);
    assert_eq!(node.paired_data_id, Some(7));
}

#[test]
fn node_new_bus() {
    let node = Node::new(0, None, 0, 0, NodeType::Bus);
    assert_eq!(node.node_type, NodeType::Bus);
}

#[test]
fn add_neighbor_increases_count() {
    let mut node = Node::new(0, None, 0, 0, NodeType::Magic);
    assert_eq!(node.num_nbors, 0);
    node.add_neighbor(1);
    assert_eq!(node.num_nbors, 1);
    node.add_neighbor(2);
    assert_eq!(node.num_nbors, 2);
}

#[test]
fn add_neighbor_no_duplicates() {
    let mut node = Node::new(0, None, 0, 0, NodeType::Magic);
    node.add_neighbor(1);
    node.add_neighbor(1);
    assert_eq!(node.num_nbors, 1);
}

#[test]
fn add_neighbor_up_to_max() {
    let mut node = Node::new(0, None, 0, 0, NodeType::Magic);
    for i in 1..=(MAX_NBORS as u16) {
        node.add_neighbor(i);
    }
    assert_eq!(node.num_nbors as usize, MAX_NBORS);
}

#[test]
fn nbors_slice_empty_initially() {
    let node = Node::new(0, None, 0, 0, NodeType::Magic);
    assert!(node.nbors_slice().is_empty());
}

#[test]
fn nbors_slice_contains_added_neighbors() {
    let mut node = Node::new(0, None, 0, 0, NodeType::Magic);
    node.add_neighbor(10);
    node.add_neighbor(20);
    let slice = node.nbors_slice();
    assert_eq!(slice.len(), 2);
    assert!(slice.contains(&10));
    assert!(slice.contains(&20));
}

#[test]
fn is_routing_magic_when_magic_routing_enabled() {
    let magic = Node::new(0, None, 0, 0, NodeType::Magic);
    let data = Node::new(1, None, 0, 0, NodeType::Data);
    assert!(magic.is_routing(true));
    assert!(!data.is_routing(true));
}

#[test]
fn is_routing_bus_when_magic_routing_disabled() {
    let bus = Node::new(0, None, 0, 0, NodeType::Bus);
    let data = Node::new(1, None, 0, 0, NodeType::Data);
    assert!(bus.is_routing(false));
    assert!(!data.is_routing(false));
}

#[test]
fn set_magic_routing_toggles_global_flag() {
    let magic = Node::new(0, None, 0, 0, NodeType::Magic);
    assert!(magic.is_routing(true));
    let bus = Node::new(1, None, 0, 0, NodeType::Bus);
    assert!(bus.is_routing(false));
}

#[test]
fn node_new_data_without_pair() {
    let node = Node::new(9, None, 3, 4, NodeType::Data);
    assert_eq!(node.id, 9);
    assert_eq!(node.node_type, NodeType::Data);
    assert!(node.paired_data_id.is_none());
    assert_eq!(node.pos, (3, 4));
}

#[test]
fn is_routing_bus_node_when_magic_routing_disabled() {
    let bus = Node::new(0, None, 0, 0, NodeType::Bus);
    assert!(bus.is_routing(false));
}

#[test]
fn is_routing_magic_when_magic_routing_disabled() {
    let magic = Node::new(0, None, 0, 0, NodeType::Magic);
    assert!(!magic.is_routing(false));
}
