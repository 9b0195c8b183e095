//! The layout graph that the path searches run on: its nodes with their
//! neighbour lists and grid positions, and the per-node cultivation state.
use vstd::prelude::*;
use crate::node::{Node, NodeType, MAX_NBORS};

verus! {

/// Bound on the absolute value of a grid coordinate.
pub const POS_LIMIT: i32 = 268435456;

/// The layout graph. Node `i` is stored at index `i`.
pub struct TopoGraph {
    pub nodes: Vec<Node>,
    /// Remaining cultivation cycles of each node; 0 means a magic state is ready.
    pub cultivation_times: Vec<i32>,
    /// Cycles each node has spent cultivating so far.
    pub busy_counts: Vec<i32>,
    /// Whether magic nodes route (otherwise bus nodes do).
    pub use_magic_routing: bool,
    pub num_nodes: usize,
}

/// A grid position whose coordinates stay within `POS_LIMIT`.
pub open spec fn pos_ok(p: (i32, i32)) -> bool {
    -POS_LIMIT <= p.0 <= POS_LIMIT && -POS_LIMIT <= p.1 <= POS_LIMIT
}

/// Node `n` stored at index `i` of a graph with `num_nodes` nodes.
pub open spec fn node_ok(n: Node, i: int, num_nodes: usize, use_magic_routing: bool) -> bool {
    &&& n.id == i
    &&& n.wf()
    &&& pos_ok(n.pos)
    &&& (use_magic_routing ==> n.node_type != NodeType::Bus)
    &&& forall|j: int| 0 <= j < n.num_nbors ==> (#[trigger] n.nbors@[j]) < num_nodes
}

/// Appending `x` adds exactly `x` to what a sequence contains.
pub proof fn lemma_push_contains<T>(s: Seq<T>, x: T)
    ensures
        s.push(x).contains(x),
        forall|w: T| s.push(x).contains(w) <==> (s.contains(w) || w == x),
{
    assert(s.push(x)[s.len() as int] == x);
    assert forall|w: T| s.push(x).contains(w) <==> (s.contains(w) || w == x) by {
        if s.contains(w) {
            let k = choose|k: int| 0 <= k < s.len() && s[k] == w;
            assert(s.push(x)[k] == w);
        }
        if s.push(x).contains(w) {
            let k = choose|k: int| 0 <= k < s.len() + 1 && s.push(x)[k] == w;
            if k < s.len() {
                assert(s[k] == w);
            }
        }
    }
}

impl TopoGraph {
    /// The shape every layout graph keeps: parallel arrays of one length,
    /// node ids equal to their index, neighbour ids in range, bounded
    /// positions, and no bus nodes in magic-routing mode.
    pub open spec fn wf(&self) -> bool {
        &&& self.nodes@.len() == self.num_nodes
        &&& self.cultivation_times@.len() == self.num_nodes
        &&& self.busy_counts@.len() == self.num_nodes
        &&& self.num_nodes < 65535
        &&& forall|i: int| 0 <= i < self.num_nodes ==> node_ok(#[trigger] self.nodes@[i], i, self.num_nodes, self.use_magic_routing)
    }

    /// The neighbours of node `v`.
    pub open spec fn nbrs(&self, v: int) -> Seq<u16> {
        self.nodes@[v].nbors_view()
    }

    /// The kind of node `v`.
    pub open spec fn kind(&self, v: int) -> NodeType {
        self.nodes@[v].node_type
    }

    /// An empty graph.
    pub fn new(use_magic_routing: bool) -> (g: Self)
        ensures
            g.wf(),
            g.num_nodes == 0,
            g.use_magic_routing == use_magic_routing,
    {
        TopoGraph {
            nodes: Vec::new(),
            cultivation_times: Vec::new(),
            busy_counts: Vec::new(),
            use_magic_routing,
            num_nodes: 0,
        }
    }

    /// Adds a node with no neighbours, cultivation time 0 and busy count 0;
    /// returns its id.
    pub fn add_node(&mut self, node_type: NodeType, paired_data_id: Option<u16>, x: i32, y: i32) -> (id: u16)
        requires
            old(self).wf(),
            old(self).num_nodes < 65534,
            pos_ok((x, y)),
            old(self).use_magic_routing ==> node_type != NodeType::Bus,
        ensures
            final(self).wf(),
            id == old(self).num_nodes,
            final(self).num_nodes == old(self).num_nodes + 1,
            final(self).use_magic_routing == old(self).use_magic_routing,
            final(self).nodes@ == old(self).nodes@.push(final(self).nodes@[id as int]),
            final(self).nodes@[id as int].node_type == node_type,
            final(self).nodes@[id as int].pos == (x, y),
            final(self).nodes@[id as int].paired_data_id == paired_data_id,
            final(self).nodes@[id as int].num_nbors == 0,
            final(self).cultivation_times@ == old(self).cultivation_times@.push(0),
            final(self).busy_counts@ == old(self).busy_counts@.push(0),
    {
        let id = self.num_nodes as u16;
        let n = Node::new(id, paired_data_id, x, y, node_type);
        self.nodes.push(n);
        self.cultivation_times.push(0);
        self.busy_counts.push(0);
        self.num_nodes = self.num_nodes + 1;
        assert forall|i: int| 0 <= i < self.num_nodes implies node_ok(#[trigger] self.nodes@[i], i, self.num_nodes, self.use_magic_routing) by {
            if i < old(self).num_nodes {
                assert(self.nodes@[i] == old(self).nodes@[i]);
                assert(node_ok(old(self).nodes@[i], i, old(self).num_nodes, self.use_magic_routing));
            }
        }
        id
    }

    /// Connects two nodes in both directions (each becomes the other's neighbour).
    pub fn add_edge(&mut self, a: u16, b: u16)
        requires
            old(self).wf(),
            a < old(self).num_nodes,
            b < old(self).num_nodes,
            old(self).nbrs(a as int).contains(b) || (old(self).nodes@[a as int].num_nbors as int) < MAX_NBORS,
            old(self).nbrs(b as int).contains(a) || (old(self).nodes@[b as int].num_nbors as int) < MAX_NBORS,
            a != b,
        ensures
            final(self).wf(),
            final(self).num_nodes == old(self).num_nodes,
            final(self).use_magic_routing == old(self).use_magic_routing,
            final(self).cultivation_times == old(self).cultivation_times,
            final(self).busy_counts == old(self).busy_counts,
            final(self).nbrs(a as int).contains(b),
            final(self).nbrs(b as int).contains(a),
            forall|v: int| 0 <= v < final(self).num_nodes ==> {
                &&& final(self).kind(v) == old(self).kind(v)
                &&& final(self).nodes@[v].pos == old(self).nodes@[v].pos
                &&& forall|w: u16| final(self).nbrs(v).contains(w) <==>
                    (old(self).nbrs(v).contains(w) || (v == a && w == b) || (v == b && w == a))
            },
    {
        let ghost g0 = *self;
        self.link(a, b);
        let ghost g1 = *self;
        self.link(b, a);
        proof {
            lemma_push_contains(g0.nbrs(a as int), b);
            lemma_push_contains(g1.nbrs(b as int), a);
            assert forall|v: int| 0 <= v < self.num_nodes implies {
                &&& self.kind(v) == g0.kind(v)
                &&& self.nodes@[v].pos == g0.nodes@[v].pos
                &&& forall|w: u16| self.nbrs(v).contains(w) <==>
                    (g0.nbrs(v).contains(w) || (v == a && w == b) || (v == b && w == a))
            } by {
                if v == a as int {
                    assert(self.nodes@[v] == g1.nodes@[v]);
                } else if v == b as int {
                    assert(g1.nodes@[v] == g0.nodes@[v]);
                } else {
                    assert(self.nodes@[v] == g1.nodes@[v]);
                    assert(g1.nodes@[v] == g0.nodes@[v]);
                }
            }
        }
    }

    /// Makes `b` a neighbour of `a`.
    fn link(&mut self, a: u16, b: u16)
        requires
            old(self).wf(),
            a < old(self).num_nodes,
            b < old(self).num_nodes,
            old(self).nbrs(a as int).contains(b) || (old(self).nodes@[a as int].num_nbors as int) < MAX_NBORS,
        ensures
            final(self).wf(),
            final(self).num_nodes == old(self).num_nodes,
            final(self).use_magic_routing == old(self).use_magic_routing,
            final(self).cultivation_times == old(self).cultivation_times,
            final(self).busy_counts == old(self).busy_counts,
            forall|v: int| 0 <= v < final(self).num_nodes && v != a ==> final(self).nodes@[v] == old(self).nodes@[v],
            final(self).kind(a as int) == old(self).kind(a as int),
            final(self).nodes@[a as int].pos == old(self).nodes@[a as int].pos,
            old(self).nbrs(a as int).contains(b) ==> final(self).nbrs(a as int) == old(self).nbrs(a as int),
            !old(self).nbrs(a as int).contains(b) ==> final(self).nbrs(a as int) == old(self).nbrs(a as int).push(b),
    {
        assert(node_ok(self.nodes@[a as int], a as int, self.num_nodes, self.use_magic_routing));
        let mut n = self.nodes[a as usize];
        n.add_neighbor(b);
        self.nodes.set(a as usize, n);
        assert forall|i: int| 0 <= i < self.num_nodes implies node_ok(#[trigger] self.nodes@[i], i, self.num_nodes, self.use_magic_routing) by {
            assert(node_ok(old(self).nodes@[i], i, self.num_nodes, self.use_magic_routing));
            if i == a as int {
                assert forall|j: int| 0 <= j < self.nodes@[i].num_nbors implies (#[trigger] self.nodes@[i].nbors@[j]) < self.num_nodes by {
                    assert(self.nodes@[i].nbors_view()[j] == self.nodes@[i].nbors@[j]);
                    if j < old(self).nodes@[i].num_nbors {
                        assert(old(self).nodes@[i].nbors_view()[j] == old(self).nodes@[i].nbors@[j]);
                        assert(self.nodes@[i].nbors_view()[j] == old(self).nodes@[i].nbors_view()[j]);
                    } else {
                        assert(self.nodes@[i].nbors_view() == old(self).nbrs(a as int).push(b));
                        assert(self.nodes@[i].nbors_view().len() == self.nodes@[i].num_nbors);
                        assert(old(self).nodes@[i].nbors_view().len() == old(self).nodes@[i].num_nbors);
                        assert(j == old(self).nodes@[i].num_nbors);
                        assert(self.nodes@[i].nbors_view()[j] == b);
                    }
                }
            }
        }
    }

    /// The node with the given id.
    pub fn get_node(&self, id: u16) -> (n: &Node)
        requires
            id < self.nodes@.len(),
        ensures
            *n == self.nodes@[id as int],
    {
        &self.nodes[id as usize]
    }

    /// A node is cultivating while it has a positive cultivation time that its
    /// busy count has not reached.
    pub fn is_cultivating(&self, id: u16) -> (r: bool)
        requires
            self.wf(),
            id < self.num_nodes,
        ensures
            r == (self.cultivation_times@[id as int] > 0 && self.busy_counts@[id as int] < self.cultivation_times@[id as int]),
    {
        self.cultivation_times[id as usize] > 0 && self.busy_counts[id as usize] < self.cultivation_times[id as usize]
    }
}

} // verus!
