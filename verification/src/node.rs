//! Nodes of the layout graph.
use vstd::prelude::*;

verus! {

/// Classification of nodes in the topological graph.
#[derive(Debug, Clone, Copy, PartialEq, Eq, Structural)]
pub enum NodeType {
    Magic,
    Bus,
    Data,
}

/// Maximum number of neighbours a node can have (4 grid + 2 data = 6).
pub const MAX_NBORS: usize = 6;

/// A node in the topological graph. Its position is a pair of grid coordinates.
/// `nbors` is a fixed-size inline array whose first `num_nbors` entries are in use.
#[derive(Debug, Clone, Copy)]
pub struct Node {
    pub node_type: NodeType,
    pub id: u16,
    pub paired_data_id: Option<u16>,
    pub pos: (i32, i32),
    pub nbors: [u16; MAX_NBORS],
    pub num_nbors: u8,
}

impl Node {
    /// The neighbour count never exceeds the capacity of the inline array.
    pub open spec fn wf(&self) -> bool {
        self.num_nbors as int <= MAX_NBORS
    }

    /// The neighbours in use, in the order they were added.
    pub open spec fn nbors_view(&self) -> Seq<u16> {
        self.nbors@.subrange(0, self.num_nbors as int)
    }

    /// Whether this node routes in the given mode: in magic-routing mode only
    /// magic nodes route; in bus-routing mode only bus nodes route.
    pub open spec fn routes(&self, use_magic_routing: bool) -> bool {
        if use_magic_routing {
            self.node_type == NodeType::Magic
        } else {
            self.node_type == NodeType::Bus
        }
    }

    /// A node with no neighbours yet.
    pub fn new(id: u16, paired_data_id: Option<u16>, x: i32, y: i32, node_type: NodeType) -> (n: Self)
        ensures
            n.id == id,
            n.paired_data_id == paired_data_id,
            n.pos == (x, y),
            n.node_type == node_type,
            n.num_nbors == 0,
            n.wf(),
            n.nbors_view() == Seq::<u16>::empty(),
    {
        let n = Node { node_type, id, paired_data_id, pos: (x, y), nbors: [0u16; MAX_NBORS], num_nbors: 0 };
        assert(n.nbors_view() =~= Seq::<u16>::empty());
        n
    }

    /// Adds `other` as a neighbour unless it already is one.
    pub fn add_neighbor(&mut self, other: u16)
        requires
            old(self).wf(),
            old(self).nbors_view().contains(other) || (old(self).num_nbors as int) < MAX_NBORS,
        ensures
            final(self).wf(),
            final(self).node_type == old(self).node_type,
            final(self).id == old(self).id,
            final(self).paired_data_id == old(self).paired_data_id,
            final(self).pos == old(self).pos,
            old(self).nbors_view().contains(other) ==> final(self).nbors_view() == old(self).nbors_view(),
            !old(self).nbors_view().contains(other) ==> final(self).nbors_view() == old(self).nbors_view().push(other),
    {
        let mut i: usize = 0;
        while i < self.num_nbors as usize
            invariant
                self.wf(),
                i <= self.num_nbors,
                forall|j: int| 0 <= j < i ==> self.nbors_view()[j] != other,
            decreases self.num_nbors - i,
        {
            if self.nbors[i] == other {
                assert(self.nbors_view()[i as int] == other);
                return;
            }
            i += 1;
        }
        assert(!self.nbors_view().contains(other));
        let ghost before = self.nbors_view();
        let k = self.num_nbors as usize;
        self.nbors[k] = other;
        self.num_nbors = self.num_nbors + 1;
        assert(self.nbors_view() =~= before.push(other));
    }

    /// The neighbours in use.
    pub fn nbors_slice(&self) -> (s: &[u16])
        requires
            self.wf(),
        ensures
            s@ == self.nbors_view(),
    {
        vstd::slice::slice_subrange(self.nbors.as_slice(), 0, self.num_nbors as usize)
    }

    /// Returns true if this node is a valid routing intermediary in the given mode.
    /// In magic-routing mode bus nodes must not exist.
    pub fn is_routing(&self, use_magic_routing: bool) -> (r: bool)
        requires
            use_magic_routing ==> self.node_type != NodeType::Bus,
        ensures
            r == self.routes(use_magic_routing),
    {
        if use_magic_routing {
            self.node_type == NodeType::Magic
        } else {
            self.node_type == NodeType::Bus
        }
    }
}

} // verus!
