//! State of the multi-source breadth-first search that connects the roots
//! of a product into a routing tree.
use vstd::prelude::*;
use std::collections::VecDeque;
use crate::pauliproduct::GateType;

verus! {

/// A node may become the cultivator of a T product: the product is a T gate,
/// no cultivator was chosen yet, and the node's magic state is ready.
pub fn is_cultivator_candidate(gate_type: GateType, cultivator: Option<u16>, cultivation_time: i32) -> (r: bool)
    ensures
        r == (gate_type == GateType::T && cultivator is None && cultivation_time == 0),
{
    gate_type.is_t() && cultivator.is_none() && cultivation_time == 0
}

/// Search state for greedy multi-source shortest paths, sized for one
/// layout graph.
pub struct SteinerTreeComputation {
    num_nodes: usize,
    /// The root group that reached each node, if any.
    visited: Vec<Option<u16>>,
    /// The path by which each node was reached.
    paths: Vec<Vec<u16>>,
    queue: VecDeque<u16>,
    pub num_calls: usize,
}

impl SteinerTreeComputation {
    /// The state is sized for `n` nodes.
    pub closed spec fn wf(&self, n: nat) -> bool {
        &&& self.num_nodes == n
        &&& self.visited@.len() == n
        &&& self.paths@.len() == n
    }

    /// Nothing is visited, no path is held and the queue is empty.
    pub closed spec fn is_clear(&self) -> bool {
        &&& forall|v: int| 0 <= v < self.visited@.len() ==> (#[trigger] self.visited@[v]) is None
        &&& forall|v: int| 0 <= v < self.paths@.len() ==> (#[trigger] self.paths@[v])@.len() == 0
        &&& self.queue@.len() == 0
    }

    /// The number of searches run so far.
    pub closed spec fn calls(&self) -> usize {
        self.num_calls
    }

    /// A clear search state for `num_nodes` nodes, with no searches run yet.
    pub fn new(num_nodes: usize) -> (s: Self)
        ensures
            s.wf(num_nodes as nat),
            s.is_clear(),
            s.calls() == 0,
    {
        let mut paths: Vec<Vec<u16>> = Vec::new();
        let mut i: usize = 0;
        while i < num_nodes
            invariant
                i <= num_nodes,
                paths@.len() == i,
                forall|v: int| 0 <= v < i ==> (#[trigger] paths@[v])@.len() == 0,
            decreases num_nodes - i,
        {
            paths.push(Vec::with_capacity(num_nodes));
            i += 1;
        }
        SteinerTreeComputation {
            num_nodes,
            visited: vec![None; num_nodes],
            paths,
            queue: VecDeque::with_capacity(num_nodes),
            num_calls: 0,
        }
    }

    /// Forgets the last search: nothing visited, no paths, an empty queue.
    pub fn clear(&mut self)
        ensures
            final(self).is_clear(),
            forall|n: nat| old(self).wf(n) ==> final(self).wf(n),
            final(self).calls() == old(self).calls(),
    {
        let mut i: usize = 0;
        while i < self.visited.len()
            invariant
                i <= self.visited@.len(),
                self.visited@.len() == old(self).visited@.len(),
                self.paths@.len() == old(self).paths@.len(),
                self.num_nodes == old(self).num_nodes,
                self.num_calls == old(self).num_calls,
                forall|v: int| 0 <= v < i ==> (#[trigger] self.visited@[v]) is None,
            decreases self.visited@.len() - i,
        {
            self.visited.set(i, None);
            i += 1;
        }
        let mut j: usize = 0;
        while j < self.paths.len()
            invariant
                j <= self.paths@.len(),
                self.visited@.len() == old(self).visited@.len(),
                self.paths@.len() == old(self).paths@.len(),
                self.num_nodes == old(self).num_nodes,
                self.num_calls == old(self).num_calls,
                forall|v: int| 0 <= v < self.visited@.len() ==> (#[trigger] self.visited@[v]) is None,
                forall|v: int| 0 <= v < j ==> (#[trigger] self.paths@[v])@.len() == 0,
            decreases self.paths@.len() - j,
        {
            self.paths.set(j, Vec::new());
            j += 1;
        }
        self.queue.clear();
    }
}

} // verus!
