//! A greedy depth-first walk from a root towards the nearest ready magic
//! state: always step to the open neighbour closest to the target, back up on
//! dead ends.
use vstd::prelude::*;
use crate::astar::{PathResult, mdist};
use crate::node::NodeType;
use crate::topograph::{TopoGraph, pos_ok, node_ok};
use crate::routing::{has, blocked, is_goal, expands, step, is_route, marked, lemma_has_push, lemma_has_drop_last, mark_all};

verus! {

/// Walk state of the greedy search, sized for one layout graph.
pub struct GreedyPathComputation {
    /// Nodes on the current walk.
    visited: Vec<bool>,
    /// Nodes the walk has backed out of; never entered again in this call.
    backtracked: Vec<bool>,
    pub num_calls: usize,
}

/// Number of `true` entries.
pub open spec fn count_true(s: Seq<bool>) -> nat
    decreases s.len(),
{
    if s.len() == 0 { 0 } else { count_true(s.drop_last()) + (if s.last() { 1nat } else { 0nat }) }
}

pub(crate) proof fn lemma_count_true_update(s: Seq<bool>, i: int, b: bool)
    requires
        0 <= i < s.len(),
    ensures
        count_true(s.update(i, b)) + (if s[i] { 1nat } else { 0nat }) == count_true(s) + (if b { 1nat } else { 0nat }),
    decreases s.len(),
{
    if i == s.len() - 1 {
        assert(s.update(i, b).drop_last() =~= s.drop_last());
    } else {
        lemma_count_true_update(s.drop_last(), i, b);
        assert(s.update(i, b).drop_last() =~= s.drop_last().update(i, b));
    }
}

proof fn lemma_count_true_disjoint(a: Seq<bool>, b: Seq<bool>)
    requires
        a.len() == b.len(),
        forall|v: int| 0 <= v < a.len() ==> !(#[trigger] a[v] && b[v]),
    ensures
        count_true(a) + count_true(b) <= a.len(),
    decreases a.len(),
{
    if a.len() > 0 {
        let (da, db) = (a.drop_last(), b.drop_last());
        assert forall|v: int| 0 <= v < da.len() implies !(#[trigger] da[v] && db[v]) by {
            assert(da[v] == a[v] && db[v] == b[v]);
        }
        lemma_count_true_disjoint(da, db);
        assert(!(a[a.len() - 1] && b[a.len() - 1]));
    }
}

/// A walk may move from `u` onto its neighbour `v`.
pub open spec fn link(topo: &TopoGraph, used: Seq<bool>, u: int, v: int) -> bool {
    &&& 0 <= u < topo.num_nodes
    &&& 0 <= v < topo.num_nodes
    &&& has(topo.nbrs(u), v)
    &&& !blocked(topo, used, v)
}

/// `p` walks from `root` to a ready, unused magic node: each move goes to an
/// open neighbour, and every node after the root that the walk leaves is one
/// that routes may continue from (the root itself may be any node).
pub open spec fn is_walk(topo: &TopoGraph, used: Seq<bool>, p: Seq<u16>, root: u16) -> bool {
    &&& p.len() > 0
    &&& p[0] == root
    &&& (p.last() as int) < topo.num_nodes
    &&& is_goal(topo, used, p.last() as int)
    &&& forall|i: int| 0 <= i < p.len() - 1 ==> #[trigger] link(topo, used, p[i] as int, p[i + 1] as int)
        && (i > 0 ==> expands(topo, p[i] as int))
}

/// No node occurs twice in `p`.
pub open spec fn no_repeats(p: Seq<u16>) -> bool {
    forall|i: int, j: int| 0 <= i < j < p.len() ==> p[i] != p[j]
}

/// A walk whose root routes is a route.
pub proof fn lemma_walk_is_route(topo: &TopoGraph, used: Seq<bool>, p: Seq<u16>, root: u16)
    requires
        is_walk(topo, used, p, root),
        expands(topo, root as int),
    ensures
        is_route(topo, used, p, root),
{
    assert forall|i: int| 0 <= i < p.len() - 1 implies #[trigger] step(topo, used, p[i] as int, p[i + 1] as int) by {
        assert(link(topo, used, p[i] as int, p[i + 1] as int));
    }
}

/// The walk may step onto `v` from its tip: `v` is unused, not on the walk,
/// not backed out of, not a data node, and, when magic nodes do not route,
/// a magic node only if its magic state is ready.
pub open spec fn open_step(topo: &TopoGraph, used: Seq<bool>, visited: Seq<bool>, backtracked: Seq<bool>, v: int) -> bool {
    &&& !used[v]
    &&& !visited[v]
    &&& !backtracked[v]
    &&& topo.kind(v) != NodeType::Data
    &&& (!topo.use_magic_routing && topo.kind(v) == NodeType::Magic ==> topo.cultivation_times@[v] == 0)
}

/// While backing up, the walk stays at a node with a neighbour `v` that is
/// unused, not on the walk, not backed out of, not a data node, and not a
/// magic node unless magic nodes route and its magic state is not pending.
pub open spec fn open_resume(topo: &TopoGraph, used: Seq<bool>, visited: Seq<bool>, backtracked: Seq<bool>, v: int) -> bool {
    &&& !used[v]
    &&& !visited[v]
    &&& !backtracked[v]
    &&& topo.kind(v) != NodeType::Data
    &&& (topo.kind(v) == NodeType::Magic ==> !(topo.cultivation_times@[v] > 0) && topo.use_magic_routing)
}

/// The state of a walk: the walk itself, the nodes marked on it, and the
/// nodes it has backed out of.
pub type WalkState = (Seq<u16>, Seq<bool>, Seq<bool>);

/// The first of the open neighbours among `nbrs[..k]` nearest to `target`.
pub open spec fn pick_step(topo: &TopoGraph, used: Seq<bool>, visited: Seq<bool>, backtracked: Seq<bool>,
    nbrs: Seq<u16>, target: (i32, i32), k: int) -> Option<u16>
    decreases k,
{
    if k <= 0 {
        None
    } else {
        let prev = pick_step(topo, used, visited, backtracked, nbrs, target, k - 1);
        let nb = nbrs[k - 1];
        if !open_step(topo, used, visited, backtracked, nb as int) {
            prev
        } else {
            match prev {
                None => Some(nb),
                Some(b) => if mdist(topo.nodes@[nb as int].pos, target) < mdist(topo.nodes@[b as int].pos, target) {
                    Some(nb)
                } else {
                    prev
                },
            }
        }
    }
}

/// Backs out of the tip: it leaves the walk and is marked backed out.
pub open spec fn back_out(st: WalkState) -> WalkState {
    let tip = st.0.last() as int;
    (st.0.drop_last(), st.1.update(tip, false), st.2.update(tip, true))
}

/// Node `v` has a neighbour through which a backed-up walk may resume.
pub open spec fn can_resume(topo: &TopoGraph, used: Seq<bool>, st: WalkState, v: int) -> bool {
    exists|j: int| 0 <= j < topo.nbrs(v).len() && open_resume(topo, used, st.1, st.2, #[trigger] topo.nbrs(v)[j] as int)
}

/// Keeps backing out while the walk is not empty and its tip has no
/// neighbour to resume through.
pub open spec fn retreat(topo: &TopoGraph, used: Seq<bool>, st: WalkState) -> WalkState
    decreases st.0.len(),
{
    if st.0.len() == 0 || can_resume(topo, used, st, st.0.last() as int) {
        st
    } else {
        retreat(topo, used, back_out(st))
    }
}

/// One move of the walk from a tip that is not a goal: onto the first open
/// neighbour nearest to `target`, or, at a dead end, back out and retreat.
pub open spec fn walk_move(topo: &TopoGraph, used: Seq<bool>, target: (i32, i32), st: WalkState) -> WalkState {
    let tip = st.0.last() as int;
    match pick_step(topo, used, st.1, st.2, topo.nbrs(tip), target, topo.nbrs(tip).len() as int) {
        Some(nb) => (st.0.push(nb), st.1.update(nb as int, true), st.2),
        None => retreat(topo, used, back_out(st)),
    }
}

/// The walk after at most `fuel` moves, and whether it stopped at a goal.
pub open spec fn walk_run(topo: &TopoGraph, used: Seq<bool>, target: (i32, i32), st: WalkState, fuel: nat) -> (Seq<u16>, bool)
    decreases fuel,
{
    if st.0.len() == 0 {
        (st.0, false)
    } else if is_goal(topo, used, st.0.last() as int) {
        (st.0, true)
    } else if fuel == 0 {
        (st.0, false)
    } else {
        walk_run(topo, used, target, walk_move(topo, used, target, st), (fuel - 1) as nat)
    }
}

/// A walk that stops at a goal ends at a ready, unused magic node.
pub proof fn lemma_walk_run_goal(topo: &TopoGraph, used: Seq<bool>, target: (i32, i32), st: WalkState, fuel: nat)
    ensures
        walk_run(topo, used, target, st, fuel).1 ==> walk_run(topo, used, target, st, fuel).0.len() > 0
            && is_goal(topo, used, walk_run(topo, used, target, st, fuel).0.last() as int),
    decreases fuel,
{
    if st.0.len() > 0 && !is_goal(topo, used, st.0.last() as int) && fuel > 0 {
        lemma_walk_run_goal(topo, used, target, walk_move(topo, used, target, st), (fuel - 1) as nat);
    }
}

/// The index of the first of `ready[..k]` nearest to `pos`.
pub open spec fn nearest_from(ready: Seq<(i32, i32)>, pos: (i32, i32), k: int) -> int
    decreases k,
{
    if k <= 1 {
        0
    } else {
        let b = nearest_from(ready, pos, k - 1);
        if mdist(ready[k - 1], pos) < mdist(ready[b], pos) { k - 1 } else { b }
    }
}

/// The greedy walk from `root` towards the first ready position nearest to
/// it, run to its end (every move uses up a node's fresh or walked state, so
/// `2 n + 1` moves are always enough): the final walk, and whether it
/// reached a goal.
pub open spec fn greedy_walk(topo: &TopoGraph, used: Seq<bool>, root: u16, ready: Seq<(i32, i32)>) -> (Seq<u16>, bool) {
    let n = topo.num_nodes as nat;
    let target = ready[nearest_from(ready, topo.nodes@[root as int].pos, ready.len() as int)];
    walk_run(topo, used, target, walk_start(root, n), 2 * n + 1)
}

/// A walk of just `root` on a graph of `n` nodes, nothing backed out of.
pub open spec fn walk_start(root: u16, n: nat) -> WalkState {
    (seq![root], Seq::new(n, |v: int| v == root as int), Seq::new(n, |v: int| false))
}

/// Manhattan distance between two bounded grid positions.
fn manhattan_dist(p1: (i32, i32), p2: (i32, i32)) -> (d: u32)
    requires
        pos_ok(p1),
        pos_ok(p2),
    ensures
        d == mdist(p1, p2),
{
    let dx: i64 = p1.0 as i64 - p2.0 as i64;
    let dy: i64 = p1.1 as i64 - p2.1 as i64;
    let ax: i64 = if dx < 0 { -dx } else { dx };
    let ay: i64 = if dy < 0 { -dy } else { dy };
    (ax + ay) as u32
}

/// The distance to, and the index of, the first of the nearest positions.
fn heuristic(pos: (i32, i32), ready: &[(i32, i32)]) -> (r: (u32, usize))
    requires
        pos_ok(pos),
        ready@.len() > 0,
        forall|i: int| 0 <= i < ready@.len() ==> pos_ok(#[trigger] ready@[i]),
    ensures
        r.1 < ready@.len(),
        r.0 == mdist(ready@[r.1 as int], pos),
        forall|j: int| 0 <= j < ready@.len() ==> r.0 <= mdist(#[trigger] ready@[j], pos),
        forall|j: int| 0 <= j < r.1 ==> r.0 < mdist(#[trigger] ready@[j], pos),
        r.1 == nearest_from(ready@, pos, ready@.len() as int),
{
    let mut best_dist = manhattan_dist(ready[0], pos);
    let mut best_idx: usize = 0;
    let mut i: usize = 1;
    while i < ready.len()
        invariant
            1 <= i <= ready@.len(),
            pos_ok(pos),
            forall|k: int| 0 <= k < ready@.len() ==> pos_ok(#[trigger] ready@[k]),
            best_idx < i,
            best_dist == mdist(ready@[best_idx as int], pos),
            forall|j: int| 0 <= j < i ==> best_dist <= mdist(#[trigger] ready@[j], pos),
            forall|j: int| 0 <= j < best_idx ==> best_dist < mdist(#[trigger] ready@[j], pos),
            best_idx == nearest_from(ready@, pos, i as int),
        decreases ready@.len() - i,
    {
        let d = manhattan_dist(ready[i], pos);
        if d < best_dist {
            best_dist = d;
            best_idx = i;
        }
        i += 1;
    }
    (best_dist, best_idx)
}

impl GreedyPathComputation {
    /// The walk state is sized for `n` nodes.
    pub closed spec fn wf(&self, n: nat) -> bool {
        &&& self.visited@.len() == n
        &&& self.backtracked@.len() == n
    }

    /// The number of `compute` calls made so far.
    pub closed spec fn calls(&self) -> usize {
        self.num_calls
    }

    /// Per node, whether it is on the current walk.
    pub closed spec fn visited_marks(&self) -> Seq<bool> {
        self.visited@
    }

    /// Per node, whether the walk has backed out of it in the current call.
    pub closed spec fn backtracked_marks(&self) -> Seq<bool> {
        self.backtracked@
    }

    /// A fresh computation for a graph of `num_nodes` nodes, with no calls
    /// made yet and no node marked.
    pub fn new(num_nodes: usize) -> (g: Self)
        ensures
            g.wf(num_nodes as nat),
            g.calls() == 0,
            g.visited_marks() == Seq::new(num_nodes as nat, |i: int| false),
            g.backtracked_marks() == Seq::new(num_nodes as nat, |i: int| false),
    {
        let g = GreedyPathComputation {
            visited: vec![false; num_nodes],
            backtracked: vec![false; num_nodes],
            num_calls: 0,
        };
        proof {
            assert(g.visited@ =~= Seq::new(num_nodes as nat, |i: int| false));
            assert(g.backtracked@ =~= Seq::new(num_nodes as nat, |i: int| false));
        }
        g
    }

    /// Whether the walk may step onto `nb` from its tip.
    fn is_open_step(&self, nb: u16, topo: &TopoGraph, used: &Vec<bool>) -> (r: bool)
        requires
            topo.wf(),
            (nb as int) < topo.num_nodes,
            used@.len() == topo.num_nodes,
            self.wf(topo.num_nodes as nat),
        ensures
            r == open_step(topo, used@, self.visited@, self.backtracked@, nb as int),
    {
        if used[nb as usize] {
            return false;
        }
        if self.visited[nb as usize] || self.backtracked[nb as usize] {
            return false;
        }
        let nb_node = topo.get_node(nb);
        if nb_node.node_type == NodeType::Data {
            return false;
        }
        if !topo.use_magic_routing && nb_node.node_type == NodeType::Magic {
            let is_goal = topo.cultivation_times[nb as usize] == 0;
            if !is_goal {
                return false;
            }
        }
        true
    }

    /// Whether a backed-up walk may resume through `nb`.
    fn is_open_resume(&self, nb: u16, topo: &TopoGraph, used: &Vec<bool>) -> (r: bool)
        requires
            topo.wf(),
            (nb as int) < topo.num_nodes,
            used@.len() == topo.num_nodes,
            self.wf(topo.num_nodes as nat),
        ensures
            r == open_resume(topo, used@, self.visited@, self.backtracked@, nb as int),
    {
        if used[nb as usize] || self.visited[nb as usize] || self.backtracked[nb as usize] {
            return false;
        }
        let nb_node = topo.get_node(nb);
        if nb_node.node_type == NodeType::Data {
            return false;
        }
        if nb_node.node_type == NodeType::Magic {
            if topo.cultivation_times[nb as usize] > 0 {
                return false;
            }
            if !topo.use_magic_routing {
                return false;
            }
        }
        true
    }

    /// The first of the open neighbours nearest to `target`, if any is open.
    fn best_open_neighbor(&self, nbrs: &[u16], topo: &TopoGraph, used: &Vec<bool>, target: (i32, i32)) -> (r: Option<u16>)
        requires
            topo.wf(),
            used@.len() == topo.num_nodes,
            self.wf(topo.num_nodes as nat),
            pos_ok(target),
            forall|j: int| 0 <= j < nbrs@.len() ==> (#[trigger] nbrs@[j]) < topo.num_nodes,
        ensures
            r is None <==> forall|j: int| 0 <= j < nbrs@.len()
                ==> !open_step(topo, used@, self.visited@, self.backtracked@, #[trigger] nbrs@[j] as int),
            r matches Some(b) ==> exists|jb: int| #![trigger nbrs@[jb]] {
                &&& 0 <= jb < nbrs@.len()
                &&& nbrs@[jb] == b
                &&& open_step(topo, used@, self.visited@, self.backtracked@, b as int)
                &&& forall|j: int| 0 <= j < nbrs@.len() && open_step(topo, used@, self.visited@, self.backtracked@, #[trigger] nbrs@[j] as int)
                    ==> mdist(topo.nodes@[b as int].pos, target) <= mdist(topo.nodes@[nbrs@[j] as int].pos, target)
                        && (j < jb ==> mdist(topo.nodes@[b as int].pos, target) < mdist(topo.nodes@[nbrs@[j] as int].pos, target))
            },
            r == pick_step(topo, used@, self.visited@, self.backtracked@, nbrs@, target, nbrs@.len() as int),
    {
        let mut best: Option<u16> = None;
        let mut best_dist: u32 = 0;
        let ghost mut best_j: int = 0;
        let mut j: usize = 0;
        while j < nbrs.len()
            invariant
                j <= nbrs@.len(),
                topo.wf(),
                used@.len() == topo.num_nodes,
                self.wf(topo.num_nodes as nat),
                pos_ok(target),
                forall|k: int| 0 <= k < nbrs@.len() ==> (#[trigger] nbrs@[k]) < topo.num_nodes,
                best is None <==> forall|k: int| 0 <= k < j
                    ==> !open_step(topo, used@, self.visited@, self.backtracked@, #[trigger] nbrs@[k] as int),
                best matches Some(b) ==> {
                    &&& 0 <= best_j < j
                    &&& nbrs@[best_j] == b
                    &&& open_step(topo, used@, self.visited@, self.backtracked@, b as int)
                    &&& best_dist == mdist(topo.nodes@[b as int].pos, target)
                    &&& forall|k: int| 0 <= k < j && open_step(topo, used@, self.visited@, self.backtracked@, #[trigger] nbrs@[k] as int)
                        ==> best_dist <= mdist(topo.nodes@[nbrs@[k] as int].pos, target)
                            && (k < best_j ==> best_dist < mdist(topo.nodes@[nbrs@[k] as int].pos, target))
                },
                best == pick_step(topo, used@, self.visited@, self.backtracked@, nbrs@, target, j as int),
            decreases nbrs@.len() - j,
        {
            let nb = nbrs[j];
            if self.is_open_step(nb, topo, used) {
                proof {
                    assert(node_ok(topo.nodes@[nb as int], nb as int, topo.num_nodes, topo.use_magic_routing));
                }
                let d = manhattan_dist(topo.get_node(nb).pos, target);
                let take = match best {
                    None => true,
                    Some(_) => d < best_dist,
                };
                if take {
                    best = Some(nb);
                    best_dist = d;
                    proof {
                        best_j = j as int;
                    }
                }
            }
            j += 1;
        }
        best
    }

    /// Whether node `b` has a neighbour through which a backed-up walk may resume.
    fn has_open_neighbor(&self, nbrs: &[u16], topo: &TopoGraph, used: &Vec<bool>) -> (r: bool)
        requires
            topo.wf(),
            used@.len() == topo.num_nodes,
            self.wf(topo.num_nodes as nat),
            forall|j: int| 0 <= j < nbrs@.len() ==> (#[trigger] nbrs@[j]) < topo.num_nodes,
        ensures
            r == exists|j: int| 0 <= j < nbrs@.len()
                && open_resume(topo, used@, self.visited@, self.backtracked@, #[trigger] nbrs@[j] as int),
    {
        let mut j: usize = 0;
        while j < nbrs.len()
            invariant
                j <= nbrs@.len(),
                topo.wf(),
                used@.len() == topo.num_nodes,
                self.wf(topo.num_nodes as nat),
                forall|k: int| 0 <= k < nbrs@.len() ==> (#[trigger] nbrs@[k]) < topo.num_nodes,
                forall|k: int| 0 <= k < j ==> !open_resume(topo, used@, self.visited@, self.backtracked@, #[trigger] nbrs@[k] as int),
            decreases nbrs@.len() - j,
        {
            if self.is_open_resume(nbrs[j], topo, used) {
                return true;
            }
            j += 1;
        }
        false
    }
}

pub(crate) proof fn lemma_count_true_none(s: Seq<bool>)
    requires
        forall|v: int| 0 <= v < s.len() ==> !(#[trigger] s[v]),
    ensures
        count_true(s) == 0,
    decreases s.len(),
{
    if s.len() > 0 {
        let d = s.drop_last();
        assert forall|v: int| 0 <= v < d.len() implies !(#[trigger] d[v]) by {
            assert(d[v] == s[v]);
        }
        lemma_count_true_none(d);
    }
}

impl GreedyPathComputation {
    /// The walk `p` from `root` and the marks agree: the walk holds no node
    /// twice, holds exactly the nodes marked visited, steps along links through
    /// nodes that are not goals, and enters a magic node, when magic nodes do
    /// not route, only if its state is ready; no node is both visited and
    /// backed out of.
    closed spec fn walk_inv(&self, topo: &TopoGraph, used: Seq<bool>, root: u16, p: Seq<u16>) -> bool {
        let n = topo.num_nodes;
        &&& self.wf(n as nat)
        &&& used.len() == n
        &&& p.len() > 0 ==> p[0] == root
        &&& forall|i: int| 0 <= i < p.len() ==> (#[trigger] p[i] as int) < n && !used[p[i] as int]
        &&& no_repeats(p)
        &&& forall|v: int| 0 <= v < n ==> (#[trigger] self.visited@[v] <==> has(p, v))
        &&& forall|v: int| 0 <= v < n ==> !(#[trigger] self.visited@[v] && self.backtracked@[v])
        &&& forall|i: int| 0 < i < p.len() ==> (!topo.use_magic_routing && topo.kind(#[trigger] p[i] as int) == NodeType::Magic
            ==> topo.cultivation_times@[p[i] as int] == 0)
        &&& forall|i: int| 0 <= i < p.len() - 1 ==> #[trigger] link(topo, used, p[i] as int, p[i + 1] as int)
            && !is_goal(topo, used, p[i] as int)
        &&& count_true(self.visited@) + count_true(self.backtracked@) <= n
    }

    /// What is left of the walk: every node steps from fresh to visited to
    /// backed out, never back.
    closed spec fn progress(&self) -> int {
        2 * (self.visited@.len() - count_true(self.backtracked@)) - count_true(self.visited@)
    }

    /// Backs out of the tip of the walk: it is no longer visited and is never
    /// entered again in this call.
    fn back_up(&mut self, path: &mut Vec<u16>, topo: &TopoGraph, used: &Vec<bool>, root: u16)
        requires
            topo.wf(),
            old(self).walk_inv(topo, used@, root, old(path)@),
            old(path)@.len() > 0,
        ensures
            final(self).walk_inv(topo, used@, root, final(path)@),
            final(path)@ == old(path)@.drop_last(),
            (final(path)@, final(self).visited@, final(self).backtracked@) == back_out((old(path)@, old(self).visited@, old(self).backtracked@)),
            final(self).num_calls == old(self).num_calls,
            final(self).progress() < old(self).progress(),
            final(self).progress() >= 0,
    {
        let ghost p = path@;
        let ghost n = topo.num_nodes;
        let cur = path[path.len() - 1];
        proof {
            assert(p[p.len() - 1] == cur);
            assert(has(p, cur as int));
            assert(self.visited@[cur as int]);
        }
        let ghost v0 = self.visited@;
        let ghost b0 = self.backtracked@;
        self.visited.set(cur as usize, false);
        self.backtracked.set(cur as usize, true);
        path.pop();
        proof {
            let q = path@;
            assert(q =~= p.drop_last());
            lemma_count_true_update(v0, cur as int, false);
            lemma_count_true_update(b0, cur as int, true);
            assert forall|v: int| 0 <= v < n implies (#[trigger] self.visited@[v] <==> has(q, v)) by {
                lemma_has_drop_last(p, v);
            }
            assert forall|i: int| 0 <= i < q.len() - 1 implies #[trigger] link(topo, used@, q[i] as int, q[i + 1] as int)
                && !is_goal(topo, used@, q[i] as int) by {
                assert(q[i] == p[i] && q[i + 1] == p[i + 1]);
                assert(link(topo, used@, p[i] as int, p[i + 1] as int));
            }
            assert forall|i: int| 0 < i < q.len() implies (!topo.use_magic_routing && topo.kind(#[trigger] q[i] as int) == NodeType::Magic
                ==> topo.cultivation_times@[q[i] as int] == 0) by {
                assert(q[i] == p[i]);
            }
            assert forall|i: int| 0 <= i < q.len() implies (#[trigger] q[i] as int) < n && !used@[q[i] as int] by {
                assert(q[i] == p[i]);
            }
            lemma_count_true_disjoint(self.visited@, self.backtracked@);
        }
    }

    /// Starts a walk at `root`: clears the marks, then the walk is just the root.
    fn begin_walk(&mut self, root: u16, topo: &TopoGraph, used: &Vec<bool>) -> (path: Vec<u16>)
        requires
            topo.wf(),
            old(self).wf(topo.num_nodes as nat),
            used@.len() == topo.num_nodes,
            (root as int) < topo.num_nodes,
            !used@[root as int],
        ensures
            final(self).walk_inv(topo, used@, root, path@),
            path@ == seq![root],
            (path@, final(self).visited@, final(self).backtracked@) == walk_start(root, topo.num_nodes as nat),
            final(self).num_calls == old(self).num_calls,
    {
        let ghost n = topo.num_nodes;
        let mut k: usize = 0;
        while k < self.visited.len()
            invariant
                k <= n,
                self.wf(n as nat),
                self.num_calls == old(self).num_calls,
                forall|v: int| 0 <= v < k ==> !(#[trigger] self.visited@[v]) && !self.backtracked@[v],
            decreases n - k,
        {
            self.visited.set(k, false);
            self.backtracked.set(k, false);
            k += 1;
        }
        proof {
            assert forall|v: int| 0 <= v < n implies !(#[trigger] self.backtracked@[v]) by {
                assert(!self.visited@[v]);
            }
            lemma_count_true_none(self.visited@);
            lemma_count_true_none(self.backtracked@);
        }
        let mut path: Vec<u16> = Vec::new();
        path.push(root);
        let ghost v0 = self.visited@;
        self.visited.set(root as usize, true);
        proof {
            let q = path@;
            lemma_count_true_update(v0, root as int, true);
            assert(q =~= seq![root]);
            assert forall|v: int| 0 <= v < n implies (#[trigger] self.visited@[v] <==> has(q, v)) by {
                if v == root as int {
                    assert(q[0] as int == v);
                } else {
                    assert(self.visited@[v] == v0[v]);
                    if has(q, v) {
                        let j = choose|j: int| 0 <= j < q.len() && #[trigger] q[j] as int == v;
                        assert(j == 0);
                    }
                }
            }
            assert forall|v: int| 0 <= v < n implies !(#[trigger] self.visited@[v] && self.backtracked@[v]) by {
                if v != root as int {
                    assert(self.visited@[v] == v0[v]);
                }
            }
            lemma_count_true_disjoint(self.visited@, self.backtracked@);
            assert forall|v: int| 0 <= v < n implies #[trigger] self.visited@[v] == (v == root as int) by {
                if v != root as int {
                    assert(self.visited@[v] == v0[v]);
                }
            }
            assert(self.visited@ =~= walk_start(root, n as nat).1);
            assert(self.backtracked@ =~= walk_start(root, n as nat).2);
            assert(path@ =~= walk_start(root, n as nat).0);
        }
        path
    }

    /// Moves the tip of the walk onto its open neighbour `nb`.
    fn advance(&mut self, path: &mut Vec<u16>, nb: u16, topo: &TopoGraph, used: &Vec<bool>, root: u16)
        requires
            topo.wf(),
            old(self).walk_inv(topo, used@, root, old(path)@),
            old(path)@.len() > 0,
            link(topo, used@, old(path)@.last() as int, nb as int),
            !is_goal(topo, used@, old(path)@.last() as int),
            open_step(topo, used@, old(self).visited@, old(self).backtracked@, nb as int),
        ensures
            final(self).walk_inv(topo, used@, root, final(path)@),
            final(path)@ == old(path)@.push(nb),
            final(self).visited@ == old(self).visited@.update(nb as int, true),
            final(self).backtracked@ == old(self).backtracked@,
            final(self).num_calls == old(self).num_calls,
            final(self).progress() < old(self).progress(),
            final(self).progress() >= 0,
    {
        let ghost p = path@;
        let ghost n = topo.num_nodes;
        let ghost vis = self.visited@;
        proof {
            lemma_count_true_update(vis, nb as int, true);
            assert(has(p, nb as int) == false);
        }
        self.visited.set(nb as usize, true);
        path.push(nb);
        proof {
            let q = path@;
            assert(q =~= p.push(nb));
            lemma_has_push(p, nb);
            assert forall|i: int, j: int| 0 <= i < j < q.len() implies q[i] != q[j] by {
                if j == q.len() - 1 {
                    if q[i] == nb {
                        assert(p[i] as int == nb as int);
                    }
                } else {
                    assert(q[i] == p[i] && q[j] == p[j]);
                }
            }
            assert forall|v: int| 0 <= v < n implies (#[trigger] self.visited@[v] <==> has(q, v)) by {
                if v != nb as int {
                    assert(self.visited@[v] == vis[v]);
                }
            }
            assert forall|v: int| 0 <= v < n implies !(#[trigger] self.visited@[v] && self.backtracked@[v]) by {
                if v != nb as int {
                    assert(self.visited@[v] == vis[v]);
                }
            }
            assert forall|i: int| 0 <= i < q.len() - 1 implies #[trigger] link(topo, used@, q[i] as int, q[i + 1] as int)
                && !is_goal(topo, used@, q[i] as int) by {
                if i < p.len() - 1 {
                    assert(q[i] == p[i] && q[i + 1] == p[i + 1]);
                    assert(link(topo, used@, p[i] as int, p[i + 1] as int));
                } else {
                    assert(q[i] == p.last() && q[i + 1] == nb);
                }
            }
            assert forall|i: int| 0 < i < q.len() implies (!topo.use_magic_routing && topo.kind(#[trigger] q[i] as int) == NodeType::Magic
                ==> topo.cultivation_times@[q[i] as int] == 0) by {
                if i < p.len() {
                    assert(q[i] == p[i]);
                }
            }
            assert forall|i: int| 0 <= i < q.len() implies (#[trigger] q[i] as int) < n && !used@[q[i] as int] by {
                if i < p.len() {
                    assert(q[i] == p[i]);
                }
            }
            lemma_count_true_disjoint(self.visited@, self.backtracked@);
        }
    }

    /// The walk has reached a ready magic state: marks its nodes and the
    /// terminals used.
    fn finish_walk(&self, path: &Vec<u16>, terminal_ids: &[u16], topo: &TopoGraph, used: &mut Vec<bool>, root: u16)
        requires
            topo.wf(),
            self.walk_inv(topo, old(used)@, root, path@),
            path@.len() > 0,
            is_goal(topo, old(used)@, path@.last() as int),
            forall|i: int| 0 <= i < terminal_ids@.len() ==> (#[trigger] terminal_ids@[i]) < topo.num_nodes,
        ensures
            is_walk(topo, old(used)@, path@, root),
            no_repeats(path@),
            expands(topo, root as int) ==> is_route(topo, old(used)@, path@, root),
            final(used)@ == marked(old(used)@, path@, Seq::empty(), terminal_ids@),
    {
        let ghost used0 = used@;
        let ghost p = path@;
        proof {
            assert(self.walk_inv(topo, used0, root, p));
            assert(forall|i: int| 0 <= i < p.len() - 1 ==> #[trigger] link(topo, used0, p[i] as int, p[i + 1] as int)
                && !is_goal(topo, used0, p[i] as int));
            assert forall|i: int| 0 <= i < p.len() - 1 implies #[trigger] link(topo, used0, p[i] as int, p[i + 1] as int)
                && (i > 0 ==> expands(topo, p[i] as int)) by {
                assert(link(topo, used0, p[i] as int, p[i + 1] as int));
                assert(!is_goal(topo, used0, p[i] as int));
                assert((p[i] as int) < topo.num_nodes && !used0[p[i] as int]);
            }
            assert(p[p.len() - 1] == p.last());
            assert(is_walk(topo, used0, p, root));
            if expands(topo, root as int) {
                lemma_walk_is_route(topo, used0, p, root);
            }
        }
        mark_all(used, path.as_slice());
        mark_all(used, terminal_ids);
        assert(used@ =~= marked(used0, p, Seq::empty(), terminal_ids@));
    }

    /// Greedy walk from the first root to a ready, unused magic node. The
    /// walk heads for the first of the ready magic positions nearest to the
    /// root: from its tip it steps to the first of the open neighbours
    /// nearest to that target; at a dead end it backs out, and keeps backing
    /// out while the new tip has no neighbour to resume through. When the
    /// tip holds a ready magic state, the walk's nodes and the terminals are
    /// marked used and `PathFound` is returned; when the walk backs out of
    /// the root, `used` is left alone and `NoPath` is returned.
    pub fn compute(
        &mut self, terminal_ids: &[u16], root_ids: &[u16], topo: &TopoGraph, used: &mut Vec<bool>,
        ready_magic_positions: &[(i32, i32)],
    ) -> (r: PathResult)
        requires
            old(self).wf(topo.num_nodes as nat),
            old(self).calls() < usize::MAX,
            topo.wf(),
            old(used)@.len() == topo.num_nodes,
            root_ids@.len() > 0,
            (root_ids@[0] as int) < topo.num_nodes,
            forall|i: int| 0 <= i < terminal_ids@.len() ==> (#[trigger] terminal_ids@[i]) < topo.num_nodes,
            !old(used)@[root_ids@[0] as int],
            ready_magic_positions@.len() > 0,
            forall|i: int| 0 <= i < ready_magic_positions@.len() ==> pos_ok(#[trigger] ready_magic_positions@[i]),
        ensures
            final(self).wf(topo.num_nodes as nat),
            final(self).calls() == old(self).calls() + 1,
            r == PathResult::NoPath ==> final(used)@ == old(used)@,
            r == PathResult::PathFound ==> exists|p: Seq<u16>| #[trigger] is_walk(topo, old(used)@, p, root_ids@[0])
                && no_repeats(p)
                && (expands(topo, root_ids@[0] as int) ==> is_route(topo, old(used)@, p, root_ids@[0]))
                && final(used)@ == marked(old(used)@, p, Seq::empty(), terminal_ids@),
            is_goal(topo, old(used)@, root_ids@[0] as int) ==> r == PathResult::PathFound,
            (r == PathResult::PathFound) == greedy_walk(topo, old(used)@, root_ids@[0], ready_magic_positions@).1,
            r == PathResult::PathFound ==> greedy_walk(topo, old(used)@, root_ids@[0], ready_magic_positions@).0.len() > 0
                && is_goal(topo, old(used)@, greedy_walk(topo, old(used)@, root_ids@[0], ready_magic_positions@).0.last() as int),
            r == PathResult::PathFound ==> final(used)@ == marked(old(used)@,
                greedy_walk(topo, old(used)@, root_ids@[0], ready_magic_positions@).0, Seq::empty(), terminal_ids@),
    {
        let ghost used0 = used@;
        let ghost n = topo.num_nodes;
        proof {
            let root = root_ids@[0];
            let target = ready_magic_positions@[nearest_from(ready_magic_positions@, topo.nodes@[root as int].pos, ready_magic_positions@.len() as int)];
            lemma_walk_run_goal(topo, used0, target, walk_start(root, n as nat), 2 * (n as nat) + 1);
        }
        self.num_calls = self.num_calls + 1;
        let root_id = root_ids[0];
        let mut path = self.begin_walk(root_id, topo, used);
        proof {
            assert(node_ok(topo.nodes@[root_id as int], root_id as int, n, topo.use_magic_routing));
        }
        let ready_idx = heuristic(topo.get_node(root_id).pos, ready_magic_positions).1;
        let target_pos = ready_magic_positions[ready_idx];
        let ghost gw = greedy_walk(topo, used0, root_id, ready_magic_positions@);
        let ghost mut fuel: nat = 2 * (n as nat) + 1;
        proof {
            assert(self.progress() <= 2 * n);
            assert(target_pos == ready_magic_positions@[nearest_from(ready_magic_positions@, topo.nodes@[root_id as int].pos, ready_magic_positions@.len() as int)]);

        }
        loop
            invariant
                walk_run(topo, used0, target_pos, (path@, self.visited@, self.backtracked@), fuel) == gw,
                gw == greedy_walk(topo, used0, root_ids@[0], ready_magic_positions@),
                fuel > self.progress(),
                self.progress() >= 0,
                topo.wf(),
                n == topo.num_nodes,
                used@ == used0,
                used0 == old(used)@,
                root_id == root_ids@[0],
                self.walk_inv(topo, used0, root_id, path@),
                path@.len() > 0,
                self.num_calls == old(self).num_calls + 1,
                pos_ok(target_pos),
                forall|i: int| 0 <= i < terminal_ids@.len() ==> (#[trigger] terminal_ids@[i]) < n,
                is_goal(topo, used0, root_id as int) ==> path@.len() == 1,
            decreases self.progress(),
        {
            let ghost p = path@;
            let ghost st = (path@, self.visited@, self.backtracked@);
            let ghost prog0 = self.progress();
            let current = path[path.len() - 1];
            let current_node = topo.get_node(current);
            proof {
                assert(p[p.len() - 1] == current);
                assert(node_ok(topo.nodes@[current as int], current as int, n, topo.use_magic_routing));
            }
            if current_node.node_type == NodeType::Magic && topo.cultivation_times[current_node.id as usize] == 0
                && !used[current as usize] {
                proof {
                    assert(is_goal(topo, used0, current as int));
                    assert(gw == (path@, true));
                }
                self.finish_walk(&path, terminal_ids, topo, used, root_id);
                return PathResult::PathFound;
            }
            let nbrs = current_node.nbors_slice();
            proof {
                assert forall|j: int| 0 <= j < nbrs@.len() implies (#[trigger] nbrs@[j]) < topo.num_nodes by {
                    assert(nbrs@[j] == current_node.nbors@[j]);
                }
                assert(!is_goal(topo, used0, current as int));
                assert(nbrs@ == topo.nbrs(current as int));
                assert(walk_run(topo, used0, target_pos, st, fuel) == walk_run(topo, used0, target_pos, walk_move(topo, used0, target_pos, st), (fuel - 1) as nat));
            }
            let best_nb = self.best_open_neighbor(nbrs, topo, used, target_pos);
            match best_nb {
                Some(nb_id) => {
                    proof {
                        let jb = choose|jb: int| #![trigger nbrs@[jb]] 0 <= jb < nbrs@.len() && nbrs@[jb] == nb_id
                            && open_step(topo, used0, self.visited@, self.backtracked@, nb_id as int)
                            && forall|j: int| 0 <= j < nbrs@.len() && open_step(topo, used0, self.visited@, self.backtracked@, #[trigger] nbrs@[j] as int)
                                ==> mdist(topo.nodes@[nb_id as int].pos, target_pos) <= mdist(topo.nodes@[nbrs@[j] as int].pos, target_pos)
                                    && (j < jb ==> mdist(topo.nodes@[nb_id as int].pos, target_pos) < mdist(topo.nodes@[nbrs@[j] as int].pos, target_pos));
                        assert(topo.nbrs(current as int)[jb] as int == nb_id as int);
                        assert(has(topo.nbrs(current as int), nb_id as int));
                        assert(link(topo, used0, current as int, nb_id as int));
                    }
                    self.advance(&mut path, nb_id, topo, used, root_id);
                    proof {
                        assert((path@, self.visited@, self.backtracked@) == walk_move(topo, used0, target_pos, st));
                        fuel = (fuel - 1) as nat;
                    }
                },
                None => {
                    proof {
                        assert(!is_goal(topo, used0, root_id as int));
                    }
                    self.back_up(&mut path, topo, used, root_id);
                    let ghost s1 = (path@, self.visited@, self.backtracked@);
                    proof {
                        assert(walk_move(topo, used0, target_pos, st) == retreat(topo, used0, s1));
                    }
                    if path.len() == 0 {
                        proof {
                            assert(retreat(topo, used0, s1) == s1);
                        }
                        return PathResult::NoPath;
                    }
                    let ghost m0 = self.progress();
                    loop
                        invariant
                            topo.wf(),
                            n == topo.num_nodes,
                            used@ == used0,
                            used0 == old(used)@,
                            root_id == root_ids@[0],
                            self.walk_inv(topo, used0, root_id, path@),
                            path@.len() > 0,
                            self.num_calls == old(self).num_calls + 1,
                            pos_ok(target_pos),
                            forall|i: int| 0 <= i < terminal_ids@.len() ==> (#[trigger] terminal_ids@[i]) < n,
                            !is_goal(topo, used0, root_id as int),
                            self.progress() <= m0,
                            m0 < prog0,
                            prog0 < fuel,
                            walk_run(topo, used0, target_pos, st, fuel) == gw,
                            gw == greedy_walk(topo, used0, root_ids@[0], ready_magic_positions@),
                            walk_run(topo, used0, target_pos, st, fuel) == walk_run(topo, used0, target_pos, walk_move(topo, used0, target_pos, st), (fuel - 1) as nat),
                            walk_move(topo, used0, target_pos, st) == retreat(topo, used0, (path@, self.visited@, self.backtracked@)),
                            self.progress() >= 0,
                        ensures
                            walk_move(topo, used0, target_pos, st) == (path@, self.visited@, self.backtracked@),
                        decreases path@.len(),
                    {
                        let b = path[path.len() - 1];
                        proof {
                            assert(path@[path@.len() - 1] == b);
                            assert(node_ok(topo.nodes@[b as int], b as int, n, topo.use_magic_routing));
                        }
                        let b_nbrs = topo.get_node(b).nbors_slice();
                        proof {
                            assert forall|j: int| 0 <= j < b_nbrs@.len() implies (#[trigger] b_nbrs@[j]) < topo.num_nodes by {
                                assert(b_nbrs@[j] == topo.nodes@[b as int].nbors@[j]);
                            }
                        }
                        let ghost sc = (path@, self.visited@, self.backtracked@);
                        proof {
                            assert(b_nbrs@ == topo.nbrs(b as int));
                        }
                        if self.has_open_neighbor(b_nbrs, topo, used) {
                            proof {
                                assert(can_resume(topo, used0, sc, b as int));
                                assert(retreat(topo, used0, sc) == sc);
                            }
                            break;
                        }
                        proof {
                            assert(!can_resume(topo, used0, sc, b as int));
                            assert(retreat(topo, used0, sc) == retreat(topo, used0, back_out(sc)));
                        }
                        self.back_up(&mut path, topo, used, root_id);
                        if path.len() == 0 {
                            proof {
                                let s2 = (path@, self.visited@, self.backtracked@);
                                assert(retreat(topo, used0, s2) == s2);
                                assert(retreat(topo, used0, sc) == s2);
                                assert(walk_move(topo, used0, target_pos, st) == s2);
                                assert(walk_run(topo, used0, target_pos, s2, (fuel - 1) as nat) == (s2.0, false));
                            }
                            return PathResult::NoPath;
                        }
                    }
                    proof {
                        fuel = (fuel - 1) as nat;
                    }
                },
            }
        }
    }
}


impl GreedyPathComputation {
    /// The plotting form of `compute`: runs the same walk but leaves `used`
    /// alone, and when the walk reaches a ready magic state returns the node
    /// flags the route tree covers (those already used, the walk's nodes and
    /// the terminals); `None` when the walk finds nothing.
    pub fn compute_tree(
        &mut self, terminal_ids: &[u16], root_ids: &[u16], topo: &TopoGraph, used: &Vec<bool>,
        ready_magic_positions: &[(i32, i32)],
    ) -> (r: Option<Vec<bool>>)
        requires
            old(self).wf(topo.num_nodes as nat),
            old(self).calls() < usize::MAX,
            topo.wf(),
            used@.len() == topo.num_nodes,
            root_ids@.len() > 0,
            (root_ids@[0] as int) < topo.num_nodes,
            forall|i: int| 0 <= i < terminal_ids@.len() ==> (#[trigger] terminal_ids@[i]) < topo.num_nodes,
            !used@[root_ids@[0] as int],
            ready_magic_positions@.len() > 0,
            forall|i: int| 0 <= i < ready_magic_positions@.len() ==> pos_ok(#[trigger] ready_magic_positions@[i]),
        ensures
            final(self).wf(topo.num_nodes as nat),
            final(self).calls() == old(self).calls() + 1,
            r is Some == greedy_walk(topo, used@, root_ids@[0], ready_magic_positions@).1,
            r is Some ==> greedy_walk(topo, used@, root_ids@[0], ready_magic_positions@).0.len() > 0
                && is_goal(topo, used@, greedy_walk(topo, used@, root_ids@[0], ready_magic_positions@).0.last() as int),
            r matches Some(m) ==> m@ == marked(used@, greedy_walk(topo, used@, root_ids@[0], ready_magic_positions@).0,
                Seq::empty(), terminal_ids@),
    {
        let mut scratch: Vec<bool> = Vec::new();
        let mut k: usize = 0;
        while k < used.len()
            invariant
                k <= used@.len(),
                scratch@ == used@.take(k as int),
            decreases used@.len() - k,
        {
            scratch.push(used[k]);
            assert(scratch@ =~= used@.take(k as int + 1));
            k += 1;
        }
        assert(scratch@ =~= used@);
        proof {
            let n = topo.num_nodes as nat;
            let root = root_ids@[0];
            let target = ready_magic_positions@[nearest_from(ready_magic_positions@, topo.nodes@[root as int].pos, ready_magic_positions@.len() as int)];
            lemma_walk_run_goal(topo, used@, target, walk_start(root, n), 2 * n + 1);
        }
        match self.compute(terminal_ids, root_ids, topo, &mut scratch, ready_magic_positions) {
            PathResult::PathFound => Some(scratch),
            PathResult::NoPath => None,
        }
    }
}

} // verus!
