//! Magic-state cultivation on the magic nodes of the layout: each magic node
//! cultivates for a drawn number of lcycles, after which its magic state is
//! ready; a used magic node starts over with a fresh time. The times are
//! drawn by the caller and handed in.
use vstd::prelude::*;
use crate::node::NodeType;
use crate::topograph::{TopoGraph, node_ok};

verus! {

broadcast use vstd::seq_lib::to_multiset_build, vstd::seq_lib::to_multiset_insert;

/// Magic node bookkeeping of a scheduler run.
pub struct CultivationManager {
    /// T-gate products not yet scheduled; used to size the draws.
    pub t_products_remaining: usize,
    /// Cultivation times that ran out, in the order they did.
    pub cultivation_times_log: Vec<i32>,
    /// The magic node ids, in id order.
    pub magic_node_ids: Vec<u16>,
    /// Positions of the magic nodes, parallel to `magic_node_ids`.
    pub magic_node_positions: Vec<(i32, i32)>,
    /// Positions of the magic nodes whose magic state is ready, sorted by x.
    pub ready_magic_positions: Vec<(i32, i32)>,
}

/// The ids below `k` of magic nodes, in order.
pub open spec fn magic_ids(topo: &TopoGraph, k: int) -> Seq<u16>
    decreases k,
{
    if k <= 0 {
        Seq::empty()
    } else {
        let prev = magic_ids(topo, k - 1);
        if topo.kind(k - 1) == NodeType::Magic { prev.push((k - 1) as u16) } else { prev }
    }
}

/// How many of the first `i` magic nodes were used.
pub open spec fn used_before(ids: Seq<u16>, used: Seq<bool>, i: int) -> nat
    decreases i,
{
    if i <= 0 { 0 } else { used_before(ids, used, i - 1) + (if used[ids[i - 1] as int] { 1nat } else { 0nat }) }
}

/// A node is cultivating while its time is positive and its busy count has not reached it.
pub open spec fn cultivating(ct: i32, busy: i32) -> bool {
    ct > 0 && busy < ct
}

/// The (cultivation time, busy count) of a magic node after an lcycle: a
/// used node starts over with the `fresh` time; a cultivating node counts
/// one more busy lcycle, and when that reaches its time its state is ready
/// (time and count back to 0); any other node stays as it is.
pub open spec fn next_state(ct: i32, busy: i32, used: bool, fresh: i32) -> (i32, i32) {
    if used {
        (fresh, 0)
    } else if cultivating(ct, busy) {
        if busy + 1 == ct { (0, 0) } else { (ct, (busy + 1) as i32) }
    } else {
        (ct, busy)
    }
}

/// The node's cultivation finishes this lcycle.
pub open spec fn finishes(ct: i32, busy: i32, used: bool) -> bool {
    !used && cultivating(ct, busy) && busy + 1 == ct
}

/// The times of the first `i` magic nodes whose cultivation finishes, in order.
pub open spec fn finished_times(ids: Seq<u16>, used: Seq<bool>, cts: Seq<i32>, busys: Seq<i32>, i: int) -> Seq<i32>
    decreases i,
{
    if i <= 0 {
        Seq::empty()
    } else {
        let prev = finished_times(ids, used, cts, busys, i - 1);
        let id = ids[i - 1] as int;
        if finishes(cts[id], busys[id], used[id]) { prev.push(cts[id]) } else { prev }
    }
}

/// The positions of the first `i` magic nodes whose time is 0, in order.
pub open spec fn ready_positions(ids: Seq<u16>, positions: Seq<(i32, i32)>, cts: Seq<i32>, i: int) -> Seq<(i32, i32)>
    decreases i,
{
    if i <= 0 {
        Seq::empty()
    } else {
        let prev = ready_positions(ids, positions, cts, i - 1);
        if cts[ids[i - 1] as int] == 0 { prev.push(positions[i - 1]) } else { prev }
    }
}

/// The positions are sorted by x.
pub open spec fn sorted_by_x(s: Seq<(i32, i32)>) -> bool {
    forall|i: int, j: int| 0 <= i <= j < s.len() ==> s[i].0 <= s[j].0
}

/// The magic node ids are distinct and in range, with one position each.
pub open spec fn ids_ok(ids: Seq<u16>, positions: Seq<(i32, i32)>, n: int) -> bool {
    &&& positions.len() == ids.len()
    &&& forall|i: int| 0 <= i < ids.len() ==> (#[trigger] ids[i] as int) < n
    &&& forall|i: int, j: int| 0 <= i < j < ids.len() ==> ids[i] != ids[j]
}

/// Inserts `p` into positions sorted by x, after the positions with the same x.
fn insert_sorted(v: &mut Vec<(i32, i32)>, p: (i32, i32))
    requires
        sorted_by_x(old(v)@),
    ensures
        sorted_by_x(final(v)@),
        final(v)@.to_multiset() == old(v)@.to_multiset().insert(p),
{
    let mut k: usize = 0;
    while k < v.len() && v[k].0 <= p.0
        invariant
            k <= v@.len(),
            v@ == old(v)@,
            forall|j: int| 0 <= j < k ==> v@[j].0 <= p.0,
        decreases v@.len() - k,
    {
        k += 1;
    }
    let ghost before = v@;
    v.insert(k, p);
    proof {
        assert(v@ == before.insert(k as int, p));
        assert forall|i: int, j: int| 0 <= i <= j < v@.len() implies v@[i].0 <= v@[j].0 by {
            if j < k {
                assert(v@[i] == before[i] && v@[j] == before[j]);
            } else if j == k {
                if i < k {
                    assert(v@[i] == before[i]);
                }
            } else {
                assert(v@[j] == before[j - 1]);
                if i < k {
                    assert(v@[i] == before[i]);
                } else if i == k {
                    assert(before[k as int].0 > p.0);
                } else {
                    assert(v@[i] == before[i - 1]);
                }
            }
        }
    }
}

impl CultivationManager {
    /// A manager with no magic nodes known yet and nothing logged.
    pub fn new() -> (m: Self)
        ensures
            m.t_products_remaining == 0,
            m.cultivation_times_log@.len() == 0,
            m.magic_node_ids@.len() == 0,
            m.magic_node_positions@.len() == 0,
            m.ready_magic_positions@.len() == 0,
    {
        CultivationManager {
            t_products_remaining: 0,
            cultivation_times_log: Vec::new(),
            magic_node_ids: Vec::new(),
            magic_node_positions: Vec::new(),
            ready_magic_positions: Vec::new(),
        }
    }

    /// Finds the magic nodes of `topo` (in id order, with their positions)
    /// and starts each cultivating with its drawn time from `draws`, busy
    /// count 0.
    pub fn init_magic_nodes(&mut self, topo: &mut TopoGraph, draws: &Vec<i32>)
        requires
            old(topo).wf(),
            draws@.len() == magic_ids(old(topo), old(topo).num_nodes as int).len(),
        ensures
            final(topo).wf(),
            final(topo).nodes == old(topo).nodes,
            final(topo).num_nodes == old(topo).num_nodes,
            final(topo).use_magic_routing == old(topo).use_magic_routing,
            final(self).magic_node_ids@ == magic_ids(old(topo), old(topo).num_nodes as int),
            ids_ok(final(self).magic_node_ids@, final(self).magic_node_positions@, old(topo).num_nodes as int),
            forall|i: int| 0 <= i < final(self).magic_node_ids@.len() ==> {
                let id = #[trigger] final(self).magic_node_ids@[i] as int;
                &&& final(self).magic_node_positions@[i] == old(topo).nodes@[id].pos
                &&& final(topo).cultivation_times@[id] == draws@[i]
                &&& final(topo).busy_counts@[id] == 0
            },
            forall|v: int| 0 <= v < old(topo).num_nodes && old(topo).kind(v) != NodeType::Magic ==> {
                &&& final(topo).cultivation_times@[v] == old(topo).cultivation_times@[v]
                &&& final(topo).busy_counts@[v] == old(topo).busy_counts@[v]
            },
            final(self).t_products_remaining == old(self).t_products_remaining,
            final(self).cultivation_times_log == old(self).cultivation_times_log,
            final(self).ready_magic_positions == old(self).ready_magic_positions,
    {
        let ghost t0 = *topo;
        let n = topo.num_nodes;
        let mut ids: Vec<u16> = Vec::new();
        let mut positions: Vec<(i32, i32)> = Vec::new();
        let mut v: usize = 0;
        while v < n
            invariant
                v <= n,
                n == topo.num_nodes,
                *topo == t0,
                t0.wf(),
                draws@.len() == magic_ids(&t0, n as int).len(),
                ids@ == magic_ids(&t0, v as int),
                positions@.len() == ids@.len(),
                forall|i: int| 0 <= i < ids@.len() ==> (#[trigger] ids@[i] as int) < v && t0.kind(ids@[i] as int) == NodeType::Magic
                    && positions@[i] == t0.nodes@[ids@[i] as int].pos,
                forall|i: int, j: int| 0 <= i < j < ids@.len() ==> ids@[i] < ids@[j],
                forall|u: int| 0 <= u < v && t0.kind(u) == NodeType::Magic ==> exists|i: int| 0 <= i < ids@.len() && #[trigger] ids@[i] as int == u,
            decreases n - v,
        {
            let node = topo.get_node(v as u16);
            proof {
                assert(node_ok(t0.nodes@[v as int], v as int, n, t0.use_magic_routing));
                assert((v as u16) as int == v as int);
            }
            if node.node_type == NodeType::Magic {
                let ghost before = ids@;
                ids.push(v as u16);
                positions.push(node.pos);
                proof {
                    assert(ids@[before.len() as int] as int == v as int);
                    assert forall|u: int| 0 <= u < v + 1 && t0.kind(u) == NodeType::Magic implies exists|i: int| 0 <= i < ids@.len() && #[trigger] ids@[i] as int == u by {
                        if u < v {
                            let i = choose|i: int| 0 <= i < before.len() && #[trigger] before[i] as int == u;
                            assert(ids@[i] == before[i]);
                        } else {
                            assert(ids@[before.len() as int] as int == u);
                        }
                    }
                }
            }
            v += 1;
        }
        let mut i: usize = 0;
        while i < ids.len()
            invariant
                i <= ids@.len(),
                n == topo.num_nodes,
                n == t0.num_nodes,
                topo.nodes == t0.nodes,
                topo.use_magic_routing == t0.use_magic_routing,
                topo.wf(),
                t0.wf(),
                ids@ == magic_ids(&t0, n as int),
                draws@.len() == ids@.len(),
                forall|k: int| 0 <= k < ids@.len() ==> (#[trigger] ids@[k] as int) < n && t0.kind(ids@[k] as int) == NodeType::Magic,
                forall|a: int, b: int| 0 <= a < b < ids@.len() ==> ids@[a] < ids@[b],
                forall|k: int| 0 <= k < i ==> topo.cultivation_times@[#[trigger] ids@[k] as int] == draws@[k]
                    && topo.busy_counts@[ids@[k] as int] == 0,
                forall|u: int| 0 <= u < n && !(exists|k: int| 0 <= k < i && #[trigger] ids@[k] as int == u) ==> {
                    &&& topo.cultivation_times@[u] == t0.cultivation_times@[u]
                    &&& topo.busy_counts@[u] == t0.busy_counts@[u]
                },
            decreases ids@.len() - i,
        {
            let id = ids[i];
            let ghost ct_before = topo.cultivation_times@;
            let ghost b_before = topo.busy_counts@;
            topo.cultivation_times.set(id as usize, draws[i]);
            topo.busy_counts.set(id as usize, 0);
            proof {
                assert forall|k: int| 0 <= k < i + 1 implies topo.cultivation_times@[#[trigger] ids@[k] as int] == draws@[k]
                    && topo.busy_counts@[ids@[k] as int] == 0 by {
                    if k < i {
                        assert(ids@[k] != id);
                    }
                }
                assert forall|u: int| 0 <= u < n && !(exists|k: int| 0 <= k < i + 1 && #[trigger] ids@[k] as int == u) implies {
                    &&& topo.cultivation_times@[u] == t0.cultivation_times@[u]
                    &&& topo.busy_counts@[u] == t0.busy_counts@[u]
                } by {
                    assert(u != id as int) by {
                        if u == id as int {
                            assert(ids@[i as int] as int == u);
                        }
                    }
                    if exists|k: int| 0 <= k < i && #[trigger] ids@[k] as int == u {
                        let k = choose|k: int| 0 <= k < i && #[trigger] ids@[k] as int == u;
                        assert(0 <= k < i + 1 && ids@[k] as int == u);
                    }
                }
            }
            i += 1;
        }
        proof {
            assert forall|u: int| 0 <= u < n && t0.kind(u) != NodeType::Magic implies {
                &&& topo.cultivation_times@[u] == t0.cultivation_times@[u]
                &&& topo.busy_counts@[u] == t0.busy_counts@[u]
            } by {
                if exists|k: int| 0 <= k < i && #[trigger] ids@[k] as int == u {
                    let k = choose|k: int| 0 <= k < i && #[trigger] ids@[k] as int == u;
                    assert(t0.kind(ids@[k] as int) == NodeType::Magic);
                }
            }
        }
        self.magic_node_ids = ids;
        self.magic_node_positions = positions;
    }
}

proof fn lemma_ready_positions_agree(ids: Seq<u16>, positions: Seq<(i32, i32)>, c1: Seq<i32>, c2: Seq<i32>, i: int)
    requires
        0 <= i <= ids.len(),
        forall|k: int| 0 <= k < i ==> c1[#[trigger] ids[k] as int] == c2[ids[k] as int],
    ensures
        ready_positions(ids, positions, c1, i) == ready_positions(ids, positions, c2, i),
    decreases i,
{
    if i > 0 {
        lemma_ready_positions_agree(ids, positions, c1, c2, i - 1);
        assert(c1[ids[i - 1] as int] == c2[ids[i - 1] as int]);
    }
}

proof fn lemma_used_before_bound(ids: Seq<u16>, used: Seq<bool>, i: int)
    requires
        0 <= i,
    ensures
        used_before(ids, used, i) <= i,
    decreases i,
{
    if i > 0 {
        lemma_used_before_bound(ids, used, i - 1);
    }
}

impl CultivationManager {
    /// Advances the magic nodes through one lcycle. Each used magic node
    /// starts over with the next of `new_times` (one per used magic node, in
    /// id order) and busy count 0; each cultivating node counts one more busy
    /// lcycle and, when that reaches its time, logs the time and is ready
    /// (time and count back to 0). The ready positions are rebuilt, sorted by
    /// x, and their number is returned.
    pub fn update_cultivators(&mut self, topo: &mut TopoGraph, used: &Vec<bool>, new_times: &Vec<i32>) -> (num_avail: usize)
        requires
            old(topo).wf(),
            used@.len() == old(topo).num_nodes,
            ids_ok(old(self).magic_node_ids@, old(self).magic_node_positions@, old(topo).num_nodes as int),
            new_times@.len() == used_before(old(self).magic_node_ids@, used@, old(self).magic_node_ids@.len() as int),
            old(self).cultivation_times_log@.len() + old(self).magic_node_ids@.len() <= usize::MAX,
        ensures
            final(topo).wf(),
            final(topo).nodes == old(topo).nodes,
            final(topo).num_nodes == old(topo).num_nodes,
            final(topo).use_magic_routing == old(topo).use_magic_routing,
            final(self).magic_node_ids == old(self).magic_node_ids,
            final(self).magic_node_positions == old(self).magic_node_positions,
            final(self).t_products_remaining == old(self).t_products_remaining,
            forall|i: int| 0 <= i < old(self).magic_node_ids@.len() ==> {
                let id = #[trigger] old(self).magic_node_ids@[i] as int;
                let st = next_state(old(topo).cultivation_times@[id], old(topo).busy_counts@[id], used@[id],
                    new_times@[used_before(old(self).magic_node_ids@, used@, i) as int]);
                &&& final(topo).cultivation_times@[id] == st.0
                &&& final(topo).busy_counts@[id] == st.1
            },
            forall|u: int| 0 <= u < old(topo).num_nodes && !old(self).magic_node_ids@.contains(u as u16) ==> {
                &&& final(topo).cultivation_times@[u] == old(topo).cultivation_times@[u]
                &&& final(topo).busy_counts@[u] == old(topo).busy_counts@[u]
            },
            final(self).cultivation_times_log@ == old(self).cultivation_times_log@ + finished_times(old(self).magic_node_ids@,
                used@, old(topo).cultivation_times@, old(topo).busy_counts@, old(self).magic_node_ids@.len() as int),
            sorted_by_x(final(self).ready_magic_positions@),
            final(self).ready_magic_positions@.to_multiset() == ready_positions(old(self).magic_node_ids@,
                old(self).magic_node_positions@, final(topo).cultivation_times@, old(self).magic_node_ids@.len() as int).to_multiset(),
            num_avail == ready_positions(old(self).magic_node_ids@, old(self).magic_node_positions@,
                final(topo).cultivation_times@, old(self).magic_node_ids@.len() as int).len(),
    {
        let ghost t0 = *topo;
        let ghost ids = self.magic_node_ids@;
        let ghost positions = self.magic_node_positions@;
        let ghost log0 = self.cultivation_times_log@;
        let ghost n = topo.num_nodes;
        let mut num_avail_magic: usize = 0;
        let mut cultivation_time_index: usize = 0;
        self.ready_magic_positions.clear();
        proof {
            assert(self.ready_magic_positions@.to_multiset() =~= Seq::<(i32, i32)>::empty().to_multiset());
        }
        let mut i: usize = 0;
        while i < self.magic_node_ids.len()
            invariant
                i <= ids.len(),
                ids == self.magic_node_ids@,
                positions == self.magic_node_positions@,
                self.t_products_remaining == old(self).t_products_remaining,
                self.magic_node_ids == old(self).magic_node_ids,
                self.magic_node_positions == old(self).magic_node_positions,
                t0 == *old(topo),
                n == t0.num_nodes,
                topo.wf(),
                topo.nodes == t0.nodes,
                topo.num_nodes == n,
                topo.use_magic_routing == t0.use_magic_routing,
                used@.len() == n,
                ids_ok(ids, positions, n as int),
                new_times@.len() == used_before(ids, used@, ids.len() as int),
                log0.len() + ids.len() <= usize::MAX,
                cultivation_time_index == used_before(ids, used@, i as int),
                forall|k: int| 0 <= k < i ==> {
                    let id = #[trigger] ids[k] as int;
                    let st = next_state(t0.cultivation_times@[id], t0.busy_counts@[id], used@[id],
                        new_times@[used_before(ids, used@, k) as int]);
                    &&& topo.cultivation_times@[id] == st.0
                    &&& topo.busy_counts@[id] == st.1
                },
                forall|u: int| 0 <= u < n && !(exists|k: int| 0 <= k < i && #[trigger] ids[k] as int == u) ==> {
                    &&& topo.cultivation_times@[u] == t0.cultivation_times@[u]
                    &&& topo.busy_counts@[u] == t0.busy_counts@[u]
                },
                self.cultivation_times_log@ == log0 + finished_times(ids, used@, t0.cultivation_times@, t0.busy_counts@, i as int),
                finished_times(ids, used@, t0.cultivation_times@, t0.busy_counts@, i as int).len() <= i,
                sorted_by_x(self.ready_magic_positions@),
                self.ready_magic_positions@.to_multiset() == ready_positions(ids, positions, topo.cultivation_times@, i as int).to_multiset(),
                num_avail_magic == ready_positions(ids, positions, topo.cultivation_times@, i as int).len(),
                num_avail_magic <= i,
            decreases ids.len() - i,
        {
            let id = self.magic_node_ids[i];
            proof {
                assert(!(exists|k: int| 0 <= k < i && #[trigger] ids[k] as int == id as int)) by {
                    if exists|k: int| 0 <= k < i && #[trigger] ids[k] as int == id as int {
                        let k = choose|k: int| 0 <= k < i && #[trigger] ids[k] as int == id as int;
                        assert(ids[k] != ids[i as int]);
                    }
                }
                assert((id as int) < n);
                lemma_used_before_bound(ids, used@, i as int);
                lemma_used_before_bound(ids, used@, ids.len() as int);
                assert(used_before(ids, used@, i + 1) <= used_before(ids, used@, ids.len() as int)) by {
                    lemma_used_before_mono(ids, used@, i + 1, ids.len() as int);
                }
            }
            let ghost ct_before = topo.cultivation_times@;
            let ghost b_before = topo.busy_counts@;
            let ghost log_before = self.cultivation_times_log@;
            let c0 = topo.cultivation_times[id as usize];
            let b0 = topo.busy_counts[id as usize];
            if used[id as usize] {
                topo.cultivation_times.set(id as usize, new_times[cultivation_time_index]);
                topo.busy_counts.set(id as usize, 0);
                cultivation_time_index += 1;
            } else if topo.is_cultivating(id) {
                let nb = b0 + 1;
                topo.busy_counts.set(id as usize, nb);
                if nb == c0 {
                    self.cultivation_times_log.push(c0);
                    topo.cultivation_times.set(id as usize, 0);
                    topo.busy_counts.set(id as usize, 0);
                }
            }
            proof {
                assert(self.cultivation_times_log@ =~= log0 + finished_times(ids, used@, t0.cultivation_times@, t0.busy_counts@, i + 1));
                assert forall|k: int| 0 <= k < i + 1 implies {
                    let idk = #[trigger] ids[k] as int;
                    let st = next_state(t0.cultivation_times@[idk], t0.busy_counts@[idk], used@[idk],
                        new_times@[used_before(ids, used@, k) as int]);
                    &&& topo.cultivation_times@[idk] == st.0
                    &&& topo.busy_counts@[idk] == st.1
                } by {
                    if k < i {
                        assert(ids[k] != id);
                    }
                }
                assert forall|u: int| 0 <= u < n && !(exists|k: int| 0 <= k < i + 1 && #[trigger] ids[k] as int == u) implies {
                    &&& topo.cultivation_times@[u] == t0.cultivation_times@[u]
                    &&& topo.busy_counts@[u] == t0.busy_counts@[u]
                } by {
                    assert(u != id as int) by {
                        if u == id as int {
                            assert(ids[i as int] as int == u);
                        }
                    }
                    if exists|k: int| 0 <= k < i && #[trigger] ids[k] as int == u {
                        let k = choose|k: int| 0 <= k < i && #[trigger] ids[k] as int == u;
                        assert(0 <= k < i + 1 && ids[k] as int == u);
                    }
                }
                assert forall|k: int| 0 <= k < i implies ct_before[#[trigger] ids[k] as int] == topo.cultivation_times@[ids[k] as int] by {
                    assert(ids[k] != id);
                }
                lemma_ready_positions_agree(ids, positions, ct_before, topo.cultivation_times@, i as int);
            }
            if topo.cultivation_times[id as usize] == 0 {
                num_avail_magic += 1;
                insert_sorted(&mut self.ready_magic_positions, self.magic_node_positions[i]);
            }
            i += 1;
        }
        proof {
            assert forall|u: int| 0 <= u < n && !ids.contains(u as u16) implies {
                &&& topo.cultivation_times@[u] == t0.cultivation_times@[u]
                &&& topo.busy_counts@[u] == t0.busy_counts@[u]
            } by {
                if exists|k: int| 0 <= k < ids.len() && #[trigger] ids[k] as int == u {
                    let k = choose|k: int| 0 <= k < ids.len() && #[trigger] ids[k] as int == u;
                    assert(ids[k] == u as u16);
                }
            }
        }
        num_avail_magic
    }
}

proof fn lemma_used_before_mono(ids: Seq<u16>, used: Seq<bool>, a: int, b: int)
    requires
        0 <= a <= b,
    ensures
        used_before(ids, used, a) <= used_before(ids, used, b),
    decreases b - a,
{
    if a < b {
        lemma_used_before_mono(ids, used, a, b - 1);
    }
}

} // verus!
