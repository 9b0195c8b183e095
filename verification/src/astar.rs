//! A* search from a root node to the nearest ready, unused magic node, over a
//! bucket queue (Dial's algorithm) keyed by integer f-costs.
use vstd::prelude::*;
use crate::node::{NodeType, MAX_NBORS};
use crate::topograph::{TopoGraph, pos_ok, POS_LIMIT};
use crate::routing::{has, lemma_has_push, lemma_has_prepend, blocked, is_goal, expands, step, is_route, goal_reachable, marked, lemma_closed_set_blocks_routes};

verus! {

/// Result of a pathfinding computation.
/// `NoPath` means no valid route exists; `PathFound` means one was found and
/// its nodes were marked used.
#[derive(Debug, Clone, Copy, PartialEq, Eq, Structural)]
pub enum PathResult {
    NoPath,
    PathFound,
}

/// Number of buckets in the bucket queue.
pub const BUCKET_COUNT: usize = 256;

/// Sentinel parent of the search root.
pub const NO_PARENT: u16 = 65535;

/// Total number of entries over all buckets.
pub open spec fn total_len(b: Seq<Vec<u16>>) -> nat
    decreases b.len(),
{
    if b.len() == 0 { 0 } else { total_len(b.drop_last()) + b.last()@.len() }
}

/// Some bucket holds `v`.
pub open spec fn in_buckets(b: Seq<Vec<u16>>, v: u16) -> bool {
    exists|k: int, j: int| 0 <= k < b.len() && 0 <= j < b[k]@.len() && #[trigger] b[k]@[j] == v
}

/// Bucket `k` holds `v`.
pub open spec fn queued_in(b: Seq<Vec<u16>>, k: int, v: u16) -> bool {
    exists|j: int| 0 <= j < b[k]@.len() && #[trigger] b[k]@[j] == v
}

/// Number of entries of `s` equal to `e`.
pub open spec fn count_eq(s: Seq<u32>, e: u32) -> nat
    decreases s.len(),
{
    if s.len() == 0 { 0 } else { count_eq(s.drop_last(), e) + (if s.last() == e { 1nat } else { 0nat }) }
}

/// |dx| + |dy| between two grid positions.
pub open spec fn mdist(p1: (i32, i32), p2: (i32, i32)) -> int {
    let dx = p1.0 - p2.0;
    let dy = p1.1 - p2.1;
    (if dx < 0 { -dx } else { dx }) + (if dy < 0 { -dy } else { dy })
}

/// A value cut off at `u32::MAX`, as a cast from a float to `u32` saturates.
pub open spec fn sat(x: int) -> int {
    if x > u32::MAX { u32::MAX as int } else { x }
}

/// |dx| between two grid positions.
pub open spec fn xdist(p1: (i32, i32), p2: (i32, i32)) -> int {
    let dx = p1.0 - p2.0;
    if dx < 0 { -dx } else { dx }
}

/// The positions are sorted by their x coordinate.
pub open spec fn sorted_by_x(s: Seq<(i32, i32)>) -> bool {
    forall|i: int, j: int| 0 <= i <= j < s.len() ==> s[i].0 <= s[j].0
}

/// Prepending a node that steps onto the head of a chain keeps it a chain.
proof fn lemma_extend_chain(topo: &TopoGraph, used: Seq<bool>, p: Seq<u16>, a: u16)
    requires
        p.len() > 0,
        step(topo, used, a as int, p[0] as int),
        forall|i: int| 0 <= i < p.len() - 1 ==> #[trigger] step(topo, used, p[i] as int, p[i + 1] as int),
    ensures
        forall|i: int| 0 <= i < (seq![a] + p).len() - 1 ==> #[trigger] step(topo, used, (seq![a] + p)[i] as int, (seq![a] + p)[i + 1] as int),
        (seq![a] + p)[0] == a,
        (seq![a] + p).last() == p.last(),
        (seq![a] + p).len() == p.len() + 1,
{
    let q = seq![a] + p;
    assert forall|i: int| 0 <= i < q.len() - 1 implies #[trigger] step(topo, used, q[i] as int, q[i + 1] as int) by {
        if i > 0 {
            assert(q[i] == p[i - 1] && q[i + 1] == p[(i - 1) + 1]);
        }
    }
}

proof fn lemma_total_len_update(b: Seq<Vec<u16>>, k: int, x: Vec<u16>)
    requires
        0 <= k < b.len(),
    ensures
        total_len(b.update(k, x)) + b[k]@.len() == total_len(b) + x@.len(),
    decreases b.len(),
{
    if k == b.len() - 1 {
        assert(b.update(k, x).drop_last() =~= b.drop_last());
    } else {
        lemma_total_len_update(b.drop_last(), k, x);
        assert(b.update(k, x).drop_last() =~= b.drop_last().update(k, x));
    }
}

proof fn lemma_total_len_all_empty(b: Seq<Vec<u16>>)
    requires
        forall|k: int| 0 <= k < b.len() ==> (#[trigger] b[k])@.len() == 0,
    ensures
        total_len(b) == 0,
    decreases b.len(),
{
    if b.len() > 0 {
        assert forall|k: int| 0 <= k < b.drop_last().len() implies (#[trigger] b.drop_last()[k])@.len() == 0 by {
            assert(b.drop_last()[k] == b[k]);
        }
        lemma_total_len_all_empty(b.drop_last());
    }
}

proof fn lemma_total_len_zero(b: Seq<Vec<u16>>)
    requires
        total_len(b) == 0,
    ensures
        forall|k: int| 0 <= k < b.len() ==> (#[trigger] b[k])@.len() == 0,
    decreases b.len(),
{
    if b.len() > 0 {
        lemma_total_len_zero(b.drop_last());
        assert forall|k: int| 0 <= k < b.len() implies (#[trigger] b[k])@.len() == 0 by {
            if k < b.len() - 1 {
                assert(b[k] == b.drop_last()[k]);
            }
        }
    }
}

proof fn lemma_count_eq_update(s: Seq<u32>, k: int, e: u32)
    requires
        0 <= k < s.len(),
        s[k] != e,
    ensures
        count_eq(s.update(k, e), e) == count_eq(s, e) + 1,
    decreases s.len(),
{
    if k == s.len() - 1 {
        assert(s.update(k, e).drop_last() =~= s.drop_last());
    } else {
        lemma_count_eq_update(s.drop_last(), k, e);
        assert(s.update(k, e).drop_last() =~= s.drop_last().update(k, e));
    }
}

proof fn lemma_count_eq_bound(s: Seq<u32>, e: u32)
    ensures
        count_eq(s, e) <= s.len(),
    decreases s.len(),
{
    if s.len() > 0 {
        lemma_count_eq_bound(s.drop_last(), e);
    }
}

proof fn lemma_count_eq_none(s: Seq<u32>, e: u32)
    requires
        forall|k: int| 0 <= k < s.len() ==> s[k] != e,
    ensures
        count_eq(s, e) == 0,
    decreases s.len(),
{
    if s.len() > 0 {
        lemma_count_eq_none(s.drop_last(), e);
    }
}

proof fn lemma_count_eq_zero(s: Seq<u32>, e: u32)
    requires
        count_eq(s, e) == 0,
    ensures
        forall|k: int| 0 <= k < s.len() ==> s[k] != e,
    decreases s.len(),
{
    if s.len() > 0 {
        lemma_count_eq_zero(s.drop_last(), e);
        assert forall|k: int| 0 <= k < s.len() implies s[k] != e by {
            if k < s.len() - 1 {
                assert(s[k] == s.drop_last()[k]);
            }
        }
    }
}

/// State container for A* pathfinding computations: parent pointers, g-costs
/// and open/closed marks that are valid only when stamped with the current
/// epoch, so that no per-call reset is needed.
pub struct AStarComputation {
    /// Parent pointer; `NO_PARENT` marks the search root.
    parent: Vec<u16>,
    /// Tentative g-cost.
    g_cost: Vec<u32>,
    /// `node_epoch[id] == epoch` means the node was reached in the current search.
    node_epoch: Vec<u32>,
    /// `closed_epoch[id] == epoch` means the node was expanded in the current search.
    closed_epoch: Vec<u32>,
    /// Bumped once per `compute` call.
    epoch: u32,
    /// Bucket queue: `buckets[f % BUCKET_COUNT]` holds node ids with f-cost `f`.
    buckets: Vec<Vec<u16>>,
    /// Lowest bucket index that may be non-empty.
    bucket_min: usize,
    pub num_calls: usize,
}

impl AStarComputation {
    /// The state is sized for `n` nodes and no stamp runs ahead of the epoch.
    pub closed spec fn wf(&self, n: nat) -> bool {
        &&& self.parent@.len() == n
        &&& self.g_cost@.len() == n
        &&& self.node_epoch@.len() == n
        &&& self.closed_epoch@.len() == n
        &&& self.buckets@.len() == BUCKET_COUNT
        &&& self.bucket_min <= BUCKET_COUNT
        &&& forall|v: int| 0 <= v < n ==> #[trigger] self.node_epoch@[v] <= self.epoch && self.closed_epoch@[v] <= self.epoch
        &&& forall|k: int, j: int| 0 <= k < BUCKET_COUNT && 0 <= j < self.buckets@[k]@.len() ==> (#[trigger] self.buckets@[k]@[j]) < n
    }

    /// The number of `compute` calls made so far.
    pub closed spec fn calls(&self) -> usize {
        self.num_calls
    }

    /// Per node: parent pointer, tentative g-cost, the epoch it was last
    /// reached in, and the epoch it was last expanded in.
    pub closed spec fn node_state(&self) -> (Seq<u16>, Seq<u32>, Seq<u32>, Seq<u32>) {
        (self.parent@, self.g_cost@, self.node_epoch@, self.closed_epoch@)
    }

    /// The current epoch, the lengths of the queue's buckets, and the lowest
    /// bucket that may be non-empty.
    pub closed spec fn queue_state(&self) -> (u32, Seq<nat>, usize) {
        (self.epoch, Seq::new(self.buckets@.len(), |k: int| self.buckets@[k]@.len()), self.bucket_min)
    }

    /// The queue shape that `bucket_pop` relies on: buckets below `bucket_min` are empty.
    closed spec fn queue_ok(&self, n: nat) -> bool {
        &&& self.buckets@.len() == BUCKET_COUNT
        &&& self.bucket_min <= BUCKET_COUNT
        &&& self.closed_epoch@.len() == n
        &&& forall|k: int, j: int| 0 <= k < BUCKET_COUNT && 0 <= j < self.buckets@[k]@.len() ==> (#[trigger] self.buckets@[k]@[j]) < n
        &&& forall|k: int| 0 <= k < self.bucket_min ==> (#[trigger] self.buckets@[k])@.len() == 0
    }

    /// A fresh computation for a graph of `num_nodes` nodes, with no calls
    /// made yet: every parent unset, every cost at the maximum, every stamp
    /// and the epoch at 0, and every bucket empty.
    pub fn new(num_nodes: usize) -> (a: Self)
        ensures
            a.wf(num_nodes as nat),
            a.calls() == 0,
            a.node_state() == (Seq::new(num_nodes as nat, |i: int| NO_PARENT), Seq::new(num_nodes as nat, |i: int| u32::MAX),
                Seq::new(num_nodes as nat, |i: int| 0u32), Seq::new(num_nodes as nat, |i: int| 0u32)),
            a.queue_state() == (0u32, Seq::new(BUCKET_COUNT as nat, |k: int| 0nat), 0usize),
    {
        let mut buckets: Vec<Vec<u16>> = Vec::new();
        let mut k: usize = 0;
        while k < BUCKET_COUNT
            invariant
                k <= BUCKET_COUNT,
                buckets@.len() == k,
                forall|b: int| 0 <= b < k ==> (#[trigger] buckets@[b])@.len() == 0,
            decreases BUCKET_COUNT - k,
        {
            buckets.push(Vec::new());
            k += 1;
        }
        let node_epoch: Vec<u32> = vec![0; num_nodes];
        let closed_epoch: Vec<u32> = vec![0; num_nodes];
        let a = AStarComputation {
            parent: vec![NO_PARENT; num_nodes],
            g_cost: vec![u32::MAX; num_nodes],
            node_epoch,
            closed_epoch,
            epoch: 0,
            buckets,
            bucket_min: 0,
            num_calls: 0,
        };
        proof {
            assert(a.parent@ =~= Seq::new(num_nodes as nat, |i: int| NO_PARENT));
            assert(a.g_cost@ =~= Seq::new(num_nodes as nat, |i: int| u32::MAX));
            assert(a.node_epoch@ =~= Seq::new(num_nodes as nat, |i: int| 0u32));
            assert(a.closed_epoch@ =~= Seq::new(num_nodes as nat, |i: int| 0u32));
            assert(Seq::new(a.buckets@.len(), |k: int| a.buckets@[k]@.len()) =~= Seq::new(BUCKET_COUNT as nat, |k: int| 0nat));
        }
        a
    }

    /// Pushes `node_id` into the bucket of `f_cost`.
    fn bucket_push(&mut self, f_cost: u32, node_id: u16)
        requires
            old(self).queue_ok(old(self).closed_epoch@.len()),
            (node_id as int) < old(self).closed_epoch@.len(),
        ensures
            final(self).queue_ok(final(self).closed_epoch@.len()),
            final(self).parent == old(self).parent,
            final(self).g_cost == old(self).g_cost,
            final(self).node_epoch == old(self).node_epoch,
            final(self).closed_epoch == old(self).closed_epoch,
            final(self).epoch == old(self).epoch,
            final(self).num_calls == old(self).num_calls,
            in_buckets(final(self).buckets@, node_id),
            forall|v: u16| in_buckets(old(self).buckets@, v) ==> in_buckets(final(self).buckets@, v),
            forall|v: u16| in_buckets(final(self).buckets@, v) ==> in_buckets(old(self).buckets@, v) || v == node_id,
            total_len(final(self).buckets@) == total_len(old(self).buckets@) + 1,
            final(self).bucket_min <= old(self).bucket_min,
            final(self).bucket_min == (if ((f_cost as int) % 256) < old(self).bucket_min { (f_cost as int) % 256 } else { old(self).bucket_min as int }),
            final(self).buckets@[(f_cost as int) % 256]@ == old(self).buckets@[(f_cost as int) % 256]@.push(node_id),
            forall|k: int| 0 <= k < BUCKET_COUNT && k != (f_cost as int) % 256 ==> final(self).buckets@[k] == old(self).buckets@[k],
    {
        let idx = (f_cost as usize) % BUCKET_COUNT;
        let ghost old_b = self.buckets@;
        self.buckets[idx].push(node_id);
        proof {
            lemma_total_len_update(old_b, idx as int, self.buckets@[idx as int]);
            assert(self.buckets@ == old_b.update(idx as int, self.buckets@[idx as int]));
            let j = self.buckets@[idx as int]@.len() - 1;
            assert(self.buckets@[idx as int]@[j] == node_id);
            assert forall|v: u16| in_buckets(self.buckets@, v) implies in_buckets(old_b, v) || v == node_id by {
                let (k, j) = choose|k: int, j: int| 0 <= k < self.buckets@.len() && 0 <= j < self.buckets@[k]@.len() && #[trigger] self.buckets@[k]@[j] == v;
                if k == idx as int {
                    if j < old_b[k]@.len() {
                        assert(old_b[k]@[j] == v);
                    }
                } else {
                    assert(old_b[k]@[j] == v);
                }
            }
            assert forall|v: u16| in_buckets(old_b, v) implies in_buckets(self.buckets@, v) by {
                let (k, j) = choose|k: int, j: int| 0 <= k < old_b.len() && 0 <= j < old_b[k]@.len() && #[trigger] old_b[k]@[j] == v;
                if k == idx as int {
                    assert(self.buckets@[k]@[j] == v);
                } else {
                    assert(self.buckets@[k]@[j] == v);
                }
            }
        }
        if idx < self.bucket_min {
            self.bucket_min = idx;
        }
    }

    /// Pops an entry that is not closed in `epoch`, dropping closed ones on the way.
    fn bucket_pop(&mut self, epoch: u32) -> (r: Option<u16>)
        requires
            old(self).queue_ok(old(self).closed_epoch@.len()),
        ensures
            final(self).queue_ok(final(self).closed_epoch@.len()),
            final(self).parent == old(self).parent,
            final(self).g_cost == old(self).g_cost,
            final(self).node_epoch == old(self).node_epoch,
            final(self).closed_epoch == old(self).closed_epoch,
            final(self).epoch == old(self).epoch,
            final(self).num_calls == old(self).num_calls,
            forall|x: u16| in_buckets(final(self).buckets@, x) ==> in_buckets(old(self).buckets@, x),
            match r {
                Some(v) => {
                    &&& in_buckets(old(self).buckets@, v)
                    &&& (v as int) < old(self).closed_epoch@.len()
                    &&& old(self).closed_epoch@[v as int] != epoch
                    &&& forall|x: u16| in_buckets(old(self).buckets@, x) && old(self).closed_epoch@[x as int] != epoch && x != v
                        ==> in_buckets(final(self).buckets@, x)
                    &&& forall|k: int, x: u16| 0 <= k < BUCKET_COUNT && #[trigger] queued_in(old(self).buckets@, k, x)
                        && old(self).closed_epoch@[x as int] != epoch && x != v ==> queued_in(final(self).buckets@, k, x)
                    &&& exists|k: int| 0 <= k < BUCKET_COUNT && #[trigger] queued_in(old(self).buckets@, k, v)
                        && forall|k2: int, x: u16| 0 <= k2 < k && #[trigger] queued_in(old(self).buckets@, k2, x)
                            ==> old(self).closed_epoch@[x as int] == epoch
                },
                None => {
                    &&& forall|k: int| 0 <= k < BUCKET_COUNT ==> (#[trigger] final(self).buckets@[k])@.len() == 0
                    &&& forall|x: u16| in_buckets(old(self).buckets@, x) ==> old(self).closed_epoch@[x as int] == epoch
                },
            },
    {
        let ghost n = self.closed_epoch@.len();
        let ghost b0 = self.buckets@;
        loop
            invariant
                self.queue_ok(n),
                n == self.closed_epoch@.len(),
                self.parent == old(self).parent,
                self.g_cost == old(self).g_cost,
                self.node_epoch == old(self).node_epoch,
                self.closed_epoch == old(self).closed_epoch,
                self.epoch == old(self).epoch,
                self.num_calls == old(self).num_calls,
                b0 == old(self).buckets@,
                forall|x: u16| in_buckets(self.buckets@, x) ==> in_buckets(b0, x),
                forall|x: u16| in_buckets(b0, x) && self.closed_epoch@[x as int] != epoch ==> in_buckets(self.buckets@, x),
                forall|k: int, x: u16| 0 <= k < BUCKET_COUNT && #[trigger] queued_in(b0, k, x) && self.closed_epoch@[x as int] != epoch
                    ==> queued_in(self.buckets@, k, x),
                forall|k: int, x: u16| 0 <= k < BUCKET_COUNT && #[trigger] queued_in(self.buckets@, k, x) ==> queued_in(b0, k, x),
                forall|k: int, x: u16| 0 <= k < self.bucket_min && #[trigger] queued_in(b0, k, x) ==> self.closed_epoch@[x as int] == epoch,
            decreases (BUCKET_COUNT - self.bucket_min) + total_len(self.buckets@),
        {
            if self.bucket_min >= BUCKET_COUNT {
                proof {
                    assert forall|x: u16| in_buckets(b0, x) implies old(self).closed_epoch@[x as int] == epoch by {
                        if old(self).closed_epoch@[x as int] != epoch {
                            assert(in_buckets(self.buckets@, x));
                            let (k, j) = choose|k: int, j: int| 0 <= k < self.buckets@.len() && 0 <= j < self.buckets@[k]@.len() && #[trigger] self.buckets@[k]@[j] == x;
                            assert(self.buckets@[k]@.len() == 0);
                        }
                    }
                }
                return None;
            }
            let bm = self.bucket_min;
            let ghost before = self.buckets@;
            let popped = self.buckets[bm].pop();
            proof {
                assert(self.buckets@ == before.update(bm as int, self.buckets@[bm as int]));
                lemma_total_len_update(before, bm as int, self.buckets@[bm as int]);
                assert forall|x: u16| in_buckets(self.buckets@, x) implies in_buckets(before, x) by {
                    let (k, j) = choose|k: int, j: int| 0 <= k < self.buckets@.len() && 0 <= j < self.buckets@[k]@.len() && #[trigger] self.buckets@[k]@[j] == x;
                    assert(before[k]@[j] == x);
                }
            }
            match popped {
                Some(v) => {
                    proof {
                        let last = before[bm as int]@.len() - 1;
                        assert(before[bm as int]@[last] == v);
                        assert forall|x: u16| in_buckets(before, x) && x != v implies in_buckets(self.buckets@, x) by {
                            let (k, j) = choose|k: int, j: int| 0 <= k < before.len() && 0 <= j < before[k]@.len() && #[trigger] before[k]@[j] == x;
                            if k == bm as int {
                                assert(j != last);
                                assert(self.buckets@[k]@[j] == x);
                            } else {
                                assert(self.buckets@[k]@[j] == x);
                            }
                        }
                    }
                    proof {
                        let last = before[bm as int]@.len() - 1;
                        assert(before[bm as int]@[last] == v);
                        assert(in_buckets(before, v));
                    }
                    proof {
                        let last = before[bm as int]@.len() - 1;
                        assert forall|k: int, x: u16| 0 <= k < BUCKET_COUNT && #[trigger] queued_in(before, k, x) && x != v
                            implies queued_in(self.buckets@, k, x) by {
                            let j = choose|j: int| 0 <= j < before[k]@.len() && #[trigger] before[k]@[j] == x;
                            if k == bm as int {
                                assert(j != last);
                            }
                            assert(self.buckets@[k]@[j] == x);
                        }
                        assert forall|k: int, x: u16| 0 <= k < BUCKET_COUNT && #[trigger] queued_in(self.buckets@, k, x)
                            implies queued_in(before, k, x) by {
                            let j = choose|j: int| 0 <= j < self.buckets@[k]@.len() && #[trigger] self.buckets@[k]@[j] == x;
                            assert(before[k]@[j] == x);
                        }
                        assert(queued_in(before, bm as int, v));
                        assert(queued_in(b0, bm as int, v));
                    }
                    if self.closed_epoch[v as usize] != epoch {
                        return Some(v);
                    }
                    assert forall|x: u16| in_buckets(b0, x) && self.closed_epoch@[x as int] != epoch implies in_buckets(self.buckets@, x) by {
                        assert(in_buckets(before, x));
                    }
                },
                None => {
                    assert forall|x: u16| in_buckets(before, x) implies in_buckets(self.buckets@, x) by {
                        let (k, j) = choose|k: int, j: int| 0 <= k < before.len() && 0 <= j < before[k]@.len() && #[trigger] before[k]@[j] == x;
                        assert(self.buckets@[k]@[j] == x);
                    }
                    assert forall|k: int, x: u16| 0 <= k < BUCKET_COUNT && #[trigger] queued_in(before, k, x)
                        implies queued_in(self.buckets@, k, x) by {
                        let j = choose|j: int| 0 <= j < before[k]@.len() && #[trigger] before[k]@[j] == x;
                        assert(self.buckets@[k]@[j] == x);
                    }
                    assert forall|k: int, x: u16| 0 <= k < BUCKET_COUNT && #[trigger] queued_in(self.buckets@, k, x)
                        implies queued_in(before, k, x) by {
                        let j = choose|j: int| 0 <= j < self.buckets@[k]@.len() && #[trigger] self.buckets@[k]@[j] == x;
                        assert(before[k]@[j] == x);
                    }
                    assert forall|x: u16| #[trigger] queued_in(b0, bm as int, x) implies self.closed_epoch@[x as int] == epoch by {
                        if self.closed_epoch@[x as int] != epoch {
                            assert(queued_in(before, bm as int, x));
                            let j = choose|j: int| 0 <= j < before[bm as int]@.len() && #[trigger] before[bm as int]@[j] == x;
                        }
                    }
                    self.bucket_min = bm + 1;
                },
            }
        }
    }

    /// Empties every bucket.
    fn bucket_clear(&mut self)
        requires
            old(self).buckets@.len() == BUCKET_COUNT,
        ensures
            final(self).queue_ok(old(self).closed_epoch@.len()),
            final(self).bucket_min == 0,
            forall|k: int| 0 <= k < BUCKET_COUNT ==> (#[trigger] final(self).buckets@[k])@.len() == 0,
            final(self).parent == old(self).parent,
            final(self).g_cost == old(self).g_cost,
            final(self).node_epoch == old(self).node_epoch,
            final(self).closed_epoch == old(self).closed_epoch,
            final(self).epoch == old(self).epoch,
            final(self).num_calls == old(self).num_calls,
            total_len(final(self).buckets@) == 0,
    {
        let mut k: usize = 0;
        while k < BUCKET_COUNT
            invariant
                k <= BUCKET_COUNT,
                self.buckets@.len() == BUCKET_COUNT,
                forall|b: int| 0 <= b < k ==> (#[trigger] self.buckets@[b])@.len() == 0,
                self.parent == old(self).parent,
                self.g_cost == old(self).g_cost,
                self.node_epoch == old(self).node_epoch,
                self.closed_epoch == old(self).closed_epoch,
                self.epoch == old(self).epoch,
                self.num_calls == old(self).num_calls,
                self.bucket_min == old(self).bucket_min,
            decreases BUCKET_COUNT - k,
        {
            self.buckets[k].clear();
            k += 1;
        }
        self.bucket_min = 0;
        proof {
            lemma_total_len_all_empty(self.buckets@);
        }
    }

    /// Saturated Manhattan distance between two grid positions.
    fn manhattan_dist(p1: (i32, i32), p2: (i32, i32)) -> (d: u32)
        ensures
            d == sat(mdist(p1, p2)),
    {
        let dx: i64 = p1.0 as i64 - p2.0 as i64;
        let dy: i64 = p1.1 as i64 - p2.1 as i64;
        let ax: i64 = if dx < 0 { -dx } else { dx };
        let ay: i64 = if dy < 0 { -dy } else { dy };
        let sum: i64 = ax + ay;
        if sum > u32::MAX as i64 { u32::MAX } else { sum as u32 }
    }

    /// Saturated distance along x between two grid positions.
    fn x_dist(p1: (i32, i32), p2: (i32, i32)) -> (d: u32)
        ensures
            d == sat(xdist(p1, p2)),
    {
        let dx: i64 = p1.0 as i64 - p2.0 as i64;
        let ax: i64 = if dx < 0 { -dx } else { dx };
        if ax > u32::MAX as i64 { u32::MAX } else { ax as u32 }
    }

    /// The index of the first position whose x is not below `x` (the
    /// positions are sorted by x).
    fn partition_point(ready: &[(i32, i32)], x: i32) -> (a: usize)
        requires
            sorted_by_x(ready@),
        ensures
            a <= ready@.len(),
            forall|i: int| 0 <= i < a ==> ready@[i].0 < x,
            forall|i: int| a <= i < ready@.len() ==> ready@[i].0 >= x,
    {
        let mut lo: usize = 0;
        let mut hi: usize = ready.len();
        while lo < hi
            invariant
                lo <= hi <= ready@.len(),
                sorted_by_x(ready@),
                forall|i: int| 0 <= i < lo ==> ready@[i].0 < x,
                forall|i: int| hi <= i < ready@.len() ==> ready@[i].0 >= x,
            decreases hi - lo,
        {
            let mid = lo + (hi - lo) / 2;
            if ready[mid].0 < x {
                lo = mid + 1;
            } else {
                hi = mid;
            }
        }
        lo
    }

    /// Returns (distance, index) of the nearest ready magic position to `pos`
    /// (distances saturate at `u32::MAX`). The positions must be sorted by x:
    /// the search starts at the x-anchor and sweeps outward, pruning once the
    /// x-gap alone reaches the best distance so far. With no positions it
    /// returns `(u32::MAX, 0)`.
    fn heuristic(pos: (i32, i32), ready: &[(i32, i32)]) -> (r: (u32, usize))
        requires
            sorted_by_x(ready@),
        ensures
            ready@.len() == 0 ==> r == (u32::MAX, 0usize),
            ready@.len() > 0 ==> {
                &&& r.1 < ready@.len()
                &&& r.0 == sat(mdist(ready@[r.1 as int], pos))
                &&& forall|j: int| 0 <= j < ready@.len() ==> r.0 <= sat(mdist(ready@[j], pos))
            },
    {
        let anchor = Self::partition_point(ready, pos.0);
        let mut best_dist: u32 = u32::MAX;
        let mut best_idx: usize = 0;

        let mut r = anchor;
        let mut stop = false;
        while r < ready.len() && !stop
            invariant
                anchor <= r <= ready@.len(),
                stop ==> forall|j: int| r <= j < ready@.len() ==> best_dist <= sat(mdist(ready@[j], pos)),
                sorted_by_x(ready@),
                forall|i: int| anchor <= i < ready@.len() ==> ready@[i].0 >= pos.0,
                best_idx < ready@.len() || ready@.len() == 0,
                best_dist < u32::MAX ==> best_dist == sat(mdist(ready@[best_idx as int], pos)),
                best_dist == u32::MAX ==> best_idx == 0,
                forall|j: int| anchor <= j < r ==> best_dist <= sat(mdist(ready@[j], pos)),
                ready@.len() == 0 ==> best_dist == u32::MAX,
            decreases ready@.len() - r + (if stop { 0int } else { 1int }),
        {
            let dx = Self::x_dist(ready[r], pos);
            if dx >= best_dist {
                assert forall|j: int| r <= j < ready@.len() implies best_dist <= sat(mdist(ready@[j], pos)) by {
                    assert(ready@[j].0 >= ready@[r as int].0);
                }
                stop = true;
            } else {
                let d = Self::manhattan_dist(ready[r], pos);
                if d < best_dist {
                    best_dist = d;
                    best_idx = r;
                }
                r += 1;
            }
        }
        assert(forall|j: int| anchor <= j < ready@.len() ==> best_dist <= sat(mdist(ready@[j], pos)));

        let mut l = anchor;
        let mut stop_left = false;
        while l > 0 && !stop_left
            invariant
                l <= anchor <= ready@.len(),
                stop_left ==> forall|j: int| 0 <= j < l ==> best_dist <= sat(mdist(ready@[j], pos)),
                sorted_by_x(ready@),
                forall|i: int| 0 <= i < anchor ==> ready@[i].0 < pos.0,
                best_idx < ready@.len() || ready@.len() == 0,
                best_dist < u32::MAX ==> best_dist == sat(mdist(ready@[best_idx as int], pos)),
                best_dist == u32::MAX ==> best_idx == 0,
                forall|j: int| l <= j < ready@.len() ==> best_dist <= sat(mdist(ready@[j], pos)),
                ready@.len() == 0 ==> best_dist == u32::MAX,
            decreases l + (if stop_left { 0int } else { 1int }),
        {
            let dx = Self::x_dist(ready[l - 1], pos);
            if dx >= best_dist {
                assert forall|j: int| 0 <= j < l implies best_dist <= sat(mdist(ready@[j], pos)) by {
                    assert(ready@[j].0 <= ready@[l - 1].0);
                }
                stop_left = true;
            } else {
                l -= 1;
                let d = Self::manhattan_dist(ready[l], pos);
                if d < best_dist {
                    best_dist = d;
                    best_idx = l;
                }
            }
        }
        (best_dist, best_idx)
    }

    /// The saturated Manhattan distance, exposed for tests.
    pub fn test_manhattan_dist(p1: (i32, i32), p2: (i32, i32)) -> (d: u32)
        ensures
            d == sat(mdist(p1, p2)),
    {
        Self::manhattan_dist(p1, p2)
    }

    /// The nearest-position heuristic, exposed for tests.
    pub fn test_heuristic(pos: (i32, i32), ready: &[(i32, i32)]) -> (r: (u32, usize))
        requires
            sorted_by_x(ready@),
        ensures
            ready@.len() == 0 ==> r == (u32::MAX, 0usize),
            ready@.len() > 0 ==> {
                &&& r.1 < ready@.len()
                &&& r.0 == sat(mdist(ready@[r.1 as int], pos))
                &&& forall|j: int| 0 <= j < ready@.len() ==> r.0 <= sat(mdist(ready@[j], pos))
            },
    {
        Self::heuristic(pos, ready)
    }

    /// Node `v` was reached in the current search.
    closed spec fn discovered(&self, v: int) -> bool {
        self.node_epoch@[v] == self.epoch
    }

    /// Node `v` was expanded in the current search.
    closed spec fn closed(&self, v: int) -> bool {
        self.closed_epoch@[v] == self.epoch
    }

    /// The parent link of a reached node: the root has none and cost 0; any
    /// other node hangs off an expanded node one step away with a lower cost.
    closed spec fn tree_ok(&self, topo: &TopoGraph, used: Seq<bool>, root: u16, v: int) -> bool {
        &&& v == root as int ==> self.parent@[v] == NO_PARENT && self.g_cost@[v] == 0
        &&& v != root as int ==> {
            let u = self.parent@[v] as int;
            &&& 0 <= u < topo.num_nodes
            &&& self.closed(u)
            &&& step(topo, used, u, v)
            &&& self.g_cost@[u] < self.g_cost@[v]
        }
    }

    /// Every non-blocked neighbour among the first `upto` of `u` was reached.
    closed spec fn frontier_done(&self, topo: &TopoGraph, used: Seq<bool>, u: int, upto: int) -> bool {
        forall|j: int| 0 <= j < upto && j < topo.nodes@[u].num_nbors ==>
            (!blocked(topo, used, #[trigger] topo.nodes@[u].nbors@[j] as int) ==> self.discovered(topo.nodes@[u].nbors@[j] as int))
    }

    /// What holds throughout a search from `root` over `topo` with `used`;
    /// node `cur` is being expanded and only its first `upto` neighbours are done.
    closed spec fn search_inv(&self, topo: &TopoGraph, used: Seq<bool>, root: u16, cur: int, upto: int) -> bool {
        let n = topo.num_nodes as nat;
        let count = count_eq(self.closed_epoch@, self.epoch);
        &&& self.wf(n)
        &&& self.queue_ok(n)
        &&& topo.wf()
        &&& used.len() == n
        &&& (root as int) < n
        &&& self.discovered(root as int)
        &&& count > 0 ==> self.closed(root as int)
        &&& forall|v: int| 0 <= v < n && #[trigger] self.closed(v) ==> self.discovered(v)
        &&& forall|v: int| 0 <= v < n && #[trigger] self.discovered(v) ==> self.tree_ok(topo, used, root, v)
        &&& forall|v: int| 0 <= v < n && #[trigger] self.discovered(v) ==> self.g_cost@[v] <= count
        &&& forall|v: int| 0 <= v < n && #[trigger] self.closed(v) ==> !is_goal(topo, used, v)
        &&& forall|v: int| 0 <= v < n && #[trigger] self.discovered(v) && !self.closed(v) ==> in_buckets(self.buckets@, v as u16)
        &&& forall|x: u16| #[trigger] in_buckets(self.buckets@, x) ==> self.discovered(x as int)
        &&& forall|u: int| 0 <= u < n && u != cur && #[trigger] self.closed(u) && expands(topo, u) ==> self.frontier_done(topo, used, u, MAX_NBORS as int)
        &&& 0 <= cur < n ==> self.frontier_done(topo, used, cur, upto)
    }

    /// Every node reached and not yet expanded waits in the bucket of its
    /// cost so far plus its Manhattan distance to `target` (the A* key).
    closed spec fn keyed(&self, topo: &TopoGraph, target: (i32, i32)) -> bool {
        forall|v: int| 0 <= v < topo.num_nodes && #[trigger] self.discovered(v) && !self.closed(v)
            ==> queued_in(self.buckets@, (self.g_cost@[v] + sat(mdist(topo.nodes@[v].pos, target))) % 256, v as u16)
    }

    /// Reaching `nb` at a new cost and pushing it under the key `f` of that
    /// cost keeps every waiting node in the bucket of its key.
    proof fn lemma_keyed_after_reach(&self, pre: Self, topo: &TopoGraph, target: (i32, i32), nb: u16, f: u32)
        requires
            pre.keyed(topo, target),
            (nb as int) < topo.num_nodes,
            pre.node_epoch@.len() == topo.num_nodes,
            pre.g_cost@.len() == topo.num_nodes,
            self.epoch == pre.epoch,
            self.closed_epoch == pre.closed_epoch,
            self.node_epoch@ == pre.node_epoch@.update(nb as int, pre.epoch),
            self.g_cost@.len() == pre.g_cost@.len(),
            forall|v: int| 0 <= v < topo.num_nodes && v != nb ==> self.g_cost@[v] == pre.g_cost@[v],
            f == self.g_cost@[nb as int] + sat(mdist(topo.nodes@[nb as int].pos, target)),
            pre.buckets@.len() == BUCKET_COUNT,
            self.buckets@.len() == BUCKET_COUNT,
            self.buckets@[(f as int) % 256]@ == pre.buckets@[(f as int) % 256]@.push(nb),
            forall|k: int| 0 <= k < BUCKET_COUNT && k != (f as int) % 256 ==> self.buckets@[k] == pre.buckets@[k],
        ensures
            self.keyed(topo, target),
    {
        let idx = (f as int) % 256;
        assert forall|v: int| 0 <= v < topo.num_nodes && #[trigger] self.discovered(v) && !self.closed(v)
            implies queued_in(self.buckets@, (self.g_cost@[v] + sat(mdist(topo.nodes@[v].pos, target))) % 256, v as u16) by {
            let k = (self.g_cost@[v] + sat(mdist(topo.nodes@[v].pos, target))) % 256;
            if v == nb as int {
                assert(k == idx);
                let last = self.buckets@[idx]@.len() - 1;
                assert(self.buckets@[idx]@[last] == nb);
            } else {
                assert(pre.discovered(v));
                assert(!pre.closed(v));
                assert(queued_in(pre.buckets@, k, v as u16));
                let j = choose|j: int| 0 <= j < pre.buckets@[k]@.len() && #[trigger] pre.buckets@[k]@[j] == v as u16;
                assert(self.buckets@[k]@[j] == v as u16);
            }
        }
    }

    /// Marks the route found: walks the parent chain from `magic_id` back to
    /// the root marking each node used, then marks the roots and terminals.
    fn finish_path(
        &self, magic_id: u16, root_ids: &[u16], terminal_ids: &[u16], topo: &TopoGraph, used: &mut Vec<bool>,
    )
        requires
            root_ids@.len() > 0,
            self.wf(topo.num_nodes as nat),
            topo.wf(),
            old(used)@.len() == topo.num_nodes,
            forall|i: int| 0 <= i < root_ids@.len() ==> (#[trigger] root_ids@[i]) < topo.num_nodes,
            forall|i: int| 0 <= i < terminal_ids@.len() ==> (#[trigger] terminal_ids@[i]) < topo.num_nodes,
            (magic_id as int) < topo.num_nodes,
            self.discovered(magic_id as int),
            is_goal(topo, old(used)@, magic_id as int),
            forall|v: int| 0 <= v < topo.num_nodes && v != magic_id && #[trigger] self.discovered(v)
                ==> self.tree_ok(topo, old(used)@, root_ids@[0], v),
            forall|v: int| 0 <= v < topo.num_nodes && #[trigger] self.closed(v) ==> self.discovered(v),
            forall|v: int| 0 <= v < topo.num_nodes && v != magic_id && #[trigger] self.discovered(v)
                ==> self.g_cost@[v] < 65535,
            self.closed(magic_id as int) ==> self.tree_ok(topo, old(used)@, root_ids@[0], magic_id as int),
            !self.closed(magic_id as int) ==> {
                let u = self.parent@[magic_id as int] as int;
                &&& magic_id != root_ids@[0]
                &&& 0 <= u < topo.num_nodes
                &&& self.closed(u)
                &&& step(topo, old(used)@, u, magic_id as int)
            },
        ensures
            exists|p: Seq<u16>| #[trigger] is_route(topo, old(used)@, p, root_ids@[0])
                && final(used)@ == marked(old(used)@, p, root_ids@, terminal_ids@),
    {
        let ghost used0 = used@;
        let ghost root = root_ids@[0];
        let ghost n = topo.num_nodes;
        used.set(magic_id as usize, true);
        let mut curr = magic_id;
        let ghost mut p: Seq<u16> = seq![magic_id];
        proof {
            assert(used@ =~= Seq::new(used0.len(), |x: int| used0[x] || has(p, x))) by {
                assert forall|x: int| 0 <= x < used0.len() implies used@[x] == (used0[x] || has(p, x)) by {
                    if x == magic_id as int {
                        assert(p[0] as int == x);
                    }
                    if has(p, x) {
                        let k = choose|k: int| 0 <= k < p.len() && #[trigger] p[k] as int == x;
                        assert(k == 0);
                    }
                }
            }
        }
        while self.parent[curr as usize] != NO_PARENT
            invariant
                self.wf(n as nat),
                topo.wf(),
                n == topo.num_nodes,
                used@.len() == n,
                used0.len() == n,
                root == root_ids@[0],
                (curr as int) < n,
                self.discovered(curr as int),
                p.len() > 0,
                p[0] == curr,
                p.last() == magic_id,
                forall|i: int| 0 <= i < p.len() - 1 ==> #[trigger] step(topo, used0, p[i] as int, p[i + 1] as int),
                used@ == Seq::new(used0.len(), |x: int| used0[x] || has(p, x)),
                curr != magic_id ==> self.closed(curr as int) && self.tree_ok(topo, used0, root, curr as int),
                curr != magic_id && self.closed(magic_id as int) ==> self.g_cost@[curr as int] < self.g_cost@[magic_id as int],
                curr != magic_id ==> self.g_cost@[curr as int] < 65535,
                curr == magic_id ==> p.len() == 1,
                forall|v: int| 0 <= v < n && v != magic_id && #[trigger] self.discovered(v)
                    ==> self.tree_ok(topo, used0, root, v),
                forall|v: int| 0 <= v < n && #[trigger] self.closed(v) ==> self.discovered(v),
                forall|v: int| 0 <= v < n && v != magic_id && #[trigger] self.discovered(v) ==> self.g_cost@[v] < 65535,
                self.closed(magic_id as int) ==> self.tree_ok(topo, used0, root, magic_id as int),
                !self.closed(magic_id as int) ==> {
                    let u = self.parent@[magic_id as int] as int;
                    &&& magic_id != root
                    &&& 0 <= u < n
                    &&& self.closed(u)
                    &&& step(topo, used0, u, magic_id as int)
                },
            decreases (if curr == magic_id { 65536int } else { self.g_cost@[curr as int] as int }),
        {
            let prev = self.parent[curr as usize];
            proof {
                assert(curr != root);
                assert(0 <= prev < n);
                assert(self.closed(prev as int));
                assert(step(topo, used0, prev as int, curr as int));
                assert(prev != magic_id);
            }
            used.set(prev as usize, true);
            let ghost old_p = p;
            proof {
                p = seq![prev] + p;
                lemma_extend_chain(topo, used0, old_p, prev);
                lemma_has_prepend(old_p, prev);
                assert(used@ =~= Seq::new(used0.len(), |x: int| used0[x] || has(p, x)));
            }
            curr = prev;
        }
        proof {
            assert(curr == root);
            assert(is_route(topo, used0, p, root));
        }
        assert(root_ids@.subrange(0, 0) =~= Seq::<u16>::empty());
        let mut i: usize = 0;
        while i < root_ids.len()
            invariant
                i <= root_ids@.len(),
                used@.len() == n,
                n == topo.num_nodes,
                n < 65535,
                used0.len() == n,
                forall|k: int| 0 <= k < root_ids@.len() ==> (#[trigger] root_ids@[k]) < n,
                forall|x: int| 0 <= x < n ==> #[trigger] used@[x] == (used0[x] || has(p, x) || has(root_ids@.subrange(0, i as int), x)),
            decreases root_ids@.len() - i,
        {
            let rid = root_ids[i];
            let ghost before = used@;
            used.set(rid as usize, true);
            proof {
                assert(used@ == before.update(rid as int, true));
                lemma_has_push(root_ids@.subrange(0, i as int), rid);
                assert(root_ids@.subrange(0, i + 1) =~= root_ids@.subrange(0, i as int).push(rid));
                assert forall|x: int| 0 <= x < n implies used@[x] == (used0[x] || has(p, x) || has(root_ids@.subrange(0, i + 1), x)) by {
                    assert(has(root_ids@.subrange(0, i as int).push(rid), x) == has(root_ids@.subrange(0, i + 1), x));
                    if x == rid as int {
                        let w = root_ids@.subrange(0, i + 1);
                        assert(w[i as int] == rid);
                        assert(w[i as int] as int == x);
                        assert(has(w, x));
                    } else {
                        assert(used@[x] == before[x]);
                        assert(before[x] == (used0[x] || has(p, x) || has(root_ids@.subrange(0, i as int), x)));
                        assert(has(root_ids@.subrange(0, i + 1), x) == has(root_ids@.subrange(0, i as int), x));
                    }
                }
            }
            i += 1;
        }
        assert(root_ids@.subrange(0, root_ids@.len() as int) =~= root_ids@);
        assert(terminal_ids@.subrange(0, 0) =~= Seq::<u16>::empty());
        assert forall|x: int| 0 <= x < n implies used@[x] == (used0[x] || has(p, x) || has(root_ids@, x)
            || has(terminal_ids@.subrange(0, 0), x)) by {
            assert(has(root_ids@.subrange(0, root_ids@.len() as int), x) == has(root_ids@, x));
            assert(has(terminal_ids@.subrange(0, 0), x) == false);
        }
        let mut t: usize = 0;
        while t < terminal_ids.len()
            invariant
                t <= terminal_ids@.len(),
                used@.len() == n,
                n == topo.num_nodes,
                n < 65535,
                used0.len() == n,
                forall|k: int| 0 <= k < terminal_ids@.len() ==> (#[trigger] terminal_ids@[k]) < n,
                forall|x: int| 0 <= x < n ==> #[trigger] used@[x] == (used0[x] || has(p, x) || has(root_ids@, x)
                    || has(terminal_ids@.subrange(0, t as int), x)),
            decreases terminal_ids@.len() - t,
        {
            let tid = terminal_ids[t];
            let ghost before = used@;
            used.set(tid as usize, true);
            proof {
                assert(used@ == before.update(tid as int, true));
                lemma_has_push(terminal_ids@.subrange(0, t as int), tid);
                assert(terminal_ids@.subrange(0, t + 1) =~= terminal_ids@.subrange(0, t as int).push(tid));
                assert forall|x: int| 0 <= x < n implies used@[x] == (used0[x] || has(p, x) || has(root_ids@, x)
                    || has(terminal_ids@.subrange(0, t + 1), x)) by {
                    assert(has(terminal_ids@.subrange(0, t as int).push(tid), x) == has(terminal_ids@.subrange(0, t + 1), x));
                    if x == tid as int {
                        let w = terminal_ids@.subrange(0, t + 1);
                        assert(w[t as int] as int == x);
                        assert(has(w, x));
                    } else {
                        assert(used@[x] == before[x]);
                        assert(before[x] == (used0[x] || has(p, x) || has(root_ids@, x) || has(terminal_ids@.subrange(0, t as int), x)));
                        assert(has(terminal_ids@.subrange(0, t + 1), x) == has(terminal_ids@.subrange(0, t as int), x));
                    }
                }
            }
            t += 1;
        }
        proof {
            assert(terminal_ids@.subrange(0, terminal_ids@.len() as int) =~= terminal_ids@);
            assert forall|x: int| 0 <= x < n implies used@[x] == marked(used0, p, root_ids@, terminal_ids@)[x] by {
                assert(has(terminal_ids@.subrange(0, terminal_ids@.len() as int), x) == has(terminal_ids@, x));
            }
            assert(used@ =~= marked(used0, p, root_ids@, terminal_ids@));
        }
    }

    /// A* from the first root to the nearest ready, unused magic node.
    /// Each `terminal_ids[i]` belongs to `root_ids[i]`. When a route is found,
    /// its nodes, the roots and the terminals are marked used and `PathFound`
    /// is returned; otherwise `used` is left alone and `NoPath` is returned.
    /// `ready_magic_positions` (sorted by x) guide the search towards the
    /// nearest ready magic state.
    pub fn compute(
        &mut self, terminal_ids: &[u16], root_ids: &[u16], topo: &TopoGraph, used: &mut Vec<bool>,
        ready_magic_positions: &[(i32, i32)],
    ) -> (r: PathResult)
        requires
            old(self).wf(topo.num_nodes as nat),
            old(self).calls() < usize::MAX,
            topo.wf(),
            old(used)@.len() == topo.num_nodes,
            root_ids@.len() > 0,
            forall|i: int| 0 <= i < root_ids@.len() ==> (#[trigger] root_ids@[i]) < topo.num_nodes,
            forall|i: int| 0 <= i < terminal_ids@.len() ==> (#[trigger] terminal_ids@[i]) < topo.num_nodes,
            !old(used)@[root_ids@[0] as int],
            ready_magic_positions@.len() > 0,
            sorted_by_x(ready_magic_positions@),
            forall|i: int| 0 <= i < ready_magic_positions@.len() ==> pos_ok(#[trigger] ready_magic_positions@[i]),
        ensures
            final(self).wf(topo.num_nodes as nat),
            final(self).calls() == old(self).calls() + 1,
            r == PathResult::NoPath ==> final(used)@ == old(used)@ && !goal_reachable(topo, old(used)@, root_ids@[0]),
            r == PathResult::PathFound ==> exists|p: Seq<u16>| #[trigger] is_route(topo, old(used)@, p, root_ids@[0])
                && final(used)@ == marked(old(used)@, p, root_ids@, terminal_ids@),
    {
        let ghost n = topo.num_nodes;
        let ghost used0 = used@;
        self.num_calls = self.num_calls + 1;
        if self.epoch == u32::MAX {
            let mut k: usize = 0;
            while k < self.node_epoch.len()
                invariant
                    k <= self.node_epoch@.len(),
                    self.node_epoch@.len() == n,
                    self.closed_epoch@.len() == n,
                    self.parent@.len() == n,
                    self.g_cost@.len() == n,
                    self.buckets@.len() == BUCKET_COUNT,
                    self.num_calls == old(self).num_calls + 1,
                    forall|v: int| 0 <= v < k ==> self.node_epoch@[v] == 0 && self.closed_epoch@[v] == 0,
                decreases self.node_epoch@.len() - k,
            {
                self.node_epoch.set(k, 0);
                self.closed_epoch.set(k, 0);
                k += 1;
            }
            self.epoch = 1;
            assert(forall|v: int| 0 <= v < n ==> #[trigger] self.node_epoch@[v] < self.epoch && self.closed_epoch@[v] < self.epoch);
        } else {
            self.epoch = self.epoch + 1;
            assert forall|v: int| 0 <= v < n implies #[trigger] self.node_epoch@[v] < self.epoch && self.closed_epoch@[v] < self.epoch by {
                assert(old(self).node_epoch@[v] <= old(self).epoch);
            }
        }
        let epoch = self.epoch;
        assert(forall|v: int| 0 <= v < n ==> #[trigger] self.node_epoch@[v] < epoch && self.closed_epoch@[v] < epoch);
        assert forall|v: int| 0 <= v < n implies #[trigger] self.closed_epoch@[v] < epoch by {
            assert(self.node_epoch@[v] < epoch);
        }

        self.bucket_clear();

        let root_id = root_ids[0];
        self.g_cost.set(root_id as usize, 0);
        self.parent.set(root_id as usize, NO_PARENT);
        self.node_epoch.set(root_id as usize, epoch);
        let root_pos = topo.get_node(root_id).pos;
        let (h, ready_idx) = Self::heuristic(root_pos, ready_magic_positions);
        let ghost before_push = self.buckets@;
        self.bucket_push(h, root_id);
        let ready_pos = ready_magic_positions[ready_idx];
        proof {
            lemma_count_eq_none(self.closed_epoch@, epoch);
            assert forall|x: u16| #[trigger] in_buckets(self.buckets@, x) implies self.discovered(x as int) by {
                let (k, j) = choose|k: int, j: int| 0 <= k < self.buckets@.len() && 0 <= j < self.buckets@[k]@.len() && #[trigger] self.buckets@[k]@[j] == x;
                assert(before_push[k]@.len() == 0);
                if k == (h as int) % 256 {
                    assert(self.buckets@[k]@ == before_push[k]@.push(root_id));
                    assert(x == root_id);
                }
            }
            assert forall|v: int| 0 <= v < n && #[trigger] self.discovered(v) implies v == root_id as int by {}
            assert(self.search_inv(topo, used0, root_id, -1, 0));
            assert forall|v: int| 0 <= v < n && #[trigger] self.discovered(v) && !self.closed(v)
                implies queued_in(self.buckets@, (self.g_cost@[v] + sat(mdist(topo.nodes@[v].pos, ready_pos))) % 256, v as u16) by {
                assert(v == root_id as int);
                let k = (h as int) % 256;
                assert(sat(mdist(topo.nodes@[v].pos, ready_pos)) == h);
                let last = self.buckets@[k]@.len() - 1;
                assert(self.buckets@[k]@[last] == root_id);
            }
            assert(self.keyed(topo, ready_pos));
        }

        loop
            invariant
                self.search_inv(topo, used0, root_id, -1, 0),
                self.keyed(topo, ready_pos),
                self.epoch == epoch,
                root_ids@.len() > 0,
                used@ == used0,
                used0 == old(used)@,
                n == topo.num_nodes,
                root_id == root_ids@[0],
                self.num_calls == old(self).num_calls + 1,
                pos_ok(ready_pos),
                forall|i: int| 0 <= i < root_ids@.len() ==> (#[trigger] root_ids@[i]) < n,
                forall|i: int| 0 <= i < terminal_ids@.len() ==> (#[trigger] terminal_ids@[i]) < n,
            decreases n - count_eq(self.closed_epoch@, self.epoch),
        {
            let ghost count0 = count_eq(self.closed_epoch@, epoch);
            proof {
                lemma_count_eq_bound(self.closed_epoch@, epoch);
            }
            let ghost pre_pop = *self;
            let popped = self.bucket_pop(epoch);
            match popped {
                None => {
                    proof {
                        pre_pop.lemma_exhausted(topo, used0, root_id);
                    }
                    return PathResult::NoPath;
                },
                Some(node_id) => {
                    let ghost before_close = *self;
                    self.closed_epoch.set(node_id as usize, epoch);
                    proof {
                        self.lemma_after_close(pre_pop, before_close, topo, used0, root_id, node_id);
                        assert forall|v: int| 0 <= v < n && #[trigger] self.discovered(v) && !self.closed(v)
                            implies queued_in(self.buckets@, (self.g_cost@[v] + sat(mdist(topo.nodes@[v].pos, ready_pos))) % 256, v as u16) by {
                            let k = (self.g_cost@[v] + sat(mdist(topo.nodes@[v].pos, ready_pos))) % 256;
                            assert(v != node_id as int);
                            assert(pre_pop.discovered(v));
                            assert(!pre_pop.closed(v));
                            assert(queued_in(pre_pop.buckets@, k, v as u16));
                        }
                        assert(self.keyed(topo, ready_pos));
                    }
                    let node_type = topo.get_node(node_id).node_type;
                    let cultivation_time = topo.cultivation_times[node_id as usize];
                    let num_nbors = topo.get_node(node_id).num_nbors as usize;
                    if node_type == NodeType::Magic && cultivation_time == 0 && !used[node_id as usize] {
                        self.finish_path(node_id, root_ids, terminal_ids, topo, used);
                        return PathResult::PathFound;
                    }
                    if !topo.use_magic_routing && node_type == NodeType::Magic {
                        proof {
                            assert(self.search_inv(topo, used0, root_id, -1, 0));
                        }
                    } else {
                        proof {
                            assert(self.search_inv(topo, used0, root_id, node_id as int, 0));
                        }
                        let found = self.expand(node_id, num_nbors, root_ids, terminal_ids, topo, used, ready_pos);
                        if found {
                            return PathResult::PathFound;
                        }
                    }
                },
            }
        }
    }

    /// Expands `node_id`: reaches each open neighbour at a lower cost than it
    /// had, and stops at once on a neighbour that holds a ready magic state,
    /// marking the route found (then it returns true).
    fn expand(
        &mut self, node_id: u16, num_nbors: usize, root_ids: &[u16], terminal_ids: &[u16], topo: &TopoGraph,
        used: &mut Vec<bool>, ready_pos: (i32, i32),
    ) -> (found: bool)
        requires
            root_ids@.len() > 0,
            old(self).search_inv(topo, old(used)@, root_ids@[0], node_id as int, 0),
            (node_id as int) < topo.num_nodes,
            old(self).closed(node_id as int),
            expands(topo, node_id as int),
            num_nbors == topo.nodes@[node_id as int].num_nbors,
            old(self).g_cost@[node_id as int] + 1 <= count_eq(old(self).closed_epoch@, old(self).epoch),
            forall|i: int| 0 <= i < root_ids@.len() ==> (#[trigger] root_ids@[i]) < topo.num_nodes,
            forall|i: int| 0 <= i < terminal_ids@.len() ==> (#[trigger] terminal_ids@[i]) < topo.num_nodes,
            pos_ok(ready_pos),
            old(self).keyed(topo, ready_pos),
        ensures
            final(self).epoch == old(self).epoch,
            final(self).num_calls == old(self).num_calls,
            final(self).closed_epoch == old(self).closed_epoch,
            final(self).wf(topo.num_nodes as nat),
            found ==> exists|p: Seq<u16>| #[trigger] is_route(topo, old(used)@, p, root_ids@[0])
                && final(used)@ == marked(old(used)@, p, root_ids@, terminal_ids@),
            !found ==> final(used)@ == old(used)@ && final(self).search_inv(topo, old(used)@, root_ids@[0], -1, 0),
            !found ==> final(self).keyed(topo, ready_pos),
            !found ==> forall|v: int| 0 <= v < topo.num_nodes && final(self).node_epoch@[v] == final(self).epoch
                && final(self).closed_epoch@[v] != final(self).epoch ==> #[trigger] queued_in(final(self).buckets@,
                    (final(self).g_cost@[v] + sat(mdist(topo.nodes@[v].pos, ready_pos))) % 256, v as u16),
    {
        let ghost n = topo.num_nodes;
        let ghost used0 = used@;
        let ghost root = root_ids@[0];
        let epoch = self.epoch;
        let g = self.g_cost[node_id as usize];
        let mut i: usize = 0;
        while i < num_nbors
            invariant
                self.search_inv(topo, used0, root, node_id as int, i as int),
                self.keyed(topo, ready_pos),
                i <= num_nbors,
                num_nbors == topo.nodes@[node_id as int].num_nbors,
                self.epoch == epoch,
                epoch == old(self).epoch,
                used0 == old(used)@,
                root_ids@.len() > 0,
                self.num_calls == old(self).num_calls,
                self.closed_epoch == old(self).closed_epoch,
                used@ == used0,
                n == topo.num_nodes,
                root == root_ids@[0],
                (node_id as int) < n,
                self.closed(node_id as int),
                expands(topo, node_id as int),
                g == self.g_cost@[node_id as int],
                g + 1 <= count_eq(self.closed_epoch@, self.epoch),
                pos_ok(ready_pos),
                forall|k: int| 0 <= k < root_ids@.len() ==> (#[trigger] root_ids@[k]) < n,
                forall|k: int| 0 <= k < terminal_ids@.len() ==> (#[trigger] terminal_ids@[k]) < n,
            decreases num_nbors - i,
        {
            proof {
                lemma_count_eq_bound(self.closed_epoch@, epoch);
                assert(topo.nodes@[node_id as int].wf());
            }
            let nb_id = topo.get_node(node_id).nbors[i];
            proof {
                assert(crate::topograph::node_ok(topo.nodes@[node_id as int], node_id as int, topo.num_nodes, topo.use_magic_routing));
                assert(topo.nodes@[node_id as int].nbors@[i as int] < n);
                assert(topo.nbrs(node_id as int)[i as int] == nb_id);
                assert(has(topo.nbrs(node_id as int), nb_id as int));
            }
            let ghost pre = *self;
            if !used[nb_id as usize] && self.closed_epoch[nb_id as usize] != epoch {
                let nb_type = topo.get_node(nb_id).node_type;
                let nb_cultivation = topo.cultivation_times[nb_id as usize];
                let nb_pos = topo.get_node(nb_id).pos;
                if nb_type != NodeType::Data {
                    if nb_type == NodeType::Magic && nb_cultivation == 0 {
                        self.parent.set(nb_id as usize, node_id);
                        self.node_epoch.set(nb_id as usize, epoch);
                        proof {
                            assert(step(topo, used0, node_id as int, nb_id as int));
                            assert forall|v: int| 0 <= v < n && v != nb_id && #[trigger] self.discovered(v)
                                implies self.tree_ok(topo, used0, root, v) by {
                                assert(pre.discovered(v));
                                assert(pre.tree_ok(topo, used0, root, v));
                                assert(self.parent@[v] == pre.parent@[v]);
                            }
                            assert forall|v: int| 0 <= v < n && v != nb_id && #[trigger] self.discovered(v)
                                implies self.g_cost@[v] < 65535 by {
                                assert(pre.discovered(v));
                            }
                            assert forall|v: int| 0 <= v < n && #[trigger] self.closed(v) implies self.discovered(v) by {
                                assert(pre.closed(v));
                            }
                            assert(nb_id != root) by {
                                assert(pre.closed(root as int));
                            }
                            assert forall|v: int| 0 <= v < n implies #[trigger] self.node_epoch@[v] <= self.epoch && self.closed_epoch@[v] <= self.epoch by {
                                assert(pre.node_epoch@[v] <= pre.epoch);
                            }
                            assert(self.wf(n as nat));
                        }
                        self.finish_path(nb_id, root_ids, terminal_ids, topo, used);
                        return true;
                    }
                    let new_g = g + 1;
                    let nb_g = if self.node_epoch[nb_id as usize] == epoch { self.g_cost[nb_id as usize] } else { u32::MAX };
                    if new_g < nb_g {
                        self.g_cost.set(nb_id as usize, new_g);
                        self.parent.set(nb_id as usize, node_id);
                        self.node_epoch.set(nb_id as usize, epoch);
                        let h = Self::manhattan_dist(nb_pos, ready_pos);
                        proof {
                            assert(crate::topograph::node_ok(topo.nodes@[nb_id as int], nb_id as int, topo.num_nodes, topo.use_magic_routing));
                        }
                        let ghost mid = *self;
                        self.bucket_push(new_g + h, nb_id);
                        proof {
                            self.lemma_after_reach(pre, mid, topo, used0, root, node_id, nb_id, i as int);
                            self.lemma_keyed_after_reach(pre, topo, ready_pos, nb_id, (new_g + h) as u32);
                        }
                    } else {
                        proof {
                            assert(pre.discovered(nb_id as int));
                            pre.lemma_frontier_extend(topo, used0, root, node_id, i as int);
                        }
                    }
                } else {
                    proof {
                        assert(topo.kind(nb_id as int) == NodeType::Data);
                        pre.lemma_frontier_extend(topo, used0, root, node_id, i as int);
                    }
                }
            } else {
                proof {
                    if !used0[nb_id as int] {
                        assert(pre.closed(nb_id as int));
                        assert(pre.discovered(nb_id as int));
                    }
                    pre.lemma_frontier_extend(topo, used0, root, node_id, i as int);
                }
            }
            i += 1;
        }
        proof {
            assert forall|v: int| 0 <= v < topo.num_nodes && self.node_epoch@[v] == self.epoch
                && self.closed_epoch@[v] != self.epoch implies #[trigger] queued_in(self.buckets@,
                    (self.g_cost@[v] + sat(mdist(topo.nodes@[v].pos, ready_pos))) % 256, v as u16) by {
                assert(self.discovered(v));
            }
        }
        false
    }

    /// Extending the expansion of `cur` by neighbour `i`, when that neighbour
    /// is blocked or already reached, keeps the search invariant.
    proof fn lemma_frontier_extend(&self, topo: &TopoGraph, used: Seq<bool>, root: u16, cur: u16, i: int)
        requires
            self.search_inv(topo, used, root, cur as int, i),
            0 <= i < topo.nodes@[cur as int].num_nbors,
            (cur as int) < topo.num_nodes,
            blocked(topo, used, topo.nodes@[cur as int].nbors@[i] as int) || self.discovered(topo.nodes@[cur as int].nbors@[i] as int),
        ensures
            self.search_inv(topo, used, root, cur as int, i + 1),
    {
        assert forall|j: int| 0 <= j < i + 1 && j < topo.nodes@[cur as int].num_nbors implies
            (!blocked(topo, used, #[trigger] topo.nodes@[cur as int].nbors@[j] as int) ==> self.discovered(topo.nodes@[cur as int].nbors@[j] as int)) by {
            if j < i {
                assert(self.frontier_done(topo, used, cur as int, i));
            }
        }
    }

    /// Reaching neighbour `nb` of `cur` (cost, parent and stamp set in `mid`,
    /// then pushed into the queue in `self`) keeps the search invariant.
    proof fn lemma_after_reach(&self, pre: Self, mid: Self, topo: &TopoGraph, used: Seq<bool>, root: u16, cur: u16, nb: u16, i: int)
        requires
            pre.search_inv(topo, used, root, cur as int, i),
            0 <= i < topo.nodes@[cur as int].num_nbors,
            (cur as int) < topo.num_nodes,
            (nb as int) < topo.num_nodes,
            topo.nodes@[cur as int].nbors@[i] == nb,
            has(topo.nbrs(cur as int), nb as int),
            pre.closed(cur as int),
            expands(topo, cur as int),
            !blocked(topo, used, nb as int),
            !pre.closed(nb as int),
            pre.g_cost@[cur as int] + 1 <= count_eq(pre.closed_epoch@, pre.epoch),
            mid.g_cost@ == pre.g_cost@.update(nb as int, (pre.g_cost@[cur as int] + 1) as u32),
            mid.parent@ == pre.parent@.update(nb as int, cur),
            mid.node_epoch@ == pre.node_epoch@.update(nb as int, pre.epoch),
            mid.closed_epoch == pre.closed_epoch,
            mid.epoch == pre.epoch,
            mid.buckets == pre.buckets,
            mid.bucket_min == pre.bucket_min,
            self.queue_ok(self.closed_epoch@.len()),
            self.parent == mid.parent,
            self.g_cost == mid.g_cost,
            self.node_epoch == mid.node_epoch,
            self.closed_epoch == mid.closed_epoch,
            self.epoch == mid.epoch,
            in_buckets(self.buckets@, nb),
            forall|v: u16| in_buckets(mid.buckets@, v) ==> in_buckets(self.buckets@, v),
            forall|v: u16| in_buckets(self.buckets@, v) ==> in_buckets(mid.buckets@, v) || v == nb,
        ensures
            self.search_inv(topo, used, root, cur as int, i + 1),
    {
        let n = topo.num_nodes;
        lemma_count_eq_bound(pre.closed_epoch@, pre.epoch);
        assert(pre.closed(root as int));
        assert(nb != root);
        assert(cur != nb);
        assert(self.wf(n as nat)) by {
            assert forall|v: int| 0 <= v < n implies #[trigger] self.node_epoch@[v] <= self.epoch && self.closed_epoch@[v] <= self.epoch by {
                assert(pre.node_epoch@[v] <= pre.epoch);
            }
        }
        assert forall|v: int| 0 <= v < n && #[trigger] self.closed(v) implies self.discovered(v) by {
            assert(pre.closed(v));
        }
        assert forall|v: int| 0 <= v < n && #[trigger] self.discovered(v) implies self.tree_ok(topo, used, root, v) by {
            if v != nb as int {
                assert(pre.discovered(v));
                assert(pre.tree_ok(topo, used, root, v));
                assert(self.parent@[v] == pre.parent@[v]);
                assert(self.g_cost@[v] == pre.g_cost@[v]);
                if v != root as int {
                    let u = pre.parent@[v] as int;
                    assert(pre.closed(u));
                    assert(u != nb as int);
                    assert(self.g_cost@[u] == pre.g_cost@[u]);
                    assert(self.closed(u));
                }
            } else {
                assert(step(topo, used, cur as int, nb as int));
                assert(self.parent@[v] == cur);
                assert(self.g_cost@[cur as int] == pre.g_cost@[cur as int]);
                assert(self.closed(cur as int));
            }
        }
        assert forall|v: int| 0 <= v < n && #[trigger] self.discovered(v) implies self.g_cost@[v] <= count_eq(self.closed_epoch@, self.epoch) by {
            if v != nb as int {
                assert(pre.discovered(v));
            }
        }
        assert forall|v: int| 0 <= v < n && #[trigger] self.closed(v) implies !is_goal(topo, used, v) by {
            assert(pre.closed(v));
        }
        assert forall|v: int| 0 <= v < n && #[trigger] self.discovered(v) && !self.closed(v) implies in_buckets(self.buckets@, v as u16) by {
            if v != nb as int {
                assert(pre.discovered(v));
                assert(in_buckets(pre.buckets@, v as u16));
            }
        }
        assert forall|x: u16| #[trigger] in_buckets(self.buckets@, x) implies self.discovered(x as int) by {
            if x != nb {
                assert(in_buckets(pre.buckets@, x));
                assert(pre.discovered(x as int));
            }
        }
        assert forall|u: int| 0 <= u < n && u != cur as int && #[trigger] self.closed(u) && expands(topo, u) implies self.frontier_done(topo, used, u, MAX_NBORS as int) by {
            assert(pre.closed(u));
            assert(pre.frontier_done(topo, used, u, MAX_NBORS as int));
            assert forall|j: int| 0 <= j < MAX_NBORS as int && j < topo.nodes@[u].num_nbors implies
                (!blocked(topo, used, #[trigger] topo.nodes@[u].nbors@[j] as int) ==> self.discovered(topo.nodes@[u].nbors@[j] as int)) by {
                let w = topo.nodes@[u].nbors@[j] as int;
                if !blocked(topo, used, w) {
                    assert(pre.discovered(w));
                }
            }
        }
        assert forall|j: int| 0 <= j < i + 1 && j < topo.nodes@[cur as int].num_nbors implies
            (!blocked(topo, used, #[trigger] topo.nodes@[cur as int].nbors@[j] as int) ==> self.discovered(topo.nodes@[cur as int].nbors@[j] as int)) by {
            let w = topo.nodes@[cur as int].nbors@[j] as int;
            if j < i && !blocked(topo, used, w) {
                assert(pre.frontier_done(topo, used, cur as int, i));
                assert(pre.discovered(w));
            }
        }
    }

    /// Closing the popped node `v` (`pre` before the pop, `mid` after it,
    /// `self` after the close) keeps the search invariant with `v` as the
    /// node under expansion, provided `v` is no goal.
    proof fn lemma_after_close(&self, pre: Self, mid: Self, topo: &TopoGraph, used: Seq<bool>, root: u16, v: u16)
        requires
            pre.search_inv(topo, used, root, -1, 0),
            in_buckets(pre.buckets@, v),
            !pre.closed(v as int),
            mid.queue_ok(mid.closed_epoch@.len()),
            mid.parent == pre.parent,
            mid.g_cost == pre.g_cost,
            mid.node_epoch == pre.node_epoch,
            mid.closed_epoch == pre.closed_epoch,
            mid.epoch == pre.epoch,
            forall|x: u16| in_buckets(mid.buckets@, x) ==> in_buckets(pre.buckets@, x),
            forall|x: u16| in_buckets(pre.buckets@, x) && pre.closed_epoch@[x as int] != pre.epoch && x != v
                ==> in_buckets(mid.buckets@, x),
            self.parent == mid.parent,
            self.g_cost == mid.g_cost,
            self.node_epoch == mid.node_epoch,
            self.epoch == mid.epoch,
            self.buckets == mid.buckets,
            self.bucket_min == mid.bucket_min,
            self.closed_epoch@ == mid.closed_epoch@.update(v as int, mid.epoch),
        ensures
            count_eq(self.closed_epoch@, self.epoch) == count_eq(pre.closed_epoch@, pre.epoch) + 1,
            count_eq(self.closed_epoch@, self.epoch) <= topo.num_nodes,
            self.wf(topo.num_nodes as nat),
            self.discovered(v as int),
            self.closed(v as int),
            self.g_cost@[v as int] + 1 <= count_eq(self.closed_epoch@, self.epoch),
            forall|w: int| 0 <= w < topo.num_nodes && #[trigger] self.closed(w) ==> self.discovered(w),
            forall|w: int| 0 <= w < topo.num_nodes && #[trigger] self.discovered(w) ==> self.tree_ok(topo, used, root, w),
            forall|w: int| 0 <= w < topo.num_nodes && #[trigger] self.discovered(w) ==> self.g_cost@[w] < 65535,
            !is_goal(topo, used, v as int) ==> self.search_inv(topo, used, root, v as int, 0),
            !is_goal(topo, used, v as int) && !expands(topo, v as int) ==> self.search_inv(topo, used, root, -1, 0),
    {
        let n = topo.num_nodes;
        let e = pre.epoch;
        let count0 = count_eq(pre.closed_epoch@, e);
        assert(pre.discovered(v as int));
        if count0 == 0 && v != root {
            assert(pre.tree_ok(topo, used, root, v as int));
            lemma_count_eq_zero(pre.closed_epoch@, e);
        }
        lemma_count_eq_update(pre.closed_epoch@, v as int, e);
        lemma_count_eq_bound(self.closed_epoch@, e);
        lemma_count_eq_bound(pre.closed_epoch@, e);
        assert(self.wf(n as nat)) by {
            assert forall|w: int| 0 <= w < n implies #[trigger] self.node_epoch@[w] <= self.epoch && self.closed_epoch@[w] <= self.epoch by {
                assert(pre.node_epoch@[w] <= pre.epoch);
            }
        }
        assert forall|w: int| 0 <= w < n && #[trigger] self.closed(w) implies self.discovered(w) by {
            if w != v as int {
                assert(pre.closed(w));
            }
        }
        assert forall|w: int| 0 <= w < n && #[trigger] self.discovered(w) implies self.tree_ok(topo, used, root, w) by {
            assert(pre.discovered(w));
            assert(pre.tree_ok(topo, used, root, w));
            if w != root as int {
                let u = pre.parent@[w] as int;
                assert(pre.closed(u));
                assert(self.closed(u));
            }
        }
        assert forall|w: int| 0 <= w < n && #[trigger] self.discovered(w) implies self.g_cost@[w] <= count_eq(self.closed_epoch@, self.epoch) by {
            assert(pre.discovered(w));
        }
        assert forall|w: int| 0 <= w < n && #[trigger] self.discovered(w) && !self.closed(w) implies in_buckets(self.buckets@, w as u16) by {
            assert(pre.discovered(w));
            assert(in_buckets(pre.buckets@, w as u16));
        }
        assert forall|x: u16| #[trigger] in_buckets(self.buckets@, x) implies self.discovered(x as int) by {
            assert(in_buckets(pre.buckets@, x));
            assert(pre.discovered(x as int));
        }
        assert forall|u: int| 0 <= u < n && u != v as int && #[trigger] self.closed(u) && expands(topo, u)
            implies self.frontier_done(topo, used, u, MAX_NBORS as int) by {
            assert(pre.closed(u));
            assert(pre.frontier_done(topo, used, u, MAX_NBORS as int));
            assert forall|j: int| 0 <= j < MAX_NBORS as int && j < topo.nodes@[u].num_nbors implies
                (!blocked(topo, used, #[trigger] topo.nodes@[u].nbors@[j] as int) ==> self.discovered(topo.nodes@[u].nbors@[j] as int)) by {
                let w = topo.nodes@[u].nbors@[j] as int;
                if !blocked(topo, used, w) {
                    assert(pre.discovered(w));
                }
            }
        }
        if !is_goal(topo, used, v as int) {
            assert forall|w: int| 0 <= w < n && #[trigger] self.closed(w) implies !is_goal(topo, used, w) by {
                if w != v as int {
                    assert(pre.closed(w));
                }
            }
            assert(self.search_inv(topo, used, root, v as int, 0));
        }
    }

    /// When the queue runs dry, every reached node was expanded, the expanded
    /// nodes are closed under steps and hold no goal, so no route exists.
    proof fn lemma_exhausted(&self, topo: &TopoGraph, used: Seq<bool>, root: u16)
        requires
            self.search_inv(topo, used, root, -1, 0),
            forall|x: u16| in_buckets(self.buckets@, x) ==> self.closed_epoch@[x as int] == self.epoch,
        ensures
            !goal_reachable(topo, used, root),
    {
        let n = topo.num_nodes;
        let inside = |v: int| 0 <= v < n && self.closed_epoch@[v] == self.epoch;
        assert(inside(root as int)) by {
            if !self.closed(root as int) {
                assert(in_buckets(self.buckets@, root));
            }
        }
        assert forall|u: int, v: int| #[trigger] inside(u) && step(topo, used, u, v) implies #[trigger] inside(v) by {
            assert(self.closed(u));
            assert(self.frontier_done(topo, used, u, MAX_NBORS as int));
            let k = choose|k: int| 0 <= k < topo.nbrs(u).len() && #[trigger] topo.nbrs(u)[k] as int == v;
            assert(topo.nodes@[u].nbors@[k] as int == v);
            assert(self.discovered(v));
            if !self.closed(v) {
                assert(in_buckets(self.buckets@, v as u16));
            }
        }
        assert forall|v: int| 0 <= v < n && #[trigger] inside(v) implies !is_goal(topo, used, v) by {
            assert(self.closed(v));
        }
        lemma_closed_set_blocks_routes(topo, used, root, inside);
    }
}


impl AStarComputation {
    /// The plotting form of `compute`: runs the same search but leaves `used`
    /// alone, and when a route is found returns the node flags the route tree
    /// covers (those already used, the route's nodes, the roots and the
    /// terminals); `None` when no ready magic state can be reached.
    pub fn compute_tree(
        &mut self, terminal_ids: &[u16], root_ids: &[u16], topo: &TopoGraph, used: &Vec<bool>,
        ready_magic_positions: &[(i32, i32)],
    ) -> (r: Option<Vec<bool>>)
        requires
            old(self).wf(topo.num_nodes as nat),
            old(self).calls() < usize::MAX,
            topo.wf(),
            used@.len() == topo.num_nodes,
            root_ids@.len() > 0,
            forall|i: int| 0 <= i < root_ids@.len() ==> (#[trigger] root_ids@[i]) < topo.num_nodes,
            forall|i: int| 0 <= i < terminal_ids@.len() ==> (#[trigger] terminal_ids@[i]) < topo.num_nodes,
            !used@[root_ids@[0] as int],
            ready_magic_positions@.len() > 0,
            sorted_by_x(ready_magic_positions@),
            forall|i: int| 0 <= i < ready_magic_positions@.len() ==> pos_ok(#[trigger] ready_magic_positions@[i]),
        ensures
            final(self).wf(topo.num_nodes as nat),
            final(self).calls() == old(self).calls() + 1,
            r is None ==> !goal_reachable(topo, used@, root_ids@[0]),
            r matches Some(m) ==> exists|p: Seq<u16>| #[trigger] is_route(topo, used@, p, root_ids@[0])
                && m@ == marked(used@, p, root_ids@, terminal_ids@),
    {
        let mut scratch: Vec<bool> = Vec::new();
        let mut k: usize = 0;
        while k < used.len()
            invariant
                k <= used@.len(),
                scratch@ == used@.take(k as int),
            decreases used@.len() - k,
        {
            scratch.push(used[k]);
            assert(scratch@ =~= used@.take(k as int + 1));
            k += 1;
        }
        assert(scratch@ =~= used@);
        match self.compute(terminal_ids, root_ids, topo, &mut scratch, ready_magic_positions) {
            PathResult::PathFound => Some(scratch),
            PathResult::NoPath => None,
        }
    }
}

} // verus!
