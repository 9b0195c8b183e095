//! What a route through the layout graph is: the relation the path searches
//! walk along, and what they mark as used once they find one.
use vstd::prelude::*;
use crate::node::NodeType;
use crate::topograph::TopoGraph;

verus! {

/// `s` holds the node `x`.
pub open spec fn has(s: Seq<u16>, x: int) -> bool {
    exists|k: int| 0 <= k < s.len() && #[trigger] s[k] as int == x
}

/// Appending `a` adds exactly `a` to what a sequence holds.
pub proof fn lemma_has_push(s: Seq<u16>, a: u16)
    ensures
        forall|x: int| has(s.push(a), x) <==> (has(s, x) || x == a as int),
{
    assert forall|x: int| has(s.push(a), x) <==> (has(s, x) || x == a as int) by {
        if has(s.push(a), x) {
            let k = choose|k: int| 0 <= k < s.push(a).len() && #[trigger] s.push(a)[k] as int == x;
            if k < s.len() {
                assert(s[k] as int == x);
            }
        }
        if has(s, x) {
            let k = choose|k: int| 0 <= k < s.len() && #[trigger] s[k] as int == x;
            assert(s.push(a)[k] as int == x);
        }
        if x == a as int {
            assert(s.push(a)[s.len() as int] as int == x);
        }
    }
}

/// Prepending `a` adds exactly `a` to what a sequence holds.
pub proof fn lemma_has_prepend(s: Seq<u16>, a: u16)
    ensures
        forall|x: int| has(seq![a] + s, x) <==> (has(s, x) || x == a as int),
{
    let q = seq![a] + s;
    assert forall|x: int| has(q, x) <==> (has(s, x) || x == a as int) by {
        if has(q, x) {
            let k = choose|k: int| 0 <= k < q.len() && #[trigger] q[k] as int == x;
            if k > 0 {
                assert(s[k - 1] as int == x);
            }
        }
        if has(s, x) {
            let k = choose|k: int| 0 <= k < s.len() && #[trigger] s[k] as int == x;
            assert(q[k + 1] as int == x);
        }
        if x == a as int {
            assert(q[0] as int == x);
        }
    }
}

/// A node that no route may step onto: already used, or a data node.
pub open spec fn blocked(topo: &TopoGraph, used: Seq<bool>, v: int) -> bool {
    used[v] || topo.kind(v) == NodeType::Data
}

/// A route ends at a magic node whose magic state is ready and that is not used.
pub open spec fn is_goal(topo: &TopoGraph, used: Seq<bool>, v: int) -> bool {
    &&& topo.kind(v) == NodeType::Magic
    &&& topo.cultivation_times@[v] == 0
    &&& !used[v]
}

/// A route may continue from `u`: magic nodes are routing intermediaries only
/// in magic-routing mode.
pub open spec fn expands(topo: &TopoGraph, u: int) -> bool {
    topo.use_magic_routing || topo.kind(u) != NodeType::Magic
}

/// One step of a route, from `u` to its neighbour `v`.
pub open spec fn step(topo: &TopoGraph, used: Seq<bool>, u: int, v: int) -> bool {
    &&& 0 <= u < topo.num_nodes
    &&& 0 <= v < topo.num_nodes
    &&& expands(topo, u)
    &&& has(topo.nbrs(u), v)
    &&& !blocked(topo, used, v)
}

/// `p` is a route from `root` to a ready, unused magic node.
pub open spec fn is_route(topo: &TopoGraph, used: Seq<bool>, p: Seq<u16>, root: u16) -> bool {
    &&& p.len() > 0
    &&& p[0] == root
    &&& (p.last() as int) < topo.num_nodes
    &&& is_goal(topo, used, p.last() as int)
    &&& forall|i: int| 0 <= i < p.len() - 1 ==> #[trigger] step(topo, used, p[i] as int, p[i + 1] as int)
}

/// Some route leads from `root` to a ready, unused magic node.
pub open spec fn goal_reachable(topo: &TopoGraph, used: Seq<bool>, root: u16) -> bool {
    exists|p: Seq<u16>| is_route(topo, used, p, root)
}

/// `used` after the nodes of `p`, the roots and the terminals are marked.
pub open spec fn marked(used: Seq<bool>, p: Seq<u16>, roots: Seq<u16>, terminals: Seq<u16>) -> Seq<bool> {
    Seq::new(used.len(), |x: int| used[x] || has(p, x) || has(roots, x) || has(terminals, x))
}

/// If a set of nodes holds `root`, is closed under steps and holds no goal,
/// then no route leaves `root`.
pub proof fn lemma_closed_set_blocks_routes(topo: &TopoGraph, used: Seq<bool>, root: u16, inside: spec_fn(int) -> bool)
    requires
        inside(root as int),
        forall|u: int, v: int| #[trigger] inside(u) && step(topo, used, u, v) ==> #[trigger] inside(v),
        forall|v: int| 0 <= v < topo.num_nodes && #[trigger] inside(v) ==> !is_goal(topo, used, v),
    ensures
        !goal_reachable(topo, used, root),
{
    assert forall|p: Seq<u16>| !is_route(topo, used, p, root) by {
        if is_route(topo, used, p, root) {
            assert forall|i: int| 0 <= i < p.len() implies inside(#[trigger] p[i] as int) by {
                lemma_route_prefix_inside(topo, used, p, root, inside, i);
            }
            assert(inside(p.last() as int));
        }
    }
}

proof fn lemma_route_prefix_inside(topo: &TopoGraph, used: Seq<bool>, p: Seq<u16>, root: u16, inside: spec_fn(int) -> bool, i: int)
    requires
        inside(root as int),
        forall|u: int, v: int| #[trigger] inside(u) && step(topo, used, u, v) ==> #[trigger] inside(v),
        is_route(topo, used, p, root),
        0 <= i < p.len(),
    ensures
        inside(p[i] as int),
    decreases i,
{
    if i > 0 {
        lemma_route_prefix_inside(topo, used, p, root, inside, i - 1);
        assert(step(topo, used, p[i - 1] as int, p[(i - 1) + 1] as int));
    }
}

/// Marks each node of `ids` used.
pub(crate) fn mark_all(used: &mut Vec<bool>, ids: &[u16])
    requires
        forall|k: int| 0 <= k < ids@.len() ==> (#[trigger] ids@[k]) < old(used)@.len(),
    ensures
        final(used)@ == Seq::new(old(used)@.len(), |x: int| old(used)@[x] || has(ids@, x)),
{
    let ghost used0 = used@;
    let mut i: usize = 0;
    while i < ids.len()
        invariant
            i <= ids@.len(),
            used@.len() == used0.len(),
            forall|k: int| 0 <= k < ids@.len() ==> (#[trigger] ids@[k]) < used0.len(),
            forall|x: int| 0 <= x < used0.len() ==> #[trigger] used@[x] == (used0[x] || has(ids@.subrange(0, i as int), x)),
        decreases ids@.len() - i,
    {
        let id = ids[i];
        let ghost before = used@;
        used.set(id as usize, true);
        proof {
            lemma_has_push(ids@.subrange(0, i as int), id);
            assert(ids@.subrange(0, i + 1) =~= ids@.subrange(0, i as int).push(id));
            assert forall|x: int| 0 <= x < used0.len() implies #[trigger] used@[x] == (used0[x] || has(ids@.subrange(0, i + 1), x)) by {
                assert(has(ids@.subrange(0, i + 1), x) == has(ids@.subrange(0, i as int).push(id), x));
                if x != id as int {
                    assert(used@[x] == before[x]);
                    assert(before[x] == (used0[x] || has(ids@.subrange(0, i as int), x)));
                } else {
                    let w = ids@.subrange(0, i as int).push(id);
                    assert(w[i as int] as int == x);
                    assert(has(w, x));
                }
            }
        }
        i += 1;
    }
    proof {
        assert(ids@.subrange(0, ids@.len() as int) =~= ids@);
    }
    assert(used@ =~= Seq::new(used0.len(), |x: int| used0[x] || has(ids@, x)));
}

/// In a sequence without repeats, dropping the last entry drops exactly that node.
pub proof fn lemma_has_drop_last(s: Seq<u16>, x: int)
    requires
        s.len() > 0,
        forall|i: int, j: int| 0 <= i < j < s.len() ==> s[i] != s[j],
    ensures
        has(s.drop_last(), x) <==> (has(s, x) && x != s.last() as int),
{
    let d = s.drop_last();
    if has(d, x) {
        let k = choose|k: int| 0 <= k < d.len() && #[trigger] d[k] as int == x;
        assert(s[k] as int == x);
        assert(s[k] != s[s.len() - 1]);
    }
    if has(s, x) && x != s.last() as int {
        let k = choose|k: int| 0 <= k < s.len() && #[trigger] s[k] as int == x;
        assert(d[k] as int == x);
    }
}

} // verus!
