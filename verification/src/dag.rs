//! The dependency graph of a sequence of Pauli product rotations: product
//! `j` depends on product `i` when `i` is the last product before `j` acting
//! on one of `j`'s qubits. Clifford rotations are commuted to the end of the
//! circuit by swapping them, one edge at a time, past the non-Clifford
//! rotations that depend on them.
//!
//! Sets of node ids are held in vectors without repetitions.
use vstd::prelude::*;
use crate::transpile::{anticommuting, lemma_last_term, merged_term, on_qubit, term_ok, Angle, PauliProduct, PauliTerm};

verus! {

/// The dependency graph of a sequence of Pauli product rotations.
pub struct PauliProductDag {
    pub products: Vec<PauliProduct>,
    /// Per node, the nodes that depend on it directly.
    pub children: Vec<Vec<usize>>,
    /// Per node, the nodes it depends on directly.
    pub parents: Vec<Vec<usize>>,
    /// The Clifford nodes that depend on nothing.
    pub roots: Vec<usize>,
    /// Per node, its position in a topological order.
    pub topological_order: Vec<usize>,
    pub max_qubit: i32,
    /// Work done by the topological reorderings: children looked at.
    pub topo_steps: usize,
    pub num_cliffords: usize,
    pub update_topo_calls: usize,
    pub num_nodes: usize,
    /// Whether a reordering visits the children of a node in topological order.
    pub topo_sort_children: bool,
}

/// Each node id of `s` is below `n` and occurs once.
pub open spec fn id_set(s: Seq<usize>, n: nat) -> bool {
    &&& s.no_duplicates()
    &&& forall|i: int| 0 <= i < s.len() ==> (#[trigger] s[i]) < n
}

/// Why a sequence of products cannot form a dependency graph.
#[derive(Debug, Clone, Copy, PartialEq, Eq, Structural)]
pub enum DagError {
    /// The qubits of a product are not in increasing order: qubit `found`
    /// comes after qubit `after`.
    QubitOrder { found: i32, after: i32 },
    /// The topological order no longer puts every node after its parents.
    BadOrder,
    /// The Clifford parent chosen for a node is also one of its children.
    Loop,
    /// A position or counter would pass the largest machine integer.
    Overflow,
}

/// The first place among the first `m` terms where a qubit does not exceed
/// the one before it: that qubit and the one before.
pub open spec fn disorder_in(ts: Seq<PauliTerm>, m: int) -> Option<(i32, i32)>
    decreases m,
{
    if m <= 1 {
        None
    } else {
        match disorder_in(ts, m - 1) {
            Some(e) => Some(e),
            None => if ts[m - 1].qubit <= ts[m - 2].qubit { Some((ts[m - 1].qubit, ts[m - 2].qubit)) } else { None },
        }
    }
}

/// The first disorder among the first `k` products, products in order.
pub open spec fn disorder_upto(ps: Seq<PauliProduct>, k: int) -> Option<(i32, i32)>
    decreases k,
{
    if k <= 0 {
        None
    } else {
        match disorder_upto(ps, k - 1) {
            Some(e) => Some(e),
            None => disorder_in(ps[k - 1].terms@, ps[k - 1].terms@.len() as int),
        }
    }
}

/// The last product among the first `k` that acts on qubit `q`.
pub open spec fn last_before(ps: Seq<PauliProduct>, k: int, q: i32) -> Option<usize>
    decreases k,
{
    if k <= 0 {
        None
    } else if on_qubit(ps[k - 1].terms@, q) {
        Some((k - 1) as usize)
    } else {
        last_before(ps, k - 1, q)
    }
}

/// Product `c` depends directly on product `p`: `p` is the last product
/// before `c` acting on one of `c`'s qubits.
pub open spec fn depends(ps: Seq<PauliProduct>, p: int, c: int) -> bool {
    &&& 0 <= c < ps.len()
    &&& exists|j: int| 0 <= j < ps[c].terms@.len() && last_before(ps, c, #[trigger] ps[c].terms@[j].qubit) == Some(p as usize)
}

/// Every qubit named by a product is at least 0.
pub open spec fn qubits_nonnegative(ps: Seq<PauliProduct>) -> bool {
    forall|i: int, j: int| 0 <= i < ps.len() && 0 <= j < ps[i].terms@.len() ==> (#[trigger] ps[i].terms@[j]).qubit >= 0
}

/// The largest of `acc` and the qubits of the first `j` terms.
pub open spec fn max_qubit_terms(ts: Seq<PauliTerm>, j: int, acc: i32) -> i32
    decreases j,
{
    if j <= 0 {
        acc
    } else {
        let m = max_qubit_terms(ts, j - 1, acc);
        if ts[j - 1].qubit > m { ts[j - 1].qubit } else { m }
    }
}

/// The largest of `acc` and the qubits of the first `k` products.
pub open spec fn max_qubit_upto(ps: Seq<PauliProduct>, k: int, acc: i32) -> i32
    decreases k,
{
    if k <= 0 {
        acc
    } else {
        max_qubit_terms(ps[k - 1].terms@, ps[k - 1].terms@.len() as int, max_qubit_upto(ps, k - 1, acc))
    }
}

/// The number of Clifford products among the first `k`.
pub open spec fn cliffords_upto(ps: Seq<PauliProduct>, k: int) -> nat
    decreases k,
{
    if k <= 0 { 0 } else { cliffords_upto(ps, k - 1) + if ps[k - 1].angle.is_clifford { 1nat } else { 0nat } }
}

impl PauliProductDag {
    /// The graph is well formed: one entry per node in each table, edge lists
    /// are sets of nodes, and every edge is recorded at both of its ends.
    pub open spec fn wf(&self) -> bool {
        let n = self.num_nodes as nat;
        &&& self.products@.len() == n
        &&& self.children@.len() == n
        &&& self.parents@.len() == n
        &&& self.topological_order@.len() == n
        &&& id_set(self.roots@, n)
        &&& forall|v: int| 0 <= v < n ==> id_set(#[trigger] self.children@[v]@, n)
        &&& forall|v: int| 0 <= v < n ==> id_set(#[trigger] self.parents@[v]@, n)
        &&& forall|p: int, c: usize| 0 <= p < n ==>
            (#[trigger] self.children@[p]@.contains(c) <==> c < n && self.parents@[c as int]@.contains(p as usize))
    }

    /// `c` depends directly on `p`.
    pub open spec fn edge(&self, p: int, c: int) -> bool {
        0 <= p < self.num_nodes && 0 <= c < self.num_nodes && self.children@[p]@.contains(c as usize)
    }

    /// Node `v` is a Clifford rotation.
    pub open spec fn clifford(&self, v: int) -> bool {
        self.products@[v].angle.is_clifford
    }

    /// An empty graph.
    pub fn new(topo_sort_children: bool) -> (d: Self)
        ensures
            d.wf(),
            d.num_nodes == 0,
            d.roots@.len() == 0,
            d.topo_steps == 0,
            d.num_cliffords == 0,
            d.update_topo_calls == 0,
            d.max_qubit == 0,
            d.topo_sort_children == topo_sort_children,
    {
        PauliProductDag {
            products: Vec::new(),
            children: Vec::new(),
            parents: Vec::new(),
            roots: Vec::new(),
            topological_order: Vec::new(),
            max_qubit: 0,
            topo_steps: 0,
            num_cliffords: 0,
            update_topo_calls: 0,
            num_nodes: 0,
            topo_sort_children,
        }
    }

    /// Node `node_id` depends on nothing.
    pub fn is_root(&self, node_id: usize) -> (r: bool)
        requires
            self.wf(),
            node_id < self.num_nodes,
        ensures
            r == (self.parents@[node_id as int]@.len() == 0),
    {
        self.parents[node_id].len() == 0
    }

    /// Node `node_id` is a Clifford rotation.
    pub fn is_clifford(&self, node_id: usize) -> (r: bool)
        requires
            self.wf(),
            node_id < self.num_nodes,
        ensures
            r == self.clifford(node_id as int),
    {
        self.products[node_id].is_clifford()
    }
}

/// Whether `x` is in the set `s`.
fn set_contains(s: &Vec<usize>, x: usize) -> (r: bool)
    ensures
        r == s@.contains(x),
{
    let mut i: usize = 0;
    while i < s.len()
        invariant
            i <= s@.len(),
            forall|j: int| 0 <= j < i ==> s@[j] != x,
        decreases s@.len() - i,
    {
        if s[i] == x {
            return true;
        }
        i += 1;
    }
    false
}

/// Adds `x` to the set `s`.
fn set_insert(s: &mut Vec<usize>, x: usize)
    requires
        old(s)@.no_duplicates(),
    ensures
        final(s)@.no_duplicates(),
        forall|y: usize| #[trigger] final(s)@.contains(y) <==> (old(s)@.contains(y) || y == x),
        final(s)@ == (if old(s)@.contains(x) { old(s)@ } else { old(s)@.push(x) }),
{
    if !set_contains(s, x) {
        let ghost s0 = s@;
        s.push(x);
        assert forall|y: usize| #[trigger] s@.contains(y) <==> (s0.contains(y) || y == x) by {
            if s@.contains(y) {
                let j = choose|j: int| 0 <= j < s@.len() && s@[j] == y;
                if j < s0.len() { assert(s0[j] == y); }
            }
            if s0.contains(y) {
                let j = choose|j: int| 0 <= j < s0.len() && s0[j] == y;
                assert(s@[j] == y);
            }
            if y == x { assert(s@[s0.len() as int] == y); }
        }
    }
}

/// Removes `x` from the set `s`.
fn set_remove(s: &mut Vec<usize>, x: usize)
    requires
        old(s)@.no_duplicates(),
    ensures
        final(s)@.no_duplicates(),
        forall|y: usize| #[trigger] final(s)@.contains(y) <==> (old(s)@.contains(y) && y != x),
        final(s)@.len() == (if old(s)@.contains(x) { old(s)@.len() - 1 } else { old(s)@.len() as int }),
{
    let mut i: usize = 0;
    while i < s.len()
        invariant
            i <= s@.len(),
            s@ == old(s)@,
            old(s)@.no_duplicates(),
            forall|j: int| 0 <= j < i ==> s@[j] != x,
        decreases s@.len() - i,
    {
        if s[i] == x {
            let ghost s0 = s@;
            s.remove(i);
            assert(s@ == s0.remove(i as int));
            assert forall|y: usize| #[trigger] s@.contains(y) <==> (s0.contains(y) && y != x) by {
                if s@.contains(y) {
                    let j = choose|j: int| 0 <= j < s@.len() && s@[j] == y;
                    if j < i { assert(s0[j] == y); } else { assert(s0[j + 1] == y); }
                    assert(s0.contains(y));
                    if y == x {
                        if j < i { assert(s0[j] == x); } else { assert(s0[j + 1] == s0[i as int]); }
                    }
                }
                if s0.contains(y) && y != x {
                    let j = choose|j: int| 0 <= j < s0.len() && s0[j] == y;
                    if j < i { assert(s@[j] == y); } else { assert(j != i); assert(s@[j - 1] == y); }
                }
            }
            assert forall|a: int, b: int| 0 <= a < b < s@.len() implies s@[a] != s@[b] by {
                let a0 = if a < i { a } else { a + 1 };
                let b0 = if b < i { b } else { b + 1 };
                assert(s@[a] == s0[a0] && s@[b] == s0[b0]);
            }
            return;
        }
        i += 1;
    }
    assert(!s@.contains(x));
}

impl PauliProductDag {
    /// Records that `node_id` depends directly on `parent_id`.
    pub fn add_relation(&mut self, parent_id: usize, node_id: usize)
        requires
            old(self).wf(),
            parent_id < old(self).num_nodes,
            node_id < old(self).num_nodes,
        ensures
            final(self).wf(),
            final(self).num_nodes == old(self).num_nodes,
            final(self).products == old(self).products,
            final(self).topological_order == old(self).topological_order,
            final(self).roots == old(self).roots,
            final(self).topo_steps == old(self).topo_steps,
            final(self).num_cliffords == old(self).num_cliffords,
            final(self).update_topo_calls == old(self).update_topo_calls,
            final(self).max_qubit == old(self).max_qubit,
            final(self).topo_sort_children == old(self).topo_sort_children,
            forall|p: int, c: int| #[trigger] final(self).edge(p, c)
                <==> (old(self).edge(p, c) || (p == parent_id && c == node_id)),
    {
        let ghost d0 = *self;
        let mut ps: Vec<usize> = Vec::new();
        self.parents.set_and_swap(node_id, &mut ps);
        set_insert(&mut ps, parent_id);
        self.parents.set_and_swap(node_id, &mut ps);
        let mut cs: Vec<usize> = Vec::new();
        self.children.set_and_swap(parent_id, &mut cs);
        set_insert(&mut cs, node_id);
        self.children.set_and_swap(parent_id, &mut cs);
        proof {
            let n = self.num_nodes as nat;
            assert forall|v: int| 0 <= v < n implies id_set(#[trigger] self.children@[v]@, n) by {
                if v != parent_id as int { assert(self.children@[v] == d0.children@[v]); }
            }
            assert forall|v: int| 0 <= v < n implies id_set(#[trigger] self.parents@[v]@, n) by {
                if v != node_id as int { assert(self.parents@[v] == d0.parents@[v]); }
            }
            assert forall|p: int, c: usize| 0 <= p < n implies
                (#[trigger] self.children@[p]@.contains(c) <==> c < n && self.parents@[c as int]@.contains(p as usize)) by {
                if p != parent_id as int { assert(self.children@[p] == d0.children@[p]); }
                if c < n && c != node_id { assert(self.parents@[c as int] == d0.parents@[c as int]); }
                assert(d0.children@[p]@.contains(c) <==> c < n && d0.parents@[c as int]@.contains(p as usize));
            }
            assert forall|p: int, c: int| #[trigger] self.edge(p, c)
                <==> (d0.edge(p, c) || (p == parent_id && c == node_id)) by {
                if 0 <= p < n && p != parent_id as int { assert(self.children@[p] == d0.children@[p]); }
            }
        }
    }

    /// Removes the record that `node_id` depends directly on `parent_id`,
    /// which it does.
    pub fn erase_relation(&mut self, parent_id: usize, node_id: usize)
        requires
            old(self).wf(),
            old(self).edge(parent_id as int, node_id as int),
        ensures
            final(self).wf(),
            final(self).num_nodes == old(self).num_nodes,
            final(self).products == old(self).products,
            final(self).topological_order == old(self).topological_order,
            final(self).roots == old(self).roots,
            final(self).topo_steps == old(self).topo_steps,
            final(self).num_cliffords == old(self).num_cliffords,
            final(self).update_topo_calls == old(self).update_topo_calls,
            final(self).max_qubit == old(self).max_qubit,
            final(self).topo_sort_children == old(self).topo_sort_children,
            forall|p: int, c: int| #[trigger] final(self).edge(p, c)
                <==> (old(self).edge(p, c) && !(p == parent_id && c == node_id)),
    {
        let ghost d0 = *self;
        let mut cs: Vec<usize> = Vec::new();
        self.children.set_and_swap(parent_id, &mut cs);
        set_remove(&mut cs, node_id);
        self.children.set_and_swap(parent_id, &mut cs);
        let mut ps: Vec<usize> = Vec::new();
        self.parents.set_and_swap(node_id, &mut ps);
        set_remove(&mut ps, parent_id);
        self.parents.set_and_swap(node_id, &mut ps);
        proof {
            let n = self.num_nodes as nat;
            assert forall|v: int| 0 <= v < n implies id_set(#[trigger] self.children@[v]@, n) by {
                if v != parent_id as int { assert(self.children@[v] == d0.children@[v]); }
                else {
                    assert forall|i: int| 0 <= i < self.children@[v]@.len() implies (#[trigger] self.children@[v]@[i]) < n by {
                        assert(self.children@[v]@.contains(self.children@[v]@[i]));
                        assert(d0.children@[v]@.contains(self.children@[v]@[i]));
                    }
                }
            }
            assert forall|v: int| 0 <= v < n implies id_set(#[trigger] self.parents@[v]@, n) by {
                if v != node_id as int { assert(self.parents@[v] == d0.parents@[v]); }
                else {
                    assert forall|i: int| 0 <= i < self.parents@[v]@.len() implies (#[trigger] self.parents@[v]@[i]) < n by {
                        assert(self.parents@[v]@.contains(self.parents@[v]@[i]));
                        assert(d0.parents@[v]@.contains(self.parents@[v]@[i]));
                    }
                }
            }
            assert forall|p: int, c: usize| 0 <= p < n implies
                (#[trigger] self.children@[p]@.contains(c) <==> c < n && self.parents@[c as int]@.contains(p as usize)) by {
                if p != parent_id as int { assert(self.children@[p] == d0.children@[p]); }
                if c < n && c != node_id { assert(self.parents@[c as int] == d0.parents@[c as int]); }
                assert(d0.children@[p]@.contains(c) <==> c < n && d0.parents@[c as int]@.contains(p as usize));
            }
            assert forall|p: int, c: int| #[trigger] self.edge(p, c)
                <==> (d0.edge(p, c) && !(p == parent_id && c == node_id)) by {
                if 0 <= p < n && p != parent_id as int { assert(self.children@[p] == d0.children@[p]); }
            }
        }
    }
}

proof fn lemma_max_terms_bounds(ts: Seq<PauliTerm>, j: int, acc: i32)
    requires
        0 <= j <= ts.len(),
    ensures
        acc <= max_qubit_terms(ts, j, acc),
        forall|t: int| 0 <= t < j ==> (#[trigger] ts[t]).qubit <= max_qubit_terms(ts, j, acc),
    decreases j,
{
    if j > 0 {
        lemma_max_terms_bounds(ts, j - 1, acc);
    }
}

proof fn lemma_max_upto_bounds(ps: Seq<PauliProduct>, k: int, acc: i32)
    requires
        0 <= k <= ps.len(),
    ensures
        acc <= max_qubit_upto(ps, k, acc),
        forall|i: int, t: int| 0 <= i < k && 0 <= t < ps[i].terms@.len() ==> (#[trigger] ps[i].terms@[t]).qubit <= max_qubit_upto(ps, k, acc),
    decreases k,
{
    if k > 0 {
        lemma_max_upto_bounds(ps, k - 1, acc);
        let m = max_qubit_upto(ps, k - 1, acc);
        lemma_max_terms_bounds(ps[k - 1].terms@, ps[k - 1].terms@.len() as int, m);
    }
}

proof fn lemma_disorder_in_stays(ts: Seq<PauliTerm>, j: int, m: int)
    requires
        0 <= j <= m,
        disorder_in(ts, j) is Some,
    ensures
        disorder_in(ts, m) == disorder_in(ts, j),
    decreases m - j,
{
    if j < m {
        lemma_disorder_in_stays(ts, j, m - 1);
    }
}

proof fn lemma_disorder_upto_stays(ps: Seq<PauliProduct>, k: int, m: int)
    requires
        0 <= k <= m,
        disorder_upto(ps, k) is Some,
    ensures
        disorder_upto(ps, m) == disorder_upto(ps, k),
    decreases m - k,
{
    if k < m {
        lemma_disorder_upto_stays(ps, k, m - 1);
    }
}

/// With no disorder among the first `m` terms, their qubits increase.
proof fn lemma_no_disorder_increasing(ts: Seq<PauliTerm>, m: int)
    requires
        0 <= m <= ts.len(),
        disorder_in(ts, m) is None,
    ensures
        forall|a: int, b: int| 0 <= a < b < m ==> ts[a].qubit < ts[b].qubit,
    decreases m,
{
    if m > 1 {
        lemma_no_disorder_increasing(ts, m - 1);
        assert forall|a: int, b: int| 0 <= a < b < m implies ts[a].qubit < ts[b].qubit by {
            if b == m - 1 && a < m - 2 {
                assert(ts[a].qubit < ts[m - 2].qubit);
            }
        }
    }
}

/// Checks that the qubits of `ts` increase, and finds the largest of `acc`
/// and them: the first disorder if there is one.
fn check_terms(ts: &Vec<PauliTerm>, acc: i32) -> (r: Result<i32, (i32, i32)>)
    requires
        forall|t: int| 0 <= t < ts@.len() ==> (#[trigger] ts@[t]).qubit >= 0,
    ensures
        match r {
            Ok(m) => disorder_in(ts@, ts@.len() as int) is None && m == max_qubit_terms(ts@, ts@.len() as int, acc),
            Err(e) => disorder_in(ts@, ts@.len() as int) == Some(e),
        },
{
    let mut m = acc;
    let mut prev: i32 = -1;
    let mut j: usize = 0;
    while j < ts.len()
        invariant
            j <= ts@.len(),
            forall|t: int| 0 <= t < ts@.len() ==> (#[trigger] ts@[t]).qubit >= 0,
            m == max_qubit_terms(ts@, j as int, acc),
            disorder_in(ts@, j as int) is None,
            j == 0 ==> prev == -1,
            j > 0 ==> prev == ts@[j - 1].qubit,
        decreases ts@.len() - j,
    {
        let q = ts[j].qubit;
        if q > m {
            m = q;
        }
        if q <= prev {
            proof {
                assert(disorder_in(ts@, j + 1) == Some((q, prev)));
                lemma_disorder_in_stays(ts@, j + 1, ts@.len() as int);
            }
            return Err((q, prev));
        }
        prev = q;
        j += 1;
    }
    Ok(m)
}

impl PauliProductDag {
    /// Appends `products` and builds the dependency graph of all products:
    /// node `c` depends on node `p` when `p` is the last product before `c`
    /// acting on one of `c`'s qubits. The Clifford products join the roots
    /// and are counted; the topological order is the product order. The
    /// qubits of each product must increase: the first place where one does
    /// not is reported as an error.
    pub fn from_products(&mut self, products: Vec<PauliProduct>) -> (r: Result<(), DagError>)
        requires
            old(self).wf(),
            old(self).max_qubit >= 0,
            qubits_nonnegative(old(self).products@ + products@),
            old(self).num_cliffords + old(self).products@.len() + products@.len() <= usize::MAX,
        ensures
            final(self).products@ == old(self).products@ + products@,
            final(self).num_nodes == final(self).products@.len(),
            r is Err <==> disorder_upto(final(self).products@, final(self).products@.len() as int) is Some,
            r matches Err(DagError::QubitOrder { found, after })
                ==> disorder_upto(final(self).products@, final(self).products@.len() as int) == Some((found, after)),
            r is Ok ==> {
                let ps = final(self).products@;
                let n = ps.len() as int;
                &&& final(self).wf()
                &&& forall|p: int, c: int| #[trigger] final(self).edge(p, c) <==> 0 <= p < n && depends(ps, p, c)
                &&& final(self).topological_order@ == Seq::new(n as nat, |i: int| i as usize)
                &&& forall|x: usize| #[trigger] final(self).roots@.contains(x)
                    <==> (old(self).roots@.contains(x) || (x < n && ps[x as int].angle.is_clifford))
                &&& final(self).num_cliffords == old(self).num_cliffords + cliffords_upto(ps, n)
                &&& final(self).max_qubit == max_qubit_upto(ps, n, old(self).max_qubit)
                &&& final(self).order_respected()
            },
            final(self).topo_steps == old(self).topo_steps,
            final(self).update_topo_calls == old(self).update_topo_calls,
            final(self).topo_sort_children == old(self).topo_sort_children,
    {
        let ghost old_roots = self.roots@;
        let ghost old_max = self.max_qubit;
        let ghost old_cliffords = self.num_cliffords;
        let ghost added = products@;
        let mut moved = products;
        self.products.append(&mut moved);
        let ghost ps = self.products@;
        assert(ps == old(self).products@ + added);
        let n = self.products.len();
        self.num_nodes = n;
        let mut children: Vec<Vec<usize>> = Vec::new();
        let mut parents: Vec<Vec<usize>> = Vec::new();
        let mut order: Vec<usize> = Vec::new();
        let mut i: usize = 0;
        while i < n
            invariant
                i <= n,
                children@.len() == i,
                parents@.len() == i,
                order@ == Seq::new(i as nat, |k: int| k as usize),
                forall|v: int| 0 <= v < i ==> (#[trigger] children@[v])@.len() == 0,
                forall|v: int| 0 <= v < i ==> (#[trigger] parents@[v])@.len() == 0,
            decreases n - i,
        {
            children.push(Vec::new());
            parents.push(Vec::new());
            order.push(i);
            i += 1;
            assert(order@ =~= Seq::new(i as nat, |k: int| k as usize));
        }
        self.children = children;
        self.parents = parents;
        self.topological_order = order;
        proof {
            assert forall|x: int| 0 <= x < self.roots@.len() implies (#[trigger] self.roots@[x]) < n by {
                assert(self.roots@[x] < old(self).num_nodes);
            }
        }
        let mut i: usize = 0;
        while i < n
            invariant
                i <= n,
                n == self.num_nodes,
                self.products@ == ps,
                ps == old(self).products@ + added,
                added == products@,
                ps.len() == n,
                qubits_nonnegative(ps),
                id_set(self.roots@, n as nat),
                forall|x: usize| #[trigger] self.roots@.contains(x) <==> (old_roots.contains(x) || (x < i && ps[x as int].angle.is_clifford)),
                self.num_cliffords == old_cliffords + cliffords_upto(ps, i as int),
                old_cliffords + n <= usize::MAX,
                self.max_qubit == max_qubit_upto(ps, i as int, old_max),
                disorder_upto(ps, i as int) is None,
                self.children@.len() == n,
                self.parents@.len() == n,
                self.topological_order@ == Seq::new(n as nat, |k: int| k as usize),
                forall|v: int| 0 <= v < n ==> (#[trigger] self.children@[v])@.len() == 0,
                forall|v: int| 0 <= v < n ==> (#[trigger] self.parents@[v])@.len() == 0,
                self.topo_steps == old(self).topo_steps,
                self.update_topo_calls == old(self).update_topo_calls,
                self.topo_sort_children == old(self).topo_sort_children,
            decreases n - i,
        {
            proof {
                assert(cliffords_upto(ps, i as int) <= i) by { lemma_cliffords_le(ps, i as int); }
            }
            if self.products[i].is_clifford() {
                set_insert(&mut self.roots, i);
                self.num_cliffords += 1;
            }
            proof {
                assert forall|t: int| 0 <= t < ps[i as int].terms@.len() implies (#[trigger] ps[i as int].terms@[t]).qubit >= 0 by {}
            }
            match check_terms(&self.products[i].terms, self.max_qubit) {
                Ok(m) => {
                    self.max_qubit = m;
                },
                Err((found, after)) => {
                    proof {
                        assert(disorder_upto(ps, i + 1) == Some((found, after)));
                        lemma_disorder_upto_stays(ps, i + 1, n as int);
                        assert(self.products@ == old(self).products@ + added);
                    }
                    return Err(DagError::QubitOrder { found, after });
                },
            }
            proof {
                assert forall|x: usize| #[trigger] self.roots@.contains(x) <==> (old_roots.contains(x) || (x < i + 1 && ps[x as int].angle.is_clifford)) by {
                    if x == i {} 
                }
            }
            i += 1;
        }
        proof {
            lemma_max_upto_bounds(ps, n as int, old_max);
        }
        let ghost mx = self.max_qubit;
        let size: usize = (self.max_qubit as usize) + 1;
        let mut frontier: Vec<Option<usize>> = vec![None; size];
        assert(self.wf()) by {
            let nn = n as nat;
            assert forall|v: int| 0 <= v < nn implies id_set(#[trigger] self.children@[v]@, nn) by {}
            assert forall|v: int| 0 <= v < nn implies id_set(#[trigger] self.parents@[v]@, nn) by {}
            assert forall|p: int, c: usize| 0 <= p < nn implies
                (#[trigger] self.children@[p]@.contains(c) <==> c < nn && self.parents@[c as int]@.contains(p as usize)) by {
                if c < nn { assert(self.parents@[c as int]@.len() == 0); }
            }
        }
        let mut i: usize = 0;
        while i < n
            invariant
                i <= n,
                n == self.num_nodes,
                self.wf(),
                self.products@ == ps,
                ps.len() == n,
                qubits_nonnegative(ps),
                0 <= mx,
                size == mx + 1,
                frontier@.len() == size,
                forall|a: int, t: int| 0 <= a < n && 0 <= t < ps[a].terms@.len() ==> (#[trigger] ps[a].terms@[t]).qubit <= mx,
                disorder_upto(ps, n as int) is None,
                forall|q: int| 0 <= q < size ==> #[trigger] frontier@[q] == last_before(ps, i as int, q as i32),
                forall|p: int, c: int| #[trigger] self.edge(p, c) <==> (c < i && 0 <= p < n && depends(ps, p, c)),
                self.topological_order@ == Seq::new(n as nat, |k: int| k as usize),
                forall|x: usize| #[trigger] self.roots@.contains(x) <==> (old_roots.contains(x) || (x < n && ps[x as int].angle.is_clifford)),
                self.num_cliffords == old_cliffords + cliffords_upto(ps, n as int),
                self.max_qubit == mx,
                mx == max_qubit_upto(ps, n as int, old_max),
                self.topo_steps == old(self).topo_steps,
                self.update_topo_calls == old(self).update_topo_calls,
                self.topo_sort_children == old(self).topo_sort_children,
            decreases n - i,
        {
            let ghost ts = ps[i as int].terms@;
            proof {
                lemma_disorder_prefix_none(ps, i + 1, n as int);
                lemma_no_disorder_increasing(ts, ts.len() as int);
            }
            let mut j: usize = 0;
            while j < self.products[i].terms.len()
                invariant
                    j <= ts.len(),
                    i < n,
                    n == self.num_nodes,
                    self.wf(),
                    self.products@ == ps,
                    ps.len() == n,
                    ts == ps[i as int].terms@,
                    qubits_nonnegative(ps),
                    size == mx + 1,
                    frontier@.len() == size,
                    forall|a: int, t: int| 0 <= a < n && 0 <= t < ps[a].terms@.len() ==> (#[trigger] ps[a].terms@[t]).qubit <= mx,
                    forall|a: int, b: int| 0 <= a < b < ts.len() ==> ts[a].qubit < ts[b].qubit,
                    forall|q: int| 0 <= q < size ==> #[trigger] frontier@[q]
                        == (if on_qubit(ts.take(j as int), q as i32) { Some(i) } else { last_before(ps, i as int, q as i32) }),
                    forall|p: int, c: int| #[trigger] self.edge(p, c) <==> (0 <= p < n && ((c < i && depends(ps, p, c))
                        || (c == i && exists|t: int| 0 <= t < j && last_before(ps, i as int, #[trigger] ts[t].qubit) == Some(p as usize)))),
                    self.topological_order@ == Seq::new(n as nat, |k: int| k as usize),
                    forall|x: usize| #[trigger] self.roots@.contains(x) <==> (old_roots.contains(x) || (x < n && ps[x as int].angle.is_clifford)),
                    self.num_cliffords == old_cliffords + cliffords_upto(ps, n as int),
                    self.max_qubit == mx,
                    self.topo_steps == old(self).topo_steps,
                    self.update_topo_calls == old(self).update_topo_calls,
                    self.topo_sort_children == old(self).topo_sort_children,
                decreases ts.len() - j,
            {
                let q = self.products[i].terms[j].qubit;
                assert(ts[j as int].qubit == q);
                assert(q >= 0 && q <= mx) by { assert(ps[i as int].terms@[j as int].qubit >= 0); }
                let qi = q as usize;
                proof {
                    assert(!on_qubit(ts.take(j as int), q)) by {
                        if on_qubit(ts.take(j as int), q) {
                            let t = choose|t: int| 0 <= t < ts.take(j as int).len() && (#[trigger] ts.take(j as int)[t]).qubit == q;
                            assert(ts[t].qubit < ts[j as int].qubit);
                        }
                    }
                    lemma_last_before_below(ps, i as int, q);
                }
                let ghost f0 = frontier@;
                match frontier[qi] {
                    Some(p) => {
                        assert(last_before(ps, i as int, q) == Some(p));
                        self.add_relation(p, i);
                    },
                    None => {},
                }
                frontier.set(qi, Some(i));
                proof {
                    assert(ts.take(j + 1) =~= ts.take(j as int).push(ts[j as int]));
                    assert forall|qq: int| 0 <= qq < size implies #[trigger] frontier@[qq]
                        == (if on_qubit(ts.take(j + 1), qq as i32) { Some(i) } else { last_before(ps, i as int, qq as i32) }) by {
                        if qq == qi as int {
                            assert(ts.take(j + 1)[j as int].qubit == q);
                        } else {
                            assert(frontier@[qq] == f0[qq]);
                            assert(on_qubit(ts.take(j + 1), qq as i32) == on_qubit(ts.take(j as int), qq as i32)) by {
                                if on_qubit(ts.take(j + 1), qq as i32) {
                                    let t = choose|t: int| 0 <= t < ts.take(j + 1).len() && (#[trigger] ts.take(j + 1)[t]).qubit == qq as i32;
                                    if t < j { assert(ts.take(j as int)[t].qubit == qq as i32); }
                                }
                                if on_qubit(ts.take(j as int), qq as i32) {
                                    let t = choose|t: int| 0 <= t < ts.take(j as int).len() && (#[trigger] ts.take(j as int)[t]).qubit == qq as i32;
                                    assert(ts.take(j + 1)[t].qubit == qq as i32);
                                }
                            }
                        }
                    }
                    assert forall|p: int, c: int| #[trigger] self.edge(p, c) <==> (0 <= p < n && ((c < i && depends(ps, p, c))
                        || (c == i && exists|t: int| 0 <= t < j + 1 && last_before(ps, i as int, #[trigger] ts[t].qubit) == Some(p as usize)))) by {
                        if 0 <= p < n && c == i && last_before(ps, i as int, ts[j as int].qubit) == Some(p as usize) {
                            assert(f0[qi as int] == Some(p as usize));
                        }
                    }
                }
                j += 1;
            }
            proof {
                assert(ts.take(ts.len() as int) =~= ts);
                assert forall|q: int| 0 <= q < size implies #[trigger] frontier@[q] == last_before(ps, i + 1, q as i32) by {}
                assert forall|p: int, c: int| #[trigger] self.edge(p, c) <==> (c < i + 1 && 0 <= p < n && depends(ps, p, c)) by {
                    if c == i {
                        if self.edge(p, c) {
                            let t = choose|t: int| 0 <= t < j && last_before(ps, i as int, #[trigger] ts[t].qubit) == Some(p as usize);
                            lemma_last_before_below(ps, i as int, ts[t].qubit);
                        }
                        if 0 <= p < n && depends(ps, p, c) {
                            let t = choose|t: int| 0 <= t < ps[c].terms@.len() && last_before(ps, c, #[trigger] ps[c].terms@[t].qubit) == Some(p as usize);
                            assert(ts[t] == ps[c].terms@[t]);
                        }
                    }
                }
            }
            i += 1;
        }
        proof {
            assert forall|p: int, c: int| #[trigger] self.edge(p, c) <==> 0 <= p < n && depends(ps, p, c) by {
                if depends(ps, p, c) { assert(c < n); }
            }
            assert forall|p: int, c: int| #[trigger] self.edge(p, c) implies self.order(p) < self.order(c) by {
                let t = choose|t: int| 0 <= t < ps[c].terms@.len() && last_before(ps, c, #[trigger] ps[c].terms@[t].qubit) == Some(p as usize);
                lemma_last_before_below(ps, c, ps[c].terms@[t].qubit);
            }
        }
        Ok(())
    }
}

proof fn lemma_cliffords_le(ps: Seq<PauliProduct>, k: int)
    requires
        k >= 0,
    ensures
        cliffords_upto(ps, k) <= k,
    decreases k,
{
    if k > 0 {
        lemma_cliffords_le(ps, k - 1);
    }
}

proof fn lemma_disorder_prefix_none(ps: Seq<PauliProduct>, k: int, m: int)
    requires
        0 < k <= m,
        disorder_upto(ps, m) is None,
    ensures
        disorder_in(ps[k - 1].terms@, ps[k - 1].terms@.len() as int) is None,
        disorder_upto(ps, k) is None,
    decreases m - k,
{
    if k < m {
        lemma_disorder_prefix_none(ps, k + 1, m);
    }
}

/// The last product before `k` on a qubit comes before `k`.
proof fn lemma_last_before_below(ps: Seq<PauliProduct>, k: int, q: i32)
    requires
        k >= 0,
    ensures
        last_before(ps, k, q) matches Some(p) ==> p < k,
    decreases k,
{
    if k > 0 {
        lemma_last_before_below(ps, k - 1, q);
    }
}

impl PauliProductDag {
    /// The position of node `v` in the topological order.
    pub open spec fn order(&self, v: int) -> int {
        self.topological_order@[v] as int
    }

    /// Node `v` sits after one of its children or before one of its
    /// parents in the topological order.
    pub open spec fn bad_order(&self, v: int) -> bool {
        ||| exists|c: int| self.edge(v, c) && #[trigger] self.order(c) < self.order(v)
        ||| exists|p: int| self.edge(p, v) && #[trigger] self.order(p) > self.order(v)
    }

    /// Node `node_id` sits after one of its children or before one of its
    /// parents in the topological order.
    pub fn is_bad_topo_order(&self, node_id: usize) -> (r: bool)
        requires
            self.wf(),
            node_id < self.num_nodes,
        ensures
            r == self.bad_order(node_id as int),
    {
        let here = self.topological_order[node_id];
        let cs = &self.children[node_id];
        let mut i: usize = 0;
        while i < cs.len()
            invariant
                self.wf(),
                node_id < self.num_nodes,
                cs == self.children@[node_id as int],
                here == self.order(node_id as int),
                i <= cs@.len(),
                forall|k: int| 0 <= k < i ==> self.order(#[trigger] cs@[k] as int) >= here,
            decreases cs@.len() - i,
        {
            let c = cs[i];
            assert(cs@.contains(c));
            assert(id_set(self.children@[node_id as int]@, self.num_nodes as nat));
            assert(self.children@[node_id as int]@[i as int] < self.num_nodes);
            if self.topological_order[c] < here {
                assert(self.edge(node_id as int, c as int) && self.order(c as int) < self.order(node_id as int));
                assert(self.bad_order(node_id as int));
                return true;
            }
            i += 1;
        }
        let ps = &self.parents[node_id];
        let mut i: usize = 0;
        while i < ps.len()
            invariant
                self.wf(),
                node_id < self.num_nodes,
                ps == self.parents@[node_id as int],
                here == self.order(node_id as int),
                i <= ps@.len(),
                forall|k: int| 0 <= k < i ==> self.order(#[trigger] ps@[k] as int) <= here,
            decreases ps@.len() - i,
        {
            let p = ps[i];
            assert(ps@.contains(p));
            assert(self.children@[p as int]@.contains(node_id));
            assert(id_set(self.parents@[node_id as int]@, self.num_nodes as nat));
            assert(self.parents@[node_id as int]@[i as int] < self.num_nodes);
            if self.topological_order[p] > here {
                assert(self.edge(p as int, node_id as int) && self.order(p as int) > self.order(node_id as int));
                assert(self.bad_order(node_id as int));
                return true;
            }
            i += 1;
        }
        proof {
            assert forall|c: int| self.edge(node_id as int, c) implies #[trigger] self.order(c) >= self.order(node_id as int) by {
                let k = choose|k: int| 0 <= k < cs@.len() && cs@[k] == c as usize;
            }
            assert forall|p: int| self.edge(p, node_id as int) implies #[trigger] self.order(p) <= self.order(node_id as int) by {
                assert(self.parents@[node_id as int]@.contains(p as usize));
                let k = choose|k: int| 0 <= k < ps@.len() && ps@[k] == p as usize;
            }
        }
        false
    }

    /// A non-Clifford node is done commuting when none of its parents is a
    /// Clifford node or a node still to commute.
    pub fn done_commuting_nonclifford(&self, node_id: usize, uncommuted_noncliffords: &Vec<usize>) -> (r: bool)
        requires
            self.wf(),
            node_id < self.num_nodes,
        ensures
            r == !exists|p: int| self.edge(p, node_id as int)
                && (self.clifford(p) || uncommuted_noncliffords@.contains(p as usize)),
    {
        let ps = &self.parents[node_id];
        let mut i: usize = 0;
        while i < ps.len()
            invariant
                self.wf(),
                node_id < self.num_nodes,
                ps == self.parents@[node_id as int],
                i <= ps@.len(),
                forall|k: int| 0 <= k < i ==> !self.clifford(#[trigger] ps@[k] as int)
                    && !uncommuted_noncliffords@.contains(ps@[k]),
            decreases ps@.len() - i,
        {
            let p = ps[i];
            assert(ps@.contains(p));
            assert(self.children@[p as int]@.contains(node_id));
            if self.is_clifford(p) || set_contains(uncommuted_noncliffords, p) {
                assert(self.edge(p as int, node_id as int));
                return false;
            }
            i += 1;
        }
        proof {
            assert forall|p: int| self.edge(p, node_id as int)
                implies !(self.clifford(p) || uncommuted_noncliffords@.contains(p as usize)) by {
                assert(self.parents@[node_id as int]@.contains(p as usize));
                let k = choose|k: int| 0 <= k < ps@.len() && ps@[k] == p as usize;
                assert(self.clifford(ps@[k] as int) == self.clifford(p));
            }
        }
        true
    }
}

/// Whether one of the terms acts on qubit `q`.
fn terms_on_qubit(ts: &Vec<PauliTerm>, q: i32) -> (r: bool)
    ensures
        r == on_qubit(ts@, q),
{
    let mut i: usize = 0;
    while i < ts.len()
        invariant
            i <= ts@.len(),
            forall|k: int| 0 <= k < i ==> (#[trigger] ts@[k]).qubit != q,
        decreases ts@.len() - i,
    {
        if ts[i].qubit == q {
            assert(ts@[i as int].qubit == q);
            return true;
        }
        i += 1;
    }
    false
}

impl PauliProductDag {
    /// The key by which relations are ranked: a child by its position in the
    /// topological order, a parent by the reverse.
    pub open spec fn rank(&self, r: usize, from_children: bool) -> int {
        if from_children { self.order(r as int) } else { usize::MAX - self.order(r as int) }
    }

    /// Among the first `k` of the relations `rs`, the first of lowest rank
    /// among those acting on qubit `q`.
    pub open spec fn best_relation(&self, rs: Seq<usize>, k: int, q: i32, from_children: bool) -> Option<usize>
        decreases k,
    {
        if k <= 0 {
            None
        } else {
            let b = self.best_relation(rs, k - 1, q, from_children);
            let r = rs[k - 1];
            if !on_qubit(self.products@[r as int].terms@, q) {
                b
            } else {
                match b {
                    None => Some(r),
                    Some(x) => if self.rank(r, from_children) < self.rank(x, from_children) { Some(r) } else { Some(x) },
                }
            }
        }
    }

    /// The relations of `v` on the given side.
    pub open spec fn relations(&self, v: int, from_children: bool) -> Seq<usize> {
        if from_children { self.children@[v]@ } else { self.parents@[v]@ }
    }

    /// The child of `v` first in the topological order (or, for parents, the
    /// parent last in it) among those acting on qubit `q`.
    pub open spec fn relation_for(&self, v: int, q: i32, from_children: bool) -> Option<usize> {
        let rs = self.relations(v, from_children);
        self.best_relation(rs, rs.len() as int, q, from_children)
    }

    /// Among the children of `node_id` acting on `qubit`, the first in the
    /// topological order; among its parents (`from_children` false), the
    /// last; the first such in the set's order on a tie.
    pub fn get_relation_for_qubit(&self, node_id: usize, qubit: i32, from_children: bool) -> (r: Option<usize>)
        requires
            self.wf(),
            node_id < self.num_nodes,
        ensures
            r == self.relation_for(node_id as int, qubit, from_children),
    {
        let rs = if from_children { &self.children[node_id] } else { &self.parents[node_id] };
        let ghost rv = self.relations(node_id as int, from_children);
        let mut best: Option<usize> = None;
        let mut i: usize = 0;
        while i < rs.len()
            invariant
                self.wf(),
                node_id < self.num_nodes,
                rs@ == rv,
                rv == self.relations(node_id as int, from_children),
                i <= rs@.len(),
                best == self.best_relation(rv, i as int, qubit, from_children),
            decreases rs@.len() - i,
        {
            let r = rs[i];
            proof {
                if from_children {
                    assert(id_set(self.children@[node_id as int]@, self.num_nodes as nat));
                } else {
                    assert(id_set(self.parents@[node_id as int]@, self.num_nodes as nat));
                }
                assert(rv[i as int] < self.num_nodes);
            }
            if terms_on_qubit(&self.products[r].terms, qubit) {
                best = match best {
                    None => Some(r),
                    Some(x) => {
                        proof { lemma_best_in_range(self, rv, i as int, qubit, from_children, node_id as int); }
                        let better = if from_children {
                            self.topological_order[r] < self.topological_order[x]
                        } else {
                            usize::MAX - self.topological_order[r] < usize::MAX - self.topological_order[x]
                        };
                        if better { Some(r) } else { Some(x) }
                    },
                };
            }
            i += 1;
        }
        best
    }

    /// The qubits of node `node_id`, in term order, on which its relation
    /// (see `get_relation_for_qubit`) is `related_id`.
    pub fn get_related_qubits(&self, node_id: usize, related_id: usize, from_children: bool) -> (r: Vec<i32>)
        requires
            self.wf(),
            node_id < self.num_nodes,
        ensures
            r@ == self.related_qubits(node_id as int, related_id, from_children),
    {
        let ts = &self.products[node_id].terms;
        let mut r: Vec<i32> = Vec::new();
        let mut i: usize = 0;
        while i < ts.len()
            invariant
                self.wf(),
                node_id < self.num_nodes,
                ts == self.products@[node_id as int].terms,
                i <= ts@.len(),
                r@ == self.related_upto(node_id as int, related_id, from_children, i as int),
            decreases ts@.len() - i,
        {
            let q = ts[i].qubit;
            match self.get_relation_for_qubit(node_id, q, from_children) {
                Some(id) => {
                    if id == related_id {
                        r.push(q);
                    }
                },
                None => {},
            }
            i += 1;
        }
        r
    }

    /// Among the first `k` terms of node `v`, the qubits on which its
    /// relation is `related`.
    pub open spec fn related_upto(&self, v: int, related: usize, from_children: bool, k: int) -> Seq<i32>
        decreases k,
    {
        if k <= 0 {
            Seq::empty()
        } else {
            let q = self.products@[v].terms@[k - 1].qubit;
            let prev = self.related_upto(v, related, from_children, k - 1);
            if self.relation_for(v, q, from_children) == Some(related) { prev.push(q) } else { prev }
        }
    }

    /// The qubits of node `v`, in term order, on which its relation is `related`.
    pub open spec fn related_qubits(&self, v: int, related: usize, from_children: bool) -> Seq<i32> {
        self.related_upto(v, related, from_children, self.products@[v].terms@.len() as int)
    }

    /// The qubits on which `grandparent` and `parent` are each other's
    /// nearest relation, seen from the grandparent's children or from the
    /// parent's parents.
    pub open spec fn shared_qubits(&self, grandparent: usize, parent: usize, from_children: bool) -> Seq<i32> {
        if from_children {
            self.related_qubits(grandparent as int, parent, true)
        } else {
            self.related_qubits(parent as int, grandparent, false)
        }
    }

    /// Whether the edge `grandparent_id -> parent_id` (when there is one)
    /// carries no qubit beyond those of `node_id`: every qubit on which the
    /// two are each other's nearest relation is a qubit of `node_id`.
    pub fn should_erase_relation(&self, grandparent_id: usize, parent_id: usize, node_id: usize, from_children: bool) -> (r: bool)
        requires
            self.wf(),
            grandparent_id < self.num_nodes,
            parent_id < self.num_nodes,
            node_id < self.num_nodes,
        ensures
            r == (self.edge(grandparent_id as int, parent_id as int) && forall|k: int|
                0 <= k < self.shared_qubits(grandparent_id, parent_id, from_children).len()
                ==> on_qubit(self.products@[node_id as int].terms@, #[trigger] self.shared_qubits(grandparent_id, parent_id, from_children)[k])),
    {
        if !set_contains(&self.children[grandparent_id], parent_id) {
            return false;
        }
        let qs = if from_children {
            self.get_related_qubits(grandparent_id, parent_id, true)
        } else {
            self.get_related_qubits(parent_id, grandparent_id, false)
        };
        let mut k: usize = 0;
        while k < qs.len()
            invariant
                self.wf(),
                node_id < self.num_nodes,
                grandparent_id < self.num_nodes,
                parent_id < self.num_nodes,
                self.edge(grandparent_id as int, parent_id as int),
                qs@ == self.shared_qubits(grandparent_id, parent_id, from_children),
                k <= qs@.len(),
                forall|j: int| 0 <= j < k ==> on_qubit(self.products@[node_id as int].terms@, #[trigger] qs@[j]),
            decreases qs@.len() - k,
        {
            if !terms_on_qubit(&self.products[node_id].terms, qs[k]) {
                assert(!on_qubit(self.products@[node_id as int].terms@, self.shared_qubits(grandparent_id, parent_id, from_children)[k as int]));
                return false;
            }
            k += 1;
        }
        true
    }
}

/// The best relation so far is one of the relations scanned.
proof fn lemma_best_in_range(d: &PauliProductDag, rs: Seq<usize>, k: int, q: i32, from_children: bool, v: int)
    requires
        d.wf(),
        0 <= v < d.num_nodes,
        rs == d.relations(v, from_children),
        0 <= k <= rs.len(),
    ensures
        d.best_relation(rs, k, q, from_children) matches Some(x) ==> x < d.num_nodes,
    decreases k,
{
    if k > 0 {
        lemma_best_in_range(d, rs, k - 1, q, from_children, v);
        if from_children {
            assert(id_set(d.children@[v]@, d.num_nodes as nat));
        } else {
            assert(id_set(d.parents@[v]@, d.num_nodes as nat));
        }
        assert(rs[k - 1] < d.num_nodes);
    }
}

/// The number of non-Clifford nodes among the first `k` of `cs`.
pub open spec fn nonclifford_count(ps: Seq<PauliProduct>, cs: Seq<usize>, k: int) -> nat
    decreases k,
{
    if k <= 0 { 0 } else { nonclifford_count(ps, cs, k - 1) + if ps[cs[k - 1] as int].angle.is_clifford { 0nat } else { 1nat } }
}

impl PauliProductDag {
    /// The edges from a Clifford node to a non-Clifford child, over the
    /// first `k` nodes.
    pub open spec fn failures_upto(&self, k: int) -> nat
        decreases k,
    {
        if k <= 0 {
            0
        } else {
            self.failures_upto(k - 1) + if self.clifford(k - 1) {
                nonclifford_count(self.products@, self.children@[k - 1]@, self.children@[k - 1]@.len() as int)
            } else {
                0nat
            }
        }
    }

    /// The number of edges from a Clifford node to a non-Clifford child
    /// (as a `u32`): once every Clifford has been commuted to the end there
    /// are none. The Clifford count kept must match the graph.
    pub fn verify_clifford_relations(&self) -> (r: u32)
        requires
            self.wf(),
            (cliffords_upto(self.products@, self.num_nodes as int) as u32) == (self.num_cliffords as u32),
            self.failures_upto(self.num_nodes as int) <= usize::MAX,
        ensures
            r == (self.failures_upto(self.num_nodes as int) as u32),
    {
        let mut failures: usize = 0;
        let mut v: usize = 0;
        while v < self.num_nodes
            invariant
                self.wf(),
                v <= self.num_nodes,
                failures == self.failures_upto(v as int),
                self.failures_upto(self.num_nodes as int) <= usize::MAX,
            decreases self.num_nodes - v,
        {
            proof { lemma_failures_monotone(self, v as int + 1, self.num_nodes as int); }
            if self.is_clifford(v) {
                let cs = &self.children[v];
                let mut k: usize = 0;
                let mut here: usize = 0;
                while k < cs.len()
                    invariant
                        self.wf(),
                        v < self.num_nodes,
                        cs == self.children@[v as int],
                        k <= cs@.len(),
                        here == nonclifford_count(self.products@, cs@, k as int),
                        here <= k,
                    decreases cs@.len() - k,
                {
                    assert(id_set(self.children@[v as int]@, self.num_nodes as nat));
                    assert(cs@[k as int] < self.num_nodes);
                    if !self.is_clifford(cs[k]) {
                        here += 1;
                    }
                    k += 1;
                }
                failures = failures + here;
            }
            v += 1;
        }
        failures as u32
    }
}

proof fn lemma_failures_monotone(d: &PauliProductDag, j: int, k: int)
    requires
        0 <= j <= k,
    ensures
        d.failures_upto(j) <= d.failures_upto(k),
    decreases k - j,
{
    if j < k {
        lemma_failures_monotone(d, j, k - 1);
    }
}

/// The number of unused nodes among the first `k`.
pub open spec fn unused_upto(used: Seq<bool>, k: int) -> nat
    decreases k,
{
    if k <= 0 { 0 } else { unused_upto(used, k - 1) + if used[k - 1] { 0nat } else { 1nat } }
}

proof fn lemma_unused_le(used: Seq<bool>, k: int)
    requires
        0 <= k,
    ensures
        unused_upto(used, k) <= k,
    decreases k,
{
    if k > 0 { lemma_unused_le(used, k - 1); }
}

/// Setting an unused node used lowers the count by one.
proof fn lemma_unused_set(used: Seq<bool>, v: int, k: int)
    requires
        0 <= v < used.len(),
        !used[v],
        v < k <= used.len(),
    ensures
        unused_upto(used.update(v, true), k) + 1 == unused_upto(used, k),
    decreases k,
{
    if k - 1 > v {
        lemma_unused_set(used, v, k - 1);
    } else {
        assert forall|j: int| 0 <= j < v implies used.update(v, true)[j] == used[j] by {}
        lemma_unused_same(used.update(v, true), used, v);
    }
}

proof fn lemma_unused_same(a: Seq<bool>, b: Seq<bool>, k: int)
    requires
        0 <= k <= a.len(),
        k <= b.len(),
        forall|j: int| 0 <= j < k ==> a[j] == b[j],
    ensures
        unused_upto(a, k) == unused_upto(b, k),
    decreases k,
{
    if k > 0 { lemma_unused_same(a, b, k - 1); }
}

/// With an unused node among the first `k`, the count is positive and there
/// is an unused node of lowest position in the order among them.
proof fn lemma_min_unused(d: &PauliProductDag, used: Seq<bool>, k: int) -> (m: int)
    requires
        0 < k <= used.len(),
        used.len() == d.num_nodes,
        d.wf(),
        unused_upto(used, k) > 0,
    ensures
        0 <= m < k,
        !used[m],
        forall|u: int| 0 <= u < k && !used[u] ==> d.order(m) <= #[trigger] d.order(u),
    decreases k,
{
    if unused_upto(used, k - 1) > 0 {
        let m0 = lemma_min_unused(d, used, k - 1);
        if !used[k - 1] && d.order(k - 1) < d.order(m0) { k - 1 } else { m0 }
    } else {
        assert forall|u: int| 0 <= u < k - 1 implies used[u] by {
            if !used[u] { lemma_unused_pos(used, u, k - 1); }
        }
        k - 1
    }
}

proof fn lemma_unused_pos(used: Seq<bool>, u: int, k: int)
    requires
        0 <= u < k <= used.len(),
        !used[u],
    ensures
        unused_upto(used, k) > 0,
    decreases k,
{
    if k - 1 > u { lemma_unused_pos(used, u, k - 1); }
}

impl PauliProductDag {
    /// The largest of `base` and the layers `ls` of the first `k` of `ps`.
    pub open spec fn max_layer_of(ls: Seq<int>, ps: Seq<usize>, k: int, base: int) -> int
        decreases k,
    {
        if k <= 0 {
            base
        } else {
            let m = Self::max_layer_of(ls, ps, k - 1, base);
            if ls[ps[k - 1] as int] > m { ls[ps[k - 1] as int] } else { m }
        }
    }

    /// The layers the products carry.
    pub open spec fn layers(&self) -> Seq<int> {
        self.products@.map_values(|p: PauliProduct| p.layer as int)
    }

    /// Every node sits one layer below its deepest parent (layer 0 without parents).
    pub open spec fn layered(&self) -> bool {
        forall|v: int| 0 <= v < self.num_nodes ==> #[trigger] self.layers()[v]
            == Self::max_layer_of(self.layers(), self.parents@[v]@, self.parents@[v]@.len() as int, -1) + 1
    }

    /// Every edge goes forward in the topological order.
    pub open spec fn order_respected(&self) -> bool {
        forall|p: int, c: int| #[trigger] self.edge(p, c) ==> self.order(p) < self.order(c)
    }

    /// Node `u` is not placed yet but all its parents are.
    pub open spec fn ready(&self, used: Seq<bool>, u: int) -> bool {
        !used[u] && forall|p: int| #[trigger] self.edge(p, u) ==> used[p]
    }

    /// Sets the layer of node `v`.
    fn set_layer(&mut self, v: usize, layer: u32)
        requires
            old(self).wf(),
            v < old(self).num_nodes,
        ensures
            final(self).wf(),
            final(self).products@ == old(self).products@.update(v as int, PauliProduct { layer, ..old(self).products@[v as int] }),
            final(self).children == old(self).children,
            final(self).parents == old(self).parents,
            final(self).roots == old(self).roots,
            final(self).topological_order == old(self).topological_order,
            final(self).num_nodes == old(self).num_nodes,
            final(self).num_cliffords == old(self).num_cliffords,
            final(self).max_qubit == old(self).max_qubit,
            final(self).topo_steps == old(self).topo_steps,
            final(self).update_topo_calls == old(self).update_topo_calls,
            final(self).topo_sort_children == old(self).topo_sort_children,
    {
        let mut tmp = PauliProduct { terms: Vec::new(), angle: Angle { numerator: 0, denominator: 0, is_clifford: false }, layer: 0 };
        self.products.set_and_swap(v, &mut tmp);
        tmp.layer = layer;
        self.products.set_and_swap(v, &mut tmp);
    }

    /// The invariant of the layering rounds after `r` rounds: placed nodes
    /// sit below round `r`, have their parents placed and obey the layer
    /// equation; every unplaced node has a parent unplaced or placed in the
    /// last round; some node was placed in the last round.
    pub open spec fn layering_inv(&self, used: Seq<bool>, r: int) -> bool {
        let n = self.num_nodes as int;
        let ls = self.layers();
        &&& forall|v: int| 0 <= v < n && #[trigger] used[v] ==> ls[v] < r
        &&& forall|v: int, p: int| 0 <= v < n && used[v] && #[trigger] self.edge(p, v) ==> used[p]
        &&& forall|v: int| 0 <= v < n && #[trigger] used[v] ==> ls[v]
            == Self::max_layer_of(ls, self.parents@[v]@, self.parents@[v]@.len() as int, -1) + 1
        &&& forall|v: int| 0 <= v < n && !#[trigger] used[v] ==> r == 0
            || exists|p: int| self.edge(p, v) && (!used[p] || ls[p] >= r - 1)
        &&& r == 0 ==> forall|v: int| 0 <= v < n ==> !#[trigger] used[v]
        &&& r > 0 ==> exists|v: int| 0 <= v < n && used[v] && #[trigger] ls[v] == r - 1
    }

    /// One layering round: every unplaced node whose parents are all placed
    /// joins layer `layer_idx`. At least one node joins.
    fn place_round(&mut self, used: &mut Vec<bool>, layer_idx: u32) -> (placed: usize)
        requires
            old(self).wf(),
            old(self).order_respected(),
            old(used)@.len() == old(self).num_nodes,
            unused_upto(old(used)@, old(self).num_nodes as int) > 0,
        ensures
            final(self).wf(),
            final(used)@.len() == old(used)@.len(),
            forall|u: int| 0 <= u < old(self).num_nodes ==> #[trigger] final(used)@[u] == (old(used)@[u] || old(self).ready(old(used)@, u)),
            forall|u: int| 0 <= u < old(self).num_nodes ==> #[trigger] final(self).layers()[u]
                == (if old(self).ready(old(used)@, u) { layer_idx as int } else { old(self).layers()[u] }),
            exists|m: int| 0 <= m < old(self).num_nodes && #[trigger] old(self).ready(old(used)@, m),
            placed >= 1,
            unused_upto(final(used)@, old(self).num_nodes as int) + placed == unused_upto(old(used)@, old(self).num_nodes as int),
            final(self).products@.len() == old(self).products@.len(),
            forall|u: int| 0 <= u < old(self).num_nodes ==> (#[trigger] final(self).products@[u]).terms == old(self).products@[u].terms
                && final(self).products@[u].angle == old(self).products@[u].angle,
            final(self).children == old(self).children,
            final(self).parents == old(self).parents,
            final(self).roots == old(self).roots,
            final(self).topological_order == old(self).topological_order,
            final(self).num_nodes == old(self).num_nodes,
            final(self).num_cliffords == old(self).num_cliffords,
            final(self).max_qubit == old(self).max_qubit,
            final(self).topo_steps == old(self).topo_steps,
            final(self).update_topo_calls == old(self).update_topo_calls,
            final(self).topo_sort_children == old(self).topo_sort_children,
    {
        let ghost d0 = *self;
        let ghost used0 = used@;
        let n = self.num_nodes;
        let mut snap: Vec<bool> = Vec::new();
        let mut k: usize = 0;
        while k < n
            invariant
                k <= n,
                used@ == used0,
                used0.len() == n,
                snap@ == used0.subrange(0, k as int),
            decreases n - k,
        {
            snap.push(used[k]);
            k += 1;
            assert(snap@ =~= used0.subrange(0, k as int));
        }
        assert(snap@ =~= used0);
        let ghost m = lemma_min_unused(self, used0, n as int);
        assert(d0.ready(used0, m)) by {
            assert forall|p: int| #[trigger] d0.edge(p, m) implies used0[p] by {
                assert(d0.order(p) < d0.order(m));
            }
        }
        let mut placed: usize = 0;
        let mut v: usize = 0;
        while v < n
            invariant
                self.wf(),
                n == self.num_nodes,
                v <= n,
                used@.len() == n,
                snap@ == used0,
                used0.len() == n,
                0 <= m < n,
                d0.ready(used0, m),
                v > m ==> placed >= 1,
                placed <= v,
                unused_upto(used@, n as int) + placed == unused_upto(used0, n as int),
                forall|p: int, c: int| #[trigger] self.edge(p, c) == d0.edge(p, c),
                self.children == d0.children,
                self.parents == d0.parents,
                self.roots == d0.roots,
                self.topological_order == d0.topological_order,
                self.num_cliffords == d0.num_cliffords,
                self.max_qubit == d0.max_qubit,
                self.topo_steps == d0.topo_steps,
                self.update_topo_calls == d0.update_topo_calls,
                self.topo_sort_children == d0.topo_sort_children,
                self.products@.len() == n,
                d0.layers().len() == n,
                forall|u: int| 0 <= u < n ==> (#[trigger] self.products@[u]).terms == d0.products@[u].terms
                    && self.products@[u].angle == d0.products@[u].angle,
                forall|u: int| 0 <= u < n ==> #[trigger] used@[u] == (used0[u] || (u < v && d0.ready(used0, u))),
                forall|u: int| 0 <= u < n ==> #[trigger] self.layers()[u] == (if u < v && d0.ready(used0, u) { layer_idx as int } else { d0.layers()[u] }),
            decreases n - v,
        {
            let mut all_placed = !snap[v];
            if all_placed {
                let ps = &self.parents[v];
                let mut i: usize = 0;
                while i < ps.len()
                    invariant
                        self.wf(),
                        v < n,
                        n == self.num_nodes,
                        snap@ == used0,
                        used0.len() == n,
                        ps == self.parents@[v as int],
                        i <= ps@.len(),
                        all_placed == forall|j: int| 0 <= j < i ==> used0[#[trigger] ps@[j] as int],
                    decreases ps@.len() - i,
                {
                    assert(id_set(self.parents@[v as int]@, n as nat));
                    assert(ps@[i as int] < n);
                    if !snap[ps[i]] {
                        all_placed = false;
                    }
                    i += 1;
                }
                proof {
                    assert(all_placed == d0.ready(used0, v as int)) by {
                        if all_placed {
                            assert forall|p: int| #[trigger] d0.edge(p, v as int) implies used0[p] by {
                                assert(self.edge(p, v as int));
                                assert(self.parents@[v as int]@.contains(p as usize));
                                let j = choose|j: int| 0 <= j < ps@.len() && ps@[j] == p as usize;
                            }
                        } else {
                            let j = choose|j: int| 0 <= j < ps@.len() && !used0[#[trigger] ps@[j] as int];
                            assert(ps@.contains(ps@[j]));
                            assert(self.edge(ps@[j] as int, v as int));
                        }
                    }
                }
            } else {
                assert(!d0.ready(used0, v as int));
            }
            let ghost ls_before = self.layers();
            let ghost before = *self;
            if all_placed {
                proof {
                    lemma_unused_set(used@, v as int, n as int);
                }
                used.set(v, true);
                placed = placed + 1;
                self.set_layer(v, layer_idx);
                assert(self.layers() =~= ls_before.update(v as int, layer_idx as int));
                assert forall|p: int, c: int| #[trigger] self.edge(p, c) == d0.edge(p, c) by {
                    assert(before.edge(p, c) == d0.edge(p, c));
                }
            } else {
                assert(self.layers() =~= ls_before);
            }
            v += 1;
        }
        placed
    }

    /// Assigns every node its layer, by rounds: in each round every node
    /// not yet placed whose parents were all placed before the round joins
    /// the round's layer. Returns the number of layers.
    pub fn set_layers(&mut self) -> (num_layers: usize)
        requires
            old(self).wf(),
            old(self).order_respected(),
            old(self).num_nodes < u32::MAX,
        ensures
            final(self).wf(),
            final(self).layered(),
            forall|v: int| 0 <= v < final(self).num_nodes ==> {
                &&& (#[trigger] final(self).products@[v]).terms == old(self).products@[v].terms
                &&& final(self).products@[v].angle == old(self).products@[v].angle
                &&& final(self).layers()[v] < num_layers
            },
            old(self).num_nodes > 0 ==> exists|v: int| 0 <= v < old(self).num_nodes && #[trigger] final(self).layers()[v] == num_layers - 1,
            old(self).num_nodes == 0 ==> num_layers == 0,
            final(self).products@.len() == old(self).products@.len(),
            final(self).children == old(self).children,
            final(self).parents == old(self).parents,
            final(self).roots == old(self).roots,
            final(self).topological_order == old(self).topological_order,
            final(self).num_nodes == old(self).num_nodes,
            final(self).num_cliffords == old(self).num_cliffords,
            final(self).max_qubit == old(self).max_qubit,
            final(self).topo_steps == old(self).topo_steps,
            final(self).update_topo_calls == old(self).update_topo_calls,
            final(self).topo_sort_children == old(self).topo_sort_children,
    {
        let n = self.num_nodes;
        let ghost d0 = *self;
        let mut used: Vec<bool> = Vec::new();
        let mut k: usize = 0;
        while k < n
            invariant
                k <= n,
                used@ == Seq::new(k as nat, |j: int| false),
            decreases n - k,
        {
            used.push(false);
            k += 1;
            assert(used@ =~= Seq::new(k as nat, |j: int| false));
        }
        proof {
            lemma_all_unused(used@, n as int);
        }
        let mut left: usize = n;
        let mut layer_idx: u32 = 0;
        while left > 0
            invariant
                self.wf(),
                n == self.num_nodes,
                used@.len() == n,
                left == unused_upto(used@, n as int),
                layer_idx as int + left <= n,
                n < u32::MAX,
                layer_idx == 0 ==> left == n,
                self.order_respected(),
                self.layering_inv(used@, layer_idx as int),
                self.children == d0.children,
                self.parents == d0.parents,
                self.roots == d0.roots,
                self.topological_order == d0.topological_order,
                self.num_cliffords == d0.num_cliffords,
                self.max_qubit == d0.max_qubit,
                self.topo_steps == d0.topo_steps,
                self.update_topo_calls == d0.update_topo_calls,
                self.topo_sort_children == d0.topo_sort_children,
                self.products@.len() == n,
                forall|v: int| 0 <= v < n ==> (#[trigger] self.products@[v]).terms == d0.products@[v].terms
                    && self.products@[v].angle == d0.products@[v].angle,
            decreases left,
        {
            let ghost dr = *self;
            let ghost ur = used@;
            let placed = self.place_round(&mut used, layer_idx);
            proof {
                assert forall|p: int, c: int| #[trigger] self.edge(p, c) == dr.edge(p, c) by {}
                lemma_round(dr, *self, ur, used@, layer_idx as int);
            }
            left = left - placed;
            layer_idx = layer_idx + 1;
        }
        proof {
            assert forall|v: int| 0 <= v < n implies #[trigger] used@[v] by {
                if !used@[v] { lemma_unused_pos(used@, v, n as int); }
            }
            assert forall|v: int| 0 <= v < n implies #[trigger] self.layers()[v]
                == Self::max_layer_of(self.layers(), self.parents@[v]@, self.parents@[v]@.len() as int, -1) + 1 by {
                assert(used@[v]);
            }
            assert forall|v: int| 0 <= v < n implies self.layers()[v] < layer_idx by {
                assert(used@[v]);
            }
        }
        (layer_idx as usize)
    }
}

/// One round keeps the layering invariant, one round further.
proof fn lemma_round(d0: PauliProductDag, d1: PauliProductDag, used0: Seq<bool>, used1: Seq<bool>, r: int)
    requires
        d0.wf(),
        d0.layering_inv(used0, r),
        r >= 0,
        used0.len() == d0.num_nodes,
        d1.num_nodes == d0.num_nodes,
        d1.parents == d0.parents,
        forall|p: int, c: int| #[trigger] d1.edge(p, c) == d0.edge(p, c),
        d1.layers().len() == d0.layers().len(),
        d0.layers().len() == d0.num_nodes,
        forall|u: int| 0 <= u < d0.num_nodes ==> #[trigger] used1[u] == (used0[u] || d0.ready(used0, u)),
        forall|u: int| 0 <= u < d0.num_nodes ==> #[trigger] d1.layers()[u]
            == (if d0.ready(used0, u) { r } else { d0.layers()[u] }),
        exists|m: int| 0 <= m < d0.num_nodes && #[trigger] d0.ready(used0, m),
    ensures
        d1.layering_inv(used1, r + 1),
{
    let n = d0.num_nodes as int;
    let ls0 = d0.layers();
    let ls1 = d1.layers();
    assert forall|u: int| 0 <= u < n && #[trigger] used1[u] implies ls1[u] < r + 1 by {
        if used0[u] { assert(!d0.ready(used0, u)); }
    }
    assert forall|u: int, p: int| 0 <= u < n && used1[u] && #[trigger] d1.edge(p, u) implies used1[p] by {
        assert(d0.edge(p, u));
        if used0[u] {} else { assert(d0.ready(used0, u)); }
        assert(0 <= p < n);
    }
    assert forall|u: int| 0 <= u < n && #[trigger] used1[u] implies ls1[u]
        == PauliProductDag::max_layer_of(ls1, d1.parents@[u]@, d1.parents@[u]@.len() as int, -1) + 1 by {
        let pu = d0.parents@[u]@;
        assert(id_set(pu, n as nat));
        assert forall|j: int| 0 <= j < pu.len() implies used0[#[trigger] pu[j] as int] by {
            assert(pu.contains(pu[j]));
            assert(d0.children@[pu[j] as int]@.contains(u as usize));
            assert(d0.edge(pu[j] as int, u));
            if used0[u] {} else { assert(d0.ready(used0, u)); }
        }
        assert forall|j: int| 0 <= j < pu.len() implies ls1[#[trigger] pu[j] as int] == ls0[pu[j] as int] by {
            assert(used0[pu[j] as int]);
            assert(!d0.ready(used0, pu[j] as int));
        }
        lemma_max_layer_agree(ls1, ls0, pu, pu.len() as int, -1);
        if used0[u] {
            assert(!d0.ready(used0, u));
        } else {
            assert(d0.ready(used0, u));
            assert forall|j: int| 0 <= j < pu.len() implies ls0[#[trigger] pu[j] as int] <= r - 1 by {
                assert(used0[pu[j] as int]);
            }
            lemma_max_layer_bound(ls0, pu, pu.len() as int, -1, r - 1);
            if r == 0 {
                assert(pu.len() == 0) by {
                    if pu.len() > 0 { assert(used0[pu[0] as int]); }
                }
            } else {
                let p = choose|p: int| d0.edge(p, u) && (!used0[p] || ls0[p] >= r - 1);
                assert(d0.parents@[u]@.contains(p as usize));
                let j = choose|j: int| 0 <= j < pu.len() && pu[j] == p as usize;
                assert(used0[pu[j] as int]);
                lemma_max_layer_is(ls0, pu, pu.len() as int, -1, r - 1, j);
            }
        }
    }
    assert forall|u: int| 0 <= u < n && !#[trigger] used1[u] implies r + 1 == 0
        || exists|p: int| d1.edge(p, u) && (!used1[p] || ls1[p] >= r) by {
        assert(!used0[u] && !d0.ready(used0, u));
        let p = choose|p: int| #[trigger] d0.edge(p, u) && !used0[p];
        assert(d1.edge(p, u));
        assert(0 <= p < n);
        if used1[p] { assert(d0.ready(used0, p)); }
    }
    let m = choose|m: int| 0 <= m < d0.num_nodes && #[trigger] d0.ready(used0, m);
    assert(used1[m] && ls1[m] == r);
}

proof fn lemma_all_unused(used: Seq<bool>, j: int)
    requires
        0 <= j <= used.len(),
        forall|i: int| 0 <= i < used.len() ==> !used[i],
    ensures
        unused_upto(used, j) == j,
    decreases j,
{
    if j > 0 { lemma_all_unused(used, j - 1); }
}

proof fn lemma_max_layer_agree(a: Seq<int>, b: Seq<int>, ps: Seq<usize>, k: int, base: int)
    requires
        0 <= k <= ps.len(),
        forall|j: int| 0 <= j < ps.len() ==> a[#[trigger] ps[j] as int] == b[ps[j] as int],
    ensures
        PauliProductDag::max_layer_of(a, ps, k, base) == PauliProductDag::max_layer_of(b, ps, k, base),
    decreases k,
{
    if k > 0 { lemma_max_layer_agree(a, b, ps, k - 1, base); assert(a[ps[k - 1] as int] == b[ps[k - 1] as int]); }
}

proof fn lemma_max_layer_bound(ls: Seq<int>, ps: Seq<usize>, k: int, base: int, bound: int)
    requires
        0 <= k <= ps.len(),
        base <= bound,
        forall|j: int| 0 <= j < ps.len() ==> ls[#[trigger] ps[j] as int] <= bound,
    ensures
        PauliProductDag::max_layer_of(ls, ps, k, base) <= bound,
        PauliProductDag::max_layer_of(ls, ps, k, base) >= base,
    decreases k,
{
    if k > 0 { lemma_max_layer_bound(ls, ps, k - 1, base, bound); assert(ls[ps[k - 1] as int] <= bound); }
}

proof fn lemma_max_layer_is(ls: Seq<int>, ps: Seq<usize>, k: int, base: int, bound: int, j: int)
    requires
        0 <= j < k <= ps.len(),
        ls[ps[j] as int] >= bound,
    ensures
        PauliProductDag::max_layer_of(ls, ps, k, base) >= bound,
    decreases k,
{
    if k - 1 > j { lemma_max_layer_is(ls, ps, k - 1, base, bound, j); }
    else {
        let m = PauliProductDag::max_layer_of(ls, ps, k - 1, base);
    }
}

/// In a layered graph every node sits in a deeper layer than each of its
/// parents.
pub proof fn lemma_layers_follow_edges(d: PauliProductDag)
    requires
        d.wf(),
        d.layered(),
    ensures
        forall|p: int, c: int| #[trigger] d.edge(p, c) ==> d.layers()[p] < d.layers()[c],
{
    assert forall|p: int, c: int| #[trigger] d.edge(p, c) implies d.layers()[p] < d.layers()[c] by {
        let pc = d.parents@[c]@;
        assert(pc.contains(p as usize));
        let j = choose|j: int| 0 <= j < pc.len() && pc[j] == p as usize;
        lemma_max_layer_is(d.layers(), pc, pc.len() as int, -1, d.layers()[p], j);
    }
}

impl PauliProductDag {
    /// `s` leads from a child of `start` other than `end` to its last node,
    /// each later step to a node other than `end` no later than `end` in
    /// the topological order.
    pub open spec fn pruned_path(&self, s: Seq<usize>, start: int, end: int) -> bool {
        &&& s.len() >= 1
        &&& self.edge(start, s[0] as int)
        &&& s[0] as int != end
        &&& forall|i: int| 1 <= i < s.len() ==> #[trigger] self.edge(s[i - 1] as int, s[i] as int)
            && s[i] as int != end && self.order(s[i] as int) <= self.order(end)
    }

    /// There is a path from `start` to `end` other than the direct edge,
    /// through nodes no later than `end` in the topological order.
    pub open spec fn indirect_path(&self, start: int, end: int) -> bool {
        exists|s: Seq<usize>| #[trigger] self.pruned_path(s, start, end) && self.edge(s.last() as int, end)
    }

    /// Whether `end` depends on `start` other than through the direct edge
    /// (a node reaches itself): a breadth-first search from the children of
    /// `start` other than `end`, not entering nodes after `end` in the
    /// topological order.
    pub fn indirect_path_exists(&self, start: usize, end: usize) -> (r: bool)
        requires
            self.wf(),
            start < self.num_nodes,
            end < self.num_nodes,
            start != end ==> !self.bad_order(start as int) && !self.bad_order(end as int)
                && self.order(start as int) < self.order(end as int),
        ensures
            r == (start == end || self.indirect_path(start as int, end as int)),
    {
        if start == end {
            return true;
        }
        let n = self.num_nodes;
        let te = self.topological_order[end];
        let mut visited: Vec<bool> = Vec::new();
        let mut k: usize = 0;
        while k < n
            invariant
                k <= n,
                visited@ == Seq::new(k as nat, |j: int| false),
            decreases n - k,
        {
            visited.push(false);
            k += 1;
            assert(visited@ =~= Seq::new(k as nat, |j: int| false));
        }
        proof { lemma_all_unused(visited@, n as int); }
        let mut queue: Vec<usize> = Vec::new();
        let cs = &self.children[start];
        let mut i: usize = 0;
        while i < cs.len()
            invariant
                self.wf(),
                n == self.num_nodes,
                start < n,
                end < n,
                te == self.order(end as int),
                cs == self.children@[start as int],
                i <= cs@.len(),
                visited@.len() == n,
                forall|v: int| 0 <= v < n ==> #[trigger] visited@[v] == queue@.contains(v as usize),
                forall|j: int| 0 <= j < queue@.len() ==> (#[trigger] queue@[j]) < n,
                queue@.no_duplicates(),
                queue@.len() + unused_upto(visited@, n as int) == n,
                forall|j: int| 0 <= j < i && cs@[j] != end ==> visited@[#[trigger] cs@[j] as int],
                forall|v: int| 0 <= v < n && #[trigger] visited@[v] ==> exists|s: Seq<usize>| self.pruned_path(s, start as int, end as int) && s.last() == v as usize,
            decreases cs@.len() - i,
        {
            let c = cs[i];
            assert(id_set(self.children@[start as int]@, n as nat));
            assert(c < n);
            if c != end && !visited[c] {
                proof {
                    let s1 = seq![c];
                    assert(self.pruned_path(s1, start as int, end as int)) by {
                        assert(cs@.contains(c));
                    }
                    lemma_unused_set(visited@, c as int, n as int);
                }
                let ghost q0 = queue@;
                let ghost v0 = visited@;
                visited.set(c, true);
                queue.push(c);
                proof {
                    assert forall|v: int| 0 <= v < n implies #[trigger] visited@[v] == queue@.contains(v as usize) by {
                        if v == c as int { assert(queue@[q0.len() as int] == c); }
                        else {
                            if queue@.contains(v as usize) {
                                let j = choose|j: int| 0 <= j < queue@.len() && queue@[j] == v as usize;
                                if j < q0.len() { assert(q0[j] == v as usize); }
                            }
                            if q0.contains(v as usize) {
                                let j = choose|j: int| 0 <= j < q0.len() && q0[j] == v as usize;
                                assert(queue@[j] == v as usize);
                            }
                        }
                    }
                    assert forall|v: int| 0 <= v < n && #[trigger] visited@[v] implies exists|s: Seq<usize>| self.pruned_path(s, start as int, end as int) && s.last() == v as usize by {
                        if v == c as int {
                            assert(self.pruned_path(seq![c], start as int, end as int) && seq![c].last() == c);
                        } else {
                            assert(v0[v]);
                        }
                    }
                }
            }
            i += 1;
        }
        let mut head: usize = 0;
        while head < queue.len()
            invariant
                self.wf(),
                n == self.num_nodes,
                start < n,
                end < n,
                start != end,
                te == self.order(end as int),
                head <= queue@.len(),
                visited@.len() == n,
                forall|v: int| 0 <= v < n ==> #[trigger] visited@[v] == queue@.contains(v as usize),
                forall|j: int| 0 <= j < queue@.len() ==> (#[trigger] queue@[j]) < n,
                queue@.no_duplicates(),
                queue@.len() + unused_upto(visited@, n as int) == n,
                forall|c: int| #[trigger] self.edge(start as int, c) && c != end ==> visited@[c],
                forall|v: int| 0 <= v < n && #[trigger] visited@[v] ==> exists|s: Seq<usize>| self.pruned_path(s, start as int, end as int) && s.last() == v as usize,
                forall|j: int, c: int| 0 <= j < head && #[trigger] self.edge(queue@[j] as int, c) ==> c != end
                    && (self.order(c) > te || visited@[c]),
            decreases 2 * unused_upto(visited@, n as int) + queue@.len() - head,
        {
            let current = queue[head];
            let ghost s_cur = choose|s: Seq<usize>| self.pruned_path(s, start as int, end as int) && s.last() == current;
            proof {
                assert(visited@[current as int]) by { assert(queue@.contains(current)); }
            }
            let cs = &self.children[current];
            let ghost q_before = queue@;
            let mut i: usize = 0;
            while i < cs.len()
                invariant
                    self.wf(),
                    n == self.num_nodes,
                    start < n,
                    end < n,
                    start != end,
                    te == self.order(end as int),
                    current < n,
                    current == queue@[head as int],
                    head < queue@.len(),
                    q_before.len() <= queue@.len(),
                    forall|j: int| 0 <= j < q_before.len() ==> queue@[j] == q_before[j],
                    cs == self.children@[current as int],
                    i <= cs@.len(),
                    visited@.len() == n,
                    forall|v: int| 0 <= v < n ==> #[trigger] visited@[v] == queue@.contains(v as usize),
                    forall|j: int| 0 <= j < queue@.len() ==> (#[trigger] queue@[j]) < n,
                    queue@.no_duplicates(),
                    queue@.len() + unused_upto(visited@, n as int) == n,
                    2 * unused_upto(visited@, n as int) + queue@.len() <= 2 * unused_upto(visited@, n as int) + q_before.len() + (queue@.len() - q_before.len()),
                    queue@.len() - q_before.len() == 0 || unused_upto(visited@, n as int) < n - q_before.len(),
                    forall|c: int| #[trigger] self.edge(start as int, c) && c != end ==> visited@[c],
                    forall|v: int| 0 <= v < n && #[trigger] visited@[v] ==> exists|s: Seq<usize>| self.pruned_path(s, start as int, end as int) && s.last() == v as usize,
                    self.pruned_path(s_cur, start as int, end as int) && s_cur.last() == current,
                    forall|j: int, c: int| 0 <= j < head && #[trigger] self.edge(queue@[j] as int, c) ==> c != end
                        && (self.order(c) > te || visited@[c]),
                    forall|t: int| 0 <= t < i ==> cs@[t] != end && (self.order(#[trigger] cs@[t] as int) > te || visited@[cs@[t] as int]),
                decreases cs@.len() - i,
            {
                let c = cs[i];
                assert(id_set(self.children@[current as int]@, n as nat));
                assert(c < n);
                assert(cs@.contains(c));
                if c == end {
                    proof {
                        assert(self.edge(s_cur.last() as int, end as int));
                        assert(self.indirect_path(start as int, end as int));
                    }
                    return true;
                }
                if !visited[c] {
                    if self.topological_order[c] <= te {
                        proof {
                            let s2 = s_cur.push(c);
                            assert(self.pruned_path(s2, start as int, end as int)) by {
                                assert forall|t: int| 1 <= t < s2.len() implies #[trigger] self.edge(s2[t - 1] as int, s2[t] as int)
                                    && s2[t] as int != end && self.order(s2[t] as int) <= self.order(end as int) by {
                                    if t < s_cur.len() { assert(s2[t - 1] == s_cur[t - 1] && s2[t] == s_cur[t]); }
                                    else {
                                        assert(s2[t - 1] == s_cur.last() && s2[t] == c);
                                        assert(self.children@[current as int]@.contains(c));
                                        assert(self.edge(current as int, c as int));
                                    }
                                }
                            }
                            lemma_unused_set(visited@, c as int, n as int);
                        }
                        let ghost q0 = queue@;
                        let ghost v0 = visited@;
                        visited.set(c, true);
                        queue.push(c);
                        proof {
                            assert forall|v: int| 0 <= v < n implies #[trigger] visited@[v] == queue@.contains(v as usize) by {
                                if v == c as int { assert(queue@[q0.len() as int] == c); }
                                else {
                                    if queue@.contains(v as usize) {
                                        let j = choose|j: int| 0 <= j < queue@.len() && queue@[j] == v as usize;
                                        if j < q0.len() { assert(q0[j] == v as usize); }
                                    }
                                    if q0.contains(v as usize) {
                                        let j = choose|j: int| 0 <= j < q0.len() && q0[j] == v as usize;
                                        assert(queue@[j] == v as usize);
                                    }
                                }
                            }
                            assert forall|v: int| 0 <= v < n && #[trigger] visited@[v] implies exists|s: Seq<usize>| self.pruned_path(s, start as int, end as int) && s.last() == v as usize by {
                                if v == c as int {
                                    assert(self.pruned_path(s_cur.push(c), start as int, end as int) && s_cur.push(c).last() == c);
                                } else {
                                    assert(v0[v]);
                                }
                            }
                            assert forall|a: int, b: int| 0 <= a < b < queue@.len() implies queue@[a] != queue@[b] by {
                                if b == q0.len() { assert(!v0[c as int]); assert(!q0.contains(c)); assert(q0[a] == queue@[a]); }
                            }
                        }
                    }
                }
                i += 1;
            }
            proof {
                assert forall|j: int, c: int| 0 <= j < head + 1 && #[trigger] self.edge(queue@[j] as int, c) implies c != end
                    && (self.order(c) > te || visited@[c]) by {
                    if j == head {
                        assert(self.children@[current as int]@.contains(c as usize));
                        let t = choose|t: int| 0 <= t < cs@.len() && cs@[t] == c as usize;
                    } else {
                        assert(queue@[j] == q_before[j]);
                    }
                }
            }
            head += 1;
        }
        proof {
            assert(!self.indirect_path(start as int, end as int)) by {
                if self.indirect_path(start as int, end as int) {
                    let s = choose|s: Seq<usize>| #[trigger] self.pruned_path(s, start as int, end as int) && self.edge(s.last() as int, end as int);
                    lemma_path_visited(self, s, start as int, end as int, visited@, queue@, s.len() as int);
                    let u = s.last();
                    assert(visited@[u as int]);
                    assert(queue@.contains(u));
                    let j = choose|j: int| 0 <= j < queue@.len() && queue@[j] == u;
                    assert(self.edge(queue@[j] as int, end as int));
                }
            }
        }
        false
    }
}

/// Every node of a pruned path lies in a search closure.
proof fn lemma_path_visited(d: &PauliProductDag, s: Seq<usize>, start: int, end: int, visited: Seq<bool>, queue: Seq<usize>, k: int)
    requires
        d.wf(),
        d.pruned_path(s, start, end),
        1 <= k <= s.len(),
        0 <= end < d.num_nodes,
        visited.len() == d.num_nodes,
        forall|v: int| 0 <= v < d.num_nodes ==> #[trigger] visited[v] == queue.contains(v as usize),
        forall|c: int| #[trigger] d.edge(start, c) && c != end ==> visited[c],
        forall|j: int, c: int| 0 <= j < queue.len() && #[trigger] d.edge(queue[j] as int, c) ==> c != end
            && (d.order(c) > d.order(end) || visited[c]),
    ensures
        forall|i: int| 0 <= i < k ==> visited[#[trigger] s[i] as int],
    decreases k,
{
    if k == 1 {
        assert(visited[s[0] as int]);
    } else {
        lemma_path_visited(d, s, start, end, visited, queue, k - 1);
        let i = k - 1;
        assert(d.edge(s[i - 1] as int, s[i] as int));
        assert(visited[s[i - 1] as int]);
        assert(s[i - 1] < d.num_nodes);
        assert(queue.contains(s[i - 1]));
        let j = choose|j: int| 0 <= j < queue.len() && queue[j] == s[i - 1];
        assert(d.edge(queue[j] as int, s[i] as int));
    }
}

/// With every edge going forward in the order, no node is out of order.
pub proof fn lemma_respected_not_bad(d: &PauliProductDag, v: int)
    requires
        d.order_respected(),
    ensures
        !d.bad_order(v),
{
    assert forall|c: int| d.edge(v, c) implies !(#[trigger] d.order(c) < d.order(v)) by {}
    assert forall|p: int| d.edge(p, v) implies !(#[trigger] d.order(p) > d.order(v)) by {}
}

impl PauliProductDag {
    /// Among the first `k` of the parents `ps` of `v`, the last of those
    /// latest in the topological order among the Clifford parents that
    /// `v` does not also depend on through another path.
    pub open spec fn youngest_upto(&self, ps: Seq<usize>, k: int, v: int) -> Option<usize>
        decreases k,
    {
        if k <= 0 {
            None
        } else {
            let b = self.youngest_upto(ps, k - 1, v);
            let r = ps[k - 1];
            if !(self.clifford(r as int) && !self.indirect_path(r as int, v)) {
                b
            } else {
                match b {
                    None => Some(r),
                    Some(x) => if self.order(r as int) >= self.order(x as int) { Some(r) } else { Some(x) },
                }
            }
        }
    }

    /// The node `youngest_upto` picks is a Clifford node.
    proof fn lemma_youngest_clifford(&self, ps: Seq<usize>, k: int, v: int)
        ensures
            self.youngest_upto(ps, k, v) matches Some(p) ==> self.clifford(p as int),
        decreases k,
    {
        if k > 0 {
            self.lemma_youngest_clifford(ps, k - 1, v);
        }
    }

    /// The Clifford parent of `v` latest in the topological order on which
    /// `v` depends only through the direct edge.
    pub open spec fn youngest_valid_parent(&self, v: int) -> Option<usize> {
        self.youngest_upto(self.parents@[v]@, self.parents@[v]@.len() as int, v)
    }

    /// The Clifford parent of `node_id` latest in the topological order
    /// among those on which `node_id` depends only through the direct edge
    /// (the last such in the set's order on a tie).
    pub fn get_youngest_valid_parent_clifford(&self, node_id: usize) -> (r: Option<usize>)
        requires
            self.wf(),
            self.order_respected(),
            node_id < self.num_nodes,
        ensures
            r == self.youngest_valid_parent(node_id as int),
            r matches Some(p) ==> self.edge(p as int, node_id as int),
            r matches Some(p) ==> self.clifford(p as int),
    {
        proof {
            self.lemma_youngest_clifford(self.parents@[node_id as int]@, self.parents@[node_id as int]@.len() as int, node_id as int);
        }
        let ps = &self.parents[node_id];
        let mut best: Option<usize> = None;
        let mut i: usize = 0;
        while i < ps.len()
            invariant
                self.wf(),
                self.order_respected(),
                node_id < self.num_nodes,
                ps == self.parents@[node_id as int],
                i <= ps@.len(),
                best == self.youngest_upto(ps@, i as int, node_id as int),
                best matches Some(p) ==> self.edge(p as int, node_id as int),
            decreases ps@.len() - i,
        {
            let p = ps[i];
            assert(id_set(self.parents@[node_id as int]@, self.num_nodes as nat));
            assert(p < self.num_nodes);
            assert(ps@.contains(p));
            assert(self.edge(p as int, node_id as int));
            if self.is_clifford(p) {
                proof {
                    lemma_respected_not_bad(self, p as int);
                    lemma_respected_not_bad(self, node_id as int);
                }
                if !self.indirect_path_exists(p, node_id) {
                    best = match best {
                        None => Some(p),
                        Some(x) => {
                            if self.topological_order[p] >= self.topological_order[x] { Some(p) } else { Some(x) }
                        },
                    };
                }
            }
            i += 1;
        }
        best
    }
}

/// The best relation found is one of the relations scanned.
proof fn lemma_best_member(d: &PauliProductDag, rs: Seq<usize>, k: int, q: i32, from_children: bool)
    requires
        0 <= k <= rs.len(),
    ensures
        d.best_relation(rs, k, q, from_children) matches Some(x) ==> rs.contains(x),
    decreases k,
{
    if k > 0 {
        lemma_best_member(d, rs, k - 1, q, from_children);
        assert(rs[k - 1] == rs[k - 1]);
        if let Some(x) = d.best_relation(rs, k - 1, q, from_children) {
            let j = choose|j: int| 0 <= j < k - 1 && rs[j] == x;
        }
    }
}

/// The relation found on a side is a node related on that side.
proof fn lemma_relation_for_edge(d: &PauliProductDag, v: int, q: i32, from_children: bool)
    requires
        d.wf(),
        0 <= v < d.num_nodes,
    ensures
        d.relation_for(v, q, from_children) matches Some(x) ==>
            if from_children { d.edge(v, x as int) } else { d.edge(x as int, v) },
{
    let rs = d.relations(v, from_children);
    lemma_best_member(d, rs, rs.len() as int, q, from_children);
    lemma_best_in_range(d, rs, rs.len() as int, q, from_children, v);
    if let Some(x) = d.relation_for(v, q, from_children) {
        if !from_children {
            assert(d.parents@[v]@.contains(x));
            assert(d.children@[x as int]@.contains(v as usize));
        }
    }
}

impl PauliProductDag {
    /// Every changed edge touches `a` or `b`, and each edge gained is `b -> a`,
    /// an edge into `b` from a former parent of `a`, or an edge from `a` to a
    /// former child of `b`.
    pub open spec fn swap_changes(&self, old_dag: &PauliProductDag, a: int, b: int) -> bool {
        &&& forall|p: int, c: int| p != a && p != b && c != a && c != b
            ==> (#[trigger] self.edge(p, c) == old_dag.edge(p, c))
        &&& forall|p: int, c: int| #[trigger] self.edge(p, c) && !old_dag.edge(p, c) ==>
            (p == b && c == a) || (c == b && old_dag.edge(p, a)) || (p == a && old_dag.edge(b, c))
    }

    /// Exchanges the Clifford node `parent_id` with its child `node_id`:
    /// the edge between them is reversed; on each qubit the two share, the
    /// nearest parent of `parent_id` becomes a parent of `node_id` (dropping
    /// its edge to `parent_id` when every qubit that edge carried is one of
    /// `node_id`'s) and the nearest child of `node_id` becomes a child of
    /// `parent_id` (likewise); their positions in the topological order are
    /// exchanged; and `node_id` becomes a root when `parent_id` was one or is
    /// left without parents.
    pub fn swap_nodes(&mut self, parent_id: usize, node_id: usize)
        requires
            old(self).wf(),
            old(self).order_respected(),
            old(self).clifford(parent_id as int),
            old(self).edge(parent_id as int, node_id as int),
        ensures
            final(self).wf(),
            final(self).edge(node_id as int, parent_id as int),
            !final(self).edge(parent_id as int, node_id as int),
            final(self).swap_changes(&*old(self), parent_id as int, node_id as int),
            final(self).topological_order@ == old(self).topological_order@
                .update(node_id as int, old(self).topological_order@[parent_id as int])
                .update(parent_id as int, old(self).topological_order@[node_id as int]),
            forall|x: usize| #[trigger] final(self).roots@.contains(x) <==> ((old(self).roots@.contains(x) && x != parent_id)
                || (x == node_id && (old(self).roots@.contains(parent_id) || final(self).parents@[parent_id as int]@.len() == 0))),
            final(self).products == old(self).products,
            final(self).num_nodes == old(self).num_nodes,
            final(self).num_cliffords == old(self).num_cliffords,
            final(self).max_qubit == old(self).max_qubit,
            final(self).topo_steps == old(self).topo_steps,
            final(self).update_topo_calls == old(self).update_topo_calls,
            final(self).topo_sort_children == old(self).topo_sort_children,
    {
        let ghost d0 = *self;
        let n = self.num_nodes;
        // the qubits the two share, each once
        let mut shared: Vec<i32> = Vec::new();
        let pts = &self.products[parent_id].terms;
        let mut i: usize = 0;
        while i < pts.len()
            invariant
                i <= pts@.len(),
                self.wf(),
                *self == d0,
                n == self.num_nodes,
                node_id < n,
            decreases pts@.len() - i,
        {
            let q = pts[i].qubit;
            if terms_on_qubit(&self.products[node_id].terms, q) && !qubit_listed(&shared, q) {
                shared.push(q);
            }
            i += 1;
        }
        let mut grandparents: Vec<Option<usize>> = Vec::new();
        let mut kids: Vec<Option<usize>> = Vec::new();
        let mut k: usize = 0;
        while k < shared.len()
            invariant
                self.wf(),
                *self == d0,
                n == self.num_nodes,
                parent_id < n,
                node_id < n,
                k <= shared@.len(),
                grandparents@.len() == k,
                kids@.len() == k,
                forall|j: int| 0 <= j < k ==> (#[trigger] grandparents@[j] matches Some(g) ==> d0.edge(g as int, parent_id as int)),
                forall|j: int| 0 <= j < k ==> (#[trigger] kids@[j] matches Some(c) ==> d0.edge(node_id as int, c as int)),
            decreases shared@.len() - k,
        {
            proof {
                lemma_relation_for_edge(self, parent_id as int, shared@[k as int], false);
                lemma_relation_for_edge(self, node_id as int, shared@[k as int], true);
            }
            grandparents.push(self.get_relation_for_qubit(parent_id, shared[k], false));
            kids.push(self.get_relation_for_qubit(node_id, shared[k], true));
            k += 1;
        }
        self.erase_relation(parent_id, node_id);
        self.add_relation(node_id, parent_id);
        let mut k: usize = 0;
        while k < shared.len()
            invariant
                self.wf(),
                n == self.num_nodes,
                parent_id < n,
                node_id < n,
                parent_id != node_id,
                d0.wf(),
                d0.order_respected(),
                d0.edge(parent_id as int, node_id as int),
                k <= shared@.len(),
                grandparents@.len() == shared@.len(),
                kids@.len() == shared@.len(),
                forall|j: int| 0 <= j < shared@.len() ==> (#[trigger] grandparents@[j] matches Some(g) ==> d0.edge(g as int, parent_id as int)),
                forall|j: int| 0 <= j < shared@.len() ==> (#[trigger] kids@[j] matches Some(c) ==> d0.edge(node_id as int, c as int)),
                self.edge(node_id as int, parent_id as int),
                !self.edge(parent_id as int, node_id as int),
                self.swap_changes(&d0, parent_id as int, node_id as int),
                self.products == d0.products,
                self.topological_order == d0.topological_order,
                self.roots == d0.roots,
                self.num_cliffords == d0.num_cliffords,
                self.max_qubit == d0.max_qubit,
                self.topo_steps == d0.topo_steps,
                self.update_topo_calls == d0.update_topo_calls,
                self.topo_sort_children == d0.topo_sort_children,
            decreases shared@.len() - k,
        {
            match grandparents[k] {
                Some(gp) => {
                    assert(d0.edge(gp as int, parent_id as int));
                    assert(d0.order(gp as int) < d0.order(parent_id as int) < d0.order(node_id as int));
                    let ghost before = *self;
                    if self.should_erase_relation(gp, parent_id, node_id, true) {
                        self.erase_relation(gp, parent_id);
                    }
                    let ghost mid = *self;
                    self.add_relation(gp, node_id);
                    proof {
                        assert forall|p: int, c: int| #[trigger] self.edge(p, c) && !d0.edge(p, c) implies
                            (p == node_id && c == parent_id) || (c == node_id && d0.edge(p, parent_id as int)) || (p == parent_id && d0.edge(node_id as int, c)) by {
                            if !(p == gp && c == node_id) { assert(mid.edge(p, c)); assert(before.edge(p, c)); }
                        }
                        assert forall|p: int, c: int| p != parent_id && p != node_id && c != parent_id && c != node_id
                            implies (#[trigger] self.edge(p, c) == d0.edge(p, c)) by {
                            assert(self.edge(p, c) == mid.edge(p, c));
                            assert(mid.edge(p, c) == before.edge(p, c));
                        }
                    }
                },
                None => {},
            }
            match kids[k] {
                Some(ch) => {
                    assert(d0.edge(node_id as int, ch as int));
                    assert(d0.order(parent_id as int) < d0.order(node_id as int) < d0.order(ch as int));
                    let ghost before = *self;
                    if self.should_erase_relation(node_id, ch, parent_id, false) {
                        self.erase_relation(node_id, ch);
                    }
                    let ghost mid = *self;
                    self.add_relation(parent_id, ch);
                    proof {
                        assert forall|p: int, c: int| #[trigger] self.edge(p, c) && !d0.edge(p, c) implies
                            (p == node_id && c == parent_id) || (c == node_id && d0.edge(p, parent_id as int)) || (p == parent_id && d0.edge(node_id as int, c)) by {
                            if !(p == parent_id && c == ch) { assert(mid.edge(p, c)); assert(before.edge(p, c)); }
                        }
                        assert forall|p: int, c: int| p != parent_id && p != node_id && c != parent_id && c != node_id
                            implies (#[trigger] self.edge(p, c) == d0.edge(p, c)) by {
                            assert(self.edge(p, c) == mid.edge(p, c));
                            assert(mid.edge(p, c) == before.edge(p, c));
                        }
                    }
                },
                None => {},
            }
            k += 1;
        }
        let ghost after_loop = *self;
        let ta = self.topological_order[node_id];
        let tb = self.topological_order[parent_id];
        self.topological_order.set(node_id, tb);
        self.topological_order.set(parent_id, ta);
        let was_root = set_contains(&self.roots, parent_id);
        set_remove(&mut self.roots, parent_id);
        if was_root || self.parents[parent_id].len() == 0 {
            set_insert(&mut self.roots, node_id);
        }
        proof {
            assert(self.children == after_loop.children && self.parents == after_loop.parents);
            assert forall|p: int, c: int| #[trigger] self.edge(p, c) == after_loop.edge(p, c) by {}
            assert forall|x: int| 0 <= x < self.roots@.len() implies (#[trigger] self.roots@[x]) < n by {
                assert(self.roots@.contains(self.roots@[x]));
                if self.roots@[x] != node_id {
                    assert(after_loop.roots@.contains(self.roots@[x]));
                }
            }
            assert forall|p: int, c: int| p != parent_id && p != node_id && c != parent_id && c != node_id
                implies (#[trigger] self.edge(p, c) == d0.edge(p, c)) by {
                assert(self.edge(p, c) == after_loop.edge(p, c));
            }
            assert forall|p: int, c: int| #[trigger] self.edge(p, c) && !d0.edge(p, c) implies
                (p == node_id && c == parent_id) || (c == node_id && d0.edge(p, parent_id as int)) || (p == parent_id && d0.edge(node_id as int, c)) by {
                assert(after_loop.edge(p, c));
            }
            assert(self.edge(node_id as int, parent_id as int) == after_loop.edge(node_id as int, parent_id as int));
            assert(self.edge(parent_id as int, node_id as int) == after_loop.edge(parent_id as int, node_id as int));
        }
    }
}

/// Whether `q` is among `qs`.
fn qubit_listed(qs: &Vec<i32>, q: i32) -> (r: bool)
    ensures
        r == qs@.contains(q),
{
    let mut i: usize = 0;
    while i < qs.len()
        invariant
            i <= qs@.len(),
            forall|j: int| 0 <= j < i ==> qs@[j] != q,
        decreases qs@.len() - i,
    {
        if qs[i] == q {
            return true;
        }
        i += 1;
    }
    false
}

/// The number of nodes below `k` in the region (at least `offset` in the
/// order `t0`), not yet processed, with an edge to `c`.
pub open spec fn pending_parents(d: &PauliProductDag, t0: Seq<usize>, offset: usize, c: int, done: Seq<bool>, k: int) -> nat
    decreases k,
{
    if k <= 0 {
        0
    } else {
        pending_parents(d, t0, offset, c, done, k - 1)
            + if t0[k - 1] >= offset && d.edge(k - 1, c) && !done[k - 1] { 1nat } else { 0nat }
    }
}

proof fn lemma_pending_le(d: &PauliProductDag, t0: Seq<usize>, offset: usize, c: int, done: Seq<bool>, k: int)
    requires
        k >= 0,
    ensures
        pending_parents(d, t0, offset, c, done, k) <= k,
    decreases k,
{
    if k > 0 { lemma_pending_le(d, t0, offset, c, done, k - 1); }
}

/// Marking node `v` processed lowers the pending count of its region children by one.
proof fn lemma_pending_done(d: &PauliProductDag, t0: Seq<usize>, offset: usize, c: int, done: Seq<bool>, v: int, k: int)
    requires
        0 <= v < done.len(),
        !done[v],
        0 <= k <= done.len(),
    ensures
        pending_parents(d, t0, offset, c, done.update(v, true), k)
            + (if v < k && t0[v] >= offset && d.edge(v, c) { 1nat } else { 0nat })
            == pending_parents(d, t0, offset, c, done, k),
    decreases k,
{
    if k > 0 { lemma_pending_done(d, t0, offset, c, done, v, k - 1); }
}

/// The pending count depends on the edges alone, not on the rest of the graph.
proof fn lemma_pending_same_edges(d1: &PauliProductDag, d2: &PauliProductDag, t0: Seq<usize>, offset: usize, c: int, done: Seq<bool>, k: int)
    requires
        forall|p: int, q: int| #[trigger] d1.edge(p, q) == d2.edge(p, q),
    ensures
        pending_parents(d1, t0, offset, c, done, k) == pending_parents(d2, t0, offset, c, done, k),
    decreases k,
{
    if k > 0 { lemma_pending_same_edges(d1, d2, t0, offset, c, done, k - 1); }
}

/// With no pending parent left, no region node below `k` with an edge to
/// `c` is unprocessed.
proof fn lemma_pending_zero(d: &PauliProductDag, t0: Seq<usize>, offset: usize, c: int, done: Seq<bool>, k: int)
    requires
        pending_parents(d, t0, offset, c, done, k) == 0,
        0 <= k,
    ensures
        forall|p: int| 0 <= p < k && t0[p] >= offset && #[trigger] d.edge(p, c) ==> done[p],
    decreases k,
{
    if k > 0 { lemma_pending_zero(d, t0, offset, c, done, k - 1); }
}

impl PauliProductDag {
    /// For every node of the region (at least `offset` in the order), the
    /// number of its parents in the region.
    fn count_indegrees(&self, offset: usize) -> (indeg: Vec<usize>)
        requires
            self.wf(),
        ensures
            indeg@.len() == self.num_nodes,
            forall|c: int| 0 <= c < self.num_nodes && self.topological_order@[c] >= offset ==> #[trigger] indeg@[c] as int
                == pending_parents(self, self.topological_order@, offset, c,
                    Seq::new(self.num_nodes as nat, |i: int| false), self.num_nodes as int),
    {
        let n = self.num_nodes;
        let ghost none = Seq::new(n as nat, |i: int| false);
        let ghost t0 = self.topological_order@;
        let mut indeg: Vec<usize> = Vec::new();
        let mut k: usize = 0;
        while k < n
            invariant
                k <= n,
                indeg@ == Seq::new(k as nat, |i: int| 0usize),
            decreases n - k,
        {
            indeg.push(0);
            k += 1;
            assert(indeg@ =~= Seq::new(k as nat, |i: int| 0usize));
        }
        let mut ni: usize = 0;
        while ni < n
            invariant
                self.wf(),
                n == self.num_nodes,
                t0 == self.topological_order@,
                none == Seq::new(n as nat, |i: int| false),
                ni <= n,
                indeg@.len() == n,
                forall|c: int| 0 <= c < n && t0[c] >= offset ==> #[trigger] indeg@[c] as int == pending_parents(self, t0, offset, c, none, ni as int),
            decreases n - ni,
        {
            if self.topological_order[ni] >= offset {
                let cs = &self.children[ni];
                let ghost start = indeg@;
                let mut j: usize = 0;
                while j < cs.len()
                    invariant
                        self.wf(),
                        n == self.num_nodes,
                        t0 == self.topological_order@,
                        ni < n,
                        t0[ni as int] >= offset,
                        cs == self.children@[ni as int],
                        j <= cs@.len(),
                        indeg@.len() == n,
                        forall|c: int| 0 <= c < n ==> #[trigger] indeg@[c] as int == start[c] as int
                            + if cs@.subrange(0, j as int).contains(c as usize) && t0[c] >= offset { 1int } else { 0int },
                        forall|c: int| 0 <= c < n && t0[c] >= offset ==> #[trigger] start[c] as int == pending_parents(self, t0, offset, c, none, ni as int),
                        start.len() == n,
                    decreases cs@.len() - j,
                {
                    let c = cs[j];
                    assert(id_set(self.children@[ni as int]@, n as nat));
                    assert(c < n);
                    proof {
                        lemma_pending_le(self, t0, offset, c as int, none, ni as int);
                        assert(!cs@.subrange(0, j as int).contains(c)) by {
                            if cs@.subrange(0, j as int).contains(c) {
                                let t = choose|t: int| 0 <= t < j && cs@.subrange(0, j as int)[t] == c;
                                assert(cs@[t] == cs@[j as int]);
                            }
                        }
                    }
                    let ghost before = indeg@;
                    if self.topological_order[c] >= offset {
                        assert(before[c as int] == start[c as int]);
                        let v = indeg[c];
                        indeg.set(c, v + 1);
                    }
                    proof {
                        assert(cs@.subrange(0, j + 1) =~= cs@.subrange(0, j as int).push(c));
                        assert forall|x: int| 0 <= x < n implies #[trigger] indeg@[x] as int == start[x] as int
                            + if cs@.subrange(0, j + 1).contains(x as usize) && t0[x] >= offset { 1int } else { 0int } by {
                            assert(before[x] as int == start[x] as int
                                + if cs@.subrange(0, j as int).contains(x as usize) && t0[x] >= offset { 1int } else { 0int });
                            if x != c as int {
                                assert(indeg@[x] == before[x]);
                                assert(cs@.subrange(0, j + 1).contains(x as usize) == cs@.subrange(0, j as int).contains(x as usize)) by {
                                    if cs@.subrange(0, j + 1).contains(x as usize) {
                                        let t = choose|t: int| 0 <= t < j + 1 && #[trigger] cs@.subrange(0, j + 1)[t] == x as usize;
                                        assert(cs@.subrange(0, j as int)[t] == x as usize);
                                    }
                                    if cs@.subrange(0, j as int).contains(x as usize) {
                                        let t = choose|t: int| 0 <= t < j && #[trigger] cs@.subrange(0, j as int)[t] == x as usize;
                                        assert(cs@.subrange(0, j + 1)[t] == x as usize);
                                    }
                                }
                            } else {
                                assert(cs@.subrange(0, j + 1)[j as int] == c);
                            }
                        }
                    }
                    j += 1;
                }
                proof {
                    assert(cs@.subrange(0, cs@.len() as int) =~= cs@);
                    assert forall|c: int| 0 <= c < n && t0[c] >= offset implies #[trigger] indeg@[c] as int == pending_parents(self, t0, offset, c, none, ni + 1) by {
                        assert(cs@.contains(c as usize) == self.edge(ni as int, c));
                        assert(!none[ni as int]);
                    }
                }
            } else {
                proof {
                    assert forall|c: int| 0 <= c < n && t0[c] >= offset implies #[trigger] indeg@[c] as int == pending_parents(self, t0, offset, c, none, ni + 1) by {}
                }
            }
            ni += 1;
        }
        indeg
    }
}

impl PauliProductDag {
    /// The region children of `v` in the set's order: the children at least
    /// `offset` in the current order.
    fn region_children(&self, v: usize, offset: usize) -> (r: Vec<usize>)
        requires
            self.wf(),
            v < self.num_nodes,
        ensures
            r@.no_duplicates(),
            forall|c: usize| #[trigger] r@.contains(c) <==> (self.edge(v as int, c as int) && self.order(c as int) >= offset),
    {
        let cs = &self.children[v];
        let mut r: Vec<usize> = Vec::new();
        let mut j: usize = 0;
        while j < cs.len()
            invariant
                self.wf(),
                v < self.num_nodes,
                cs == self.children@[v as int],
                j <= cs@.len(),
                r@.no_duplicates(),
                forall|c: usize| #[trigger] r@.contains(c) <==> (cs@.subrange(0, j as int).contains(c) && self.order(c as int) >= offset),
            decreases cs@.len() - j,
        {
            let c = cs[j];
            assert(id_set(self.children@[v as int]@, self.num_nodes as nat));
            assert(c < self.num_nodes);
            let ghost r0 = r@;
            assert(forall|x: usize| #[trigger] r0.contains(x) <==> (cs@.subrange(0, j as int).contains(x) && self.order(x as int) >= offset));
            assert(!cs@.subrange(0, j as int).contains(c)) by {
                if cs@.subrange(0, j as int).contains(c) {
                    let t = choose|t: int| 0 <= t < j && #[trigger] cs@.subrange(0, j as int)[t] == c;
                    assert(cs@[t] == cs@[j as int]);
                }
            }
            if self.topological_order[c] >= offset {
                r.push(c);
            }
            proof {
                assert(cs@.subrange(0, j + 1) =~= cs@.subrange(0, j as int).push(c));
                assert forall|x: usize| #[trigger] r@.contains(x) <==> (cs@.subrange(0, j + 1).contains(x) && self.order(x as int) >= offset) by {
                    assert(r0.contains(x) <==> (cs@.subrange(0, j as int).contains(x) && self.order(x as int) >= offset));
                    if r@.contains(x) && x != c {
                        let t = choose|t: int| 0 <= t < r@.len() && r@[t] == x;
                        assert(r0[t] == x);
                    }
                    if r0.contains(x) {
                        let t = choose|t: int| 0 <= t < r0.len() && r0[t] == x;
                        assert(r@[t] == x);
                    }
                    if x == c && self.order(x as int) >= offset { assert(r@[r0.len() as int] == x); }
                    if x == c { assert(cs@.subrange(0, j + 1)[j as int] == c); }
                    if cs@.subrange(0, j + 1).contains(x) && x != c {
                        let t = choose|t: int| 0 <= t < j + 1 && #[trigger] cs@.subrange(0, j + 1)[t] == x;
                        assert(cs@.subrange(0, j as int)[t] == x);
                    }
                    if cs@.subrange(0, j as int).contains(x) {
                        let t = choose|t: int| 0 <= t < j && #[trigger] cs@.subrange(0, j as int)[t] == x;
                        assert(cs@.subrange(0, j + 1)[t] == x);
                    }
                }
                assert forall|a: int, b: int| 0 <= a < b < r@.len() implies r@[a] != r@[b] by {
                    if b == r0.len() && r@.len() > r0.len() { assert(r0.contains(r0[a])); assert(r@[a] == r0[a]); }
                    else { assert(r@[a] == r0[a] && r@[b] == r0[b]); }
                }
            }
            j += 1;
        }
        proof {
            assert(cs@.subrange(0, cs@.len() as int) =~= cs@);
            assert forall|c: usize| #[trigger] r@.contains(c) <==> (self.edge(v as int, c as int) && self.order(c as int) >= offset) by {}
        }
        r
    }

    /// The nodes of `list` ordered by their position in the topological
    /// order (insertion sort; equal positions keep their order).
    fn sort_by_order(&self, list: Vec<usize>) -> (r: Vec<usize>)
        requires
            self.wf(),
            list@.no_duplicates(),
            forall|i: int| 0 <= i < list@.len() ==> (#[trigger] list@[i]) < self.num_nodes,
        ensures
            r@.no_duplicates(),
            forall|c: usize| #[trigger] r@.contains(c) <==> list@.contains(c),
            forall|a: int, b: int| 0 <= a < b < r@.len() ==> self.order(r@[a] as int) <= self.order(r@[b] as int),
    {
        let mut r: Vec<usize> = Vec::new();
        let mut i: usize = 0;
        while i < list.len()
            invariant
                self.wf(),
                list@.no_duplicates(),
                forall|k: int| 0 <= k < list@.len() ==> (#[trigger] list@[k]) < self.num_nodes,
                i <= list@.len(),
                r@.no_duplicates(),
                forall|c: usize| #[trigger] r@.contains(c) <==> list@.subrange(0, i as int).contains(c),
                forall|k: int| 0 <= k < r@.len() ==> (#[trigger] r@[k]) < self.num_nodes,
                forall|a: int, b: int| 0 <= a < b < r@.len() ==> self.order(r@[a] as int) <= self.order(r@[b] as int),
            decreases list@.len() - i,
        {
            let x = list[i];
            let key = self.topological_order[x];
            let mut pos: usize = r.len();
            while pos > 0 && self.topological_order[r[pos - 1]] > key
                invariant
                    self.wf(),
                    pos <= r@.len(),
                    x < self.num_nodes,
                    key == self.order(x as int),
                    forall|k: int| 0 <= k < r@.len() ==> (#[trigger] r@[k]) < self.num_nodes,
                    forall|k: int| pos <= k < r@.len() ==> self.order(#[trigger] r@[k] as int) > key,
                decreases pos,
            {
                pos -= 1;
            }
            let ghost r0 = r@;
            assert(!r0.contains(x)) by {
                if r0.contains(x) {
                    let t = choose|t: int| 0 <= t < r0.len() && r0[t] == x;
                    assert(list@.subrange(0, i as int).contains(x));
                    let u = choose|u: int| 0 <= u < i && #[trigger] list@.subrange(0, i as int)[u] == x;
                    assert(list@[u] == list@[i as int]);
                }
            }
            r.insert(pos, x);
            proof {
                assert(r@ == r0.insert(pos as int, x));
                assert(list@.subrange(0, i + 1) =~= list@.subrange(0, i as int).push(x));
                assert forall|c: usize| #[trigger] r@.contains(c) <==> list@.subrange(0, i + 1).contains(c) by {
                    if r@.contains(c) {
                        let t = choose|t: int| 0 <= t < r@.len() && r@[t] == c;
                        if t < pos { assert(r0[t] == c); } else if t > pos { assert(r0[t - 1] == c); }
                        if c != x {
                            assert(r0.contains(c));
                            let u = choose|u: int| 0 <= u < i && #[trigger] list@.subrange(0, i as int)[u] == c;
                            assert(list@.subrange(0, i + 1)[u] == c);
                        } else {
                            assert(list@.subrange(0, i + 1)[i as int] == c);
                        }
                    }
                    if list@.subrange(0, i + 1).contains(c) {
                        let u = choose|u: int| 0 <= u < i + 1 && #[trigger] list@.subrange(0, i + 1)[u] == c;
                        if u < i {
                            assert(list@.subrange(0, i as int)[u] == c);
                            assert(r0.contains(c));
                            let t = choose|t: int| 0 <= t < r0.len() && r0[t] == c;
                            if t < pos { assert(r@[t] == c); } else { assert(r@[t + 1] == c); }
                        } else {
                            assert(r@[pos as int] == x);
                        }
                    }
                }
                assert forall|a: int, b: int| 0 <= a < b < r@.len() implies r@[a] != r@[b] by {
                    let a0 = if a < pos { a } else { a - 1 };
                    let b0 = if b < pos { b } else { b - 1 };
                    if a == pos { assert(r0.contains(r0[b0])); } else if b == pos { assert(r0.contains(r0[a0])); }
                    else { assert(r@[a] == r0[a0] && r@[b] == r0[b0]); }
                }
                assert forall|k: int| 0 <= k < r@.len() implies (#[trigger] r@[k]) < self.num_nodes by {
                    if k < pos { assert(r@[k] == r0[k]); } else if k > pos { assert(r@[k] == r0[k - 1]); }
                }
                assert forall|a: int, b: int| 0 <= a < b < r@.len() implies self.order(r@[a] as int) <= self.order(r@[b] as int) by {
                    let a0 = if a < pos { a } else { a - 1 };
                    let b0 = if b < pos { b } else { b - 1 };
                    if a == pos {
                        assert(pos <= b0 < r0.len());
                        assert(self.order(r0[b0] as int) > key);
                    } else if b == pos {
                        if a < pos && pos > 0 {
                            assert(self.order(r0[a] as int) <= self.order(r0[pos - 1] as int) || a == pos - 1);
                        }
                    } else {
                        assert(r@[a] == r0[a0] && r@[b] == r0[b0]);
                    }
                }
            }
            i += 1;
        }
        proof {
            assert(list@.subrange(0, list@.len() as int) =~= list@);
        }
        r
    }
}

impl PauliProductDag {
    /// `popped` lists, in the order renumbered, the nodes of the region (at
    /// least `offset` in the former order `t0`) that received the new
    /// positions `offset`, `offset + 1`, ...; each comes after its region
    /// parents; every other node kept its position.
    pub open spec fn renumbered(&self, t0: Seq<usize>, offset: usize, popped: Seq<usize>) -> bool {
        &&& popped.no_duplicates()
        &&& forall|i: int| 0 <= i < popped.len() ==> (#[trigger] popped[i]) < self.num_nodes
            && t0[popped[i] as int] >= offset && self.order(popped[i] as int) == offset + i
        &&& forall|v: int| 0 <= v < self.num_nodes && !popped.contains(v as usize) ==> #[trigger] self.order(v) == t0[v] as int
        &&& forall|i: int, p: int| 0 <= i < popped.len() && 0 <= p < self.num_nodes && t0[p] >= offset
            && #[trigger] self.edge(p, popped[i] as int) ==> popped.subrange(0, i).contains(p as usize)
    }

    /// Renumbers the nodes from position `order(node_id)` on by Kahn's
    /// algorithm: the nodes of that region without a parent in it first,
    /// then each node once its parents in the region are renumbered (visiting
    /// children by their position in the order when `topo_sort_children`).
    pub fn update_topological_order_starting_at(&mut self, node_id: usize)
        requires
            old(self).wf(),
            node_id < old(self).num_nodes,
            old(self).order(node_id as int) + old(self).num_nodes <= usize::MAX,
            old(self).update_topo_calls < usize::MAX,
        ensures
            final(self).wf(),
            exists|popped: Seq<usize>| #[trigger] final(self).renumbered(old(self).topological_order@,
                old(self).topological_order@[node_id as int], popped),
            final(self).topological_order@.len() == old(self).topological_order@.len(),
            final(self).update_topo_calls == old(self).update_topo_calls + 1,
            final(self).children == old(self).children,
            final(self).parents == old(self).parents,
            final(self).products == old(self).products,
            final(self).roots == old(self).roots,
            final(self).num_nodes == old(self).num_nodes,
            final(self).num_cliffords == old(self).num_cliffords,
            final(self).max_qubit == old(self).max_qubit,
            final(self).topo_sort_children == old(self).topo_sort_children,
    {
        let ghost d0 = *self;
        let ghost t0 = self.topological_order@;
        let n = self.num_nodes;
        self.update_topo_calls = self.update_topo_calls + 1;
        let offset = self.topological_order[node_id];
        let mut indeg = self.count_indegrees(offset);
        let ghost none = Seq::new(n as nat, |i: int| false);
        let mut queue: Vec<usize> = Vec::new();
        let ghost mut queued: Seq<bool> = none;
        proof { lemma_all_unused(none, n as int); }
        let mut ni: usize = 0;
        while ni < n
            invariant
                self.wf(),
                n == self.num_nodes,
                t0 == self.topological_order@,
                self.children == d0.children,
                d0.num_nodes == n,
                ni <= n,
                none == Seq::new(n as nat, |i: int| false),
                queued.len() == n,
                queue@.no_duplicates(),
                forall|v: int| 0 <= v < n ==> #[trigger] queued[v] == queue@.contains(v as usize),
                forall|i: int| 0 <= i < queue@.len() ==> (#[trigger] queue@[i]) < ni && t0[queue@[i] as int] >= offset,
                forall|i: int| 0 <= i < queue@.len() ==> pending_parents(&d0, t0, offset, #[trigger] queue@[i] as int, none, n as int) == 0,
                queue@.len() + unused_upto(queued, n as int) == n,
                indeg@.len() == n,
                forall|c: int| 0 <= c < n && t0[c] >= offset ==> #[trigger] indeg@[c] as int
                    == pending_parents(self, t0, offset, c, none, n as int),
            decreases n - ni,
        {
            if self.topological_order[ni] >= offset && indeg[ni] == 0 {
                proof {
                    assert forall|p: int, q: int| #[trigger] self.edge(p, q) == d0.edge(p, q) by {}
                    lemma_pending_same_edges(self, &d0, t0, offset, ni as int, none, n as int);
                    lemma_unused_set(queued, ni as int, n as int);
                }
                let ghost q0 = queue@;
                queue.push(ni);
                proof {
                    queued = queued.update(ni as int, true);
                    assert forall|v: int| 0 <= v < n implies #[trigger] queued[v] == queue@.contains(v as usize) by {
                        if v == ni as int { assert(queue@[q0.len() as int] == ni); }
                        else {
                            if queue@.contains(v as usize) {
                                let j = choose|j: int| 0 <= j < queue@.len() && queue@[j] == v as usize;
                                if j < q0.len() { assert(q0[j] == v as usize); }
                            }
                            if q0.contains(v as usize) {
                                let j = choose|j: int| 0 <= j < q0.len() && q0[j] == v as usize;
                                assert(queue@[j] == v as usize);
                            }
                        }
                    }
                    assert forall|a: int, b: int| 0 <= a < b < queue@.len() implies queue@[a] != queue@[b] by {
                        if b == q0.len() { assert(q0[a] < ni); }
                    }
                }
            }
            ni += 1;
        }
        proof {
            assert forall|p: int, q: int| #[trigger] self.edge(p, q) == d0.edge(p, q) by {}
            assert forall|c: int| 0 <= c < n && t0[c] >= offset implies #[trigger] indeg@[c] as int
                == pending_parents(&d0, t0, offset, c, none, n as int) by {
                lemma_pending_same_edges(self, &d0, t0, offset, c, none, n as int);
            }
            assert forall|i: int, p: int| 0 <= i < queue@.len() && 0 <= p < n && t0[p] >= offset
                && #[trigger] d0.edge(p, queue@[i] as int) implies queue@.subrange(0, i).contains(p as usize) by {
                lemma_pending_zero(&d0, t0, offset, queue@[i] as int, none, n as int);
            }
            assert forall|c: int| 0 <= c < n && queued[c] && !none[c] implies pending_parents(&d0, t0, offset, c, none, n as int) == 0 by {
                assert(queue@.contains(c as usize));
                let j = choose|j: int| 0 <= j < queue@.len() && queue@[j] == c as usize;
            }
            assert forall|v: int| 0 <= v < n implies #[trigger] none[v] == queue@.subrange(0, 0).contains(v as usize) by {}
        }
        let mut head: usize = 0;
        let mut new_idx: usize = offset;
        let ghost mut done: Seq<bool> = none;
        while head < queue.len()
            invariant
                self.wf(),
                n == self.num_nodes,
                node_id < n,
                t0 == d0.topological_order@,
                offset == t0[node_id as int],
                offset + n <= usize::MAX,
                self.topological_order@.len() == n,
                self.children == d0.children,
                self.parents == d0.parents,
                self.products == d0.products,
                self.roots == d0.roots,
                self.num_cliffords == d0.num_cliffords,
                self.max_qubit == d0.max_qubit,
                self.topo_sort_children == d0.topo_sort_children,
                self.update_topo_calls == d0.update_topo_calls + 1,
                d0.wf(),
                d0.num_nodes == n,
                head <= queue@.len(),
                new_idx == offset + head,
                queued.len() == n,
                done.len() == n,
                queue@.no_duplicates(),
                forall|v: int| 0 <= v < n ==> #[trigger] queued[v] == queue@.contains(v as usize),
                forall|v: int| 0 <= v < n ==> #[trigger] done[v] == queue@.subrange(0, head as int).contains(v as usize),
                forall|i: int| 0 <= i < queue@.len() ==> (#[trigger] queue@[i]) < n && t0[queue@[i] as int] >= offset,
                forall|i: int| 0 <= i < head ==> self.order(#[trigger] queue@[i] as int) == offset + i,
                forall|v: int| 0 <= v < n && !done[v] ==> #[trigger] self.order(v) == t0[v] as int,
                indeg@.len() == n,
                forall|c: int| 0 <= c < n && t0[c] >= offset && !done[c] ==> #[trigger] indeg@[c] as int
                    == pending_parents(&d0, t0, offset, c, done, n as int),
                forall|c: int| 0 <= c < n && queued[c] && !done[c] ==> pending_parents(&d0, t0, offset, c, done, n as int) == 0,
                forall|i: int, p: int| 0 <= i < queue@.len() && 0 <= p < n && t0[p] >= offset
                    && #[trigger] d0.edge(p, queue@[i] as int) ==> queue@.subrange(0, i).contains(p as usize),
                queue@.len() + unused_upto(queued, n as int) == n,
            decreases 2 * unused_upto(queued, n as int) + queue@.len() - head,
        {
            let current = queue[head];
            let ghost done0 = done;
            assert(!done0[current as int]) by {
                if done0[current as int] {
                    let j = choose|j: int| 0 <= j < head && #[trigger] queue@.subrange(0, head as int)[j] == current;
                    assert(queue@[j] == queue@[head as int]);
                }
            }
            proof {
                done = done.update(current as int, true);
                assert(queue@.subrange(0, head + 1) =~= queue@.subrange(0, head as int).push(current));
            }
            let ghost ord0 = self.topological_order@;
            proof {
                assert forall|v: int| 0 <= v < n && !done0[v] implies ord0[v] as int == t0[v] as int by {
                    assert(self.order(v) == t0[v] as int);
                }
                assert forall|i: int| 0 <= i < head implies ord0[queue@[i] as int] as int == offset + i by {
                    assert(self.order(queue@[i] as int) == offset + i);
                }
            }
            self.topological_order.set(current, new_idx);
            new_idx = new_idx + 1;
            head = head + 1;
            proof {
                assert forall|i: int| 0 <= i < head implies self.order(#[trigger] queue@[i] as int) == offset + i by {
                    if i < head - 1 {
                        assert(queue@[i] != current);
                        assert(self.topological_order@[queue@[i] as int] == ord0[queue@[i] as int]);
                    }
                }
            }
            let k = self.children[current].len();
            self.topo_steps = self.topo_steps.wrapping_add(k);
            proof {
                assert forall|v: int| 0 <= v < n implies #[trigger] done[v] == queue@.subrange(0, head as int).contains(v as usize) by {
                    if v != current as int {
                        assert(queue@.subrange(0, head as int).contains(v as usize) == queue@.subrange(0, head - 1).contains(v as usize)) by {
                            if queue@.subrange(0, head as int).contains(v as usize) {
                                let j = choose|j: int| 0 <= j < head && #[trigger] queue@.subrange(0, head as int)[j] == v as usize;
                                assert(queue@.subrange(0, head - 1)[j] == v as usize);
                            }
                            if queue@.subrange(0, head - 1).contains(v as usize) {
                                let j = choose|j: int| 0 <= j < head - 1 && #[trigger] queue@.subrange(0, head - 1)[j] == v as usize;
                                assert(queue@.subrange(0, head as int)[j] == v as usize);
                            }
                        }
                    } else {
                        assert(queue@.subrange(0, head as int)[head - 1] == current);
                    }
                }
                assert forall|v: int| 0 <= v < n && !done[v] implies #[trigger] self.order(v) == t0[v] as int by {
                    assert(v != current as int);
                    assert(!done0[v]);
                    assert(self.topological_order@[v] == ord0[v]);
                }
                assert forall|c: int| 0 <= c < n implies (#[trigger] self.order(c) >= offset) == (t0[c] >= offset) by {
                    if done[c] {
                        let j = choose|j: int| 0 <= j < head && #[trigger] queue@.subrange(0, head as int)[j] == c as usize;
                        assert(queue@[j] == c as usize);
                        assert(self.order(queue@[j] as int) == offset + j);
                    }
                }
            }
            let unsorted = self.region_children(current, offset);
            assert forall|i: int| 0 <= i < unsorted@.len() implies (#[trigger] unsorted@[i]) < self.num_nodes by {
                assert(unsorted@.contains(unsorted@[i]));
            }
            let list = if self.topo_sort_children { self.sort_by_order(unsorted) } else { unsorted };
            proof {
                assert forall|c: usize| #[trigger] list@.contains(c) <==> (d0.edge(current as int, c as int) && c < n && t0[c as int] >= offset) by {
                    if list@.contains(c) { assert(unsorted@.contains(c)); assert(self.edge(current as int, c as int)); }
                    if d0.edge(current as int, c as int) && t0[c as int] >= offset {
                        assert(self.edge(current as int, c as int));
                        assert(unsorted@.contains(c));
                    }
                }
                assert forall|c: int| 0 <= c < n && t0[c] >= offset && !done[c] implies #[trigger] indeg@[c] as int
                    == pending_parents(&d0, t0, offset, c, done, n as int) + if list@.contains(c as usize) { 1int } else { 0int } by {
                    lemma_pending_done(&d0, t0, offset, c, done0, current as int, n as int);
                }
                assert forall|c: int| 0 <= c < n && queued[c] && !done[c] implies pending_parents(&d0, t0, offset, c, done, n as int) == 0
                    && !list@.contains(c as usize) by {
                    lemma_pending_zero(&d0, t0, offset, c, done0, n as int);
                    lemma_pending_done(&d0, t0, offset, c, done0, current as int, n as int);
                    if list@.contains(c as usize) { assert(d0.edge(current as int, c)); }
                }
            }
            assert(list@.subrange(0, list@.len() as int) =~= list@);
            let ghost m0 = 2 * unused_upto(queued, n as int) + queue@.len() - head;
            let mut t: usize = 0;
            while t < list.len()
                invariant
                    n == self.num_nodes,
                    self.wf(),
                    t <= list@.len(),
                    list@.no_duplicates(),
                    current < n,
                    head >= 1,
                    current == queue@[head - 1],
                    done[current as int],
                    node_id < n,
                    t0 == d0.topological_order@,
                    offset == t0[node_id as int],
                    offset + n <= usize::MAX,
                    new_idx == offset + head,
                    self.topological_order@.len() == n,
                    self.children == d0.children,
                    self.parents == d0.parents,
                    self.products == d0.products,
                    self.roots == d0.roots,
                    self.num_cliffords == d0.num_cliffords,
                    self.max_qubit == d0.max_qubit,
                    self.topo_sort_children == d0.topo_sort_children,
                    self.update_topo_calls == d0.update_topo_calls + 1,
                    forall|i: int| 0 <= i < head ==> self.order(#[trigger] queue@[i] as int) == offset + i,
                    forall|v: int| 0 <= v < n && !done[v] ==> #[trigger] self.order(v) == t0[v] as int,
                    forall|c: usize| #[trigger] list@.contains(c) <==> (d0.edge(current as int, c as int) && c < n && t0[c as int] >= offset),
                    head <= queue@.len(),
                    queued.len() == n,
                    done.len() == n,
                    queue@.no_duplicates(),
                    forall|v: int| 0 <= v < n ==> #[trigger] queued[v] == queue@.contains(v as usize),
                    forall|v: int| 0 <= v < n ==> #[trigger] done[v] == queue@.subrange(0, head as int).contains(v as usize),
                    forall|i: int| 0 <= i < queue@.len() ==> (#[trigger] queue@[i]) < n && t0[queue@[i] as int] >= offset,
                    indeg@.len() == n,
                    forall|c: int| 0 <= c < n && t0[c] >= offset && !done[c] ==> #[trigger] indeg@[c] as int
                        == pending_parents(&d0, t0, offset, c, done, n as int)
                        + if list@.subrange(t as int, list@.len() as int).contains(c as usize) { 1int } else { 0int },
                    forall|c: int| 0 <= c < n && queued[c] && !done[c] ==> pending_parents(&d0, t0, offset, c, done, n as int) == 0
                        && !list@.subrange(t as int, list@.len() as int).contains(c as usize),
                    forall|i: int, p: int| 0 <= i < queue@.len() && 0 <= p < n && t0[p] >= offset
                        && #[trigger] d0.edge(p, queue@[i] as int) ==> queue@.subrange(0, i).contains(p as usize),
                    queue@.len() + unused_upto(queued, n as int) == n,
                    2 * unused_upto(queued, n as int) + queue@.len() - head <= m0,
                    d0.wf(),
                    d0.num_nodes == n,
                decreases list@.len() - t,
            {
                let c = list[t];
                assert(list@.contains(c));
                assert(c < n);
                assert(list@.subrange(t as int, list@.len() as int)[0] == c);
                assert(!done[c as int]) by {
                    if done[c as int] {
                        let j = choose|j: int| 0 <= j < head && #[trigger] queue@.subrange(0, head as int)[j] == c;
                        assert(queue@[j] == c);
                        assert(d0.edge(current as int, c as int));
                        if c == current {
                            lemma_pending_zero(&d0, t0, offset, c as int, done, n as int);
                        } else {
                            assert(queue@.subrange(0, j).contains(current));
                            let jj = choose|jj: int| 0 <= jj < j && #[trigger] queue@.subrange(0, j)[jj] == current;
                            assert(queue@[jj] == current);
                            assert(queue@.subrange(0, head as int)[head - 1] == current);
                        }
                    }
                }
                let v = indeg[c];
                let ghost rest0 = list@.subrange(t as int, list@.len() as int);
                let ghost rest1 = list@.subrange(t + 1, list@.len() as int);
                proof {
                    assert(rest0 =~= seq![c] + rest1);
                    assert(!rest1.contains(c)) by {
                        if rest1.contains(c) {
                            let j = choose|j: int| 0 <= j < rest1.len() && rest1[j] == c;
                            assert(list@[t + 1 + j] == list@[t as int]);
                        }
                    }
                    assert forall|x: usize| x != c implies (#[trigger] rest1.contains(x) == rest0.contains(x)) by {
                        if rest0.contains(x) {
                            let j = choose|j: int| 0 <= j < rest0.len() && rest0[j] == x;
                            assert(j > 0);
                            assert(rest1[j - 1] == x);
                        }
                        if rest1.contains(x) {
                            let j = choose|j: int| 0 <= j < rest1.len() && rest1[j] == x;
                            assert(rest0[j + 1] == x);
                        }
                    }
                }
                indeg.set(c, v - 1);
                if v - 1 == 0 {
                    proof {
                        assert(!queued[c as int]);
                        lemma_unused_set(queued, c as int, n as int);
                        lemma_pending_zero(&d0, t0, offset, c as int, done, n as int);
                    }
                    let ghost q0 = queue@;
                    queue.push(c);
                    proof {
                        queued = queued.update(c as int, true);
                        assert forall|x: int| 0 <= x < n implies #[trigger] queued[x] == queue@.contains(x as usize) by {
                            if x == c as int { assert(queue@[q0.len() as int] == c); }
                            else {
                                if queue@.contains(x as usize) {
                                    let j = choose|j: int| 0 <= j < queue@.len() && queue@[j] == x as usize;
                                    if j < q0.len() { assert(q0[j] == x as usize); }
                                }
                                if q0.contains(x as usize) {
                                    let j = choose|j: int| 0 <= j < q0.len() && q0[j] == x as usize;
                                    assert(queue@[j] == x as usize);
                                }
                            }
                        }
                        assert forall|a: int, b: int| 0 <= a < b < queue@.len() implies queue@[a] != queue@[b] by {
                            if b == q0.len() { assert(q0.contains(q0[a])); }
                        }
                        assert(queue@.subrange(0, head as int) =~= q0.subrange(0, head as int));
                        assert forall|x: int| 0 <= x < n implies #[trigger] done[x] == queue@.subrange(0, head as int).contains(x as usize) by {}
                        assert forall|i: int, p: int| 0 <= i < queue@.len() && 0 <= p < n && t0[p] >= offset
                            && #[trigger] d0.edge(p, queue@[i] as int) implies queue@.subrange(0, i).contains(p as usize) by {
                            if i < q0.len() {
                                assert(queue@.subrange(0, i) =~= q0.subrange(0, i));
                                assert(q0[i] == queue@[i]);
                            } else {
                                assert(done[p]);
                                let j = choose|j: int| 0 <= j < head && #[trigger] queue@.subrange(0, head as int)[j] == p as usize;
                                assert(queue@.subrange(0, i)[j] == p as usize);
                            }
                        }
                    }
                }
                t += 1;
            }
        }
        proof {
            let popped = queue@;
            assert(queue@.subrange(0, head as int) =~= queue@);
            assert(self.renumbered(t0, offset, popped)) by {
                assert forall|v: int| 0 <= v < n && !popped.contains(v as usize) implies #[trigger] self.order(v) == t0[v] as int by {
                    assert(!done[v]);
                }
                assert forall|i: int, p: int| 0 <= i < popped.len() && 0 <= p < n && t0[p] >= offset
                    && #[trigger] self.edge(p, popped[i] as int) implies popped.subrange(0, i).contains(p as usize) by {
                    assert(d0.edge(p, popped[i] as int));
                }
            }
        }
    }
}

/// In renumbered nodes every edge between two of them goes forward.
pub proof fn lemma_renumbered_forward(d: &PauliProductDag, t0: Seq<usize>, offset: usize, popped: Seq<usize>)
    requires
        d.renumbered(t0, offset, popped),
    ensures
        forall|i: int, j: int| 0 <= i < popped.len() && 0 <= j < popped.len()
            && #[trigger] d.edge(popped[j] as int, popped[i] as int) ==> d.order(popped[j] as int) < d.order(popped[i] as int),
{
    assert forall|i: int, j: int| 0 <= i < popped.len() && 0 <= j < popped.len()
        && #[trigger] d.edge(popped[j] as int, popped[i] as int) implies d.order(popped[j] as int) < d.order(popped[i] as int) by {
        assert(popped.subrange(0, i).contains(popped[j]));
        let k = choose|k: int| 0 <= k < i && #[trigger] popped.subrange(0, i)[k] == popped[j];
        assert(popped[k] == popped[j]);
    }
}

/// Every term of every product is a Pauli basis with a phase in range.
pub open spec fn terms_ok(ps: Seq<PauliProduct>) -> bool {
    forall|v: int, i: int| 0 <= v < ps.len() && 0 <= i < ps[v].terms@.len() ==> term_ok(#[trigger] ps[v].terms@[i])
}

/// `p` is what moving `rhs` to the left of the Clifford rotation `l` gives.
pub open spec fn commuted(l: PauliProduct, rhs: PauliProduct, p: PauliProduct) -> bool {
    &&& anticommuting(l.terms@, rhs.terms@) % 2 == 0 ==> p.terms@ == rhs.terms@ && p.angle == rhs.angle && p.layer == rhs.layer
    &&& anticommuting(l.terms@, rhs.terms@) % 2 != 0 ==> {
        &&& p.angle == rhs.angle
        &&& p.layer == 0
        &&& forall|a: int, b: int| 0 <= a < b < p.terms@.len() ==> p.terms@[a].qubit < p.terms@[b].qubit
        &&& forall|q: i32| (exists|k: int| 0 <= k < p.terms@.len() && #[trigger] p.terms@[k].qubit == q)
            <==> (on_qubit(l.terms@, q) || on_qubit(rhs.terms@, q))
        &&& forall|k: int| 0 <= k < p.terms@.len() ==> #[trigger] p.terms@[k]
            == merged_term(l.terms@, rhs.terms@, p.terms@[k].qubit, l.angle)
    }
}

/// Merging terms that are in range gives a term in range.
proof fn lemma_merged_ok(l: Seq<PauliTerm>, r: Seq<PauliTerm>, q: i32, angle: Angle)
    requires
        forall|i: int| 0 <= i < l.len() ==> term_ok(#[trigger] l[i]),
        forall|i: int| 0 <= i < r.len() ==> term_ok(#[trigger] r[i]),
    ensures
        term_ok(merged_term(l, r, q, angle)),
{
    lemma_last_term(l, q);
    lemma_last_term(r, q);
    if let Some(a) = crate::transpile::last_term(l, q) {
        let i = choose|i: int| 0 <= i < l.len() && l[i] == a;
        assert(term_ok(l[i]));
    }
    if let Some(b) = crate::transpile::last_term(r, q) {
        let i = choose|i: int| 0 <= i < r.len() && r[i] == b;
        assert(term_ok(r[i]));
    }
}

impl PauliProductDag {
    /// Moves the non-Clifford node `node_id` to the left of its Clifford
    /// parent `parent_id`: its product becomes the product conjugated by the
    /// Clifford rotation, the two nodes are exchanged (see `swap_nodes`), and
    /// when either is then out of order the order is renumbered from
    /// `node_id` on.
    pub fn commute_clifford_right(&mut self, parent_id: usize, node_id: usize)
        requires
            old(self).wf(),
            old(self).order_respected(),
            old(self).clifford(parent_id as int),
            old(self).edge(parent_id as int, node_id as int),
            terms_ok(old(self).products@),
            old(self).order(parent_id as int) + old(self).num_nodes <= usize::MAX,
            old(self).update_topo_calls < usize::MAX,
        ensures
            final(self).wf(),
            terms_ok(final(self).products@),
            final(self).products@.len() == old(self).products@.len(),
            commuted(old(self).products@[parent_id as int], old(self).products@[node_id as int], final(self).products@[node_id as int]),
            forall|v: int| 0 <= v < final(self).num_nodes && v != node_id ==> #[trigger] final(self).products@[v] == old(self).products@[v],
            final(self).edge(node_id as int, parent_id as int),
            !final(self).edge(parent_id as int, node_id as int),
            final(self).swap_changes(&*old(self), parent_id as int, node_id as int),
            final(self).num_nodes == old(self).num_nodes,
            final(self).num_cliffords == old(self).num_cliffords,
            final(self).max_qubit == old(self).max_qubit,
            final(self).topo_sort_children == old(self).topo_sort_children,
    {
        let ghost d0 = *self;
        proof {
            assert forall|i: int| 0 <= i < self.products@[parent_id as int].terms@.len()
                implies term_ok(#[trigger] self.products@[parent_id as int].terms@[i]) by {}
            assert forall|i: int| 0 <= i < self.products@[node_id as int].terms@.len()
                implies term_ok(#[trigger] self.products@[node_id as int].terms@[i]) by {}
        }
        let new_node_prod = self.products[parent_id].commute_right(&self.products[node_id]);
        proof {
            let l = d0.products@[parent_id as int];
            let r = d0.products@[node_id as int];
            assert forall|i: int| 0 <= i < new_node_prod.terms@.len() implies term_ok(#[trigger] new_node_prod.terms@[i]) by {
                if anticommuting(l.terms@, r.terms@) % 2 != 0 {
                    lemma_merged_ok(l.terms@, r.terms@, new_node_prod.terms@[i].qubit, l.angle);
                } else {
                    assert(new_node_prod.terms@[i] == r.terms@[i]);
                }
            }
        }
        let mut tmp = new_node_prod;
        self.products.set_and_swap(node_id, &mut tmp);
        let ghost d1 = *self;
        proof {
            assert forall|p: int, c: int| #[trigger] self.edge(p, c) == d0.edge(p, c) by {}
            assert forall|p: int, c: int| #[trigger] self.edge(p, c) implies self.order(p) < self.order(c) by {
                assert(d0.edge(p, c));
            }
            assert(self.clifford(parent_id as int)) by {
                assert(self.products@[parent_id as int] == d0.products@[parent_id as int]);
            }
        }
        self.swap_nodes(parent_id, node_id);
        let ghost d2 = *self;
        if self.is_bad_topo_order(node_id) || self.is_bad_topo_order(parent_id) {
            proof {
                assert(self.order(node_id as int) == d0.order(parent_id as int));
            }
            self.update_topological_order_starting_at(node_id);
        }
        proof {
            assert forall|p: int, c: int| #[trigger] self.edge(p, c) == d2.edge(p, c) by {}
            assert forall|p: int, c: int| p != parent_id && p != node_id && c != parent_id && c != node_id
                implies (#[trigger] self.edge(p, c) == d0.edge(p, c)) by {
                assert(d2.edge(p, c) == d1.edge(p, c));
                assert(d1.edge(p, c) == d0.edge(p, c));
            }
            assert forall|p: int, c: int| #[trigger] self.edge(p, c) && !d0.edge(p, c) implies
                (p == node_id && c == parent_id) || (c == node_id && d0.edge(p, parent_id as int)) || (p == parent_id && d0.edge(node_id as int, c)) by {
                assert(d2.edge(p, c));
                assert(d1.edge(p, c) == d0.edge(p, c));
                assert(d1.edge(p, parent_id as int) == d0.edge(p, parent_id as int));
                assert(d1.edge(node_id as int, c) == d0.edge(node_id as int, c));
            }
            assert(self.edge(node_id as int, parent_id as int) == d2.edge(node_id as int, parent_id as int));
            assert(self.edge(parent_id as int, node_id as int) == d2.edge(parent_id as int, node_id as int));
            assert forall|v: int, i: int| 0 <= v < self.products@.len() && 0 <= i < self.products@[v].terms@.len()
                implies term_ok(#[trigger] self.products@[v].terms@[i]) by {
                if v != node_id as int { assert(self.products@[v] == d0.products@[v]); }
            }
            assert forall|v: int| 0 <= v < self.num_nodes && v != node_id implies #[trigger] self.products@[v] == d0.products@[v] by {}
        }
    }
}


/// The values of `s` increase strictly.
pub open spec fn increasing(s: Seq<usize>) -> bool {
    forall|a: int, b: int| 0 <= a < b < s.len() ==> s[a] < s[b]
}

/// Whether `v` holds `x`.
fn holds(v: &Vec<usize>, x: usize) -> (r: bool)
    ensures
        r == v@.contains(x),
{
    let mut i: usize = 0;
    while i < v.len()
        invariant
            i <= v@.len(),
            forall|j: int| 0 <= j < i ==> v@[j] != x,
        decreases v@.len() - i,
    {
        if v[i] == x {
            return true;
        }
        i += 1;
    }
    false
}

/// Appending keeps what a sequence holds and adds the new value.
proof fn lemma_push_keeps(o: Seq<usize>, x: usize)
    ensures
        forall|v: usize| #[trigger] o.push(x).contains(v) <==> o.contains(v) || v == x,
{
    assert forall|v: usize| #[trigger] o.push(x).contains(v) <==> o.contains(v) || v == x by {
        if o.contains(v) {
            let j = choose|j: int| 0 <= j < o.len() && o[j] == v;
            assert(o.push(x)[j] == v);
        }
        if v == x {
            assert(o.push(x)[o.len() as int] == v);
        }
        if o.push(x).contains(v) {
            let j = choose|j: int| 0 <= j < o.len() + 1 && o.push(x)[j] == v;
            if j < o.len() {
                assert(o[j] == v);
            }
        }
    }
}

/// No more flags are set than there are.
proof fn lemma_count_le(s: Seq<bool>)
    ensures
        crate::greedypath::count_true(s) <= s.len(),
    decreases s.len(),
{
    if s.len() > 0 {
        lemma_count_le(s.drop_last());
    }
}

impl PauliProductDag {
    /// The non-Clifford nodes still to be commuted past Clifford nodes, in
    /// increasing order. Nodes are taken in order, skipping Clifford nodes
    /// and nodes reached by an earlier search; a root or childless node is
    /// taken at once; otherwise a depth-first search over its descendants
    /// takes it as soon as some searched node has a Clifford child or a
    /// child already taken. Every non-Clifford node without parents is
    /// among them.
    pub fn collect_uncommuted_noncliffords(&self) -> (r: Vec<usize>)
        requires
            self.wf(),
        ensures
            increasing(r@),
            forall|i: int| 0 <= i < r@.len() ==> (#[trigger] r@[i]) < self.num_nodes && !self.clifford(r@[i] as int),
            forall|v: usize| v < self.num_nodes && !self.clifford(v as int) && self.parents@[v as int]@.len() == 0
                ==> #[trigger] r@.contains(v),
    {
        let n = self.num_nodes;
        let mut out: Vec<usize> = Vec::new();
        let mut visited: Vec<bool> = Vec::new();
        let mut k: usize = 0;
        while k < n
            invariant
                k <= n,
                visited@.len() == k,
                forall|v: int| 0 <= v < k ==> !(#[trigger] visited@[v]),
            decreases n - k,
        {
            visited.push(false);
            k += 1;
        }
        let mut node_id: usize = 0;
        while node_id < n
            invariant
                self.wf(),
                n == self.num_nodes,
                node_id <= n,
                visited@.len() == n,
                increasing(out@),
                forall|i: int| 0 <= i < out@.len() ==> (#[trigger] out@[i]) < node_id && !self.clifford(out@[i] as int),
                forall|v: usize| v < node_id && !self.clifford(v as int) && self.parents@[v as int]@.len() == 0
                    ==> #[trigger] out@.contains(v),
                forall|v: int| node_id <= v < n && self.parents@[v]@.len() == 0 ==> !(#[trigger] visited@[v]),
            decreases n - node_id,
        {
            if visited[node_id] || self.is_clifford(node_id) {
                node_id += 1;
                continue;
            }
            if self.is_root(node_id) || self.children[node_id].len() == 0 {
                let ghost o = out@;
                out.push(node_id);
                proof {
                    lemma_push_keeps(o, node_id);
                }
                node_id += 1;
                continue;
            }
            let mut node_visited: Vec<bool> = Vec::new();
            let mut k2: usize = 0;
            while k2 < n
                invariant
                    k2 <= n,
                    node_visited@.len() == k2,
                    forall|v: int| 0 <= v < k2 ==> !(#[trigger] node_visited@[v]),
                decreases n - k2,
            {
                node_visited.push(false);
                k2 += 1;
            }
            proof {
                crate::greedypath::lemma_count_true_none(node_visited@);
            }
            let mut taken = false;
            let mut stack: Vec<usize> = Vec::new();
            stack.push(node_id);
            while stack.len() > 0
                invariant
                    self.wf(),
                    n == self.num_nodes,
                    node_id < n,
                    node_visited@.len() == n,
                    crate::greedypath::count_true(node_visited@) <= n,
                    forall|j: int| 0 <= j < stack@.len() ==> (#[trigger] stack@[j]) < n
                        && (stack@[j] == node_id || self.parents@[stack@[j] as int]@.len() > 0),
                    forall|v: int| 0 <= v < n && #[trigger] node_visited@[v] ==> v == node_id || self.parents@[v]@.len() > 0,
                decreases n - crate::greedypath::count_true(node_visited@), stack@.len(),
            {
                let ghost st0 = stack@;
                let current = stack.pop().unwrap();
                proof {
                    assert(current == st0[st0.len() - 1]);
                    assert forall|t: int| 0 <= t < stack@.len() implies stack@[t] == st0[t] by {}
                }
                if node_visited[current] {
                    continue;
                }
                let ghost nv0 = node_visited@;
                node_visited.set(current, true);
                proof {
                    crate::greedypath::lemma_count_true_update(nv0, current as int, true);
                    lemma_count_le(node_visited@);
                }
                let cs = &self.children[current];
                let mut j: usize = 0;
                while j < cs.len()
                    invariant
                        self.wf(),
                        n == self.num_nodes,
                        current < n,
                        cs == self.children@[current as int],
                        j <= cs@.len(),
                        forall|t: int| 0 <= t < stack@.len() ==> (#[trigger] stack@[t]) < n
                            && (stack@[t] == node_id || self.parents@[stack@[t] as int]@.len() > 0),
                    decreases cs@.len() - j,
                {
                    let child_id = cs[j];
                    proof {
                        assert(self.children@[current as int]@.contains(child_id));
                        assert(self.parents@[child_id as int]@.contains(current));
                    }
                    if self.is_clifford(child_id) || holds(&out, child_id) {
                        taken = true;
                        break;
                    }
                    stack.push(child_id);
                    j += 1;
                }
            }
            if taken {
                let ghost o = out@;
                out.push(node_id);
                proof {
                    lemma_push_keeps(o, node_id);
                }
            }
            let mut m: usize = 0;
            while m < n
                invariant
                    m <= n,
                    visited@.len() == n,
                    node_visited@.len() == n,
                    forall|v: int| 0 <= v < n && #[trigger] node_visited@[v] ==> v == node_id || self.parents@[v]@.len() > 0,
                    forall|v: int| node_id < v < n && self.parents@[v]@.len() == 0 ==> !(#[trigger] visited@[v]),
                decreases n - m,
            {
                if node_visited[m] {
                    visited.set(m, true);
                }
                m += 1;
            }
            node_id += 1;
        }
        out
    }
}


/// Node `x` has no Clifford parent and no parent in `unc`.
pub open spec fn settled(d: &PauliProductDag, x: int, unc: Seq<usize>) -> bool {
    forall|p: int| #[trigger] d.edge(p, x) ==> !d.clifford(p) && !unc.contains(p as usize)
}

/// `s` without the values of `f`, in order.
fn without_ids(s: &Vec<usize>, f: &Vec<usize>) -> (r: Vec<usize>)
    requires
        increasing(s@),
    ensures
        increasing(r@),
        forall|x: usize| #[trigger] r@.contains(x) <==> s@.contains(x) && !f@.contains(x),
{
    let mut r: Vec<usize> = Vec::new();
    let mut i: usize = 0;
    while i < s.len()
        invariant
            i <= s@.len(),
            increasing(s@),
            increasing(r@),
            forall|j: int, k: int| 0 <= j < r@.len() && i <= k < s@.len() ==> #[trigger] r@[j] < #[trigger] s@[k],
            forall|x: usize| #[trigger] r@.contains(x) <==> s@.take(i as int).contains(x) && !f@.contains(x),
        decreases s@.len() - i,
    {
        let x = s[i];
        let ghost r0 = r@;
        proof {
            assert(s@.take(i + 1) == s@.take(i as int).push(x));
            lemma_push_keeps(s@.take(i as int), x);
        }
        if !holds(f, x) {
            r.push(x);
            proof {
                lemma_push_keeps(r0, x);
                assert forall|a: int, b: int| 0 <= a < b < r@.len() implies r@[a] < r@[b] by {
                    if b == r0.len() {
                        assert(r@[a] == r0[a]);
                        assert(r0[a] < s@[i as int]);
                    } else {
                        assert(r@[a] == r0[a] && r@[b] == r0[b]);
                    }
                }
                assert forall|j: int, k: int| 0 <= j < r@.len() && i + 1 <= k < s@.len() implies #[trigger] r@[j] < #[trigger] s@[k] by {
                    if j < r0.len() {
                        assert(r@[j] == r0[j]);
                    } else {
                        assert(r@[j] == s@[i as int]);
                    }
                }
            }
        }
        i += 1;
    }
    assert(s@.take(s@.len() as int) =~= s@);
    r
}

impl PauliProductDag {
    /// The topological order puts every node after its parents.
    pub fn order_is_respected(&self) -> (r: bool)
        requires
            self.wf(),
        ensures
            r == self.order_respected(),
    {
        let n = self.num_nodes;
        let mut p: usize = 0;
        while p < n
            invariant
                self.wf(),
                n == self.num_nodes,
                p <= n,
                forall|a: int, c: int| 0 <= a < p && #[trigger] self.edge(a, c) ==> self.order(a) < self.order(c),
            decreases n - p,
        {
            let cs = &self.children[p];
            let mut j: usize = 0;
            while j < cs.len()
                invariant
                    self.wf(),
                    n == self.num_nodes,
                    p < n,
                    cs == self.children@[p as int],
                    j <= cs@.len(),
                    forall|a: int, c: int| 0 <= a < p && #[trigger] self.edge(a, c) ==> self.order(a) < self.order(c),
                    forall|k: int| 0 <= k < j ==> self.order(p as int) < self.order(#[trigger] cs@[k] as int),
                decreases cs@.len() - j,
            {
                let c = cs[j];
                if self.topological_order[p] >= self.topological_order[c] {
                    proof {
                        assert(self.edge(p as int, c as int));
                    }
                    return false;
                }
                j += 1;
            }
            proof {
                assert forall|a: int, c: int| 0 <= a < p + 1 && #[trigger] self.edge(a, c) implies self.order(a) < self.order(c) by {
                    if a == p {
                        let k = choose|k: int| 0 <= k < cs@.len() && cs@[k] == c as usize;
                        assert(self.order(p as int) < self.order(cs@[k] as int));
                    }
                }
            }
            p += 1;
        }
        true
    }

    /// Commutes the Clifford nodes past the non-Clifford ones, in rounds, for
    /// at most `max_rounds` rounds. The non-Clifford nodes to move are those
    /// `collect_uncommuted_noncliffords` gives. In a round each of them, in
    /// increasing order, is either found done (no Clifford parent and no
    /// parent still to move), or has its latest Clifford parent on which it
    /// depends only directly moved past it (`commute_clifford_right`); the
    /// nodes found done leave the set at the end of the round. `Ok(true)`
    /// when the set empties, `Ok(false)` when the rounds run out first.
    /// Errors: the topological order no longer respects an edge (`BadOrder`),
    /// the chosen parent is also a child (`Loop`), or a position or counter
    /// would overflow (`Overflow`). Whatever the outcome, Clifford nodes and
    /// which nodes are Clifford stay as they were; on `Ok(true)` every node
    /// of the set, and so every non-Clifford node that had no parent, is
    /// left with no Clifford parent.
    pub fn commute_all_cliffords(&mut self, max_rounds: usize) -> (r: Result<bool, DagError>)
        requires
            old(self).wf(),
            terms_ok(old(self).products@),
        ensures
            final(self).wf(),
            terms_ok(final(self).products@),
            final(self).num_nodes == old(self).num_nodes,
            final(self).num_cliffords == old(self).num_cliffords,
            final(self).products@.len() == old(self).products@.len(),
            forall|v: int| 0 <= v < old(self).num_nodes ==> #[trigger] final(self).clifford(v) == old(self).clifford(v),
            forall|v: int| 0 <= v < old(self).num_nodes && old(self).clifford(v) ==> #[trigger] final(self).products@[v] == old(self).products@[v],
            r == Ok::<bool, DagError>(true) ==> exists|s: Seq<usize>| #![trigger increasing(s)] {
                &&& increasing(s)
                &&& forall|i: int| 0 <= i < s.len() ==> (#[trigger] s[i]) < old(self).num_nodes && !old(self).clifford(s[i] as int)
                &&& forall|v: usize| v < old(self).num_nodes && !old(self).clifford(v as int) && old(self).parents@[v as int]@.len() == 0
                    ==> #[trigger] s.contains(v)
                &&& forall|x: usize| #[trigger] s.contains(x) ==> forall|p: int| #[trigger] final(self).edge(p, x as int) ==> !final(self).clifford(p)
            },
    {
        let ghost d0 = *self;
        let n = self.num_nodes;
        let mut unc = self.collect_uncommuted_noncliffords();
        let ghost init = unc@;
        let mut rounds: usize = 0;
        while unc.len() > 0
            invariant
                self.wf(),
                terms_ok(self.products@),
                n == self.num_nodes,
                n == d0.num_nodes,
                d0 == *old(self),
                self.num_cliffords == d0.num_cliffords,
                self.products@.len() == d0.products@.len(),
                forall|v: int| 0 <= v < n ==> #[trigger] self.clifford(v) == d0.clifford(v),
                forall|v: int| 0 <= v < n && d0.clifford(v) ==> #[trigger] self.products@[v] == d0.products@[v],
                increasing(init),
                forall|i: int| 0 <= i < init.len() ==> (#[trigger] init[i]) < n && !d0.clifford(init[i] as int),
                forall|v: usize| v < n && !d0.clifford(v as int) && d0.parents@[v as int]@.len() == 0 ==> #[trigger] init.contains(v),
                increasing(unc@),
                forall|x: usize| #[trigger] unc@.contains(x) ==> init.contains(x),
                forall|x: usize| init.contains(x) && !unc@.contains(x) ==> #[trigger] settled(&*self, x as int, unc@),
                rounds <= max_rounds,
            decreases max_rounds - rounds,
        {
            if rounds == max_rounds {
                return Ok(false);
            }
            rounds += 1;
            let mut finished: Vec<usize> = Vec::new();
            let mut idx: usize = 0;
            while idx < unc.len()
                invariant
                    self.wf(),
                    terms_ok(self.products@),
                    n == self.num_nodes,
                    n == d0.num_nodes,
                    d0 == *old(self),
                    self.num_cliffords == d0.num_cliffords,
                    self.products@.len() == d0.products@.len(),
                    forall|v: int| 0 <= v < n ==> #[trigger] self.clifford(v) == d0.clifford(v),
                    forall|v: int| 0 <= v < n && d0.clifford(v) ==> #[trigger] self.products@[v] == d0.products@[v],
                    increasing(init),
                    forall|i: int| 0 <= i < init.len() ==> (#[trigger] init[i]) < n && !d0.clifford(init[i] as int),
                    forall|v: usize| v < n && !d0.clifford(v as int) && d0.parents@[v as int]@.len() == 0 ==> #[trigger] init.contains(v),
                    increasing(unc@),
                    forall|x: usize| #[trigger] unc@.contains(x) ==> init.contains(x),
                    idx <= unc@.len(),
                    forall|x: usize| #[trigger] finished@.contains(x) ==> unc@.subrange(0, idx as int).contains(x),
                    forall|x: usize| (init.contains(x) && !unc@.contains(x)) || finished@.contains(x)
                        ==> #[trigger] settled(&*self, x as int, unc@),
                decreases unc@.len() - idx,
            {
                let node = unc[idx];
                proof {
                    assert(unc@.contains(node));
                    assert(init.contains(node));
                    let k = choose|k: int| 0 <= k < init.len() && init[k] == node;
                    assert(init[k] < n);
                }
                let ghost fin0 = finished@;
                if self.done_commuting_nonclifford(node, &unc) {
                    finished.push(node);
                    proof {
                        lemma_push_keeps(fin0, node);
                        assert(unc@.subrange(0, idx + 1) == unc@.subrange(0, idx as int).push(node));
                        lemma_push_keeps(unc@.subrange(0, idx as int), node);
                        assert(settled(&*self, node as int, unc@));
                    }
                    idx += 1;
                    continue;
                }
                if !self.order_is_respected() {
                    return Err(DagError::BadOrder);
                }
                match self.get_youngest_valid_parent_clifford(node) {
                    Some(p) => {
                        if holds(&self.children[node], p) {
                            return Err(DagError::Loop);
                        }
                        if self.topological_order[p] > usize::MAX - n || self.update_topo_calls == usize::MAX {
                            return Err(DagError::Overflow);
                        }
                        let ghost d1 = *self;
                        proof {
                            // the node is not settled: it is still to move
                            assert forall|x: usize| (init.contains(x) && !unc@.contains(x)) || finished@.contains(x)
                                implies x != node by {
                                if finished@.contains(x) {
                                    assert(unc@.subrange(0, idx as int).contains(x));
                                    let j = choose|j: int| 0 <= j < idx && unc@.subrange(0, idx as int)[j] == x;
                                    assert(unc@[j] == x);
                                    assert(unc@[j] < unc@[idx as int]);
                                }
                            }
                        }
                        self.commute_clifford_right(p, node);
                        proof {
                            assert forall|v: int| 0 <= v < n implies #[trigger] self.clifford(v) == d0.clifford(v) by {
                                if v != node as int {
                                    assert(self.products@[v] == d1.products@[v]);
                                }
                                assert(d1.clifford(v) == d0.clifford(v));
                            }
                            assert forall|v: int| 0 <= v < n && d0.clifford(v) implies #[trigger] self.products@[v] == d0.products@[v] by {
                                assert(!d0.clifford(node as int));
                                assert(v != node as int);
                                assert(d1.products@[v] == d0.products@[v]);
                            }
                            assert forall|x: usize| (init.contains(x) && !unc@.contains(x)) || finished@.contains(x)
                                implies #[trigger] settled(&*self, x as int, unc@) by {
                                assert(x != node);
                                assert(settled(&d1, x as int, unc@));
                                let xi = x as int;
                                assert(!d0.clifford(xi)) by {
                                    if finished@.contains(x) {
                                        assert(unc@.subrange(0, idx as int).contains(x));
                                        let j = choose|j: int| 0 <= j < idx && unc@.subrange(0, idx as int)[j] == x;
                                        assert(unc@[j] == x);
                                        assert(unc@.contains(x));
                                    }
                                    assert(init.contains(x));
                                    let k = choose|k: int| 0 <= k < init.len() && init[k] == x;
                                }
                                assert forall|q: int| #[trigger] self.edge(q, xi) implies !self.clifford(q) && !unc@.contains(q as usize) by {
                                    if !d1.edge(q, xi) {
                                        // a new edge into x: only from p, copied from an edge node -> x
                                        assert(q == p as int && d1.edge(node as int, xi));
                                        assert(unc@.contains(node));
                                    } else {
                                        assert(!d1.clifford(q));
                                        if 0 <= q < n {
                                            assert(self.clifford(q) == d0.clifford(q));
                                            assert(d1.clifford(q) == d0.clifford(q));
                                        }
                                    }
                                }
                            }
                        }
                    },
                    None => {},
                }
                idx += 1;
            }
            let ghost unc0 = unc@;
            unc = without_ids(&unc, &finished);
            proof {
                assert(unc0.subrange(0, unc0.len() as int) =~= unc0);
                assert forall|x: usize| init.contains(x) && !unc@.contains(x) implies #[trigger] settled(&*self, x as int, unc@) by {
                    assert(settled(&*self, x as int, unc0));
                }
            }
        }
        proof {
            assert forall|x: usize| #[trigger] init.contains(x) implies forall|p: int| #[trigger] self.edge(p, x as int) ==> !self.clifford(p) by {
                assert(!unc@.contains(x));
                assert(settled(&*self, x as int, unc@));
            }
            assert(increasing(init));
        }
        Ok(true)
    }
}

} // verus!
